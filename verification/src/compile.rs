//! The statement compiler: the library's own statement shapes (what the
//! compiler reads out of a parsed statement), FROM-list normalization, and
//! the per-statement and whole-stream compilation drivers.

use vstd::prelude::*;
use vstd::relations::{sorted_by, total_ordering};
use vstd::seq_lib::lemma_sorted_unique;

use crate::Optimizations;
use crate::graph::{
    Column, CreateTableAst, EntryView, NodeKind, NodeView, TableEntry, TestNode, TestNodeData,
    append_node, copy_columns, graph_fits, graph_wf, gview, kind_laws, lemma_lookup_in_range,
    lookup_table, make_table, nview, register_table, spec_append, spec_base_node, spec_lookup,
    tables_wf, tview,
};
use crate::join::{
    all_resolve, copy_names, make_all_joins, make_combined_joins, make_joins_nonprefix_overlap,
    make_joins_with_permutations, spec_all_joins, spec_best_order, spec_combined, spec_nonprefix,
    spec_permutations,
};

verus! {

/// Why a compilation aborts. Parse failures are only counted; these are the
/// fatal conditions that stop the whole run, with everything already
/// appended left in the graph.
#[derive(Clone, Copy, Debug, PartialEq, Eq, Structural)]
pub enum CompileError {
    /// A construct the compiler does not support: a join right side that is
    /// not a plain table, or a compound view definition.
    UnsupportedConstruct,
    /// A FROM-list name with no binding in the table registry.
    UnresolvedTable,
    /// An empty join input.
    EmptyJoinInput,
}

/// The right side of one JOIN clause, reduced to what the compiler reads.
pub enum JoinRightAst {
    /// A plain table reference.
    Table(String),
    /// Any other shape: a table list, a nested select, or a nested join.
    Unsupported,
}

/// Ghost counterpart of `JoinRightAst`.
pub ghost enum JoinRightView {
    Table(Seq<char>),
    Unsupported,
}

impl View for JoinRightAst {
    type V = JoinRightView;

    open spec fn view(&self) -> JoinRightView {
        match self {
            JoinRightAst::Table(t) => JoinRightView::Table(t@),
            JoinRightAst::Unsupported => JoinRightView::Unsupported,
        }
    }
}

/// One field of a SELECT list, reduced to what the compiler reads.
pub enum FieldAst {
    /// `*`: all columns of the join result.
    All,
    /// `table.*`: all columns of that table's registered node.
    AllInTable(String),
    /// A literal or expression field; contributes no column.
    Value,
    /// A plain column reference by name.
    Col(String),
}

/// Ghost counterpart of `FieldAst`.
pub ghost enum FieldView {
    All,
    AllInTable(Seq<char>),
    Value,
    Col(Seq<char>),
}

impl View for FieldAst {
    type V = FieldView;

    open spec fn view(&self) -> FieldView {
        match self {
            FieldAst::All => FieldView::All,
            FieldAst::AllInTable(t) => FieldView::AllInTable(t@),
            FieldAst::Value => FieldView::Value,
            FieldAst::Col(c) => FieldView::Col(c@),
        }
    }
}

/// A parsed SELECT, reduced to what the compiler reads: the FROM-list, the
/// join right sides, and the field list.
pub struct SelectAst {
    pub tables: Vec<String>,
    pub join: Vec<JoinRightAst>,
    pub fields: Vec<FieldAst>,
}

/// Ghost counterpart of `SelectAst`.
pub ghost struct SelectView {
    pub tables: Seq<Seq<char>>,
    pub join: Seq<JoinRightView>,
    pub fields: Seq<FieldView>,
}

impl View for SelectAst {
    type V = SelectView;

    open spec fn view(&self) -> SelectView {
        SelectView {
            tables: nview(self.tables@),
            join: self.join@.map_values(|j: JoinRightAst| j@),
            fields: self.fields@.map_values(|f: FieldAst| f@),
        }
    }
}

/// The body of a CREATE VIEW.
pub enum ViewDefAst {
    /// A simple SELECT body.
    Simple(SelectAst),
    /// A compound (union) body; unsupported.
    Compound,
}

/// Ghost counterpart of `ViewDefAst`.
pub ghost enum ViewDefView {
    Simple(SelectView),
    Compound,
}

impl View for ViewDefAst {
    type V = ViewDefView;

    open spec fn view(&self) -> ViewDefView {
        match self {
            ViewDefAst::Simple(s) => ViewDefView::Simple(s@),
            ViewDefAst::Compound => ViewDefView::Compound,
        }
    }
}

/// A parsed CREATE VIEW, reduced to what the compiler reads.
pub struct CreateViewAst {
    pub name: String,
    pub definition: ViewDefAst,
}

/// Ghost counterpart of `CreateViewAst`.
pub ghost struct CreateViewView {
    pub name: Seq<char>,
    pub definition: ViewDefView,
}

impl View for CreateViewAst {
    type V = CreateViewView;

    open spec fn view(&self) -> CreateViewView {
        CreateViewView { name: self.name@, definition: self.definition@ }
    }
}

/// One statement of the input stream, as handed over by the parser.
pub enum SqlAst {
    Select(SelectAst),
    CreateTable(crate::graph::CreateTableAst),
    CreateView(CreateViewAst),
    /// Statements accepted but with no graph effect.
    Insert,
    Delete,
    DropTable,
    Update,
    SetStmt,
    /// A statement kind the compiler does not support (fatal).
    Unsupported,
    /// A statement the parser could not turn into a syntax tree (counted).
    ParseError,
}

/// Ghost counterpart of `SqlAst`.
pub ghost enum SqlView {
    Select(SelectView),
    CreateTable(crate::graph::CreateTableView),
    CreateView(CreateViewView),
    Insert,
    Delete,
    DropTable,
    Update,
    SetStmt,
    Unsupported,
    ParseError,
}

impl View for SqlAst {
    type V = SqlView;

    open spec fn view(&self) -> SqlView {
        match self {
            SqlAst::Select(s) => SqlView::Select(s@),
            SqlAst::CreateTable(t) => SqlView::CreateTable(t@),
            SqlAst::CreateView(v) => SqlView::CreateView(v@),
            SqlAst::Insert => SqlView::Insert,
            SqlAst::Delete => SqlView::Delete,
            SqlAst::DropTable => SqlView::DropTable,
            SqlAst::Update => SqlView::Update,
            SqlAst::SetStmt => SqlView::SetStmt,
            SqlAst::Unsupported => SqlView::Unsupported,
            SqlAst::ParseError => SqlView::ParseError,
        }
    }
}

/// Lexicographic order on names by character code point, the order in which
/// a FROM-list is normalized when sorting is enabled.
pub open spec fn lex_le(a: Seq<char>, b: Seq<char>) -> bool
    decreases a.len(),
{
    if a.len() == 0 {
        true
    } else if b.len() == 0 {
        false
    } else if a[0] == b[0] {
        lex_le(a.drop_first(), b.drop_first())
    } else {
        (a[0] as u32) < (b[0] as u32)
    }
}

/// The name order as a binary relation value.
pub open spec fn lex_leq() -> spec_fn(Seq<char>, Seq<char>) -> bool {
    |a: Seq<char>, b: Seq<char>| lex_le(a, b)
}

proof fn lemma_lex_refl(a: Seq<char>)
    ensures
        lex_le(a, a),
    decreases a.len(),
{
    if a.len() > 0 {
        lemma_lex_refl(a.drop_first());
    }
}

proof fn lemma_lex_antisym(a: Seq<char>, b: Seq<char>)
    requires
        lex_le(a, b),
        lex_le(b, a),
    ensures
        a == b,
    decreases a.len(),
{
    if a.len() == 0 {
        assert(b.len() == 0);
        assert(a =~= b);
    } else {
        assert(b.len() > 0);
        assert(a[0] == b[0]);
        lemma_lex_antisym(a.drop_first(), b.drop_first());
        assert(a.drop_first() == b.drop_first());
        assert forall|i: int| 0 <= i < a.len() implies a[i] == b[i] by {
            if i > 0 {
                assert(a.drop_first()[i - 1] == a[i]);
                assert(b.drop_first()[i - 1] == b[i]);
            }
        }
        assert(a =~= b);
    }
}

proof fn lemma_lex_trans(a: Seq<char>, b: Seq<char>, c: Seq<char>)
    requires
        lex_le(a, b),
        lex_le(b, c),
    ensures
        lex_le(a, c),
    decreases a.len(),
{
    if a.len() > 0 && b.len() > 0 && c.len() > 0 {
        if a[0] == b[0] && b[0] == c[0] {
            lemma_lex_trans(a.drop_first(), b.drop_first(), c.drop_first());
        }
    }
}

proof fn lemma_lex_conn(a: Seq<char>, b: Seq<char>)
    ensures
        lex_le(a, b) || lex_le(b, a),
    decreases a.len(),
{
    if a.len() > 0 && b.len() > 0 {
        if a[0] == b[0] {
            lemma_lex_conn(a.drop_first(), b.drop_first());
        } else {
            vstd::utf8::char_u32_cast(a[0], a[0] as u32);
            vstd::utf8::char_u32_cast(b[0], b[0] as u32);
            assert((a[0] as u32) != (b[0] as u32));
        }
    }
}

/// The name order is a total order, so a sorted arrangement of given names
/// is unique.
pub proof fn lemma_lex_total()
    ensures
        total_ordering(lex_leq()),
{
    let leq = lex_leq();
    assert forall|a: Seq<char>| #[trigger] leq(a, a) by {
        lemma_lex_refl(a);
    }
    assert forall|a: Seq<char>, b: Seq<char>| #[trigger] leq(a, b) && #[trigger] leq(b, a)
        implies a == b by {
        lemma_lex_antisym(a, b);
    }
    assert forall|a: Seq<char>, b: Seq<char>, c: Seq<char>|
        #[trigger] leq(a, b) && #[trigger] leq(b, c) implies leq(a, c) by {
        lemma_lex_trans(a, b, c);
    }
    assert forall|a: Seq<char>, b: Seq<char>| !(#[trigger] leq(a, b)) implies leq(b, a) by {
        lemma_lex_conn(a, b);
    }
}

/// After `i` equal characters, the order is decided by the rest.
proof fn lemma_lex_skip(a: Seq<char>, b: Seq<char>, i: int)
    requires
        0 <= i <= a.len(),
        i <= b.len(),
        forall|k: int| 0 <= k < i ==> a[k] == b[k],
    ensures
        lex_le(a, b) == lex_le(a.skip(i), b.skip(i)),
    decreases i,
{
    if i > 0 {
        assert(a.len() > 0 && b.len() > 0);
        assert(a[0] == b[0]);
        lemma_lex_skip(a.drop_first(), b.drop_first(), i - 1);
        assert(a.drop_first().skip(i - 1) =~= a.skip(i));
        assert(b.drop_first().skip(i - 1) =~= b.skip(i));
    } else {
        assert(a.skip(0) =~= a);
        assert(b.skip(0) =~= b);
    }
}

/// Whether `a` comes no later than `b` in the name order.
pub fn str_le(a: &String, b: &String) -> (r: bool)
    ensures
        r == lex_le(a@, b@),
{
    let an = a.as_str().unicode_len();
    let bn = b.as_str().unicode_len();
    let mut i: usize = 0;
    while i < an && i < bn
        invariant
            an == a@.len(),
            bn == b@.len(),
            0 <= i <= an,
            i <= bn,
            forall|k: int| 0 <= k < i ==> a@[k] == b@[k],
        decreases an - i,
    {
        let ca = a.as_str().get_char(i);
        let cb = b.as_str().get_char(i);
        if ca != cb {
            proof {
                lemma_lex_skip(a@, b@, i as int);
                assert(a@.skip(i as int)[0] == a@[i as int]);
                assert(b@.skip(i as int)[0] == b@[i as int]);
                assert(a@.skip(i as int).len() > 0);
                assert(b@.skip(i as int).len() > 0);
            }
            return (ca as u32) < (cb as u32);
        }
        i += 1;
    }
    proof {
        lemma_lex_skip(a@, b@, i as int);
        if i == an {
            assert(a@.skip(i as int).len() == 0);
        } else {
            assert(b@.skip(i as int).len() == 0);
            assert(a@.skip(i as int).len() > 0);
        }
    }
    an <= bn
}

/// Sort a name list into the name order. Sortedness and the multiset of
/// names pin the result: it is exactly `sort_by` of the input.
pub fn sort_names(src: &Vec<String>) -> (r: Vec<String>)
    ensures
        nview(r@) == nview(src@).sort_by(lex_leq()),
{
    let ghost leq = lex_leq();
    proof {
        lemma_lex_total();
        broadcast use vstd::seq_lib::to_multiset_insert;
        broadcast use vstd::seq_lib::to_multiset_build;

    }
    let mut out: Vec<String> = Vec::new();
    let mut i: usize = 0;
    proof {
        assert(nview(out@) =~= Seq::<Seq<char>>::empty());
        assert(nview(src@).take(0) =~= Seq::<Seq<char>>::empty());
        assert(nview(out@).to_multiset() =~= nview(src@).take(0).to_multiset());
    }
    while i < src.len()
        invariant
            leq == lex_leq(),
            total_ordering(leq),
            0 <= i <= src.len(),
            sorted_by(nview(out@), leq),
            nview(out@).to_multiset() == nview(src@).take(i as int).to_multiset(),
        decreases src.len() - i,
    {
        let ghost pre = nview(out@);
        let x = src[i].clone();
        let ghost xv = x@;
        proof {
            assert(xv == nview(src@)[i as int]);
        }
        let mut k: usize = 0;
        while k < out.len() && str_le(&out[k], &x)
            invariant
                leq == lex_leq(),
                pre == nview(out@),
                xv == x@,
                0 <= k <= out.len(),
                forall|j: int| 0 <= j < k ==> lex_le(#[trigger] pre[j], xv),
            decreases out.len() - k,
        {
            proof {
                assert(pre[k as int] == out@[k as int]@);
            }
            k += 1;
        }
        proof {
            assert(k < out.len() ==> !lex_le(pre[k as int], xv));
        }
        out.insert(k, x);
        proof {
            assert(nview(out@) =~= pre.insert(k as int, xv));
            let cur = nview(out@);
            assert(sorted_by(cur, leq)) by {
                lemma_lex_total();
                assert forall|p: int, q: int| 0 <= p < q < cur.len() implies leq(cur[p], cur[q]) by {
                    if q < k as int {
                        assert(cur[p] == pre[p] && cur[q] == pre[q]);
                    } else if p < k as int && q == k as int {
                        assert(cur[p] == pre[p] && cur[q] == xv);
                    } else if p < k as int && q > k as int {
                        assert(cur[p] == pre[p] && cur[q] == pre[q - 1]);
                    } else if p == k as int {
                        assert(cur[p] == xv && cur[q] == pre[q - 1]);
                        if k as int <= q - 1 < pre.len() {
                            if k < out@.len() - 1 {
                                assert(!lex_le(pre[k as int], xv));
                                lemma_lex_conn(pre[k as int], xv);
                                if q - 1 > k as int {
                                    assert(leq(pre[k as int], pre[q - 1]));
                                    lemma_lex_trans(xv, pre[k as int], pre[q - 1]);
                                }
                            }
                        }
                    } else {
                        assert(cur[p] == pre[p - 1] && cur[q] == pre[q - 1]);
                    }
                }
            }
            vstd::seq_lib::to_multiset_insert(pre, k as int, xv);
            assert(cur.to_multiset() =~= pre.to_multiset().insert(xv));
            assert(nview(src@).take(i as int + 1) =~= nview(src@).take(i as int).push(xv));
            vstd::seq_lib::to_multiset_build(nview(src@).take(i as int), xv);
            assert(nview(src@).take(i as int + 1).to_multiset() =~= nview(src@).take(
                i as int,
            ).to_multiset().insert(xv));
        }
        i += 1;
    }
    proof {
        assert(nview(src@).take(src@.len() as int) =~= nview(src@));
        lemma_lex_total();
        nview(src@).lemma_sort_by_ensures(leq);
        lemma_sorted_unique(nview(out@), nview(src@).sort_by(leq), leq);
    }
    out
}

/// A name list with every duplicate removed, first occurrences kept in
/// order: the normalization applied to every FROM-list before planning, so
/// that a repeated relation is joined in once, wherever it recurs.
pub open spec fn spec_dedup(s: Seq<Seq<char>>) -> Seq<Seq<char>>
    decreases s.len(),
{
    if s.len() == 0 {
        Seq::empty()
    } else {
        let pre = spec_dedup(s.drop_last());
        if pre.contains(s.last()) {
            pre
        } else {
            pre.push(s.last())
        }
    }
}

/// Remove every duplicate name, keeping first occurrences in order.
pub fn dedup_names(src: &Vec<String>) -> (r: Vec<String>)
    ensures
        nview(r@) == spec_dedup(nview(src@)),
{
    let ghost nv = nview(src@);
    let mut out: Vec<String> = Vec::new();
    let mut i: usize = 0;
    proof {
        assert(nview(out@) =~= Seq::<Seq<char>>::empty());
        assert(nv.take(0) =~= Seq::<Seq<char>>::empty());
    }
    while i < src.len()
        invariant
            nv == nview(src@),
            0 <= i <= src.len(),
            nview(out@) == spec_dedup(nv.take(i as int)),
        decreases src.len() - i,
    {
        proof {
            assert(nv[i as int] == src@[i as int]@);
            assert(nv.take(i as int + 1).drop_last() =~= nv.take(i as int));
            assert(nv.take(i as int + 1).last() == nv[i as int]);
        }
        if !crate::join::contains_name(&out, &src[i]) {
            let ghost pre = nview(out@);
            out.push(src[i].clone());
            proof {
                assert(nview(out@) =~= pre.push(nv[i as int]));
            }
        }
        i += 1;
    }
    proof {
        assert(nv.take(src@.len() as int) =~= nv);
    }
    out
}

/// The joinable names of a SELECT: its FROM-list followed by each JOIN
/// right side, which must be a plain table reference.
pub open spec fn spec_gather(
    tables: Seq<Seq<char>>,
    join: Seq<JoinRightView>,
) -> Result<Seq<Seq<char>>, CompileError>
    decreases join.len(),
{
    if join.len() == 0 {
        Ok(tables)
    } else {
        match spec_gather(tables, join.drop_last()) {
            Err(e) => Err(e),
            Ok(ns) => match join.last() {
                JoinRightView::Table(t) => Ok(ns.push(t)),
                JoinRightView::Unsupported => Err(CompileError::UnsupportedConstruct),
            },
        }
    }
}

/// Once gathering fails, adding more join clauses cannot recover it.
pub proof fn lemma_gather_err_persists(
    tables: Seq<Seq<char>>,
    join: Seq<JoinRightView>,
    i: int,
)
    requires
        0 <= i <= join.len(),
        spec_gather(tables, join.take(i)) is Err,
    ensures
        spec_gather(tables, join) == spec_gather(tables, join.take(i)),
    decreases join.len() - i,
{
    if i < join.len() {
        assert(join.take(i + 1).drop_last() =~= join.take(i));
        lemma_gather_err_persists(tables, join, i + 1);
    } else {
        assert(join.take(i) =~= join);
    }
}

/// The normalized FROM-list of a SELECT: gathered names, sorted when the
/// toggle asks for it, then stripped of every duplicate.
pub open spec fn spec_select_names(
    s: SelectView,
    sorted: bool,
) -> Result<Seq<Seq<char>>, CompileError> {
    match spec_gather(s.tables, s.join) {
        Err(e) => Err(e),
        Ok(names) => Ok(
            spec_dedup(
                if sorted {
                    names.sort_by(lex_leq())
                } else {
                    names
                },
            ),
        ),
    }
}

/// The strategy dispatch, in fixed priority order: megajoin, permutations,
/// nonprefix overlap, baseline.
pub open spec fn spec_plan_join(
    g0: Seq<NodeView>,
    names: Seq<Seq<char>>,
    ts: Seq<EntryView>,
    opts: Optimizations,
) -> (Seq<NodeView>, int) {
    if opts.megajoin {
        spec_combined(g0, names, ts)
    } else if opts.permutations {
        spec_all_joins(
            g0,
            spec_best_order(spec_permutations(names), names, 0, g0, ts, opts.overlap),
            ts,
            opts.overlap,
        )
    } else if opts.nonprefix {
        spec_nonprefix(g0, names, ts, opts.overlap)
    } else {
        spec_all_joins(g0, names, ts, opts.overlap)
    }
}

/// The columns a SELECT's field list projects out of join result `j`:
/// `*` expands to the join's columns, `table.*` to that table's registered
/// columns, a plain column contributes its name, and a value contributes
/// nothing. An unregistered `table.*` is fatal.
pub open spec fn spec_project_columns(
    g: Seq<NodeView>,
    ts: Seq<EntryView>,
    fields: Seq<FieldView>,
    j: int,
) -> Result<Seq<Seq<char>>, CompileError>
    decreases fields.len(),
{
    if fields.len() == 0 {
        Ok(Seq::empty())
    } else {
        match spec_project_columns(g, ts, fields.drop_last(), j) {
            Err(e) => Err(e),
            Ok(cols) => match fields.last() {
                FieldView::All => Ok(cols + g[j].columns),
                FieldView::AllInTable(t) => match spec_lookup(ts, t) {
                    None => Err(CompileError::UnresolvedTable),
                    Some(k) => Ok(cols + g[k].columns),
                },
                FieldView::Value => Ok(cols),
                FieldView::Col(c) => Ok(cols.push(c)),
            },
        }
    }
}

/// Once projection fails, further fields cannot recover it.
pub proof fn lemma_project_err_persists(
    g: Seq<NodeView>,
    ts: Seq<EntryView>,
    fields: Seq<FieldView>,
    j: int,
    i: int,
)
    requires
        0 <= i <= fields.len(),
        spec_project_columns(g, ts, fields.take(i), j) is Err,
    ensures
        spec_project_columns(g, ts, fields, j) == spec_project_columns(g, ts, fields.take(i), j),
    decreases fields.len() - i,
{
    if i < fields.len() {
        assert(fields.take(i + 1).drop_last() =~= fields.take(i));
        lemma_project_err_persists(g, ts, fields, j, i + 1);
    } else {
        assert(fields.take(i) =~= fields);
    }
}

/// The projection node over join result `j`.
pub open spec fn spec_project_node(g: Seq<NodeView>, j: int, cols: Seq<Seq<char>>) -> NodeView {
    NodeView {
        name: "project"@,
        index: g.len() as int,
        kind: NodeKind::Project,
        columns: cols,
        ancestors: seq![j],
        children: Seq::empty(),
        maxrows: g[j].maxrows,
    }
}

/// What compiling one SELECT does: the graph afterwards, and the id of its
/// projection node or the fatal error. A fatal error during name gathering
/// or resolution leaves the graph alone; one during projection leaves the
/// planned join in place (no rollback).
pub open spec fn spec_make_select(
    g0: Seq<NodeView>,
    ts: Seq<EntryView>,
    s: SelectView,
    opts: Optimizations,
) -> (Seq<NodeView>, Result<int, CompileError>) {
    match spec_select_names(s, opts.sorted_names) {
        Err(e) => (g0, Err(e)),
        Ok(names) => {
            if names.len() == 0 {
                (g0, Err(CompileError::EmptyJoinInput))
            } else if !all_resolve(ts, names) {
                (g0, Err(CompileError::UnresolvedTable))
            } else {
                let plan = spec_plan_join(g0, names, ts, opts);
                match spec_project_columns(plan.0, ts, s.fields, plan.1) {
                    Err(e) => (plan.0, Err(e)),
                    Ok(cols) => (
                        spec_append(plan.0, spec_project_node(plan.0, plan.1, cols)),
                        Ok(plan.0.len() as int),
                    ),
                }
            }
        },
    }
}

/// The machine limits a SELECT must respect before it can be compiled: the
/// permutation search is capped at 16 names, and the megajoin's summed row
/// estimates must fit the machine word.
pub open spec fn select_limits_ok(
    g0: Seq<NodeView>,
    ts: Seq<EntryView>,
    s: SelectView,
    opts: Optimizations,
) -> bool {
    match spec_select_names(s, opts.sorted_names) {
        Err(_) => true,
        Ok(names) => {
            if names.len() == 0 || !all_resolve(ts, names) {
                true
            } else {
                &&& (!opts.megajoin && opts.permutations) ==> names.len() <= 16
                &&& opts.megajoin ==> graph_fits(spec_combined(g0, names, ts).0)
            }
        },
    }
}

/// Compile one SELECT: normalize its FROM-list, plan the join under the
/// selected strategy, and append a projection node over the join result.
pub fn make_select(
    s: &SelectAst,
    tables: &Vec<TableEntry>,
    graph: &mut Vec<TestNode>,
    opts: Optimizations,
) -> (r: Result<usize, CompileError>)
    requires
        graph_wf(gview(old(graph)@)),
        tables_wf(tview(tables@), old(graph)@.len() as int),
        select_limits_ok(gview(old(graph)@), tview(tables@), s@, opts),
    ensures
        gview(final(graph)@) == spec_make_select(gview(old(graph)@), tview(tables@), s@, opts).0,
        match r {
            Ok(id) => spec_make_select(gview(old(graph)@), tview(tables@), s@, opts).1 == Ok::<
                int,
                CompileError,
            >(id as int) && id < final(graph)@.len(),
            Err(e) => spec_make_select(gview(old(graph)@), tview(tables@), s@, opts).1
                == Err::<int, CompileError>(e),
        },
        graph_wf(gview(final(graph)@)),
        old(graph)@.len() <= final(graph)@.len(),
{
    let ghost g0 = gview(graph@);
    let ghost ts = tview(tables@);
    let ghost sv = s@;
    let mut names = copy_names(&s.tables);
    proof {
        assert(sv.join.take(0) =~= Seq::<JoinRightView>::empty());
        assert(nview(names@) == sv.tables);
    }
    let n_join = s.join.len();
    let mut i: usize = 0;
    while i < n_join
        invariant
            sv == s@,
            g0 == gview(graph@),
            g0 == gview(old(graph)@),
            graph_wf(g0),
            n_join == s.join@.len(),
            0 <= i <= n_join,
            spec_gather(sv.tables, sv.join.take(i as int)) == Ok::<Seq<Seq<char>>, CompileError>(
                nview(names@),
            ),
        decreases n_join - i,
    {
        proof {
            assert(sv.join[i as int] == s.join@[i as int]@);
            assert(sv.join.take(i as int + 1).drop_last() =~= sv.join.take(i as int));
            assert(sv.join.take(i as int + 1).last() == sv.join[i as int]);
        }
        match &s.join[i] {
            JoinRightAst::Table(t) => {
                let ghost pre = nview(names@);
                names.push(t.clone());
                proof {
                    assert(nview(names@) =~= pre.push(t@));
                }
            },
            JoinRightAst::Unsupported => {
                proof {
                    lemma_gather_err_persists(sv.tables, sv.join, i as int + 1);
                }
                return Err(CompileError::UnsupportedConstruct);
            },
        }
        i += 1;
    }
    proof {
        assert(sv.join.take(n_join as int) =~= sv.join);
    }
    let names = if opts.sorted_names {
        sort_names(&names)
    } else {
        names
    };
    let names = dedup_names(&names);
    let ghost nv = nview(names@);
    proof {
        assert(spec_select_names(sv, opts.sorted_names) == Ok::<Seq<Seq<char>>, CompileError>(nv));
    }
    if names.len() == 0 {
        return Err(CompileError::EmptyJoinInput);
    }
    let n_names = names.len();
    let mut i: usize = 0;
    while i < n_names
        invariant
            sv == s@,
            g0 == gview(graph@),
            g0 == gview(old(graph)@),
            graph_wf(g0),
            nv == nview(names@),
            ts == tview(tables@),
            spec_select_names(sv, opts.sorted_names) == Ok::<Seq<Seq<char>>, CompileError>(nv),
            n_names == names@.len(),
            1 <= n_names,
            0 <= i <= n_names,
            forall|k: int| 0 <= k < i ==> spec_lookup(ts, #[trigger] nv[k]) is Some,
        decreases n_names - i,
    {
        proof {
            assert(nv[i as int] == names@[i as int]@);
        }
        if lookup_table(tables, &names[i]).is_none() {
            proof {
                assert(!all_resolve(ts, nv));
            }
            return Err(CompileError::UnresolvedTable);
        }
        i += 1;
    }
    proof {
        assert(all_resolve(ts, nv));
    }
    let join_result: usize = if opts.megajoin {
        make_combined_joins(&names, tables, graph, opts)
    } else if opts.permutations {
        make_joins_with_permutations(&names, tables, graph, opts)
    } else if opts.nonprefix {
        make_joins_nonprefix_overlap(&names, tables, graph, opts)
    } else {
        make_all_joins(&names, tables, graph, opts)
    };
    let ghost plan = spec_plan_join(g0, nv, ts, opts);
    proof {
        assert((gview(graph@), join_result as int) == plan);
    }
    let mut columns_to_project: Vec<Column> = Vec::new();
    let n_fields = s.fields.len();
    let mut i: usize = 0;
    proof {
        assert(sv.fields.take(0) =~= Seq::<FieldView>::empty());
        assert(columns_to_project@.map_values(|c: Column| c@) =~= Seq::<Seq<char>>::empty());
    }
    while i < n_fields
        invariant
            sv == s@,
            g0 == gview(old(graph)@),
            graph_wf(g0),
            nv.len() >= 1,
            all_resolve(ts, nv),
            spec_select_names(sv, opts.sorted_names) == Ok::<Seq<Seq<char>>, CompileError>(nv),
            plan == spec_plan_join(g0, nv, ts, opts),
            g0.len() <= graph@.len(),
            ts == tview(tables@),
            plan == (gview(graph@), join_result as int),
            graph_wf(gview(graph@)),
            tables_wf(ts, gview(graph@).len() as int),
            join_result < graph@.len(),
            n_fields == s.fields@.len(),
            0 <= i <= n_fields,
            spec_project_columns(plan.0, ts, sv.fields.take(i as int), join_result as int) == Ok::<
                Seq<Seq<char>>,
                CompileError,
            >(columns_to_project@.map_values(|c: Column| c@)),
        decreases n_fields - i,
    {
        proof {
            assert(sv.fields[i as int] == s.fields@[i as int]@);
            assert(sv.fields.take(i as int + 1).drop_last() =~= sv.fields.take(i as int));
            assert(sv.fields.take(i as int + 1).last() == sv.fields[i as int]);
        }
        let ghost pre = columns_to_project@.map_values(|c: Column| c@);
        match &s.fields[i] {
            FieldAst::All => {
                let mut cols = copy_columns(&graph[join_result].columns);
                let ghost colv = cols@.map_values(|c: Column| c@);
                proof {
                    assert(gview(graph@)[join_result as int] == graph@[join_result as int]@);
                    assert(colv == plan.0[join_result as int].columns);
                }
                columns_to_project.append(&mut cols);
                proof {
                    assert(columns_to_project@.map_values(|c: Column| c@) =~= pre + colv);
                }
            },
            FieldAst::AllInTable(t) => {
                match lookup_table(tables, t) {
                    None => {
                        proof {
                            lemma_project_err_persists(
                                plan.0,
                                ts,
                                sv.fields,
                                join_result as int,
                                i as int + 1,
                            );
                        }
                        return Err(CompileError::UnresolvedTable);
                    },
                    Some(k) => {
                        proof {
                            lemma_lookup_in_range(ts, t@, gview(graph@).len() as int);
                        }
                        let mut cols = copy_columns(&graph[k].columns);
                        let ghost colv = cols@.map_values(|c: Column| c@);
                        proof {
                            assert(gview(graph@)[k as int] == graph@[k as int]@);
                            assert(colv == plan.0[k as int].columns);
                        }
                        columns_to_project.append(&mut cols);
                        proof {
                            assert(columns_to_project@.map_values(|c: Column| c@) =~= pre + colv);
                        }
                    },
                }
            },
            FieldAst::Value => {},
            FieldAst::Col(c) => {
                columns_to_project.push(Column { name: c.clone() });
                proof {
                    assert(columns_to_project@.map_values(|c: Column| c@) =~= pre.push(c@));
                }
            },
        }
        i += 1;
    }
    proof {
        assert(sv.fields.take(n_fields as int) =~= sv.fields);
    }
    let maxrows = graph[join_result].maxrows;
    let node = TestNode::new(
        "project",
        graph.len(),
        TestNodeData::Project,
        columns_to_project,
        vec![join_result],
        Vec::new(),
        maxrows,
    );
    proof {
        assert(gview(graph@)[join_result as int] == graph@[join_result as int]@);
        assert(node@.ancestors =~= seq![join_result as int]);
        assert(node@.children =~= Seq::<int>::empty());
        assert(node@ =~= spec_project_node(
            plan.0,
            join_result as int,
            columns_to_project@.map_values(|c: Column| c@),
        ));
    }
    let r = append_node(graph, node);
    Ok(r)
}

/// What compiling one CREATE VIEW does: its name together with the id of
/// its leaf node, on the graph with the view's projection wrapped in that
/// leaf; a compound body is fatal.
pub open spec fn spec_make_view(
    g0: Seq<NodeView>,
    ts: Seq<EntryView>,
    v: CreateViewView,
    opts: Optimizations,
) -> (Seq<NodeView>, Result<(Seq<char>, int), CompileError>) {
    match v.definition {
        ViewDefView::Compound => (g0, Err(CompileError::UnsupportedConstruct)),
        ViewDefView::Simple(s) => {
            let sel = spec_make_select(g0, ts, s, opts);
            match sel.1 {
                Err(e) => (sel.0, Err(e)),
                Ok(id) => {
                    let leaf = NodeView {
                        name: v.name,
                        index: sel.0.len() as int,
                        kind: NodeKind::Leaf,
                        columns: Seq::empty(),
                        ancestors: seq![id],
                        children: Seq::empty(),
                        maxrows: sel.0[id].maxrows,
                    };
                    (spec_append(sel.0, leaf), Ok((v.name, sel.0.len() as int)))
                },
            }
        },
    }
}

/// The machine limits a CREATE VIEW must respect: those of its body.
pub open spec fn view_limits_ok(
    g0: Seq<NodeView>,
    ts: Seq<EntryView>,
    v: CreateViewView,
    opts: Optimizations,
) -> bool {
    match v.definition {
        ViewDefView::Simple(s) => select_limits_ok(g0, ts, s, opts),
        ViewDefView::Compound => true,
    }
}

/// Compile one CREATE VIEW: compile its SELECT body, then wrap the
/// projection in a leaf node carrying the view's name. The caller binds the
/// returned name to the returned node.
pub fn make_view(
    s: &CreateViewAst,
    tables: &Vec<TableEntry>,
    graph: &mut Vec<TestNode>,
    opts: Optimizations,
) -> (r: Result<(String, usize), CompileError>)
    requires
        graph_wf(gview(old(graph)@)),
        tables_wf(tview(tables@), old(graph)@.len() as int),
        view_limits_ok(gview(old(graph)@), tview(tables@), s@, opts),
    ensures
        gview(final(graph)@) == spec_make_view(gview(old(graph)@), tview(tables@), s@, opts).0,
        match r {
            Ok(p) => spec_make_view(gview(old(graph)@), tview(tables@), s@, opts).1 == Ok::<
                (Seq<char>, int),
                CompileError,
            >((p.0@, p.1 as int)) && p.1 < final(graph)@.len(),
            Err(e) => spec_make_view(gview(old(graph)@), tview(tables@), s@, opts).1 == Err::<
                (Seq<char>, int),
                CompileError,
            >(e),
        },
        graph_wf(gview(final(graph)@)),
        old(graph)@.len() <= final(graph)@.len(),
{
    match &s.definition {
        ViewDefAst::Compound => Err(CompileError::UnsupportedConstruct),
        ViewDefAst::Simple(sel) => {
            match make_select(sel, tables, graph, opts) {
                Err(e) => Err(e),
                Ok(id) => {
                    let ghost g1 = gview(graph@);
                    let maxrows = graph[id].maxrows;
                    let node = TestNode::new(
                        s.name.as_str(),
                        graph.len(),
                        TestNodeData::Leaf,
                        Vec::new(),
                        vec![id],
                        Vec::new(),
                        maxrows,
                    );
                    proof {
                        assert(g1[id as int] == graph@[id as int]@);
                        assert(node@.ancestors =~= seq![id as int]);
                        assert(node@.children =~= Seq::<int>::empty());
                        assert(node@.columns =~= Seq::<Seq<char>>::empty());
                    }
                    let r = append_node(graph, node);
                    Ok((s.name.clone(), r))
                },
            }
        },
    }
}

/// What compiling a whole statement stream does: the final graph and
/// registry, and either the pair (statements compiled, parse failures) or
/// the fatal error that aborted the run, everything already appended left
/// in place.
pub open spec fn spec_compile_stream(
    g0: Seq<NodeView>,
    ts0: Seq<EntryView>,
    stmts: Seq<SqlView>,
    opts: Optimizations,
) -> (Seq<NodeView>, Seq<EntryView>, Result<(int, int), CompileError>)
    decreases stmts.len(),
{
    if stmts.len() == 0 {
        (g0, ts0, Ok((0, 0)))
    } else {
        let rec = spec_compile_stream(g0, ts0, stmts.drop_last(), opts);
        let g = rec.0;
        let ts = rec.1;
        match rec.2 {
            Err(e) => rec,
            Ok(counts) => match stmts.last() {
                SqlView::Select(s) => {
                    let sel = spec_make_select(g, ts, s, opts);
                    match sel.1 {
                        Err(e) => (sel.0, ts, Err(e)),
                        Ok(_) => (sel.0, ts, Ok((counts.0 + 1, counts.1))),
                    }
                },
                SqlView::CreateTable(t) => (
                    spec_append(g, spec_base_node(g, t)),
                    ts.push(EntryView { name: t.name, node: g.len() as int }),
                    Ok((counts.0 + 1, counts.1)),
                ),
                SqlView::CreateView(v) => {
                    let vw = spec_make_view(g, ts, v, opts);
                    match vw.1 {
                        Err(e) => (vw.0, ts, Err(e)),
                        Ok(p) => (
                            vw.0,
                            ts.push(EntryView { name: p.0, node: p.1 }),
                            Ok((counts.0 + 1, counts.1)),
                        ),
                    }
                },
                SqlView::Insert => (g, ts, Ok((counts.0 + 1, counts.1))),
                SqlView::Delete => (g, ts, Ok((counts.0 + 1, counts.1))),
                SqlView::DropTable => (g, ts, Ok((counts.0 + 1, counts.1))),
                SqlView::Update => (g, ts, Ok((counts.0 + 1, counts.1))),
                SqlView::SetStmt => (g, ts, Ok((counts.0 + 1, counts.1))),
                SqlView::Unsupported => (g, ts, Err(CompileError::UnsupportedConstruct)),
                SqlView::ParseError => (g, ts, Ok((counts.0, counts.1 + 1))),
            },
        }
    }
}

/// Once the stream aborts, later statements change nothing.
pub proof fn lemma_stream_err_persists(
    g0: Seq<NodeView>,
    ts0: Seq<EntryView>,
    stmts: Seq<SqlView>,
    opts: Optimizations,
    i: int,
)
    requires
        0 <= i <= stmts.len(),
        spec_compile_stream(g0, ts0, stmts.take(i), opts).2 is Err,
    ensures
        spec_compile_stream(g0, ts0, stmts, opts) == spec_compile_stream(
            g0,
            ts0,
            stmts.take(i),
            opts,
        ),
    decreases stmts.len() - i,
{
    if i < stmts.len() {
        assert(stmts.take(i + 1).drop_last() =~= stmts.take(i));
        lemma_stream_err_persists(g0, ts0, stmts, opts, i + 1);
    } else {
        assert(stmts.take(i) =~= stmts);
    }
}

/// The machine limits a whole stream must respect: those of each SELECT and
/// CREATE VIEW, each at the graph and registry state it will actually see.
pub open spec fn stream_limits_ok(
    g0: Seq<NodeView>,
    ts0: Seq<EntryView>,
    stmts: Seq<SqlView>,
    opts: Optimizations,
) -> bool
    decreases stmts.len(),
{
    if stmts.len() == 0 {
        true
    } else {
        let rec = spec_compile_stream(g0, ts0, stmts.drop_last(), opts);
        &&& stream_limits_ok(g0, ts0, stmts.drop_last(), opts)
        &&& (rec.2 is Ok ==> match stmts.last() {
            SqlView::Select(s) => select_limits_ok(rec.0, rec.1, s, opts),
            SqlView::CreateView(v) => view_limits_ok(rec.0, rec.1, v, opts),
            _ => true,
        })
    }
}

/// Compile an already-parsed statement stream, one statement at a time, in
/// order, against the one session graph and registry: tables register their
/// base nodes, selects grow the graph, views register their leaf nodes, and
/// the rest is accepted without effect. Returns how many statements
/// compiled and how many were parse failures, or the first fatal error.
pub fn compile_queries(
    statements: &Vec<SqlAst>,
    tables: &mut Vec<TableEntry>,
    graph: &mut Vec<TestNode>,
    opts: Optimizations,
) -> (r: Result<(usize, usize), CompileError>)
    requires
        graph_wf(gview(old(graph)@)),
        tables_wf(tview(old(tables)@), old(graph)@.len() as int),
        stream_limits_ok(
            gview(old(graph)@),
            tview(old(tables)@),
            statements@.map_values(|s: SqlAst| s@),
            opts,
        ),
    ensures
        gview(final(graph)@) == spec_compile_stream(
            gview(old(graph)@),
            tview(old(tables)@),
            statements@.map_values(|s: SqlAst| s@),
            opts,
        ).0,
        tview(final(tables)@) == spec_compile_stream(
            gview(old(graph)@),
            tview(old(tables)@),
            statements@.map_values(|s: SqlAst| s@),
            opts,
        ).1,
        match r {
            Ok(c) => spec_compile_stream(
                gview(old(graph)@),
                tview(old(tables)@),
                statements@.map_values(|s: SqlAst| s@),
                opts,
            ).2 == Ok::<(int, int), CompileError>((c.0 as int, c.1 as int)),
            Err(e) => spec_compile_stream(
                gview(old(graph)@),
                tview(old(tables)@),
                statements@.map_values(|s: SqlAst| s@),
                opts,
            ).2 == Err::<(int, int), CompileError>(e),
        },
        graph_wf(gview(final(graph)@)),
        tables_wf(tview(final(tables)@), final(graph)@.len() as int),
{
    let ghost g0 = gview(graph@);
    let ghost ts0 = tview(tables@);
    let ghost stv = statements@.map_values(|s: SqlAst| s@);
    let mut ok_count: usize = 0;
    let mut err_count: usize = 0;
    let n = statements.len();
    let mut i: usize = 0;
    proof {
        assert(stv.take(0) =~= Seq::<SqlView>::empty());
    }
    while i < n
        invariant
            g0 == gview(old(graph)@),
            ts0 == tview(old(tables)@),
            stv == statements@.map_values(|s: SqlAst| s@),
            stream_limits_ok(g0, ts0, stv, opts),
            n == statements@.len(),
            0 <= i <= n,
            ok_count <= i,
            err_count <= i,
            spec_compile_stream(g0, ts0, stv.take(i as int), opts) == (gview(graph@),
            tview(tables@), Ok::<(int, int), CompileError>((ok_count as int, err_count as int))),
            graph_wf(gview(graph@)),
            tables_wf(tview(tables@), graph@.len() as int),
        decreases n - i,
    {
        proof {
            assert(stv[i as int] == statements@[i as int]@);
            assert(stv.take(i as int + 1).drop_last() =~= stv.take(i as int));
            assert(stv.take(i as int + 1).last() == stv[i as int]);
            lemma_stream_limits_prefix(g0, ts0, stv, opts, i as int + 1);
        }
        let ghost g_cur = gview(graph@);
        let ghost ts_cur = tview(tables@);
        match &statements[i] {
            SqlAst::Select(s) => {
                match make_select(s, tables, graph, opts) {
                    Ok(_) => {
                        ok_count += 1;
                    },
                    Err(e) => {
                        proof {
                            lemma_stream_err_persists(g0, ts0, stv, opts, i as int + 1);
                        }
                        return Err(e);
                    },
                }
            },
            SqlAst::CreateTable(t) => {
                make_table(t, tables, graph);
                ok_count += 1;
            },
            SqlAst::CreateView(v) => {
                match make_view(v, tables, graph, opts) {
                    Ok(p) => {
                        register_table(tables, p.0, p.1);
                        proof {
                            let tv = tview(tables@);
                            assert forall|k: int| 0 <= k < tv.len() implies 0 <= (
                            #[trigger] tv[k]).node < graph@.len() as int by {
                                if k < tv.len() - 1 {
                                    assert(tv[k] == ts_cur[k]);
                                }
                            }
                        }
                        ok_count += 1;
                    },
                    Err(e) => {
                        proof {
                            lemma_stream_err_persists(g0, ts0, stv, opts, i as int + 1);
                        }
                        return Err(e);
                    },
                }
            },
            SqlAst::Insert => {
                ok_count += 1;
            },
            SqlAst::Delete => {
                ok_count += 1;
            },
            SqlAst::DropTable => {
                ok_count += 1;
            },
            SqlAst::Update => {
                ok_count += 1;
            },
            SqlAst::SetStmt => {
                ok_count += 1;
            },
            SqlAst::Unsupported => {
                proof {
                    lemma_stream_err_persists(g0, ts0, stv, opts, i as int + 1);
                }
                return Err(CompileError::UnsupportedConstruct);
            },
            SqlAst::ParseError => {
                err_count += 1;
            },
        }
        i += 1;
    }
    proof {
        assert(stv.take(n as int) =~= stv);
    }
    Ok((ok_count, err_count))
}

/// The limits of a whole stream cover each of its prefixes.
pub proof fn lemma_stream_limits_prefix(
    g0: Seq<NodeView>,
    ts0: Seq<EntryView>,
    stmts: Seq<SqlView>,
    opts: Optimizations,
    i: int,
)
    requires
        stream_limits_ok(g0, ts0, stmts, opts),
        0 <= i <= stmts.len(),
    ensures
        stream_limits_ok(g0, ts0, stmts.take(i), opts),
    decreases stmts.len() - i,
{
    if i == stmts.len() {
        assert(stmts.take(i) =~= stmts);
    } else {
        lemma_stream_limits_prefix(g0, ts0, stmts, opts, i + 1);
        assert(stmts.take(i + 1).drop_last() =~= stmts.take(i));
    }
}

} // verus!
