//! Join planning: the shared overlap-reuse primitive and the four
//! join-ordering strategies, each trying to reuse existing subgraphs of the
//! session's operator graph.

use vstd::prelude::*;

use crate::Optimizations;
use crate::graph::{
    Column, EntryView, NodeKind, NodeView, TableEntry, TestNode, TestNodeData, append_node,
    contains_id, copy_columns, g_extends, graph_fits, graph_wf, gview, iview, kind_laws,
    lemma_append_wf, lemma_g_extends_trans, lemma_lookup_in_range, lookup_table,
    node_core_eq, node_wf, nview, oiview, spec_append, spec_lookup, spec_min, spec_push_children,
    tables_wf, tview,
};

verus! {

/// The inner-join node over `n1` and `n2`, as appended at the end of `g`:
/// both column lists concatenated, and the smaller row estimate (a
/// primary-key equality join is assumed).
pub open spec fn spec_inner_join_node(g: Seq<NodeView>, n1: int, n2: int) -> NodeView {
    NodeView {
        name: "join"@,
        index: g.len() as int,
        kind: NodeKind::InnerJoin,
        columns: g[n1].columns + g[n2].columns,
        ancestors: seq![n1, n2],
        children: Seq::empty(),
        maxrows: spec_min(g[n1].maxrows, g[n2].maxrows),
    }
}

/// The graph after appending the inner join of `n1` and `n2`.
pub open spec fn spec_inner_join(g: Seq<NodeView>, n1: int, n2: int) -> Seq<NodeView> {
    spec_append(g, spec_inner_join_node(g, n1, n2))
}

/// The outer-join node over `n1` and `n2`: columns concatenated, and the
/// summed (worst-case) row estimate.
pub open spec fn spec_outer_join_node(g: Seq<NodeView>, n1: int, n2: int) -> NodeView {
    NodeView {
        name: "outer join"@,
        index: g.len() as int,
        kind: NodeKind::OuterJoin,
        columns: g[n1].columns + g[n2].columns,
        ancestors: seq![n1, n2],
        children: Seq::empty(),
        maxrows: g[n1].maxrows + g[n2].maxrows,
    }
}

/// The graph after appending the outer join of `n1` and `n2`.
pub open spec fn spec_outer_join(g: Seq<NodeView>, n1: int, n2: int) -> Seq<NodeView> {
    spec_append(g, spec_outer_join_node(g, n1, n2))
}

/// Appending an inner join keeps the graph well formed and touches nothing
/// but the two ancestors' child lists.
pub proof fn lemma_inner_join_wf(g: Seq<NodeView>, n1: int, n2: int)
    requires
        graph_wf(g),
        0 <= n1 < g.len(),
        0 <= n2 < g.len(),
    ensures
        graph_wf(spec_inner_join(g, n1, n2)),
        spec_inner_join(g, n1, n2).len() == g.len() + 1,
        spec_inner_join(g, n1, n2)[g.len() as int] == spec_inner_join_node(g, n1, n2),
        forall|i: int|
            0 <= i < g.len() ==> node_core_eq(#[trigger] spec_inner_join(g, n1, n2)[i], g[i]),
{
    let n = spec_inner_join_node(g, n1, n2);
    assert(n.ancestors[0] == n1 && n.ancestors[1] == n2);
    assert(forall|j: int| 0 <= j < n.ancestors.len() ==> 0 <= #[trigger] n.ancestors[j] < g.len());
    assert(node_wf(g, n1) && node_wf(g, n2));
    lemma_append_wf(g, n);
}

/// Appending an outer join keeps the graph well formed and touches nothing
/// but the two ancestors' child lists.
pub proof fn lemma_outer_join_wf(g: Seq<NodeView>, n1: int, n2: int)
    requires
        graph_wf(g),
        0 <= n1 < g.len(),
        0 <= n2 < g.len(),
    ensures
        graph_wf(spec_outer_join(g, n1, n2)),
        spec_outer_join(g, n1, n2).len() == g.len() + 1,
        spec_outer_join(g, n1, n2)[g.len() as int] == spec_outer_join_node(g, n1, n2),
        forall|i: int|
            0 <= i < g.len() ==> node_core_eq(#[trigger] spec_outer_join(g, n1, n2)[i], g[i]),
{
    let n = spec_outer_join_node(g, n1, n2);
    assert(n.ancestors[0] == n1 && n.ancestors[1] == n2);
    assert(forall|j: int| 0 <= j < n.ancestors.len() ==> 0 <= #[trigger] n.ancestors[j] < g.len());
    assert(node_wf(g, n1) && node_wf(g, n2));
    lemma_append_wf(g, n);
}

/// Build the join node over `n1` and `n2` and append it to the graph.
fn make_join_node(
    n1: usize,
    n2: usize,
    graph: &mut Vec<TestNode>,
    node: TestNode,
) -> (r: usize)
    requires
        graph_wf(gview(old(graph)@)),
        n1 < old(graph)@.len(),
        n2 < old(graph)@.len(),
        node@.index == old(graph)@.len(),
        node@.maxrows >= 0,
        node@.children.len() == 0,
        node@.ancestors == seq![n1 as int, n2 as int],
        kind_laws(gview(old(graph)@), node@),
    ensures
        r == old(graph)@.len(),
        gview(final(graph)@) == spec_append(gview(old(graph)@), node@),
        graph_wf(gview(final(graph)@)),
        final(graph)@.len() == old(graph)@.len() + 1,
{
    proof {
        assert(node@.ancestors[0] == n1 as int && node@.ancestors[1] == n2 as int);
        assert(forall|j: int|
            0 <= j < node@.ancestors.len() ==> 0 <= #[trigger] node@.ancestors[j] < old(
                graph,
            )@.len());
    }
    append_node(graph, node)
}

/// Append a fresh inner-join node over `n1` and `n2`.
pub fn make_inner_join(n1: usize, n2: usize, graph: &mut Vec<TestNode>) -> (r: usize)
    requires
        graph_wf(gview(old(graph)@)),
        n1 < old(graph)@.len(),
        n2 < old(graph)@.len(),
    ensures
        r == old(graph)@.len(),
        gview(final(graph)@) == spec_inner_join(gview(old(graph)@), n1 as int, n2 as int),
        graph_wf(gview(final(graph)@)),
        final(graph)@.len() == old(graph)@.len() + 1,
{
    let ghost g0 = gview(graph@);
    let m1 = graph[n1].maxrows;
    let m2 = graph[n2].maxrows;
    let maxrows = if m1 <= m2 {
        m1
    } else {
        m2
    };
    let mut columns = copy_columns(&graph[n1].columns);
    let mut right = copy_columns(&graph[n2].columns);
    columns.append(&mut right);
    let node = TestNode::new(
        "join",
        graph.len(),
        TestNodeData::InnerJoin,
        columns,
        vec![n1, n2],
        Vec::new(),
        maxrows,
    );
    proof {
        assert(g0[n1 as int] == graph@[n1 as int]@);
        assert(g0[n2 as int] == graph@[n2 as int]@);
        assert(node@.columns =~= g0[n1 as int].columns + g0[n2 as int].columns);
        assert(node@.ancestors =~= seq![n1 as int, n2 as int]);
        assert(node@.children =~= Seq::<int>::empty());
        assert(node@ =~= spec_inner_join_node(g0, n1 as int, n2 as int));
    }
    make_join_node(n1, n2, graph, node)
}

/// Append a fresh outer-join node over `n1` and `n2`. The summed row
/// estimate must fit the machine word.
pub fn make_outer_join(n1: usize, n2: usize, graph: &mut Vec<TestNode>) -> (r: usize)
    requires
        graph_wf(gview(old(graph)@)),
        n1 < old(graph)@.len(),
        n2 < old(graph)@.len(),
        gview(old(graph)@)[n1 as int].maxrows + gview(old(graph)@)[n2 as int].maxrows
            <= usize::MAX,
    ensures
        r == old(graph)@.len(),
        gview(final(graph)@) == spec_outer_join(gview(old(graph)@), n1 as int, n2 as int),
        graph_wf(gview(final(graph)@)),
        final(graph)@.len() == old(graph)@.len() + 1,
{
    let ghost g0 = gview(graph@);
    proof {
        assert(g0[n1 as int] == graph@[n1 as int]@);
        assert(g0[n2 as int] == graph@[n2 as int]@);
    }
    let m1 = graph[n1].maxrows;
    let m2 = graph[n2].maxrows;
    let maxrows = m1 + m2;
    let mut columns = copy_columns(&graph[n1].columns);
    let mut right = copy_columns(&graph[n2].columns);
    columns.append(&mut right);
    let node = TestNode::new(
        "outer join",
        graph.len(),
        TestNodeData::OuterJoin,
        columns,
        vec![n1, n2],
        Vec::new(),
        maxrows,
    );
    proof {
        assert(node@.columns =~= g0[n1 as int].columns + g0[n2 as int].columns);
        assert(node@.ancestors =~= seq![n1 as int, n2 as int]);
        assert(node@.children =~= Seq::<int>::empty());
        assert(node@ =~= spec_outer_join_node(g0, n1 as int, n2 as int));
    }
    make_join_node(n1, n2, graph, node)
}

/// Whether an existing node is an inner join whose two inputs are `n1` and
/// `n2`, in either order.
pub open spec fn join_matches(n: NodeView, n1: int, n2: int) -> bool {
    &&& n.kind is InnerJoin
    &&& n.ancestors.contains(n1)
    &&& n.ancestors.contains(n2)
}

/// The first inner join over `{n1, n2}` at position `i` or later, if any.
pub open spec fn spec_overlap_from(g: Seq<NodeView>, n1: int, n2: int, i: int) -> Option<int>
    decreases g.len() - i,
    when 0 <= i <= g.len()
{
    if i >= g.len() {
        None
    } else if join_matches(g[i], n1, n2) {
        Some(i)
    } else {
        spec_overlap_from(g, n1, n2, i + 1)
    }
}

/// What the reuse scan returns: the first existing inner join over
/// `{n1, n2}`, and nothing when reuse is disabled.
pub open spec fn spec_overlap(g: Seq<NodeView>, n1: int, n2: int, enabled: bool) -> Option<int> {
    if enabled {
        spec_overlap_from(g, n1, n2, 0)
    } else {
        None
    }
}

/// What a successful scan means: the hit is a matching join, and no earlier
/// node matches.
pub proof fn lemma_overlap_from_props(g: Seq<NodeView>, n1: int, n2: int, i: int)
    requires
        0 <= i <= g.len(),
    ensures
        match spec_overlap_from(g, n1, n2, i) {
            Some(k) => {
                &&& i <= k < g.len()
                &&& join_matches(g[k], n1, n2)
                &&& forall|j: int| i <= j < k ==> !join_matches(#[trigger] g[j], n1, n2)
            },
            None => forall|j: int| i <= j < g.len() ==> !join_matches(#[trigger] g[j], n1, n2),
        },
    decreases g.len() - i,
{
    if i < g.len() && !join_matches(g[i], n1, n2) {
        lemma_overlap_from_props(g, n1, n2, i + 1);
    }
}

/// Scan the whole graph for an existing inner join of exactly these two
/// nodes; reuse is attempted only when globally enabled. The scan is total:
/// under the maintained session invariant every inner join has exactly two
/// inputs, and on a graph outside that invariant the scan still answers by
/// ancestor membership rather than stopping the run.
pub fn overlap_existing(
    n1: usize,
    n2: usize,
    graph: &Vec<TestNode>,
    opts: Optimizations,
) -> (r: Option<usize>)
    ensures
        match r {
            Some(k) => spec_overlap(gview(graph@), n1 as int, n2 as int, opts.overlap) == Some(
                k as int,
            ) && k < graph@.len(),
            None => spec_overlap(gview(graph@), n1 as int, n2 as int, opts.overlap) is None,
        },
{
    if !opts.overlap {
        return None;
    }
    let ghost g = gview(graph@);
    let mut i: usize = 0;
    while i < graph.len()
        invariant
            0 <= i <= graph.len(),
            g == gview(graph@),
            opts.overlap,
            spec_overlap_from(g, n1 as int, n2 as int, 0) == spec_overlap_from(
                g,
                n1 as int,
                n2 as int,
                i as int,
            ),
        decreases graph.len() - i,
    {
        proof {
            assert(g[i as int] == graph@[i as int]@);
        }
        let is_inner = match &graph[i].data {
            TestNodeData::InnerJoin => true,
            _ => false,
        };
        if is_inner {
            if contains_id(&graph[i].ancestors, n1) && contains_id(&graph[i].ancestors, n2) {
                proof {
                    assert(join_matches(g[i as int], n1 as int, n2 as int));
                    assert(spec_overlap_from(g, n1 as int, n2 as int, i as int) == Some(
                        i as int,
                    ));
                }
                return Some(i);
            }
        }
        proof {
            assert(!join_matches(g[i as int], n1 as int, n2 as int));
        }
        i += 1;
    }
    None
}

/// Every listed name currently resolves in the registry.
pub open spec fn all_resolve(ts: Seq<EntryView>, names: Seq<Seq<char>>) -> bool {
    forall|i: int| 0 <= i < names.len() ==> spec_lookup(ts, #[trigger] names[i]) is Some
}

/// The baseline strategy: fold the name list left to right, at each step
/// reusing an existing inner join of the running result and the next node
/// when there is one, and appending a fresh inner join otherwise. Yields the
/// final graph and the node standing for the whole join.
pub open spec fn spec_all_joins(
    g0: Seq<NodeView>,
    names: Seq<Seq<char>>,
    ts: Seq<EntryView>,
    enabled: bool,
) -> (Seq<NodeView>, int)
    decreases names.len(),
    when names.len() >= 1
{
    if names.len() == 1 {
        (g0, spec_lookup(ts, names[0]).unwrap())
    } else {
        let rec = spec_all_joins(g0, names.drop_last(), ts, enabled);
        let g = rec.0;
        let prev = rec.1;
        let next = spec_lookup(ts, names.last()).unwrap();
        match spec_overlap(g, prev, next, enabled) {
            Some(k) => (g, k),
            None => (spec_inner_join(g, prev, next), g.len() as int),
        }
    }
}

/// The baseline fold keeps the graph well formed, only ever appends, and
/// returns a valid node.
pub proof fn lemma_all_joins_props(
    g0: Seq<NodeView>,
    names: Seq<Seq<char>>,
    ts: Seq<EntryView>,
    enabled: bool,
)
    requires
        graph_wf(g0),
        tables_wf(ts, g0.len() as int),
        names.len() >= 1,
        all_resolve(ts, names),
    ensures
        graph_wf(spec_all_joins(g0, names, ts, enabled).0),
        g0.len() <= spec_all_joins(g0, names, ts, enabled).0.len(),
        0 <= spec_all_joins(g0, names, ts, enabled).1 < spec_all_joins(g0, names, ts, enabled).0.len(),
        forall|i: int|
            0 <= i < g0.len() ==> node_core_eq(
                #[trigger] spec_all_joins(g0, names, ts, enabled).0[i],
                g0[i],
            ),
    decreases names.len(),
{
    if names.len() == 1 {
        lemma_lookup_in_range(ts, names[0], g0.len() as int);
        assert(spec_lookup(ts, names[0]) is Some);
    } else {
        let pre = names.drop_last();
        assert(all_resolve(ts, pre)) by {
            assert(forall|i: int| 0 <= i < pre.len() ==> pre[i] == names[i]);
        }
        lemma_all_joins_props(g0, pre, ts, enabled);
        let rec = spec_all_joins(g0, pre, ts, enabled);
        let g = rec.0;
        let prev = rec.1;
        assert(spec_lookup(ts, names.last()) is Some) by {
            assert(names[names.len() - 1] == names.last());
        }
        let next = spec_lookup(ts, names.last()).unwrap();
        lemma_lookup_in_range(ts, names.last(), g0.len() as int);
        match spec_overlap(g, prev, next, enabled) {
            Some(k) => {
                lemma_overlap_from_props(g, prev, next, 0);
            },
            None => {
                lemma_inner_join_wf(g, prev, next);
                assert forall|i: int| 0 <= i < g0.len() implies node_core_eq(
                    #[trigger] spec_inner_join(g, prev, next)[i],
                    g0[i],
                ) by {
                    assert(node_core_eq(spec_inner_join(g, prev, next)[i], g[i]));
                    assert(node_core_eq(g[i], g0[i]));
                }
            },
        }
    }
}

/// The names of the direct ancestors of a node.
pub open spec fn spec_anc_names(g: Seq<NodeView>, ancs: Seq<int>) -> Seq<Seq<char>> {
    ancs.map_values(|a: int| g[a].name)
}

/// The transitive ancestor-name set of a node: nothing for a base node (a
/// base relation contributes no name here), and otherwise the direct
/// ancestors' names followed by each ancestor's own transitive set.
pub open spec fn spec_all_ancestors(g: Seq<NodeView>, i: int) -> Seq<Seq<char>>
    decreases i, g[i].ancestors.len() + 1,
    when graph_wf(g) && 0 <= i < g.len()
{
    if g[i].kind is Base {
        Seq::empty()
    } else {
        spec_anc_names(g, g[i].ancestors) + spec_anc_chain(g, i, 0)
    }
}

/// The concatenated transitive sets of `g[i]`'s ancestors from position
/// `pos` on.
pub open spec fn spec_anc_chain(g: Seq<NodeView>, i: int, pos: int) -> Seq<Seq<char>>
    decreases i, g[i].ancestors.len() - pos,
    when graph_wf(g) && 0 <= i < g.len() && 0 <= pos <= g[i].ancestors.len()
    via spec_anc_chain_decreases
{
    if pos >= g[i].ancestors.len() {
        Seq::empty()
    } else {
        spec_all_ancestors(g, g[i].ancestors[pos]) + spec_anc_chain(g, i, pos + 1)
    }
}

#[via_fn]
proof fn spec_anc_chain_decreases(g: Seq<NodeView>, i: int, pos: int) {
    assert(node_wf(g, i));
}

/// Collect the transitive ancestor names of a node by walking its ancestor
/// lists; base nodes end the walk without contributing a name.
pub fn get_all_ancestors(graph: &Vec<TestNode>, node: usize) -> (r: Vec<String>)
    requires
        graph_wf(gview(graph@)),
        node < graph@.len(),
    ensures
        nview(r@) == spec_all_ancestors(gview(graph@), node as int),
    decreases node,
{
    let ghost g = gview(graph@);
    proof {
        assert(g[node as int] == graph@[node as int]@);
        assert(node_wf(g, node as int));
    }
    let is_base = match &graph[node].data {
        TestNodeData::Base { .. } => true,
        _ => false,
    };
    if is_base {
        let r: Vec<String> = Vec::new();
        proof {
            assert(nview(r@) =~= spec_all_ancestors(g, node as int));
        }
        return r;
    }
    let n_anc = graph[node].ancestors.len();
    let mut ancs: Vec<String> = Vec::new();
    let mut j: usize = 0;
    while j < n_anc
        invariant
            graph_wf(g),
            g == gview(graph@),
            node < graph@.len(),
            g[node as int] == graph@[node as int]@,
            node_wf(g, node as int),
            n_anc == g[node as int].ancestors.len(),
            0 <= j <= n_anc,
            nview(ancs@) =~= spec_anc_names(g, g[node as int].ancestors).take(j as int),
        decreases n_anc - j,
    {
        let a = graph[node].ancestors[j];
        proof {
            assert(g[node as int].ancestors[j as int] == a as int);
            assert(0 <= a < node);
        }
        let ghost pre = nview(ancs@);
        ancs.push(graph[a].name.clone());
        proof {
            assert(g[a as int] == graph@[a as int]@);
            assert(nview(ancs@) =~= pre.push(g[a as int].name));
            assert(spec_anc_names(g, g[node as int].ancestors)[j as int] == g[a as int].name);
            assert(spec_anc_names(g, g[node as int].ancestors).take(j as int + 1)
                =~= spec_anc_names(g, g[node as int].ancestors).take(j as int).push(
                g[a as int].name,
            ));
        }
        j += 1;
    }
    proof {
        assert(spec_anc_names(g, g[node as int].ancestors).take(n_anc as int) =~= spec_anc_names(
            g,
            g[node as int].ancestors,
        ));
    }
    let mut j: usize = 0;
    while j < n_anc
        invariant
            graph_wf(g),
            g == gview(graph@),
            node < graph@.len(),
            g[node as int] == graph@[node as int]@,
            node_wf(g, node as int),
            !(g[node as int].kind is Base),
            n_anc == g[node as int].ancestors.len(),
            0 <= j <= n_anc,
            nview(ancs@) + spec_anc_chain(g, node as int, j as int) == spec_all_ancestors(
                g,
                node as int,
            ),
        decreases n_anc - j,
    {
        let a = graph[node].ancestors[j];
        proof {
            assert(g[node as int].ancestors[j as int] == a as int);
            assert(0 <= a < node);
        }
        let mut sub = get_all_ancestors(graph, a);
        let ghost pre = nview(ancs@);
        let ghost subv = nview(sub@);
        ancs.append(&mut sub);
        proof {
            assert(nview(ancs@) =~= pre + subv);
            assert(spec_anc_chain(g, node as int, j as int) == spec_all_ancestors(g, a as int)
                + spec_anc_chain(g, node as int, j as int + 1));
            assert((pre + subv) + spec_anc_chain(g, node as int, j as int + 1) =~= pre + (subv
                + spec_anc_chain(g, node as int, j as int + 1)));
        }
        j += 1;
    }
    proof {
        assert(spec_anc_chain(g, node as int, n_anc as int) =~= Seq::<Seq<char>>::empty());
        assert(nview(ancs@) + Seq::<Seq<char>>::empty() =~= nview(ancs@));
    }
    ancs
}

/// Every name of `tables` occurs in `joinable`.
pub open spec fn spec_all_acceptable(tables: Seq<Seq<char>>, joinable: Seq<Seq<char>>) -> bool {
    forall|k: int| 0 <= k < tables.len() ==> joinable.contains(#[trigger] tables[k])
}

/// How many names of `tables` are requested but not yet covered.
pub open spec fn spec_needed_count(
    tables: Seq<Seq<char>>,
    joinable: Seq<Seq<char>>,
    covered: Seq<Seq<char>>,
) -> int
    decreases tables.len(),
{
    if tables.len() == 0 {
        0
    } else {
        spec_needed_count(tables.drop_last(), joinable, covered) + if joinable.contains(
            tables.last(),
        ) && !covered.contains(tables.last()) {
            1int
        } else {
            0int
        }
    }
}

/// Whether a name occurs in a name list.
pub fn contains_name(names: &Vec<String>, name: &String) -> (r: bool)
    ensures
        r == nview(names@).contains(name@),
{
    let ghost nv = nview(names@);
    let mut i: usize = 0;
    while i < names.len()
        invariant
            0 <= i <= names.len(),
            nv == nview(names@),
            forall|k: int| 0 <= k < i ==> #[trigger] nv[k] != name@,
        decreases names.len() - i,
    {
        proof {
            assert(nv[i as int] == names@[i as int]@);
        }
        if names[i] == *name {
            return true;
        }
        i += 1;
    }
    false
}

/// Whether every name in `tables` is one of the requested `joinable_names`.
pub fn all_acceptable(tables: &Vec<String>, joinable_names: &Vec<String>) -> (r: bool)
    ensures
        r == spec_all_acceptable(nview(tables@), nview(joinable_names@)),
{
    let ghost tv = nview(tables@);
    let mut i: usize = 0;
    while i < tables.len()
        invariant
            0 <= i <= tables.len(),
            tv == nview(tables@),
            forall|k: int| 0 <= k < i ==> nview(joinable_names@).contains(#[trigger] tv[k]),
        decreases tables.len() - i,
    {
        proof {
            assert(tv[i as int] == tables@[i as int]@);
        }
        if !contains_name(joinable_names, &tables[i]) {
            return false;
        }
        i += 1;
    }
    true
}

/// Whether `tables` brings at least two requested names that are not yet
/// covered by the subtrees chosen so far.
pub fn some_needed(
    tables: &Vec<String>,
    joinable_names: &Vec<String>,
    covered_tables: &Vec<String>,
) -> (r: bool)
    ensures
        r == (spec_needed_count(nview(tables@), nview(joinable_names@), nview(covered_tables@))
            >= 2),
{
    let ghost tv = nview(tables@);
    let ghost jv = nview(joinable_names@);
    let ghost cv = nview(covered_tables@);
    let mut count: usize = 0;
    let mut i: usize = 0;
    while i < tables.len()
        invariant
            0 <= i <= tables.len(),
            tv == nview(tables@),
            jv == nview(joinable_names@),
            cv == nview(covered_tables@),
            count <= i,
            count as int == spec_needed_count(tv.take(i as int), jv, cv),
        decreases tables.len() - i,
    {
        proof {
            assert(tv[i as int] == tables@[i as int]@);
            assert(tv.take(i as int + 1).drop_last() =~= tv.take(i as int));
            assert(tv.take(i as int + 1).last() == tv[i as int]);
        }
        if contains_name(joinable_names, &tables[i]) && !contains_name(
            covered_tables,
            &tables[i],
        ) {
            count += 1;
        }
        i += 1;
    }
    proof {
        assert(tv.take(tables@.len() as int) =~= tv);
    }
    count >= 2
}

/// Join all named relations together, left to right, reusing existing joins
/// where the scan finds them. Every name must already resolve, and the list
/// must not be empty: an unresolved or empty FROM-list is a fatal
/// configuration error the planner does not recover from.
pub fn make_all_joins(
    joinable_names: &Vec<String>,
    tables: &Vec<TableEntry>,
    graph: &mut Vec<TestNode>,
    opts: Optimizations,
) -> (r: usize)
    requires
        graph_wf(gview(old(graph)@)),
        tables_wf(tview(tables@), old(graph)@.len() as int),
        joinable_names@.len() >= 1,
        all_resolve(tview(tables@), nview(joinable_names@)),
    ensures
        (gview(final(graph)@), r as int) == spec_all_joins(
            gview(old(graph)@),
            nview(joinable_names@),
            tview(tables@),
            opts.overlap,
        ),
        graph_wf(gview(final(graph)@)),
        r < final(graph)@.len(),
        old(graph)@.len() <= final(graph)@.len(),
{
    let ghost g0 = gview(graph@);
    let ghost nv = nview(joinable_names@);
    let ghost ts = tview(tables@);
    proof {
        assert(nv[0] == joinable_names@[0]@);
        assert(nv.take(1) =~= seq![nv[0]]);
    }
    let mut prev_node: usize = match lookup_table(tables, &joinable_names[0]) {
        Some(k) => k,
        None => {
            proof {
                assert(false);
            }
            vstd::pervasive::unreached()
        },
    };
    proof {
        assert(spec_all_joins(g0, nv.take(1), ts, opts.overlap) == (g0,
        spec_lookup(ts, nv[0]).unwrap()));
        lemma_lookup_in_range(ts, nv[0], g0.len() as int);
    }
    let n = joinable_names.len();
    let mut i: usize = 1;
    while i < n
        invariant
            graph_wf(g0),
            tables_wf(ts, g0.len() as int),
            g0 == gview(old(graph)@),
            nv == nview(joinable_names@),
            ts == tview(tables@),
            n == joinable_names@.len(),
            1 <= n,
            all_resolve(ts, nv),
            1 <= i <= n,
            (gview(graph@), prev_node as int) == spec_all_joins(g0, nv.take(i as int), ts,
            opts.overlap),
            graph_wf(gview(graph@)),
            prev_node < graph@.len(),
            g0.len() <= graph@.len(),
        decreases n - i,
    {
        proof {
            assert(nv[i as int] == joinable_names@[i as int]@);
            assert(all_resolve(ts, nv.take(i as int))) by {
                assert(forall|k: int|
                    0 <= k < i as int ==> nv.take(i as int)[k] == #[trigger] nv[k]);
            }
        }
        let next_node: usize = match lookup_table(tables, &joinable_names[i]) {
            Some(k) => k,
            None => {
                proof {
                    assert(false);
                }
                vstd::pervasive::unreached()
            },
        };
        proof {
            lemma_lookup_in_range(ts, nv[i as int], g0.len() as int);
        }
        let ghost g_before = gview(graph@);
        match overlap_existing(prev_node, next_node, graph, opts) {
            Some(overlap_node) => {
                proof {
                    lemma_overlap_from_props(g_before, prev_node as int, next_node as int, 0);
                }
                prev_node = overlap_node;
            },
            None => {
                prev_node = make_inner_join(prev_node, next_node, graph);
            },
        }
        proof {
            assert(nv.take(i as int + 1).drop_last() =~= nv.take(i as int));
            assert(nv.take(i as int + 1).last() == nv[i as int]);
            assert(nv.take(i as int + 1).len() >= 2);
            assert((gview(graph@), prev_node as int) == spec_all_joins(g0, nv.take(i as int + 1),
            ts, opts.overlap));
        }
        i += 1;
    }
    proof {
        assert(nv.take(n as int) =~= nv);
    }
    prev_node
}

/// View of a list of name lists.
pub open spec fn nnview(s: Seq<Vec<String>>) -> Seq<Seq<Seq<char>>> {
    s.map_values(|v: Vec<String>| nview(v@))
}

/// What iterating permutohedron's `Heap` over a name list yields: the
/// sequence of all its orderings, in the iterator's order.
pub uninterp spec fn spec_permutations(names: Seq<Seq<char>>) -> Seq<Seq<Seq<char>>>;

/// Relies on permutohedron::Heap (Heap's algorithm): iterating it yields
/// every ordering of the input exactly once, the unchanged input order
/// first. `Heap::new` panics on more than 16 elements, so that many at most
/// may be passed.
#[verifier::external_body]
fn all_orders(names: &Vec<String>) -> (r: Vec<Vec<String>>)
    requires
        names@.len() <= 16,
    ensures
        nnview(r@) == spec_permutations(nview(names@)),
        r@.len() >= 1,
        nnview(r@)[0] == nview(names@),
        forall|k: int|
            0 <= k < r@.len() ==> (#[trigger] nnview(r@)[k]).to_multiset() == nview(
                names@,
            ).to_multiset(),
        forall|o: Seq<Seq<char>>|
            o.to_multiset() == nview(names@).to_multiset() ==> nnview(r@).contains(o),
{
    let mut data = names.clone();
    let heap = permutohedron::Heap::new(&mut data);
    let mut out = Vec::new();
    for p in heap {
        out.push(p);
    }
    out
}

/// Copy a name list; the copy holds the same names.
pub fn copy_names(src: &Vec<String>) -> (r: Vec<String>)
    ensures
        r@ == src@,
{
    let mut r: Vec<String> = Vec::new();
    let mut i: usize = 0;
    while i < src.len()
        invariant
            0 <= i <= src.len(),
            r@ =~= src@.take(i as int),
        decreases src.len() - i,
    {
        r.push(src[i].clone());
        proof {
            assert(r@ =~= src@.take(i as int + 1));
        }
        i += 1;
    }
    proof {
        assert(src@.take(src@.len() as int) =~= src@);
    }
    r
}

/// Two name lists with the same names resolve alike.
pub proof fn lemma_resolve_multiset(ts: Seq<EntryView>, a: Seq<Seq<char>>, b: Seq<Seq<char>>)
    requires
        a.to_multiset() == b.to_multiset(),
        all_resolve(ts, a),
    ensures
        all_resolve(ts, b),
{
    a.to_multiset_ensures();
    b.to_multiset_ensures();
    assert forall|i: int| 0 <= i < b.len() implies spec_lookup(ts, #[trigger] b[i]) is Some by {
        assert(b.contains(b[i]));
        assert(b.to_multiset().count(b[i]) > 0);
        assert(a.contains(b[i]));
        let j = choose|j: int| 0 <= j < a.len() && a[j] == b[i];
        assert(spec_lookup(ts, a[j]) is Some);
    }
}

/// How many consecutive reuses succeed when walking `order` from position
/// `i` with running node `prev`: the walk follows each reused join and stops
/// at the first position where no existing join is found.
pub open spec fn spec_count_from(
    g: Seq<NodeView>,
    prev: int,
    order: Seq<Seq<char>>,
    ts: Seq<EntryView>,
    enabled: bool,
    i: int,
) -> int
    decreases order.len() - i,
    when 0 <= i <= order.len()
{
    if i >= order.len() {
        0
    } else {
        match spec_overlap(g, prev, spec_lookup(ts, order[i]).unwrap(), enabled) {
            Some(k) => 1 + spec_count_from(g, k, order, ts, enabled, i + 1),
            None => 0,
        }
    }
}

/// The overlap count of one candidate ordering.
pub open spec fn spec_overlap_count(
    g: Seq<NodeView>,
    order: Seq<Seq<char>>,
    ts: Seq<EntryView>,
    enabled: bool,
) -> int
    recommends
        order.len() >= 1,
{
    spec_count_from(g, spec_lookup(ts, order[0]).unwrap(), order, ts, enabled, 1)
}

/// The ordering the permutation search settles on, starting from the
/// running best `cur` with count `cur_count`: a candidate replaces the
/// running best only with a strictly larger count, so the first ordering to
/// reach the maximum wins.
pub open spec fn spec_best_order(
    perms: Seq<Seq<Seq<char>>>,
    cur: Seq<Seq<char>>,
    cur_count: int,
    g: Seq<NodeView>,
    ts: Seq<EntryView>,
    enabled: bool,
) -> Seq<Seq<char>>
    decreases perms.len(),
{
    if perms.len() == 0 {
        cur
    } else {
        let c = spec_overlap_count(g, perms.first(), ts, enabled);
        if c > cur_count {
            spec_best_order(perms.drop_first(), perms.first(), c, g, ts, enabled)
        } else {
            spec_best_order(perms.drop_first(), cur, cur_count, g, ts, enabled)
        }
    }
}

/// The settled ordering is the running best or one of the candidates, so it
/// holds the same names.
pub proof fn lemma_best_order_multiset(
    perms: Seq<Seq<Seq<char>>>,
    cur: Seq<Seq<char>>,
    cur_count: int,
    g: Seq<NodeView>,
    ts: Seq<EntryView>,
    enabled: bool,
    m: vstd::multiset::Multiset<Seq<char>>,
)
    requires
        cur.to_multiset() == m,
        forall|k: int| 0 <= k < perms.len() ==> (#[trigger] perms[k]).to_multiset() == m,
    ensures
        spec_best_order(perms, cur, cur_count, g, ts, enabled).to_multiset() == m,
    decreases perms.len(),
{
    if perms.len() > 0 {
        assert(perms[0] == perms.first());
        let rest = perms.drop_first();
        assert(forall|k: int| 0 <= k < rest.len() ==> rest[k] == perms[k + 1]);
        let c = spec_overlap_count(g, perms.first(), ts, enabled);
        if c > cur_count {
            lemma_best_order_multiset(rest, perms.first(), c, g, ts, enabled, m);
        } else {
            lemma_best_order_multiset(rest, cur, cur_count, g, ts, enabled, m);
        }
    }
}

/// Plan a join by trying all orderings of the requested names, keeping the
/// ordering whose prefix reuses the most existing joins, and folding that
/// ordering with the baseline strategy. Factorial cost; the caller keeps the
/// list small (at most 16 names).
pub fn make_joins_with_permutations(
    joinable_names: &Vec<String>,
    tables: &Vec<TableEntry>,
    graph: &mut Vec<TestNode>,
    opts: Optimizations,
) -> (r: usize)
    requires
        graph_wf(gview(old(graph)@)),
        tables_wf(tview(tables@), old(graph)@.len() as int),
        1 <= joinable_names@.len() <= 16,
        all_resolve(tview(tables@), nview(joinable_names@)),
    ensures
        (gview(final(graph)@), r as int) == spec_all_joins(
            gview(old(graph)@),
            spec_best_order(
                spec_permutations(nview(joinable_names@)),
                nview(joinable_names@),
                0,
                gview(old(graph)@),
                tview(tables@),
                opts.overlap,
            ),
            tview(tables@),
            opts.overlap,
        ),
        graph_wf(gview(final(graph)@)),
        r < final(graph)@.len(),
        old(graph)@.len() <= final(graph)@.len(),
{
    let ghost g0 = gview(graph@);
    let ghost nv = nview(joinable_names@);
    let ghost ts = tview(tables@);
    let ghost m = nv.to_multiset();
    let perms = all_orders(joinable_names);
    let ghost pv = nnview(perms@);
    let mut best_order = copy_names(joinable_names);
    let mut best_overlap: usize = 0;
    let ghost target = spec_best_order(pv, nv, 0, g0, ts, opts.overlap);
    let n_perms = perms.len();
    let mut p: usize = 0;
    proof {
        assert(pv.skip(0) =~= pv);
    }
    while p < n_perms
        invariant
            graph_wf(g0),
            tables_wf(ts, g0.len() as int),
            g0 == gview(graph@),
            nv == nview(joinable_names@),
            ts == tview(tables@),
            m == nv.to_multiset(),
            1 <= nv.len() <= 16,
            all_resolve(ts, nv),
            pv == nnview(perms@),
            n_perms == perms@.len(),
            forall|k: int| 0 <= k < pv.len() ==> (#[trigger] pv[k]).to_multiset() == m,
            0 <= p <= n_perms,
            nview(best_order@).to_multiset() == m,
            target == spec_best_order(pv.skip(p as int), nview(best_order@),
            best_overlap as int, g0, ts, opts.overlap),
        decreases n_perms - p,
    {
        proof {
            assert(pv[p as int] == nview(perms@[p as int]@));
            assert(pv[p as int].to_multiset() == m);
            lemma_resolve_multiset(ts, nv, pv[p as int]);
            pv[p as int].to_multiset_ensures();
            nv.to_multiset_ensures();
            assert(pv[p as int].len() == nv.len());
        }
        let order = &perms[p];
        let ghost ov_full = spec_overlap_count(g0, pv[p as int], ts, opts.overlap);
        proof {
            assert(nview(order@) == pv[p as int]);
            assert(nview(order@)[0] == order@[0]@);
        }
        let mut prev_node: usize = match lookup_table(tables, &order[0]) {
            Some(k) => k,
            None => {
                proof {
                    assert(false);
                }
                vstd::pervasive::unreached()
            },
        };
        let mut overlap: usize = 0;
        let mut stopped = false;
        let n_ord = order.len();
        let mut i: usize = 1;
        while i < n_ord && !stopped
            invariant
                g0 == gview(graph@),
                ts == tview(tables@),
                nv == nview(joinable_names@),
                all_resolve(ts, nv),
                nview(order@) == pv[p as int],
                pv[p as int].to_multiset() == nv.to_multiset(),
                0 <= (p as int) < pv.len(),
                pv == nnview(perms@),
                n_ord == order@.len(),
                1 <= i <= n_ord,
                overlap < i,
                ov_full == spec_overlap_count(g0, pv[p as int], ts, opts.overlap),
                !stopped ==> ov_full == overlap + spec_count_from(g0, prev_node as int,
                pv[p as int], ts, opts.overlap, i as int),
                stopped ==> ov_full == overlap,
            decreases n_ord - i,
        {
            proof {
                assert(nview(order@)[i as int] == order@[i as int]@);
            }
            let next_node: usize = match lookup_table(tables, &order[i]) {
                Some(k) => k,
                None => {
                    // The walk looks a name up before any reuse decision; a
                    // permutation of a resolvable list resolves throughout.
                    proof {
                        lemma_resolve_multiset(ts, nv, pv[p as int]);
                        assert(false);
                    }
                    vstd::pervasive::unreached()
                },
            };
            match overlap_existing(prev_node, next_node, graph, opts) {
                Some(overlap_node) => {
                    prev_node = overlap_node;
                    overlap += 1;
                },
                None => {
                    stopped = true;
                },
            }
            i += 1;
        }
        proof {
            if !stopped {
                assert(spec_count_from(g0, prev_node as int, pv[p as int], ts, opts.overlap,
                n_ord as int) == 0);
            }
            assert(ov_full == overlap as int);
        }
        if overlap > best_overlap {
            best_overlap = overlap;
            best_order = copy_names(order);
        }
        proof {
            assert(pv.skip(p as int).first() == pv[p as int]);
            assert(pv.skip(p as int).drop_first() =~= pv.skip(p as int + 1));
        }
        p += 1;
    }
    proof {
        assert(pv.skip(n_perms as int) =~= Seq::<Seq<Seq<char>>>::empty());
        assert(target == nview(best_order@));
        nview(best_order@).to_multiset_ensures();
        nv.to_multiset_ensures();
        assert(nview(best_order@).len() == nv.len());
        lemma_resolve_multiset(ts, nv, nview(best_order@));
    }
    make_all_joins(&best_order, tables, graph, opts)
}

/// Phase one of the nonprefix strategy: scan graph positions `[0, i)` for
/// inner joins whose transitive ancestor names all lie in the requested list
/// and bring at least two names not covered yet; collect those joins, in
/// scan order, together with all the names they cover.
pub open spec fn spec_nonprefix_scan(
    g: Seq<NodeView>,
    joinable: Seq<Seq<char>>,
    i: int,
) -> (Seq<int>, Seq<Seq<char>>)
    decreases i,
    when graph_wf(g) && 0 <= i <= g.len()
{
    if i <= 0 {
        (Seq::empty(), Seq::empty())
    } else {
        let rec = spec_nonprefix_scan(g, joinable, i - 1);
        if g[i - 1].kind is InnerJoin {
            let tbls = spec_all_ancestors(g, i - 1);
            if spec_all_acceptable(tbls, joinable) && spec_needed_count(tbls, joinable, rec.1)
                >= 2 {
                (rec.0.push(i - 1), rec.1 + tbls)
            } else {
                rec
            }
        } else {
            rec
        }
    }
}

/// Every join the scan picks lies before the scan frontier.
pub proof fn lemma_nonprefix_scan_bounds(g: Seq<NodeView>, joinable: Seq<Seq<char>>, i: int)
    requires
        graph_wf(g),
        0 <= i <= g.len(),
    ensures
        forall|k: int|
            0 <= k < spec_nonprefix_scan(g, joinable, i).0.len() ==> 0
                <= #[trigger] spec_nonprefix_scan(g, joinable, i).0[k] < i,
    decreases i,
{
    if i > 0 {
        lemma_nonprefix_scan_bounds(g, joinable, i - 1);
        let rec = spec_nonprefix_scan(g, joinable, i - 1);
        let cur = spec_nonprefix_scan(g, joinable, i);
        if cur.0 != rec.0 {
            assert(cur.0 == rec.0.push(i - 1));
            assert forall|k: int| 0 <= k < cur.0.len() implies 0 <= #[trigger] cur.0[k] < i by {
                if k < rec.0.len() {
                    assert(cur.0[k] == rec.0[k]);
                } else {
                    assert(cur.0[k] == i - 1);
                }
            }
        }
    }
}

/// Phase two: join the chosen subtrees pairwise, unconditionally.
pub open spec fn spec_join_chain(g0: Seq<NodeView>, joins: Seq<int>) -> (Seq<NodeView>, int)
    decreases joins.len(),
    when joins.len() >= 1
{
    if joins.len() == 1 {
        (g0, joins[0])
    } else {
        let rec = spec_join_chain(g0, joins.drop_last());
        (spec_inner_join(rec.0, rec.1, joins.last()), rec.0.len() as int)
    }
}

/// The subtree chain keeps the graph well formed, only appends, and returns
/// a valid node.
pub proof fn lemma_join_chain_props(g0: Seq<NodeView>, joins: Seq<int>)
    requires
        graph_wf(g0),
        joins.len() >= 1,
        forall|k: int| 0 <= k < joins.len() ==> 0 <= #[trigger] joins[k] < g0.len(),
    ensures
        graph_wf(spec_join_chain(g0, joins).0),
        g0.len() <= spec_join_chain(g0, joins).0.len(),
        0 <= spec_join_chain(g0, joins).1 < spec_join_chain(g0, joins).0.len(),
        forall|i: int|
            0 <= i < g0.len() ==> node_core_eq(#[trigger] spec_join_chain(g0, joins).0[i], g0[i]),
    decreases joins.len(),
{
    if joins.len() > 1 {
        let pre = joins.drop_last();
        assert(forall|k: int| 0 <= k < pre.len() ==> pre[k] == joins[k]);
        lemma_join_chain_props(g0, pre);
        let rec = spec_join_chain(g0, pre);
        assert(0 <= joins.last() < g0.len()) by {
            assert(joins[joins.len() - 1] == joins.last());
        }
        lemma_inner_join_wf(rec.0, rec.1, joins.last());
        assert forall|i: int| 0 <= i < g0.len() implies node_core_eq(
            #[trigger] spec_join_chain(g0, joins).0[i],
            g0[i],
        ) by {
            assert(node_core_eq(spec_join_chain(g0, joins).0[i], rec.0[i]));
            assert(node_core_eq(rec.0[i], g0[i]));
        }
    }
}

/// Phase three: fold into the running join every requested name not covered
/// by the chosen subtrees, reusing existing joins where the scan finds them.
pub open spec fn spec_fold_remaining(
    g0: Seq<NodeView>,
    prev: int,
    names: Seq<Seq<char>>,
    covered: Seq<Seq<char>>,
    ts: Seq<EntryView>,
    enabled: bool,
) -> (Seq<NodeView>, int)
    decreases names.len(),
{
    if names.len() == 0 {
        (g0, prev)
    } else {
        let rec = spec_fold_remaining(g0, prev, names.drop_last(), covered, ts, enabled);
        if covered.contains(names.last()) {
            rec
        } else {
            let next = spec_lookup(ts, names.last()).unwrap();
            match spec_overlap(rec.0, rec.1, next, enabled) {
                Some(k) => (rec.0, k),
                None => (spec_inner_join(rec.0, rec.1, next), rec.0.len() as int),
            }
        }
    }
}

/// The remainder fold keeps the graph well formed, only appends, and returns
/// a valid node.
pub proof fn lemma_fold_remaining_props(
    g0: Seq<NodeView>,
    prev: int,
    names: Seq<Seq<char>>,
    covered: Seq<Seq<char>>,
    ts: Seq<EntryView>,
    enabled: bool,
)
    requires
        graph_wf(g0),
        0 <= prev < g0.len(),
        tables_wf(ts, g0.len() as int),
        all_resolve(ts, names),
    ensures
        graph_wf(spec_fold_remaining(g0, prev, names, covered, ts, enabled).0),
        g0.len() <= spec_fold_remaining(g0, prev, names, covered, ts, enabled).0.len(),
        0 <= spec_fold_remaining(g0, prev, names, covered, ts, enabled).1 < spec_fold_remaining(
            g0,
            prev,
            names,
            covered,
            ts,
            enabled,
        ).0.len(),
        forall|i: int|
            0 <= i < g0.len() ==> node_core_eq(
                #[trigger] spec_fold_remaining(g0, prev, names, covered, ts, enabled).0[i],
                g0[i],
            ),
    decreases names.len(),
{
    if names.len() > 0 {
        let pre = names.drop_last();
        assert(all_resolve(ts, pre)) by {
            assert(forall|i: int| 0 <= i < pre.len() ==> pre[i] == names[i]);
        }
        lemma_fold_remaining_props(g0, prev, pre, covered, ts, enabled);
        let rec = spec_fold_remaining(g0, prev, pre, covered, ts, enabled);
        if !covered.contains(names.last()) {
            assert(spec_lookup(ts, names.last()) is Some) by {
                assert(names[names.len() - 1] == names.last());
            }
            let next = spec_lookup(ts, names.last()).unwrap();
            lemma_lookup_in_range(ts, names.last(), g0.len() as int);
            match spec_overlap(rec.0, rec.1, next, enabled) {
                Some(k) => {
                    lemma_overlap_from_props(rec.0, rec.1, next, 0);
                },
                None => {
                    lemma_inner_join_wf(rec.0, rec.1, next);
                    assert forall|i: int| 0 <= i < g0.len() implies node_core_eq(
                        #[trigger] spec_fold_remaining(g0, prev, names, covered, ts, enabled).0[i],
                        g0[i],
                    ) by {
                        assert(node_core_eq(
                            spec_fold_remaining(g0, prev, names, covered, ts, enabled).0[i],
                            rec.0[i],
                        ));
                        assert(node_core_eq(rec.0[i], g0[i]));
                    }
                },
            }
        }
    }
}

/// The nonprefix strategy as a whole: reuse arbitrary qualifying subtrees,
/// join them together, then fold in whatever names they leave uncovered;
/// with no qualifying subtree it degenerates to the baseline fold.
pub open spec fn spec_nonprefix(
    g0: Seq<NodeView>,
    names: Seq<Seq<char>>,
    ts: Seq<EntryView>,
    enabled: bool,
) -> (Seq<NodeView>, int) {
    let scan = spec_nonprefix_scan(g0, names, g0.len() as int);
    if scan.0.len() == 0 {
        spec_all_joins(g0, names, ts, enabled)
    } else {
        let chain = spec_join_chain(g0, scan.0);
        spec_fold_remaining(chain.0, chain.1, names, scan.1, ts, enabled)
    }
}

/// Plan a join by reuse of arbitrary existing join subtrees whose base
/// tables all occur in the requested list, wherever they sit in the session
/// graph; names they do not cover are folded in afterwards.
pub fn make_joins_nonprefix_overlap(
    joinable_names: &Vec<String>,
    tables: &Vec<TableEntry>,
    graph: &mut Vec<TestNode>,
    opts: Optimizations,
) -> (r: usize)
    requires
        graph_wf(gview(old(graph)@)),
        tables_wf(tview(tables@), old(graph)@.len() as int),
        joinable_names@.len() >= 1,
        all_resolve(tview(tables@), nview(joinable_names@)),
    ensures
        (gview(final(graph)@), r as int) == spec_nonprefix(
            gview(old(graph)@),
            nview(joinable_names@),
            tview(tables@),
            opts.overlap,
        ),
        graph_wf(gview(final(graph)@)),
        r < final(graph)@.len(),
        old(graph)@.len() <= final(graph)@.len(),
{
    let ghost g0 = gview(graph@);
    let ghost nv = nview(joinable_names@);
    let ghost ts = tview(tables@);
    let mut covered_tables: Vec<String> = Vec::new();
    let mut existing_joins: Vec<usize> = Vec::new();
    let glen = graph.len();
    let mut i: usize = 0;
    proof {
        assert(iview(existing_joins@) =~= Seq::<int>::empty());
        assert(nview(covered_tables@) =~= Seq::<Seq<char>>::empty());
    }
    while i < glen
        invariant
            graph_wf(g0),
            g0 == gview(graph@),
            nv == nview(joinable_names@),
            glen == graph@.len(),
            0 <= i <= glen,
            (iview(existing_joins@), nview(covered_tables@)) == spec_nonprefix_scan(
                g0,
                nv,
                i as int,
            ),
        decreases glen - i,
    {
        proof {
            assert(g0[i as int] == graph@[i as int]@);
        }
        let is_inner = match &graph[i].data {
            TestNodeData::InnerJoin => true,
            _ => false,
        };
        if is_inner {
            let mut tbls = get_all_ancestors(graph, i);
            if all_acceptable(&tbls, joinable_names) && some_needed(
                &tbls,
                joinable_names,
                &covered_tables,
            ) {
                let ghost joins_pre = iview(existing_joins@);
                let ghost cov_pre = nview(covered_tables@);
                let ghost tblv = nview(tbls@);
                existing_joins.push(i);
                covered_tables.append(&mut tbls);
                proof {
                    assert(iview(existing_joins@) =~= joins_pre.push(i as int));
                    assert(nview(covered_tables@) =~= cov_pre + tblv);
                }
            }
        }
        i += 1;
    }
    proof {
        lemma_nonprefix_scan_bounds(g0, nv, glen as int);
        assert(g0.len() == glen as int);
    }
    if existing_joins.len() == 0 {
        return make_all_joins(joinable_names, tables, graph, opts);
    }
    let ghost joins = iview(existing_joins@);
    let ghost covered = nview(covered_tables@);
    proof {
        assert(joins == spec_nonprefix_scan(g0, nv, glen as int).0);
        assert(forall|k: int| 0 <= k < joins.len() ==> 0 <= #[trigger] joins[k] < g0.len());
    }
    let mut prev_node: usize = existing_joins[0];
    proof {
        assert(joins[0] == existing_joins@[0] as int);
        assert(prev_node as int == joins[0]);
        assert(0 <= joins[0] < g0.len());
        assert(graph@.len() == g0.len());
        assert(joins.take(1) =~= seq![joins[0]]);
    }
    let n_joins = existing_joins.len();
    let mut i: usize = 1;
    while i < n_joins
        invariant
            graph_wf(g0),
            g0 == gview(old(graph)@),
            joins == iview(existing_joins@),
            n_joins == existing_joins@.len(),
            1 <= n_joins,
            forall|k: int| 0 <= k < joins.len() ==> 0 <= #[trigger] joins[k] < g0.len(),
            1 <= i <= n_joins,
            (gview(graph@), prev_node as int) == spec_join_chain(g0, joins.take(i as int)),
            graph_wf(gview(graph@)),
            prev_node < graph@.len(),
            g0.len() <= graph@.len(),
        decreases n_joins - i,
    {
        proof {
            assert(joins[i as int] == existing_joins@[i as int] as int);
            assert(forall|k: int|
                0 <= k < i as int ==> joins.take(i as int)[k] == #[trigger] joins[k]);
            lemma_join_chain_props(g0, joins.take(i as int));
        }
        let next = existing_joins[i];
        prev_node = make_inner_join(prev_node, next, graph);
        proof {
            assert(joins.take(i as int + 1).drop_last() =~= joins.take(i as int));
            assert(joins.take(i as int + 1).last() == joins[i as int]);
            assert(joins.take(i as int + 1).len() >= 2);
        }
        i += 1;
    }
    proof {
        assert(joins.take(n_joins as int) =~= joins);
    }
    let ghost g1 = gview(graph@);
    let ghost prev1 = prev_node as int;
    proof {
        assert((g1, prev1) == spec_join_chain(g0, joins));
        assert(tables_wf(ts, g1.len() as int));
    }
    let n = joinable_names.len();
    let mut i: usize = 0;
    proof {
        assert(nv.take(0) =~= Seq::<Seq<char>>::empty());
    }
    while i < n
        invariant
            graph_wf(g1),
            tables_wf(ts, g1.len() as int),
            joins.len() >= 1,
            g1 == spec_join_chain(g0, joins).0,
            prev1 == spec_join_chain(g0, joins).1,
            0 <= prev1 < g1.len(),
            nv == nview(joinable_names@),
            covered == nview(covered_tables@),
            ts == tview(tables@),
            n == joinable_names@.len(),
            all_resolve(ts, nv),
            0 <= i <= n,
            (gview(graph@), prev_node as int) == spec_fold_remaining(g1, prev1, nv.take(i as int),
            covered, ts, opts.overlap),
            graph_wf(gview(graph@)),
            prev_node < graph@.len(),
            g1.len() <= graph@.len(),
        decreases n - i,
    {
        proof {
            assert(nv[i as int] == joinable_names@[i as int]@);
            assert(nv.take(i as int + 1).drop_last() =~= nv.take(i as int));
            assert(nv.take(i as int + 1).last() == nv[i as int]);
        }
        if contains_name(&covered_tables, &joinable_names[i]) {
            i += 1;
            continue;
        }
        let next_node: usize = match lookup_table(tables, &joinable_names[i]) {
            Some(k) => k,
            None => {
                proof {
                    assert(false);
                }
                vstd::pervasive::unreached()
            },
        };
        proof {
            lemma_lookup_in_range(ts, nv[i as int], g1.len() as int);
        }
        let ghost g_before = gview(graph@);
        match overlap_existing(prev_node, next_node, graph, opts) {
            Some(overlap_node) => {
                proof {
                    lemma_overlap_from_props(g_before, prev_node as int, next_node as int, 0);
                }
                prev_node = overlap_node;
            },
            None => {
                prev_node = make_inner_join(prev_node, next_node, graph);
            },
        }
        i += 1;
    }
    proof {
        assert(nv.take(n as int) =~= nv);
    }
    prev_node
}

/// Phase one of the megajoin strategy: scan graph positions `[0, i)`,
/// collecting in order the names of every base-table ancestor of every
/// outer join, and remembering the most recently seen outer join as the
/// running accumulator.
pub open spec fn spec_megajoin_scan(g: Seq<NodeView>, i: int) -> (Seq<Seq<char>>, Option<int>)
    decreases i,
    when 0 <= i <= g.len()
{
    if i <= 0 {
        (Seq::empty(), None)
    } else {
        let rec = spec_megajoin_scan(g, i - 1);
        let n = g[i - 1];
        if n.kind is OuterJoin {
            let with0 = if g[n.ancestors[0]].kind is Base {
                rec.0.push(g[n.ancestors[0]].name)
            } else {
                rec.0
            };
            let with1 = if g[n.ancestors[1]].kind is Base {
                with0.push(g[n.ancestors[1]].name)
            } else {
                with0
            };
            (with1, Some(i - 1))
        } else {
            rec
        }
    }
}

/// The scan's accumulator is a position already scanned, and names are
/// collected only once some outer join has been seen.
pub proof fn lemma_megajoin_scan_props(g: Seq<NodeView>, i: int)
    requires
        0 <= i <= g.len(),
    ensures
        match spec_megajoin_scan(g, i).1 {
            Some(j) => 0 <= j < i,
            None => spec_megajoin_scan(g, i).0.len() == 0,
        },
    decreases i,
{
    if i > 0 {
        lemma_megajoin_scan_props(g, i - 1);
    }
}

/// The requested names not already merged into the accumulator, first
/// occurrences only, in request order.
pub open spec fn spec_filter_names(
    names: Seq<Seq<char>>,
    already: Seq<Seq<char>>,
) -> Seq<Seq<char>>
    decreases names.len(),
{
    if names.len() == 0 {
        Seq::empty()
    } else {
        let pre = spec_filter_names(names.drop_last(), already);
        if !already.contains(names.last()) && !pre.contains(names.last()) {
            pre.push(names.last())
        } else {
            pre
        }
    }
}

/// Filtering keeps only requested names, and drops none when nothing is
/// covered yet.
pub proof fn lemma_filter_names_props(names: Seq<Seq<char>>, already: Seq<Seq<char>>)
    ensures
        forall|x: Seq<char>|
            #[trigger] spec_filter_names(names, already).contains(x) ==> names.contains(x),
        names.len() >= 1 && already.len() == 0 ==> spec_filter_names(names, already).len() >= 1,
    decreases names.len(),
{
    if names.len() > 0 {
        let pre_names = names.drop_last();
        lemma_filter_names_props(pre_names, already);
        let pre = spec_filter_names(pre_names, already);
        let cur = spec_filter_names(names, already);
        assert(forall|k: int| 0 <= k < pre_names.len() ==> pre_names[k] == names[k]);
        assert forall|x: Seq<char>| #[trigger] cur.contains(x) implies names.contains(x) by {
            let k = choose|k: int| 0 <= k < cur.len() && cur[k] == x;
            if k < pre.len() && cur[k] == pre[k] {
                assert(pre.contains(x));
                let j = choose|j: int| 0 <= j < pre_names.len() && pre_names[j] == x;
                assert(names[j] == x);
            } else {
                assert(x == names.last());
                assert(names[names.len() - 1] == x);
            }
        }
        if already.len() == 0 {
            assert(!already.contains(names.last()));
        }
    }
}

/// Whether the running megajoin state points at real nodes.
pub open spec fn mega_state_ok(g: Seq<NodeView>, pj: Option<int>, pb: Option<int>) -> bool {
    &&& (pj is Some ==> 0 <= pj.unwrap() < g.len())
    &&& (pb is Some ==> 0 <= pb.unwrap() < g.len())
}

/// Phase two of the megajoin strategy: outer-join every remaining name into
/// the accumulator, one at a time. With no accumulator and no seed yet, the
/// first name only seeds the fold (the sentinel placeholder node stands for
/// exactly this absent case and never enters the graph); each later name
/// extends the chain by one outer join.
pub open spec fn spec_mega_fold(
    g0: Seq<NodeView>,
    pj0: Option<int>,
    pb0: Option<int>,
    names: Seq<Seq<char>>,
    ts: Seq<EntryView>,
) -> (Seq<NodeView>, Option<int>, Option<int>)
    decreases names.len(),
{
    if names.len() == 0 {
        (g0, pj0, pb0)
    } else {
        let rec = spec_mega_fold(g0, pj0, pb0, names.drop_last(), ts);
        let g = rec.0;
        let pj = rec.1;
        let pb = rec.2;
        if pj is None && pb is None {
            (g, pj, spec_lookup(ts, names.last()))
        } else {
            let to_add = spec_lookup(ts, names.last()).unwrap();
            let prev = if pj is Some {
                pj.unwrap()
            } else {
                pb.unwrap()
            };
            (spec_outer_join(g, prev, to_add), Some(g.len() as int), Some(to_add))
        }
    }
}

/// The megajoin fold keeps the graph well formed, only appends, keeps its
/// state valid, and leaves some state behind whenever it was given any name
/// or any accumulator.
pub proof fn lemma_mega_fold_props(
    g0: Seq<NodeView>,
    pj0: Option<int>,
    pb0: Option<int>,
    names: Seq<Seq<char>>,
    ts: Seq<EntryView>,
)
    requires
        graph_wf(g0),
        tables_wf(ts, g0.len() as int),
        mega_state_ok(g0, pj0, pb0),
        all_resolve(ts, names),
    ensures
        graph_wf(spec_mega_fold(g0, pj0, pb0, names, ts).0),
        g_extends(spec_mega_fold(g0, pj0, pb0, names, ts).0, g0),
        mega_state_ok(
            spec_mega_fold(g0, pj0, pb0, names, ts).0,
            spec_mega_fold(g0, pj0, pb0, names, ts).1,
            spec_mega_fold(g0, pj0, pb0, names, ts).2,
        ),
        spec_mega_fold(g0, pj0, pb0, names, ts).1 is None && spec_mega_fold(
            g0,
            pj0,
            pb0,
            names,
            ts,
        ).2 is None ==> pj0 is None && pb0 is None && names.len() == 0,
    decreases names.len(),
{
    if names.len() > 0 {
        let pre = names.drop_last();
        assert(all_resolve(ts, pre)) by {
            assert(forall|i: int| 0 <= i < pre.len() ==> pre[i] == names[i]);
        }
        lemma_mega_fold_props(g0, pj0, pb0, pre, ts);
        let rec = spec_mega_fold(g0, pj0, pb0, pre, ts);
        assert(spec_lookup(ts, names.last()) is Some) by {
            assert(names[names.len() - 1] == names.last());
        }
        lemma_lookup_in_range(ts, names.last(), g0.len() as int);
        if !(rec.1 is None && rec.2 is None) {
            let to_add = spec_lookup(ts, names.last()).unwrap();
            let prev = if rec.1 is Some {
                rec.1.unwrap()
            } else {
                rec.2.unwrap()
            };
            lemma_outer_join_wf(rec.0, prev, to_add);
            lemma_g_extends_trans(spec_mega_fold(g0, pj0, pb0, names, ts).0, rec.0, g0);
        }
    }
}

/// Every fold prefix is a stage the full fold grows out of.
pub proof fn lemma_mega_fold_prefix(
    g0: Seq<NodeView>,
    pj0: Option<int>,
    pb0: Option<int>,
    names: Seq<Seq<char>>,
    ts: Seq<EntryView>,
    i: int,
)
    requires
        graph_wf(g0),
        tables_wf(ts, g0.len() as int),
        mega_state_ok(g0, pj0, pb0),
        all_resolve(ts, names),
        0 <= i <= names.len(),
    ensures
        g_extends(
            spec_mega_fold(g0, pj0, pb0, names, ts).0,
            spec_mega_fold(g0, pj0, pb0, names.take(i), ts).0,
        ),
    decreases names.len() - i,
{
    if i == names.len() {
        assert(names.take(i) =~= names);
        assert(g_extends(
            spec_mega_fold(g0, pj0, pb0, names, ts).0,
            spec_mega_fold(g0, pj0, pb0, names, ts).0,
        ));
    } else {
        lemma_mega_fold_prefix(g0, pj0, pb0, names, ts, i + 1);
        assert(all_resolve(ts, names.take(i + 1))) by {
            assert(forall|k: int|
                0 <= k < i + 1 ==> names.take(i + 1)[k] == #[trigger] names[k]);
        }
        lemma_mega_fold_props(g0, pj0, pb0, names.take(i), ts);
        let cur = spec_mega_fold(g0, pj0, pb0, names.take(i), ts);
        assert(names.take(i + 1).drop_last() =~= names.take(i));
        let nxt = spec_mega_fold(g0, pj0, pb0, names.take(i + 1), ts);
        if cur.1 is None && cur.2 is None {
            assert(nxt.0 == cur.0);
            assert(g_extends(nxt.0, cur.0));
        } else {
            let to_add = spec_lookup(ts, names.take(i + 1).last()).unwrap();
            let prev = if cur.1 is Some {
                cur.1.unwrap()
            } else {
                cur.2.unwrap()
            };
            lemma_lookup_in_range(ts, names.take(i + 1).last(), g0.len() as int);
            assert(spec_lookup(ts, names.take(i + 1).last()) is Some) by {
                assert(names.take(i + 1)[i] == names.take(i + 1).last());
                assert(all_resolve(ts, names.take(i + 1)));
            }
            lemma_outer_join_wf(cur.0, prev, to_add);
            assert(g_extends(nxt.0, cur.0));
        }
        lemma_g_extends_trans(
            spec_mega_fold(g0, pj0, pb0, names, ts).0,
            nxt.0,
            cur.0,
        );
    }
}

/// The megajoin strategy as a whole: whatever outer-join accumulator the
/// session already holds is extended, one outer join at a time, by every
/// requested name it does not cover yet; the result is the accumulator, or
/// the lone base node when there was exactly one uncovered name and nothing
/// to accumulate onto.
pub open spec fn spec_combined(
    g0: Seq<NodeView>,
    names: Seq<Seq<char>>,
    ts: Seq<EntryView>,
) -> (Seq<NodeView>, int) {
    let scan = spec_megajoin_scan(g0, g0.len() as int);
    let filtered = spec_filter_names(names, scan.0);
    let folded = spec_mega_fold(g0, scan.1, None, filtered, ts);
    let r = match folded.1 {
        Some(j) => j,
        None => folded.2.unwrap(),
    };
    (folded.0, r)
}

/// Plan a join by accumulating every requested relation into one cumulative
/// outer-join chain shared across the whole session. The graph the plan
/// would produce must keep every row estimate inside the machine word: the
/// summed outer-join estimates are exact, not saturated.
pub fn make_combined_joins(
    joinable_names: &Vec<String>,
    tables: &Vec<TableEntry>,
    graph: &mut Vec<TestNode>,
    opts: Optimizations,
) -> (r: usize)
    requires
        graph_wf(gview(old(graph)@)),
        tables_wf(tview(tables@), old(graph)@.len() as int),
        joinable_names@.len() >= 1,
        all_resolve(tview(tables@), nview(joinable_names@)),
        graph_fits(spec_combined(gview(old(graph)@), nview(joinable_names@), tview(tables@)).0),
    ensures
        (gview(final(graph)@), r as int) == spec_combined(
            gview(old(graph)@),
            nview(joinable_names@),
            tview(tables@),
        ),
        graph_wf(gview(final(graph)@)),
        r < final(graph)@.len(),
        old(graph)@.len() <= final(graph)@.len(),
{
    let ghost g0 = gview(graph@);
    let ghost nv = nview(joinable_names@);
    let ghost ts = tview(tables@);
    let mut already_joined_names: Vec<String> = Vec::new();
    let mut previous_join: Option<usize> = None;
    let glen = graph.len();
    let mut i: usize = 0;
    proof {
        assert(nview(already_joined_names@) =~= Seq::<Seq<char>>::empty());
    }
    while i < glen
        invariant
            graph_wf(g0),
            g0 == gview(graph@),
            glen == graph@.len(),
            0 <= i <= glen,
            (nview(already_joined_names@), oiview(previous_join)) == spec_megajoin_scan(
                g0,
                i as int,
            ),
        decreases glen - i,
    {
        proof {
            assert(g0[i as int] == graph@[i as int]@);
            assert(node_wf(g0, i as int));
        }
        let is_outer = match &graph[i].data {
            TestNodeData::OuterJoin => true,
            _ => false,
        };
        if is_outer {
            let a0 = graph[i].ancestors[0];
            let a1 = graph[i].ancestors[1];
            proof {
                assert(g0[i as int].ancestors[0] == a0 as int);
                assert(g0[i as int].ancestors[1] == a1 as int);
                assert(0 <= a0 < i && 0 <= a1 < i);
                assert(g0[a0 as int] == graph@[a0 as int]@);
                assert(g0[a1 as int] == graph@[a1 as int]@);
            }
            let ghost names_pre = nview(already_joined_names@);
            let a0_base = match &graph[a0].data {
                TestNodeData::Base { .. } => true,
                _ => false,
            };
            if a0_base {
                already_joined_names.push(graph[a0].name.clone());
                proof {
                    assert(nview(already_joined_names@) =~= names_pre.push(g0[a0 as int].name));
                }
            }
            let ghost names_mid = nview(already_joined_names@);
            let a1_base = match &graph[a1].data {
                TestNodeData::Base { .. } => true,
                _ => false,
            };
            if a1_base {
                already_joined_names.push(graph[a1].name.clone());
                proof {
                    assert(nview(already_joined_names@) =~= names_mid.push(g0[a1 as int].name));
                }
            }
            previous_join = Some(i);
        }
        i += 1;
    }
    let ghost scan = spec_megajoin_scan(g0, g0.len() as int);
    proof {
        assert(g0.len() == glen as int);
        lemma_megajoin_scan_props(g0, g0.len() as int);
    }
    let mut names: Vec<String> = Vec::new();
    let n_req = joinable_names.len();
    let mut i: usize = 0;
    proof {
        assert(nview(names@) =~= Seq::<Seq<char>>::empty());
        assert(nv.take(0) =~= Seq::<Seq<char>>::empty());
    }
    while i < n_req
        invariant
            nv == nview(joinable_names@),
            scan.0 == nview(already_joined_names@),
            n_req == joinable_names@.len(),
            0 <= i <= n_req,
            nview(names@) == spec_filter_names(nv.take(i as int), scan.0),
        decreases n_req - i,
    {
        proof {
            assert(nv[i as int] == joinable_names@[i as int]@);
            assert(nv.take(i as int + 1).drop_last() =~= nv.take(i as int));
            assert(nv.take(i as int + 1).last() == nv[i as int]);
        }
        if !contains_name(&already_joined_names, &joinable_names[i]) && !contains_name(
            &names,
            &joinable_names[i],
        ) {
            let ghost names_pre = nview(names@);
            names.push(joinable_names[i].clone());
            proof {
                assert(nview(names@) =~= names_pre.push(nv[i as int]));
            }
        }
        i += 1;
    }
    proof {
        assert(nv.take(n_req as int) =~= nv);
    }
    let ghost filtered = spec_filter_names(nv, scan.0);
    let ghost fin = spec_mega_fold(g0, scan.1, None, filtered, ts);
    proof {
        lemma_filter_names_props(nv, scan.0);
        assert(all_resolve(ts, filtered)) by {
            assert forall|k: int| 0 <= k < filtered.len() implies spec_lookup(
                ts,
                #[trigger] filtered[k],
            ) is Some by {
                assert(filtered.contains(filtered[k]));
                assert(nv.contains(filtered[k]));
                let j = choose|j: int| 0 <= j < nv.len() && nv[j] == filtered[k];
            }
        }
        assert(mega_state_ok(g0, scan.1, None));
        lemma_mega_fold_props(g0, scan.1, None, filtered, ts);
        assert(filtered.take(0) =~= Seq::<Seq<char>>::empty());
    }
    let mut previous_base: Option<usize> = None;
    let n_names = names.len();
    let mut i: usize = 0;
    while i < n_names
        invariant
            graph_wf(g0),
            tables_wf(ts, g0.len() as int),
            mega_state_ok(g0, scan.1, None),
            all_resolve(ts, filtered),
            graph_fits(fin.0),
            fin == spec_mega_fold(g0, scan.1, None, filtered, ts),
            filtered == nview(names@),
            ts == tview(tables@),
            n_names == names@.len(),
            0 <= i <= n_names,
            (gview(graph@), oiview(previous_join), oiview(previous_base)) == spec_mega_fold(
                g0,
                scan.1,
                None,
                filtered.take(i as int),
                ts,
            ),
            graph_wf(gview(graph@)),
            g0.len() <= graph@.len(),
            previous_join is Some ==> previous_join.unwrap() < graph@.len(),
            previous_base is Some ==> previous_base.unwrap() < graph@.len(),
        decreases n_names - i,
    {
        proof {
            assert(filtered[i as int] == names@[i as int]@);
            assert(filtered.take(i as int + 1).drop_last() =~= filtered.take(i as int));
            assert(filtered.take(i as int + 1).last() == filtered[i as int]);
            assert(all_resolve(ts, filtered.take(i as int))) by {
                assert(forall|k: int|
                    0 <= k < i as int ==> filtered.take(i as int)[k] == #[trigger] filtered[k]);
            }
        }
        let next_base: usize = match lookup_table(tables, &names[i]) {
            Some(k) => k,
            None => {
                proof {
                    assert(false);
                }
                vstd::pervasive::unreached()
            },
        };
        proof {
            lemma_lookup_in_range(ts, filtered[i as int], g0.len() as int);
        }
        if previous_join.is_none() && previous_base.is_none() {
            previous_base = Some(next_base);
        } else {
            let prev: usize = match previous_join {
                Some(p) => p,
                None => match previous_base {
                    Some(b) => b,
                    None => {
                        proof {
                            assert(false);
                        }
                        vstd::pervasive::unreached()
                    },
                },
            };
            proof {
                let cur = spec_mega_fold(g0, scan.1, None, filtered.take(i as int), ts);
                let nxt = spec_mega_fold(g0, scan.1, None, filtered.take(i as int + 1), ts);
                assert(nxt.0 == crate::join::spec_outer_join(cur.0, prev as int,
                next_base as int));
                lemma_mega_fold_prefix(g0, scan.1, None, filtered, ts, i as int + 1);
                lemma_outer_join_wf(cur.0, prev as int, next_base as int);
                let pos = cur.0.len() as int;
                assert(node_core_eq(fin.0[pos], nxt.0[pos]));
                assert(fin.0[pos].maxrows <= usize::MAX);
                assert(cur.0[prev as int].maxrows + cur.0[next_base as int].maxrows
                    <= usize::MAX);
            }
            let j = make_outer_join(prev, next_base, graph);
            previous_join = Some(j);
            previous_base = Some(next_base);
        }
        i += 1;
    }
    proof {
        assert(filtered.take(n_names as int) =~= filtered);
    }
    match previous_join {
        Some(j) => j,
        None => match previous_base {
            Some(b) => b,
            None => {
                // A nonempty request always leaves a seed or an accumulator.
                proof {
                    if scan.1 is None {
                        assert(scan.0.len() == 0);
                        assert(filtered.len() >= 1);
                    }
                    assert(false);
                }
                vstd::pervasive::unreached()
            },
        },
    }
}

} // verus!
