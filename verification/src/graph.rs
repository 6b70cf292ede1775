//! The operator-node model: one append-only directed acyclic graph of
//! relational operators, accumulated over a whole compilation session.
//!
//! Nodes live in an arena (a `Vec<TestNode>`); a node's `index` is its
//! position there, and ancestor/child links are stored as index lists, so a
//! node can only ever reference nodes appended before it.

use vstd::prelude::*;

verus! {

/// A column of a relation, tracked purely by name; no type information.
#[derive(Clone, Debug, PartialEq)]
pub struct Column {
    pub name: String,
}

impl View for Column {
    type V = Seq<char>;

    open spec fn view(&self) -> Seq<char> {
        self.name@
    }
}

/// Which relational operation a node stands for.
#[derive(Clone, Debug, PartialEq)]
pub enum TestNodeData {
    Base { primary_key: Column },
    InnerJoin,
    OuterJoin,
    Project,
    Leaf,
    /// Sentinel seed value only; never the kind of a node in the graph.
    UnimplementedNode,
}

/// Ghost counterpart of `TestNodeData`, with the key column reduced to its name.
pub ghost enum NodeKind {
    Base { primary_key: Seq<char> },
    InnerJoin,
    OuterJoin,
    Project,
    Leaf,
    Unimplemented,
}

impl View for TestNodeData {
    type V = NodeKind;

    open spec fn view(&self) -> NodeKind {
        match self {
            TestNodeData::Base { primary_key } => NodeKind::Base { primary_key: primary_key@ },
            TestNodeData::InnerJoin => NodeKind::InnerJoin,
            TestNodeData::OuterJoin => NodeKind::OuterJoin,
            TestNodeData::Project => NodeKind::Project,
            TestNodeData::Leaf => NodeKind::Leaf,
            TestNodeData::UnimplementedNode => NodeKind::Unimplemented,
        }
    }
}

/// One vertex of the operator graph.
#[derive(Debug)]
pub struct TestNode {
    /// Table name, view name, or a fixed tag such as "join" or "project".
    pub name: String,
    /// Position of this node in the graph; assigned at append, never reused.
    pub index: usize,
    pub data: TestNodeData,
    /// Output columns, in order, duplicates allowed.
    pub columns: Vec<Column>,
    /// Indices of this node's data inputs; all smaller than `index`.
    pub ancestors: Vec<usize>,
    /// Back-references: indices of nodes that use this node as an ancestor.
    pub children: Vec<usize>,
    /// Non-negative upper-bound estimate of output cardinality.
    pub maxrows: usize,
}

/// Mathematical image of one node.
pub ghost struct NodeView {
    pub name: Seq<char>,
    pub index: int,
    pub kind: NodeKind,
    pub columns: Seq<Seq<char>>,
    pub ancestors: Seq<int>,
    pub children: Seq<int>,
    pub maxrows: int,
}

impl View for TestNode {
    type V = NodeView;

    open spec fn view(&self) -> NodeView {
        NodeView {
            name: self.name@,
            index: self.index as int,
            kind: self.data@,
            columns: self.columns@.map_values(|c: Column| c@),
            ancestors: self.ancestors@.map_values(|a: usize| a as int),
            children: self.children@.map_values(|c: usize| c as int),
            maxrows: self.maxrows as int,
        }
    }
}

/// The whole graph, node by node, as mathematical values.
pub open spec fn gview(g: Seq<TestNode>) -> Seq<NodeView> {
    g.map_values(|n: TestNode| n@)
}

/// The smaller of two row estimates.
pub open spec fn spec_min(a: int, b: int) -> int {
    if a <= b {
        a
    } else {
        b
    }
}

/// The laws a node of each kind obeys relative to its ancestors: arity,
/// column concatenation for joins, and the cardinality estimates.
pub open spec fn kind_laws(g: Seq<NodeView>, n: NodeView) -> bool {
    match n.kind {
        NodeKind::Base { .. } => n.ancestors.len() == 0,
        NodeKind::InnerJoin => {
            &&& n.ancestors.len() == 2
            &&& n.columns == g[n.ancestors[0]].columns + g[n.ancestors[1]].columns
            &&& n.maxrows == spec_min(g[n.ancestors[0]].maxrows, g[n.ancestors[1]].maxrows)
        },
        NodeKind::OuterJoin => {
            &&& n.ancestors.len() == 2
            &&& n.columns == g[n.ancestors[0]].columns + g[n.ancestors[1]].columns
            &&& n.maxrows == g[n.ancestors[0]].maxrows + g[n.ancestors[1]].maxrows
        },
        NodeKind::Project => {
            &&& n.ancestors.len() == 1
            &&& n.maxrows == g[n.ancestors[0]].maxrows
        },
        NodeKind::Leaf => {
            &&& n.ancestors.len() == 1
            &&& n.maxrows == g[n.ancestors[0]].maxrows
        },
        NodeKind::Unimplemented => false,
    }
}

/// Well-formedness of the node at position `i`: it knows its own position,
/// its row estimate is non-negative, its ancestors were appended before it,
/// its children after it, and it obeys the laws of its kind.
pub open spec fn node_wf(g: Seq<NodeView>, i: int) -> bool {
    let n = g[i];
    &&& n.index == i
    &&& n.maxrows >= 0
    &&& forall|j: int| 0 <= j < n.ancestors.len() ==> 0 <= #[trigger] n.ancestors[j] < i
    &&& forall|j: int| 0 <= j < n.children.len() ==> i < #[trigger] n.children[j] < g.len()
    &&& kind_laws(g, n)
}

/// The session invariant: every node is well formed, and the child lists are
/// exactly the back-references of the ancestor lists.
pub open spec fn graph_wf(g: Seq<NodeView>) -> bool {
    &&& forall|i: int| 0 <= i < g.len() ==> node_wf(g, i)
    &&& forall|i: int, c: int|
        0 <= i < g.len() && 0 <= c < g.len() && #[trigger] g[i].children.contains(c)
            ==> g[c].ancestors.contains(i)
    &&& forall|i: int, c: int|
        0 <= i < g.len() && 0 <= c < g.len() && #[trigger] g[c].ancestors.contains(i)
            ==> g[i].children.contains(c)
}

/// Equality of every node field except the reactive `children` list.
pub open spec fn node_core_eq(a: NodeView, b: NodeView) -> bool {
    &&& a.name == b.name
    &&& a.index == b.index
    &&& a.kind == b.kind
    &&& a.columns == b.columns
    &&& a.ancestors == b.ancestors
    &&& a.maxrows == b.maxrows
}

/// The graph after recording, on each ancestor in `ancs` in order, that the
/// node at position `c` uses it as a data input.
pub open spec fn spec_push_children(g: Seq<NodeView>, ancs: Seq<int>, c: int) -> Seq<NodeView>
    decreases ancs.len(),
{
    if ancs.len() == 0 {
        g
    } else {
        let g1 = spec_push_children(g, ancs.drop_last(), c);
        let a = ancs.last();
        g1.update(a, NodeView { children: g1[a].children.push(c), ..g1[a] })
    }
}

/// The graph after appending node `n`: back-references first, then the node.
pub open spec fn spec_append(g: Seq<NodeView>, n: NodeView) -> Seq<NodeView> {
    spec_push_children(g, n.ancestors, g.len() as int).push(n)
}

/// What recording back-references does: lengths and every field except the
/// child lists are untouched, and a child entry `c` appears on exactly the
/// nodes listed in `ancs`.
pub proof fn lemma_push_children(g: Seq<NodeView>, ancs: Seq<int>, c: int)
    requires
        forall|j: int| 0 <= j < ancs.len() ==> 0 <= #[trigger] ancs[j] < g.len(),
    ensures
        spec_push_children(g, ancs, c).len() == g.len(),
        forall|i: int|
            0 <= i < g.len() ==> node_core_eq(#[trigger] spec_push_children(g, ancs, c)[i], g[i]),
        forall|i: int|
            0 <= i < g.len() && !ancs.contains(i) ==> #[trigger] spec_push_children(
                g,
                ancs,
                c,
            )[i] == g[i],
        forall|i: int, x: int|
            0 <= i < g.len() ==> (#[trigger] spec_push_children(g, ancs, c)[i].children.contains(x)
                <==> (g[i].children.contains(x) || (x == c && ancs.contains(i)))),
        forall|i: int|
            0 <= i < g.len() ==> g[i].children.is_prefix_of(
                #[trigger] spec_push_children(g, ancs, c)[i].children,
            ),
    decreases ancs.len(),
{
    if ancs.len() == 0 {
        assert forall|i: int| 0 <= i < g.len() implies g[i].children.is_prefix_of(
            #[trigger] spec_push_children(g, ancs, c)[i].children,
        ) by {
            assert(g[i].children =~= g[i].children.take(g[i].children.len() as int));
        }
    } else {
        let pre = ancs.drop_last();
        let a = ancs.last();
        lemma_push_children(g, pre, c);
        let g1 = spec_push_children(g, pre, c);
        let g2 = spec_push_children(g, ancs, c);
        assert(g2 == g1.update(a, NodeView { children: g1[a].children.push(c), ..g1[a] }));
        assert forall|i: int, x: int| 0 <= i < g.len() implies (
            #[trigger] g2[i].children.contains(x) <==> (g[i].children.contains(x) || (x == c
                && ancs.contains(i)))) by {
            if i == a {
                assert(g2[i].children == g1[i].children.push(c));
                assert(ancs.contains(i)) by {
                    assert(ancs[ancs.len() - 1] == i);
                }
                if g2[i].children.contains(x) {
                    let k = choose|k: int| 0 <= k < g2[i].children.len() && g2[i].children[k] == x;
                    if k < g1[i].children.len() {
                        assert(g1[i].children.contains(x));
                    } else {
                        assert(x == c);
                    }
                }
                if g1[i].children.contains(x) {
                    let k = choose|k: int| 0 <= k < g1[i].children.len() && g1[i].children[k] == x;
                    assert(g2[i].children[k] == x);
                }
                if x == c {
                    assert(g2[i].children[g1[i].children.len() as int] == c);
                }
            } else {
                assert(g2[i] == g1[i]);
                if ancs.contains(i) {
                    let k = choose|k: int| 0 <= k < ancs.len() && ancs[k] == i;
                    assert(k < pre.len());
                    assert(pre[k] == i);
                    assert(pre.contains(i));
                }
                if pre.contains(i) {
                    let k = choose|k: int| 0 <= k < pre.len() && pre[k] == i;
                    assert(ancs[k] == i);
                    assert(ancs.contains(i));
                }
            }
        }
        assert forall|i: int| 0 <= i < g.len() && !ancs.contains(i) implies #[trigger] g2[i]
            == g[i] by {
            if !ancs.contains(i) {
                assert forall|k: int| 0 <= k < pre.len() implies pre[k] != i by {
                    assert(ancs[k] == pre[k]);
                }
                assert(!pre.contains(i));
                assert(i != a) by {
                    assert(ancs[ancs.len() - 1] == a);
                }
            }
        }
        assert forall|i: int| 0 <= i < g.len() implies g[i].children.is_prefix_of(
            #[trigger] g2[i].children,
        ) by {
            if i == a {
                assert(g1[i].children.take(g[i].children.len() as int) == g[i].children);
                assert(g2[i].children == g1[i].children.push(c));
                assert(g2[i].children.take(g[i].children.len() as int) =~= g1[i].children.take(
                    g[i].children.len() as int,
                ));
            }
        }
    }
}

/// Appending a well-formed node keeps the whole graph well formed.
pub proof fn lemma_append_wf(g: Seq<NodeView>, n: NodeView)
    requires
        graph_wf(g),
        n.index == g.len(),
        n.maxrows >= 0,
        n.children.len() == 0,
        forall|j: int| 0 <= j < n.ancestors.len() ==> 0 <= #[trigger] n.ancestors[j] < g.len(),
        kind_laws(g, n),
    ensures
        graph_wf(spec_append(g, n)),
        spec_append(g, n).len() == g.len() + 1,
        spec_append(g, n)[g.len() as int] == n,
        forall|i: int|
            0 <= i < g.len() ==> node_core_eq(#[trigger] spec_append(g, n)[i], g[i]),
        forall|i: int|
            0 <= i < g.len() && !n.ancestors.contains(i) ==> #[trigger] spec_append(g, n)[i]
                == g[i],
{
    let c = g.len() as int;
    lemma_push_children(g, n.ancestors, c);
    let g1 = spec_push_children(g, n.ancestors, c);
    let g2 = spec_append(g, n);
    assert(g2 == g1.push(n));
    assert forall|i: int| 0 <= i < g2.len() implies node_wf(g2, i) by {
        if i < g.len() {
            assert(node_wf(g, i));
            assert(node_core_eq(g2[i], g[i]));
            assert forall|j: int| 0 <= j < g2[i].children.len() implies i < #[trigger] g2[i].children[j]
                < g2.len() by {
                assert(g2[i].children.contains(g2[i].children[j]));
                let x = g2[i].children[j];
                assert(g[i].children.contains(x) || (x == c && n.ancestors.contains(i)));
                if g[i].children.contains(x) {
                    let k = choose|k: int| 0 <= k < g[i].children.len() && g[i].children[k] == x;
                    assert(i < g[i].children[k] < g.len());
                }
            }
            assert(kind_laws(g2, g2[i])) by {
                match g2[i].kind {
                    NodeKind::InnerJoin => {
                        assert(node_core_eq(g2[g[i].ancestors[0]], g[g[i].ancestors[0]]));
                        assert(node_core_eq(g2[g[i].ancestors[1]], g[g[i].ancestors[1]]));
                    },
                    NodeKind::OuterJoin => {
                        assert(node_core_eq(g2[g[i].ancestors[0]], g[g[i].ancestors[0]]));
                        assert(node_core_eq(g2[g[i].ancestors[1]], g[g[i].ancestors[1]]));
                    },
                    NodeKind::Project => {
                        assert(node_core_eq(g2[g[i].ancestors[0]], g[g[i].ancestors[0]]));
                    },
                    NodeKind::Leaf => {
                        assert(node_core_eq(g2[g[i].ancestors[0]], g[g[i].ancestors[0]]));
                    },
                    _ => {},
                }
            }
        } else {
            assert(g2[i] == n);
            assert(kind_laws(g2, n)) by {
                match n.kind {
                    NodeKind::InnerJoin => {
                        assert(node_core_eq(g2[n.ancestors[0]], g[n.ancestors[0]]));
                        assert(node_core_eq(g2[n.ancestors[1]], g[n.ancestors[1]]));
                    },
                    NodeKind::OuterJoin => {
                        assert(node_core_eq(g2[n.ancestors[0]], g[n.ancestors[0]]));
                        assert(node_core_eq(g2[n.ancestors[1]], g[n.ancestors[1]]));
                    },
                    NodeKind::Project => {
                        assert(node_core_eq(g2[n.ancestors[0]], g[n.ancestors[0]]));
                    },
                    NodeKind::Leaf => {
                        assert(node_core_eq(g2[n.ancestors[0]], g[n.ancestors[0]]));
                    },
                    _ => {},
                }
            }
        }
    }
    assert forall|i: int, ch: int|
        0 <= i < g2.len() && 0 <= ch < g2.len() && #[trigger] g2[i].children.contains(ch) implies
        g2[ch].ancestors.contains(i) by {
        if i < g.len() {
            assert(g[i].children.contains(ch) || (ch == c && n.ancestors.contains(i)));
            if g[i].children.contains(ch) {
                assert(node_wf(g, i));
                let k = choose|k: int| 0 <= k < g[i].children.len() && g[i].children[k] == ch;
                assert(i < ch < g.len());
                assert(g[ch].ancestors.contains(i));
                assert(node_core_eq(g2[ch], g[ch]));
            }
        } else {
            assert(g2[i] == n);
            assert(n.children.contains(ch));
            assert(false);
        }
    }
    assert forall|i: int, ch: int|
        0 <= i < g2.len() && 0 <= ch < g2.len() && #[trigger] g2[ch].ancestors.contains(i) implies
        g2[i].children.contains(ch) by {
        if ch < g.len() {
            assert(node_core_eq(g2[ch], g[ch]));
            assert(g[ch].ancestors.contains(i));
            assert(node_wf(g, ch));
            let k = choose|k: int| 0 <= k < g[ch].ancestors.len() && g[ch].ancestors[k] == i;
            assert(0 <= i < ch);
            assert(g[i].children.contains(ch));
        } else {
            assert(g2[ch] == n);
            assert(n.ancestors.contains(i));
            let k = choose|k: int| 0 <= k < n.ancestors.len() && n.ancestors[k] == i;
            assert(0 <= i < g.len());
        }
    }
}

/// `gview` commutes with point updates of the node vector.
pub proof fn lemma_gview_update(g: Seq<TestNode>, i: int, n: TestNode)
    requires
        0 <= i < g.len(),
    ensures
        gview(g.update(i, n)) == gview(g).update(i, n@),
{
    assert(gview(g.update(i, n)) =~= gview(g).update(i, n@));
}

/// `gview` commutes with appending a node.
pub proof fn lemma_gview_push(g: Seq<TestNode>, n: TestNode)
    ensures
        gview(g.push(n)) == gview(g).push(n@),
{
    assert(gview(g.push(n)) =~= gview(g).push(n@));
}

/// Whether the id `x` occurs in an ancestor or child list.
pub fn contains_id(v: &Vec<usize>, x: usize) -> (r: bool)
    ensures
        r == v@.map_values(|a: usize| a as int).contains(x as int),
{
    let ghost vv = v@.map_values(|a: usize| a as int);
    let mut i: usize = 0;
    while i < v.len()
        invariant
            0 <= i <= v.len(),
            vv == v@.map_values(|a: usize| a as int),
            forall|k: int| 0 <= k < i ==> #[trigger] vv[k] != x as int,
        decreases v.len() - i,
    {
        if v[i] == x {
            assert(vv[i as int] == x as int);
            return true;
        }
        i += 1;
    }
    false
}

/// Append `node` to the graph: fill in the back-references on each of its
/// ancestors, then push it; its id is its position.
pub fn append_node(graph: &mut Vec<TestNode>, node: TestNode) -> (r: usize)
    requires
        graph_wf(gview(old(graph)@)),
        node@.index == old(graph)@.len(),
        node@.maxrows >= 0,
        node@.children.len() == 0,
        forall|j: int|
            0 <= j < node@.ancestors.len() ==> 0 <= #[trigger] node@.ancestors[j] < old(
                graph,
            )@.len(),
        kind_laws(gview(old(graph)@), node@),
    ensures
        r == old(graph)@.len(),
        gview(final(graph)@) == spec_append(gview(old(graph)@), node@),
        graph_wf(gview(final(graph)@)),
        final(graph)@.len() == old(graph)@.len() + 1,
        gview(final(graph)@)[r as int] == node@,
{
    let ghost g0 = gview(old(graph)@);
    let r = graph.len();
    let ghost ancs = node@.ancestors;
    proof {
        lemma_push_children(g0, ancs, r as int);
    }
    let n_anc = node.ancestors.len();
    let mut j: usize = 0;
    while j < n_anc
        invariant
            graph_wf(g0),
            g0 == gview(old(graph)@),
            g0.len() == old(graph)@.len(),
            node@.index == g0.len(),
            r == g0.len(),
            n_anc == node@.ancestors.len(),
            ancs == node@.ancestors,
            forall|k: int| 0 <= k < ancs.len() ==> 0 <= #[trigger] ancs[k] < g0.len(),
            0 <= j <= n_anc,
            graph@.len() == g0.len(),
            gview(graph@) == spec_push_children(g0, ancs.take(j as int), r as int),
        decreases n_anc - j,
    {
        let a = node.ancestors[j];
        proof {
            assert(ancs[j as int] == a as int);
            lemma_push_children(g0, ancs.take(j as int), r as int);
        }
        let ghost before = graph@;
        proof {
            assert(a < graph@.len());
        }
        let elem = &mut graph[a];
        let ghost e0 = *elem;
        elem.children.push(r);
        proof {
            assert(elem@.children =~= e0@.children.push(r as int));
            assert(elem@ =~= (NodeView { children: e0@.children.push(r as int), ..e0@ }));
            lemma_gview_update(before, a as int, *elem);
            assert(ancs.take(j as int + 1).drop_last() =~= ancs.take(j as int));
            assert(ancs.take(j as int + 1).last() == ancs[j as int]);
            assert(gview(graph@) =~= spec_push_children(g0, ancs.take(j as int + 1), r as int));
        }
        j += 1;
    }
    proof {
        assert(ancs.take(n_anc as int) =~= ancs);
        lemma_append_wf(g0, node@);
    }
    let ghost before_push = graph@;
    let ghost nv = node@;
    graph.push(node);
    proof {
        lemma_gview_push(before_push, graph@[graph@.len() - 1]);
        assert(gview(graph@) =~= spec_append(g0, nv));
    }
    r
}

impl TestNode {
    /// Build a node value. Unlike in a reference-counted graph, constructing
    /// a node has no side effect: back-references on the ancestors are filled
    /// in when the node is appended to the graph.
    pub fn new(
        name: &str,
        index: usize,
        data: TestNodeData,
        columns: Vec<Column>,
        ancestors: Vec<usize>,
        children: Vec<usize>,
        maxrows: usize,
    ) -> (r: TestNode)
        ensures
            r@ == (NodeView {
                name: name@,
                index: index as int,
                kind: data@,
                columns: columns@.map_values(|c: Column| c@),
                ancestors: ancestors@.map_values(|a: usize| a as int),
                children: children@.map_values(|c: usize| c as int),
                maxrows: maxrows as int,
            }),
    {
        TestNode { name: name.to_owned(), index, data, columns, ancestors, children, maxrows }
    }

    /// Record that node `c` uses this node as an ancestor.
    pub fn add_child(&mut self, c: usize)
        ensures
            final(self)@ == (NodeView { children: old(self)@.children.push(c as int), ..old(self)@ }),
    {
        self.children.push(c);
        proof {
            assert(final(self)@.children =~= old(self)@.children.push(c as int));
            assert(final(self)@ =~= (NodeView {
                children: old(self)@.children.push(c as int),
                ..old(self)@
            }));
        }
    }
}

/// One binding of a table or view name to the node that represents it.
pub struct TableEntry {
    pub name: String,
    pub node: usize,
}

/// Mathematical image of one binding.
pub ghost struct EntryView {
    pub name: Seq<char>,
    pub node: int,
}

impl View for TableEntry {
    type V = EntryView;

    open spec fn view(&self) -> EntryView {
        EntryView { name: self.name@, node: self.node as int }
    }
}

/// The whole registry, binding by binding, as mathematical values.
pub open spec fn tview(ts: Seq<TableEntry>) -> Seq<EntryView> {
    ts.map_values(|e: TableEntry| e@)
}

/// Which node a name resolves to; the most recent binding wins, so a later
/// CREATE VIEW with the name of an existing table silently replaces it.
pub open spec fn spec_lookup(ts: Seq<EntryView>, name: Seq<char>) -> Option<int>
    decreases ts.len(),
{
    if ts.len() == 0 {
        None
    } else if ts.last().name == name {
        Some(ts.last().node)
    } else {
        spec_lookup(ts.drop_last(), name)
    }
}

/// Every binding points into the graph.
pub open spec fn tables_wf(ts: Seq<EntryView>, glen: int) -> bool {
    forall|k: int| 0 <= k < ts.len() ==> 0 <= (#[trigger] ts[k]).node < glen
}

/// A successful lookup lands inside the graph.
pub proof fn lemma_lookup_in_range(ts: Seq<EntryView>, name: Seq<char>, glen: int)
    requires
        tables_wf(ts, glen),
    ensures
        spec_lookup(ts, name) is Some ==> 0 <= spec_lookup(ts, name).unwrap() < glen,
    decreases ts.len(),
{
    if ts.len() > 0 && ts.last().name != name {
        assert(forall|k: int|
            0 <= k < ts.drop_last().len() ==> #[trigger] ts.drop_last()[k] == ts[k]);
        lemma_lookup_in_range(ts.drop_last(), name, glen);
    }
}

/// Resolve a table or view name to its current node, scanning the most
/// recent bindings first.
pub fn lookup_table(tables: &Vec<TableEntry>, name: &String) -> (r: Option<usize>)
    ensures
        match r {
            Some(k) => spec_lookup(tview(tables@), name@) == Some(k as int),
            None => spec_lookup(tview(tables@), name@) is None,
        },
{
    let ghost tv = tview(tables@);
    let mut i: usize = tables.len();
    proof {
        assert(tv.take(i as int) =~= tv);
    }
    while i > 0
        invariant
            0 <= i <= tables.len(),
            tv == tview(tables@),
            spec_lookup(tv, name@) == spec_lookup(tv.take(i as int), name@),
        decreases i,
    {
        let k = i - 1;
        proof {
            assert(tv[k as int] == tables@[k as int]@);
            assert(tv.take(k as int + 1).last() == tv[k as int]);
            assert(tv.take(k as int + 1).drop_last() =~= tv.take(k as int));
        }
        if tables[k].name == *name {
            return Some(tables[k].node);
        }
        i = k;
    }
    proof {
        assert(tv.take(0) =~= Seq::<EntryView>::empty());
    }
    None
}

/// Bind `name` to `node`, shadowing any earlier binding of the same name.
pub fn register_table(tables: &mut Vec<TableEntry>, name: String, node: usize)
    ensures
        tview(final(tables)@) == tview(old(tables)@).push(
            EntryView { name: name@, node: node as int },
        ),
{
    let ghost before = tables@;
    let ghost ev = EntryView { name: name@, node: node as int };
    tables.push(TableEntry { name, node });
    proof {
        assert(tview(tables@) =~= tview(before).push(ev));
    }
}

/// The fixed name→row-count estimates, with a default of 10 for any table
/// the catalog does not know.
pub open spec fn spec_estimate(name: Seq<char>) -> int {
    if name == "customer"@ {
        2880000
    } else if name == "orders"@ {
        2592000
    } else if name == "order_line"@ {
        7775551
    } else if name == "item"@ {
        10000
    } else if name == "author"@ {
        625
    } else if name == "cc_xacts"@ {
        2592000
    } else if name == "country"@ {
        92
    } else if name == "address"@ {
        5760000
    } else {
        10
    }
}

/// Whether a name equals a fixed catalog key.
fn name_is(name: &String, lit: &str) -> (r: bool)
    ensures
        r == (name@ == lit@),
{
    let s = lit.to_owned();
    *name == s
}

/// Estimated row count of a base table, from the fixed catalog.
pub fn estimate_rows(name: &String) -> (r: usize)
    ensures
        r as int == spec_estimate(name@),
{
    if name_is(name, "customer") {
        2880000
    } else if name_is(name, "orders") {
        2592000
    } else if name_is(name, "order_line") {
        7775551
    } else if name_is(name, "item") {
        10000
    } else if name_is(name, "author") {
        625
    } else if name_is(name, "cc_xacts") {
        2592000
    } else if name_is(name, "country") {
        92
    } else if name_is(name, "address") {
        5760000
    } else {
        10
    }
}

/// View of a list of names.
pub open spec fn nview(s: Seq<String>) -> Seq<Seq<char>> {
    s.map_values(|x: String| x@)
}

/// View of a list of node ids.
pub open spec fn iview(s: Seq<usize>) -> Seq<int> {
    s.map_values(|x: usize| x as int)
}

/// View of an optional node id.
pub open spec fn oiview(o: Option<usize>) -> Option<int> {
    match o {
        Some(k) => Some(k as int),
        None => None,
    }
}

/// `g2` grows out of `g1`: every node of `g1` is still there, unchanged but
/// for the reactive child lists.
pub open spec fn g_extends(g2: Seq<NodeView>, g1: Seq<NodeView>) -> bool {
    &&& g1.len() <= g2.len()
    &&& forall|i: int| 0 <= i < g1.len() ==> node_core_eq(#[trigger] g2[i], g1[i])
}

/// Growing out of a graph is transitive.
pub proof fn lemma_g_extends_trans(g3: Seq<NodeView>, g2: Seq<NodeView>, g1: Seq<NodeView>)
    requires
        g_extends(g3, g2),
        g_extends(g2, g1),
    ensures
        g_extends(g3, g1),
{
}

/// Every row estimate fits the machine word.
pub open spec fn graph_fits(g: Seq<NodeView>) -> bool {
    forall|i: int| 0 <= i < g.len() ==> (#[trigger] g[i]).maxrows <= usize::MAX
}

/// Copy a column list; the copy holds the same columns.
pub fn copy_columns(src: &Vec<Column>) -> (r: Vec<Column>)
    ensures
        r@ == src@,
{
    let mut r: Vec<Column> = Vec::new();
    let mut i: usize = 0;
    while i < src.len()
        invariant
            0 <= i <= src.len(),
            r@ =~= src@.take(i as int),
        decreases src.len() - i,
    {
        r.push(Column { name: src[i].name.clone() });
        proof {
            assert(r@.last() == src@[i as int]);
            assert(r@ =~= src@.take(i as int + 1));
        }
        i += 1;
    }
    proof {
        assert(src@.take(src@.len() as int) =~= src@);
    }
    r
}

/// Turn a list of column names into columns.
pub fn columns_from_names(names: &Vec<String>) -> (r: Vec<Column>)
    ensures
        r@.map_values(|c: Column| c@) == nview(names@),
{
    let mut r: Vec<Column> = Vec::new();
    let mut i: usize = 0;
    while i < names.len()
        invariant
            0 <= i <= names.len(),
            r@.len() == i,
            forall|k: int| 0 <= k < i ==> (#[trigger] r@[k])@ == names@[k]@,
        decreases names.len() - i,
    {
        r.push(Column { name: names[i].clone() });
        i += 1;
    }
    proof {
        assert(r@.map_values(|c: Column| c@) =~= nview(names@));
    }
    r
}

/// A parsed CREATE TABLE statement, reduced to what the compiler reads:
/// the table name and its column names.
pub struct CreateTableAst {
    pub name: String,
    pub columns: Vec<String>,
}

/// Mathematical image of a CREATE TABLE statement.
pub ghost struct CreateTableView {
    pub name: Seq<char>,
    pub columns: Seq<Seq<char>>,
}

impl View for CreateTableAst {
    type V = CreateTableView;

    open spec fn view(&self) -> CreateTableView {
        CreateTableView { name: self.name@, columns: nview(self.columns@) }
    }
}

/// The base node a CREATE TABLE appends: no ancestors, columns as declared,
/// rows from the catalog, and an empty (unset) primary-key column.
pub open spec fn spec_base_node(g: Seq<NodeView>, s: CreateTableView) -> NodeView {
    NodeView {
        name: s.name,
        index: g.len() as int,
        kind: NodeKind::Base { primary_key: Seq::empty() },
        columns: s.columns,
        ancestors: Seq::empty(),
        children: Seq::empty(),
        maxrows: spec_estimate(s.name),
    }
}

/// Compile a CREATE TABLE: append its base node and bind its name to it.
pub fn make_table(s: &CreateTableAst, tables: &mut Vec<TableEntry>, graph: &mut Vec<TestNode>) -> (
    r: usize)
    requires
        graph_wf(gview(old(graph)@)),
        tables_wf(tview(old(tables)@), old(graph)@.len() as int),
    ensures
        r == old(graph)@.len(),
        gview(final(graph)@) == spec_append(gview(old(graph)@), spec_base_node(
            gview(old(graph)@),
            s@,
        )),
        tview(final(tables)@) == tview(old(tables)@).push(
            EntryView { name: s@.name, node: r as int },
        ),
        graph_wf(gview(final(graph)@)),
        tables_wf(tview(final(tables)@), final(graph)@.len() as int),
        final(graph)@.len() == old(graph)@.len() + 1,
{
    let ghost g0 = gview(graph@);
    let maxrows = estimate_rows(&s.name);
    let cols = columns_from_names(&s.columns);
    let node = TestNode::new(
        s.name.as_str(),
        graph.len(),
        TestNodeData::Base { primary_key: Column { name: String::new() } },
        cols,
        Vec::new(),
        Vec::new(),
        maxrows,
    );
    proof {
        assert(node@.ancestors =~= Seq::<int>::empty());
        assert(node@.children =~= Seq::<int>::empty());
        assert(node@ =~= spec_base_node(g0, s@));
    }
    let r = append_node(graph, node);
    register_table(tables, s.name.clone(), r);
    proof {
        let tv = tview(tables@);
        assert forall|k: int| 0 <= k < tv.len() implies 0 <= (#[trigger] tv[k]).node < graph@.len()
            as int by {
            if k < tv.len() - 1 {
                assert(tv[k] == tview(old(tables)@)[k]);
            }
        }
    }
    r
}

/// The data inputs of the node at `node`.
pub fn ancestors_of(graph: &Vec<TestNode>, node: usize) -> (r: &Vec<usize>)
    requires
        node < graph@.len(),
    ensures
        r@.map_values(|a: usize| a as int) == gview(graph@)[node as int].ancestors,
{
    proof {
        assert(gview(graph@)[node as int] == graph@[node as int]@);
    }
    &graph[node].ancestors
}

/// The nodes that use the node at `node` as a data input.
pub fn children_of(graph: &Vec<TestNode>, node: usize) -> (r: &Vec<usize>)
    requires
        node < graph@.len(),
    ensures
        r@.map_values(|c: usize| c as int) == gview(graph@)[node as int].children,
{
    proof {
        assert(gview(graph@)[node as int] == graph@[node as int]@);
    }
    &graph[node].children
}

/// The sentinel seed node: a placeholder that is never appended to the graph.
pub fn get_empty_node() -> (r: TestNode)
    ensures
        r@.name == "unimplemented"@,
        r@.kind is Unimplemented,
        r@.index == 0,
        r@.columns.len() == 0,
        r@.ancestors.len() == 0,
        r@.children.len() == 0,
        r@.maxrows == 0,
{
    TestNode::new(
        "unimplemented",
        0,
        TestNodeData::UnimplementedNode,
        Vec::new(),
        Vec::new(),
        Vec::new(),
        0,
    )
}

} // verus!
