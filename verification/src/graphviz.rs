//! Rendering the operator graph: a directed-graph textual description with
//! one declaration per node and one edge per (node, child) pair, plus the
//! indented ancestor-tree listing. Every renderer's output is pinned, down
//! to the character, by a spec of the same shape.

use vstd::prelude::*;

use crate::graph::{NodeKind, NodeView, TestNode, graph_wf, gview, node_wf};

verus! {

/// The decimal digit `d` as a character.
pub open spec fn spec_dec_digit(d: int) -> char
    recommends
        0 <= d <= 9,
{
    if d == 0 {
        '0'
    } else if d == 1 {
        '1'
    } else if d == 2 {
        '2'
    } else if d == 3 {
        '3'
    } else if d == 4 {
        '4'
    } else if d == 5 {
        '5'
    } else if d == 6 {
        '6'
    } else if d == 7 {
        '7'
    } else if d == 8 {
        '8'
    } else {
        '9'
    }
}

/// The decimal numeral of a non-negative number, most significant digit
/// first and without leading zeros.
pub open spec fn spec_dec(n: int) -> Seq<char>
    recommends
        n >= 0,
    decreases n,
{
    if n <= 9 {
        seq![spec_dec_digit(n)]
    } else {
        spec_dec(n / 10).push(spec_dec_digit(n % 10))
    }
}

/// One decimal digit as a string slice.
fn digit_str(d: usize) -> (r: &'static str)
    requires
        d <= 9,
    ensures
        r@ == seq![spec_dec_digit(d as int)],
{
    proof {
        reveal_strlit("0");
        reveal_strlit("1");
        reveal_strlit("2");
        reveal_strlit("3");
        reveal_strlit("4");
        reveal_strlit("5");
        reveal_strlit("6");
        reveal_strlit("7");
        reveal_strlit("8");
        reveal_strlit("9");
    }
    let r = match d {
        0 => "0",
        1 => "1",
        2 => "2",
        3 => "3",
        4 => "4",
        5 => "5",
        6 => "6",
        7 => "7",
        8 => "8",
        _ => "9",
    };
    proof {
        assert(r@ =~= seq![spec_dec_digit(d as int)]);
    }
    r
}

/// Render a number in decimal.
pub fn usize_to_string(n: usize) -> (r: String)
    ensures
        r@ == spec_dec(n as int),
    decreases n,
{
    if n <= 9 {
        digit_str(n).to_owned()
    } else {
        let mut s = usize_to_string(n / 10);
        s.append(digit_str(n % 10));
        proof {
            assert(s@ =~= spec_dec(n as int));
        }
        s
    }
}

/// The node declaration body: its label holding the node's name and its row
/// estimate.
pub open spec fn spec_describe(n: NodeView) -> Seq<char> {
    "[label=\""@ + n.name + " "@ + spec_dec(n.maxrows) + "\"]\n"@
}

impl TestNode {
    /// The declaration body of this node in the rendered graph.
    pub fn describe(&self) -> (r: String)
        ensures
            r@ == spec_describe(self@),
    {
        let mut s = String::new();
        s.append("[label=\"");
        s.append(self.name.as_str());
        s.append(" ");
        let num = usize_to_string(self.maxrows);
        s.append(num.as_str());
        s.append("\"]\n");
        proof {
            assert(s@ =~= spec_describe(self@));
        }
        s
    }
}

/// The declarations of the first `i` nodes, one per line, each indented and
/// named `n` plus its id.
pub open spec fn spec_node_decls(g: Seq<NodeView>, i: int) -> Seq<char>
    decreases i,
{
    if i <= 0 {
        Seq::empty()
    } else {
        spec_node_decls(g, i - 1) + "    "@ + "n"@ + spec_dec(g[i - 1].index) + spec_describe(
            g[i - 1],
        )
    }
}

/// The edge lines from node `n` to its first `j` children.
pub open spec fn spec_edge_lines(n: NodeView, j: int) -> Seq<char>
    decreases j,
{
    if j <= 0 {
        Seq::empty()
    } else {
        spec_edge_lines(n, j - 1) + "    "@ + "n"@ + spec_dec(n.index) + " -> n"@ + spec_dec(
            n.children[j - 1],
        ) + " [ ]"@ + "\n"@
    }
}

/// The edge lines of the first `i` nodes.
pub open spec fn spec_edges(g: Seq<NodeView>, i: int) -> Seq<char>
    decreases i,
{
    if i <= 0 {
        Seq::empty()
    } else {
        spec_edges(g, i - 1) + spec_edge_lines(g[i - 1], g[i - 1].children.len() as int)
    }
}

/// The whole rendered graph: header, global formatting, node declarations,
/// edges, footer.
pub open spec fn spec_graphviz(g: Seq<NodeView>) -> Seq<char> {
    "digraph {{\n"@ + "    "@ + "graph [ fontsize=24 fontcolor=\"#0C6fA9\", outputorder=edgesfirst ]\n"@
        + "edge [ color=\"#0C6fA9\", style=bold ]\n"@
        + "node [ color=\"#0C6fA9\", shape=box, style=\"rounded,bold\" ]\n"@ + spec_node_decls(
        g,
        g.len() as int,
    ) + spec_edges(g, g.len() as int) + "}}"@
}

/// Render the whole session graph as a directed-graph description: one
/// declaration per node, then one edge per (node, child) pair.
pub fn graphviz(graph: &Vec<TestNode>) -> (r: String)
    ensures
        r@ == spec_graphviz(gview(graph@)),
{
    let ghost g = gview(graph@);
    let mut s = String::new();
    s.append("digraph {{\n");
    s.append("    ");
    s.append("graph [ fontsize=24 fontcolor=\"#0C6fA9\", outputorder=edgesfirst ]\n");
    s.append("edge [ color=\"#0C6fA9\", style=bold ]\n");
    s.append("node [ color=\"#0C6fA9\", shape=box, style=\"rounded,bold\" ]\n");
    let ghost header = s@;
    let n = graph.len();
    let mut i: usize = 0;
    proof {
        assert(s@ =~= header + spec_node_decls(g, 0));
    }
    while i < n
        invariant
            g == gview(graph@),
            n == graph@.len(),
            0 <= i <= n,
            s@ == header + spec_node_decls(g, i as int),
        decreases n - i,
    {
        proof {
            assert(g[i as int] == graph@[i as int]@);
        }
        s.append("    ");
        s.append("n");
        let num = usize_to_string(graph[i].index);
        s.append(num.as_str());
        let desc = graph[i].describe();
        s.append(desc.as_str());
        proof {
            assert(s@ =~= header + spec_node_decls(g, i as int + 1));
        }
        i += 1;
    }
    let ghost decls_done = s@;
    let mut i: usize = 0;
    proof {
        assert(s@ =~= decls_done + spec_edges(g, 0));
    }
    while i < n
        invariant
            g == gview(graph@),
            n == graph@.len(),
            0 <= i <= n,
            s@ == decls_done + spec_edges(g, i as int),
        decreases n - i,
    {
        proof {
            assert(g[i as int] == graph@[i as int]@);
        }
        let n_children = graph[i].children.len();
        let mut j: usize = 0;
        proof {
            assert(s@ + spec_edge_lines(g[i as int], 0) =~= s@);
        }
        let ghost node_start = s@;
        while j < n_children
            invariant
                g == gview(graph@),
                i < graph@.len(),
                g[i as int] == graph@[i as int]@,
                n_children == g[i as int].children.len(),
                0 <= j <= n_children,
                s@ == node_start + spec_edge_lines(g[i as int], j as int),
            decreases n_children - j,
        {
            proof {
                assert(g[i as int].children[j as int] == graph@[i as int].children@[j as int] as int);
            }
            s.append("    ");
            s.append("n");
            let num = usize_to_string(graph[i].index);
            s.append(num.as_str());
            s.append(" -> n");
            let child = usize_to_string(graph[i].children[j]);
            s.append(child.as_str());
            s.append(" [ ]");
            s.append("\n");
            proof {
                assert(s@ =~= node_start + spec_edge_lines(g[i as int], j as int + 1));
            }
            j += 1;
        }
        proof {
            assert(s@ =~= decls_done + spec_edges(g, i as int + 1));
        }
        i += 1;
    }
    s.append("}}");
    proof {
        assert(s@ =~= spec_graphviz(g));
    }
    s
}

/// The fixed text naming a node's kind in the indented listing.
pub open spec fn spec_kind_label(k: NodeKind) -> Seq<char> {
    match k {
        NodeKind::Base { .. } => "Base"@,
        NodeKind::InnerJoin => "InnerJoin"@,
        NodeKind::OuterJoin => "OuterJoin"@,
        NodeKind::Project => "Project"@,
        NodeKind::Leaf => "Leaf"@,
        NodeKind::Unimplemented => "UnimplementedNode"@,
    }
}

/// Three spaces per indentation level.
pub open spec fn spec_spaces(k: int) -> Seq<char>
    decreases k,
{
    if k <= 0 {
        Seq::empty()
    } else {
        spec_spaces(k - 1) + "   "@
    }
}

/// The indented listing of node `i` and, below it, of each of its
/// ancestors, one level deeper.
pub open spec fn spec_indented(g: Seq<NodeView>, i: int, indent: int) -> Seq<char>
    decreases i, g[i].ancestors.len() + 1,
    when graph_wf(g) && 0 <= i < g.len()
{
    spec_spaces(indent) + "-- "@ + g[i].name + ":"@ + spec_kind_label(g[i].kind) + "\n"@
        + spec_indented_chain(g, i, 0, indent + 1)
}

/// The listings of `g[i]`'s ancestors from position `pos` on.
pub open spec fn spec_indented_chain(g: Seq<NodeView>, i: int, pos: int, indent: int) -> Seq<char>
    decreases i, g[i].ancestors.len() - pos,
    when graph_wf(g) && 0 <= i < g.len() && 0 <= pos <= g[i].ancestors.len()
    via spec_indented_chain_decreases
{
    if pos >= g[i].ancestors.len() {
        Seq::empty()
    } else {
        spec_indented(g, g[i].ancestors[pos], indent) + spec_indented_chain(g, i, pos + 1, indent)
    }
}

#[via_fn]
proof fn spec_indented_chain_decreases(g: Seq<NodeView>, i: int, pos: int, indent: int) {
    assert(node_wf(g, i));
}

/// The label of this node's kind, as it appears in the indented listing.
fn kind_label_str(node: &TestNode) -> (r: &'static str)
    ensures
        r@ == spec_kind_label(node@.kind),
{
    match &node.data {
        crate::graph::TestNodeData::Base { .. } => "Base",
        crate::graph::TestNodeData::InnerJoin => "InnerJoin",
        crate::graph::TestNodeData::OuterJoin => "OuterJoin",
        crate::graph::TestNodeData::Project => "Project",
        crate::graph::TestNodeData::Leaf => "Leaf",
        crate::graph::TestNodeData::UnimplementedNode => "UnimplementedNode",
    }
}

/// List a node and, indented one level deeper below it, the subtrees of its
/// ancestors.
pub fn indented_print(graph: &Vec<TestNode>, node: usize, indent: usize) -> (r: String)
    requires
        graph_wf(gview(graph@)),
        node < graph@.len(),
        indent + node <= usize::MAX,
    ensures
        r@ == spec_indented(gview(graph@), node as int, indent as int),
    decreases node,
{
    let ghost g = gview(graph@);
    proof {
        assert(g[node as int] == graph@[node as int]@);
        assert(node_wf(g, node as int));
    }
    let mut s = String::new();
    let mut k: usize = 0;
    while k < indent
        invariant
            0 <= k <= indent,
            s@ == spec_spaces(k as int),
        decreases indent - k,
    {
        s.append("   ");
        k += 1;
    }
    s.append("-- ");
    s.append(graph[node].name.as_str());
    s.append(":");
    s.append(kind_label_str(&graph[node]));
    s.append("\n");
    let n_anc = graph[node].ancestors.len();
    let mut j: usize = 0;
    proof {
        assert(s@ =~= spec_spaces(indent as int) + "-- "@ + g[node as int].name + ":"@
            + spec_kind_label(g[node as int].kind) + "\n"@);
    }
    while j < n_anc
        invariant
            graph_wf(g),
            g == gview(graph@),
            node < graph@.len(),
            g[node as int] == graph@[node as int]@,
            node_wf(g, node as int),
            indent + node <= usize::MAX,
            n_anc == g[node as int].ancestors.len(),
            0 <= j <= n_anc,
            s@ + spec_indented_chain(g, node as int, j as int, indent as int + 1)
                == spec_indented(g, node as int, indent as int),
        decreases n_anc - j,
    {
        let a = graph[node].ancestors[j];
        proof {
            assert(g[node as int].ancestors[j as int] == a as int);
            assert(0 <= a < node);
        }
        let ghost pre = s@;
        let sub = indented_print(graph, a, indent + 1);
        let ghost subv = sub@;
        s.append(sub.as_str());
        proof {
            assert(spec_indented_chain(g, node as int, j as int, indent as int + 1) == subv
                + spec_indented_chain(g, node as int, j as int + 1, indent as int + 1));
            assert((pre + subv) + spec_indented_chain(g, node as int, j as int + 1,
            indent as int + 1) =~= pre + (subv + spec_indented_chain(g, node as int, j as int + 1,
            indent as int + 1)));
        }
        j += 1;
    }
    proof {
        assert(spec_indented_chain(g, node as int, n_anc as int, indent as int + 1)
            =~= Seq::<char>::empty());
        assert(s@ + Seq::<char>::empty() =~= s@);
    }
    s
}

} // verus!
