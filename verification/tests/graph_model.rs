use join_tests::Optimizations;
use join_tests::compile::{FieldAst, SelectAst, SqlAst, compile_queries};
use join_tests::graph::{
    Column, CreateTableAst, TableEntry, TestNode, TestNodeData, estimate_rows, get_empty_node,
    lookup_table, make_table, register_table,
};
use join_tests::graphviz::{graphviz, indented_print, usize_to_string};

fn table(name: &str, cols: &[&str]) -> CreateTableAst {
    CreateTableAst {
        name: name.to_string(),
        columns: cols.iter().map(|c| c.to_string()).collect(),
    }
}

#[test]
fn node_new_sets_fields() {
    let n = TestNode::new(
        "t",
        3,
        TestNodeData::Leaf,
        vec![Column { name: "x".to_string() }],
        vec![1],
        vec![],
        42,
    );
    assert_eq!(n.name, "t");
    assert_eq!(n.index, 3);
    assert!(matches!(n.data, TestNodeData::Leaf));
    assert_eq!(n.columns.len(), 1);
    assert_eq!(n.columns[0].name, "x");
    assert_eq!(n.ancestors, vec![1]);
    assert!(n.children.is_empty());
    assert_eq!(n.maxrows, 42);
}

#[test]
fn add_child_appends() {
    let mut n = TestNode::new("t", 0, TestNodeData::Project, vec![], vec![], vec![], 0);
    n.add_child(5);
    n.add_child(7);
    assert_eq!(n.children, vec![5, 7]);
}

#[test]
fn empty_node_is_placeholder() {
    let n = get_empty_node();
    assert_eq!(n.name, "unimplemented");
    assert_eq!(n.index, 0);
    assert!(matches!(n.data, TestNodeData::UnimplementedNode));
    assert!(n.ancestors.is_empty());
    assert!(n.children.is_empty());
    assert_eq!(n.maxrows, 0);
}

#[test]
fn estimate_rows_known_and_default() {
    assert_eq!(estimate_rows(&"customer".to_string()), 2880000);
    assert_eq!(estimate_rows(&"orders".to_string()), 2592000);
    assert_eq!(estimate_rows(&"order_line".to_string()), 7775551);
    assert_eq!(estimate_rows(&"item".to_string()), 10000);
    assert_eq!(estimate_rows(&"author".to_string()), 625);
    assert_eq!(estimate_rows(&"cc_xacts".to_string()), 2592000);
    assert_eq!(estimate_rows(&"country".to_string()), 92);
    assert_eq!(estimate_rows(&"address".to_string()), 5760000);
    assert_eq!(estimate_rows(&"unknown_table".to_string()), 10);
}

#[test]
fn make_table_appends_base_node() {
    let mut graph: Vec<TestNode> = Vec::new();
    let mut tables: Vec<TableEntry> = Vec::new();
    let id = make_table(&table("customer", &["id", "name"]), &mut tables, &mut graph);
    assert_eq!(id, 0);
    assert_eq!(graph.len(), 1);
    assert_eq!(graph[0].name, "customer");
    assert!(matches!(graph[0].data, TestNodeData::Base { .. }));
    assert!(graph[0].ancestors.is_empty());
    assert_eq!(graph[0].maxrows, 2880000);
    assert_eq!(graph[0].columns.len(), 2);
    assert_eq!(graph[0].columns[0].name, "id");
    assert_eq!(graph[0].columns[1].name, "name");
    assert_eq!(lookup_table(&tables, &"customer".to_string()), Some(0));
}

#[test]
fn registry_last_binding_wins() {
    let mut tables: Vec<TableEntry> = Vec::new();
    register_table(&mut tables, "t".to_string(), 1);
    register_table(&mut tables, "u".to_string(), 2);
    register_table(&mut tables, "t".to_string(), 3);
    assert_eq!(lookup_table(&tables, &"t".to_string()), Some(3));
    assert_eq!(lookup_table(&tables, &"u".to_string()), Some(2));
    assert_eq!(lookup_table(&tables, &"v".to_string()), None);
}

#[test]
fn ids_increase_and_ancestors_precede() {
    let stmts = vec![
        SqlAst::CreateTable(table("a", &["id"])),
        SqlAst::CreateTable(table("b", &["id"])),
        SqlAst::Select(SelectAst {
            tables: vec!["a".to_string(), "b".to_string()],
            join: vec![],
            fields: vec![FieldAst::All],
        }),
    ];
    let mut tables: Vec<TableEntry> = Vec::new();
    let mut graph: Vec<TestNode> = Vec::new();
    compile_queries(&stmts, &mut tables, &mut graph, Optimizations::new()).unwrap();
    for (pos, node) in graph.iter().enumerate() {
        assert_eq!(node.index, pos);
        for a in node.ancestors.iter() {
            assert!(*a < node.index);
        }
        for c in node.children.iter() {
            assert!(*c > node.index);
        }
    }
}

#[test]
fn graph_read_accessors() {
    let mut graph: Vec<TestNode> = Vec::new();
    let mut tables: Vec<TableEntry> = Vec::new();
    make_table(&table("a", &["id"]), &mut tables, &mut graph);
    let leaf = TestNode::new("v", 1, TestNodeData::Leaf, vec![], vec![0], vec![], 10);
    join_tests::graph::append_node(&mut graph, leaf);
    assert_eq!(join_tests::graph::ancestors_of(&graph, 1), &vec![0]);
    assert_eq!(join_tests::graph::children_of(&graph, 0), &vec![1]);
    assert!(join_tests::graph::ancestors_of(&graph, 0).is_empty());
}

#[test]
fn decimal_rendering() {
    assert_eq!(usize_to_string(0), "0");
    assert_eq!(usize_to_string(7), "7");
    assert_eq!(usize_to_string(10), "10");
    assert_eq!(usize_to_string(1234), "1234");
    assert_eq!(usize_to_string(7775551), "7775551");
}

#[test]
fn describe_renders_label() {
    let n = TestNode::new("orders", 1, TestNodeData::Leaf, vec![], vec![0], vec![], 92);
    assert_eq!(n.describe(), "[label=\"orders 92\"]\n");
}

#[test]
fn graphviz_renders_nodes_and_edges() {
    let mut graph: Vec<TestNode> = Vec::new();
    let mut tables: Vec<TableEntry> = Vec::new();
    make_table(&table("country", &["id"]), &mut tables, &mut graph);
    let leaf = TestNode::new("v", 1, TestNodeData::Leaf, vec![], vec![0], vec![], 92);
    join_tests::graph::append_node(&mut graph, leaf);
    let out = graphviz(&graph);
    let mut expected = String::new();
    expected.push_str("digraph {{\n");
    expected.push_str("    ");
    expected.push_str("graph [ fontsize=24 fontcolor=\"#0C6fA9\", outputorder=edgesfirst ]\n");
    expected.push_str("edge [ color=\"#0C6fA9\", style=bold ]\n");
    expected.push_str("node [ color=\"#0C6fA9\", shape=box, style=\"rounded,bold\" ]\n");
    expected.push_str("    n0[label=\"country 92\"]\n");
    expected.push_str("    n1[label=\"v 92\"]\n");
    expected.push_str("    n0 -> n1 [ ]\n");
    expected.push_str("}}");
    assert_eq!(out, expected);
}

#[test]
fn indented_print_lists_ancestor_tree() {
    let mut graph: Vec<TestNode> = Vec::new();
    let mut tables: Vec<TableEntry> = Vec::new();
    make_table(&table("a", &["id"]), &mut tables, &mut graph);
    let leaf = TestNode::new("v", 1, TestNodeData::Leaf, vec![], vec![0], vec![], 10);
    join_tests::graph::append_node(&mut graph, leaf);
    let out = indented_print(&graph, 1, 0);
    assert_eq!(out, "-- v:Leaf\n   -- a:Base\n");
}
