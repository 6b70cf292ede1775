use join_tests::Optimizations;
use join_tests::compile::{
    CompileError, CreateViewAst, FieldAst, JoinRightAst, SelectAst, SqlAst, ViewDefAst,
    compile_queries, dedup_names, make_select, make_view, sort_names, str_le,
};
use join_tests::graph::{CreateTableAst, TableEntry, TestNode, TestNodeData, lookup_table};

fn table(name: &str, cols: &[&str]) -> SqlAst {
    SqlAst::CreateTable(CreateTableAst {
        name: name.to_string(),
        columns: cols.iter().map(|c| c.to_string()).collect(),
    })
}

fn select_star(from: &[&str]) -> SelectAst {
    SelectAst {
        tables: from.iter().map(|s| s.to_string()).collect(),
        join: vec![],
        fields: vec![FieldAst::All],
    }
}

fn view(name: &str, from: &[&str]) -> SqlAst {
    SqlAst::CreateView(CreateViewAst {
        name: name.to_string(),
        definition: ViewDefAst::Simple(select_star(from)),
    })
}

fn baseline() -> Optimizations {
    Optimizations { overlap: true, permutations: false, sorted_names: false, nonprefix: false, megajoin: false }
}

fn names(list: &[&str]) -> Vec<String> {
    list.iter().map(|s| s.to_string()).collect()
}

#[test]
fn create_view_over_two_tables_builds_whole_chain() {
    // CREATE TABLE a(id); CREATE TABLE b(id); CREATE VIEW v AS SELECT * FROM a, b.
    let stmts = vec![table("a", &["id"]), table("b", &["id"]), view("v", &["a", "b"])];
    let mut tables: Vec<TableEntry> = Vec::new();
    let mut graph: Vec<TestNode> = Vec::new();
    let r = compile_queries(&stmts, &mut tables, &mut graph, baseline());
    assert_eq!(r, Ok((3, 0)));
    // Base(a), Base(b), InnerJoin(a, b), Project, Leaf, in creation order.
    assert_eq!(graph.len(), 5);
    assert!(matches!(graph[0].data, TestNodeData::Base { .. }));
    assert!(matches!(graph[1].data, TestNodeData::Base { .. }));
    assert!(matches!(graph[2].data, TestNodeData::InnerJoin));
    assert!(matches!(graph[3].data, TestNodeData::Project));
    assert!(matches!(graph[4].data, TestNodeData::Leaf));
    assert_eq!(graph[2].ancestors, vec![0, 1]);
    assert_eq!(graph[3].ancestors, vec![2]);
    assert_eq!(graph[4].ancestors, vec![3]);
    // SELECT * projects the join's columns: both id columns, duplicates kept.
    assert_eq!(graph[3].columns.len(), 2);
    // The view name resolves to the leaf node.
    assert_eq!(lookup_table(&tables, &"v".to_string()), Some(4));
    assert_eq!(graph[4].name, "v");
}

#[test]
fn unknown_table_is_fatal() {
    let stmts = vec![
        table("a", &["id"]),
        SqlAst::Select(select_star(&["a", "missing"])),
        table("b", &["id"]),
    ];
    let mut tables: Vec<TableEntry> = Vec::new();
    let mut graph: Vec<TestNode> = Vec::new();
    let r = compile_queries(&stmts, &mut tables, &mut graph, baseline());
    assert_eq!(r, Err(CompileError::UnresolvedTable));
    // The run aborted before the third statement; only the first table is there.
    assert_eq!(graph.len(), 1);
}

#[test]
fn megajoin_reuses_accumulated_join() {
    let opts = Optimizations { overlap: true, permutations: false, sorted_names: false, nonprefix: false, megajoin: true };
    let stmts = vec![
        table("a", &["id"]),
        table("b", &["id"]),
        table("c", &["id"]),
        SqlAst::Select(select_star(&["a", "b"])),
        SqlAst::Select(select_star(&["a", "b", "c"])),
    ];
    let mut tables: Vec<TableEntry> = Vec::new();
    let mut graph: Vec<TestNode> = Vec::new();
    let r = compile_queries(&stmts, &mut tables, &mut graph, opts);
    assert_eq!(r, Ok((5, 0)));
    // 3 bases, then outer(a, b) + project, then outer(outer(a, b), c) + project:
    // the a-b join is reused, only the join against c is appended.
    assert_eq!(graph.len(), 7);
    assert!(matches!(graph[3].data, TestNodeData::OuterJoin));
    assert_eq!(graph[3].ancestors, vec![0, 1]);
    assert!(matches!(graph[5].data, TestNodeData::OuterJoin));
    assert_eq!(graph[5].ancestors, vec![3, 2]);
}

#[test]
fn select_fields_expand() {
    let stmts = vec![table("a", &["x", "y"]), table("b", &["z"])];
    let mut tables: Vec<TableEntry> = Vec::new();
    let mut graph: Vec<TestNode> = Vec::new();
    compile_queries(&stmts, &mut tables, &mut graph, baseline()).unwrap();
    let s = SelectAst {
        tables: names(&["a", "b"]),
        join: vec![],
        fields: vec![
            FieldAst::AllInTable("a".to_string()),
            FieldAst::Value,
            FieldAst::Col("z".to_string()),
        ],
    };
    let id = make_select(&s, &tables, &mut graph, baseline()).unwrap();
    // a.* gives x and y; the value contributes nothing; then the column z.
    let cols: Vec<String> = graph[id].columns.iter().map(|c| c.name.clone()).collect();
    assert_eq!(cols, vec!["x".to_string(), "y".to_string(), "z".to_string()]);
    assert!(matches!(graph[id].data, TestNodeData::Project));
    // The projection inherits the join's row estimate (both defaults: 10).
    assert_eq!(graph[id].maxrows, 10);
}

#[test]
fn select_join_right_sides_are_gathered() {
    let stmts = vec![table("a", &["x"]), table("b", &["y"])];
    let mut tables: Vec<TableEntry> = Vec::new();
    let mut graph: Vec<TestNode> = Vec::new();
    compile_queries(&stmts, &mut tables, &mut graph, baseline()).unwrap();
    let s = SelectAst {
        tables: names(&["a"]),
        join: vec![JoinRightAst::Table("b".to_string())],
        fields: vec![FieldAst::All],
    };
    let id = make_select(&s, &tables, &mut graph, baseline()).unwrap();
    assert!(matches!(graph[graph[id].ancestors[0]].data, TestNodeData::InnerJoin));
}

#[test]
fn unsupported_join_right_side_is_fatal() {
    let stmts = vec![table("a", &["x"])];
    let mut tables: Vec<TableEntry> = Vec::new();
    let mut graph: Vec<TestNode> = Vec::new();
    compile_queries(&stmts, &mut tables, &mut graph, baseline()).unwrap();
    let s = SelectAst {
        tables: names(&["a"]),
        join: vec![JoinRightAst::Unsupported],
        fields: vec![FieldAst::All],
    };
    let len_before = graph.len();
    let r = make_select(&s, &tables, &mut graph, baseline());
    assert_eq!(r, Err(CompileError::UnsupportedConstruct));
    assert_eq!(graph.len(), len_before);
}

#[test]
fn empty_from_list_is_fatal() {
    let tables: Vec<TableEntry> = Vec::new();
    let mut graph: Vec<TestNode> = Vec::new();
    let s = SelectAst { tables: vec![], join: vec![], fields: vec![FieldAst::All] };
    let r = make_select(&s, &tables, &mut graph, baseline());
    assert_eq!(r, Err(CompileError::EmptyJoinInput));
}

#[test]
fn unresolved_projection_table_is_fatal_after_planning() {
    let stmts = vec![table("a", &["x"])];
    let mut tables: Vec<TableEntry> = Vec::new();
    let mut graph: Vec<TestNode> = Vec::new();
    compile_queries(&stmts, &mut tables, &mut graph, baseline()).unwrap();
    let s = SelectAst {
        tables: names(&["a"]),
        join: vec![],
        fields: vec![FieldAst::AllInTable("missing".to_string())],
    };
    let r = make_select(&s, &tables, &mut graph, baseline());
    assert_eq!(r, Err(CompileError::UnresolvedTable));
}

#[test]
fn compound_view_is_fatal() {
    let tables: Vec<TableEntry> = Vec::new();
    let mut graph: Vec<TestNode> = Vec::new();
    let v = CreateViewAst { name: "v".to_string(), definition: ViewDefAst::Compound };
    let r = make_view(&v, &tables, &mut graph, baseline());
    assert_eq!(r, Err(CompileError::UnsupportedConstruct));
}

#[test]
fn view_replaces_existing_binding() {
    let stmts = vec![table("a", &["id"]), view("a", &["a"])];
    let mut tables: Vec<TableEntry> = Vec::new();
    let mut graph: Vec<TestNode> = Vec::new();
    compile_queries(&stmts, &mut tables, &mut graph, baseline()).unwrap();
    // The later CREATE VIEW silently shadows the table binding.
    let bound = lookup_table(&tables, &"a".to_string()).unwrap();
    assert!(matches!(graph[bound].data, TestNodeData::Leaf));
}

#[test]
fn no_op_statements_and_parse_failures_are_counted() {
    let stmts = vec![
        SqlAst::Insert,
        SqlAst::ParseError,
        SqlAst::Delete,
        SqlAst::DropTable,
        SqlAst::Update,
        SqlAst::SetStmt,
        SqlAst::ParseError,
    ];
    let mut tables: Vec<TableEntry> = Vec::new();
    let mut graph: Vec<TestNode> = Vec::new();
    let r = compile_queries(&stmts, &mut tables, &mut graph, baseline());
    assert_eq!(r, Ok((5, 2)));
    assert!(graph.is_empty());
}

#[test]
fn unsupported_statement_kind_is_fatal() {
    let stmts = vec![SqlAst::Unsupported];
    let mut tables: Vec<TableEntry> = Vec::new();
    let mut graph: Vec<TestNode> = Vec::new();
    let r = compile_queries(&stmts, &mut tables, &mut graph, baseline());
    assert_eq!(r, Err(CompileError::UnsupportedConstruct));
}

#[test]
fn sorted_names_normalize_from_lists() {
    // With sorting on, two spellings of the same FROM-list share their join.
    let opts = Optimizations { overlap: true, permutations: false, sorted_names: true, nonprefix: false, megajoin: false };
    let stmts = vec![table("a", &["id"]), table("b", &["id"]), table("c", &["id"])];
    let mut tables: Vec<TableEntry> = Vec::new();
    let mut graph: Vec<TestNode> = Vec::new();
    compile_queries(&stmts, &mut tables, &mut graph, opts).unwrap();
    let id1 = make_select(&select_star(&["a", "b", "c"]), &tables, &mut graph, opts).unwrap();
    let len1 = graph.len();
    let id2 = make_select(&select_star(&["c", "b", "a"]), &tables, &mut graph, opts).unwrap();
    // Only the second projection node is new; the join chain is shared.
    assert_eq!(graph.len(), len1 + 1);
    assert_eq!(graph[id1].ancestors, graph[id2].ancestors);
}

#[test]
fn view_can_be_joined_like_a_table() {
    let stmts = vec![table("a", &["id"]), table("b", &["id"]), view("v", &["a"])];
    let mut tables: Vec<TableEntry> = Vec::new();
    let mut graph: Vec<TestNode> = Vec::new();
    compile_queries(&stmts, &mut tables, &mut graph, baseline()).unwrap();
    let leaf = lookup_table(&tables, &"v".to_string()).unwrap();
    let id = make_select(&select_star(&["v", "b"]), &tables, &mut graph, baseline()).unwrap();
    let join = graph[id].ancestors[0];
    assert!(matches!(graph[join].data, TestNodeData::InnerJoin));
    assert_eq!(graph[join].ancestors, vec![leaf, 1]);
}

#[test]
fn duplicate_from_names_collapse() {
    let stmts = vec![table("a", &["id"]), table("b", &["id"])];
    let mut tables: Vec<TableEntry> = Vec::new();
    let mut graph: Vec<TestNode> = Vec::new();
    compile_queries(&stmts, &mut tables, &mut graph, baseline()).unwrap();
    // a, a, b dedups to a, b: one join, not two.
    let id = make_select(&select_star(&["a", "a", "b"]), &tables, &mut graph, baseline()).unwrap();
    let join = graph[id].ancestors[0];
    assert_eq!(graph[join].ancestors, vec![0, 1]);
    assert_eq!(graph.len(), 4);
    // A non-adjacent repeat collapses too, even with sorting off: a, b, a
    // plans the same single join and never joins a in again.
    let id2 = make_select(&select_star(&["a", "b", "a"]), &tables, &mut graph, baseline()).unwrap();
    assert_eq!(graph[id2].ancestors, vec![join]);
    assert_eq!(graph.len(), 5);
}

#[test]
fn prepare_queries_filters_and_rewrites() {
    let lines = vec![
        "# comment".to_string(),
        "CREATE TABLE a(id);".to_string(),
        "".to_string(),
        "-- note".to_string(),
        "/* block".to_string(),
        "VIEW v: SELECT * FROM a;".to_string(),
        "QUERY q2: SELECT * FROM a;".to_string(),
        "SELECT * FROM a".to_string(),
    ];
    let out = join_tests::prepare_queries(&lines);
    assert_eq!(
        out,
        vec![
            "CREATE TABLE a(id);".to_string(),
            "CREATE VIEW v AS SELECT * FROM a;".to_string(),
            "CREATE VIEW q2 AS SELECT * FROM a;".to_string(),
            "SELECT * FROM a\n".to_string(),
        ]
    );
}

#[test]
fn prefix_and_colon_search() {
    assert!(join_tests::has_prefix("VIEW v: x", "VIEW"));
    assert!(!join_tests::has_prefix("VIE", "VIEW"));
    assert!(join_tests::has_prefix("anything", ""));
    assert_eq!(join_tests::find_colon("ab:cd:e"), Some(2));
    assert_eq!(join_tests::find_colon("abcd"), None);
}

#[test]
fn sort_and_dedup_normalization() {
    assert_eq!(sort_names(&names(&["b", "a", "c"])), names(&["a", "b", "c"]));
    assert_eq!(sort_names(&names(&[])), names(&[]));
    assert_eq!(sort_names(&names(&["ab", "a", "b"])), names(&["a", "ab", "b"]));
    // Deduplication is full, first occurrences kept: a repeat survives
    // nowhere, adjacent or not.
    assert_eq!(dedup_names(&names(&["a", "a", "b", "a"])), names(&["a", "b"]));
    assert_eq!(dedup_names(&names(&["b", "a", "b", "c", "a"])), names(&["b", "a", "c"]));
    assert_eq!(dedup_names(&names(&[])), names(&[]));
    assert!(str_le(&"a".to_string(), &"ab".to_string()));
    assert!(str_le(&"".to_string(), &"a".to_string()));
    assert!(!str_le(&"b".to_string(), &"ab".to_string()));
    assert!(str_le(&"abc".to_string(), &"abc".to_string()));
}
