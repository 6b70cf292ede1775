use join_tests::Optimizations;
use join_tests::graph::{CreateTableAst, TableEntry, TestNode, TestNodeData, make_table};
use join_tests::join::{
    all_acceptable, get_all_ancestors, make_all_joins, make_combined_joins, make_inner_join,
    make_joins_nonprefix_overlap, make_joins_with_permutations, make_outer_join, overlap_existing,
    some_needed,
};

fn table(name: &str) -> CreateTableAst {
    CreateTableAst { name: name.to_string(), columns: vec!["id".to_string()] }
}

fn setup(names: &[&str]) -> (Vec<TestNode>, Vec<TableEntry>) {
    let mut graph: Vec<TestNode> = Vec::new();
    let mut tables: Vec<TableEntry> = Vec::new();
    for n in names {
        make_table(&table(n), &mut tables, &mut graph);
    }
    (graph, tables)
}

fn names(list: &[&str]) -> Vec<String> {
    list.iter().map(|s| s.to_string()).collect()
}

fn baseline() -> Optimizations {
    Optimizations { overlap: true, permutations: false, sorted_names: false, nonprefix: false, megajoin: false }
}

#[test]
fn inner_join_arity_columns_rows() {
    let (mut graph, _tables) = setup(&["customer", "country"]);
    let j = make_inner_join(0, 1, &mut graph);
    assert_eq!(j, 2);
    assert!(matches!(graph[2].data, TestNodeData::InnerJoin));
    assert_eq!(graph[2].ancestors, vec![0, 1]);
    // Columns are the concatenation of both sides, duplicates kept.
    assert_eq!(graph[2].columns.len(), 2);
    assert_eq!(graph[2].columns[0].name, "id");
    assert_eq!(graph[2].columns[1].name, "id");
    // An inner join estimates the smaller input (92 < 2880000).
    assert_eq!(graph[2].maxrows, 92);
    // Back-references on both ancestors.
    assert_eq!(graph[0].children, vec![2]);
    assert_eq!(graph[1].children, vec![2]);
}

#[test]
fn outer_join_sums_rows() {
    let (mut graph, _tables) = setup(&["customer", "country"]);
    let j = make_outer_join(0, 1, &mut graph);
    assert_eq!(graph[j].maxrows, 2880000 + 92);
    assert!(matches!(graph[j].data, TestNodeData::OuterJoin));
    assert_eq!(graph[j].ancestors, vec![0, 1]);
}

#[test]
fn overlap_finds_existing_join_only_when_enabled() {
    let (mut graph, _tables) = setup(&["a", "b"]);
    let j = make_inner_join(0, 1, &mut graph);
    assert_eq!(overlap_existing(0, 1, &graph, baseline()), Some(j));
    // The pair is unordered.
    assert_eq!(overlap_existing(1, 0, &graph, baseline()), Some(j));
    assert_eq!(overlap_existing(0, 2, &graph, baseline()), None);
    let mut off = baseline();
    off.overlap = false;
    assert_eq!(overlap_existing(0, 1, &graph, off), None);
}

#[test]
fn all_joins_folds_left_to_right() {
    let (mut graph, tables) = setup(&["a", "b", "c"]);
    let r = make_all_joins(&names(&["a", "b", "c"]), &tables, &mut graph, baseline());
    // Two joins appended: (a ⋈ b) at 3, ((a ⋈ b) ⋈ c) at 4.
    assert_eq!(graph.len(), 5);
    assert_eq!(r, 4);
    assert_eq!(graph[3].ancestors, vec![0, 1]);
    assert_eq!(graph[4].ancestors, vec![3, 2]);
}

#[test]
fn reuse_idempotence_baseline() {
    let (mut graph, tables) = setup(&["a", "b", "c"]);
    let r1 = make_all_joins(&names(&["a", "b", "c"]), &tables, &mut graph, baseline());
    let len1 = graph.len();
    let r2 = make_all_joins(&names(&["a", "b", "c"]), &tables, &mut graph, baseline());
    // The second compile reuses the whole chain: same id, no new node.
    assert_eq!(r2, r1);
    assert_eq!(graph.len(), len1);
}

#[test]
fn reuse_suppression_without_overlap() {
    let (mut graph, tables) = setup(&["a", "b", "c"]);
    let mut off = baseline();
    off.overlap = false;
    let r1 = make_all_joins(&names(&["a", "b", "c"]), &tables, &mut graph, off);
    let len1 = graph.len();
    let r2 = make_all_joins(&names(&["a", "b", "c"]), &tables, &mut graph, off);
    // A parallel chain of fresh nodes: distinct ids throughout.
    assert_ne!(r2, r1);
    assert_eq!(graph.len(), len1 + 2);
    assert_eq!(r1, len1 - 1);
    assert_eq!(r2, graph.len() - 1);
}

#[test]
fn reuse_idempotence_permutations() {
    let (mut graph, tables) = setup(&["a", "b", "c"]);
    let opts = Optimizations::new();
    let r1 = make_joins_with_permutations(&names(&["a", "b", "c"]), &tables, &mut graph, opts);
    let len1 = graph.len();
    let r2 = make_joins_with_permutations(&names(&["a", "b", "c"]), &tables, &mut graph, opts);
    assert_eq!(r2, r1);
    assert_eq!(graph.len(), len1);
}

#[test]
fn permutations_reuse_existing_order() {
    let (mut graph, tables) = setup(&["a", "b", "c"]);
    // An existing join of b and c.
    let j_bc = make_all_joins(&names(&["b", "c"]), &tables, &mut graph, baseline());
    let len1 = graph.len();
    // The search must find an ordering that starts from the existing join
    // and only add one join against a: had it kept the request order, it
    // would have built two fresh joins.
    let r = make_joins_with_permutations(
        &names(&["a", "b", "c"]),
        &tables,
        &mut graph,
        Optimizations::new(),
    );
    assert_eq!(graph.len(), len1 + 1);
    assert_eq!(r, len1);
    assert!(graph[r].ancestors.contains(&j_bc));
}

#[test]
fn ancestors_walk_skips_base_names() {
    let (mut graph, tables) = setup(&["a", "b", "c"]);
    // A base node contributes no name of its own.
    assert!(get_all_ancestors(&graph, 0).is_empty());
    let j = make_all_joins(&names(&["a", "b"]), &tables, &mut graph, baseline());
    assert_eq!(get_all_ancestors(&graph, j), vec!["a".to_string(), "b".to_string()]);
    let j2 = make_inner_join(j, 2, &mut graph);
    assert_eq!(
        get_all_ancestors(&graph, j2),
        vec!["join".to_string(), "c".to_string(), "a".to_string(), "b".to_string()]
    );
}

#[test]
fn acceptable_and_needed() {
    let joinable = names(&["a", "b", "c"]);
    assert!(all_acceptable(&names(&["a", "c"]), &joinable));
    assert!(!all_acceptable(&names(&["a", "d"]), &joinable));
    assert!(all_acceptable(&names(&[]), &joinable));
    // Two names still needed.
    assert!(some_needed(&names(&["a", "b"]), &joinable, &names(&[])));
    // Only one uncovered name left.
    assert!(!some_needed(&names(&["a", "b"]), &joinable, &names(&["b"])));
    // Names outside the request do not count.
    assert!(!some_needed(&names(&["d", "e"]), &joinable, &names(&[])));
}

#[test]
fn nonprefix_reuses_disjoint_subtrees() {
    let (mut graph, tables) = setup(&["a", "b", "c", "d"]);
    let j_ab = make_all_joins(&names(&["a", "b"]), &tables, &mut graph, baseline());
    let j_cd = make_all_joins(&names(&["c", "d"]), &tables, &mut graph, baseline());
    let len1 = graph.len();
    // Both existing subtrees qualify; one fresh join glues them together.
    let r = make_joins_nonprefix_overlap(
        &names(&["a", "b", "c", "d"]),
        &tables,
        &mut graph,
        baseline(),
    );
    assert_eq!(graph.len(), len1 + 1);
    assert_eq!(graph[r].ancestors, vec![j_ab, j_cd]);
}

#[test]
fn nonprefix_falls_back_to_baseline() {
    let (mut graph, tables) = setup(&["a", "b"]);
    let r = make_joins_nonprefix_overlap(&names(&["a", "b"]), &tables, &mut graph, baseline());
    assert_eq!(graph.len(), 3);
    assert_eq!(graph[r].ancestors, vec![0, 1]);
}

#[test]
fn megajoin_accumulates_outer_joins() {
    let (mut graph, tables) = setup(&["a", "b", "c"]);
    let opts = Optimizations { overlap: true, permutations: false, sorted_names: false, nonprefix: false, megajoin: true };
    let r1 = make_combined_joins(&names(&["a", "b"]), &tables, &mut graph, opts);
    assert!(matches!(graph[r1].data, TestNodeData::OuterJoin));
    assert_eq!(graph[r1].ancestors, vec![0, 1]);
    let len1 = graph.len();
    // The second request reuses the accumulator and only joins c in.
    let r2 = make_combined_joins(&names(&["a", "b", "c"]), &tables, &mut graph, opts);
    assert_eq!(graph.len(), len1 + 1);
    assert_eq!(graph[r2].ancestors, vec![r1, 2]);
}

#[test]
fn megajoin_single_name_returns_base() {
    let (mut graph, tables) = setup(&["a"]);
    let opts = Optimizations { overlap: true, permutations: false, sorted_names: false, nonprefix: false, megajoin: true };
    let r = make_combined_joins(&names(&["a"]), &tables, &mut graph, opts);
    assert_eq!(r, 0);
    assert_eq!(graph.len(), 1);
}
