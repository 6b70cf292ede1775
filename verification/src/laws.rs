//! The session-wide laws of the operator graph and of join reuse, each
//! stated over the graph model and proved from the invariants the
//! constructors maintain.

use vstd::prelude::*;

use crate::graph::{
    EntryView, NodeView, g_extends, graph_wf, kind_laws, lemma_lookup_in_range, node_core_eq,
    node_wf, spec_lookup, spec_min, tables_wf,
};
use crate::join::{
    all_resolve, join_matches, lemma_all_joins_props, lemma_inner_join_wf,
    lemma_overlap_from_props, lemma_resolve_multiset, spec_all_joins, spec_best_order,
    spec_count_from, spec_inner_join, spec_inner_join_node, spec_overlap, spec_overlap_count,
    spec_overlap_from,
};

verus! {

/// Acyclicity and id monotonicity: in a well-formed session graph, every
/// node's id equals its append position, so ids strictly increase with
/// append order, and every ancestor's id is strictly smaller than the id of
/// the node that references it.
pub proof fn lemma_acyclicity(g: Seq<NodeView>)
    requires
        graph_wf(g),
    ensures
        forall|i: int| 0 <= i < g.len() ==> (#[trigger] g[i]).index == i,
        forall|i: int, j: int|
            0 <= i < g.len() && 0 <= j < g[i].ancestors.len() ==> #[trigger] g[i].ancestors[j]
                < g[i].index,
{
    assert forall|i: int| 0 <= i < g.len() implies (#[trigger] g[i]).index == i by {
        assert(node_wf(g, i));
    }
    assert forall|i: int, j: int|
        0 <= i < g.len() && 0 <= j < g[i].ancestors.len() implies #[trigger] g[i].ancestors[j]
        < g[i].index by {
        assert(node_wf(g, i));
    }
}

/// Join arity: inner and outer joins have exactly two ancestors,
/// projections and leaves exactly one, base relations none.
pub proof fn lemma_join_arity(g: Seq<NodeView>)
    requires
        graph_wf(g),
    ensures
        forall|i: int|
            0 <= i < g.len() && ((#[trigger] g[i]).kind is InnerJoin || g[i].kind is OuterJoin)
                ==> g[i].ancestors.len() == 2,
        forall|i: int|
            0 <= i < g.len() && ((#[trigger] g[i]).kind is Project || g[i].kind is Leaf)
                ==> g[i].ancestors.len() == 1,
        forall|i: int|
            0 <= i < g.len() && (#[trigger] g[i]).kind is Base ==> g[i].ancestors.len() == 0,
{
    assert forall|i: int| 0 <= i < g.len() implies kind_laws(g, g[i]) by {
        assert(node_wf(g, i));
    }
}

/// Column concatenation: every join node's output columns are exactly its
/// left ancestor's columns followed by its right ancestor's, order kept and
/// duplicates allowed.
pub proof fn lemma_column_concatenation(g: Seq<NodeView>)
    requires
        graph_wf(g),
    ensures
        forall|i: int|
            0 <= i < g.len() && ((#[trigger] g[i]).kind is InnerJoin || g[i].kind is OuterJoin)
                ==> g[i].columns == g[g[i].ancestors[0]].columns + g[g[i].ancestors[1]].columns,
{
    assert forall|i: int| 0 <= i < g.len() implies kind_laws(g, g[i]) by {
        assert(node_wf(g, i));
    }
}

/// Cardinality laws: an inner join estimates the smaller of its inputs, an
/// outer join their sum, and a projection or leaf passes its input's
/// estimate through unchanged.
pub proof fn lemma_cardinality(g: Seq<NodeView>)
    requires
        graph_wf(g),
    ensures
        forall|i: int|
            0 <= i < g.len() && (#[trigger] g[i]).kind is InnerJoin ==> g[i].maxrows == spec_min(
                g[g[i].ancestors[0]].maxrows,
                g[g[i].ancestors[1]].maxrows,
            ),
        forall|i: int|
            0 <= i < g.len() && (#[trigger] g[i]).kind is OuterJoin ==> g[i].maxrows
                == g[g[i].ancestors[0]].maxrows + g[g[i].ancestors[1]].maxrows,
        forall|i: int|
            0 <= i < g.len() && ((#[trigger] g[i]).kind is Project || g[i].kind is Leaf)
                ==> g[i].maxrows == g[g[i].ancestors[0]].maxrows,
{
    assert forall|i: int| 0 <= i < g.len() implies kind_laws(g, g[i]) by {
        assert(node_wf(g, i));
    }
}

/// With reuse disabled, the baseline fold never reuses: it appends one
/// fresh inner join per name after the first, and its result is the last
/// node appended.
pub proof fn lemma_suppressed_run_shape(
    g0: Seq<NodeView>,
    names: Seq<Seq<char>>,
    ts: Seq<EntryView>,
)
    requires
        graph_wf(g0),
        tables_wf(ts, g0.len() as int),
        names.len() >= 1,
        all_resolve(ts, names),
    ensures
        spec_all_joins(g0, names, ts, false).0.len() == g0.len() + names.len() - 1,
        names.len() >= 2 ==> spec_all_joins(g0, names, ts, false).1 == spec_all_joins(
            g0,
            names,
            ts,
            false,
        ).0.len() - 1,
    decreases names.len(),
{
    if names.len() > 1 {
        let pre = names.drop_last();
        assert(all_resolve(ts, pre)) by {
            assert(forall|i: int| 0 <= i < pre.len() ==> pre[i] == names[i]);
        }
        lemma_suppressed_run_shape(g0, pre, ts);
        lemma_all_joins_props(g0, pre, ts, false);
        let rec = spec_all_joins(g0, pre, ts, false);
        assert(spec_lookup(ts, names.last()) is Some) by {
            assert(names[names.len() - 1] == names.last());
        }
        let next = spec_lookup(ts, names.last()).unwrap();
        lemma_lookup_in_range(ts, names.last(), g0.len() as int);
        lemma_inner_join_wf(rec.0, rec.1, next);
    }
}

/// Reuse suppression: with overlap disabled, compiling the same FROM-list
/// twice builds two structurally parallel chains with disjoint node ids; in
/// particular the two results are different nodes, and the second run
/// appends as many fresh nodes as the first.
pub proof fn lemma_reuse_suppression(g0: Seq<NodeView>, names: Seq<Seq<char>>, ts: Seq<EntryView>)
    requires
        graph_wf(g0),
        tables_wf(ts, g0.len() as int),
        names.len() >= 2,
        all_resolve(ts, names),
    ensures
        ({
            let first = spec_all_joins(g0, names, ts, false);
            let second = spec_all_joins(first.0, names, ts, false);
            &&& first.0.len() == g0.len() + names.len() - 1
            &&& second.0.len() == first.0.len() + names.len() - 1
            &&& first.1 == first.0.len() - 1
            &&& second.1 == second.0.len() - 1
            &&& second.1 != first.1
        }),
{
    lemma_suppressed_run_shape(g0, names, ts);
    let first = spec_all_joins(g0, names, ts, false);
    lemma_all_joins_props(g0, names, ts, false);
    assert(tables_wf(ts, first.0.len() as int));
    lemma_suppressed_run_shape(first.0, names, ts);
}

/// Whether a node matches a reuse scan is decided by its kind and ancestor
/// list alone, which growing the graph never changes.
proof fn lemma_matches_core(a: NodeView, b: NodeView, n1: int, n2: int)
    requires
        node_core_eq(a, b),
    ensures
        join_matches(a, n1, n2) == join_matches(b, n1, n2),
{
}

/// A reuse scan that hits inside a graph hits at the same place in any
/// graph that grows out of it.
proof fn lemma_overlap_transfer(g: Seq<NodeView>, gb: Seq<NodeView>, n1: int, n2: int, i: int)
    requires
        g_extends(gb, g),
        0 <= i <= g.len(),
        spec_overlap_from(g, n1, n2, i) is Some,
    ensures
        spec_overlap_from(gb, n1, n2, i) == spec_overlap_from(g, n1, n2, i),
    decreases g.len() - i,
{
    if i < g.len() {
        lemma_matches_core(gb[i], g[i], n1, n2);
        if !join_matches(g[i], n1, n2) {
            lemma_overlap_transfer(g, gb, n1, n2, i + 1);
        }
    }
}

/// A reuse scan from position `i` returns the first match at or after `i`.
proof fn lemma_overlap_exact(g: Seq<NodeView>, n1: int, n2: int, i: int, k: int)
    requires
        0 <= i <= k < g.len(),
        join_matches(g[k], n1, n2),
        forall|j: int| i <= j < k ==> !join_matches(#[trigger] g[j], n1, n2),
    ensures
        spec_overlap_from(g, n1, n2, i) == Some(k),
    decreases k - i,
{
    if i < k {
        lemma_overlap_exact(g, n1, n2, i + 1, k);
    }
}

/// A baseline run that reused an existing join at every step (it appended
/// nothing) replays identically, with the same result node, on any graph
/// that has since grown out of that one.
proof fn lemma_replay_stable(
    g: Seq<NodeView>,
    names: Seq<Seq<char>>,
    ts: Seq<EntryView>,
    gb: Seq<NodeView>,
)
    requires
        graph_wf(g),
        tables_wf(ts, g.len() as int),
        names.len() >= 1,
        all_resolve(ts, names),
        spec_all_joins(g, names, ts, true).0 == g,
        g_extends(gb, g),
    ensures
        spec_all_joins(gb, names, ts, true) == (gb, spec_all_joins(g, names, ts, true).1),
    decreases names.len(),
{
    if names.len() > 1 {
        let pre = names.drop_last();
        assert(all_resolve(ts, pre)) by {
            assert(forall|i: int| 0 <= i < pre.len() ==> pre[i] == names[i]);
        }
        lemma_all_joins_props(g, pre, ts, true);
        let rec = spec_all_joins(g, pre, ts, true);
        assert(spec_lookup(ts, names.last()) is Some) by {
            assert(names[names.len() - 1] == names.last());
        }
        let next = spec_lookup(ts, names.last()).unwrap();
        // The whole run left the graph alone, so its prefix run did too, and
        // the final step found an existing join.
        assert(rec.0 == g) by {
            lemma_lookup_in_range(ts, names.last(), g.len() as int);
            match spec_overlap(rec.0, rec.1, next, true) {
                Some(_) => {
                    assert(spec_all_joins(g, names, ts, true).0 == rec.0);
                },
                None => {
                    lemma_inner_join_wf(rec.0, rec.1, next);
                    assert(spec_all_joins(g, names, ts, true).0.len() == rec.0.len() + 1);
                    assert(false);
                },
            }
        }
        lemma_replay_stable(g, pre, ts, gb);
        assert(spec_all_joins(gb, pre, ts, true) == (gb, rec.1));
        match spec_overlap(g, rec.1, next, true) {
            Some(k) => {
                lemma_overlap_transfer(g, gb, rec.1, next, 0);
                assert(spec_overlap(gb, rec.1, next, true) == Some(k));
            },
            None => {
                lemma_lookup_in_range(ts, names.last(), g.len() as int);
                lemma_inner_join_wf(g, rec.1, next);
                assert(spec_all_joins(g, names, ts, true).0.len() == g.len() + 1);
                assert(false);
            },
        }
    }
}

/// Reuse idempotence: with overlap enabled, running the baseline fold a
/// second time over the same FROM-list reuses the very joins the first run
/// produced: it appends no node and returns the same join node id.
pub proof fn lemma_reuse_idempotence(g0: Seq<NodeView>, names: Seq<Seq<char>>, ts: Seq<EntryView>)
    requires
        graph_wf(g0),
        tables_wf(ts, g0.len() as int),
        names.len() >= 1,
        all_resolve(ts, names),
    ensures
        ({
            let first = spec_all_joins(g0, names, ts, true);
            spec_all_joins(first.0, names, ts, true) == (first.0, first.1)
        }),
    decreases names.len(),
{
    let first = spec_all_joins(g0, names, ts, true);
    if names.len() == 1 {
        assert(spec_all_joins(first.0, names, ts, true) == (first.0, spec_lookup(
            ts,
            names[0],
        ).unwrap()));
    } else {
        let pre = names.drop_last();
        assert(all_resolve(ts, pre)) by {
            assert(forall|i: int| 0 <= i < pre.len() ==> pre[i] == names[i]);
        }
        lemma_reuse_idempotence(g0, pre, ts);
        lemma_all_joins_props(g0, pre, ts, true);
        let rec = spec_all_joins(g0, pre, ts, true);
        let ga = rec.0;
        let p = rec.1;
        assert(spec_all_joins(ga, pre, ts, true) == (ga, p));
        assert(spec_lookup(ts, names.last()) is Some) by {
            assert(names[names.len() - 1] == names.last());
        }
        let next = spec_lookup(ts, names.last()).unwrap();
        lemma_lookup_in_range(ts, names.last(), g0.len() as int);
        assert(tables_wf(ts, ga.len() as int));
        match spec_overlap(ga, p, next, true) {
            Some(k) => {
                assert(first == (ga, k));
                assert(spec_all_joins(first.0, names, ts, true) == (ga, k));
            },
            None => {
                let g1 = spec_inner_join(ga, p, next);
                assert(first == (g1, ga.len() as int));
                lemma_inner_join_wf(ga, p, next);
                assert(g_extends(g1, ga));
                lemma_replay_stable(ga, pre, ts, g1);
                assert(spec_all_joins(g1, pre, ts, true) == (g1, p));
                // No node before the fresh join matches, and the fresh join
                // itself does, so the second run reuses it.
                lemma_overlap_from_props(ga, p, next, 0);
                assert forall|j: int| 0 <= j < ga.len() implies !join_matches(
                    #[trigger] g1[j],
                    p,
                    next,
                ) by {
                    lemma_matches_core(g1[j], ga[j], p, next);
                }
                assert(g1[ga.len() as int] == spec_inner_join_node(ga, p, next));
                assert(join_matches(g1[ga.len() as int], p, next)) by {
                    assert(spec_inner_join_node(ga, p, next).ancestors[0] == p);
                    assert(spec_inner_join_node(ga, p, next).ancestors[1] == next);
                    assert(spec_inner_join_node(ga, p, next).ancestors.contains(p));
                    assert(spec_inner_join_node(ga, p, next).ancestors.contains(next));
                }
                lemma_overlap_exact(g1, p, next, 0, ga.len() as int);
                assert(spec_overlap(g1, p, next, true) == Some(ga.len() as int));
                assert(spec_all_joins(g1, names, ts, true) == (g1, ga.len() as int));
            },
        }
    }
}

/// A reuse walk can succeed at most once per remaining position.
proof fn lemma_count_from_bound(
    g: Seq<NodeView>,
    prev: int,
    order: Seq<Seq<char>>,
    ts: Seq<EntryView>,
    enabled: bool,
    i: int,
)
    requires
        0 <= i <= order.len(),
    ensures
        0 <= spec_count_from(g, prev, order, ts, enabled, i) <= order.len() - i,
    decreases order.len() - i,
{
    if i < order.len() {
        match spec_overlap(g, prev, spec_lookup(ts, order[i]).unwrap(), enabled) {
            Some(k) => {
                lemma_count_from_bound(g, k, order, ts, enabled, i + 1);
            },
            None => {},
        }
    }
}

/// In a graph with no inner join, every reuse scan misses.
proof fn lemma_no_inner_join_overlap(g: Seq<NodeView>, n1: int, n2: int, i: int)
    requires
        0 <= i <= g.len(),
        forall|j: int| 0 <= j < g.len() ==> !((#[trigger] g[j]).kind is InnerJoin),
    ensures
        spec_overlap_from(g, n1, n2, i) is None,
    decreases g.len() - i,
{
    if i < g.len() {
        lemma_no_inner_join_overlap(g, n1, n2, i + 1);
    }
}

/// In a graph with no inner join, every ordering's overlap count is zero.
proof fn lemma_count_zero_without_joins(
    g: Seq<NodeView>,
    order: Seq<Seq<char>>,
    ts: Seq<EntryView>,
)
    requires
        order.len() >= 1,
        forall|j: int| 0 <= j < g.len() ==> !((#[trigger] g[j]).kind is InnerJoin),
    ensures
        spec_overlap_count(g, order, ts, true) == 0,
{
    if order.len() > 1 {
        lemma_no_inner_join_overlap(g, spec_lookup(ts, order[0]).unwrap(), spec_lookup(
            ts,
            order[1],
        ).unwrap(), 0);
    }
}

/// When no candidate strictly beats the running best, the running best
/// stays.
proof fn lemma_best_keeps_cur(
    perms: Seq<Seq<Seq<char>>>,
    cur: Seq<Seq<char>>,
    cur_count: int,
    g: Seq<NodeView>,
    ts: Seq<EntryView>,
    enabled: bool,
)
    requires
        forall|k: int|
            0 <= k < perms.len() ==> spec_overlap_count(g, #[trigger] perms[k], ts, enabled)
                <= cur_count,
    ensures
        spec_best_order(perms, cur, cur_count, g, ts, enabled) == cur,
    decreases perms.len(),
{
    if perms.len() > 0 {
        assert(perms[0] == perms.first());
        let rest = perms.drop_first();
        assert(forall|k: int| 0 <= k < rest.len() ==> rest[k] == perms[k + 1]);
        lemma_best_keeps_cur(rest, cur, cur_count, g, ts, enabled);
    }
}

/// A run that appended nothing appended nothing in each of its prefixes.
proof fn lemma_pure_prefix(g: Seq<NodeView>, names: Seq<Seq<char>>, ts: Seq<EntryView>, i: int)
    requires
        graph_wf(g),
        tables_wf(ts, g.len() as int),
        names.len() >= 1,
        all_resolve(ts, names),
        spec_all_joins(g, names, ts, true).0 == g,
        1 <= i <= names.len(),
    ensures
        spec_all_joins(g, names.take(i), ts, true).0 == g,
    decreases names.len() - i,
{
    if i == names.len() {
        assert(names.take(i) =~= names);
    } else {
        lemma_pure_prefix(g, names, ts, i + 1);
        let cur = names.take(i + 1);
        assert(cur.drop_last() =~= names.take(i));
        assert(all_resolve(ts, cur)) by {
            assert(forall|k: int| 0 <= k < cur.len() ==> cur[k] == #[trigger] names[k]);
        }
        assert(all_resolve(ts, names.take(i))) by {
            assert(forall|k: int|
                0 <= k < i ==> names.take(i)[k] == #[trigger] names[k]);
        }
        lemma_all_joins_props(g, names.take(i), ts, true);
        let rec = spec_all_joins(g, names.take(i), ts, true);
        assert(spec_lookup(ts, cur.last()) is Some) by {
            assert(cur[cur.len() - 1] == cur.last());
        }
        let next = spec_lookup(ts, cur.last()).unwrap();
        lemma_lookup_in_range(ts, cur.last(), g.len() as int);
        match spec_overlap(rec.0, rec.1, next, true) {
            Some(_) => {
                assert(spec_all_joins(g, cur, ts, true).0 == rec.0);
            },
            None => {
                lemma_inner_join_wf(rec.0, rec.1, next);
                assert(spec_all_joins(g, cur, ts, true).0.len() == rec.0.len() + 1);
                assert(false);
            },
        }
    }
}

/// Along a run that appended nothing, the reuse walk succeeds at every
/// remaining position.
proof fn lemma_pure_count_from(g: Seq<NodeView>, names: Seq<Seq<char>>, ts: Seq<EntryView>, i: int)
    requires
        graph_wf(g),
        tables_wf(ts, g.len() as int),
        names.len() >= 1,
        all_resolve(ts, names),
        spec_all_joins(g, names, ts, true).0 == g,
        1 <= i <= names.len(),
    ensures
        spec_count_from(g, spec_all_joins(g, names.take(i), ts, true).1, names, ts, true, i)
            == names.len() - i,
    decreases names.len() - i,
{
    if i == names.len() {
    } else {
        lemma_pure_count_from(g, names, ts, i + 1);
        lemma_pure_prefix(g, names, ts, i + 1);
        let cur = names.take(i + 1);
        assert(cur.drop_last() =~= names.take(i));
        assert(all_resolve(ts, cur)) by {
            assert(forall|k: int| 0 <= k < cur.len() ==> cur[k] == #[trigger] names[k]);
        }
        assert(all_resolve(ts, names.take(i))) by {
            assert(forall|k: int|
                0 <= k < i ==> names.take(i)[k] == #[trigger] names[k]);
        }
        lemma_all_joins_props(g, names.take(i), ts, true);
        let rec = spec_all_joins(g, names.take(i), ts, true);
        assert(rec.0 == g) by {
            lemma_pure_prefix(g, names, ts, i);
        }
        assert(spec_lookup(ts, cur.last()) is Some) by {
            assert(cur[cur.len() - 1] == cur.last());
        }
        let next = spec_lookup(ts, cur.last()).unwrap();
        assert(cur.last() == names[i]);
        lemma_lookup_in_range(ts, cur.last(), g.len() as int);
        match spec_overlap(g, rec.1, next, true) {
            Some(k) => {
                assert(spec_all_joins(g, cur, ts, true).1 == k);
                assert(spec_count_from(g, rec.1, names, ts, true, i) == 1 + spec_count_from(
                    g,
                    k,
                    names,
                    ts,
                    true,
                    i + 1,
                ));
            },
            None => {
                lemma_inner_join_wf(g, rec.1, next);
                assert(spec_all_joins(g, cur, ts, true).0.len() == g.len() + 1);
                assert(false);
            },
        }
    }
}

/// Reuse idempotence under the permutation strategy, for a session whose
/// graph holds no inner join yet (the first SELECT over freshly created
/// tables): whatever enumeration of orderings the search walks — all of
/// them permutations of the request, the unchanged request first, as the
/// permutation iterator yields them — both compiles settle on the request
/// order, and the second one reuses the first one's joins: it appends no
/// node and returns the same join node id. The unrestricted case, where the
/// session may already hold inner joins and the two searches may settle on
/// different orderings, is not stated here: it needs a uniqueness theorem
/// for the endpoint of every fully reusing walk, which this module does not
/// develop.
pub proof fn lemma_permutation_idempotence(
    g0: Seq<NodeView>,
    names: Seq<Seq<char>>,
    ts: Seq<EntryView>,
    perms: Seq<Seq<Seq<char>>>,
)
    requires
        graph_wf(g0),
        tables_wf(ts, g0.len() as int),
        names.len() >= 1,
        all_resolve(ts, names),
        forall|j: int| 0 <= j < g0.len() ==> !((#[trigger] g0[j]).kind is InnerJoin),
        perms.len() >= 1,
        perms[0] == names,
        forall|k: int|
            0 <= k < perms.len() ==> (#[trigger] perms[k]).to_multiset() == names.to_multiset(),
    ensures
        ({
            let b1 = spec_best_order(perms, names, 0, g0, ts, true);
            let first = spec_all_joins(g0, b1, ts, true);
            let b2 = spec_best_order(perms, names, 0, first.0, ts, true);
            &&& b1 == names
            &&& b2 == names
            &&& spec_all_joins(first.0, b2, ts, true) == (first.0, first.1)
        }),
{
    broadcast use vstd::seq_lib::to_multiset_len;

    // First compile: nothing to reuse, so every ordering counts zero and
    // the request order is kept.
    assert forall|k: int| 0 <= k < perms.len() implies spec_overlap_count(
        g0,
        #[trigger] perms[k],
        ts,
        true,
    ) <= 0 by {
        vstd::seq_lib::to_multiset_len(perms[k]);
        vstd::seq_lib::to_multiset_len(names);
        assert(perms[k].len() == names.len());
        lemma_count_zero_without_joins(g0, perms[k], ts);
    }
    lemma_best_keeps_cur(perms, names, 0, g0, ts, true);
    let first = spec_all_joins(g0, names, ts, true);
    lemma_reuse_idempotence(g0, names, ts);
    lemma_all_joins_props(g0, names, ts, true);
    assert(tables_wf(ts, first.0.len() as int));
    // Second compile: the request order replays the first run's joins, so
    // its count is maximal; no ordering can strictly beat it.
    let n = names.len() as int;
    if n == 1 {
        assert forall|k: int| 0 <= k < perms.len() implies spec_overlap_count(
            first.0,
            #[trigger] perms[k],
            ts,
            true,
        ) <= 0 by {
            vstd::seq_lib::to_multiset_len(perms[k]);
            vstd::seq_lib::to_multiset_len(names);
            assert(perms[k].len() == 1);
            lemma_resolve_multiset(ts, names, perms[k]);
            lemma_count_from_bound(first.0, spec_lookup(ts, perms[k][0]).unwrap(), perms[k], ts,
            true, 1);
        }
        lemma_best_keeps_cur(perms, names, 0, first.0, ts, true);
    } else {
        lemma_pure_count_from(first.0, names, ts, 1);
        assert(names.take(1)[0] == names[0]);
        assert(spec_all_joins(first.0, names.take(1), ts, true).1 == spec_lookup(
            ts,
            names[0],
        ).unwrap());
        assert(spec_overlap_count(first.0, names, ts, true) == n - 1);
        // The first candidate is the request order itself; it takes the
        // lead and nothing can pass it.
        assert(perms.first() == names);
        let rest = perms.drop_first();
        assert(forall|k: int| 0 <= k < rest.len() ==> rest[k] == perms[k + 1]);
        assert forall|k: int| 0 <= k < rest.len() implies spec_overlap_count(
            first.0,
            #[trigger] rest[k],
            ts,
            true,
        ) <= n - 1 by {
            assert(rest[k].to_multiset() == names.to_multiset());
            vstd::seq_lib::to_multiset_len(rest[k]);
            vstd::seq_lib::to_multiset_len(names);
            assert(rest[k].len() == names.len());
            lemma_resolve_multiset(ts, names, rest[k]);
            lemma_count_from_bound(first.0, spec_lookup(ts, rest[k][0]).unwrap(), rest[k], ts,
            true, 1);
        }
        lemma_best_keeps_cur(rest, names, n - 1, first.0, ts, true);
        assert(spec_best_order(perms, names, 0, first.0, ts, true) == names);
    }
}

} // verus!
