//! What the sweep's result means: the laws the library states of itself,
//! proved over the model.

use vstd::prelude::*;
use crate::lemmas::{
    lemma_best_into_attained, lemma_best_into_le, lemma_fold_last_attained, lemma_fold_last_le,
    lemma_fold_last_none, lemma_opt_min_absorb, lemma_settled_bounded,
};
use crate::model::{
    NodeView, after_solve, best_into, edge_cand, fold_last, full_path, init_bounded, node_into,
    node_weight, path_cost, path_end, path_to, row_weight, rows_weight, settled, solve_result,
    source_cost, unsolved, wf_rows,
};

verus! {

/// Any path down to node (r, j) witnesses that the sweep reaches the node,
/// at a cost no greater than the path's own.
pub proof fn lemma_reachable_le(g: Seq<Seq<NodeView>>, p: Seq<(int, int)>, r: int, j: int)
    requires
        wf_rows(g),
        unsolved(g),
        path_to(g, p, r, j),
    ensures
        source_cost(g, r, j) is Some,
        source_cost(g, r, j)->0 <= path_cost(g, p),
        path_cost(g, p) >= 0,
    decreases r,
{
    if r > 0 {
        let i0 = p[r - 1].0;
        let e0 = p[r - 1].1;
        let q = p.drop_last();
        assert forall|k: int| 0 <= k < r - 1 implies 0 <= (#[trigger] q[k]).0 < g[k].len() && 0
            <= q[k].1 < g[k][q[k].0].edges.len() by {
            assert(q[k] == p[k]);
        }
        assert forall|k: int|
            0 <= k < r - 2 implies g[k][(#[trigger] q[k]).0].edges[q[k].1].destination == q[k
            + 1].0 by {
            assert(q[k] == p[k]);
            assert(q[k + 1] == p[k + 1]);
        }
        if r - 1 > 0 {
            assert(q[r - 2] == p[r - 2]);
        }
        assert(path_to(g, q, r - 1, i0));
        lemma_reachable_le(g, q, r - 1, i0);
        let c1 = source_cost(g, r - 1, i0)->0;
        let w = g[r - 1][i0].edges[e0].weight;
        assert(edge_cand(g, r, j, i0, e0) == Some(c1 + w));
        lemma_best_into_le(g, r, j, i0, e0, g[r - 1].len() as int);
        assert(g[r][j].min_path is None);
        assert(path_cost(g, p) == path_cost(g, q) + w);
    }
}

/// A cost the sweep settles on for node (r, j) is attained by an actual
/// path down to that node.
pub proof fn lemma_attained_path(g: Seq<Seq<NodeView>>, r: int, j: int)
    requires
        wf_rows(g),
        unsolved(g),
        0 <= r < g.len(),
        0 <= j < g[r].len(),
        source_cost(g, r, j) is Some,
    ensures
        exists|p: Seq<(int, int)>|
            path_to(g, p, r, j) && path_cost(g, p) == source_cost(g, r, j)->0,
    decreases r,
{
    if r == 0 {
        let p = Seq::<(int, int)>::empty();
        assert(path_to(g, p, 0, j));
        assert(path_cost(g, p) == 0);
    } else {
        let cnt = g[r - 1].len() as int;
        assert(g[r][j].min_path is None);
        assert(settled(g, r, j) == best_into(g, r, j, cnt));
        lemma_best_into_attained(g, r, j, cnt);
        let (i0, e0) = choose|i: int, e: int|
            0 <= i < cnt && 0 <= e < g[r - 1][i].edges.len() && edge_cand(g, r, j, i, e)
                == best_into(g, r, j, cnt);
        assert(source_cost(g, r - 1, i0) is Some);
        lemma_attained_path(g, r - 1, i0);
        let q = choose|q: Seq<(int, int)>|
            path_to(g, q, r - 1, i0) && path_cost(g, q) == source_cost(g, r - 1, i0)->0;
        let p = q.push((i0, e0));
        assert(p.drop_last() =~= q);
        assert(p[r - 1] == (i0, e0));
        assert forall|k: int| 0 <= k < r - 1 implies (#[trigger] p[k]) == q[k] by {}
        assert(path_to(g, p, r, j));
        assert(path_cost(g, p) == path_cost(g, q) + g[r - 1][i0].edges[e0].weight);
    }
}

/// The result is absent or a non-negative cost, never a negative one.
pub proof fn law_result_nonnegative(g: Seq<Seq<NodeView>>)
    requires
        wf_rows(g),
    ensures
        solve_result(g) matches Some(c) ==> c >= 0,
{
    if solve_result(g) is Some {
        let cnt = g[g.len() - 1].len() as int;
        lemma_fold_last_attained(g, cnt);
        let j = choose|j: int|
            0 <= j < cnt && #[trigger] settled(g, g.len() - 1, j) == fold_last(g, cnt);
        lemma_settled_bounded(g, g.len() - 1, j);
    }
}

/// A single-row graph admits no edges, hence no path: the result is absent,
/// whatever the number of nodes.
pub proof fn law_single_row_absent(g: Seq<Seq<NodeView>>)
    requires
        wf_rows(g),
        unsolved(g),
        g.len() == 1,
    ensures
        solve_result(g) is None,
{
    assert forall|j: int| 0 <= j < g[0].len() implies #[trigger] settled(g, g.len() - 1, j) is None by {
        assert(g[0][j].min_path is None);
    }
    lemma_fold_last_none(g, g[0].len() as int);
}

/// When a full path of some total weight exists, a result is returned and
/// does not exceed that weight.
pub proof fn law_path_bounds_result(g: Seq<Seq<NodeView>>, p: Seq<(int, int)>)
    requires
        wf_rows(g),
        unsolved(g),
        full_path(g, p),
    ensures
        solve_result(g) is Some,
        solve_result(g)->0 <= path_cost(g, p),
{
    let last = g.len() - 1;
    let endj = path_end(g, p);
    lemma_reachable_le(g, p, last, endj);
    lemma_fold_last_le(g, endj, g[last].len() as int);
}

/// The result is the true minimum over all row-0-to-terminal-row paths:
/// when a cost is returned, some full path attains it and no full path
/// undercuts it; when none is returned, no full path exists at all.
pub proof fn law_result_is_minimum(g: Seq<Seq<NodeView>>)
    requires
        wf_rows(g),
        unsolved(g),
    ensures
        solve_result(g) matches Some(c) ==> exists|p: Seq<(int, int)>|
            full_path(g, p) && path_cost(g, p) == c,
        solve_result(g) matches Some(c) ==> forall|p: Seq<(int, int)>|
            full_path(g, p) ==> path_cost(g, p) >= c,
        solve_result(g) is None ==> forall|p: Seq<(int, int)>| !full_path(g, p),
{
    let last = g.len() - 1;
    let cnt = g[last].len() as int;
    if solve_result(g) is Some {
        let c = solve_result(g)->0;
        lemma_fold_last_attained(g, cnt);
        let j = choose|j: int| 0 <= j < cnt && #[trigger] settled(g, last, j) == fold_last(g, cnt);
        if g.len() == 1 {
            assert(g[0][j].min_path is None);
            assert(false);
        }
        lemma_attained_path(g, last, j);
        let p = choose|p: Seq<(int, int)>|
            path_to(g, p, last, j) && path_cost(g, p) == source_cost(g, last, j)->0;
        assert(path_end(g, p) == j);
        assert(full_path(g, p) && path_cost(g, p) == c);
        assert forall|p2: Seq<(int, int)>| full_path(g, p2) implies path_cost(g, p2) >= c by {
            lemma_reachable_le(g, p2, last, path_end(g, p2));
            lemma_fold_last_le(g, path_end(g, p2), cnt);
        }
    } else {
        assert forall|p: Seq<(int, int)>| !full_path(g, p) by {
            if full_path(g, p) {
                lemma_reachable_le(g, p, last, path_end(g, p));
                lemma_fold_last_le(g, path_end(g, p), cnt);
            }
        }
    }
}

/// A single candidate is unchanged when the sweep is run again on its own
/// output: edges are the same, and sources carry the same costs.
proof fn lemma_fp_node_into(g: Seq<Seq<NodeView>>, r: int, j: int, i: int, e_cnt: int)
    requires
        1 <= r < g.len(),
        0 <= i < g[r - 1].len(),
        0 <= e_cnt <= g[r - 1][i].edges.len(),
    ensures
        node_into(after_solve(g), r, j, i, e_cnt) == node_into(g, r, j, i, e_cnt),
    decreases r, 0int, e_cnt,
{
    let g2 = after_solve(g);
    assert(g2[r - 1][i].edges == g[r - 1][i].edges);
    if e_cnt > 0 {
        lemma_fp_node_into(g, r, j, i, e_cnt - 1);
        if r - 1 > 0 {
            lemma_fp_settled(g, r - 1, i);
        }
        assert(edge_cand(g2, r, j, i, e_cnt - 1) == edge_cand(g, r, j, i, e_cnt - 1));
    }
}

/// The best candidate into a node is unchanged when the sweep is run again
/// on its own output.
proof fn lemma_fp_best_into(g: Seq<Seq<NodeView>>, r: int, j: int, i_cnt: int)
    requires
        1 <= r < g.len(),
        0 <= i_cnt <= g[r - 1].len(),
    ensures
        best_into(after_solve(g), r, j, i_cnt) == best_into(g, r, j, i_cnt),
    decreases r, 1int, i_cnt,
{
    let g2 = after_solve(g);
    if i_cnt > 0 {
        lemma_fp_best_into(g, r, j, i_cnt - 1);
        assert(g2[r - 1][i_cnt - 1].edges == g[r - 1][i_cnt - 1].edges);
        lemma_fp_node_into(g, r, j, i_cnt - 1, g[r - 1][i_cnt - 1].edges.len() as int);
    }
}

/// An already settled cost settles to itself: one pass is a fixed point of
/// the relaxation.
pub proof fn lemma_fp_settled(g: Seq<Seq<NodeView>>, r: int, j: int)
    requires
        0 <= r < g.len(),
        0 <= j < g[r].len(),
    ensures
        settled(after_solve(g), r, j) == settled(g, r, j),
    decreases r, 2int, 0int,
{
    let g2 = after_solve(g);
    assert(g2[r][j].min_path == settled(g, r, j));
    if r > 0 {
        let cnt = g[r - 1].len() as int;
        assert(g2[r - 1].len() == g[r - 1].len());
        lemma_fp_best_into(g, r, j, cnt);
        lemma_opt_min_absorb(g[r][j].min_path, best_into(g, r, j, cnt));
    }
}

/// The terminal fold is unchanged when the sweep is run again on its own
/// output.
proof fn lemma_fp_fold(g: Seq<Seq<NodeView>>, j_cnt: int)
    requires
        g.len() >= 1,
        0 <= j_cnt <= g[g.len() - 1].len(),
    ensures
        fold_last(after_solve(g), j_cnt) == fold_last(g, j_cnt),
    decreases j_cnt,
{
    if j_cnt > 0 {
        lemma_fp_fold(g, j_cnt - 1);
        lemma_fp_settled(g, g.len() - 1, j_cnt - 1);
    }
}

/// Running the sweep a second time on the graph it has already settled, with
/// no `min_path` reset in between, changes neither the settled costs nor the
/// result: the relaxation is a fixed point after one pass.
pub proof fn law_solve_idempotent(g: Seq<Seq<NodeView>>)
    requires
        g.len() >= 1,
    ensures
        forall|r: int, j: int|
            0 <= r < g.len() && 0 <= j < g[r].len() ==> #[trigger] settled(after_solve(g), r, j)
                == settled(g, r, j),
        solve_result(after_solve(g)) == solve_result(g),
{
    assert forall|r: int, j: int|
        0 <= r < g.len() && 0 <= j < g[r].len() implies #[trigger] settled(after_solve(g), r, j)
        == settled(g, r, j) by {
        lemma_fp_settled(g, r, j);
    }
    assert(after_solve(g)[g.len() - 1].len() == g[g.len() - 1].len());
    lemma_fp_fold(g, g[g.len() - 1].len() as int);
}

/// A settled graph is fit to be handed to the sweep again: it is well
/// formed, and its costs still lie under the weight bounds.
pub proof fn lemma_after_solve_valid(g: Seq<Seq<NodeView>>)
    requires
        wf_rows(g),
        init_bounded(g),
    ensures
        wf_rows(after_solve(g)),
        init_bounded(after_solve(g)),
        forall|r_cnt: int|
            0 <= r_cnt <= g.len() ==> #[trigger] rows_weight(after_solve(g), r_cnt) == rows_weight(
                g,
                r_cnt,
            ),
{
    let g2 = after_solve(g);
    assert forall|r_cnt: int|
        0 <= r_cnt <= g.len() implies #[trigger] rows_weight(g2, r_cnt) == rows_weight(
        g,
        r_cnt,
    ) by {
        lemma_fp_rows_weight(g, r_cnt);
    }
    assert forall|r: int, i: int|
        0 <= r < g2.len() && 0 <= i < g2[r].len() implies ((#[trigger] g2[r][i]).min_path
        matches Some(v) ==> 0 <= v <= rows_weight(g2, r)) by {
        lemma_settled_bounded(g, r, i);
        lemma_fp_rows_weight(g, r);
    }
}

/// The weight sums read only the edges, which a pass never alters.
proof fn lemma_fp_node_weight(g: Seq<Seq<NodeView>>, r: int, i: int, e_cnt: int)
    requires
        0 <= r < g.len(),
        0 <= i < g[r].len(),
    ensures
        node_weight(after_solve(g), r, i, e_cnt) == node_weight(g, r, i, e_cnt),
    decreases e_cnt,
{
    if e_cnt > 0 {
        lemma_fp_node_weight(g, r, i, e_cnt - 1);
        assert(after_solve(g)[r][i].edges == g[r][i].edges);
    }
}

/// The weight sum of a row is unchanged by a pass.
proof fn lemma_fp_row_weight(g: Seq<Seq<NodeView>>, r: int, i_cnt: int)
    requires
        0 <= r < g.len(),
        0 <= i_cnt <= g[r].len(),
    ensures
        row_weight(after_solve(g), r, i_cnt) == row_weight(g, r, i_cnt),
    decreases i_cnt,
{
    if i_cnt > 0 {
        lemma_fp_row_weight(g, r, i_cnt - 1);
        assert(after_solve(g)[r][i_cnt - 1].edges == g[r][i_cnt - 1].edges);
        lemma_fp_node_weight(g, r, i_cnt - 1, g[r][i_cnt - 1].edges.len() as int);
    }
}

/// The cumulative weight of the rows is unchanged by a pass.
proof fn lemma_fp_rows_weight(g: Seq<Seq<NodeView>>, r_cnt: int)
    requires
        0 <= r_cnt <= g.len(),
    ensures
        rows_weight(after_solve(g), r_cnt) == rows_weight(g, r_cnt),
    decreases r_cnt,
{
    if r_cnt > 0 {
        lemma_fp_rows_weight(g, r_cnt - 1);
        assert(after_solve(g)[r_cnt - 1].len() == g[r_cnt - 1].len());
        lemma_fp_row_weight(g, r_cnt - 1, g[r_cnt - 1].len() as int);
    }
}

/// A node no path reaches, from row 0 directly or transitively, never
/// settles to a cost: the sweep skips it, and it contributes nothing to the
/// result even when it has edges of its own.
pub proof fn law_disconnected_ignored(g: Seq<Seq<NodeView>>, r: int, j: int)
    requires
        wf_rows(g),
        unsolved(g),
        0 <= r < g.len(),
        0 <= j < g[r].len(),
        forall|p: Seq<(int, int)>| !path_to(g, p, r, j),
    ensures
        settled(g, r, j) is None,
{
    if settled(g, r, j) is Some {
        if r == 0 {
            assert(g[0][j].min_path is None);
        } else {
            lemma_attained_path(g, r, j);
        }
        assert(false);
    }
}

} // verus!
