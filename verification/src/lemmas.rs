//! Supporting lemmas about the model: how the layered minima relate to the
//! candidates they are built from, and bounds that keep every cost under the
//! total weight of the graph.

use vstd::prelude::*;
use crate::model::{
    NodeView, best_into, edge_cand, fold_last, init_bounded, node_into, node_weight, opt_min,
    row_weight, rows_weight, settled, source_cost, wf_rows,
};

verus! {

/// `opt_min` is associative.
pub proof fn lemma_opt_min_assoc(a: Option<int>, b: Option<int>, c: Option<int>)
    ensures
        opt_min(opt_min(a, b), c) == opt_min(a, opt_min(b, c)),
{
}

/// The running minimum over a node's edges never exceeds any single
/// candidate among them.
pub proof fn lemma_node_into_le(
    g: Seq<Seq<NodeView>>,
    r: int,
    j: int,
    i: int,
    e: int,
    e_cnt: int,
)
    requires
        0 <= e < e_cnt,
        edge_cand(g, r, j, i, e) is Some,
    ensures
        node_into(g, r, j, i, e_cnt) is Some,
        node_into(g, r, j, i, e_cnt)->0 <= edge_cand(g, r, j, i, e)->0,
    decreases e_cnt,
{
    if e < e_cnt - 1 {
        lemma_node_into_le(g, r, j, i, e, e_cnt - 1);
    }
}

/// The running minimum over a whole row never exceeds any single candidate
/// offered by one of its nodes' edges.
pub proof fn lemma_best_into_le(
    g: Seq<Seq<NodeView>>,
    r: int,
    j: int,
    i: int,
    e: int,
    i_cnt: int,
)
    requires
        0 <= i < i_cnt,
        0 <= e < g[r - 1][i].edges.len(),
        edge_cand(g, r, j, i, e) is Some,
    ensures
        best_into(g, r, j, i_cnt) is Some,
        best_into(g, r, j, i_cnt)->0 <= edge_cand(g, r, j, i, e)->0,
    decreases i_cnt,
{
    if i < i_cnt - 1 {
        lemma_best_into_le(g, r, j, i, e, i_cnt - 1);
    } else {
        lemma_node_into_le(g, r, j, i, e, g[r - 1][i].edges.len() as int);
    }
}

/// A minimum over a node's edges, when present, is one of the candidates.
pub proof fn lemma_node_into_attained(g: Seq<Seq<NodeView>>, r: int, j: int, i: int, e_cnt: int)
    requires
        node_into(g, r, j, i, e_cnt) is Some,
    ensures
        exists|e: int|
            0 <= e < e_cnt && edge_cand(g, r, j, i, e) == node_into(g, r, j, i, e_cnt),
    decreases e_cnt,
{
    if e_cnt > 0 {
        if node_into(g, r, j, i, e_cnt) == edge_cand(g, r, j, i, e_cnt - 1) {
        } else {
            lemma_node_into_attained(g, r, j, i, e_cnt - 1);
        }
    }
}

/// A minimum over a whole row, when present, is one of the candidates.
pub proof fn lemma_best_into_attained(g: Seq<Seq<NodeView>>, r: int, j: int, i_cnt: int)
    requires
        best_into(g, r, j, i_cnt) is Some,
    ensures
        exists|i: int, e: int|
            0 <= i < i_cnt && 0 <= e < g[r - 1][i].edges.len() && edge_cand(g, r, j, i, e)
                == best_into(g, r, j, i_cnt),
    decreases i_cnt,
{
    if i_cnt > 0 {
        let full = g[r - 1][i_cnt - 1].edges.len() as int;
        if best_into(g, r, j, i_cnt) == node_into(g, r, j, i_cnt - 1, full) && node_into(
            g,
            r,
            j,
            i_cnt - 1,
            full,
        ) is Some {
            lemma_node_into_attained(g, r, j, i_cnt - 1, full);
            let e = choose|e: int|
                0 <= e < full && #[trigger] edge_cand(g, r, j, i_cnt - 1, e) == node_into(
                    g,
                    r,
                    j,
                    i_cnt - 1,
                    full,
                );
            assert(0 <= i_cnt - 1 < i_cnt && 0 <= e < g[r - 1][i_cnt - 1].edges.len()
                && edge_cand(g, r, j, i_cnt - 1, e) == best_into(g, r, j, i_cnt));
        } else {
            lemma_best_into_attained(g, r, j, i_cnt - 1);
        }
    }
}

/// A node that was never reached offers no candidate through any of its
/// edges.
pub proof fn lemma_node_into_none(g: Seq<Seq<NodeView>>, r: int, j: int, i: int, e_cnt: int)
    requires
        source_cost(g, r - 1, i) is None,
    ensures
        node_into(g, r, j, i, e_cnt) is None,
    decreases e_cnt,
{
    if e_cnt > 0 {
        lemma_node_into_none(g, r, j, i, e_cnt - 1);
        assert(edge_cand(g, r, j, i, e_cnt - 1) is None);
    }
}

/// Taking the minimum with the same candidate twice changes nothing.
pub proof fn lemma_opt_min_absorb(a: Option<int>, b: Option<int>)
    ensures
        opt_min(opt_min(a, b), b) == opt_min(a, b),
{
}

/// The fold over the terminal row never exceeds any single settled cost it
/// covers.
pub proof fn lemma_fold_last_le(g: Seq<Seq<NodeView>>, j: int, j_cnt: int)
    requires
        0 <= j < j_cnt,
        settled(g, g.len() - 1, j) is Some,
    ensures
        fold_last(g, j_cnt) is Some,
        fold_last(g, j_cnt)->0 <= settled(g, g.len() - 1, j)->0,
    decreases j_cnt,
{
    if j < j_cnt - 1 {
        lemma_fold_last_le(g, j, j_cnt - 1);
    }
}

/// The fold over the terminal row, when present, is one of the settled costs
/// it covers.
pub proof fn lemma_fold_last_attained(g: Seq<Seq<NodeView>>, j_cnt: int)
    requires
        fold_last(g, j_cnt) is Some,
    ensures
        exists|j: int| 0 <= j < j_cnt && #[trigger] settled(g, g.len() - 1, j) == fold_last(g, j_cnt),
    decreases j_cnt,
{
    if j_cnt > 0 {
        if fold_last(g, j_cnt) == settled(g, g.len() - 1, j_cnt - 1) {
        } else {
            lemma_fold_last_attained(g, j_cnt - 1);
        }
    }
}

/// When no node of the terminal row has settled to a cost, the fold over the
/// row is empty-handed.
pub proof fn lemma_fold_last_none(g: Seq<Seq<NodeView>>, j_cnt: int)
    requires
        forall|j: int| 0 <= j < j_cnt ==> #[trigger] settled(g, g.len() - 1, j) is None,
    ensures
        fold_last(g, j_cnt) is None,
    decreases j_cnt,
{
    if j_cnt > 0 {
        lemma_fold_last_none(g, j_cnt - 1);
    }
}

/// Partial sums of a node's edge weights are non-negative, and each single
/// weight lies under any partial sum that covers it.
pub proof fn lemma_node_weight_bounds(g: Seq<Seq<NodeView>>, r: int, i: int, e_cnt: int)
    requires
        wf_rows(g),
        0 <= r < g.len(),
        0 <= i < g[r].len(),
        0 <= e_cnt <= g[r][i].edges.len(),
    ensures
        node_weight(g, r, i, e_cnt) >= 0,
        forall|e: int|
            0 <= e < e_cnt ==> (#[trigger] g[r][i].edges[e]).weight <= node_weight(g, r, i, e_cnt),
    decreases e_cnt,
{
    if e_cnt > 0 {
        lemma_node_weight_bounds(g, r, i, e_cnt - 1);
    }
}

/// Partial sums of a row's weights are non-negative, and each node's total
/// weight lies under any partial sum that covers it.
pub proof fn lemma_row_weight_bounds(g: Seq<Seq<NodeView>>, r: int, i_cnt: int)
    requires
        wf_rows(g),
        0 <= r < g.len(),
        0 <= i_cnt <= g[r].len(),
    ensures
        row_weight(g, r, i_cnt) >= 0,
        forall|i: int|
            0 <= i < i_cnt ==> node_weight(g, r, i, g[r][i].edges.len() as int) <= row_weight(
                g,
                r,
                i_cnt,
            ),
    decreases i_cnt,
{
    if i_cnt > 0 {
        lemma_row_weight_bounds(g, r, i_cnt - 1);
        lemma_node_weight_bounds(g, r, i_cnt - 1, g[r][i_cnt - 1].edges.len() as int);
    }
}

/// One edge's weight lies under the total weight of its row.
pub proof fn lemma_weight_le_row(g: Seq<Seq<NodeView>>, r: int, i: int, e: int)
    requires
        wf_rows(g),
        0 <= r < g.len(),
        0 <= i < g[r].len(),
        0 <= e < g[r][i].edges.len(),
    ensures
        0 <= g[r][i].edges[e].weight,
        g[r][i].edges[e].weight <= row_weight(g, r, g[r].len() as int),
{
    lemma_node_weight_bounds(g, r, i, g[r][i].edges.len() as int);
    lemma_row_weight_bounds(g, r, g[r].len() as int);
}

/// The cumulative weight of the rows grows with the number of rows counted.
pub proof fn lemma_rows_weight_mono(g: Seq<Seq<NodeView>>, a: int, b: int)
    requires
        wf_rows(g),
        0 <= a <= b <= g.len(),
    ensures
        rows_weight(g, a) <= rows_weight(g, b),
    decreases b,
{
    if a < b {
        lemma_rows_weight_mono(g, a, b - 1);
        lemma_row_weight_bounds(g, b - 1, g[b - 1].len() as int);
    }
}

/// Every settled cost is non-negative, and, provided the costs the graph
/// started with lay under the cumulative row weights, settled costs do too.
pub proof fn lemma_settled_bounded(g: Seq<Seq<NodeView>>, r: int, j: int)
    requires
        wf_rows(g),
        0 <= r < g.len(),
        0 <= j < g[r].len(),
    ensures
        settled(g, r, j) matches Some(v) ==> v >= 0,
        init_bounded(g) ==> (settled(g, r, j) matches Some(v) ==> v <= rows_weight(g, r)),
    decreases r, 2int, 0int,
{
    if r > 0 {
        lemma_best_into_bounded(g, r, j, g[r - 1].len() as int);
    }
}

/// Every candidate folded into `best_into` obeys the same bounds as the
/// settled costs do.
pub proof fn lemma_best_into_bounded(g: Seq<Seq<NodeView>>, r: int, j: int, i_cnt: int)
    requires
        wf_rows(g),
        1 <= r < g.len(),
        0 <= i_cnt <= g[r - 1].len(),
    ensures
        best_into(g, r, j, i_cnt) matches Some(v) ==> v >= 0,
        init_bounded(g) ==> (best_into(g, r, j, i_cnt) matches Some(v) ==> v <= rows_weight(
            g,
            r,
        )),
    decreases r, 1int, i_cnt,
{
    if i_cnt > 0 {
        lemma_best_into_bounded(g, r, j, i_cnt - 1);
        lemma_node_into_bounded(g, r, j, i_cnt - 1, g[r - 1][i_cnt - 1].edges.len() as int);
    }
}

/// Every candidate a single node offers obeys the same bounds as the settled
/// costs do.
pub proof fn lemma_node_into_bounded(g: Seq<Seq<NodeView>>, r: int, j: int, i: int, e_cnt: int)
    requires
        wf_rows(g),
        1 <= r < g.len(),
        0 <= i < g[r - 1].len(),
        0 <= e_cnt <= g[r - 1][i].edges.len(),
    ensures
        node_into(g, r, j, i, e_cnt) matches Some(v) ==> v >= 0,
        init_bounded(g) ==> (node_into(g, r, j, i, e_cnt) matches Some(v) ==> v <= rows_weight(
            g,
            r,
        )),
    decreases r, 0int, e_cnt,
{
    if e_cnt > 0 {
        lemma_node_into_bounded(g, r, j, i, e_cnt - 1);
        if edge_cand(g, r, j, i, e_cnt - 1) is Some {
            let e = e_cnt - 1;
            lemma_weight_le_row(g, r - 1, i, e);
            if r - 1 > 0 {
                lemma_settled_bounded(g, r - 1, i);
            }
            assert(rows_weight(g, r) == rows_weight(g, r - 1) + row_weight(
                g,
                r - 1,
                g[r - 1].len() as int,
            ));
        }
    }
}

} // verus!
