//! Mathematical model of the layered graph and of the relaxation sweep.
//!
//! The graph is pictured as a sequence of rows, each row a sequence of
//! [`NodeView`]s. `settled` gives the value every `min_path` field holds once
//! the sweep is over, `solve_result` the value the solver returns, and
//! `path_to` / `path_cost` the paths those values are meant to minimise over.

use vstd::prelude::*;

verus! {

/// Image of one edge: a non-negative weight and the index of the destination
/// node within the following row.
pub ghost struct EdgeView {
    pub weight: int,
    pub destination: int,
}

/// Image of one node: its outgoing edges, and the lowest accumulated weight
/// known so far to reach it from row 0 (`None` while unreached).
pub ghost struct NodeView {
    pub edges: Seq<EdgeView>,
    pub min_path: Option<int>,
}

/// Rows are well formed: there is at least one row, every edge of a
/// non-terminal row lands inside the following row, every weight is
/// non-negative, and every recorded cost is non-negative.
pub open spec fn wf_rows(g: Seq<Seq<NodeView>>) -> bool {
    &&& g.len() >= 1
    &&& forall|r: int, i: int, e: int|
        0 <= r < g.len() - 1 && 0 <= i < g[r].len() && 0 <= e < g[r][i].edges.len()
            ==> 0 <= (#[trigger] g[r][i].edges[e]).destination < g[r + 1].len()
    &&& forall|r: int, i: int, e: int|
        0 <= r < g.len() && 0 <= i < g[r].len() && 0 <= e < g[r][i].edges.len()
            ==> (#[trigger] g[r][i].edges[e]).weight >= 0
    &&& forall|r: int, i: int|
        0 <= r < g.len() && 0 <= i < g[r].len()
            ==> ((#[trigger] g[r][i]).min_path matches Some(v) ==> v >= 0)
}

/// Every node still unreached: the state of a freshly built graph.
pub open spec fn unsolved(g: Seq<Seq<NodeView>>) -> bool {
    forall|r: int, i: int|
        0 <= r < g.len() && 0 <= i < g[r].len() ==> (#[trigger] g[r][i]).min_path is None
}

/// Smaller of two optional costs, `None` standing for "no candidate".
/// On a tie the left argument is kept, as the sweep keeps an equal value.
pub open spec fn opt_min(a: Option<int>, b: Option<int>) -> Option<int> {
    match (a, b) {
        (Option::None, _) => b,
        (_, Option::None) => a,
        (Option::Some(x), Option::Some(y)) => if x <= y {
            a
        } else {
            b
        },
    }
}

/// Cost with which node `i` of row `r` starts paths onward: a row-0 node is a
/// path start at cost zero; any other node passes on the cost it settled at.
pub open spec fn source_cost(g: Seq<Seq<NodeView>>, r: int, i: int) -> Option<int>
    decreases r, 5int, 0int,
{
    if r <= 0 {
        Some(0)
    } else {
        settled(g, r, i)
    }
}

/// Value of `min_path` at node (r, j) once the sweep is over: the least of
/// the value it started with and of every candidate offered by row r-1.
/// Row 0 is never a destination, so its values stay as they started.
pub open spec fn settled(g: Seq<Seq<NodeView>>, r: int, j: int) -> Option<int>
    decreases r, 4int, 0int,
{
    if r <= 0 {
        g[0][j].min_path
    } else {
        opt_min(g[r][j].min_path, best_into(g, r, j, g[r - 1].len() as int))
    }
}

/// Least candidate offered to node (r, j) by the first `i_cnt` nodes of
/// row r-1.
pub open spec fn best_into(g: Seq<Seq<NodeView>>, r: int, j: int, i_cnt: int) -> Option<int>
    decreases r, 3int, i_cnt,
{
    if i_cnt <= 0 {
        None
    } else {
        opt_min(
            best_into(g, r, j, i_cnt - 1),
            node_into(g, r, j, i_cnt - 1, g[r - 1][i_cnt - 1].edges.len() as int),
        )
    }
}

/// Least candidate offered to node (r, j) by the first `e_cnt` edges of node
/// `i` in row r-1.
pub open spec fn node_into(g: Seq<Seq<NodeView>>, r: int, j: int, i: int, e_cnt: int) -> Option<
    int,
>
    decreases r, 2int, e_cnt,
{
    if e_cnt <= 0 {
        None
    } else {
        opt_min(node_into(g, r, j, i, e_cnt - 1), edge_cand(g, r, j, i, e_cnt - 1))
    }
}

/// Candidate that edge `e` of node `i` in row r-1 offers to node (r, j): the
/// source's cost plus the edge weight, provided the edge targets `j` and the
/// source has been reached at all.
pub open spec fn edge_cand(g: Seq<Seq<NodeView>>, r: int, j: int, i: int, e: int) -> Option<int>
    decreases r, 1int, 0int,
{
    if r >= 1 && g[r - 1][i].edges[e].destination == j {
        match source_cost(g, r - 1, i) {
            Some(c) => Some(c + g[r - 1][i].edges[e].weight),
            None => None,
        }
    } else {
        None
    }
}

/// Least settled cost among the first `j_cnt` nodes of the terminal row.
pub open spec fn fold_last(g: Seq<Seq<NodeView>>, j_cnt: int) -> Option<int>
    decreases j_cnt,
{
    if j_cnt <= 0 {
        None
    } else {
        opt_min(fold_last(g, j_cnt - 1), settled(g, g.len() - 1, j_cnt - 1))
    }
}

/// What the sweep returns: the least settled cost in the terminal row.
pub open spec fn solve_result(g: Seq<Seq<NodeView>>) -> Option<int> {
    fold_last(g, g[g.len() - 1].len() as int)
}

/// The graph as the sweep leaves it: the same edges, every `min_path` at its
/// settled value.
pub open spec fn after_solve(g: Seq<Seq<NodeView>>) -> Seq<Seq<NodeView>> {
    Seq::new(
        g.len(),
        |r: int|
            Seq::new(
                g[r].len(),
                |j: int| NodeView { edges: g[r][j].edges, min_path: settled(g, r, j) },
            ),
    )
}

/// Sum of the first `e_cnt` edge weights of node (r, i).
pub open spec fn node_weight(g: Seq<Seq<NodeView>>, r: int, i: int, e_cnt: int) -> int
    decreases e_cnt,
{
    if e_cnt <= 0 {
        0
    } else {
        node_weight(g, r, i, e_cnt - 1) + g[r][i].edges[e_cnt - 1].weight
    }
}

/// Sum of all edge weights of the first `i_cnt` nodes of row r.
pub open spec fn row_weight(g: Seq<Seq<NodeView>>, r: int, i_cnt: int) -> int
    decreases i_cnt,
{
    if i_cnt <= 0 {
        0
    } else {
        row_weight(g, r, i_cnt - 1) + node_weight(
            g,
            r,
            i_cnt - 1,
            g[r][i_cnt - 1].edges.len() as int,
        )
    }
}

/// Sum of all edge weights in the first `r_cnt` rows.
pub open spec fn rows_weight(g: Seq<Seq<NodeView>>, r_cnt: int) -> int
    decreases r_cnt,
{
    if r_cnt <= 0 {
        0
    } else {
        rows_weight(g, r_cnt - 1) + row_weight(g, r_cnt - 1, g[r_cnt - 1].len() as int)
    }
}

/// Every recorded cost lies under the total weight of the rows before its
/// own; a freshly built graph (all `None`) satisfies this trivially, and the
/// sweep re-establishes it. It is what keeps the sweep's additions within
/// machine bounds.
pub open spec fn init_bounded(g: Seq<Seq<NodeView>>) -> bool {
    forall|r: int, i: int|
        0 <= r < g.len() && 0 <= i < g[r].len()
            ==> ((#[trigger] g[r][i]).min_path matches Some(v) ==> v <= rows_weight(g, r))
}

/// Same rows, same nodes, same edges: only the `min_path` fields may differ.
pub open spec fn same_shape(a: Seq<Seq<NodeView>>, b: Seq<Seq<NodeView>>) -> bool {
    &&& a.len() == b.len()
    &&& forall|r: int| 0 <= r < a.len() ==> a[r].len() == (#[trigger] b[r]).len()
    &&& forall|r: int, i: int|
        0 <= r < a.len() && 0 <= i < a[r].len() ==> a[r][i].edges == (#[trigger] b[r][i]).edges
}

/// `min_path` of node (r, j) in the middle of the pass over row r-1: the
/// first `i` nodes of that row have offered all their candidates, and node
/// `i` its first `e`.
pub open spec fn relaxed_upto(g: Seq<Seq<NodeView>>, r: int, j: int, i: int, e: int) -> Option<
    int,
> {
    opt_min(opt_min(g[r][j].min_path, best_into(g, r, j, i)), node_into(g, r, j, i, e))
}

/// An executable cost, carried into the model.
pub open spec fn cost_view(o: Option<usize>) -> Option<int> {
    match o {
        Some(v) => Some(v as int),
        None => None,
    }
}

/// A path from row 0 down to node (r, j), given as one (node index, edge
/// index) pick per row walked through; pick `k` stands in row `k`.
pub open spec fn path_to(g: Seq<Seq<NodeView>>, p: Seq<(int, int)>, r: int, j: int) -> bool {
    &&& p.len() == r
    &&& 0 <= r < g.len()
    &&& 0 <= j < g[r].len()
    &&& forall|k: int|
        0 <= k < r ==> 0 <= (#[trigger] p[k]).0 < g[k].len() && 0 <= p[k].1
            < g[k][p[k].0].edges.len()
    &&& forall|k: int|
        0 <= k < r - 1 ==> g[k][(#[trigger] p[k]).0].edges[p[k].1].destination == p[k + 1].0
    &&& r > 0 ==> g[r - 1][p[r - 1].0].edges[p[r - 1].1].destination == j
}

/// Total weight of the edges a path picks.
pub open spec fn path_cost(g: Seq<Seq<NodeView>>, p: Seq<(int, int)>) -> int
    decreases p.len(),
{
    if p.len() == 0 {
        0
    } else {
        let k = p.len() - 1;
        path_cost(g, p.drop_last()) + g[k][p[k].0].edges[p[k].1].weight
    }
}

/// Node of the terminal row a full path ends at: the destination of its last
/// pick.
pub open spec fn path_end(g: Seq<Seq<NodeView>>, p: Seq<(int, int)>) -> int {
    g[p.len() - 1][p[p.len() - 1].0].edges[p[p.len() - 1].1].destination
}

/// A path from some row-0 node all the way to the terminal row. A single-row
/// graph admits no such path: a path needs at least one edge.
pub open spec fn full_path(g: Seq<Seq<NodeView>>, p: Seq<(int, int)>) -> bool {
    g.len() >= 2 && path_to(g, p, g.len() - 1, path_end(g, p))
}

} // verus!
