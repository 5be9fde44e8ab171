//! The single forward relaxation sweep over the layered graph.

use vstd::prelude::*;
use crate::graph::Node;
use crate::lemmas::{
    lemma_node_into_none, lemma_opt_min_assoc, lemma_rows_weight_mono, lemma_settled_bounded,
    lemma_weight_le_row,
};
use crate::model::{
    NodeView, best_into, cost_view, edge_cand, fold_last, init_bounded, node_into, opt_min,
    relaxed_upto, row_weight, rows_weight, same_shape, settled, solve_result, source_cost,
    wf_rows,
};

verus! {

/// Let every edge of node (r, i) offer its candidate to its destination in
/// row r + 1, lowering the destination's `min_path` where the candidate
/// undercuts it. A node that is not reachable (not in row 0, `min_path`
/// still absent) offers nothing.
#[verifier::loop_isolation(false)]
fn relax_node(input: &mut Vec<Vec<Node>>, r: usize, i: usize, Ghost(g0): Ghost<Seq<Seq<NodeView>>>)
    requires
        wf_rows(g0),
        init_bounded(g0),
        rows_weight(g0, g0.len() as int) <= usize::MAX as int,
        r < usize::MAX,
        r + 1 < g0.len(),
        i < g0[r as int].len(),
        same_shape(g0, old(input).deep_view()),
        old(input).deep_view()[r as int][i as int].min_path == settled(g0, r as int, i as int),
        forall|j: int|
            0 <= j < g0[r + 1].len() ==> (#[trigger] old(input).deep_view()[r + 1][j]).min_path
                == opt_min(g0[r + 1][j].min_path, best_into(g0, r + 1, j, i as int)),
    ensures
        same_shape(g0, final(input).deep_view()),
        forall|rr: int, jj: int|
            0 <= rr < g0.len() && rr != r + 1 && 0 <= jj < g0[rr].len() ==> (#[trigger] final(input).deep_view()[rr][jj]).min_path == old(input).deep_view()[rr][jj].min_path,
        forall|j: int|
            0 <= j < g0[r + 1].len() ==> (#[trigger] final(input).deep_view()[r + 1][j]).min_path
                == opt_min(g0[r + 1][j].min_path, best_into(g0, r + 1, j, i + 1)),
{
    let ghost gin = input.deep_view();
    proof {
        assert(input.deep_view()[r as int] == input@[r as int].deep_view());
        assert(input.deep_view()[r as int][i as int] == input@[r as int]@[i as int].deep_view());
    }
    let reachable = r == 0 || input[r][i].min_path.is_some();
    if !reachable {
        proof {
            assert(source_cost(g0, r as int, i as int) is None);
            assert forall|j: int| 0 <= j < g0[r + 1].len() implies (#[trigger] input.deep_view()[r
                + 1][j]).min_path == opt_min(
                g0[r + 1][j].min_path,
                best_into(g0, r + 1, j, i + 1),
            ) by {
                lemma_node_into_none(g0, r + 1, j, i as int, g0[r as int][i as int].edges.len() as int);
            }
        }
        return ;
    }
    let e_cnt = input[r][i].edges.len();
    proof {
        assert(e_cnt == g0[r as int][i as int].edges.len());
    }
    let mut e: usize = 0;
    while e < e_cnt
        invariant
            e <= e_cnt,
            same_shape(g0, input.deep_view()),
            forall|rr: int, jj: int|
                0 <= rr < g0.len() && rr != r + 1 && 0 <= jj < g0[rr].len() ==> (#[trigger] input
                    .deep_view()[rr][jj]).min_path == gin[rr][jj].min_path,
            forall|j: int|
                0 <= j < g0[r + 1].len() ==> (#[trigger] input.deep_view()[r + 1][j]).min_path
                    == relaxed_upto(g0, r + 1, j, i as int, e as int),
        decreases e_cnt - e,
    {
        proof {
            assert(input.deep_view()[r as int] == input@[r as int].deep_view());
            assert(input.deep_view()[r as int][i as int] == input@[r as int]@[i
                as int].deep_view());
            assert(input.deep_view()[r + 1] == input@[r + 1].deep_view());
        }
        let w = input[r][i].edges[e].weight;
        let d = input[r][i].edges[e].destination;
        proof {
            assert(input@[r as int]@[i as int].deep_view().edges[e as int] == g0[r as int][i
                as int].edges[e as int]);
        }
        let cand: usize = if r == 0 {
            w
        } else {
            let mp = input[r][i].min_path.unwrap();
            proof {
                lemma_settled_bounded(g0, r as int, i as int);
                lemma_weight_le_row(g0, r as int, i as int, e as int);
                assert(rows_weight(g0, r + 1) == rows_weight(g0, r as int) + row_weight(
                    g0,
                    r as int,
                    g0[r as int].len() as int,
                ));
                lemma_rows_weight_mono(g0, r + 1, g0.len() as int);
            }
            mp + w
        };
        proof {
            assert(edge_cand(g0, r + 1, d as int, i as int, e as int) == Some(cand as int));
        }
        let ghost before = input.deep_view();
        let dest_mp = input[r + 1][d].min_path;
        let take = match dest_mp {
            None => true,
            Some(cur) => cur > cand,
        };
        if take {
            input[r + 1][d].min_path = Some(cand);
        }
        proof {
            let gv = input.deep_view();
            assert(gv[r + 1] == input@[r + 1].deep_view());
            assert(gv.len() == before.len());
            assert forall|rr: int| 0 <= rr < g0.len() implies (#[trigger] gv[rr]).len()
                == before[rr].len() by {
                assert(gv[rr] == input@[rr].deep_view());
            }
            assert forall|rr: int, jj: int|
                0 <= rr < g0.len() && 0 <= jj < g0[rr].len() implies (#[trigger] gv[rr][jj]).edges
                == before[rr][jj].edges by {
                assert(gv[rr][jj] == input@[rr]@[jj].deep_view());
            }
            assert forall|j: int| 0 <= j < g0[r + 1].len() implies (#[trigger] gv[r
                + 1][j]).min_path == relaxed_upto(g0, r + 1, j, i as int, e + 1) by {
                lemma_opt_min_assoc(
                    opt_min(g0[r + 1][j].min_path, best_into(g0, r + 1, j, i as int)),
                    node_into(g0, r + 1, j, i as int, e as int),
                    edge_cand(g0, r + 1, j, i as int, e as int),
                );
                assert(gv[r + 1][j] == input@[r + 1]@[j].deep_view());
                if j == d {
                    assert(gv[r + 1][j].min_path == opt_min(
                        before[r + 1][j].min_path,
                        Some(cand as int),
                    ));
                } else {
                    assert(gv[r + 1][j].min_path == before[r + 1][j].min_path);
                    assert(edge_cand(g0, r + 1, j, i as int, e as int) is None);
                }
            }
            assert forall|rr: int, jj: int|
                0 <= rr < g0.len() && rr != r + 1 && 0 <= jj < g0[rr].len() implies (#[trigger] gv[rr][jj]).min_path
                == gin[rr][jj].min_path by {
                assert(gv[rr][jj] == before[rr][jj]);
            }
        }
        e += 1;
    }
    proof {
        assert forall|j: int| 0 <= j < g0[r + 1].len() implies (#[trigger] input.deep_view()[r
            + 1][j]).min_path == opt_min(
            g0[r + 1][j].min_path,
            best_into(g0, r + 1, j, i + 1),
        ) by {
            lemma_opt_min_assoc(
                g0[r + 1][j].min_path,
                best_into(g0, r + 1, j, i as int),
                node_into(g0, r + 1, j, i as int, g0[r as int][i as int].edges.len() as int),
            );
        }
    }
}

/// One full pass over row r: every node of the row offers its candidates to
/// row r + 1, which thereby reaches its settled state.
#[verifier::loop_isolation(false)]
fn relax_row(input: &mut Vec<Vec<Node>>, r: usize, Ghost(g0): Ghost<Seq<Seq<NodeView>>>)
    requires
        wf_rows(g0),
        init_bounded(g0),
        rows_weight(g0, g0.len() as int) <= usize::MAX as int,
        r < usize::MAX,
        r + 1 < g0.len(),
        same_shape(g0, old(input).deep_view()),
        forall|ii: int|
            0 <= ii < g0[r as int].len() ==> (#[trigger] old(input).deep_view()[r
                as int][ii]).min_path == settled(g0, r as int, ii),
        forall|j: int|
            0 <= j < g0[r + 1].len() ==> (#[trigger] old(input).deep_view()[r + 1][j]).min_path
                == g0[r + 1][j].min_path,
    ensures
        same_shape(g0, final(input).deep_view()),
        forall|rr: int, jj: int|
            0 <= rr < g0.len() && rr != r + 1 && 0 <= jj < g0[rr].len() ==> (#[trigger] final(input).deep_view()[rr][jj]).min_path == old(input).deep_view()[rr][jj].min_path,
        forall|j: int|
            0 <= j < g0[r + 1].len() ==> (#[trigger] final(input).deep_view()[r + 1][j]).min_path
                == settled(g0, r + 1, j),
{
    let ghost gin = input.deep_view();
    let row_len = input[r].len();
    proof {
        assert(input.deep_view()[r as int] == input@[r as int].deep_view());
        assert(row_len == g0[r as int].len());
    }
    let mut i: usize = 0;
    while i < row_len
        invariant
            i <= row_len,
            same_shape(g0, input.deep_view()),
            forall|rr: int, jj: int|
                0 <= rr < g0.len() && rr != r + 1 && 0 <= jj < g0[rr].len() ==> (#[trigger] input
                    .deep_view()[rr][jj]).min_path == gin[rr][jj].min_path,
            forall|j: int|
                0 <= j < g0[r + 1].len() ==> (#[trigger] input.deep_view()[r + 1][j]).min_path
                    == opt_min(g0[r + 1][j].min_path, best_into(g0, r + 1, j, i as int)),
        decreases row_len - i,
    {
        relax_node(input, r, i, Ghost(g0));
        i += 1;
    }
}

/// Fold the settled costs of the terminal row into the overall result.
#[verifier::loop_isolation(false)]
fn fold_terminal(input: &Vec<Vec<Node>>, Ghost(g0): Ghost<Seq<Seq<NodeView>>>) -> (result: Option<
    usize,
>)
    requires
        g0.len() >= 1,
        same_shape(g0, input.deep_view()),
        forall|ii: int|
            0 <= ii < g0[g0.len() - 1].len() ==> (#[trigger] input.deep_view()[g0.len()
                - 1][ii]).min_path == settled(g0, g0.len() - 1, ii),
    ensures
        cost_view(result) == solve_result(g0),
{
    let last = input.len() - 1;
    let row_len = input[last].len();
    proof {
        assert(input.deep_view()[last as int] == input@[last as int].deep_view());
        assert(last as int == g0.len() - 1);
        assert(row_len == g0[g0.len() - 1].len());
    }
    let mut final_min: Option<usize> = None;
    let mut i: usize = 0;
    while i < row_len
        invariant
            i <= row_len,
            cost_view(final_min) == fold_last(g0, i as int),
        decreases row_len - i,
    {
        proof {
            assert(input.deep_view()[last as int][i as int] == input@[last as int]@[i
                as int].deep_view());
        }
        if let Some(mp) = input[last][i].min_path {
            let take = match final_min {
                None => true,
                Some(cur) => cur > mp,
            };
            if take {
                final_min = Some(mp);
            }
        }
        i += 1;
    }
    final_min
}

/// Minimum total edge weight of any path from a node of row 0 to a node of
/// the last row, or `None` when no such path exists (in particular for a
/// single-row graph, which admits no edges at all).
///
/// The sweep walks the rows in increasing order. A node of row 0 starts
/// paths at cost zero; any other node whose `min_path` is still absent is
/// unreachable and is skipped. Every edge of a reachable node relaxes its
/// destination in the following row; the terminal row is folded into the
/// result instead. Because every edge advances by exactly one row, each
/// node's `min_path` is final by the time its own row is processed, so a
/// single pass suffices.
///
/// `min_path` fields are updated in place: on return, every node holds its
/// settled cost, as the postcondition states. A graph whose nodes all start
/// with `min_path == None` satisfies `init_bounded` trivially; a graph the
/// sweep has already settled satisfies it again, so the sweep may be run
/// anew on its own output.
#[verifier::loop_isolation(false)]
pub fn min_path_cost(input: &mut Vec<Vec<Node>>) -> (result: Option<usize>)
    requires
        wf_rows(old(input).deep_view()),
        init_bounded(old(input).deep_view()),
        rows_weight(old(input).deep_view(), old(input).deep_view().len() as int) <= usize::MAX
            as int,
    ensures
        ({
            let g0 = old(input).deep_view();
            let gf = final(input).deep_view();
            &&& same_shape(g0, gf)
            &&& forall|r: int, j: int|
                0 <= r < g0.len() && 0 <= j < g0[r].len() ==> (#[trigger] gf[r][j]).min_path
                    == settled(g0, r, j)
            &&& cost_view(result) == solve_result(g0)
        }),
{
    let ghost g0 = input.deep_view();
    let n = input.len();
    let last = n - 1;
    let mut r: usize = 0;
    while r < last
        invariant
            r <= last,
            same_shape(g0, input.deep_view()),
            forall|rr: int, j: int|
                0 <= rr <= r && rr < g0.len() && 0 <= j < g0[rr].len() ==> (#[trigger] input
                    .deep_view()[rr][j]).min_path == settled(g0, rr, j),
            forall|rr: int, j: int|
                r < rr < g0.len() && 0 <= j < g0[rr].len() ==> (#[trigger] input
                    .deep_view()[rr][j]).min_path == g0[rr][j].min_path,
        decreases last - r,
    {
        relax_row(input, r, Ghost(g0));
        r += 1;
    }
    fold_terminal(input, Ghost(g0))
}

} // verus!
