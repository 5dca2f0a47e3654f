use vstd::prelude::*;

use crate::shape::{
    count_sum, dfs_rest, interp, is_node, lemma_count_sum_push, lemma_dfs_rest_push, level_order,
    pre_order, root_link, shape_count, sleft, sright, Shape,
};
use crate::store::{arena_get, arena_view, Leaf, SlotId};

verus! {

/// Depth-first walk over the structural links, driven by an explicit stack:
/// each step pops a slot, yields its value, and pushes the right then the
/// left child, so the left subtree is visited first (pre-order).
pub(crate) fn dfs_walk(
    a: &generational_arena::Arena<Leaf>,
    link: Option<SlotId>,
    Ghost(s): Ghost<Shape>,
) -> (out: Vec<i64>)
    requires
        interp(arena_view(*a), s),
        link == root_link(s),
    ensures
        out@ == pre_order(s),
{
    let mut out: Vec<i64> = Vec::new();
    let mut stack: Vec<SlotId> = Vec::new();
    let ghost mut gstack: Seq<Shape> = Seq::empty();
    if let Some(root_id) = link {
        stack.push(root_id);
        proof {
            lemma_dfs_rest_push(gstack, s);
            gstack = gstack.push(s);
        }
    }
    proof {
        if link.is_none() {
            assert(pre_order(s) =~= Seq::<i64>::empty());
        }
        assert(out@ + dfs_rest(gstack) =~= pre_order(s));
    }
    while stack.len() > 0
        invariant
            gstack.len() == stack.len(),
            forall|j: int| 0 <= j < gstack.len() ==> is_node(#[trigger] gstack[j])
                && root_link(gstack[j]) == Some(stack@[j])
                && interp(arena_view(*a), gstack[j]),
            out@ + dfs_rest(gstack) == pre_order(s),
        decreases 2 * count_sum(gstack) + gstack.len(),
    {
        let ghost g0 = gstack;
        let ghost gs = g0.last();
        let id = stack.pop().unwrap();
        proof {
            gstack = gstack.drop_last();
            assert(root_link(gs) == Some(id));
            assert(interp(arena_view(*a), gs));
            assert(g0.drop_last().push(gs) =~= g0);
            lemma_dfs_rest_push(gstack, gs);
            assert(dfs_rest(g0) == pre_order(gs) + dfs_rest(gstack));
        }
        let nd = arena_get(a, id).unwrap();
        out.push(nd.data);
        let ghost base = gstack;
        if let Some(r_id) = nd.right {
            stack.push(r_id);
            proof {
                lemma_dfs_rest_push(gstack, sright(gs));
                lemma_count_sum_push(gstack, sright(gs));
                gstack = gstack.push(sright(gs));
            }
        }
        proof {
            if nd.right.is_none() {
                assert(pre_order(sright(gs)) =~= Seq::<i64>::empty());
            }
            assert(dfs_rest(gstack) =~= pre_order(sright(gs)) + dfs_rest(base));
        }
        let ghost mid = gstack;
        if let Some(l_id) = nd.left {
            stack.push(l_id);
            proof {
                lemma_dfs_rest_push(gstack, sleft(gs));
                lemma_count_sum_push(gstack, sleft(gs));
                gstack = gstack.push(sleft(gs));
            }
        }
        proof {
            if nd.left.is_none() {
                assert(pre_order(sleft(gs)) =~= Seq::<i64>::empty());
            }
            assert(dfs_rest(gstack) =~= pre_order(sleft(gs)) + dfs_rest(mid));
            assert(pre_order(gs) == seq![nd.data] + pre_order(sleft(gs)) + pre_order(sright(gs)));
            assert(out@ + dfs_rest(gstack) =~= pre_order(s));
            lemma_count_sum_push(g0.drop_last(), gs);
            assert(count_sum(g0) == count_sum(g0.drop_last()) + shape_count(gs));
            assert(shape_count(gs) == 1 + shape_count(sleft(gs)) + shape_count(sright(gs)));
            assert(2 * count_sum(gstack) + gstack.len() < 2 * count_sum(g0) + g0.len());
        }
    }
    proof {
        assert(out@ =~= pre_order(s));
    }
    out
}

/// Breadth-first walk over the structural links, driven by an explicit
/// first-in first-out queue: each step takes the front slot, yields its
/// value, and appends the left then the right child link (level order).
pub(crate) fn bfs_walk(
    a: &generational_arena::Arena<Leaf>,
    link: Option<SlotId>,
    Ghost(s): Ghost<Shape>,
) -> (out: Vec<i64>)
    requires
        interp(arena_view(*a), s),
        link == root_link(s),
    ensures
        out@ == level_order(seq![s]),
{
    let mut out: Vec<i64> = Vec::new();
    let mut queue: Vec<Option<SlotId>> = Vec::new();
    let mut head: usize = 0;
    queue.push(link);
    let ghost mut pending: Seq<Shape> = seq![s];
    while head < queue.len()
        invariant
            head <= queue.len(),
            pending.len() == queue.len() - head,
            forall|j: int| 0 <= j < pending.len() ==> root_link(#[trigger] pending[j])
                == queue@[head + j] && interp(arena_view(*a), pending[j]),
            out@ + level_order(pending) == level_order(seq![s]),
        decreases 2 * count_sum(pending) + pending.len(),
    {
        let ghost p0 = pending;
        let ghost gs = p0[0];
        let lk = queue[head];
        head = head + 1;
        proof {
            pending = pending.drop_first();
            assert(root_link(gs) == lk);
        }
        match lk {
            None => {
                proof {
                    assert(level_order(p0) == level_order(pending));
                    assert(count_sum(p0) == shape_count(gs) + count_sum(pending));
                }
            },
            Some(id) => {
                proof {
                    assert(interp(arena_view(*a), gs));
                    assert(is_node(gs));
                }
                let nd = arena_get(a, id).unwrap();
                out.push(nd.data);
                queue.push(nd.left);
                queue.push(nd.right);
                proof {
                    assert(nd.left == root_link(sleft(gs)));
                    assert(nd.right == root_link(sright(gs)));
                    assert(interp(arena_view(*a), sleft(gs)));
                    assert(interp(arena_view(*a), sright(gs)));
                    lemma_count_sum_push(pending, sleft(gs));
                    lemma_count_sum_push(pending.push(sleft(gs)), sright(gs));
                    let p2 = pending.push(sleft(gs)).push(sright(gs));
                    assert(level_order(p0) == seq![nd.data] + level_order(p2));
                    pending = p2;
                    assert(out@ + level_order(pending) =~= level_order(seq![s]));
                    assert(count_sum(p0) == shape_count(gs) + count_sum(p0.drop_first()));
                    assert(shape_count(gs) == 1 + shape_count(sleft(gs)) + shape_count(sright(gs)));
                }
            },
        }
    }
    proof {
        assert(pending.len() == 0);
        assert(out@ =~= level_order(seq![s]));
    }
    out
}

} // verus!
