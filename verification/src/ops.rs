use vstd::prelude::*;

use crate::shape::{
    agree_off, arb, bh, black_root, ids, in_order, interp, is_node, lemma_ids_in_dom,
    left_deficient, lemma_interp_frame, lemma_mid_to_set, lemma_sorted_drop_first,
    lemma_sorted_mid, rbs, right_deficient, root_link, scolor, sid, sleft,
    sorted, sright, sval, Shape,
};
use crate::store::{arena_get, arena_insert, arena_remove, arena_set, arena_view, Color, Leaf, SlotId};

verus! {

/// Recolor the root node of the subtree `s`.
pub(crate) fn set_color(
    a: &mut generational_arena::Arena<Leaf>,
    id: SlotId,
    c: Color,
    Ghost(s): Ghost<Shape>,
) -> (res: Ghost<Shape>)
    requires
        interp(arena_view(*old(a)), s),
        is_node(s),
        sid(s) == id,
    ensures
        res@ == (Shape::Node {
            id,
            color: c,
            val: sval(s),
            left: Box::new(sleft(s)),
            right: Box::new(sright(s)),
        }),
        interp(arena_view(*final(a)), res@),
        ids(res@) == ids(s),
        in_order(res@) == in_order(s),
        arena_view(*final(a)).dom() == arena_view(*old(a)).dom(),
        agree_off(arena_view(*old(a)), arena_view(*final(a)), ids(s)),
{
    let ghost m = arena_view(*a);
    let nd = arena_get(a, id).unwrap();
    arena_set(a, id, Leaf { data: nd.data, left: nd.left, right: nd.right, color: c });
    let ghost t = Shape::Node {
        id,
        color: c,
        val: nd.data,
        left: Box::new(sleft(s)),
        right: Box::new(sright(s)),
    };
    proof {
        let m2 = arena_view(*a);
        assert forall|k: SlotId| #[trigger] ids(sleft(s)).contains(k)
            implies m2.contains_key(k) && m2[k] == m[k] by {
            lemma_ids_in_dom(m, s);
            assert(ids(s).contains(k));
        }
        assert forall|k: SlotId| #[trigger] ids(sright(s)).contains(k)
            implies m2.contains_key(k) && m2[k] == m[k] by {
            lemma_ids_in_dom(m, s);
            assert(ids(s).contains(k));
        }
        lemma_interp_frame(m, m2, sleft(s));
        lemma_interp_frame(m, m2, sright(s));
        assert(interp(m2, t));
        assert(ids(t) =~= ids(s));
        assert(in_order(t) =~= in_order(s));
        assert(m2.dom() =~= m.dom());
    }
    Ghost(t)
}

/// Left rotation at `xid`: the right child rises to the root of the subtree,
/// each node keeping its color. Values are re-linked, never copied.
pub(crate) fn rotate_left(
    a: &mut generational_arena::Arena<Leaf>,
    xid: SlotId,
    Ghost(s): Ghost<Shape>,
) -> (res: (SlotId, Ghost<Shape>))
    requires
        interp(arena_view(*old(a)), s),
        is_node(s),
        sid(s) == xid,
        is_node(sright(s)),
    ensures
        res.0 == sid(sright(s)),
        res.1@ == (Shape::Node {
            id: sid(sright(s)),
            color: scolor(sright(s)),
            val: sval(sright(s)),
            left: Box::new(Shape::Node {
                id: xid,
                color: scolor(s),
                val: sval(s),
                left: Box::new(sleft(s)),
                right: Box::new(sleft(sright(s))),
            }),
            right: Box::new(sright(sright(s))),
        }),
        interp(arena_view(*final(a)), res.1@),
        ids(res.1@) == ids(s),
        in_order(res.1@) == in_order(s),
        arena_view(*final(a)).dom() == arena_view(*old(a)).dom(),
        agree_off(arena_view(*old(a)), arena_view(*final(a)), ids(s)),
{
    let ghost m = arena_view(*a);
    let ghost sa = sleft(s);
    let ghost sb = sleft(sright(s));
    let ghost sc = sright(sright(s));
    let x_nd = arena_get(a, xid).unwrap();
    let yid = x_nd.right.unwrap();
    proof {
        assert(ids(sright(s)).contains(yid));
        assert(interp(m, sright(s)));
        assert(m.contains_key(yid));
    }
    let y_nd = arena_get(a, yid).unwrap();
    arena_set(a, xid, Leaf { data: x_nd.data, left: x_nd.left, right: y_nd.left, color: x_nd.color });
    arena_set(a, yid, Leaf { data: y_nd.data, left: Some(xid), right: y_nd.right, color: y_nd.color });
    let ghost inner = Shape::Node {
        id: xid,
        color: scolor(s),
        val: sval(s),
        left: Box::new(sa),
        right: Box::new(sb),
    };
    let ghost t = Shape::Node {
        id: yid,
        color: scolor(sright(s)),
        val: sval(sright(s)),
        left: Box::new(inner),
        right: Box::new(sc),
    };
    proof {
        let m2 = arena_view(*a);
        assert(xid != yid);
        lemma_ids_in_dom(m, s);
        assert forall|k: SlotId| #[trigger] ids(sa).contains(k)
            implies m2.contains_key(k) && m2[k] == m[k] by {
            assert(ids(s).contains(k));
            assert(!ids(sright(s)).contains(k));
        }
        assert forall|k: SlotId| #[trigger] ids(sb).contains(k)
            implies m2.contains_key(k) && m2[k] == m[k] by {
            assert(ids(sright(s)).contains(k));
            assert(ids(s).contains(k));
            assert(!ids(sb).contains(yid));
        }
        assert forall|k: SlotId| #[trigger] ids(sc).contains(k)
            implies m2.contains_key(k) && m2[k] == m[k] by {
            assert(ids(sright(s)).contains(k));
            assert(ids(s).contains(k));
            assert(!ids(sc).contains(yid));
        }
        lemma_interp_frame(m, m2, sa);
        lemma_interp_frame(m, m2, sb);
        lemma_interp_frame(m, m2, sc);
        assert(!ids(sa).contains(yid));
        assert(interp(m2, inner));
        assert(interp(m2, t));
        assert(ids(t) =~= ids(s));
        assert(in_order(inner) == in_order(sa) + seq![sval(s)] + in_order(sb));
        assert(in_order(sright(s)) == in_order(sb) + seq![sval(sright(s))] + in_order(sc));
        assert(in_order(s) == in_order(sa) + seq![sval(s)] + in_order(sright(s)));
        assert(in_order(t) == in_order(inner) + seq![sval(sright(s))] + in_order(sc));
        assert(in_order(t) =~= in_order(s));
        assert(m2.dom() =~= m.dom());
    }
    (yid, Ghost(t))
}

/// Right rotation at `xid`: the left child rises to the root of the subtree,
/// each node keeping its color.
pub(crate) fn rotate_right(
    a: &mut generational_arena::Arena<Leaf>,
    xid: SlotId,
    Ghost(s): Ghost<Shape>,
) -> (res: (SlotId, Ghost<Shape>))
    requires
        interp(arena_view(*old(a)), s),
        is_node(s),
        sid(s) == xid,
        is_node(sleft(s)),
    ensures
        res.0 == sid(sleft(s)),
        res.1@ == (Shape::Node {
            id: sid(sleft(s)),
            color: scolor(sleft(s)),
            val: sval(sleft(s)),
            left: Box::new(sleft(sleft(s))),
            right: Box::new(Shape::Node {
                id: xid,
                color: scolor(s),
                val: sval(s),
                left: Box::new(sright(sleft(s))),
                right: Box::new(sright(s)),
            }),
        }),
        interp(arena_view(*final(a)), res.1@),
        ids(res.1@) == ids(s),
        in_order(res.1@) == in_order(s),
        arena_view(*final(a)).dom() == arena_view(*old(a)).dom(),
        agree_off(arena_view(*old(a)), arena_view(*final(a)), ids(s)),
{
    let ghost m = arena_view(*a);
    let ghost sa = sleft(sleft(s));
    let ghost sb = sright(sleft(s));
    let ghost sc = sright(s);
    let x_nd = arena_get(a, xid).unwrap();
    let yid = x_nd.left.unwrap();
    proof {
        assert(ids(sleft(s)).contains(yid));
        assert(interp(m, sleft(s)));
        assert(m.contains_key(yid));
    }
    let y_nd = arena_get(a, yid).unwrap();
    arena_set(a, xid, Leaf { data: x_nd.data, left: y_nd.right, right: x_nd.right, color: x_nd.color });
    arena_set(a, yid, Leaf { data: y_nd.data, left: y_nd.left, right: Some(xid), color: y_nd.color });
    let ghost inner = Shape::Node {
        id: xid,
        color: scolor(s),
        val: sval(s),
        left: Box::new(sb),
        right: Box::new(sc),
    };
    let ghost t = Shape::Node {
        id: yid,
        color: scolor(sleft(s)),
        val: sval(sleft(s)),
        left: Box::new(sa),
        right: Box::new(inner),
    };
    proof {
        let m2 = arena_view(*a);
        assert(xid != yid);
        lemma_ids_in_dom(m, s);
        assert forall|k: SlotId| #[trigger] ids(sa).contains(k)
            implies m2.contains_key(k) && m2[k] == m[k] by {
            assert(ids(sleft(s)).contains(k));
            assert(ids(s).contains(k));
            assert(!ids(sa).contains(yid));
        }
        assert forall|k: SlotId| #[trigger] ids(sb).contains(k)
            implies m2.contains_key(k) && m2[k] == m[k] by {
            assert(ids(sleft(s)).contains(k));
            assert(ids(s).contains(k));
            assert(!ids(sb).contains(yid));
        }
        assert forall|k: SlotId| #[trigger] ids(sc).contains(k)
            implies m2.contains_key(k) && m2[k] == m[k] by {
            assert(ids(s).contains(k));
            assert(!ids(sleft(s)).contains(k));
        }
        lemma_interp_frame(m, m2, sa);
        lemma_interp_frame(m, m2, sb);
        lemma_interp_frame(m, m2, sc);
        assert(!ids(sc).contains(yid));
        assert(interp(m2, inner));
        assert(interp(m2, t));
        assert(ids(t) =~= ids(s));
        assert(in_order(inner) == in_order(sb) + seq![sval(s)] + in_order(sc));
        assert(in_order(sleft(s)) == in_order(sa) + seq![sval(sleft(s))] + in_order(sb));
        assert(in_order(s) == in_order(sleft(s)) + seq![sval(s)] + in_order(sc));
        assert(in_order(t) == in_order(sa) + seq![sval(sleft(s))] + in_order(inner));
        assert(in_order(t) =~= in_order(s));
        assert(m2.dom() =~= m.dom());
    }
    (yid, Ghost(t))
}

/// Walk from the subtree root by the binary-search rule: left if less,
/// right if greater, stop on equality.
pub(crate) fn find_at(
    a: &generational_arena::Arena<Leaf>,
    link: Option<SlotId>,
    item: i64,
    Ghost(s): Ghost<Shape>,
) -> (found: bool)
    requires
        interp(arena_view(*a), s),
        link == root_link(s),
        sorted(in_order(s)),
    ensures
        found == in_order(s).to_set().contains(item),
    decreases s,
{
    match link {
        None => {
            proof {
                assert(!in_order(s).to_set().contains(item));
            }
            false
        },
        Some(id) => {
            let nd = arena_get(a, id).unwrap();
            let ghost il = in_order(sleft(s));
            let ghost ir = in_order(sright(s));
            proof {
                lemma_sorted_mid(il, sval(s), ir);
                lemma_mid_to_set(il, sval(s), ir);
            }
            if item < nd.data {
                proof {
                    assert(in_order(s).to_set().contains(item) == il.to_set().contains(item));
                }
                find_at(a, nd.left, item, Ghost(sleft(s)))
            } else if item > nd.data {
                proof {
                    assert(in_order(s).to_set().contains(item) == ir.to_set().contains(item));
                }
                find_at(a, nd.right, item, Ghost(sright(s)))
            } else {
                proof {
                    assert(in_order(s).to_set().contains(item));
                }
                true
            }
        },
    }
}

/// Recolor the root of the subtree's left child and hand back the
/// reassembled subtree.
pub(crate) fn color_left_child(
    a: &mut generational_arena::Arena<Leaf>,
    id: SlotId,
    c: Color,
    Ghost(t): Ghost<Shape>,
) -> (res: Ghost<Shape>)
    requires
        interp(arena_view(*old(a)), t),
        is_node(t),
        sid(t) == id,
        is_node(sleft(t)),
    ensures
        res@ == (Shape::Node {
            id,
            color: scolor(t),
            val: sval(t),
            left: Box::new(Shape::Node {
                id: sid(sleft(t)),
                color: c,
                val: sval(sleft(t)),
                left: Box::new(sleft(sleft(t))),
                right: Box::new(sright(sleft(t))),
            }),
            right: Box::new(sright(t)),
        }),
        interp(arena_view(*final(a)), res@),
        ids(res@) == ids(t),
        in_order(res@) == in_order(t),
        arena_view(*final(a)).dom() == arena_view(*old(a)).dom(),
        agree_off(arena_view(*old(a)), arena_view(*final(a)), ids(t)),
{
    let ghost m = arena_view(*a);
    let nd = arena_get(a, id).unwrap();
    let l_id = nd.left.unwrap();
    proof {
        assert(interp(m, sleft(t)));
    }
    let xs = set_color(a, l_id, c, Ghost(sleft(t)));
    let ghost t2 = Shape::Node {
        id,
        color: scolor(t),
        val: sval(t),
        left: Box::new(xs@),
        right: Box::new(sright(t)),
    };
    proof {
        let m2 = arena_view(*a);
        assert(!ids(sleft(t)).contains(id));
        assert(m2.contains_key(id) && m2[id] == m[id]);
        assert forall|k: SlotId| #[trigger] ids(sright(t)).contains(k)
            implies m2.contains_key(k) && m2[k] == m[k] by {
            lemma_ids_in_dom(m, t);
            assert(ids(t).contains(k));
            assert(!ids(sleft(t)).contains(k));
        }
        lemma_interp_frame(m, m2, sright(t));
        assert(ids(xs@) =~= ids(sleft(t)));
        assert(interp(m2, t2));
        assert(ids(t2) =~= ids(t));
        assert(in_order(t2) =~= in_order(t));
    }
    Ghost(t2)
}

/// Recolor the root of the subtree's right child and hand back the
/// reassembled subtree.
pub(crate) fn color_right_child(
    a: &mut generational_arena::Arena<Leaf>,
    id: SlotId,
    c: Color,
    Ghost(t): Ghost<Shape>,
) -> (res: Ghost<Shape>)
    requires
        interp(arena_view(*old(a)), t),
        is_node(t),
        sid(t) == id,
        is_node(sright(t)),
    ensures
        res@ == (Shape::Node {
            id,
            color: scolor(t),
            val: sval(t),
            left: Box::new(sleft(t)),
            right: Box::new(Shape::Node {
                id: sid(sright(t)),
                color: c,
                val: sval(sright(t)),
                left: Box::new(sleft(sright(t))),
                right: Box::new(sright(sright(t))),
            }),
        }),
        interp(arena_view(*final(a)), res@),
        ids(res@) == ids(t),
        in_order(res@) == in_order(t),
        arena_view(*final(a)).dom() == arena_view(*old(a)).dom(),
        agree_off(arena_view(*old(a)), arena_view(*final(a)), ids(t)),
{
    let ghost m = arena_view(*a);
    let nd = arena_get(a, id).unwrap();
    let r_id = nd.right.unwrap();
    proof {
        assert(interp(m, sright(t)));
    }
    let xs = set_color(a, r_id, c, Ghost(sright(t)));
    let ghost t2 = Shape::Node {
        id,
        color: scolor(t),
        val: sval(t),
        left: Box::new(sleft(t)),
        right: Box::new(xs@),
    };
    proof {
        let m2 = arena_view(*a);
        assert(!ids(sright(t)).contains(id));
        assert(m2.contains_key(id) && m2[id] == m[id]);
        assert forall|k: SlotId| #[trigger] ids(sleft(t)).contains(k)
            implies m2.contains_key(k) && m2[k] == m[k] by {
            lemma_ids_in_dom(m, t);
            assert(ids(t).contains(k));
            assert(!ids(sright(t)).contains(k));
        }
        lemma_interp_frame(m, m2, sleft(t));
        assert(ids(xs@) =~= ids(sright(t)));
        assert(interp(m2, t2));
        assert(ids(t2) =~= ids(t));
        assert(in_order(t2) =~= in_order(t));
    }
    Ghost(t2)
}

/// Restore the red-black discipline at a black node whose left subtree was
/// just extended: if the left child is red and itself has a red child, rotate
/// (once for an outer grandchild, twice for an inner one) and recolor.
pub(crate) fn balance_left(
    a: &mut generational_arena::Arena<Leaf>,
    id: SlotId,
    Ghost(t0): Ghost<Shape>,
) -> (res: (SlotId, Ghost<Shape>))
    requires
        interp(arena_view(*old(a)), t0),
        is_node(t0),
        sid(t0) == id,
        is_node(sleft(t0)),
        scolor(t0) == Color::Black,
    ensures
        interp(arena_view(*final(a)), res.1@),
        is_node(res.1@),
        root_link(res.1@) == Some(res.0),
        in_order(res.1@) == in_order(t0),
        ids(res.1@) == ids(t0),
        arena_view(*final(a)).dom() == arena_view(*old(a)).dom(),
        agree_off(arena_view(*old(a)), arena_view(*final(a)), ids(t0)),
        (arb(sleft(t0)) && rbs(sright(t0)) && bh(sleft(t0)) == bh(sright(t0)))
            ==> (rbs(res.1@) && bh(res.1@) == bh(t0)),
{
    let ghost m = arena_view(*a);
    let ghost tl = sleft(t0);
    let ghost tr = sright(t0);
    let nd = arena_get(a, id).unwrap();
    let l_id = nd.left.unwrap();
    proof {
        assert(interp(m, tl));
    }
    let l_nd = arena_get(a, l_id).unwrap();
    if matches!(l_nd.color, Color::Red) {
        let mut ll_red = false;
        if let Some(ll_id) = l_nd.left {
            proof {
                assert(interp(m, sleft(tl)));
                assert(root_link(sleft(tl)) == Some(ll_id));
            }
            let ll_nd = arena_get(a, ll_id).unwrap();
            ll_red = matches!(ll_nd.color, Color::Red);
        }
        let mut lr_red = false;
        if let Some(lr_id) = l_nd.right {
            proof {
                assert(interp(m, sright(tl)));
                assert(root_link(sright(tl)) == Some(lr_id));
            }
            let lr_nd = arena_get(a, lr_id).unwrap();
            lr_red = matches!(lr_nd.color, Color::Red);
        }
        if ll_red {
            let (rid2, t1) = rotate_right(a, id, Ghost(t0));
            let t2 = color_left_child(a, rid2, Color::Black, Ghost(t1@));
            proof {
                if arb(tl) && rbs(tr) && bh(tl) == bh(tr) {
                    let xs = sleft(tl);
                    assert(scolor(tl) == Color::Red);
                    assert(is_node(xs) && scolor(xs) == Color::Red);
                    assert(rbs(xs));
                    assert(bh(xs) == bh(sleft(xs)));
                    assert(bh(tl) == bh(xs));
                    assert(rbs(sleft(t2@)));
                    assert(bh(sleft(t2@)) == bh(sleft(xs)) + 1);
                    assert(rbs(sright(t2@)));
                    assert(bh(sright(t2@)) == bh(sright(tl)) + 1);
                    assert(bh(sright(tl)) == bh(xs));
                    assert(black_root(sleft(t2@)) && black_root(sright(t2@)));
                    assert(rbs(t2@));
                    assert(bh(t2@) == bh(t0));
                }
            }
            (rid2, t2)
        } else if lr_red {
            let (nl_id, tl2) = rotate_left(a, l_id, Ghost(tl));
            let ghost m2 = arena_view(*a);
            arena_set(a, id, Leaf { data: nd.data, left: Some(nl_id), right: nd.right, color: nd.color });
            let ghost t0b = Shape::Node {
                id,
                color: Color::Black,
                val: sval(t0),
                left: Box::new(tl2@),
                right: Box::new(tr),
            };
            proof {
                let m3 = arena_view(*a);
                assert(!ids(tl).contains(id));
                assert(m2.contains_key(id) && m2[id] == m[id]);
                assert forall|k: SlotId| #[trigger] ids(tl2@).contains(k)
                    implies m3.contains_key(k) && m3[k] == m2[k] by {
                    lemma_ids_in_dom(m2, tl2@);
                    assert(ids(tl).contains(k));
                }
                lemma_interp_frame(m2, m3, tl2@);
                assert forall|k: SlotId| #[trigger] ids(tr).contains(k)
                    implies m3.contains_key(k) && m3[k] == m[k] by {
                    lemma_ids_in_dom(m, t0);
                    assert(ids(t0).contains(k));
                    assert(!ids(tl).contains(k));
                }
                lemma_interp_frame(m, m3, tr);
                assert(ids(tl2@) == ids(tl));
                assert(interp(m3, t0b));
                assert(in_order(t0b) =~= in_order(t0));
                assert(ids(t0b) =~= ids(t0));
            }
            let (rid2, t1) = rotate_right(a, id, Ghost(t0b));
            let t2 = color_left_child(a, rid2, Color::Black, Ghost(t1@));
            proof {
                if arb(tl) && rbs(tr) && bh(tl) == bh(tr) {
                    let ys = sright(tl);
                    assert(scolor(tl) == Color::Red);
                    assert(is_node(ys) && scolor(ys) == Color::Red);
                    assert(rbs(ys));
                    assert(bh(ys) == bh(sleft(ys)));
                    assert(bh(tl) == bh(sleft(tl)));
                    assert(rbs(sleft(t2@)));
                    assert(bh(sleft(t2@)) == bh(sleft(tl)) + 1);
                    assert(rbs(sright(t2@)));
                    assert(bh(sright(t2@)) == bh(sright(ys)) + 1);
                    assert(bh(sright(ys)) == bh(sleft(ys)));
                    assert(black_root(sleft(t2@)) && black_root(sright(t2@)));
                    assert(rbs(t2@));
                    assert(bh(t2@) == bh(t0));
                }
            }
            (rid2, t2)
        } else {
            proof {
                if arb(tl) && rbs(tr) && bh(tl) == bh(tr) {
                    assert(black_root(sleft(tl)));
                    assert(black_root(sright(tl)));
                    assert(rbs(tl));
                    assert(rbs(t0));
                }
            }
            (id, Ghost(t0))
        }
    } else {
        proof {
            if arb(tl) && rbs(tr) && bh(tl) == bh(tr) {
                assert(rbs(tl));
                assert(rbs(t0));
            }
        }
        (id, Ghost(t0))
    }
}

/// Mirror image of `balance_left`, for a black node whose right subtree was
/// just extended.
pub(crate) fn balance_right(
    a: &mut generational_arena::Arena<Leaf>,
    id: SlotId,
    Ghost(t0): Ghost<Shape>,
) -> (res: (SlotId, Ghost<Shape>))
    requires
        interp(arena_view(*old(a)), t0),
        is_node(t0),
        sid(t0) == id,
        is_node(sright(t0)),
        scolor(t0) == Color::Black,
    ensures
        interp(arena_view(*final(a)), res.1@),
        is_node(res.1@),
        root_link(res.1@) == Some(res.0),
        in_order(res.1@) == in_order(t0),
        ids(res.1@) == ids(t0),
        arena_view(*final(a)).dom() == arena_view(*old(a)).dom(),
        agree_off(arena_view(*old(a)), arena_view(*final(a)), ids(t0)),
        (arb(sright(t0)) && rbs(sleft(t0)) && bh(sleft(t0)) == bh(sright(t0)))
            ==> (rbs(res.1@) && bh(res.1@) == bh(t0)),
{
    let ghost m = arena_view(*a);
    let ghost tl = sleft(t0);
    let ghost tr = sright(t0);
    let nd = arena_get(a, id).unwrap();
    let r_id = nd.right.unwrap();
    proof {
        assert(interp(m, tr));
    }
    let r_nd = arena_get(a, r_id).unwrap();
    if matches!(r_nd.color, Color::Red) {
        let mut rr_red = false;
        if let Some(rr_id) = r_nd.right {
            proof {
                assert(interp(m, sright(tr)));
                assert(root_link(sright(tr)) == Some(rr_id));
            }
            let rr_nd = arena_get(a, rr_id).unwrap();
            rr_red = matches!(rr_nd.color, Color::Red);
        }
        let mut rl_red = false;
        if let Some(rl_id) = r_nd.left {
            proof {
                assert(interp(m, sleft(tr)));
                assert(root_link(sleft(tr)) == Some(rl_id));
            }
            let rl_nd = arena_get(a, rl_id).unwrap();
            rl_red = matches!(rl_nd.color, Color::Red);
        }
        if rr_red {
            let (rid2, t1) = rotate_left(a, id, Ghost(t0));
            let t2 = color_right_child(a, rid2, Color::Black, Ghost(t1@));
            proof {
                if arb(tr) && rbs(tl) && bh(tl) == bh(tr) {
                    let xs = sright(tr);
                    assert(scolor(tr) == Color::Red);
                    assert(is_node(xs) && scolor(xs) == Color::Red);
                    assert(rbs(xs));
                    assert(bh(xs) == bh(sleft(xs)));
                    assert(bh(tr) == bh(sleft(tr)));
                    assert(rbs(sright(t2@)));
                    assert(bh(sright(t2@)) == bh(sleft(xs)) + 1);
                    assert(rbs(sleft(t2@)));
                    assert(bh(sleft(t2@)) == bh(sleft(tr)) + 1);
                    assert(bh(sleft(tr)) == bh(xs));
                    assert(black_root(sleft(t2@)) && black_root(sright(t2@)));
                    assert(rbs(t2@));
                    assert(bh(t2@) == bh(t0));
                }
            }
            (rid2, t2)
        } else if rl_red {
            let (nr_id, tr2) = rotate_right(a, r_id, Ghost(tr));
            let ghost m2 = arena_view(*a);
            arena_set(a, id, Leaf { data: nd.data, left: nd.left, right: Some(nr_id), color: nd.color });
            let ghost t0b = Shape::Node {
                id,
                color: Color::Black,
                val: sval(t0),
                left: Box::new(tl),
                right: Box::new(tr2@),
            };
            proof {
                let m3 = arena_view(*a);
                assert(!ids(tr).contains(id));
                assert(m2.contains_key(id) && m2[id] == m[id]);
                assert forall|k: SlotId| #[trigger] ids(tr2@).contains(k)
                    implies m3.contains_key(k) && m3[k] == m2[k] by {
                    lemma_ids_in_dom(m2, tr2@);
                    assert(ids(tr).contains(k));
                }
                lemma_interp_frame(m2, m3, tr2@);
                assert forall|k: SlotId| #[trigger] ids(tl).contains(k)
                    implies m3.contains_key(k) && m3[k] == m[k] by {
                    lemma_ids_in_dom(m, t0);
                    assert(ids(t0).contains(k));
                    assert(!ids(tr).contains(k));
                }
                lemma_interp_frame(m, m3, tl);
                assert(ids(tr2@) == ids(tr));
                assert(interp(m3, t0b));
                assert(in_order(t0b) =~= in_order(t0));
                assert(ids(t0b) =~= ids(t0));
            }
            let (rid2, t1) = rotate_left(a, id, Ghost(t0b));
            let t2 = color_right_child(a, rid2, Color::Black, Ghost(t1@));
            proof {
                if arb(tr) && rbs(tl) && bh(tl) == bh(tr) {
                    let ys = sleft(tr);
                    assert(scolor(tr) == Color::Red);
                    assert(is_node(ys) && scolor(ys) == Color::Red);
                    assert(rbs(ys));
                    assert(bh(ys) == bh(sleft(ys)));
                    assert(bh(tr) == bh(ys));
                    assert(rbs(sleft(t2@)));
                    assert(bh(sleft(t2@)) == bh(sleft(ys)) + 1);
                    assert(rbs(sright(t2@)));
                    assert(bh(sright(t2@)) == bh(sright(ys)) + 1);
                    assert(bh(sright(ys)) == bh(sleft(ys)));
                    assert(black_root(sleft(t2@)) && black_root(sright(t2@)));
                    assert(rbs(t2@));
                    assert(bh(t2@) == bh(t0));
                }
            }
            (rid2, t2)
        } else {
            proof {
                if arb(tr) && rbs(tl) && bh(tl) == bh(tr) {
                    assert(black_root(sleft(tr)));
                    assert(black_root(sright(tr)));
                    assert(rbs(tr));
                    assert(rbs(t0));
                }
            }
            (id, Ghost(t0))
        }
    } else {
        proof {
            if arb(tr) && rbs(tl) && bh(tl) == bh(tr) {
                assert(rbs(tr));
                assert(rbs(t0));
            }
        }
        (id, Ghost(t0))
    }
}

/// Insert `item` into the subtree, rebalancing on the way back up. Equal
/// values are not stored twice: inserting a present value is a no-op.
pub(crate) fn ins_at(
    a: &mut generational_arena::Arena<Leaf>,
    link: Option<SlotId>,
    item: i64,
    Ghost(s): Ghost<Shape>,
) -> (res: (Option<SlotId>, bool, Ghost<Shape>))
    requires
        interp(arena_view(*old(a)), s),
        link == root_link(s),
        sorted(in_order(s)),
    ensures
        interp(arena_view(*final(a)), res.2@),
        res.0 == root_link(res.2@),
        is_node(res.2@),
        sorted(in_order(res.2@)),
        in_order(res.2@).to_set() == in_order(s).to_set().insert(item),
        res.1 == !in_order(s).to_set().contains(item),
        res.1 ==> in_order(res.2@).len() == in_order(s).len() + 1,
        !res.1 ==> res.2@ == s && arena_view(*final(a)) == arena_view(*old(a)),
        agree_off(arena_view(*old(a)), arena_view(*final(a)), ids(s)),
        forall|k: SlotId| #[trigger] ids(res.2@).contains(k)
            ==> ids(s).contains(k) || !arena_view(*old(a)).contains_key(k),
        rbs(s) ==> bh(res.2@) == bh(s) && arb(res.2@) && (black_root(s) ==> rbs(res.2@)),
    decreases s,
{
    let ghost m0 = arena_view(*a);
    match link {
        None => {
            let id = arena_insert(a, Leaf { data: item, left: None, right: None, color: Color::Red });
            let ghost t = Shape::Node {
                id,
                color: Color::Red,
                val: item,
                left: Box::new(Shape::Tip),
                right: Box::new(Shape::Tip),
            };
            proof {
                assert(ids(Shape::Tip) =~= Set::<SlotId>::empty());
                assert(!ids(Shape::Tip).contains(id));
                assert(ids(Shape::Tip).disjoint(ids(Shape::Tip)));
                assert(arena_view(*a)[id] == (Leaf { data: item, left: None, right: None, color: Color::Red }));
                assert(interp(arena_view(*a), Shape::Tip));
                assert(interp(arena_view(*a), t));
                assert(in_order(s) =~= Seq::<i64>::empty());
                assert(!in_order(s).to_set().contains(item));
                assert(in_order(t) =~= Seq::<i64>::empty() + seq![item] + Seq::<i64>::empty());
                lemma_sorted_mid(Seq::<i64>::empty(), item, Seq::<i64>::empty());
                lemma_mid_to_set(Seq::<i64>::empty(), item, Seq::<i64>::empty());
                assert(in_order(t).to_set() =~= in_order(s).to_set().insert(item));
                assert(ids(t) =~= Set::<SlotId>::empty().insert(id));
            }
            (Some(id), true, Ghost(t))
        },
        Some(id) => {
            let nd = arena_get(a, id).unwrap();
            let ghost sl = sleft(s);
            let ghost sr = sright(s);
            let ghost il = in_order(sl);
            let ghost ir = in_order(sr);
            proof {
                lemma_sorted_mid(il, sval(s), ir);
                lemma_mid_to_set(il, sval(s), ir);
                lemma_ids_in_dom(m0, s);
            }
            if item < nd.data {
                let (lk2, inserted, tl) = ins_at(a, nd.left, item, Ghost(sl));
                if !inserted {
                    proof {
                        assert(il.to_set().contains(item));
                        assert(in_order(s).to_set().contains(item));
                        assert(in_order(s).to_set().insert(item) =~= in_order(s).to_set());
                    }
                    return (Some(id), false, Ghost(s));
                }
                let ghost m1 = arena_view(*a);
                arena_set(a, id, Leaf { data: nd.data, left: lk2, right: nd.right, color: nd.color });
                let ghost t0 = Shape::Node {
                    id,
                    color: scolor(s),
                    val: sval(s),
                    left: Box::new(tl@),
                    right: Box::new(sr),
                };
                proof {
                    let m2 = arena_view(*a);
                    assert(!ids(sl).contains(id));
                    assert(m0.contains_key(id));
                    assert(m1.contains_key(id) && m1[id] == m0[id]);
                    assert forall|k: SlotId| #[trigger] ids(sr).contains(k)
                        implies m2.contains_key(k) && m2[k] == m0[k] by {
                        assert(ids(s).contains(k));
                        assert(!ids(sl).contains(k));
                        assert(m0.contains_key(k));
                        assert(m1.contains_key(k) && m1[k] == m0[k]);
                        assert(k != id);
                    }
                    lemma_interp_frame(m0, m2, sr);
                    assert forall|k: SlotId| #[trigger] ids(tl@).contains(k)
                        implies m2.contains_key(k) && m2[k] == m1[k] by {
                        lemma_ids_in_dom(m1, tl@);
                        if k == id {
                            assert(ids(sl).contains(k) || !m0.contains_key(k));
                            assert(false);
                        }
                    }
                    lemma_interp_frame(m1, m2, tl@);
                    assert forall|k: SlotId| #[trigger] ids(tl@).contains(k)
                        implies !ids(sr).contains(k) && k != id by {
                        if ids(sr).contains(k) || k == id {
                            assert(m0.contains_key(k));
                            assert(ids(sl).contains(k));
                        }
                    }
                    assert(interp(m2, t0));
                    let il2 = in_order(tl@);
                    assert forall|i: int| 0 <= i < il2.len() implies il2[i] < sval(s) by {
                        assert(il2.contains(il2[i]));
                        assert(il2.to_set().contains(il2[i]));
                        assert(il.to_set().contains(il2[i]) || il2[i] == item);
                        if il.to_set().contains(il2[i]) {
                            let w = choose|w: int| 0 <= w < il.len() && il[w] == il2[i];
                            assert(il[w] < sval(s));
                        }
                    }
                    lemma_sorted_mid(il2, sval(s), ir);
                    assert(sorted(in_order(t0)));
                    lemma_mid_to_set(il2, sval(s), ir);
                    assert(in_order(t0).to_set() =~= in_order(s).to_set().insert(item));
                }
                if matches!(nd.color, Color::Black) {
                    let (rid2, t2) = balance_left(a, id, Ghost(t0));
                    proof {
                        let mf = arena_view(*a);
                        assert forall|k: SlotId|
                            m0.contains_key(k) && !ids(s).contains(k)
                            implies mf.contains_key(k) && mf[k] == m0[k] by {
                            assert(!ids(sl).contains(k));
                            assert(m1.contains_key(k) && m1[k] == m0[k]);
                            assert(k != id);
                            assert(!ids(tl@).contains(k));
                            assert(!ids(sr).contains(k));
                            assert(!ids(t0).contains(k));
                        }
                        assert forall|k: SlotId| #[trigger] ids(t2@).contains(k)
                            implies ids(s).contains(k) || !m0.contains_key(k) by {
                            assert(ids(t0).contains(k));
                        }
                        if rbs(s) {
                            assert(rbs(sl) && rbs(sr) && bh(sl) == bh(sr));
                            assert(arb(tl@) && bh(tl@) == bh(sl));
                            assert(rbs(t2@) && bh(t2@) == bh(t0));
                            assert(bh(t0) == bh(sl) + 1);
                            assert(bh(t2@) == bh(s));
                            assert(arb(t2@));
                        }
                    }
                    (Some(rid2), true, t2)
                } else {
                    proof {
                        let mf = arena_view(*a);
                        assert forall|k: SlotId|
                            m0.contains_key(k) && !ids(s).contains(k)
                            implies mf.contains_key(k) && mf[k] == m0[k] by {
                            assert(!ids(sl).contains(k));
                            assert(m1.contains_key(k) && m1[k] == m0[k]);
                            assert(k != id);
                        }
                        assert forall|k: SlotId| #[trigger] ids(t0).contains(k)
                            implies ids(s).contains(k) || !m0.contains_key(k) by {}
                        if rbs(s) {
                            assert(rbs(sl) && rbs(sr) && bh(sl) == bh(sr));
                            assert(scolor(s) == Color::Red);
                            assert(black_root(sl));
                            assert(rbs(tl@));
                            assert(arb(t0) && bh(t0) == bh(s));
                        }
                    }
                    (Some(id), true, Ghost(t0))
                }
            } else if item > nd.data {
                let (rk2, inserted, tr) = ins_at(a, nd.right, item, Ghost(sr));
                if !inserted {
                    proof {
                        assert(ir.to_set().contains(item));
                        assert(in_order(s).to_set().contains(item));
                        assert(in_order(s).to_set().insert(item) =~= in_order(s).to_set());
                    }
                    return (Some(id), false, Ghost(s));
                }
                let ghost m1 = arena_view(*a);
                arena_set(a, id, Leaf { data: nd.data, left: nd.left, right: rk2, color: nd.color });
                let ghost t0 = Shape::Node {
                    id,
                    color: scolor(s),
                    val: sval(s),
                    left: Box::new(sl),
                    right: Box::new(tr@),
                };
                proof {
                    let m2 = arena_view(*a);
                    assert(!ids(sr).contains(id));
                    assert(m0.contains_key(id));
                    assert(m1.contains_key(id) && m1[id] == m0[id]);
                    assert forall|k: SlotId| #[trigger] ids(sl).contains(k)
                        implies m2.contains_key(k) && m2[k] == m0[k] by {
                        assert(ids(s).contains(k));
                        assert(!ids(sr).contains(k));
                        assert(m0.contains_key(k));
                        assert(m1.contains_key(k) && m1[k] == m0[k]);
                        assert(k != id);
                    }
                    lemma_interp_frame(m0, m2, sl);
                    assert forall|k: SlotId| #[trigger] ids(tr@).contains(k)
                        implies m2.contains_key(k) && m2[k] == m1[k] by {
                        lemma_ids_in_dom(m1, tr@);
                        if k == id {
                            assert(ids(sr).contains(k) || !m0.contains_key(k));
                            assert(false);
                        }
                    }
                    lemma_interp_frame(m1, m2, tr@);
                    assert forall|k: SlotId| #[trigger] ids(tr@).contains(k)
                        implies !ids(sl).contains(k) && k != id by {
                        if ids(sl).contains(k) || k == id {
                            assert(m0.contains_key(k));
                            assert(ids(sr).contains(k));
                        }
                    }
                    assert(interp(m2, t0));
                    let ir2 = in_order(tr@);
                    assert forall|i: int| 0 <= i < ir2.len() implies sval(s) < ir2[i] by {
                        assert(ir2.contains(ir2[i]));
                        assert(ir2.to_set().contains(ir2[i]));
                        assert(ir.to_set().contains(ir2[i]) || ir2[i] == item);
                        if ir.to_set().contains(ir2[i]) {
                            let w = choose|w: int| 0 <= w < ir.len() && ir[w] == ir2[i];
                            assert(sval(s) < ir[w]);
                        }
                    }
                    lemma_sorted_mid(il, sval(s), ir2);
                    assert(sorted(in_order(t0)));
                    lemma_mid_to_set(il, sval(s), ir2);
                    assert(in_order(t0).to_set() =~= in_order(s).to_set().insert(item));
                }
                if matches!(nd.color, Color::Black) {
                    let (rid2, t2) = balance_right(a, id, Ghost(t0));
                    proof {
                        let mf = arena_view(*a);
                        assert forall|k: SlotId|
                            m0.contains_key(k) && !ids(s).contains(k)
                            implies mf.contains_key(k) && mf[k] == m0[k] by {
                            assert(!ids(sr).contains(k));
                            assert(m1.contains_key(k) && m1[k] == m0[k]);
                            assert(k != id);
                            assert(!ids(tr@).contains(k));
                            assert(!ids(sl).contains(k));
                            assert(!ids(t0).contains(k));
                        }
                        assert forall|k: SlotId| #[trigger] ids(t2@).contains(k)
                            implies ids(s).contains(k) || !m0.contains_key(k) by {
                            assert(ids(t0).contains(k));
                        }
                        if rbs(s) {
                            assert(rbs(sl) && rbs(sr) && bh(sl) == bh(sr));
                            assert(arb(tr@) && bh(tr@) == bh(sr));
                            assert(rbs(t2@) && bh(t2@) == bh(t0));
                            assert(bh(t0) == bh(sl) + 1);
                            assert(bh(t2@) == bh(s));
                            assert(arb(t2@));
                        }
                    }
                    (Some(rid2), true, t2)
                } else {
                    proof {
                        let mf = arena_view(*a);
                        assert forall|k: SlotId|
                            m0.contains_key(k) && !ids(s).contains(k)
                            implies mf.contains_key(k) && mf[k] == m0[k] by {
                            assert(!ids(sr).contains(k));
                            assert(m1.contains_key(k) && m1[k] == m0[k]);
                            assert(k != id);
                        }
                        assert forall|k: SlotId| #[trigger] ids(t0).contains(k)
                            implies ids(s).contains(k) || !m0.contains_key(k) by {}
                        if rbs(s) {
                            assert(rbs(sl) && rbs(sr) && bh(sl) == bh(sr));
                            assert(scolor(s) == Color::Red);
                            assert(black_root(sr));
                            assert(rbs(tr@));
                            assert(arb(t0) && bh(t0) == bh(s));
                        }
                    }
                    (Some(id), true, Ghost(t0))
                }
            } else {
                proof {
                    assert(in_order(s).to_set().contains(item));
                    assert(in_order(s).to_set().insert(item) =~= in_order(s).to_set());
                }
                (Some(id), false, Ghost(s))
            }
        },
    }
}

/// Unlink the leftmost node of a nonempty subtree and hand back its value:
/// the least stored value, the first of the in-order walk. The third result
/// reports a black-height deficit still to be settled by the caller.
pub(crate) fn del_min(
    a: &mut generational_arena::Arena<Leaf>,
    link: Option<SlotId>,
    Ghost(s): Ghost<Shape>,
) -> (res: (Option<SlotId>, i64, bool, Ghost<Shape>))
    requires
        interp(arena_view(*old(a)), s),
        link == root_link(s),
        sorted(in_order(s)),
        is_node(s),
    ensures
        interp(arena_view(*final(a)), res.3@),
        res.0 == root_link(res.3@),
        in_order(res.3@) == in_order(s).drop_first(),
        res.1 == in_order(s)[0],
        sorted(in_order(res.3@)),
        agree_off(arena_view(*old(a)), arena_view(*final(a)), ids(s)),
        forall|k: SlotId| #[trigger] ids(res.3@).contains(k) ==> ids(s).contains(k),
        rbs(s) ==> (rbs(res.3@)
            && (black_root(s) ==> black_root(res.3@))
            && (res.2 ==> black_root(res.3@))
            && (res.2 ==> bh(res.3@) + 1 == bh(s))
            && (!res.2 ==> bh(res.3@) == bh(s))),
    decreases s,
{
    let ghost m0 = arena_view(*a);
    let id = link.unwrap();
    let nd = arena_get(a, id).unwrap();
    let ghost sl = sleft(s);
    let ghost sr = sright(s);
    let ghost il = in_order(sl);
    let ghost ir = in_order(sr);
    proof {
        lemma_sorted_mid(il, sval(s), ir);
        lemma_mid_to_set(il, sval(s), ir);
        lemma_ids_in_dom(m0, s);
    }
    match nd.left {
        None => {
            arena_remove(a, id);
            let ghost m2 = arena_view(*a);
            proof {
                assert(il =~= Seq::<i64>::empty());
                assert(in_order(s) == il + seq![sval(s)] + ir);
                assert(in_order(s)[0] == sval(s));
                assert(in_order(s).drop_first() =~= ir);
                assert forall|k: SlotId| #[trigger] ids(sr).contains(k)
                    implies m2.contains_key(k) && m2[k] == m0[k] by {
                    assert(ids(s).contains(k));
                    assert(k != id);
                }
                lemma_interp_frame(m0, m2, sr);
            }
            // A black node left the tree: a red child absorbs the deficit by
            // turning black, otherwise it travels up.
            let mut dfc = false;
            let mut out_t: Ghost<Shape> = Ghost(sright(s));
            if matches!(nd.color, Color::Black) {
                match nd.right {
                    Some(rid) => {
                        proof {
                            assert(interp(m2, sr));
                            assert(root_link(sr) == Some(rid));
                        }
                        let r_nd = arena_get(a, rid).unwrap();
                        if matches!(r_nd.color, Color::Red) {
                            out_t = set_color(a, rid, Color::Black, Ghost(sright(s)));
                        } else {
                            dfc = true;
                        }
                    },
                    None => {
                        dfc = true;
                    },
                }
            }
            proof {
                let mf = arena_view(*a);
                assert(in_order(out_t@) == ir);
                assert(root_link(out_t@) == nd.right);
                assert forall|k: SlotId|
                    m0.contains_key(k) && !ids(s).contains(k)
                    implies mf.contains_key(k) && mf[k] == m0[k] by {
                    assert(k != id);
                    assert(m2.contains_key(k) && m2[k] == m0[k]);
                    assert(!ids(sr).contains(k));
                }
                assert forall|k: SlotId| #[trigger] ids(out_t@).contains(k)
                    implies ids(s).contains(k) by {
                    assert(ids(sr).contains(k));
                }
                if rbs(s) {
                    assert(bh(sl) == bh(sr));
                    assert(bh(sl) == 0);
                    assert(rbs(sr));
                    assert(rbs(sleft(sr)) && rbs(sright(sr)));
                    assert(rbs(out_t@));
                    assert(black_root(s) ==> black_root(out_t@));
                    assert(dfc ==> black_root(out_t@));
                    assert(dfc ==> bh(out_t@) + 1 == bh(s));
                    assert(!dfc ==> bh(out_t@) == bh(s));
                }
            }
            (nd.right, nd.data, dfc, out_t)
        },
        Some(_) => {
            let (lk2, mv, dfc, tl2) = del_min(a, nd.left, Ghost(sl));
            let ghost m1 = arena_view(*a);
            arena_set(a, id, Leaf { data: nd.data, left: lk2, right: nd.right, color: nd.color });
            let ghost t0 = Shape::Node {
                id,
                color: scolor(s),
                val: sval(s),
                left: Box::new(tl2@),
                right: Box::new(sr),
            };
            proof {
                let m2 = arena_view(*a);
                assert(!ids(sl).contains(id));
                assert(m0.contains_key(id));
                assert(m1.contains_key(id) && m1[id] == m0[id]);
                assert forall|k: SlotId| #[trigger] ids(sr).contains(k)
                    implies m2.contains_key(k) && m2[k] == m0[k] by {
                    assert(ids(s).contains(k));
                    assert(!ids(sl).contains(k));
                    assert(m0.contains_key(k));
                    assert(m1.contains_key(k) && m1[k] == m0[k]);
                    assert(k != id);
                }
                lemma_interp_frame(m0, m2, sr);
                assert forall|k: SlotId| #[trigger] ids(tl2@).contains(k)
                    implies m2.contains_key(k) && m2[k] == m1[k] by {
                    lemma_ids_in_dom(m1, tl2@);
                    assert(ids(sl).contains(k));
                    assert(k != id);
                }
                lemma_interp_frame(m1, m2, tl2@);
                assert forall|k: SlotId| #[trigger] ids(tl2@).contains(k)
                    implies !ids(sr).contains(k) && k != id by {
                    assert(ids(sl).contains(k));
                }
                assert(interp(m2, t0));
                assert(il.len() > 0);
                assert(in_order(t0) == il.drop_first() + seq![sval(s)] + ir);
                assert(in_order(s) == il + seq![sval(s)] + ir);
                assert(in_order(t0) =~= in_order(s).drop_first());
                assert(mv == il[0]);
                assert(in_order(s)[0] == il[0]);
                assert forall|i: int, j: int| 0 <= i < j < in_order(t0).len()
                    implies in_order(t0)[i] < in_order(t0)[j] by {
                    assert(in_order(t0)[i] == in_order(s)[i + 1]);
                    assert(in_order(t0)[j] == in_order(s)[j + 1]);
                }
                assert forall|k: SlotId|
                    m0.contains_key(k) && !ids(s).contains(k)
                    implies m2.contains_key(k) && m2[k] == m0[k] by {
                    assert(!ids(sl).contains(k));
                    assert(m1.contains_key(k) && m1[k] == m0[k]);
                    assert(k != id);
                }
            }
            if dfc {
                let ghost m2 = arena_view(*a);
                let (nid2, dfc2, t2) = fix_left(a, id, Ghost(t0));
                proof {
                    let mf = arena_view(*a);
                    assert forall|k: SlotId|
                        m0.contains_key(k) && !ids(s).contains(k)
                        implies mf.contains_key(k) && mf[k] == m0[k] by {
                        assert(m2.contains_key(k) && m2[k] == m0[k]);
                        assert(!ids(tl2@).contains(k));
                        assert(!ids(sr).contains(k));
                        assert(k != id);
                        assert(!ids(t0).contains(k));
                    }
                    assert forall|k: SlotId| #[trigger] ids(t2@).contains(k)
                        implies ids(s).contains(k) by {
                        assert(ids(t0).contains(k));
                    }
                    if rbs(s) {
                        assert(rbs(sl) && rbs(sr) && bh(sl) == bh(sr));
                        assert(rbs(tl2@) && black_root(tl2@) && bh(tl2@) + 1 == bh(sl));
                        assert(scolor(t0) == Color::Red ==> black_root(sr));
                        assert(left_deficient(t0));
                        assert(rbs(t2@));
                        assert(black_root(s) ==> black_root(t2@));
                        assert(dfc2 ==> black_root(t2@));
                        assert(dfc2 ==> bh(t2@) + 1 == bh(s));
                        assert(!dfc2 ==> bh(t2@) == bh(s));
                    }
                }
                (Some(nid2), mv, dfc2, t2)
            } else {
                proof {
                    assert forall|k: SlotId| #[trigger] ids(t0).contains(k)
                        implies ids(s).contains(k) by {}
                    if rbs(s) {
                        assert(rbs(sl) && rbs(sr) && bh(sl) == bh(sr));
                        assert(rbs(tl2@) && bh(tl2@) == bh(sl));
                        assert(scolor(s) == Color::Red ==> black_root(sl) && black_root(sr));
                        assert(scolor(s) == Color::Red ==> black_root(tl2@));
                        assert(rbs(t0));
                        assert(bh(t0) == bh(s));
                    }
                }
                (Some(id), mv, false, Ghost(t0))
            }
        },
    }
}

/// Standard binary-search-tree deletion of a present value: a node with at
/// most one child is spliced out; a node with two children takes the value of
/// its in-order successor, the leftmost node of its right subtree, and that
/// node is the one unlinked. A black-height deficit left by the splice is
/// settled on the way back up by the delete fix-up; the second result
/// reports one still owed to the caller.
pub(crate) fn del_at(
    a: &mut generational_arena::Arena<Leaf>,
    link: Option<SlotId>,
    item: i64,
    Ghost(s): Ghost<Shape>,
) -> (res: (Option<SlotId>, bool, Ghost<Shape>))
    requires
        interp(arena_view(*old(a)), s),
        link == root_link(s),
        sorted(in_order(s)),
        in_order(s).to_set().contains(item),
    ensures
        interp(arena_view(*final(a)), res.2@),
        res.0 == root_link(res.2@),
        sorted(in_order(res.2@)),
        in_order(res.2@).to_set() == in_order(s).to_set().remove(item),
        in_order(res.2@).len() == in_order(s).len() - 1,
        agree_off(arena_view(*old(a)), arena_view(*final(a)), ids(s)),
        forall|k: SlotId| #[trigger] ids(res.2@).contains(k) ==> ids(s).contains(k),
        rbs(s) ==> (rbs(res.2@)
            && (black_root(s) ==> black_root(res.2@))
            && (res.1 ==> black_root(res.2@))
            && (res.1 ==> bh(res.2@) + 1 == bh(s))
            && (!res.1 ==> bh(res.2@) == bh(s))),
    decreases s,
{
    let ghost m0 = arena_view(*a);
    proof {
        if link.is_none() {
            assert(in_order(s) =~= Seq::<i64>::empty());
            assert(!in_order(s).to_set().contains(item));
        }
    }
    let id = link.unwrap();
    let nd = arena_get(a, id).unwrap();
    let ghost sl = sleft(s);
    let ghost sr = sright(s);
    let ghost il = in_order(sl);
    let ghost ir = in_order(sr);
    proof {
        lemma_sorted_mid(il, sval(s), ir);
        lemma_mid_to_set(il, sval(s), ir);
        lemma_ids_in_dom(m0, s);
    }
    if item < nd.data {
        proof {
            assert(in_order(s).to_set().contains(item) == il.to_set().contains(item));
        }
        let (lk2, dfc, tl2) = del_at(a, nd.left, item, Ghost(sl));
        let ghost m1 = arena_view(*a);
        arena_set(a, id, Leaf { data: nd.data, left: lk2, right: nd.right, color: nd.color });
        let ghost t0 = Shape::Node {
            id,
            color: scolor(s),
            val: sval(s),
            left: Box::new(tl2@),
            right: Box::new(sr),
        };
        proof {
            let m2 = arena_view(*a);
            assert(!ids(sl).contains(id));
            assert(m0.contains_key(id));
            assert(m1.contains_key(id) && m1[id] == m0[id]);
            assert forall|k: SlotId| #[trigger] ids(sr).contains(k)
                implies m2.contains_key(k) && m2[k] == m0[k] by {
                assert(ids(s).contains(k));
                assert(!ids(sl).contains(k));
                assert(m0.contains_key(k));
                assert(m1.contains_key(k) && m1[k] == m0[k]);
                assert(k != id);
            }
            lemma_interp_frame(m0, m2, sr);
            assert forall|k: SlotId| #[trigger] ids(tl2@).contains(k)
                implies m2.contains_key(k) && m2[k] == m1[k] by {
                lemma_ids_in_dom(m1, tl2@);
                assert(ids(sl).contains(k));
                assert(k != id);
            }
            lemma_interp_frame(m1, m2, tl2@);
            assert forall|k: SlotId| #[trigger] ids(tl2@).contains(k)
                implies !ids(sr).contains(k) && k != id by {
                assert(ids(sl).contains(k));
            }
            assert(interp(m2, t0));
            let il2 = in_order(tl2@);
            assert forall|i: int| 0 <= i < il2.len() implies il2[i] < sval(s) by {
                assert(il2.contains(il2[i]));
                assert(il2.to_set().contains(il2[i]));
                assert(il.to_set().contains(il2[i]));
                let w = choose|w: int| 0 <= w < il.len() && il[w] == il2[i];
                assert(il[w] < sval(s));
            }
            lemma_sorted_mid(il2, sval(s), ir);
            assert(sorted(in_order(t0)));
            lemma_mid_to_set(il2, sval(s), ir);
            assert(in_order(t0).to_set() =~= in_order(s).to_set().remove(item));
            assert forall|k: SlotId|
                m0.contains_key(k) && !ids(s).contains(k)
                implies m2.contains_key(k) && m2[k] == m0[k] by {
                assert(!ids(sl).contains(k));
                assert(m1.contains_key(k) && m1[k] == m0[k]);
                assert(k != id);
            }
        }
        if dfc {
            let ghost m2 = arena_view(*a);
            let (nid2, dfc2, t2) = fix_left(a, id, Ghost(t0));
            proof {
                let mf = arena_view(*a);
                assert forall|k: SlotId|
                    m0.contains_key(k) && !ids(s).contains(k)
                    implies mf.contains_key(k) && mf[k] == m0[k] by {
                    assert(m2.contains_key(k) && m2[k] == m0[k]);
                    assert(!ids(tl2@).contains(k));
                    assert(!ids(sr).contains(k));
                    assert(k != id);
                    assert(!ids(t0).contains(k));
                }
                assert forall|k: SlotId| #[trigger] ids(t2@).contains(k)
                    implies ids(s).contains(k) by {
                    assert(ids(t0).contains(k));
                }
                if rbs(s) {
                    assert(rbs(sl) && rbs(sr) && bh(sl) == bh(sr));
                    assert(rbs(tl2@) && black_root(tl2@) && bh(tl2@) + 1 == bh(sl));
                    assert(scolor(t0) == Color::Red ==> black_root(sr));
                    assert(left_deficient(t0));
                    assert(rbs(t2@));
                    assert(black_root(s) ==> black_root(t2@));
                    assert(dfc2 ==> black_root(t2@));
                    assert(dfc2 ==> bh(t2@) + 1 == bh(s));
                    assert(!dfc2 ==> bh(t2@) == bh(s));
                }
            }
            (Some(nid2), dfc2, t2)
        } else {
            proof {
                assert forall|k: SlotId| #[trigger] ids(t0).contains(k)
                    implies ids(s).contains(k) by {}
                if rbs(s) {
                    assert(rbs(sl) && rbs(sr) && bh(sl) == bh(sr));
                    assert(rbs(tl2@) && bh(tl2@) == bh(sl));
                    assert(scolor(s) == Color::Red ==> black_root(sl) && black_root(sr));
                    assert(scolor(s) == Color::Red ==> black_root(tl2@));
                    assert(rbs(t0));
                    assert(bh(t0) == bh(s));
                }
            }
            (Some(id), false, Ghost(t0))
        }
    } else if item > nd.data {
        proof {
            assert(in_order(s).to_set().contains(item) == ir.to_set().contains(item));
        }
        let (rk2, dfc, tr2) = del_at(a, nd.right, item, Ghost(sr));
        let ghost m1 = arena_view(*a);
        arena_set(a, id, Leaf { data: nd.data, left: nd.left, right: rk2, color: nd.color });
        let ghost t0 = Shape::Node {
            id,
            color: scolor(s),
            val: sval(s),
            left: Box::new(sl),
            right: Box::new(tr2@),
        };
        proof {
            let m2 = arena_view(*a);
            assert(!ids(sr).contains(id));
            assert(m0.contains_key(id));
            assert(m1.contains_key(id) && m1[id] == m0[id]);
            assert forall|k: SlotId| #[trigger] ids(sl).contains(k)
                implies m2.contains_key(k) && m2[k] == m0[k] by {
                assert(ids(s).contains(k));
                assert(!ids(sr).contains(k));
                assert(m0.contains_key(k));
                assert(m1.contains_key(k) && m1[k] == m0[k]);
                assert(k != id);
            }
            lemma_interp_frame(m0, m2, sl);
            assert forall|k: SlotId| #[trigger] ids(tr2@).contains(k)
                implies m2.contains_key(k) && m2[k] == m1[k] by {
                lemma_ids_in_dom(m1, tr2@);
                assert(ids(sr).contains(k));
                assert(k != id);
            }
            lemma_interp_frame(m1, m2, tr2@);
            assert forall|k: SlotId| #[trigger] ids(tr2@).contains(k)
                implies !ids(sl).contains(k) && k != id by {
                assert(ids(sr).contains(k));
            }
            assert(interp(m2, t0));
            let ir2 = in_order(tr2@);
            assert forall|i: int| 0 <= i < ir2.len() implies sval(s) < ir2[i] by {
                assert(ir2.contains(ir2[i]));
                assert(ir2.to_set().contains(ir2[i]));
                assert(ir.to_set().contains(ir2[i]));
                let w = choose|w: int| 0 <= w < ir.len() && ir[w] == ir2[i];
                assert(sval(s) < ir[w]);
            }
            lemma_sorted_mid(il, sval(s), ir2);
            assert(sorted(in_order(t0)));
            lemma_mid_to_set(il, sval(s), ir2);
            assert(in_order(t0).to_set() =~= in_order(s).to_set().remove(item));
            assert forall|k: SlotId|
                m0.contains_key(k) && !ids(s).contains(k)
                implies m2.contains_key(k) && m2[k] == m0[k] by {
                assert(!ids(sr).contains(k));
                assert(m1.contains_key(k) && m1[k] == m0[k]);
                assert(k != id);
            }
        }
        if dfc {
            let ghost m2 = arena_view(*a);
            let (nid2, dfc2, t2) = fix_right(a, id, Ghost(t0));
            proof {
                let mf = arena_view(*a);
                assert forall|k: SlotId|
                    m0.contains_key(k) && !ids(s).contains(k)
                    implies mf.contains_key(k) && mf[k] == m0[k] by {
                    assert(m2.contains_key(k) && m2[k] == m0[k]);
                    assert(!ids(tr2@).contains(k));
                    assert(!ids(sl).contains(k));
                    assert(k != id);
                    assert(!ids(t0).contains(k));
                }
                assert forall|k: SlotId| #[trigger] ids(t2@).contains(k)
                    implies ids(s).contains(k) by {
                    assert(ids(t0).contains(k));
                }
                if rbs(s) {
                    assert(rbs(sl) && rbs(sr) && bh(sl) == bh(sr));
                    assert(rbs(tr2@) && black_root(tr2@) && bh(tr2@) + 1 == bh(sr));
                    assert(scolor(t0) == Color::Red ==> black_root(sl));
                    assert(right_deficient(t0));
                    assert(rbs(t2@));
                    assert(black_root(s) ==> black_root(t2@));
                    assert(dfc2 ==> black_root(t2@));
                    assert(dfc2 ==> bh(t2@) + 1 == bh(s));
                    assert(!dfc2 ==> bh(t2@) == bh(s));
                }
            }
            (Some(nid2), dfc2, t2)
        } else {
            proof {
                assert forall|k: SlotId| #[trigger] ids(t0).contains(k)
                    implies ids(s).contains(k) by {}
                if rbs(s) {
                    assert(rbs(sl) && rbs(sr) && bh(sl) == bh(sr));
                    assert(rbs(tr2@) && bh(tr2@) == bh(sr));
                    assert(scolor(s) == Color::Red ==> black_root(sl) && black_root(sr));
                    assert(scolor(s) == Color::Red ==> black_root(tr2@));
                    assert(rbs(t0));
                    assert(bh(t0) == bh(s));
                }
            }
            (Some(id), false, Ghost(t0))
        }
    } else {
        if nd.left.is_none() {
            arena_remove(a, id);
            let ghost m2 = arena_view(*a);
            proof {
                assert(il =~= Seq::<i64>::empty());
                assert(in_order(s).to_set().remove(item) =~= ir.to_set());
                assert forall|k: SlotId| #[trigger] ids(sr).contains(k)
                    implies m2.contains_key(k) && m2[k] == m0[k] by {
                    assert(ids(s).contains(k));
                    assert(k != id);
                }
                lemma_interp_frame(m0, m2, sr);
            }
            let mut dfc = false;
            let mut out_t: Ghost<Shape> = Ghost(sright(s));
            if matches!(nd.color, Color::Black) {
                match nd.right {
                    Some(rid) => {
                        proof {
                            assert(interp(m2, sr));
                            assert(root_link(sr) == Some(rid));
                        }
                        let r_nd = arena_get(a, rid).unwrap();
                        if matches!(r_nd.color, Color::Red) {
                            out_t = set_color(a, rid, Color::Black, Ghost(sright(s)));
                        } else {
                            dfc = true;
                        }
                    },
                    None => {
                        dfc = true;
                    },
                }
            }
            proof {
                let mf = arena_view(*a);
                assert(in_order(out_t@) == ir);
                assert(root_link(out_t@) == nd.right);
                assert forall|k: SlotId|
                    m0.contains_key(k) && !ids(s).contains(k)
                    implies mf.contains_key(k) && mf[k] == m0[k] by {
                    assert(k != id);
                    assert(m2.contains_key(k) && m2[k] == m0[k]);
                    assert(!ids(sr).contains(k));
                }
                assert forall|k: SlotId| #[trigger] ids(out_t@).contains(k)
                    implies ids(s).contains(k) by {
                    assert(ids(sr).contains(k));
                }
                if rbs(s) {
                    assert(bh(sl) == bh(sr));
                    assert(bh(sl) == 0);
                    assert(rbs(sr));
                    assert(rbs(sleft(sr)) && rbs(sright(sr)));
                    assert(rbs(out_t@));
                    assert(black_root(s) ==> black_root(out_t@));
                    assert(dfc ==> black_root(out_t@));
                    assert(dfc ==> bh(out_t@) + 1 == bh(s));
                    assert(!dfc ==> bh(out_t@) == bh(s));
                }
            }
            (nd.right, dfc, out_t)
        } else if nd.right.is_none() {
            arena_remove(a, id);
            let ghost m2 = arena_view(*a);
            proof {
                assert(ir =~= Seq::<i64>::empty());
                assert(in_order(s) == il + seq![sval(s)] + ir);
                assert(in_order(s).to_set().remove(item) =~= il.to_set());
                assert(in_order(s).len() == il.len() + 1);
                assert forall|k: SlotId| #[trigger] ids(sl).contains(k)
                    implies m2.contains_key(k) && m2[k] == m0[k] by {
                    assert(ids(s).contains(k));
                    assert(k != id);
                }
                lemma_interp_frame(m0, m2, sl);
            }
            let mut dfc = false;
            let mut out_t: Ghost<Shape> = Ghost(sleft(s));
            if matches!(nd.color, Color::Black) {
                match nd.left {
                    Some(lid) => {
                        proof {
                            assert(interp(m2, sl));
                            assert(root_link(sl) == Some(lid));
                        }
                        let l_nd = arena_get(a, lid).unwrap();
                        if matches!(l_nd.color, Color::Red) {
                            out_t = set_color(a, lid, Color::Black, Ghost(sleft(s)));
                        } else {
                            dfc = true;
                        }
                    },
                    None => {
                        dfc = true;
                    },
                }
            }
            proof {
                let mf = arena_view(*a);
                assert(in_order(out_t@) == il);
                assert(root_link(out_t@) == nd.left);
                assert forall|k: SlotId|
                    m0.contains_key(k) && !ids(s).contains(k)
                    implies mf.contains_key(k) && mf[k] == m0[k] by {
                    assert(k != id);
                    assert(m2.contains_key(k) && m2[k] == m0[k]);
                    assert(!ids(sl).contains(k));
                }
                assert forall|k: SlotId| #[trigger] ids(out_t@).contains(k)
                    implies ids(s).contains(k) by {
                    assert(ids(sl).contains(k));
                }
                if rbs(s) {
                    assert(bh(sl) == bh(sr));
                    assert(bh(sr) == 0);
                    assert(rbs(sl));
                    assert(rbs(sleft(sl)) && rbs(sright(sl)));
                    assert(rbs(out_t@));
                    assert(black_root(s) ==> black_root(out_t@));
                    assert(dfc ==> black_root(out_t@));
                    assert(dfc ==> bh(out_t@) + 1 == bh(s));
                    assert(!dfc ==> bh(out_t@) == bh(s));
                }
            }
            (nd.left, dfc, out_t)
        } else {
            let (rk2, mv, dfc, tr2) = del_min(a, nd.right, Ghost(sr));
            let ghost m1 = arena_view(*a);
            arena_set(a, id, Leaf { data: mv, left: nd.left, right: rk2, color: nd.color });
            let ghost t0 = Shape::Node {
                id,
                color: scolor(s),
                val: mv,
                left: Box::new(sl),
                right: Box::new(tr2@),
            };
            proof {
                let m2 = arena_view(*a);
                assert(!ids(sr).contains(id));
                assert(m0.contains_key(id));
                assert(m1.contains_key(id) && m1[id] == m0[id]);
                assert forall|k: SlotId| #[trigger] ids(sl).contains(k)
                    implies m2.contains_key(k) && m2[k] == m0[k] by {
                    assert(ids(s).contains(k));
                    assert(!ids(sr).contains(k));
                    assert(m0.contains_key(k));
                    assert(m1.contains_key(k) && m1[k] == m0[k]);
                    assert(k != id);
                }
                lemma_interp_frame(m0, m2, sl);
                assert forall|k: SlotId| #[trigger] ids(tr2@).contains(k)
                    implies m2.contains_key(k) && m2[k] == m1[k] by {
                    lemma_ids_in_dom(m1, tr2@);
                    assert(ids(sr).contains(k));
                    assert(k != id);
                }
                lemma_interp_frame(m1, m2, tr2@);
                assert forall|k: SlotId| #[trigger] ids(tr2@).contains(k)
                    implies !ids(sl).contains(k) && k != id by {
                    assert(ids(sr).contains(k));
                }
                assert(interp(m2, t0));
                assert(ir.len() > 0);
                assert(mv == ir[0]);
                assert(ir.contains(mv));
                assert(ir.to_set().contains(mv));
                lemma_sorted_drop_first(ir);
                let ir2 = in_order(tr2@);
                assert(ir2 == ir.drop_first());
                assert forall|i: int| 0 <= i < il.len() implies il[i] < mv by {
                    let w = choose|w: int| 0 <= w < ir.len() && ir[w] == mv;
                    assert(il[i] < sval(s));
                    assert(sval(s) < ir[w]);
                }
                assert forall|j: int| 0 <= j < ir2.len() implies mv < ir2[j] by {}
                lemma_sorted_mid(il, mv, ir2);
                assert(sorted(in_order(t0)));
                lemma_mid_to_set(il, mv, ir2);
                assert(in_order(t0).to_set() =~= in_order(s).to_set().remove(item));
                assert(in_order(t0).len() == in_order(s).len() - 1);
                assert forall|k: SlotId|
                    m0.contains_key(k) && !ids(s).contains(k)
                    implies m2.contains_key(k) && m2[k] == m0[k] by {
                    assert(!ids(sr).contains(k));
                    assert(m1.contains_key(k) && m1[k] == m0[k]);
                    assert(k != id);
                }
            }
            if dfc {
                let ghost m2 = arena_view(*a);
                let (nid2, dfc2, t2) = fix_right(a, id, Ghost(t0));
                proof {
                    let mf = arena_view(*a);
                    assert forall|k: SlotId|
                        m0.contains_key(k) && !ids(s).contains(k)
                        implies mf.contains_key(k) && mf[k] == m0[k] by {
                        assert(m2.contains_key(k) && m2[k] == m0[k]);
                        assert(!ids(tr2@).contains(k));
                        assert(!ids(sl).contains(k));
                        assert(k != id);
                        assert(!ids(t0).contains(k));
                    }
                    assert forall|k: SlotId| #[trigger] ids(t2@).contains(k)
                        implies ids(s).contains(k) by {
                        assert(ids(t0).contains(k));
                    }
                    if rbs(s) {
                        assert(rbs(sl) && rbs(sr) && bh(sl) == bh(sr));
                        assert(rbs(tr2@) && black_root(tr2@) && bh(tr2@) + 1 == bh(sr));
                        assert(scolor(t0) == Color::Red ==> black_root(sl));
                        assert(right_deficient(t0));
                        assert(rbs(t2@));
                        assert(black_root(s) ==> black_root(t2@));
                        assert(dfc2 ==> black_root(t2@));
                        assert(dfc2 ==> bh(t2@) + 1 == bh(s));
                        assert(!dfc2 ==> bh(t2@) == bh(s));
                    }
                }
                (Some(nid2), dfc2, t2)
            } else {
                proof {
                    assert forall|k: SlotId| #[trigger] ids(t0).contains(k)
                        implies ids(s).contains(k) by {}
                    if rbs(s) {
                        assert(rbs(sl) && rbs(sr) && bh(sl) == bh(sr));
                        assert(rbs(tr2@) && bh(tr2@) == bh(sr));
                        assert(scolor(s) == Color::Red ==> black_root(sl) && black_root(sr));
                        assert(scolor(s) == Color::Red ==> black_root(tr2@));
                        assert(rbs(t0));
                        assert(bh(t0) == bh(s));
                    }
                }
                (Some(id), false, Ghost(t0))
            }
        }
    }
}

/// Delete fix-up step at `id` for a black-height deficit in the left subtree
/// when the sibling (the right child) is black or absent: a red far nephew is
/// absorbed by one rotation, a red near nephew by two; with both nephews
/// black the sibling turns red and the deficit moves up unless this node is
/// red and absorbs it.
pub(crate) fn fix_left_black(
    a: &mut generational_arena::Arena<Leaf>,
    id: SlotId,
    Ghost(t0): Ghost<Shape>,
) -> (res: (SlotId, bool, Ghost<Shape>))
    requires
        interp(arena_view(*old(a)), t0),
        is_node(t0),
        sid(t0) == id,
    ensures
        interp(arena_view(*final(a)), res.2@),
        is_node(res.2@),
        root_link(res.2@) == Some(res.0),
        in_order(res.2@) == in_order(t0),
        ids(res.2@) == ids(t0),
        arena_view(*final(a)).dom() == arena_view(*old(a)).dom(),
        agree_off(arena_view(*old(a)), arena_view(*final(a)), ids(t0)),
        (left_deficient(t0) && black_root(sright(t0))) ==> (rbs(res.2@)
            && (black_root(t0) ==> black_root(res.2@))
            && (res.1 ==> black_root(res.2@))
            && (scolor(t0) == Color::Red ==> !res.1)
            && (!res.1 ==> bh(res.2@) == bh(sright(t0))
                + (if scolor(t0) == Color::Black { 1nat } else { 0nat }))
            && (res.1 ==> bh(res.2@) + 1 == bh(sright(t0))
                + (if scolor(t0) == Color::Black { 1nat } else { 0nat }))),
{
    let ghost m0 = arena_view(*a);
    let ghost tl = sleft(t0);
    let ghost tr = sright(t0);
    let nd = arena_get(a, id).unwrap();
    let r_link = nd.right;
    match r_link {
        None => {
            proof {
                if left_deficient(t0) {
                    assert(bh(tr) == 0);
                }
            }
            (id, false, Ghost(t0))
        },
        Some(r_id) => {
            proof {
                assert(interp(m0, tr));
            }
            let r_nd = arena_get(a, r_id).unwrap();
            if matches!(r_nd.color, Color::Red) {
                proof {
                    if left_deficient(t0) && black_root(tr) {
                        assert(scolor(tr) == Color::Red);
                    }
                }
                (id, false, Ghost(t0))
            } else {
                let mut rr_red = false;
                if let Some(rr_id) = r_nd.right {
                    proof {
                        assert(interp(m0, sright(tr)));
                        assert(root_link(sright(tr)) == Some(rr_id));
                    }
                    let rr_nd = arena_get(a, rr_id).unwrap();
                    rr_red = matches!(rr_nd.color, Color::Red);
                }
                proof {
                    assert(rr_red == (is_node(sright(tr)) && scolor(sright(tr)) == Color::Red));
                }
                let mut rl_red = false;
                if let Some(rl_id) = r_nd.left {
                    proof {
                        assert(interp(m0, sleft(tr)));
                        assert(root_link(sleft(tr)) == Some(rl_id));
                    }
                    let rl_nd = arena_get(a, rl_id).unwrap();
                    rl_red = matches!(rl_nd.color, Color::Red);
                }
                proof {
                    assert(rl_red == (is_node(sleft(tr)) && scolor(sleft(tr)) == Color::Red));
                }
                if rr_red {
                    let c0 = nd.color;
                    let (nr, t1) = rotate_left(a, id, Ghost(t0));
                    let t1b = set_color(a, nr, c0, Ghost(t1@));
                    let t1c = color_left_child(a, nr, Color::Black, Ghost(t1b@));
                    let t1d = color_right_child(a, nr, Color::Black, Ghost(t1c@));
                    proof {
                        let mf = arena_view(*a);
                        assert(ids(t1@) == ids(t0));
                        assert(ids(t1b@) == ids(t0));
                        assert(ids(t1c@) == ids(t0));
                        assert forall|k: SlotId|
                            m0.contains_key(k) && !ids(t0).contains(k)
                            implies mf.contains_key(k) && mf[k] == m0[k] by {}
                        if left_deficient(t0) && black_root(tr) {
                            let rl = sleft(tr);
                            let rr = sright(tr);
                            assert(rbs(rl) && rbs(rr) && bh(rl) == bh(rr));
                            assert(bh(tr) == bh(rl) + 1);
                            assert(bh(tl) == bh(rl));
                            assert(scolor(rr) == Color::Red);
                            assert(black_root(sleft(rr)) && black_root(sright(rr)));
                            assert(rbs(sleft(t1d@)));
                            assert(bh(sleft(t1d@)) == bh(tl) + 1);
                            assert(rbs(sright(t1d@)));
                            assert(bh(sright(t1d@)) == bh(sleft(rr)) + 1);
                            assert(bh(sleft(rr)) == bh(rr));
                            assert(rbs(t1d@));
                            assert(bh(t1d@) == bh(tr)
                                + (if c0 == Color::Black { 1nat } else { 0nat }));
                        }
                    }
                    (nr, false, t1d)
                } else if rl_red {
                    let (nr2, tr2) = rotate_right(a, r_id, Ghost(tr));
                    let ghost m2 = arena_view(*a);
                    arena_set(a, id, Leaf { data: nd.data, left: nd.left, right: Some(nr2), color: nd.color });
                    let ghost t0b = Shape::Node {
                        id,
                        color: scolor(t0),
                        val: sval(t0),
                        left: Box::new(tl),
                        right: Box::new(tr2@),
                    };
                    proof {
                        let m3 = arena_view(*a);
                        assert(!ids(tr).contains(id));
                        assert(m2.contains_key(id) && m2[id] == m0[id]);
                        assert forall|k: SlotId| #[trigger] ids(tr2@).contains(k)
                            implies m3.contains_key(k) && m3[k] == m2[k] by {
                            lemma_ids_in_dom(m2, tr2@);
                            assert(ids(tr).contains(k));
                        }
                        lemma_interp_frame(m2, m3, tr2@);
                        assert forall|k: SlotId| #[trigger] ids(tl).contains(k)
                            implies m3.contains_key(k) && m3[k] == m0[k] by {
                            lemma_ids_in_dom(m0, t0);
                            assert(ids(t0).contains(k));
                            assert(!ids(tr).contains(k));
                        }
                        lemma_interp_frame(m0, m3, tl);
                        assert(ids(tr2@) == ids(tr));
                        assert(interp(m3, t0b));
                        assert(in_order(t0b) =~= in_order(t0));
                        assert(ids(t0b) =~= ids(t0));
                    }
                    let c0 = nd.color;
                    let (nr, t1) = rotate_left(a, id, Ghost(t0b));
                    let t1b = set_color(a, nr, c0, Ghost(t1@));
                    let t1c = color_left_child(a, nr, Color::Black, Ghost(t1b@));
                    proof {
                        let mf = arena_view(*a);
                        assert(ids(t0b) == ids(t0));
                        assert(ids(t1@) == ids(t0));
                        assert(ids(t1b@) == ids(t0));
                        assert forall|k: SlotId|
                            m0.contains_key(k) && !ids(t0).contains(k)
                            implies mf.contains_key(k) && mf[k] == m0[k] by {
                            assert(m2.contains_key(k) && m2[k] == m0[k]);
                            assert(k != id);
                        }
                        if left_deficient(t0) && black_root(tr) {
                            let rl = sleft(tr);
                            let rr = sright(tr);
                            assert(rbs(rl) && rbs(rr) && bh(rl) == bh(rr));
                            assert(bh(tr) == bh(rl) + 1);
                            assert(bh(tl) == bh(rl));
                            assert(scolor(rl) == Color::Red);
                            assert(rbs(sleft(rl)) && rbs(sright(rl)));
                            assert(bh(sleft(rl)) == bh(sright(rl)));
                            assert(black_root(sleft(rl)) && black_root(sright(rl)));
                            assert(bh(rl) == bh(sleft(rl)));
                            assert(black_root(rr));
                            assert(rbs(sleft(t1c@)));
                            assert(bh(sleft(t1c@)) == bh(tl) + 1);
                            assert(rbs(sright(t1c@)));
                            assert(bh(sright(t1c@)) == bh(sright(rl)) + 1);
                            assert(rbs(t1c@));
                            assert(bh(t1c@) == bh(tr)
                                + (if c0 == Color::Black { 1nat } else { 0nat }));
                        }
                    }
                    (nr, false, t1c)
                } else {
                    let t0b = color_right_child(a, id, Color::Red, Ghost(t0));
                    proof {
                        if left_deficient(t0) && black_root(tr) {
                            assert(black_root(sleft(tr)) && black_root(sright(tr)));
                            assert(rbs(sright(t0b@)));
                            assert(bh(sright(t0b@)) == bh(sleft(tr)));
                            assert(bh(sleft(tr)) + 1 == bh(tr));
                            assert(bh(sright(t0b@)) == bh(tl));
                        }
                    }
                    if matches!(nd.color, Color::Red) {
                        let t0c = set_color(a, id, Color::Black, Ghost(t0b@));
                        proof {
                            let mf = arena_view(*a);
                            assert(ids(t0b@) == ids(t0));
                            assert forall|k: SlotId|
                                m0.contains_key(k) && !ids(t0).contains(k)
                                implies mf.contains_key(k) && mf[k] == m0[k] by {}
                            if left_deficient(t0) && black_root(tr) {
                                assert(rbs(t0c@));
                                assert(bh(t0c@) == bh(tl) + 1);
                            }
                        }
                        (id, false, t0c)
                    } else {
                        proof {
                            if left_deficient(t0) && black_root(tr) {
                                assert(rbs(t0b@));
                                assert(bh(t0b@) == bh(tl) + 1);
                            }
                        }
                        (id, true, t0b)
                    }
                }
            }
        },
    }
}

/// Mirror image of `fix_left_black`: delete fix-up at `id` for a deficit in
/// the right subtree when the sibling (the left child) is black or absent.
pub(crate) fn fix_right_black(
    a: &mut generational_arena::Arena<Leaf>,
    id: SlotId,
    Ghost(t0): Ghost<Shape>,
) -> (res: (SlotId, bool, Ghost<Shape>))
    requires
        interp(arena_view(*old(a)), t0),
        is_node(t0),
        sid(t0) == id,
    ensures
        interp(arena_view(*final(a)), res.2@),
        is_node(res.2@),
        root_link(res.2@) == Some(res.0),
        in_order(res.2@) == in_order(t0),
        ids(res.2@) == ids(t0),
        arena_view(*final(a)).dom() == arena_view(*old(a)).dom(),
        agree_off(arena_view(*old(a)), arena_view(*final(a)), ids(t0)),
        (right_deficient(t0) && black_root(sleft(t0))) ==> (rbs(res.2@)
            && (black_root(t0) ==> black_root(res.2@))
            && (res.1 ==> black_root(res.2@))
            && (scolor(t0) == Color::Red ==> !res.1)
            && (!res.1 ==> bh(res.2@) == bh(sleft(t0))
                + (if scolor(t0) == Color::Black { 1nat } else { 0nat }))
            && (res.1 ==> bh(res.2@) + 1 == bh(sleft(t0))
                + (if scolor(t0) == Color::Black { 1nat } else { 0nat }))),
{
    let ghost m0 = arena_view(*a);
    let ghost tl = sleft(t0);
    let ghost tr = sright(t0);
    let nd = arena_get(a, id).unwrap();
    let l_link = nd.left;
    match l_link {
        None => {
            proof {
                if right_deficient(t0) {
                    assert(bh(tl) == 0);
                }
            }
            (id, false, Ghost(t0))
        },
        Some(l_id) => {
            proof {
                assert(interp(m0, tl));
            }
            let l_nd = arena_get(a, l_id).unwrap();
            if matches!(l_nd.color, Color::Red) {
                proof {
                    if right_deficient(t0) && black_root(tl) {
                        assert(scolor(tl) == Color::Red);
                    }
                }
                (id, false, Ghost(t0))
            } else {
                let mut ll_red = false;
                if let Some(ll_id) = l_nd.left {
                    proof {
                        assert(interp(m0, sleft(tl)));
                        assert(root_link(sleft(tl)) == Some(ll_id));
                    }
                    let ll_nd = arena_get(a, ll_id).unwrap();
                    ll_red = matches!(ll_nd.color, Color::Red);
                }
                proof {
                    assert(ll_red == (is_node(sleft(tl)) && scolor(sleft(tl)) == Color::Red));
                }
                let mut lr_red = false;
                if let Some(lr_id) = l_nd.right {
                    proof {
                        assert(interp(m0, sright(tl)));
                        assert(root_link(sright(tl)) == Some(lr_id));
                    }
                    let lr_nd = arena_get(a, lr_id).unwrap();
                    lr_red = matches!(lr_nd.color, Color::Red);
                }
                proof {
                    assert(lr_red == (is_node(sright(tl)) && scolor(sright(tl)) == Color::Red));
                }
                if ll_red {
                    let c0 = nd.color;
                    let (nr, t1) = rotate_right(a, id, Ghost(t0));
                    let t1b = set_color(a, nr, c0, Ghost(t1@));
                    let t1c = color_right_child(a, nr, Color::Black, Ghost(t1b@));
                    let t1d = color_left_child(a, nr, Color::Black, Ghost(t1c@));
                    proof {
                        let mf = arena_view(*a);
                        assert(ids(t1@) == ids(t0));
                        assert(ids(t1b@) == ids(t0));
                        assert(ids(t1c@) == ids(t0));
                        assert forall|k: SlotId|
                            m0.contains_key(k) && !ids(t0).contains(k)
                            implies mf.contains_key(k) && mf[k] == m0[k] by {}
                        if right_deficient(t0) && black_root(tl) {
                            let ll = sleft(tl);
                            let lr = sright(tl);
                            assert(rbs(ll) && rbs(lr) && bh(ll) == bh(lr));
                            assert(bh(tl) == bh(ll) + 1);
                            assert(bh(tr) == bh(ll));
                            assert(scolor(ll) == Color::Red);
                            assert(black_root(sleft(ll)) && black_root(sright(ll)));
                            assert(rbs(sright(t1d@)));
                            assert(bh(sright(t1d@)) == bh(tr) + 1);
                            assert(rbs(sleft(t1d@)));
                            assert(bh(sleft(t1d@)) == bh(sleft(ll)) + 1);
                            assert(bh(sleft(ll)) == bh(ll));
                            assert(rbs(t1d@));
                            assert(bh(t1d@) == bh(tl)
                                + (if c0 == Color::Black { 1nat } else { 0nat }));
                        }
                    }
                    (nr, false, t1d)
                } else if lr_red {
                    let (nl2, tl2) = rotate_left(a, l_id, Ghost(tl));
                    let ghost m2 = arena_view(*a);
                    arena_set(a, id, Leaf { data: nd.data, left: Some(nl2), right: nd.right, color: nd.color });
                    let ghost t0b = Shape::Node {
                        id,
                        color: scolor(t0),
                        val: sval(t0),
                        left: Box::new(tl2@),
                        right: Box::new(tr),
                    };
                    proof {
                        let m3 = arena_view(*a);
                        assert(!ids(tl).contains(id));
                        assert(m2.contains_key(id) && m2[id] == m0[id]);
                        assert forall|k: SlotId| #[trigger] ids(tl2@).contains(k)
                            implies m3.contains_key(k) && m3[k] == m2[k] by {
                            lemma_ids_in_dom(m2, tl2@);
                            assert(ids(tl).contains(k));
                        }
                        lemma_interp_frame(m2, m3, tl2@);
                        assert forall|k: SlotId| #[trigger] ids(tr).contains(k)
                            implies m3.contains_key(k) && m3[k] == m0[k] by {
                            lemma_ids_in_dom(m0, t0);
                            assert(ids(t0).contains(k));
                            assert(!ids(tl).contains(k));
                        }
                        lemma_interp_frame(m0, m3, tr);
                        assert(ids(tl2@) == ids(tl));
                        assert(interp(m3, t0b));
                        assert(in_order(t0b) =~= in_order(t0));
                        assert(ids(t0b) =~= ids(t0));
                    }
                    let c0 = nd.color;
                    let (nr, t1) = rotate_right(a, id, Ghost(t0b));
                    let t1b = set_color(a, nr, c0, Ghost(t1@));
                    let t1c = color_right_child(a, nr, Color::Black, Ghost(t1b@));
                    proof {
                        let mf = arena_view(*a);
                        assert(ids(t0b) == ids(t0));
                        assert(ids(t1@) == ids(t0));
                        assert(ids(t1b@) == ids(t0));
                        assert forall|k: SlotId|
                            m0.contains_key(k) && !ids(t0).contains(k)
                            implies mf.contains_key(k) && mf[k] == m0[k] by {
                            assert(m2.contains_key(k) && m2[k] == m0[k]);
                            assert(k != id);
                        }
                        if right_deficient(t0) && black_root(tl) {
                            let ll = sleft(tl);
                            let lr = sright(tl);
                            assert(rbs(ll) && rbs(lr) && bh(ll) == bh(lr));
                            assert(bh(tl) == bh(ll) + 1);
                            assert(bh(tr) == bh(ll));
                            assert(scolor(lr) == Color::Red);
                            assert(rbs(sleft(lr)) && rbs(sright(lr)));
                            assert(bh(sleft(lr)) == bh(sright(lr)));
                            assert(black_root(sleft(lr)) && black_root(sright(lr)));
                            assert(bh(lr) == bh(sleft(lr)));
                            assert(black_root(ll));
                            assert(rbs(sright(t1c@)));
                            assert(bh(sright(t1c@)) == bh(tr) + 1);
                            assert(rbs(sleft(t1c@)));
                            assert(bh(sleft(t1c@)) == bh(sleft(lr)) + 1);
                            assert(rbs(t1c@));
                            assert(bh(t1c@) == bh(tl)
                                + (if c0 == Color::Black { 1nat } else { 0nat }));
                        }
                    }
                    (nr, false, t1c)
                } else {
                    let t0b = color_left_child(a, id, Color::Red, Ghost(t0));
                    proof {
                        if right_deficient(t0) && black_root(tl) {
                            assert(black_root(sleft(tl)) && black_root(sright(tl)));
                            assert(rbs(sleft(t0b@)));
                            assert(bh(sleft(t0b@)) == bh(sleft(tl)));
                            assert(bh(sleft(tl)) + 1 == bh(tl));
                            assert(bh(sleft(t0b@)) == bh(tr));
                        }
                    }
                    if matches!(nd.color, Color::Red) {
                        let t0c = set_color(a, id, Color::Black, Ghost(t0b@));
                        proof {
                            let mf = arena_view(*a);
                            assert(ids(t0b@) == ids(t0));
                            assert forall|k: SlotId|
                                m0.contains_key(k) && !ids(t0).contains(k)
                                implies mf.contains_key(k) && mf[k] == m0[k] by {}
                            if right_deficient(t0) && black_root(tl) {
                                assert(rbs(t0c@));
                                assert(bh(t0c@) == bh(tr) + 1);
                            }
                        }
                        (id, false, t0c)
                    } else {
                        proof {
                            if right_deficient(t0) && black_root(tl) {
                                assert(rbs(t0b@));
                                assert(bh(t0b@) == bh(tr) + 1);
                            }
                        }
                        (id, true, t0b)
                    }
                }
            }
        },
    }
}

/// Delete fix-up at `id` for a black-height deficit in the left subtree. A
/// red sibling is first rotated into a black one (the node turning red, the
/// sibling black), after which one more local step settles the deficit.
pub(crate) fn fix_left(
    a: &mut generational_arena::Arena<Leaf>,
    id: SlotId,
    Ghost(t0): Ghost<Shape>,
) -> (res: (SlotId, bool, Ghost<Shape>))
    requires
        interp(arena_view(*old(a)), t0),
        is_node(t0),
        sid(t0) == id,
    ensures
        interp(arena_view(*final(a)), res.2@),
        is_node(res.2@),
        root_link(res.2@) == Some(res.0),
        in_order(res.2@) == in_order(t0),
        ids(res.2@) == ids(t0),
        arena_view(*final(a)).dom() == arena_view(*old(a)).dom(),
        agree_off(arena_view(*old(a)), arena_view(*final(a)), ids(t0)),
        left_deficient(t0) ==> (rbs(res.2@)
            && (black_root(t0) ==> black_root(res.2@))
            && (res.1 ==> black_root(res.2@))
            && (scolor(t0) == Color::Red ==> !res.1)
            && (!res.1 ==> bh(res.2@) == bh(sright(t0))
                + (if scolor(t0) == Color::Black { 1nat } else { 0nat }))
            && (res.1 ==> bh(res.2@) + 1 == bh(sright(t0))
                + (if scolor(t0) == Color::Black { 1nat } else { 0nat }))),
{
    let ghost m0 = arena_view(*a);
    let ghost tr = sright(t0);
    let nd = arena_get(a, id).unwrap();
    let mut sib_red = false;
    if let Some(r_id) = nd.right {
        proof {
            assert(interp(m0, tr));
        }
        let r_nd = arena_get(a, r_id).unwrap();
        sib_red = matches!(r_nd.color, Color::Red);
    }
    proof {
        assert(sib_red == (is_node(tr) && scolor(tr) == Color::Red));
    }
    if !sib_red {
        fix_left_black(a, id, Ghost(t0))
    } else {
        let t0b = set_color(a, id, Color::Red, Ghost(t0));
        let t0c = color_right_child(a, id, Color::Black, Ghost(t0b@));
        let (nr, t1) = rotate_left(a, id, Ghost(t0c@));
        let ghost mr = arena_view(*a);
        let (lk2, dfc2, t2) = fix_left_black(a, id, Ghost(sleft(t1@)));
        let ghost m4 = arena_view(*a);
        proof {
            assert(interp(mr, t1@));
            assert(!ids(sleft(t1@)).contains(nr));
            assert(mr.contains_key(nr));
            assert(m4.contains_key(nr) && m4[nr] == mr[nr]);
        }
        let nr_nd = arena_get(a, nr).unwrap();
        arena_set(a, nr, Leaf { data: nr_nd.data, left: Some(lk2), right: nr_nd.right, color: nr_nd.color });
        let ghost t3 = Shape::Node {
            id: nr,
            color: scolor(t1@),
            val: sval(t1@),
            left: Box::new(t2@),
            right: Box::new(sright(t1@)),
        };
        proof {
            let m5 = arena_view(*a);
            assert(ids(t0b@) == ids(t0));
            assert(ids(t0c@) == ids(t0));
            assert(ids(t1@) == ids(t0));
            assert forall|k: SlotId| #[trigger] ids(sleft(t1@)).contains(k)
                implies ids(t1@).contains(k) by {}
            assert forall|k: SlotId| #[trigger] ids(sright(t1@)).contains(k)
                implies ids(t1@).contains(k) by {}
            assert forall|k: SlotId| #[trigger] ids(t2@).contains(k)
                implies m5.contains_key(k) && m5[k] == m4[k] by {
                lemma_ids_in_dom(m4, t2@);
                assert(!ids(sleft(t1@)).contains(nr));
                assert(k != nr);
            }
            lemma_interp_frame(m4, m5, t2@);
            assert forall|k: SlotId| #[trigger] ids(sright(t1@)).contains(k)
                implies m5.contains_key(k) && m5[k] == mr[k] by {
                lemma_ids_in_dom(mr, t1@);
                assert(ids(t1@).contains(k));
                assert(!ids(sleft(t1@)).contains(k));
                assert(m4.contains_key(k) && m4[k] == mr[k]);
                assert(k != nr);
            }
            lemma_interp_frame(mr, m5, sright(t1@));
            assert(ids(t2@) == ids(sleft(t1@)));
            assert(interp(m5, t3));
            assert(in_order(t3) =~= in_order(t1@));
            assert(ids(t3) =~= ids(t1@));
            assert(m5.dom() =~= m4.dom());
            assert forall|k: SlotId|
                m0.contains_key(k) && !ids(t0).contains(k)
                implies m5.contains_key(k) && m5[k] == m0[k] by {
                assert(mr.contains_key(k) && mr[k] == m0[k]);
                assert(!ids(sleft(t1@)).contains(k));
                assert(m4.contains_key(k) && m4[k] == mr[k]);
                assert(k != nr);
            }
            if left_deficient(t0) {
                let tl = sleft(t0);
                let rl = sleft(tr);
                let rr = sright(tr);
                assert(scolor(tr) == Color::Red);
                assert(scolor(t0) == Color::Black);
                assert(rbs(rl) && rbs(rr) && bh(rl) == bh(rr));
                assert(black_root(rl) && black_root(rr));
                assert(bh(tr) == bh(rl));
                assert(bh(tl) + 1 == bh(rl));
                assert(sleft(t1@) == (Shape::Node {
                    id,
                    color: Color::Red,
                    val: sval(t0),
                    left: Box::new(tl),
                    right: Box::new(rl),
                }));
                assert(left_deficient(sleft(t1@)));
                assert(black_root(sright(sleft(t1@))));
                assert(!dfc2);
                assert(rbs(t2@) && bh(t2@) == bh(rl));
                assert(rbs(t3));
                assert(bh(t3) == bh(rl) + 1);
                assert(black_root(t3));
            }
        }
        (nr, false, Ghost(t3))
    }
}

/// Mirror image of `fix_left`: delete fix-up at `id` for a black-height
/// deficit in the right subtree.
pub(crate) fn fix_right(
    a: &mut generational_arena::Arena<Leaf>,
    id: SlotId,
    Ghost(t0): Ghost<Shape>,
) -> (res: (SlotId, bool, Ghost<Shape>))
    requires
        interp(arena_view(*old(a)), t0),
        is_node(t0),
        sid(t0) == id,
    ensures
        interp(arena_view(*final(a)), res.2@),
        is_node(res.2@),
        root_link(res.2@) == Some(res.0),
        in_order(res.2@) == in_order(t0),
        ids(res.2@) == ids(t0),
        arena_view(*final(a)).dom() == arena_view(*old(a)).dom(),
        agree_off(arena_view(*old(a)), arena_view(*final(a)), ids(t0)),
        right_deficient(t0) ==> (rbs(res.2@)
            && (black_root(t0) ==> black_root(res.2@))
            && (res.1 ==> black_root(res.2@))
            && (scolor(t0) == Color::Red ==> !res.1)
            && (!res.1 ==> bh(res.2@) == bh(sleft(t0))
                + (if scolor(t0) == Color::Black { 1nat } else { 0nat }))
            && (res.1 ==> bh(res.2@) + 1 == bh(sleft(t0))
                + (if scolor(t0) == Color::Black { 1nat } else { 0nat }))),
{
    let ghost m0 = arena_view(*a);
    let ghost tl = sleft(t0);
    let nd = arena_get(a, id).unwrap();
    let mut sib_red = false;
    if let Some(l_id) = nd.left {
        proof {
            assert(interp(m0, tl));
        }
        let l_nd = arena_get(a, l_id).unwrap();
        sib_red = matches!(l_nd.color, Color::Red);
    }
    proof {
        assert(sib_red == (is_node(tl) && scolor(tl) == Color::Red));
    }
    if !sib_red {
        fix_right_black(a, id, Ghost(t0))
    } else {
        let t0b = set_color(a, id, Color::Red, Ghost(t0));
        let t0c = color_left_child(a, id, Color::Black, Ghost(t0b@));
        let (nr, t1) = rotate_right(a, id, Ghost(t0c@));
        let ghost mr = arena_view(*a);
        let (lk2, dfc2, t2) = fix_right_black(a, id, Ghost(sright(t1@)));
        let ghost m4 = arena_view(*a);
        proof {
            assert(interp(mr, t1@));
            assert(!ids(sright(t1@)).contains(nr));
            assert(mr.contains_key(nr));
            assert(m4.contains_key(nr) && m4[nr] == mr[nr]);
        }
        let nr_nd = arena_get(a, nr).unwrap();
        arena_set(a, nr, Leaf { data: nr_nd.data, left: nr_nd.left, right: Some(lk2), color: nr_nd.color });
        let ghost t3 = Shape::Node {
            id: nr,
            color: scolor(t1@),
            val: sval(t1@),
            left: Box::new(sleft(t1@)),
            right: Box::new(t2@),
        };
        proof {
            let m5 = arena_view(*a);
            assert(ids(t0b@) == ids(t0));
            assert(ids(t0c@) == ids(t0));
            assert(ids(t1@) == ids(t0));
            assert forall|k: SlotId| #[trigger] ids(sright(t1@)).contains(k)
                implies ids(t1@).contains(k) by {}
            assert forall|k: SlotId| #[trigger] ids(sleft(t1@)).contains(k)
                implies ids(t1@).contains(k) by {}
            assert forall|k: SlotId| #[trigger] ids(t2@).contains(k)
                implies m5.contains_key(k) && m5[k] == m4[k] by {
                lemma_ids_in_dom(m4, t2@);
                assert(!ids(sright(t1@)).contains(nr));
                assert(k != nr);
            }
            lemma_interp_frame(m4, m5, t2@);
            assert forall|k: SlotId| #[trigger] ids(sleft(t1@)).contains(k)
                implies m5.contains_key(k) && m5[k] == mr[k] by {
                lemma_ids_in_dom(mr, t1@);
                assert(ids(t1@).contains(k));
                assert(!ids(sright(t1@)).contains(k));
                assert(m4.contains_key(k) && m4[k] == mr[k]);
                assert(k != nr);
            }
            lemma_interp_frame(mr, m5, sleft(t1@));
            assert(ids(t2@) == ids(sright(t1@)));
            assert(interp(m5, t3));
            assert(in_order(t3) =~= in_order(t1@));
            assert(ids(t3) =~= ids(t1@));
            assert(m5.dom() =~= m4.dom());
            assert forall|k: SlotId|
                m0.contains_key(k) && !ids(t0).contains(k)
                implies m5.contains_key(k) && m5[k] == m0[k] by {
                assert(mr.contains_key(k) && mr[k] == m0[k]);
                assert(!ids(sright(t1@)).contains(k));
                assert(m4.contains_key(k) && m4[k] == mr[k]);
                assert(k != nr);
            }
            if right_deficient(t0) {
                let trr = sright(t0);
                let ll = sleft(tl);
                let lr = sright(tl);
                assert(scolor(tl) == Color::Red);
                assert(scolor(t0) == Color::Black);
                assert(rbs(ll) && rbs(lr) && bh(ll) == bh(lr));
                assert(black_root(ll) && black_root(lr));
                assert(bh(tl) == bh(ll));
                assert(bh(trr) + 1 == bh(lr));
                assert(sright(t1@) == (Shape::Node {
                    id,
                    color: Color::Red,
                    val: sval(t0),
                    left: Box::new(lr),
                    right: Box::new(trr),
                }));
                assert(right_deficient(sright(t1@)));
                assert(black_root(sleft(sright(t1@))));
                assert(!dfc2);
                assert(rbs(t2@) && bh(t2@) == bh(lr));
                assert(rbs(t3));
                assert(bh(t3) == bh(lr) + 1);
                assert(black_root(t3));
            }
        }
        (nr, false, Ghost(t3))
    }
}

} // verus!
