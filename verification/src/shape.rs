use vstd::prelude::*;

use crate::store::{Color, Leaf, SlotId};

verus! {

/// Ghost model of one subtree: which slot each node occupies, its color and
/// value, and the two subtrees. The executable code keeps a `Shape` alongside
/// the arena; `interp` ties the two together.
pub(crate) enum Shape {
    Tip,
    Node { id: SlotId, color: Color, val: i64, left: Box<Shape>, right: Box<Shape> },
}

pub(crate) open spec fn root_link(s: Shape) -> Option<SlotId> {
    match s {
        Shape::Tip => None,
        Shape::Node { id, .. } => Some(id),
    }
}

pub(crate) open spec fn is_node(s: Shape) -> bool {
    s matches Shape::Node { .. }
}

pub(crate) open spec fn sid(s: Shape) -> SlotId {
    match s {
        Shape::Tip => vstd::pervasive::arbitrary(),
        Shape::Node { id, .. } => id,
    }
}

pub(crate) open spec fn scolor(s: Shape) -> Color {
    match s {
        Shape::Tip => Color::Black,
        Shape::Node { color, .. } => color,
    }
}

pub(crate) open spec fn sval(s: Shape) -> i64 {
    match s {
        Shape::Tip => vstd::pervasive::arbitrary(),
        Shape::Node { val, .. } => val,
    }
}

pub(crate) open spec fn sleft(s: Shape) -> Shape {
    match s {
        Shape::Tip => Shape::Tip,
        Shape::Node { left, .. } => *left,
    }
}

pub(crate) open spec fn sright(s: Shape) -> Shape {
    match s {
        Shape::Tip => Shape::Tip,
        Shape::Node { right, .. } => *right,
    }
}

/// The set of slot identifiers used by a subtree.
pub(crate) open spec fn ids(s: Shape) -> Set<SlotId>
    decreases s,
{
    match s {
        Shape::Tip => Set::empty(),
        Shape::Node { id, left, right, .. } => ids(*left).union(ids(*right)).insert(id),
    }
}

/// The arena realizes the modelled subtree: every modelled node is live, its
/// record carries the modelled value, color and links, and the slot sets of
/// distinct subtrees do not overlap (so the structure is a tree).
pub(crate) open spec fn interp(m: Map<SlotId, Leaf>, s: Shape) -> bool
    decreases s,
{
    match s {
        Shape::Tip => true,
        Shape::Node { id, color, val, left, right } => {
            &&& m.contains_key(id)
            &&& m[id].data == val
            &&& m[id].color == color
            &&& m[id].left == root_link(*left)
            &&& m[id].right == root_link(*right)
            &&& interp(m, *left)
            &&& interp(m, *right)
            &&& !ids(*left).contains(id)
            &&& !ids(*right).contains(id)
            &&& ids(*left).disjoint(ids(*right))
        },
    }
}

/// In-order walk: left subtree, node, right subtree.
pub(crate) open spec fn in_order(s: Shape) -> Seq<i64>
    decreases s,
{
    match s {
        Shape::Tip => Seq::empty(),
        Shape::Node { val, left, right, .. } => in_order(*left) + seq![val] + in_order(*right),
    }
}

/// Pre-order walk: node, left subtree, right subtree.
pub(crate) open spec fn pre_order(s: Shape) -> Seq<i64>
    decreases s,
{
    match s {
        Shape::Tip => Seq::empty(),
        Shape::Node { val, left, right, .. } => seq![val] + pre_order(*left) + pre_order(*right),
    }
}

/// Strictly ascending: the binary-search order with no duplicates.
pub(crate) open spec fn sorted(q: Seq<i64>) -> bool {
    forall|i: int, j: int| 0 <= i < j < q.len() ==> q[i] < q[j]
}

pub(crate) open spec fn black_root(s: Shape) -> bool {
    match s {
        Shape::Tip => true,
        Shape::Node { color, .. } => color == Color::Black,
    }
}

/// Black-height: black nodes on the path to the leftmost absent leaf.
pub(crate) open spec fn bh(s: Shape) -> nat
    decreases s,
{
    match s {
        Shape::Tip => 0,
        Shape::Node { color, left, .. } => bh(*left) + if color == Color::Black { 1nat } else { 0nat },
    }
}

/// The red-black invariants below a node: no red node has a red child, and
/// both subtrees of every node have equal black-height.
pub(crate) open spec fn rbs(s: Shape) -> bool
    decreases s,
{
    match s {
        Shape::Tip => true,
        Shape::Node { color, left, right, .. } => {
            &&& rbs(*left)
            &&& rbs(*right)
            &&& bh(*left) == bh(*right)
            &&& (color == Color::Red ==> black_root(*left) && black_root(*right))
        },
    }
}

/// Almost red-black: both subtrees are valid with equal black-height, but the
/// root may be red with a red child. Insertion passes through such states.
pub(crate) open spec fn arb(s: Shape) -> bool {
    match s {
        Shape::Tip => true,
        Shape::Node { left, right, .. } => rbs(*left) && rbs(*right) && bh(*left) == bh(*right),
    }
}

/// Nodes on the longest root-to-leaf path.
pub(crate) open spec fn height(s: Shape) -> nat
    decreases s,
{
    match s {
        Shape::Tip => 0,
        Shape::Node { left, right, .. } => 1 + if height(*left) >= height(*right) {
            height(*left)
        } else {
            height(*right)
        },
    }
}

/// The maps agree, key for key, everywhere outside `ks`.
pub(crate) open spec fn agree_off(m1: Map<SlotId, Leaf>, m2: Map<SlotId, Leaf>, ks: Set<SlotId>) -> bool {
    forall|k: SlotId|
        m1.contains_key(k) && !ks.contains(k) ==> m2.contains_key(k) && m2[k] == m1[k]
}

pub(crate) proof fn lemma_ids_in_dom(m: Map<SlotId, Leaf>, s: Shape)
    requires
        interp(m, s),
    ensures
        forall|k: SlotId| ids(s).contains(k) ==> m.contains_key(k),
    decreases s,
{
    match s {
        Shape::Tip => {},
        Shape::Node { left, right, .. } => {
            lemma_ids_in_dom(m, *left);
            lemma_ids_in_dom(m, *right);
        },
    }
}

/// A subtree's interpretation depends only on the entries at its own slots.
pub(crate) proof fn lemma_interp_frame(m1: Map<SlotId, Leaf>, m2: Map<SlotId, Leaf>, s: Shape)
    requires
        interp(m1, s),
        forall|k: SlotId| #[trigger] ids(s).contains(k) ==> m2.contains_key(k) && m2[k] == m1[k],
    ensures
        interp(m2, s),
    decreases s,
{
    match s {
        Shape::Tip => {},
        Shape::Node { id, left, right, .. } => {
            assert(ids(s).contains(id));
            assert(forall|k: SlotId| ids(*left).contains(k) ==> ids(s).contains(k));
            assert(forall|k: SlotId| ids(*right).contains(k) ==> ids(s).contains(k));
            assert forall|k: SlotId|
                ids(*left).contains(k) implies m2.contains_key(k) && m2[k] == m1[k] by {
                assert(ids(s).contains(k));
            }
            assert forall|k: SlotId|
                ids(*right).contains(k) implies m2.contains_key(k) && m2[k] == m1[k] by {
                assert(ids(s).contains(k));
            }
            lemma_interp_frame(m1, m2, *left);
            lemma_interp_frame(m1, m2, *right);
        },
    }
}

/// A three-part concatenation is strictly sorted exactly when its parts are
/// and the middle element separates them.
pub(crate) proof fn lemma_sorted_mid(a: Seq<i64>, x: i64, b: Seq<i64>)
    ensures
        sorted(a + seq![x] + b) <==> (sorted(a) && sorted(b)
            && (forall|i: int| 0 <= i < a.len() ==> a[i] < x)
            && (forall|j: int| 0 <= j < b.len() ==> x < b[j])),
{
    let q = a + seq![x] + b;
    assert(q.len() == a.len() + 1 + b.len());
    assert(forall|i: int| 0 <= i < a.len() ==> q[i] == a[i]);
    assert(q[a.len() as int] == x);
    assert(forall|j: int| 0 <= j < b.len() ==> q[a.len() + 1 + j] == b[j]);
    if sorted(q) {
        assert forall|i: int, j: int| 0 <= i < j < a.len() implies a[i] < a[j] by {
            assert(q[i] < q[j]);
        }
        assert forall|i: int, j: int| 0 <= i < j < b.len() implies b[i] < b[j] by {
            assert(q[a.len() + 1 + i] < q[a.len() + 1 + j]);
        }
        assert forall|i: int| 0 <= i < a.len() implies a[i] < x by {
            assert(q[i] < q[a.len() as int]);
        }
        assert forall|j: int| 0 <= j < b.len() implies x < b[j] by {
            assert(q[a.len() as int] < q[a.len() + 1 + j]);
        }
    }
    if sorted(a) && sorted(b)
        && (forall|i: int| 0 <= i < a.len() ==> a[i] < x)
        && (forall|j: int| 0 <= j < b.len() ==> x < b[j]) {
        assert forall|i: int, j: int| 0 <= i < j < q.len() implies q[i] < q[j] by {
            if j < a.len() {
            } else if j == a.len() {
                assert(q[i] == a[i]);
            } else {
                assert(q[j] == b[j - a.len() - 1]);
                if i < a.len() {
                    assert(q[i] == a[i]);
                    assert(a[i] < x);
                    assert(x < b[j - a.len() - 1]);
                } else if i == a.len() {
                } else {
                    assert(q[i] == b[i - a.len() - 1]);
                }
            }
        }
    }
}

/// The values of a three-part concatenation, as a set.
pub(crate) proof fn lemma_mid_to_set(a: Seq<i64>, x: i64, b: Seq<i64>)
    ensures
        (a + seq![x] + b).to_set() == a.to_set().union(b.to_set()).insert(x),
{
    let q = a + seq![x] + b;
    let r = a.to_set().union(b.to_set()).insert(x);
    assert forall|y: i64| q.to_set().contains(y) implies r.contains(y) by {
        assert(q.contains(y));
        let i = choose|i: int| 0 <= i < q.len() && q[i] == y;
        if i < a.len() {
            assert(a[i] == y);
            assert(a.contains(y));
        } else if i == a.len() {
            assert(y == x);
        } else {
            assert(b[i - a.len() - 1] == y);
            assert(b.contains(y));
        }
    }
    assert forall|y: i64| r.contains(y) implies q.to_set().contains(y) by {
        if y == x {
            assert(q[a.len() as int] == y);
            assert(q.contains(y));
        } else if a.to_set().contains(y) {
            let i = choose|i: int| 0 <= i < a.len() && a[i] == y;
            assert(q[i] == y);
            assert(q.contains(y));
        } else {
            assert(b.to_set().contains(y));
            let i = choose|i: int| 0 <= i < b.len() && b[i] == y;
            assert(q[a.len() + 1 + i] == y);
            assert(q.contains(y));
        }
    }
    assert(q.to_set() =~= r);
}

/// Dropping the first element of a strictly sorted sequence removes exactly
/// the least value.
pub(crate) proof fn lemma_sorted_drop_first(q: Seq<i64>)
    requires
        sorted(q),
        q.len() > 0,
    ensures
        sorted(q.drop_first()),
        q.drop_first().to_set() == q.to_set().remove(q[0]),
        forall|j: int| 0 <= j < q.drop_first().len() ==> q[0] < q.drop_first()[j],
{
    let d = q.drop_first();
    assert(forall|j: int| 0 <= j < d.len() ==> d[j] == q[j + 1]);
    assert forall|y: i64| d.to_set().contains(y) implies q.to_set().remove(q[0]).contains(y) by {
        assert(d.contains(y));
        let i = choose|i: int| 0 <= i < d.len() && d[i] == y;
        assert(q[i + 1] == y);
        assert(q.contains(y));
        assert(q[0] < q[i + 1]);
    }
    assert forall|y: i64| q.to_set().remove(q[0]).contains(y) implies d.to_set().contains(y) by {
        assert(q.contains(y));
        let i = choose|i: int| 0 <= i < q.len() && q[i] == y;
        assert(i != 0);
        assert(d[i - 1] == y);
        assert(d.contains(y));
    }
    assert(d.to_set() =~= q.to_set().remove(q[0]));
}

/// Number of nodes in a subtree.
pub(crate) open spec fn shape_count(s: Shape) -> nat
    decreases s,
{
    match s {
        Shape::Tip => 0,
        Shape::Node { left, right, .. } => 1 + shape_count(*left) + shape_count(*right),
    }
}

/// Total node count over a worklist of subtrees.
pub(crate) open spec fn count_sum(q: Seq<Shape>) -> nat
    decreases q.len(),
{
    if q.len() == 0 {
        0
    } else {
        shape_count(q[0]) + count_sum(q.drop_first())
    }
}

pub(crate) proof fn lemma_count_sum_push(q: Seq<Shape>, s: Shape)
    ensures
        count_sum(q.push(s)) == count_sum(q) + shape_count(s),
    decreases q.len(),
{
    if q.len() == 0 {
        assert(q.push(s)[0] == s);
        assert(q.push(s).drop_first() =~= Seq::<Shape>::empty());
        assert(count_sum(q.push(s)) == shape_count(s) + count_sum(q.push(s).drop_first()));
        assert(count_sum(q.push(s).drop_first()) == 0);
        assert(count_sum(q) == 0);
    } else {
        assert(q.push(s)[0] == q[0]);
        assert(q.push(s).drop_first() =~= q.drop_first().push(s));
        lemma_count_sum_push(q.drop_first(), s);
        assert(count_sum(q.push(s)) == shape_count(q[0]) + count_sum(q.push(s).drop_first()));
        assert(count_sum(q) == shape_count(q[0]) + count_sum(q.drop_first()));
    }
}

/// Level-order walk, driven by a queue of subtrees: the front subtree's value
/// is yielded and its children join the back of the queue.
pub(crate) open spec fn level_order(q: Seq<Shape>) -> Seq<i64>
    decreases count_sum(q), q.len(),
        via level_order_decreases
{
    if q.len() == 0 {
        Seq::empty()
    } else {
        match q[0] {
            Shape::Tip => level_order(q.drop_first()),
            Shape::Node { val, left, right, .. } => seq![val] + level_order(
                q.drop_first().push(*left).push(*right),
            ),
        }
    }
}

#[via_fn]
proof fn level_order_decreases(q: Seq<Shape>) {
    if q.len() > 0 {
        match q[0] {
            Shape::Tip => {},
            Shape::Node { left, right, .. } => {
                lemma_count_sum_push(q.drop_first(), *left);
                lemma_count_sum_push(q.drop_first().push(*left), *right);
            },
        }
    }
}

/// What a depth-first walk still owes, given its stack of pending subtrees
/// (top of the stack at the end).
pub(crate) open spec fn dfs_rest(q: Seq<Shape>) -> Seq<i64>
    decreases q.len(),
{
    if q.len() == 0 {
        Seq::empty()
    } else {
        pre_order(q.last()) + dfs_rest(q.drop_last())
    }
}

pub(crate) proof fn lemma_dfs_rest_push(q: Seq<Shape>, s: Shape)
    ensures
        dfs_rest(q.push(s)) == pre_order(s) + dfs_rest(q),
{
    assert(q.push(s).last() == s);
    assert(q.push(s).drop_last() =~= q);
}

/// The values of a two-part concatenation, as a set.
pub(crate) proof fn lemma_concat_to_set(a: Seq<i64>, b: Seq<i64>)
    ensures
        (a + b).to_set() == a.to_set().union(b.to_set()),
{
    let q = a + b;
    assert forall|y: i64| q.to_set().contains(y)
        implies a.to_set().union(b.to_set()).contains(y) by {
        assert(q.contains(y));
        let i = choose|i: int| 0 <= i < q.len() && q[i] == y;
        if i < a.len() {
            assert(a[i] == y);
            assert(a.contains(y));
        } else {
            assert(b[i - a.len()] == y);
            assert(b.contains(y));
        }
    }
    assert forall|y: i64| a.to_set().union(b.to_set()).contains(y)
        implies q.to_set().contains(y) by {
        if a.to_set().contains(y) {
            let i = choose|i: int| 0 <= i < a.len() && a[i] == y;
            assert(q[i] == y);
            assert(q.contains(y));
        } else {
            assert(b.to_set().contains(y));
            let i = choose|i: int| 0 <= i < b.len() && b[i] == y;
            assert(q[a.len() + i] == y);
            assert(q.contains(y));
        }
    }
    assert(q.to_set() =~= a.to_set().union(b.to_set()));
}

/// Every walk of a subtree visits each node once.
pub(crate) proof fn lemma_in_order_len(s: Shape)
    ensures
        in_order(s).len() == shape_count(s),
    decreases s,
{
    match s {
        Shape::Tip => {},
        Shape::Node { left, right, .. } => {
            lemma_in_order_len(*left);
            lemma_in_order_len(*right);
        },
    }
}

/// The pre-order walk lists the same values as the in-order walk, once each.
pub(crate) proof fn lemma_pre_order_content(s: Shape)
    ensures
        pre_order(s).to_set() == in_order(s).to_set(),
        pre_order(s).len() == in_order(s).len(),
    decreases s,
{
    match s {
        Shape::Tip => {},
        Shape::Node { val, left, right, .. } => {
            lemma_pre_order_content(*left);
            lemma_pre_order_content(*right);
            lemma_mid_to_set(in_order(*left), val, in_order(*right));
            lemma_mid_to_set(Seq::empty(), val, pre_order(*left));
            assert(Seq::empty() + seq![val] + pre_order(*left) =~= seq![val] + pre_order(*left));
            lemma_concat_to_set(seq![val] + pre_order(*left), pre_order(*right));
            assert(Seq::<i64>::empty().to_set() =~= Set::<i64>::empty());
            assert(pre_order(s).to_set() =~= in_order(s).to_set());
        },
    }
}

/// The stored values of a worklist of subtrees.
pub(crate) open spec fn vals_of(q: Seq<Shape>) -> Set<i64>
    decreases q.len(),
{
    if q.len() == 0 {
        Set::empty()
    } else {
        in_order(q[0]).to_set().union(vals_of(q.drop_first()))
    }
}

pub(crate) proof fn lemma_vals_of_push(q: Seq<Shape>, s: Shape)
    ensures
        vals_of(q.push(s)) == vals_of(q).union(in_order(s).to_set()),
    decreases q.len(),
{
    if q.len() == 0 {
        assert(q.push(s)[0] == s);
        assert(q.push(s).drop_first() =~= Seq::<Shape>::empty());
        assert(vals_of(q.push(s).drop_first()) == Set::<i64>::empty());
        assert(vals_of(q.push(s)) =~= vals_of(q).union(in_order(s).to_set()));
    } else {
        assert(q.push(s)[0] == q[0]);
        assert(q.push(s).drop_first() =~= q.drop_first().push(s));
        lemma_vals_of_push(q.drop_first(), s);
        assert(vals_of(q.push(s)) == in_order(q[0]).to_set().union(vals_of(q.drop_first().push(s))));
        assert(vals_of(q) == in_order(q[0]).to_set().union(vals_of(q.drop_first())));
        assert(vals_of(q.push(s)) =~= vals_of(q).union(in_order(s).to_set()));
    }
}

/// The level-order walk of a worklist lists the values of all its subtrees,
/// one entry per node.
pub(crate) proof fn lemma_level_order_content(q: Seq<Shape>)
    ensures
        level_order(q).to_set() == vals_of(q),
        level_order(q).len() == count_sum(q),
    decreases count_sum(q), q.len(),
{
    if q.len() == 0 {
        assert(level_order(q).to_set() =~= vals_of(q));
    } else {
        match q[0] {
            Shape::Tip => {
                lemma_level_order_content(q.drop_first());
                assert(in_order(q[0]).to_set() =~= Set::<i64>::empty());
                assert(vals_of(q) =~= vals_of(q.drop_first()));
            },
            Shape::Node { val, left, right, .. } => {
                let q2 = q.drop_first().push(*left).push(*right);
                lemma_count_sum_push(q.drop_first(), *left);
                lemma_count_sum_push(q.drop_first().push(*left), *right);
                lemma_level_order_content(q2);
                lemma_vals_of_push(q.drop_first(), *left);
                lemma_vals_of_push(q.drop_first().push(*left), *right);
                lemma_concat_to_set(seq![val], level_order(q2));
                assert forall|y: i64| seq![val].to_set().contains(y) implies y == val by {
                    assert(seq![val].contains(y));
                    let i = choose|i: int| 0 <= i < 1 && seq![val][i] == y;
                }
                assert(seq![val][0] == val);
                assert(seq![val].contains(val));
                assert(seq![val].to_set() =~= Set::<i64>::empty().insert(val));
                lemma_mid_to_set(in_order(*left), val, in_order(*right));
                assert(level_order(q) == seq![val] + level_order(q2));
                assert(level_order(q).to_set() =~= vals_of(q));
                assert(level_order(q).len() == 1 + count_sum(q2));
            },
        }
    }
}

/// A subtree one black level short in its left subtree, otherwise valid: the
/// state that the delete fix-up repairs. The deficient side's root is black
/// (a red root would have absorbed the deficit), and a red node here still
/// has no red right child.
pub(crate) open spec fn left_deficient(t: Shape) -> bool {
    &&& is_node(t)
    &&& rbs(sleft(t))
    &&& rbs(sright(t))
    &&& bh(sleft(t)) + 1 == bh(sright(t))
    &&& black_root(sleft(t))
    &&& (scolor(t) == Color::Red ==> black_root(sright(t)))
}

/// Mirror image of `left_deficient`.
pub(crate) open spec fn right_deficient(t: Shape) -> bool {
    &&& is_node(t)
    &&& rbs(sleft(t))
    &&& rbs(sright(t))
    &&& bh(sright(t)) + 1 == bh(sleft(t))
    &&& black_root(sright(t))
    &&& (scolor(t) == Color::Red ==> black_root(sleft(t)))
}

} // verus!
