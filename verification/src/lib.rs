//! An ordered set of `i64` values kept as a red-black binary search tree.
//! Node storage lives in a `generational_arena::Arena`; structural links are
//! slot identifiers rather than pointers.
use vstd::prelude::*;

mod ops;
mod shape;
mod store;
mod traverse;

pub use store::NodeNotFoundErr;

verus! {

use crate::ops::{del_at, find_at, ins_at, set_color};
use crate::shape::{
    bh, black_root, count_sum, height, in_order, interp, lemma_in_order_len,
    lemma_level_order_content, lemma_pre_order_content, level_order, pre_order, rbs, root_link,
    shape_count, sleft, sorted, sright, vals_of, Shape,
};
use crate::store::{arena_new, arena_view, Color, Leaf, SlotId};
use crate::traverse::{bfs_walk, dfs_walk};

/// Two to the `n`.
pub open spec fn pow2(n: nat) -> nat
    decreases n,
{
    if n == 0 {
        1
    } else {
        2 * pow2((n - 1) as nat)
    }
}

proof fn lemma_pow2_add(x: nat, y: nat)
    ensures
        pow2(x + y) == pow2(x) * pow2(y),
    decreases x,
{
    if x == 0 {
        assert(pow2(x) == 1);
        assert(x + y == y);
    } else {
        lemma_pow2_add((x - 1) as nat, y);
        assert(pow2(x + y) == 2 * pow2((x + y - 1) as nat));
        assert((x + y - 1) as nat == ((x - 1) as nat) + y);
        assert(pow2((x + y - 1) as nat) == pow2((x - 1) as nat) * pow2(y));
        assert(pow2(x) * pow2(y) == 2 * (pow2((x - 1) as nat) * pow2(y))) by (nonlinear_arith)
            requires pow2(x) == 2 * pow2((x - 1) as nat);
        assert(pow2(x + y) == 2 * (pow2((x - 1) as nat) * pow2(y)));
        assert(pow2(x + y) == pow2(x) * pow2(y));
    }
}

proof fn lemma_pow2_mono(x: nat, y: nat)
    requires
        x <= y,
    ensures
        pow2(x) <= pow2(y),
    decreases y,
{
    if x < y && y > 0 {
        lemma_pow2_mono(x, (y - 1) as nat);
    }
}

/// Under the red-black invariants, no root-to-leaf path is more than twice
/// as long as the black-height, plus one step for a red root.
proof fn lemma_rbs_height(s: Shape)
    requires
        rbs(s),
    ensures
        height(s) <= 2 * bh(s) + (if black_root(s) { 0int } else { 1int }),
    decreases s,
{
    match s {
        Shape::Tip => {},
        Shape::Node { left, right, .. } => {
            lemma_rbs_height(*left);
            lemma_rbs_height(*right);
        },
    }
}

/// Under the red-black invariants, a tree of black-height `h` stores at
/// least `2^h - 1` values.
proof fn lemma_rbs_count(s: Shape)
    requires
        rbs(s),
    ensures
        pow2(bh(s)) <= in_order(s).len() + 1,
    decreases s,
{
    match s {
        Shape::Tip => {},
        Shape::Node { left, right, .. } => {
            lemma_rbs_count(*left);
            lemma_rbs_count(*right);
        },
    }
}

/// An ordered set of `i64` values, stored as a red-black tree whose nodes
/// live in an arena and point at one another by slot identifier.
pub struct RedBlackTree {
    arena: generational_arena::Arena<Leaf>,
    root: Option<SlotId>,
    size: usize,
    shape: Ghost<Shape>,
}

impl RedBlackTree {
    /// The stored values in ascending order.
    pub closed spec fn in_seq(self) -> Seq<i64> {
        in_order(self.shape@)
    }

    /// The set of stored values.
    pub closed spec fn values(self) -> Set<i64> {
        in_order(self.shape@).to_set()
    }

    /// The pre-order walk of the structural links.
    pub closed spec fn pre_seq(self) -> Seq<i64> {
        pre_order(self.shape@)
    }

    /// The level-order walk of the structural links.
    pub closed spec fn level_seq(self) -> Seq<i64> {
        level_order(seq![self.shape@])
    }

    /// Nodes on the longest root-to-leaf path.
    pub closed spec fn height_of(self) -> nat {
        height(self.shape@)
    }

    /// Well-formedness: the arena realizes the modelled tree, the root link
    /// matches, the in-order walk is strictly ascending (the binary-search
    /// property), `size` counts the stored values, and the red-black
    /// coloring invariants hold.
    pub closed spec fn inv(self) -> bool {
        &&& interp(arena_view(self.arena), self.shape@)
        &&& self.root == root_link(self.shape@)
        &&& sorted(in_order(self.shape@))
        &&& self.size == in_order(self.shape@).len()
        &&& self.rb_ok()
    }

    /// The red-black coloring invariants: the root is black (or the tree is
    /// empty), no red node has a red child, and every path from a node to a
    /// descendant absent leaf crosses the same number of black nodes.
    pub closed spec fn rb_ok(self) -> bool {
        rbs(self.shape@) && black_root(self.shape@)
    }

    /// An empty tree.
    pub fn new() -> (t: Self)
        ensures
            t.inv(),
            t.rb_ok(),
            t.values() == Set::<i64>::empty(),
            t.in_seq() == Seq::<i64>::empty(),
    {
        let t = RedBlackTree { arena: arena_new(), root: None, size: 0, shape: Ghost(Shape::Tip) };
        proof {
            assert(Seq::<i64>::empty().to_set() =~= Set::<i64>::empty());
        }
        t
    }

    /// The number of stored values.
    pub fn get_size(&self) -> (n: usize)
        requires
            self.inv(),
        ensures
            n == self.in_seq().len(),
    {
        self.size
    }

    /// Store `item`. A value already present is not stored twice; a new value
    /// is attached by binary search and the red-black discipline is restored
    /// by the insertion fix-up, the root forced black at the end.
    pub fn insert(&mut self, item: i64)
        requires
            old(self).inv(),
            old(self).in_seq().len() < usize::MAX,
        ensures
            final(self).inv(),
            final(self).values() == old(self).values().insert(item),
            old(self).values().contains(item) ==> final(self).in_seq().len()
                == old(self).in_seq().len(),
            !old(self).values().contains(item) ==> final(self).in_seq().len()
                == old(self).in_seq().len() + 1,
            final(self).rb_ok(),
    {
        let ghost s = self.shape@;
        let (lk, inserted, t) = ins_at(&mut self.arena, self.root, item, Ghost(s));
        let root_id = lk.unwrap();
        let t2 = set_color(&mut self.arena, root_id, Color::Black, Ghost(t@));
        self.root = lk;
        self.shape = Ghost(t2@);
        if inserted {
            self.size = self.size + 1;
        }
        proof {
            assert(root_link(t2@) == root_link(t@));
            assert(in_order(t2@) == in_order(t@));
            if rbs(s) && black_root(s) {
                assert(rbs(t@));
                assert(rbs(sleft(t@)) && rbs(sright(t@)) && bh(sleft(t@)) == bh(sright(t@)));
                assert(rbs(t2@));
                assert(black_root(t2@));
            }
        }
    }

    /// Remove `item`. A present value is unlinked by binary-search-tree
    /// deletion, the delete fix-up restores the red-black discipline, and the
    /// slot is freed; an absent value is reported with `NodeNotFoundErr` and
    /// the tree is left exactly as it was.
    pub fn remove(&mut self, item: &i64) -> (r: Result<(), NodeNotFoundErr>)
        requires
            old(self).inv(),
        ensures
            final(self).inv(),
            r.is_ok() == old(self).values().contains(*item),
            r.is_ok() ==> final(self).values() == old(self).values().remove(*item),
            r.is_ok() ==> final(self).in_seq().len() == old(self).in_seq().len() - 1,
            !r.is_ok() ==> *final(self) == *old(self),
            r.is_ok() ==> final(self).rb_ok(),
    {
        let found = find_at(&self.arena, self.root, *item, Ghost(self.shape@));
        if !found {
            return Err(NodeNotFoundErr);
        }
        let ghost s = self.shape@;
        let (lk, _deficit, t) = del_at(&mut self.arena, self.root, *item, Ghost(s));
        proof {
            assert(in_order(s).to_set().contains(*item));
            assert(in_order(s).contains(*item));
            let w = choose|w: int| 0 <= w < in_order(s).len() && in_order(s)[w] == *item;
            assert(in_order(s).len() > 0);
        }
        let mut out_t = t;
        // A deficit that reaches the root is absorbed there: the root is
        // simply forced black.
        if let Some(root_id) = lk {
            out_t = set_color(&mut self.arena, root_id, Color::Black, Ghost(t@));
        }
        proof {
            if rbs(s) && black_root(s) {
                assert(rbs(t@));
                if root_link(t@) is Some {
                    assert(rbs(sleft(t@)) && rbs(sright(t@)));
                    assert(bh(sleft(t@)) == bh(sright(t@)));
                    assert(rbs(out_t@));
                } else {
                    assert(out_t@ == t@);
                }
                assert(black_root(out_t@));
            }
        }
        self.root = lk;
        self.shape = Ghost(out_t@);
        self.size = self.size - 1;
        Ok(())
    }

    /// Walk the tree depth-first with an explicit stack and collect the
    /// values in visiting order: node first, then left subtree, then right
    /// subtree (pre-order).
    pub fn dfs_iter(&self) -> (out: Vec<i64>)
        requires
            self.inv(),
        ensures
            out@ == self.pre_seq(),
    {
        dfs_walk(&self.arena, self.root, Ghost(self.shape@))
    }

    /// Walk the tree breadth-first with an explicit queue and collect the
    /// values level by level, left to right.
    pub fn bfs_iter(&self) -> (out: Vec<i64>)
        requires
            self.inv(),
        ensures
            out@ == self.level_seq(),
    {
        bfs_walk(&self.arena, self.root, Ghost(self.shape@))
    }

    /// The in-order walk of the structural left/right links lists exactly the
    /// stored values, strictly ascending, with no duplicates.
    pub proof fn lemma_in_order_sorted(self)
        requires
            self.inv(),
        ensures
            forall|i: int, j: int| 0 <= i < j < self.in_seq().len()
                ==> self.in_seq()[i] < self.in_seq()[j],
            self.in_seq().to_set() == self.values(),
            self.in_seq().no_duplicates(),
    {
        assert forall|i: int, j: int|
            0 <= i < self.in_seq().len() && 0 <= j < self.in_seq().len() && i != j
            implies self.in_seq()[i] != self.in_seq()[j] by {
            if i < j {
                assert(self.in_seq()[i] < self.in_seq()[j]);
            } else {
                assert(self.in_seq()[j] < self.in_seq()[i]);
            }
        }
    }

    /// A tree holding no values is empty throughout: its in-order walk and
    /// both traversals yield nothing.
    pub proof fn lemma_empty_traversals(self)
        requires
            self.inv(),
            self.values() == Set::<i64>::empty(),
        ensures
            self.in_seq() == Seq::<i64>::empty(),
            self.pre_seq() == Seq::<i64>::empty(),
            self.level_seq() == Seq::<i64>::empty(),
    {
        if self.in_seq().len() > 0 {
            assert(self.in_seq().contains(self.in_seq()[0]));
            assert(self.in_seq().to_set().contains(self.in_seq()[0]));
        }
        assert(self.in_seq() =~= Seq::<i64>::empty());
        match self.shape@ {
            Shape::Tip => {
                assert(self.pre_seq() =~= Seq::<i64>::empty());
                let q = seq![self.shape@];
                assert(q.len() == 1);
                assert(level_order(q) == level_order(q.drop_first()));
                assert(q.drop_first() =~= Seq::<Shape>::empty());
                assert(level_order(q.drop_first()) =~= Seq::<i64>::empty());
                assert(self.level_seq() =~= Seq::<i64>::empty());
            },
            Shape::Node { val, left, right, .. } => {
                assert(in_order(self.shape@).len() >= 1);
            },
        }
    }

    /// Height bound: while the red-black invariants hold, a tree with `n`
    /// stored values has height at most `2·log2(n+1)`, stated here without
    /// logarithms as `2^height <= (n+1)^2`.
    pub proof fn lemma_height_bound(self)
        requires
            self.inv(),
        ensures
            pow2(self.height_of()) <= (self.in_seq().len() + 1) * (self.in_seq().len() + 1),
    {
        let s = self.shape@;
        lemma_rbs_height(s);
        lemma_rbs_count(s);
        assert(height(s) <= 2 * bh(s));
        lemma_pow2_mono(height(s), 2 * bh(s));
        lemma_pow2_add(bh(s), bh(s));
        assert(pow2(bh(s)) * pow2(bh(s)) <= (in_order(s).len() + 1) * (in_order(s).len() + 1))
            by (nonlinear_arith)
            requires pow2(bh(s)) <= in_order(s).len() + 1;
    }

    /// Both traversals yield exactly the stored values, one entry per value:
    /// the depth-first walk in pre-order, the breadth-first walk level by
    /// level.
    pub proof fn lemma_traversals_yield_values(self)
        requires
            self.inv(),
        ensures
            self.pre_seq().to_set() == self.values(),
            self.pre_seq().len() == self.in_seq().len(),
            self.level_seq().to_set() == self.values(),
            self.level_seq().len() == self.in_seq().len(),
    {
        let s = self.shape@;
        lemma_pre_order_content(s);
        lemma_level_order_content(seq![s]);
        lemma_in_order_len(s);
        assert(seq![s].drop_first() =~= Seq::<Shape>::empty());
        assert(vals_of(seq![s]) == in_order(s).to_set().union(vals_of(seq![s].drop_first())));
        assert(vals_of(seq![s].drop_first()) == Set::<i64>::empty());
        assert(vals_of(seq![s]) =~= in_order(s).to_set());
        assert(count_sum(seq![s]) == shape_count(s) + count_sum(seq![s].drop_first()));
    }
}

impl Default for RedBlackTree {
    /// An empty tree, exactly as `new` builds it.
    fn default() -> (t: Self)
        ensures
            t.inv(),
            t.rb_ok(),
            t.values() == Set::<i64>::empty(),
            t.in_seq() == Seq::<i64>::empty(),
    {
        RedBlackTree::new()
    }
}

} // verus!
