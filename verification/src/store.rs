use vstd::prelude::*;

verus! {

/// Stable identifier for a node's storage slot: the raw parts (position and
/// generation) of a `generational_arena::Index`. A freed slot's generation is
/// never handed out again, so a stale identifier simply misses.
#[derive(Clone, Copy, PartialEq, Eq, Structural, Debug)]
pub struct SlotId {
    pub idx: usize,
    pub generation: u64,
}

/// Node color under the red-black discipline.
#[derive(Clone, Copy, PartialEq, Eq, Structural, Debug)]
pub enum Color {
    Red,
    Black,
}

/// One stored node: a value, the two structural links, and the node's color
/// embedded in the record.
#[derive(Clone, Copy, Debug)]
pub struct Leaf {
    pub data: i64,
    pub left: Option<SlotId>,
    pub right: Option<SlotId>,
    pub color: Color,
}

/// Error returned by `remove` when the requested value is not in the tree.
#[derive(Clone, Copy, PartialEq, Eq, Structural, Debug)]
pub struct NodeNotFoundErr;

#[verifier::external_type_specification]
#[verifier::external_body]
#[verifier::reject_recursive_types(T)]
pub struct ExArena<T>(generational_arena::Arena<T>);

/// The live entries of an arena of nodes, as a map from slot identifier
/// (raw index and generation) to the record stored there.
pub uninterp spec fn arena_view(a: generational_arena::Arena<Leaf>) -> Map<SlotId, Leaf>;

/// The view of an arena with no live entries.
pub open spec fn empty_store() -> Map<SlotId, Leaf> {
    Map::empty()
}

/// Relies on `generational_arena::Arena::new`: the fresh arena holds no entries.
#[verifier::external_body]
pub(crate) fn arena_new() -> (res: generational_arena::Arena<Leaf>)
    ensures
        arena_view(res) == empty_store(),
{
    generational_arena::Arena::new()
}

/// Relies on `generational_arena::Arena::insert`: the value goes into a vacant
/// slot, whose index together with its fresh generation names no live entry.
#[verifier::external_body]
pub(crate) fn arena_insert(a: &mut generational_arena::Arena<Leaf>, leaf: Leaf) -> (id: SlotId)
    ensures
        !arena_view(*old(a)).contains_key(id),
        arena_view(*final(a)) == arena_view(*old(a)).insert(id, leaf),
{
    let (idx, generation) = a.insert(leaf).into_raw_parts();
    SlotId { idx, generation }
}

/// Relies on `generational_arena::Arena::get`: a live slot yields its entry;
/// a freed or foreign identifier yields `None`.
#[verifier::external_body]
pub(crate) fn arena_get(a: &generational_arena::Arena<Leaf>, id: SlotId) -> (r: Option<Leaf>)
    ensures
        r == if arena_view(*a).contains_key(id) {
            Some(arena_view(*a)[id])
        } else {
            None::<Leaf>
        },
{
    match a.get(generational_arena::Index::from_raw_parts(id.idx, id.generation)) {
        Some(leaf) => Some(*leaf),
        None => None,
    }
}

/// Relies on `generational_arena::Arena::get_mut`: writing through it replaces
/// exactly that slot's entry and no other.
#[verifier::external_body]
pub(crate) fn arena_set(a: &mut generational_arena::Arena<Leaf>, id: SlotId, leaf: Leaf)
    requires
        arena_view(*old(a)).contains_key(id),
    ensures
        arena_view(*final(a)) == arena_view(*old(a)).insert(id, leaf),
{
    if let Some(slot) = a.get_mut(generational_arena::Index::from_raw_parts(id.idx, id.generation)) {
        *slot = leaf;
    }
}

/// Relies on `generational_arena::Arena::remove`: the slot is freed and its
/// identifier is dead from then on.
#[verifier::external_body]
pub(crate) fn arena_remove(a: &mut generational_arena::Arena<Leaf>, id: SlotId) -> (r: Option<Leaf>)
    ensures
        arena_view(*final(a)) == arena_view(*old(a)).remove(id),
        r == if arena_view(*old(a)).contains_key(id) {
            Some(arena_view(*old(a))[id])
        } else {
            None::<Leaf>
        },
{
    a.remove(generational_arena::Index::from_raw_parts(id.idx, id.generation))
}

} // verus!
