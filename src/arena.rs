//! Node records kept in a generational arena.
use std::collections::hash_map::RandomState;
use std::hash::BuildHasher;
use thunderdome::{Arena, Index};
use vstd::prelude::*;

verus! {

/// Identifies one node of a tree: the tag of the store that made it, and a generational
/// index (slot and generation) in that store's arena, in the `u64` form of
/// `thunderdome::Index::to_bits` (generation in the high half, slot in the low half). A
/// lookup checks all three, so an id of another store, or whose slot was freed or never
/// used, resolves to nothing.
#[derive(Clone, Copy, PartialEq, Eq, Structural, Debug, Hash)]
pub struct NodeId {
    pub tag: u64,
    pub bits: u64,
}

/// The links of one node, and the position of its payload.
#[derive(Clone, Copy)]
pub struct Links {
    pub parent: Option<NodeId>,
    pub prev_sibling: Option<NodeId>,
    pub next_sibling: Option<NodeId>,
    pub first_child: Option<NodeId>,
    pub last_child: Option<NodeId>,
    pub payload: usize,
}

#[verifier::external_type_specification]
#[verifier::external_body]
#[verifier::reject_recursive_types(T)]
pub struct ExArena<T>(Arena<T>);

/// What an arena of link records holds: the `u64` form of each live index, mapped to
/// the record stored under it.
pub uninterp spec fn arena_entries(a: Arena<Links>) -> Map<u64, Links>;

/// Relies on `thunderdome::Arena::new`: a new arena holds no entry.
#[verifier::external_body]
pub(crate) fn arena_new() -> (r: Arena<Links>)
    ensures
        arena_entries(r).dom() == Set::<u64>::empty(),
{
    Arena::new()
}

/// Relies on `thunderdome::Arena::insert` and `Index::to_bits`: the value is stored under
/// an index that no live entry had (an unused slot, or a free slot with its generation
/// advanced), and every other entry is kept. `insert` panics past `u32::MAX` entries.
#[verifier::external_body]
pub(crate) fn arena_insert(a: &mut Arena<Links>, v: Links) -> (r: u64)
    requires
        arena_entries(*old(a)).dom().len() < u32::MAX,
    ensures
        !arena_entries(*old(a)).contains_key(r),
        arena_entries(*final(a)) == arena_entries(*old(a)).insert(r, v),
{
    a.insert(v).to_bits()
}

/// Relies on `Index::from_bits` and `thunderdome::Arena::get`: the entry under a live
/// index, and `None` for any other (a zero generation, a free slot, an older generation,
/// a slot past the end).
#[verifier::external_body]
pub(crate) fn arena_get(a: &Arena<Links>, id: NodeId) -> (r: Option<Links>)
    ensures
        r == (if arena_entries(*a).contains_key(id.bits) {
            Some(arena_entries(*a)[id.bits])
        } else {
            None
        }),
{
    match Index::from_bits(id.bits) {
        Some(i) => a.get(i).copied(),
        None => None,
    }
}

/// Relies on `Index::from_bits` and `thunderdome::Arena`'s `IndexMut`: the entry under a
/// live index is replaced, and no other entry changes.
#[verifier::external_body]
pub(crate) fn arena_set(a: &mut Arena<Links>, id: NodeId, v: Links)
    requires
        arena_entries(*old(a)).contains_key(id.bits),
    ensures
        arena_entries(*final(a)) == arena_entries(*old(a)).insert(id.bits, v),
{
    a[Index::from_bits(id.bits).unwrap()] = v;
}

/// Relies on `RandomState::new`: hasher keys of their own, drawn at random for each
/// thread and advanced on every call. Nothing is promised of them.
#[verifier::external_body]
fn fresh_state() -> RandomState {
    RandomState::new()
}

/// Relies on `BuildHasher::hash_one` for `RandomState`: the SipHash of `()` under the
/// state's keys. Nothing is promised of the value.
#[verifier::external_body]
fn hash_unit(s: &RandomState) -> u64 {
    s.hash_one(())
}

/// A tag for a new store: the hash of a constant under fresh hasher keys. Two stores
/// get the same tag only if SipHash collides under different keys.
pub(crate) fn store_tag() -> u64 {
    let s = fresh_state();
    hash_unit(&s)
}

} // verus!
