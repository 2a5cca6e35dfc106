//! The hash table that finds the slot of a location code.
//!
//! The table is `hashbrown`'s; nothing in this file is proved.  Each
//! function states what the table's own documentation promises of the one
//! call it makes, over the map from codes to slots that the table holds.
//! What happens when memory runs out is not stated.
use vstd::prelude::*;

verus! {

/// A `hashbrown::HashMap` from location codes to slots.
#[verifier::external_body]
pub struct CodeIndex {
    table: hashbrown::HashMap<u64, usize>,
}

/// The entries that a table holds: the slot under each code.
pub uninterp spec fn slots_of(index: CodeIndex) -> Map<u64, usize>;

/// `HashMap::new`: a table without entries.
#[verifier::external_body]
pub(crate) fn index_new() -> (index: CodeIndex)
    ensures
        forall|code: u64| !slots_of(index).contains_key(code),
{
    CodeIndex { table: hashbrown::HashMap::new() }
}

/// `HashMap::with_capacity`: a table without entries, with room for
/// `capacity` of them.  The bound keeps the size of the table's allocation
/// within what the call accepts.
#[verifier::external_body]
pub(crate) fn index_with_capacity(capacity: usize) -> (index: CodeIndex)
    requires
        capacity <= usize::MAX / 128,
    ensures
        forall|code: u64| !slots_of(index).contains_key(code),
{
    CodeIndex { table: hashbrown::HashMap::with_capacity(capacity) }
}

/// `HashMap::get`: the slot under a code, if the table holds the code.
#[verifier::external_body]
pub(crate) fn index_get(index: &CodeIndex, code: u64) -> (slot: Option<usize>)
    ensures
        slot == (if slots_of(*index).contains_key(code) {
            Some(slots_of(*index)[code])
        } else {
            None
        }),
{
    index.table.get(&code).copied()
}

/// `HashMap::insert`: afterwards the table holds `slot` under `code`, in
/// place of what it held there, and its other entries are as before.
#[verifier::external_body]
pub(crate) fn index_insert(index: &mut CodeIndex, code: u64, slot: usize)
    ensures
        slots_of(*final(index)) == slots_of(*old(index)).insert(code, slot),
{
    index.table.insert(code, slot);
}

/// `HashMap::remove`: returns the slot that the table held under `code`, if
/// any; afterwards the table has no entry for `code`, and its other entries
/// are as before.
#[verifier::external_body]
pub(crate) fn index_remove(index: &mut CodeIndex, code: u64) -> (slot: Option<usize>)
    ensures
        slot == (if slots_of(*old(index)).contains_key(code) {
            Some(slots_of(*old(index))[code])
        } else {
            None
        }),
        slots_of(*final(index)) == slots_of(*old(index)).remove(code),
{
    index.table.remove(&code)
}

} // verus!
