//! What a section of a segment holds.
use vstd::prelude::*;

verus! {

/// The term dictionary.
pub const TERMS: u16 = 1;

/// The posting lists.
pub const POSTINGS: u16 = 2;

/// How long each document is, exactly.
pub const NORMS: u16 = 3;

/// How long each document is, in one byte.
pub const ROUNDED: u16 = 4;

/// The ceilings of the blocks of each posting list.
pub const BOUNDS: u16 = 5;

/// The same ceilings at a finer grain.
pub const WIDE_BOUNDS: u16 = 6;

/// The stored fields.
pub const FIELDS: u16 = 7;

/// The keys that name documents.
pub const KEYS: u16 = 8;

/// The filter in front of the keys.
pub const KEY_FILTER: u16 = 9;

/// Vectors.
pub const VECTORS: u16 = 10;

/// Who may read what.
pub const ACL: u16 = 11;

/// Columns.
pub const COLUMNS: u16 = 12;

/// A graph over vectors.
pub const GRAPH: u16 = 13;

/// The documents that are deleted.
pub const TOMBSTONES: u16 = 14;

/// Whether a kind is one the format defines.
pub open spec fn is_known(kind: u16) -> bool {
    1 <= kind <= 14
}

/// Every kind the format defines.
pub fn known() -> (kinds: Vec<u16>)
    ensures
        forall|kind: u16| #[trigger] kinds@.contains(kind) == is_known(kind),
        kinds@.no_duplicates(),
{
    let mut kinds: Vec<u16> = Vec::new();
    let mut next: u16 = TERMS;
    while next <= TOMBSTONES
        invariant
            1 <= next <= 15,
            kinds@.len() == next - 1,
            forall|i: int| 0 <= i < kinds@.len() ==> #[trigger] kinds@[i] == i + 1,
        decreases 15 - next,
    {
        kinds.push(next);
        next = next + 1;
    }
    proof {
        assert forall|kind: u16| #[trigger] kinds@.contains(kind) == is_known(kind) by {
            if is_known(kind) {
                assert(kinds@[kind - 1] == kind);
            }
        }
    }
    kinds
}

} // verus!
