//! Wire-format helpers: the key bijection, wrapping 32-bit arithmetic, the
//! snapshot and delta headers, and the non-fatal decode warnings.

use vstd::prelude::*;

verus! {

/// Hard upper bound on a snapshot's serialized size, in bytes.
pub const MAX_SNAPSHOT_SIZE: usize = 65536;

/// The same bound expressed in 4-byte words: a snap never stores more words
/// than this.
pub const MAX_SNAPSHOT_WORDS: usize = MAX_SNAPSHOT_SIZE / 4;

/// Non-fatal decode conditions: processing continues, the caller's warning
/// sink records them.
#[derive(Clone, Copy, Debug, PartialEq, Eq, Structural)]
pub enum Warning {
    /// A delete-key in the delta did not match any item in the from-snap.
    UnknownDelete,
    /// The deleted-keys list contained duplicates.
    DuplicateDelete,
    /// The updated-items stream contained the same key twice (later wins).
    DuplicateUpdate,
    /// A key appears in both deletes and updates.
    DeleteUpdate,
    /// The counted update records disagree with the header's count.
    NumUpdatedItems,
}

/// The unsigned 32-bit value a key compares as on the wire.
pub open spec fn key_unsigned(k: i32) -> u32 {
    if k >= 0 {
        k as u32
    } else {
        (k + 0x1_0000_0000) as u32
    }
}

/// The signed key holding an unsigned 32-bit value's bits.
pub open spec fn key_of_unsigned(u: u32) -> i32 {
    if u < 0x8000_0000 {
        u as i32
    } else {
        (u - 0x1_0000_0000) as i32
    }
}

/// `key(type_id, id) = (type_id << 16) | id`, read as signed 32-bit.
pub open spec fn spec_key(type_id: u16, id: u16) -> i32 {
    key_of_unsigned((type_id * 0x10000 + id) as u32)
}

pub open spec fn spec_key_type_id(k: i32) -> u16 {
    (key_unsigned(k) / 0x10000) as u16
}

pub open spec fn spec_key_id(k: i32) -> u16 {
    (key_unsigned(k) % 0x10000) as u16
}

/// The key packing is a bijection: unpacking a packed key gives the pair
/// back.
pub proof fn lemma_key_roundtrip(type_id: u16, id: u16)
    ensures
        spec_key_type_id(spec_key(type_id, id)) == type_id,
        spec_key_id(spec_key(type_id, id)) == id,
{
    let u: u32 = (type_id * 0x10000 + id) as u32;
    assert(key_unsigned(key_of_unsigned(u)) == u);
    assert(u / 0x10000 == type_id && u % 0x10000 == id) by (nonlinear_arith)
        requires
            u == type_id * 0x10000 + id,
            id < 0x10000,
            type_id < 0x10000,
    ;
}

/// The other direction of the bijection: packing a key's type id and id
/// gives the key back.
pub proof fn lemma_key_unsigned_roundtrip(k: i32)
    ensures
        key_of_unsigned(key_unsigned(k)) == k,
        spec_key(spec_key_type_id(k), spec_key_id(k)) == k,
{
    let u = key_unsigned(k);
    assert(spec_key_type_id(k) * 0x10000 + spec_key_id(k) == u) by (nonlinear_arith)
        requires
            spec_key_type_id(k) == (u / 0x10000) as u16,
            spec_key_id(k) == (u % 0x10000) as u16,
    ;
}

/// Packs `(type_id, id)` into the single signed 32-bit wire key.
pub fn key(type_id: u16, id: u16) -> (k: i32)
    ensures
        k == spec_key(type_id, id),
{
    let u: u32 = (type_id as u32) * 0x10000 + (id as u32);
    if u < 0x8000_0000 {
        u as i32
    } else {
        ((u as i64) - 0x1_0000_0000i64) as i32
    }
}

/// Extracts the type id from a wire key.
pub fn key_to_type_id(k: i32) -> (type_id: u16)
    ensures
        type_id == spec_key_type_id(k),
{
    let u = key_to_unsigned(k);
    (u / 0x10000) as u16
}

/// Extracts the entity id from a wire key.
pub fn key_to_id(k: i32) -> (id: u16)
    ensures
        id == spec_key_id(k),
{
    let u = key_to_unsigned(k);
    (u % 0x10000) as u16
}

/// The unsigned value a key sorts by on the wire.
pub fn key_to_unsigned(k: i32) -> (u: u32)
    ensures
        u == key_unsigned(k),
{
    if k >= 0 {
        k as u32
    } else {
        ((k as i64) + 0x1_0000_0000i64) as u32
    }
}

/// Two's-complement wrapping addition of diff words.
pub open spec fn wadd(a: i32, b: i32) -> i32 {
    vstd::wrapping::i32_specs::wrapping_add(a, b)
}

/// Two's-complement wrapping subtraction of diff words.
pub open spec fn wsub(a: i32, b: i32) -> i32 {
    vstd::wrapping::i32_specs::wrapping_sub(a, b)
}

/// Wrapping i32 sum of a word sequence, in order: the legacy checksum.
pub open spec fn wsum(s: Seq<i32>) -> i32
    decreases s.len(),
{
    if s.len() == 0 {
        0i32
    } else {
        wadd(wsum(s.drop_last()), s.last())
    }
}

/// Wrapping subtraction undone by wrapping addition: applying a diff word to
/// the value it was computed from restores the original word.
pub proof fn lemma_wrap_inverse(from: i32, to: i32)
    ensures
        wadd(from, wsub(to, from)) == to,
{
}

/// A word's diff against itself is zero, and zero applies as the identity.
pub proof fn lemma_wrap_zero(a: i32)
    ensures
        wsub(a, a) == 0,
        wadd(a, 0) == a,
{
}

/// Header of a serialized snap: two packed ints, in this order.
#[derive(Clone, Copy, Debug, PartialEq, Eq, Structural)]
pub struct SnapHeader {
    pub data_size: i32,
    pub num_items: i32,
}

/// Header of a serialized delta: two packed ints, in this order.
#[derive(Clone, Copy, Debug, PartialEq, Eq, Structural)]
pub struct DeltaHeader {
    pub num_deleted_items: i32,
    pub num_updated_items: i32,
}

} // verus!
