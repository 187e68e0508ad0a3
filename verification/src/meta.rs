//! The one-byte control tag kept for every slot of a table.
//!
//! A tag is *empty* (`0x80`), a *tombstone* (`0xFF`) or *occupied*, in which
//! case its high bit is clear and its low seven bits are the low seven bits of
//! the hash under which the slot was filled.

use vstd::prelude::*;

verus! {

/// Raw byte of an occupied tag whose hash bits are all zero.
pub const OCCUPIED: i8 = 0;

/// Raw byte of the empty tag, `0x80` read as a signed byte.
pub const VACANT: i8 = -128;

/// Raw byte of the tombstone tag, `0xFF` read as a signed byte.
pub const DELETED: i8 = -1;

/// The seven hash bits that an occupied tag carries for `hash`.
pub open spec fn tag7(hash: u64) -> int {
    hash as int % 128
}

/// Whether the raw tag byte marks an occupied slot: its high bit is clear.
pub open spec fn tag_is_occupied(tag: i8) -> bool {
    tag >= 0
}

/// The raw tag byte of a slot filled under `hash`.
pub fn occupied(hash: u64) -> (tag: i8)
    ensures
        tag as int == tag7(hash),
        tag_is_occupied(tag),
{
    let low: u64 = hash & 0x7f;
    assert(low == hash % 128 && low < 128) by (bit_vector)
        requires
            low == hash & 0x7f,
    ;
    low as i8
}

/// Whether the raw tag byte marks an occupied slot.
pub fn is_occupied(tag: i8) -> (b: bool)
    ensures
        b == tag_is_occupied(tag),
{
    tag >= 0
}

/// The seven bits of a hash that an occupied tag carries.
#[derive(Copy, Clone, Debug, PartialEq, Eq, Structural)]
pub struct Hash {
    inner: u8,
}

impl Hash {
    /// The seven bits, as a number below 128 where they came from a hash.
    pub closed spec fn bits(self) -> u8 {
        self.inner
    }

    /// The low seven bits of `hash`.
    pub fn new(hash: u64) -> (h: Self)
        ensures
            h.bits() as int == tag7(hash),
    {
        let low: u64 = hash & 0x7f;
        assert(low == hash % 128 && low < 128) by (bit_vector)
            requires
                low == hash & 0x7f,
        ;
        Hash { inner: low as u8 }
    }
}

/// A tag, as the unsigned byte it is stored as.
#[derive(Copy, Clone, Debug, PartialEq, Eq, Structural)]
pub struct Meta {
    inner: u8,
}

impl Meta {
    /// The byte of the tag.
    pub closed spec fn byte(self) -> u8 {
        self.inner
    }

    /// Whether the tag marks an occupied slot: its high bit is clear.
    pub open spec fn occupied_spec(self) -> bool {
        self.byte() < 128
    }

    /// The raw tag byte, as a group of tags holds it: the same eight bits,
    /// read as a signed byte.
    pub open spec fn raw_spec(self) -> i8 {
        if self.byte() < 128 {
            self.byte() as i8
        } else {
            (self.byte() - 256) as i8
        }
    }

    /// The empty tag, `0x80`.
    pub fn vacant() -> (m: Self)
        ensures
            m.byte() == 0x80,
            m.raw_spec() == VACANT,
    {
        Meta { inner: 0x80 }
    }

    /// The tombstone tag, `0xFF`.
    pub fn deleted() -> (m: Self)
        ensures
            m.byte() == 0xff,
            m.raw_spec() == DELETED,
    {
        Meta { inner: 0xff }
    }

    /// The occupied tag that carries the low seven bits of `hash`.
    pub fn occupied(hash: Hash) -> (m: Self)
        ensures
            m.byte() == hash.bits() % 128,
            m.occupied_spec(),
    {
        let bits: u8 = hash.inner;
        let inner: u8 = bits & 0x7f;
        assert(inner == bits % 128 && inner < 128) by (bit_vector)
            requires
                inner == bits & 0x7f,
        ;
        Meta { inner }
    }

    /// Whether the tag marks an occupied slot.
    pub fn is_occupied(self) -> (b: bool)
        ensures
            b == self.occupied_spec(),
    {
        let high: u8 = self.inner & 0x80;
        let inner: u8 = self.inner;
        assert((high == 0) == (inner < 128)) by (bit_vector)
            requires
                high == inner & 0x80,
        ;
        high == 0
    }

    /// The hash bits that the tag carries, where it is occupied.
    pub fn hash(self) -> (h: Option<Hash>)
        ensures
            self.occupied_spec() ==> h is Some && h.unwrap().bits() == self.byte(),
            !self.occupied_spec() ==> h is None,
    {
        if self.is_occupied() {
            let inner: u8 = self.inner;
            let low: u8 = inner & 0x7f;
            assert(low == inner) by (bit_vector)
                requires
                    low == inner & 0x7f,
                    inner < 128,
            ;
            Some(Hash { inner: low })
        } else {
            None
        }
    }

    /// The raw tag byte, as a group of tags holds it.
    pub fn raw(self) -> (tag: i8)
        ensures
            tag == self.raw_spec(),
    {
        if self.inner < 128 {
            self.inner as i8
        } else {
            (self.inner as i16 - 256) as i8
        }
    }
}

impl Default for Meta {
    /// The empty tag.
    fn default() -> (m: Self)
        ensures
            m.byte() == 0x80,
    {
        Meta::vacant()
    }
}

impl From<Meta> for u8 {
    /// The byte of the tag.
    fn from(value: Meta) -> (byte: u8) {
        value.inner
    }
}

impl vstd::std_specs::convert::FromSpecImpl<Meta> for u8 {
    open spec fn obeys_from_spec() -> bool {
        true
    }

    open spec fn from_spec(value: Meta) -> u8 {
        value.byte()
    }
}

/// The tag of a slot filled under `hash` is one tag, whether it is made as
/// a raw byte or as a `Meta`.
pub proof fn lemma_one_tag(hash: u64, h: Hash, m: Meta)
    requires
        h.bits() as int == tag7(hash),
        m.byte() == h.bits() % 128,
    ensures
        m.raw_spec() as int == tag7(hash),
{
}

} // verus!
