//! One sector's worth of bytes, and little-endian fields inside byte
//! sequences.
use vstd::prelude::*;
use vstd::arithmetic::div_mod::lemma_div_denominator;

verus! {

/// Bytes in a sector.
pub const SECTOR_SIZE: usize = 512;

/// The 16-bit little-endian number stored at `at` and `at + 1`.
pub open spec fn le16(s: Seq<u8>, at: int) -> int {
    s[at] as int + 256 * (s[at + 1] as int)
}

/// The 32-bit little-endian number stored at `at .. at + 4`.
pub open spec fn le32(s: Seq<u8>, at: int) -> int {
    s[at] as int + 256 * (s[at + 1] as int) + 65536 * (s[at + 2] as int) + 16777216 * (s[at
        + 3] as int)
}

/// `s` with the 16-bit little-endian encoding of `v` stored at `at`.
pub open spec fn with_le16(s: Seq<u8>, at: int, v: int) -> Seq<u8> {
    s.update(at, (v % 256) as u8).update(at + 1, (v / 256) as u8)
}

/// `s` with the 32-bit little-endian encoding of `v` stored at `at`.
pub open spec fn with_le32(s: Seq<u8>, at: int, v: int) -> Seq<u8> {
    s.update(at, (v % 256) as u8).update(at + 1, ((v / 256) % 256) as u8).update(
        at + 2,
        ((v / 65536) % 256) as u8,
    ).update(at + 3, (v / 16777216) as u8)
}

/// A buffer that holds exactly one sector.
#[derive(Debug, PartialEq, Eq)]
pub struct Block {
    pub data: [u8; 512],
}

impl View for Block {
    type V = Seq<u8>;

    open spec fn view(&self) -> Seq<u8> {
        self.data@
    }
}

impl Block {
    /// A sector of zero bytes.
    pub fn zeroed() -> (b: Block)
        ensures
            b@ == Seq::new(512, |i: int| 0u8),
    {
        let b = Block { data: [0u8; 512] };
        assert(b@ =~= Seq::new(512, |i: int| 0u8));
        b
    }

    /// A second buffer with the same bytes.
    pub fn duplicate(&self) -> (b: Block)
        ensures
            b@ == self@,
    {
        Block { data: self.data }
    }

    /// The byte at `at`.
    pub fn get(&self, at: usize) -> (v: u8)
        requires
            at < 512,
        ensures
            v == self@[at as int],
    {
        self.data[at]
    }

    /// Stores `v` at `at`.
    pub fn set(&mut self, at: usize, v: u8)
        requires
            at < 512,
        ensures
            final(self)@ == old(self)@.update(at as int, v),
    {
        self.data[at] = v;
    }

    /// The 16-bit little-endian number at `at`.
    pub fn get_le16(&self, at: usize) -> (v: u16)
        requires
            at + 1 < 512,
        ensures
            v == le16(self@, at as int),
    {
        let lo: u16 = self.data[at] as u16;
        let hi: u16 = self.data[at + 1] as u16;
        lo + 256 * hi
    }

    /// The 32-bit little-endian number at `at`.
    pub fn get_le32(&self, at: usize) -> (v: u32)
        requires
            at + 3 < 512,
        ensures
            v == le32(self@, at as int),
    {
        let b0: u32 = self.data[at] as u32;
        let b1: u32 = self.data[at + 1] as u32;
        let b2: u32 = self.data[at + 2] as u32;
        let b3: u32 = self.data[at + 3] as u32;
        b0 + 256 * b1 + 65536 * b2 + 16777216 * b3
    }

    /// Stores `v` at `at`, low byte first.
    pub fn set_le16(&mut self, at: usize, v: u16)
        requires
            at + 1 < 512,
        ensures
            final(self)@ == with_le16(old(self)@, at as int, v as int),
    {
        self.data[at] = (v % 256) as u8;
        self.data[at + 1] = (v / 256) as u8;
    }

    /// Stores `v` at `at`, low byte first.
    pub fn set_le32(&mut self, at: usize, v: u32)
        requires
            at + 3 < 512,
        ensures
            final(self)@ == with_le32(old(self)@, at as int, v as int),
    {
        self.data[at] = (v % 256) as u8;
        self.data[at + 1] = ((v / 256) % 256) as u8;
        self.data[at + 2] = ((v / 65536) % 256) as u8;
        self.data[at + 3] = (v / 16777216) as u8;
    }
}

/// Reading back a 16-bit field that was just stored gives the stored number,
/// and no byte outside the field changes.
pub proof fn lemma_le16_stored(s: Seq<u8>, at: int, v: int)
    requires
        0 <= at,
        at + 1 < s.len(),
        0 <= v < 65536,
    ensures
        le16(with_le16(s, at, v), at) == v,
        with_le16(s, at, v).len() == s.len(),
        forall|i: int| 0 <= i < s.len() && i != at && i != at + 1 ==> with_le16(s, at, v)[i] == s[i],
{
}

/// A 32-bit number is the sum of its four bytes, each weighted by its place.
pub proof fn lemma_le32_parts(v: int)
    requires
        0 <= v < 4294967296,
    ensures
        0 <= v % 256 < 256,
        0 <= (v / 256) % 256 < 256,
        0 <= (v / 65536) % 256 < 256,
        0 <= v / 16777216 < 256,
        v % 256 + 256 * ((v / 256) % 256) + 65536 * ((v / 65536) % 256) + 16777216 * (v
            / 16777216) == v,
{
    let a = v / 256;
    let b = a / 256;
    let c = b / 256;
    lemma_div_denominator(v, 256, 256);
    lemma_div_denominator(v, 65536, 256);
    assert(b == v / 65536);
    assert(c == v / 16777216);
    assert(v == 256 * a + v % 256);
    assert(a == 256 * b + a % 256);
    assert(b == 256 * c + b % 256);
}

} // verus!
