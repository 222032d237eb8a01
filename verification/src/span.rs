//! The token-span codec: a token occurrence is a substring of its owning
//! buffer, packed as a single `u32` with the start offset in the low 24 bits
//! and the byte length in the high 8 bits.  The all-zero value is the
//! sentinel span, which marks a sequence boundary and never addresses the
//! buffer.

use vstd::prelude::*;

verus! {

/// Largest byte length a single token may have in the packed form.
pub const MAX_TOKEN_LEN: usize = 255;

/// Largest start offset the packed form can carry (24 bits).
pub const MAX_START: usize = 0xFF_FFFF;

/// Error value returned when a token span cannot be packed because its start
/// offset or its length exceeds the representable range.
#[derive(Clone, Copy, Debug, PartialEq, Eq, Structural)]
pub struct EncodingOverflow;

/// A compact token span.  `Offset(0)` is the sentinel ("start or end of
/// sequence"); any other value decodes to a non-empty substring of the
/// owning buffer.
#[derive(Clone, Copy, Debug, PartialEq, Eq, Structural)]
pub struct Offset(pub u32);

impl Offset {
    /// The start offset this span decodes to.
    pub open spec fn spec_start(self) -> u32 {
        self.0 % 0x100_0000
    }

    /// The byte length this span decodes to; zero exactly on sentinels.
    pub open spec fn spec_len(self) -> u32 {
        self.0 / 0x100_0000
    }

    /// Whether this span is the sequence-boundary marker.
    pub open spec fn spec_is_sentinel(self) -> bool {
        self.spec_len() == 0
    }

    /// The packed form of a (start, length) pair that lies within bounds.
    pub open spec fn spec_encode(start: u32, length: u32) -> Offset
        recommends
            start <= MAX_START,
            length <= MAX_TOKEN_LEN,
    {
        Offset((start + length * 0x100_0000) as u32)
    }

    /// Packs a (start, length) pair, failing with `EncodingOverflow` exactly
    /// when either component exceeds what the compact form can carry.
    pub fn encode(start: usize, length: usize) -> (r: Result<Offset, EncodingOverflow>)
        ensures
            r is Ok <==> (start <= MAX_START && length <= MAX_TOKEN_LEN),
            r matches Ok(o) ==> o == Offset::spec_encode(start as u32, length as u32)
                && o.spec_start() == start && o.spec_len() == length,
    {
        if start <= MAX_START && length <= MAX_TOKEN_LEN {
            Ok(Offset::pack(start, length))
        } else {
            Err(EncodingOverflow)
        }
    }

    /// Packs a (start, length) pair already known to lie within bounds.
    pub fn pack(start: usize, length: usize) -> (o: Offset)
        requires
            start <= MAX_START,
            length <= MAX_TOKEN_LEN,
        ensures
            o == Offset::spec_encode(start as u32, length as u32),
            o.spec_start() == start,
            o.spec_len() == length,
    {
        let s: u32 = start as u32;
        let l: u32 = length as u32;
        proof {
            lemma_pack_unpack(s, l);
        }
        Offset(s + l * 0x100_0000)
    }

    /// The start offset of the referenced substring.
    pub fn ptr(&self) -> (r: usize)
        ensures
            r == self.spec_start(),
    {
        (self.0 % 0x100_0000) as usize
    }

    /// The byte length of the referenced substring; zero on sentinels.
    pub fn len(&self) -> (r: usize)
        ensures
            r == self.spec_len(),
    {
        (self.0 / 0x100_0000) as usize
    }

    /// Unpacks the span back into its (start, length) pair.
    pub fn decode(&self) -> (r: (usize, usize))
        ensures
            r.0 == self.spec_start(),
            r.1 == self.spec_len(),
    {
        ((self.0 % 0x100_0000) as usize, (self.0 / 0x100_0000) as usize)
    }

    /// The sequence-boundary span.
    pub fn sentinel() -> (r: Offset)
        ensures
            r.0 == 0,
            r.spec_start() == 0,
            r.spec_len() == 0,
    {
        Offset(0)
    }

    /// Whether this span is the sequence-boundary marker.
    pub fn is_sentinel(&self) -> (r: bool)
        ensures
            r == self.spec_is_sentinel(),
    {
        self.0 / 0x100_0000 == 0
    }
}

/// Packing then unpacking is the identity on in-bounds pairs.
proof fn lemma_pack_unpack(start: u32, length: u32)
    requires
        start <= MAX_START,
        length <= MAX_TOKEN_LEN,
    ensures
        Offset::spec_encode(start, length).spec_start() == start,
        Offset::spec_encode(start, length).spec_len() == length,
{
    assert(start + length * 0x100_0000 <= 0xFFFF_FFFF);
    let packed: u32 = (start + length * 0x100_0000) as u32;
    assert(packed % 0x100_0000 == start && packed / 0x100_0000 == length) by (bit_vector)
        requires
            start <= 0xFF_FFFFu32,
            length <= 255u32,
            packed == (start + length * 0x100_0000) as u32,
    ;
}

/// Round-trip law: for every (start, length) pair within the representable
/// bounds, decoding the encoded span gives back exactly that pair.
pub proof fn lemma_span_round_trip(start: u32, length: u32)
    requires
        start <= MAX_START,
        length <= MAX_TOKEN_LEN,
    ensures
        Offset::spec_encode(start, length).spec_start() == start,
        Offset::spec_encode(start, length).spec_len() == length,
{
    lemma_pack_unpack(start, length);
}

} // verus!
