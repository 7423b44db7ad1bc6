//! The per-column codec: a fixed integer offset over one of three unsigned
//! fixed-width physical representations. The codec advertises the algebraic
//! properties (order preservation, summation preservation, positivity) that
//! the planner relies on when it executes work on encoded data.

use vstd::prelude::*;

verus! {

/// Physical representation tag of a columnar buffer.
#[derive(Clone, Copy, PartialEq, Eq, Structural, Debug)]
pub enum EncodingType {
    U8,
    U16,
    U32,
    I64,
}

/// Logical type tag of a decoded value sequence.
#[derive(Clone, Copy, PartialEq, Eq, Structural, Debug)]
pub enum BasicType {
    Integer,
    Str,
    Boolean,
}

/// The largest value representable in the encoded domain of a width.
pub open spec fn width_max(w: EncodingType) -> int {
    match w {
        EncodingType::U8 => 255,
        EncodingType::U16 => 65535,
        EncodingType::U32 => 4294967295,
        EncodingType::I64 => i64::MAX as int,
    }
}

/// A codec that stores each logical value `v` as the physical value
/// `v - offset` in a fixed unsigned width. Decoding adds the offset back.
#[derive(Clone, Copy)]
pub struct IntegerOffsetCodec {
    pub offset: i64,
    pub width: EncodingType,
}

impl IntegerOffsetCodec {
    pub fn new(offset: i64, width: EncodingType) -> (r: Self)
        ensures
            r.offset == offset,
            r.width == width,
    {
        IntegerOffsetCodec { offset, width }
    }

    /// Translates a logical literal into the encoded domain, for comparison
    /// pushdown. A literal whose translation would fall outside the encoded
    /// domain of this codec's width is rejected rather than wrapped.
    pub fn encode_int(&self, val: i64) -> (r: Option<i64>)
        ensures
            r is Some <==> 0 <= val as int - self.offset as int <= width_max(self.width),
            match r {
                Some(e) => e as int == val as int - self.offset as int,
                None => true,
            },
    {
        let d: i128 = val as i128 - self.offset as i128;
        let cap: i128 = match self.width {
            EncodingType::U8 => 255,
            EncodingType::U16 => 65535,
            EncodingType::U32 => 4294967295,
            EncodingType::I64 => i64::MAX as i128,
        };
        if 0 <= d && d <= cap {
            Some(d as i64)
        } else {
            None
        }
    }

    /// Summing physical values equals summing logical values exactly when the
    /// offset is zero; a nonzero offset would bias a sum by
    /// `offset * row_count`.
    pub fn is_summation_preserving(&self) -> (r: bool)
        ensures
            r == (self.offset == 0),
    {
        self.offset == 0
    }

    /// Encoding is a fixed monotonic shift, so physical order equals logical
    /// order.
    pub fn is_order_preserving(&self) -> (r: bool)
        ensures
            r,
    {
        true
    }

    /// Physical values are stored offset-from-minimum, hence never negative.
    pub fn is_positive_integer(&self) -> (r: bool)
        ensures
            r,
    {
        true
    }

    pub fn decoded_type(&self) -> (r: BasicType)
        ensures
            r == BasicType::Integer,
    {
        BasicType::Integer
    }

    pub fn encoding_type(&self) -> (r: EncodingType)
        ensures
            r == self.width,
    {
        self.width
    }

    /// Translates an encoded value range to the logical domain by adding the
    /// offset to both bounds. A bound whose translation does not fit the
    /// logical 64-bit domain is rejected.
    pub fn decode_range(&self, range: (i64, i64)) -> (r: Option<(i64, i64)>)
        ensures
            r is Some <==> {
                &&& i64::MIN <= range.0 as int + self.offset as int <= i64::MAX
                &&& i64::MIN <= range.1 as int + self.offset as int <= i64::MAX
            },
            match r {
                Some(p) => p.0 as int == range.0 as int + self.offset as int && p.1 as int
                    == range.1 as int + self.offset as int,
                None => true,
            },
    {
        let lo: i128 = range.0 as i128 + self.offset as i128;
        let hi: i128 = range.1 as i128 + self.offset as i128;
        if i64::MIN as i128 <= lo && lo <= i64::MAX as i128 && i64::MIN as i128 <= hi && hi
            <= i64::MAX as i128 {
            Some((lo as i64, hi as i64))
        } else {
            None
        }
    }
}

/// Codec round-trip: the hypotheses are exactly what `encode_int` promises
/// of an accepted literal, and the conclusion is what decoding computes, so
/// a literal inside the encoded domain decodes back to itself.
pub proof fn lemma_codec_round_trip(c: IntegerOffsetCodec, v: i64, e: i64)
    requires
        e as int == v as int - c.offset as int,
    ensures
        e as int + c.offset as int == v as int,
{
}

} // verus!
