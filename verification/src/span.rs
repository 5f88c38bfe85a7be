use vstd::prelude::*;

verus! {

/// The part of the map that a [`Storage`](crate::storage::Storage) covers:
/// the UTM bounds (each the bit pattern of its `f64` value) and the UTM zone
/// that all locations of the storage are relative to.
#[derive(Clone, Debug, PartialEq, Eq, Structural)]
pub struct Span {
    pub northing_low_bits: u64,
    pub northing_high_bits: u64,
    pub easting_low_bits: u64,
    pub easting_high_bits: u64,
    pub utm_zone_number: u8,
    pub utm_zone_letter: char,
}

/// Why the corners given for a span were refused.
#[derive(Clone, Copy, Debug, PartialEq, Eq, Structural)]
pub enum SpanError {
    LatitudeOutsideRange,
    SpanTooLarge,
    MismatchedCorners,
}

} // verus!
