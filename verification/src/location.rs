use vstd::prelude::*;

verus! {

/// Map location in the UTM coordinate system, without the zone, which the
/// storage's [`Span`](crate::span::Span) implies. The library keeps each
/// coordinate as the bit pattern of its `f64` value (`f64::to_bits`); the
/// floating-point operations on locations live with the application.
#[derive(Clone, Copy, Debug, PartialEq, Eq, Structural)]
pub struct Location {
    pub northing_bits: u64,
    pub easting_bits: u64,
}

impl Location {
    pub fn new(northing_bits: u64, easting_bits: u64) -> (r: Self)
        ensures
            r.northing_bits == northing_bits,
            r.easting_bits == easting_bits,
    {
        Location { northing_bits, easting_bits }
    }
}

} // verus!
