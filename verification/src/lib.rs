//! Geohash spatial encoding over exact fixed-point coordinates.
//!
//! A geohash is a short base32 string that names a rectangular cell of the
//! longitude/latitude grid: encoding interleaves binary bisections of the two
//! axis ranges, decoding recovers the cell's center together with its
//! half-width and half-height, and the neighbor operation walks to an adjacent
//! cell at the same precision.
//!
//! Coordinates are carried as degrees scaled by 2^32, so every bisection
//! midpoint that a precision of at most twelve characters can reach is an
//! exact integer and all three operations are exact integer arithmetic.

pub mod base32;
pub mod bisect;
pub mod bits;
pub mod codec;
pub mod laws;
pub mod neighbor;

pub use codec::Coordinate;
pub use codec::DecodedCell;
pub use codec::Direction;
pub use codec::GeohashError;
pub use codec::decode;
pub use codec::encode;
pub use neighbor::neighbor;
