//! The neighbor operation: the hash of the cell one step over on the same
//! grid, found by decoding, shifting the center a full cell width or height,
//! and re-encoding at the same precision.
//!
//! At the edges of the grid the shift is tamed as documented on `wrap_lon`
//! and `clamp_lat`: longitude wraps around the antimeridian, latitude clamps
//! at the poles.

use vstd::prelude::*;
use vstd::string::StrSliceExecFns;
use crate::codec::Coordinate;
use crate::codec::Direction;
use crate::codec::GeohashError;
use crate::codec::LON_BOUND;
use crate::codec::LAT_BOUND;
use crate::codec::LON_SPAN;
use crate::codec::LAT_SPAN;
use crate::codec::decode;
use crate::codec::encode;
use crate::codec::encode_seq;
use crate::codec::lon_center_of;
use crate::codec::lat_center_of;
use crate::codec::lon_err_of;
use crate::codec::lat_err_of;
use crate::base32::is_b32;

verus! {

/// Eastward component of a direction, in cells.
pub open spec fn lon_step(d: Direction) -> int {
    match d {
        Direction::N => 0,
        Direction::NE => 1,
        Direction::E => 1,
        Direction::SE => 1,
        Direction::S => 0,
        Direction::SW => -1,
        Direction::W => -1,
        Direction::NW => -1,
    }
}

/// Northward component of a direction, in cells.
pub open spec fn lat_step(d: Direction) -> int {
    match d {
        Direction::N => 1,
        Direction::NE => 1,
        Direction::E => 0,
        Direction::SE => -1,
        Direction::S => -1,
        Direction::SW => -1,
        Direction::W => 0,
        Direction::NW => 1,
    }
}

/// The direction pointing back the way a direction came.
pub open spec fn opposite(d: Direction) -> Direction {
    match d {
        Direction::N => Direction::S,
        Direction::NE => Direction::SW,
        Direction::E => Direction::W,
        Direction::SE => Direction::NW,
        Direction::S => Direction::N,
        Direction::SW => Direction::NE,
        Direction::W => Direction::E,
        Direction::NW => Direction::SE,
    }
}

/// The compass value a small integer code names: 0 is north, and the codes
/// walk clockwise through the eight directions.
pub open spec fn direction_of_code(code: int) -> Direction {
    if code == 0 {
        Direction::N
    } else if code == 1 {
        Direction::NE
    } else if code == 2 {
        Direction::E
    } else if code == 3 {
        Direction::SE
    } else if code == 4 {
        Direction::S
    } else if code == 5 {
        Direction::SW
    } else if code == 6 {
        Direction::W
    } else {
        Direction::NW
    }
}

/// A longitude offset pushed past either edge of the span comes back in from
/// the other side: the grid wraps around the antimeridian.
pub open spec fn wrap_lon(v: int) -> int {
    if v < 0 {
        v + LON_SPAN
    } else if v > LON_SPAN {
        v - LON_SPAN
    } else {
        v
    }
}

/// A latitude offset pushed past either edge of the span stays on that edge:
/// the grid clamps at the poles.
pub open spec fn clamp_lat(v: int) -> int {
    if v < 0 {
        0
    } else if v > LAT_SPAN {
        LAT_SPAN as int
    } else {
        v
    }
}

/// The hash of the adjacent cell: the decoded center shifted by twice the
/// per-axis error, the edge policy applied, re-encoded at the same length.
pub open spec fn neighbor_seq(s: Seq<char>, d: Direction) -> Seq<char> {
    let nlon = wrap_lon(lon_center_of(s) + LON_BOUND + lon_step(d) * (2 * lon_err_of(s)));
    let nlat = clamp_lat(lat_center_of(s) + LAT_BOUND + lat_step(d) * (2 * lat_err_of(s)));
    encode_seq(nlon - LON_BOUND, nlat - LAT_BOUND, s.len())
}

impl Direction {
    /// The direction a small integer code names, counting clockwise from 0
    /// for north.
    ///
    /// Fails with `InvalidDirection` if and only if the code lies outside 0
    /// through 7.
    pub fn from_code(code: i32) -> (r: Result<Direction, GeohashError>)
        ensures
            match r {
                Ok(d) => 0 <= code <= 7 && d == direction_of_code(code as int),
                Err(e) => e == GeohashError::InvalidDirection && !(0 <= code <= 7),
            },
    {
        match code {
            0 => Ok(Direction::N),
            1 => Ok(Direction::NE),
            2 => Ok(Direction::E),
            3 => Ok(Direction::SE),
            4 => Ok(Direction::S),
            5 => Ok(Direction::SW),
            6 => Ok(Direction::W),
            7 => Ok(Direction::NW),
            _ => Err(GeohashError::InvalidDirection),
        }
    }
}

/// The geohash of the adjacent cell in the given compass direction, at the
/// same precision as the input.
///
/// Propagates the decoding failures: `EmptyInput`, `InvalidPrecision` past
/// twelve characters, and `InvalidCharacter`, each exactly on the inputs
/// `decode` refuses.
pub fn neighbor(hash: &str, d: Direction) -> (r: Result<String, GeohashError>)
    ensures
        match r {
            Ok(s) => {
                &&& 1 <= hash@.len() <= 12
                &&& (forall|i: int| 0 <= i < hash@.len() ==> is_b32(hash@[i]))
                &&& s@ == neighbor_seq(hash@, d)
                &&& s@.len() == hash@.len()
            },
            Err(GeohashError::EmptyInput) => hash@.len() == 0,
            Err(GeohashError::InvalidPrecision) => hash@.len() > 12,
            Err(GeohashError::InvalidCharacter) => 1 <= hash@.len() <= 12 && !(forall|i: int|
                0 <= i < hash@.len() ==> is_b32(hash@[i])),
            Err(GeohashError::InvalidDirection) => false,
        },
{
    let n = hash.unicode_len();
    let cell = match decode(hash) {
        Ok(c) => c,
        Err(e) => {
            return Err(e);
        },
    };
    let dx: i64 = match d {
        Direction::N => 0,
        Direction::NE => 1,
        Direction::E => 1,
        Direction::SE => 1,
        Direction::S => 0,
        Direction::SW => -1,
        Direction::W => -1,
        Direction::NW => -1,
    };
    let dy: i64 = match d {
        Direction::N => 1,
        Direction::NE => 1,
        Direction::E => 0,
        Direction::SE => -1,
        Direction::S => -1,
        Direction::SW => -1,
        Direction::W => 0,
        Direction::NW => 1,
    };
    proof {
        assert(dx as int == lon_step(d));
        assert(dy as int == lat_step(d));
    }
    let step_x: i64 = 2 * cell.lon_err;
    let step_y: i64 = 2 * cell.lat_err;
    let lon_off: i64 = cell.center.lon + LON_BOUND;
    let lat_off: i64 = cell.center.lat + LAT_BOUND;
    let sx: i64 = if dx == 1 {
        lon_off + step_x
    } else if dx == -1 {
        lon_off - step_x
    } else {
        lon_off
    };
    let sy: i64 = if dy == 1 {
        lat_off + step_y
    } else if dy == -1 {
        lat_off - step_y
    } else {
        lat_off
    };
    proof {
        let mx = 2 * lon_err_of(hash@);
        let my = 2 * lat_err_of(hash@);
        if dx == 1 {
            assert(lon_step(d) * mx == 1 * mx);
        } else if dx == -1 {
            assert(lon_step(d) * mx == (-1) * mx);
        } else {
            assert(lon_step(d) * mx == 0 * mx);
        }
        if dy == 1 {
            assert(lat_step(d) * my == 1 * my);
        } else if dy == -1 {
            assert(lat_step(d) * my == (-1) * my);
        } else {
            assert(lat_step(d) * my == 0 * my);
        }
        assert(sx as int == lon_center_of(hash@) + LON_BOUND + lon_step(d) * mx);
        assert(sy as int == lat_center_of(hash@) + LAT_BOUND + lat_step(d) * my);
    }
    let wx: i64 = if sx < 0 {
        sx + (LON_SPAN as i64)
    } else if sx > (LON_SPAN as i64) {
        sx - (LON_SPAN as i64)
    } else {
        sx
    };
    let wy: i64 = if sy < 0 {
        0
    } else if sy > (LAT_SPAN as i64) {
        LAT_SPAN as i64
    } else {
        sy
    };
    let shifted = Coordinate { lon: wx - LON_BOUND, lat: wy - LAT_BOUND };
    proof {
        assert(wx as int == wrap_lon(lon_center_of(hash@) + LON_BOUND + lon_step(d) * (2
            * lon_err_of(hash@))));
        assert(wy as int == clamp_lat(lat_center_of(hash@) + LAT_BOUND + lat_step(d) * (2
            * lat_err_of(hash@))));
        assert(shifted.wf());
    }
    match encode(&shifted, n) {
        Ok(s) => Ok(s),
        Err(_) => {
            proof {
                assert(false);
            }
            Err(GeohashError::EmptyInput)
        },
    }
}

} // verus!
