//! The geohash operations over exact fixed-point coordinates.
//!
//! A coordinate carries degrees scaled by 2^32, so the longitude axis spans
//! `[-LON_BOUND, LON_BOUND]` and the latitude axis `[-LAT_BOUND, LAT_BOUND]`.
//! Working in offset units (value plus bound) keeps all bisection arithmetic
//! in unsigned integers, and every midpoint down to twelve characters of
//! precision is exact.

use vstd::prelude::*;
use vstd::string::StrSliceExecFns;
use vstd::arithmetic::div_mod::lemma_fundamental_div_mod;
use vstd::arithmetic::div_mod::lemma_div_multiples_vanish;
use crate::bits::interleave;
use crate::bits::even_bits;
use crate::bits::odd_bits;
use crate::bits::bits_val;
use crate::bits::lemma_interleave_push_even;
use crate::bits::lemma_interleave_push_odd;
use crate::bisect::mid;
use crate::bisect::bisect_bits;
use crate::bisect::debisect;
use crate::bisect::lemma_bisect_len;
use crate::bisect::lemma_bisect_snoc;
use crate::bisect::lemma_debisect_snoc;
use crate::base32::is_b32;
use crate::base32::char_val;
use crate::base32::char_bits;
use crate::base32::alphabet_char;
use crate::base32::chars_of_bits;
use crate::base32::hash_bits;
use crate::base32::char_of_val;
use crate::base32::val_of_char;
use crate::base32::lemma_bits_val_concrete5;
use crate::base32::lemma_char_bits_of_val;
use crate::base32::lemma_hash_bits_extend;
use crate::base32::bit1;

verus! {

/// One degree in scaled units: 2^32.
pub const DEGREE: i64 = 4294967296;

/// 180 degrees in scaled units: the longitude bound, and the latitude span.
pub const LON_BOUND: i64 = 773094113280;

/// 90 degrees in scaled units: the latitude bound.
pub const LAT_BOUND: i64 = 386547056640;

/// 360 degrees in scaled units: the longitude span.
pub const LON_SPAN: u64 = 1546188226560;

/// 180 degrees in scaled units: the latitude span.
pub const LAT_SPAN: u64 = 773094113280;

/// The longest supported geohash: beyond twelve characters the grid outruns
/// the resolution coordinates carry.
pub const MAX_PRECISION: usize = 12;

/// A longitude/latitude pair in scaled units: degrees times 2^32.
#[derive(Clone, Copy, PartialEq, Eq, Structural, Debug)]
pub struct Coordinate {
    pub lon: i64,
    pub lat: i64,
}

impl Coordinate {
    /// Longitude within 180 degrees of zero either way, latitude within 90.
    pub open spec fn wf(self) -> bool {
        -LON_BOUND <= self.lon <= LON_BOUND && -LAT_BOUND <= self.lat <= LAT_BOUND
    }
}

/// What decoding yields: the center of the named cell, and the cell's
/// half-width and half-height as the per-axis error bounds, in scaled units.
#[derive(Clone, Copy, PartialEq, Eq, Structural, Debug)]
pub struct DecodedCell {
    pub center: Coordinate,
    pub lon_err: i64,
    pub lat_err: i64,
}

/// The eight compass directions a neighbor can lie in.
#[derive(Clone, Copy, PartialEq, Eq, Structural, Debug)]
pub enum Direction {
    N,
    NE,
    E,
    SE,
    S,
    SW,
    W,
    NW,
}

/// Every way a geohash operation can refuse its input.
#[derive(Clone, Copy, PartialEq, Eq, Structural, Debug)]
pub enum GeohashError {
    /// Precision outside 1 through 12.
    InvalidPrecision,
    /// A character outside the alphabet, uppercase included.
    InvalidCharacter,
    /// A hash of zero length.
    EmptyInput,
    /// A direction code outside the eight compass values.
    InvalidDirection,
}

/// How many bits of a `p`-character hash belong to longitude: the axes
/// alternate starting with longitude, so longitude takes the odd one out.
pub open spec fn lon_bit_count(p: nat) -> nat {
    (5 * p + 1) / 2
}

/// How many bits of a `p`-character hash belong to latitude.
pub open spec fn lat_bit_count(p: nat) -> nat {
    5 * p / 2
}

/// The interleaved bit stream of a coordinate at `p` characters: longitude
/// leads and the axes alternate, each bisecting its own range.
pub open spec fn encode_bits(lon: int, lat: int, p: nat) -> Seq<bool> {
    interleave(
        bisect_bits(lon + LON_BOUND, 0, LON_SPAN as int, lon_bit_count(p)),
        bisect_bits(lat + LAT_BOUND, 0, LAT_SPAN as int, lat_bit_count(p)),
    )
}

/// The geohash of a coordinate at `p` characters.
pub open spec fn encode_seq(lon: int, lat: int, p: nat) -> Seq<char> {
    chars_of_bits(encode_bits(lon, lat, p))
}

/// The longitude interval of the cell a hash names, in offset units from the
/// west edge.
pub open spec fn lon_range_of(s: Seq<char>) -> (int, int) {
    debisect(even_bits(hash_bits(s)), 0, LON_SPAN as int)
}

/// The latitude interval of the cell a hash names, in offset units from the
/// south edge.
pub open spec fn lat_range_of(s: Seq<char>) -> (int, int) {
    debisect(odd_bits(hash_bits(s)), 0, LAT_SPAN as int)
}

/// The longitude of the cell's center, in scaled units.
pub open spec fn lon_center_of(s: Seq<char>) -> int {
    mid(lon_range_of(s).0, lon_range_of(s).1) - LON_BOUND
}

/// The latitude of the cell's center, in scaled units.
pub open spec fn lat_center_of(s: Seq<char>) -> int {
    mid(lat_range_of(s).0, lat_range_of(s).1) - LAT_BOUND
}

/// Half the cell's width: how far the decoded longitude can err.
pub open spec fn lon_err_of(s: Seq<char>) -> int {
    (lon_range_of(s).1 - lon_range_of(s).0) / 2
}

/// Half the cell's height: how far the decoded latitude can err.
pub open spec fn lat_err_of(s: Seq<char>) -> int {
    (lat_range_of(s).1 - lat_range_of(s).0) / 2
}

/// Relies on String::push: appends the one character at the end.
#[verifier::external_body]
fn push_char(s: &mut String, c: char)
    ensures
        final(s)@ == old(s)@.push(c),
{
    s.push(c);
}

/// Encode a coordinate as a geohash of exactly `precision` characters.
///
/// Fails with `InvalidPrecision` if and only if `precision` lies outside 1
/// through 12; the hash returned otherwise is `encode_seq` of the coordinate.
pub fn encode(c: &Coordinate, precision: usize) -> (r: Result<String, GeohashError>)
    requires
        c.wf(),
    ensures
        match r {
            Ok(s) => 1 <= precision <= 12 && s@.len() == precision && s@ == encode_seq(
                c.lon as int,
                c.lat as int,
                precision as nat,
            ),
            Err(e) => e == GeohashError::InvalidPrecision && !(1 <= precision <= 12),
        },
{
    if precision < 1 || precision > MAX_PRECISION {
        return Err(GeohashError::InvalidPrecision);
    }
    let ulon: u64 = (c.lon + LON_BOUND) as u64;
    let ulat: u64 = (c.lat + LAT_BOUND) as u64;
    let nbits: usize = 5 * precision;
    let mut bits: Vec<bool> = Vec::new();
    let mut lon_lo: u64 = 0;
    let mut lon_hi: u64 = LON_SPAN;
    let mut lat_lo: u64 = 0;
    let mut lat_hi: u64 = LAT_SPAN;
    let mut i: usize = 0;
    while i < nbits
        invariant
            i <= nbits,
            nbits == 5 * precision,
            1 <= precision <= 12,
            ulon == c.lon + LON_BOUND,
            ulat == c.lat + LAT_BOUND,
            ulon <= LON_SPAN,
            ulat <= LAT_SPAN,
            bits@.len() == i,
            bits@ == interleave(
                bisect_bits(ulon as int, 0, LON_SPAN as int, ((i + 1) / 2) as nat),
                bisect_bits(ulat as int, 0, LAT_SPAN as int, (i / 2) as nat),
            ),
            (lon_lo as int, lon_hi as int) == debisect(
                bisect_bits(ulon as int, 0, LON_SPAN as int, ((i + 1) / 2) as nat),
                0,
                LON_SPAN as int,
            ),
            (lat_lo as int, lat_hi as int) == debisect(
                bisect_bits(ulat as int, 0, LAT_SPAN as int, (i / 2) as nat),
                0,
                LAT_SPAN as int,
            ),
            lon_lo <= lon_hi <= LON_SPAN,
            lat_lo <= lat_hi <= LAT_SPAN,
        decreases nbits - i,
    {
        let ghost x = bisect_bits(ulon as int, 0, LON_SPAN as int, ((i + 1) / 2) as nat);
        let ghost y = bisect_bits(ulat as int, 0, LAT_SPAN as int, (i / 2) as nat);
        proof {
            lemma_bisect_len(ulon as int, 0, LON_SPAN as int, ((i + 1) / 2) as nat);
            lemma_bisect_len(ulat as int, 0, LAT_SPAN as int, (i / 2) as nat);
        }
        if i % 2 == 0 {
            proof {
                lemma_fundamental_div_mod(i as int, 2);
            }
            let m = lon_lo + (lon_hi - lon_lo) / 2;
            let b = ulon >= m;
            proof {
                assert(m as int == mid(lon_lo as int, lon_hi as int));
                lemma_bisect_snoc(ulon as int, 0, LON_SPAN as int, (i / 2) as nat);
                lemma_debisect_snoc(x, b, 0, LON_SPAN as int);
                lemma_interleave_push_even(x, y, b);
            }
            bits.push(b);
            if b {
                lon_lo = m;
            } else {
                lon_hi = m;
            }
        } else {
            proof {
                lemma_fundamental_div_mod(i as int, 2);
            }
            let m = lat_lo + (lat_hi - lat_lo) / 2;
            let b = ulat >= m;
            proof {
                assert(m as int == mid(lat_lo as int, lat_hi as int));
                lemma_bisect_snoc(ulat as int, 0, LAT_SPAN as int, (i / 2) as nat);
                lemma_debisect_snoc(y, b, 0, LAT_SPAN as int);
                lemma_interleave_push_odd(x, y, b);
            }
            bits.push(b);
            if b {
                lat_lo = m;
            } else {
                lat_hi = m;
            }
        }
        i += 1;
    }
    proof {
        assert(bits@ == encode_bits(c.lon as int, c.lat as int, precision as nat));
    }
    let mut out = String::new();
    let mut j: usize = 0;
    while j < precision
        invariant
            j <= precision,
            1 <= precision <= 12,
            bits@.len() == 5 * precision,
            bits@ == encode_bits(c.lon as int, c.lat as int, precision as nat),
            out@ == chars_of_bits(bits@).take(j as int),
        decreases precision - j,
    {
        let b0 = bits[5 * j];
        let b1 = bits[5 * j + 1];
        let b2 = bits[5 * j + 2];
        let b3 = bits[5 * j + 3];
        let b4 = bits[5 * j + 4];
        let k: u8 = (if b0 {
            16
        } else {
            0
        }) + (if b1 {
            8
        } else {
            0
        }) + (if b2 {
            4
        } else {
            0
        }) + (if b3 {
            2
        } else {
            0
        }) + (if b4 {
            1
        } else {
            0
        });
        proof {
            let g = bits@.subrange(5 * j as int, 5 * j as int + 5);
            assert(g =~= seq![b0, b1, b2, b3, b4]);
            lemma_bits_val_concrete5(b0, b1, b2, b3, b4);
            assert(bits_val(g) == k);
            lemma_char_bits_of_val(g);
        }
        let ch = char_of_val(k);
        push_char(&mut out, ch);
        proof {
            assert(chars_of_bits(bits@)[j as int] == alphabet_char(k as int));
            assert(chars_of_bits(bits@).take(j as int + 1) =~= chars_of_bits(bits@).take(
                j as int,
            ).push(chars_of_bits(bits@)[j as int]));
        }
        j += 1;
    }
    proof {
        lemma_div_multiples_vanish(precision as int, 5);
        assert(chars_of_bits(bits@).len() == precision);
        assert(out@ =~= chars_of_bits(bits@));
    }
    Ok(out)
}

/// The five bits of one character value, appended most significant first.
fn push_five_bits(bits: &mut Vec<bool>, k: u8)
    ensures
        final(bits)@ == old(bits)@ + char_bits(k as int),
{
    let b0 = k / 16 % 2 == 1;
    let b1 = k / 8 % 2 == 1;
    let b2 = k / 4 % 2 == 1;
    let b3 = k / 2 % 2 == 1;
    let b4 = k % 2 == 1;
    bits.push(b0);
    bits.push(b1);
    bits.push(b2);
    bits.push(b3);
    bits.push(b4);
    proof {
        assert(bits@ =~= old(bits)@ + char_bits(k as int));
    }
}

/// Decode a geohash to the center of the cell it names, with the per-axis
/// error bounds.
///
/// Fails with `EmptyInput` on a zero-length string, with `InvalidPrecision`
/// on one longer than 12 characters, and with `InvalidCharacter` exactly when
/// some character lies outside the alphabet; uppercase is outside.
#[verifier::rlimit(100)]
pub fn decode(hash: &str) -> (r: Result<DecodedCell, GeohashError>)
    ensures
        match r {
            Ok(cell) => {
                &&& 1 <= hash@.len() <= 12
                &&& (forall|i: int| 0 <= i < hash@.len() ==> is_b32(hash@[i]))
                &&& cell.center.lon as int == lon_center_of(hash@)
                &&& cell.center.lat as int == lat_center_of(hash@)
                &&& cell.lon_err as int == lon_err_of(hash@)
                &&& cell.lat_err as int == lat_err_of(hash@)
                &&& cell.center.wf()
                &&& 0 <= cell.lon_err <= LON_BOUND
                &&& 0 <= cell.lat_err <= LAT_BOUND
            },
            Err(GeohashError::EmptyInput) => hash@.len() == 0,
            Err(GeohashError::InvalidPrecision) => hash@.len() > 12,
            Err(GeohashError::InvalidCharacter) => 1 <= hash@.len() <= 12 && !(forall|i: int|
                0 <= i < hash@.len() ==> is_b32(hash@[i])),
            Err(GeohashError::InvalidDirection) => false,
        },
{
    let n = hash.unicode_len();
    if n == 0 {
        return Err(GeohashError::EmptyInput);
    }
    if n > MAX_PRECISION {
        return Err(GeohashError::InvalidPrecision);
    }
    let mut bits: Vec<bool> = Vec::new();
    let mut idx: usize = 0;
    while idx < n
        invariant
            idx <= n,
            n == hash@.len(),
            1 <= n <= 12,
            forall|i: int| 0 <= i < idx ==> is_b32(hash@[i]),
            bits@.len() == 5 * idx,
            bits@ == hash_bits(hash@).take(5 * idx as int),
        decreases n - idx,
    {
        let ch = hash.get_char(idx);
        match val_of_char(ch) {
            None => {
                return Err(GeohashError::InvalidCharacter);
            },
            Some(k) => {
                let ghost prev = bits@;
                push_five_bits(&mut bits, k);
                proof {
                    lemma_hash_bits_extend(hash@, prev, k as int, idx as int);
                }
            },
        }
        idx += 1;
    }
    let ghost hb = hash_bits(hash@);
    proof {
        assert(bits@ =~= hb);
    }
    let total = 5 * n;
    let mut lon_lo: u64 = 0;
    let mut lon_hi: u64 = LON_SPAN;
    let mut lat_lo: u64 = 0;
    let mut lat_hi: u64 = LAT_SPAN;
    let mut i: usize = 0;
    while i < total
        invariant
            i <= total,
            total == 5 * n,
            n == hash@.len(),
            1 <= n <= 12,
            bits@ == hash_bits(hash@),
            bits@.len() == total,
            (lon_lo as int, lon_hi as int) == debisect(
                even_bits(bits@).take(((i + 1) / 2) as int),
                0,
                LON_SPAN as int,
            ),
            (lat_lo as int, lat_hi as int) == debisect(
                odd_bits(bits@).take((i / 2) as int),
                0,
                LAT_SPAN as int,
            ),
            lon_lo <= lon_hi <= LON_SPAN,
            lat_lo <= lat_hi <= LAT_SPAN,
        decreases total - i,
    {
        let b = bits[i];
        proof {
            lemma_fundamental_div_mod(i as int, 2);
        }
        if i % 2 == 0 {
            let m = lon_lo + (lon_hi - lon_lo) / 2;
            proof {
                let x = even_bits(bits@);
                assert(m as int == mid(lon_lo as int, lon_hi as int));
                assert(x[(i / 2) as int] == bits@[i as int]);
                assert(x.take((i / 2) as int).push(b) =~= x.take((i / 2) as int + 1));
                lemma_debisect_snoc(x.take((i / 2) as int), b, 0, LON_SPAN as int);
            }
            if b {
                lon_lo = m;
            } else {
                lon_hi = m;
            }
        } else {
            let m = lat_lo + (lat_hi - lat_lo) / 2;
            proof {
                let y = odd_bits(bits@);
                assert(m as int == mid(lat_lo as int, lat_hi as int));
                assert(y[(i / 2) as int] == bits@[i as int]);
                assert(y.take((i / 2) as int).push(b) =~= y.take((i / 2) as int + 1));
                lemma_debisect_snoc(y.take((i / 2) as int), b, 0, LAT_SPAN as int);
            }
            if b {
                lat_lo = m;
            } else {
                lat_hi = m;
            }
        }
        i += 1;
    }
    proof {
        assert(even_bits(bits@).take(((total + 1) / 2) as int) =~= even_bits(bits@));
        assert(odd_bits(bits@).take((total / 2) as int) =~= odd_bits(bits@));
    }
    let lon_err_u = (lon_hi - lon_lo) / 2;
    let lat_err_u = (lat_hi - lat_lo) / 2;
    let lon_center_u = lon_lo + lon_err_u;
    let lat_center_u = lat_lo + lat_err_u;
    proof {
        lemma_fundamental_div_mod((lon_hi - lon_lo) as int, 2);
        lemma_fundamental_div_mod((lat_hi - lat_lo) as int, 2);
    }
    Ok(
        DecodedCell {
            center: Coordinate {
                lon: (lon_center_u as i64) - LON_BOUND,
                lat: (lat_center_u as i64) - LAT_BOUND,
            },
            lon_err: lon_err_u as i64,
            lat_err: lat_err_u as i64,
        },
    )
}

} // verus!
