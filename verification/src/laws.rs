//! The laws the three operations obey, stated over the same spec functions
//! the operations' contracts use and proved for every admissible input.

use vstd::prelude::*;
use vstd::arithmetic::power2::pow2;
use vstd::arithmetic::power2::lemma_pow2_unfold;
use vstd::arithmetic::power2::lemma_pow2_adds;
use vstd::arithmetic::power2::lemma_pow2_pos;
use vstd::arithmetic::power2::lemma2_to64;
use vstd::arithmetic::power2::lemma2_to64_rest;
use vstd::arithmetic::mul::lemma_mul_is_associative;
use vstd::arithmetic::mul::lemma_mul_is_commutative;
use vstd::arithmetic::mul::lemma_mul_is_distributive_add_other_way;
use vstd::arithmetic::mul::lemma_mul_is_distributive_sub_other_way;
use vstd::arithmetic::mul::lemma_mul_inequality;
use vstd::arithmetic::mul::lemma_mul_strict_inequality;
use vstd::arithmetic::div_mod::lemma_fundamental_div_mod;
use vstd::arithmetic::div_mod::lemma_div_is_ordered;
use vstd::arithmetic::div_mod::lemma_div_pos_is_pos;
use vstd::arithmetic::div_mod::lemma_div_multiples_vanish;
use vstd::arithmetic::div_mod::lemma_mod_multiples_basic;
use crate::bits::bits_val;
use crate::bits::nat_bits;
use crate::bits::even_bits;
use crate::bits::odd_bits;
use crate::bits::interleave;
use crate::bits::lemma_bits_val_bound;
use crate::bits::lemma_bits_val_injective;
use crate::bits::lemma_nat_bits_val;
use crate::bits::lemma_interleave_even_odd;
use crate::bits::lemma_interleave_id;
use crate::bisect::bisect_bits;
use crate::bisect::debisect;
use crate::bisect::lemma_bisect_len;
use crate::bisect::lemma_bisect_in_range;
use crate::bisect::lemma_bisect_of_cell;
use crate::bisect::lemma_debisect_index;
use crate::base32::alphabet;
use crate::base32::valid_hash;
use crate::base32::hash_bits;
use crate::base32::chars_of_bits;
use crate::base32::lemma_hash_bits_of_chars;
use crate::base32::lemma_chars_of_hash_bits;
use crate::base32::lemma_chars_of_bits_valid;
use crate::codec::LON_BOUND;
use crate::codec::LAT_BOUND;
use crate::codec::LON_SPAN;
use crate::codec::LAT_SPAN;
use crate::codec::lon_bit_count;
use crate::codec::lat_bit_count;
use crate::codec::encode_bits;
use crate::codec::encode_seq;
use crate::codec::lon_range_of;
use crate::codec::lat_range_of;
use crate::codec::lon_center_of;
use crate::codec::lat_center_of;
use crate::codec::lon_err_of;
use crate::codec::lat_err_of;
use crate::codec::Direction;
use crate::neighbor::neighbor_seq;
use crate::neighbor::lon_step;
use crate::neighbor::lat_step;
use crate::neighbor::opposite;
use crate::neighbor::wrap_lon;
use crate::neighbor::clamp_lat;
verus! {

/// The longitude span splits into `2^n` equal cells of even, positive width
/// for every bit count a supported precision can ask of the axis.
proof fn lemma_lon_factor(n: nat)
    requires
        n <= 30,
    ensures
        LON_SPAN as int == (45 * pow2((35 - n) as nat)) * pow2(n),
        45 * pow2((35 - n) as nat) == 2 * (45 * pow2((34 - n) as nat)),
        45 * pow2((34 - n) as nat) >= 1,
{
    lemma2_to64();
    lemma2_to64_rest();
    lemma_pow2_adds((35 - n) as nat, n);
    lemma_mul_is_associative(45, pow2((35 - n) as nat) as int, pow2(n) as int);
    lemma_pow2_unfold((35 - n) as nat);
    lemma_pow2_pos((34 - n) as nat);
}

/// The latitude span splits the same way, with half the width at the same
/// bit count.
proof fn lemma_lat_factor(n: nat)
    requires
        n <= 30,
    ensures
        LAT_SPAN as int == (45 * pow2((34 - n) as nat)) * pow2(n),
        45 * pow2((34 - n) as nat) == 2 * (45 * pow2((33 - n) as nat)),
        45 * pow2((33 - n) as nat) >= 1,
{
    lemma2_to64();
    lemma2_to64_rest();
    lemma_pow2_adds((34 - n) as nat, n);
    lemma_mul_is_associative(45, pow2((34 - n) as nat) as int, pow2(n) as int);
    lemma_pow2_unfold((34 - n) as nat);
    lemma_pow2_pos((33 - n) as nat);
}

/// How the five bits per character fall to the two axes at a supported
/// precision: longitude and latitude split them as evenly as five allows.
proof fn lemma_bit_counts(p: nat)
    requires
        1 <= p <= 12,
    ensures
        lon_bit_count(p) <= 30,
        lat_bit_count(p) <= 30,
        1 <= lat_bit_count(p) <= lon_bit_count(p) <= lat_bit_count(p) + 1,
        lon_bit_count(p) + lat_bit_count(p) == 5 * p,
{
    lemma_fundamental_div_mod(5 * p as int, 2);
    lemma_fundamental_div_mod(5 * p as int + 1, 2);
    lemma_div_is_ordered(5 * p as int + 1, 61, 2);
    lemma_div_is_ordered(5 * p as int, 60, 2);
    lemma_div_is_ordered(5, 5 * p as int, 2);
    lemma_div_pos_is_pos(5 * p as int, 2);
}

/// Length contract of encoding: a precision of `p` yields exactly `p`
/// characters, whatever the coordinate.
pub proof fn lemma_encode_len(lon: int, lat: int, p: nat)
    requires
        1 <= p <= 12,
    ensures
        encode_seq(lon, lat, p).len() == p,
{
    lemma_bit_counts(p);
    lemma_bisect_len(lon + LON_BOUND, 0, LON_SPAN as int, lon_bit_count(p));
    lemma_bisect_len(lat + LAT_BOUND, 0, LAT_SPAN as int, lat_bit_count(p));
    lemma_div_multiples_vanish(p as int, 5);
}

/// Alphabet closure: every character an encoding produces is a member of the
/// 32-symbol alphabet.
pub proof fn lemma_alphabet_closure(lon: int, lat: int, p: nat)
    ensures
        forall|k: int|
            0 <= k < encode_seq(lon, lat, p).len() ==> alphabet().contains(
                #[trigger] encode_seq(lon, lat, p)[k],
            ),
{
    lemma_chars_of_bits_valid(encode_bits(lon, lat, p));
}

/// An encoding at a supported precision is a valid hash: the right length,
/// every character in the alphabet.
pub proof fn lemma_encode_valid_hash(lon: int, lat: int, p: nat)
    requires
        1 <= p <= 12,
    ensures
        valid_hash(encode_seq(lon, lat, p)),
{
    lemma_encode_len(lon, lat, p);
    lemma_chars_of_bits_valid(encode_bits(lon, lat, p));
}

/// Round trip: decoding an encoding finds a center within the reported error
/// of the coordinate that was encoded, on both axes.
pub proof fn lemma_round_trip(lon: int, lat: int, p: nat)
    requires
        -LON_BOUND <= lon <= LON_BOUND,
        -LAT_BOUND <= lat <= LAT_BOUND,
        1 <= p <= 12,
    ensures
        ({
            let s = encode_seq(lon, lat, p);
            &&& lon_center_of(s) - lon_err_of(s) <= lon <= lon_center_of(s) + lon_err_of(s)
            &&& lat_center_of(s) - lat_err_of(s) <= lat <= lat_center_of(s) + lat_err_of(s)
        }),
{
    let s = encode_seq(lon, lat, p);
    let nl = lon_bit_count(p);
    let nt = lat_bit_count(p);
    let x = bisect_bits(lon + LON_BOUND, 0, LON_SPAN as int, nl);
    let y = bisect_bits(lat + LAT_BOUND, 0, LAT_SPAN as int, nt);
    let b = interleave(x, y);
    lemma_bit_counts(p);
    lemma_bisect_len(lon + LON_BOUND, 0, LON_SPAN as int, nl);
    lemma_bisect_len(lat + LAT_BOUND, 0, LAT_SPAN as int, nt);
    assert(b.len() == 5 * p);
    assert((5 * p as int) % 5 == 0) by {
        lemma_mod_multiples_basic(p as int, 5);
    }
    lemma_hash_bits_of_chars(b);
    lemma_interleave_even_odd(x, y);
    assert(lon_range_of(s) == debisect(x, 0, LON_SPAN as int));
    assert(lat_range_of(s) == debisect(y, 0, LAT_SPAN as int));
    lemma_bisect_in_range(lon + LON_BOUND, 0, LON_SPAN as int, nl);
    lemma_bisect_in_range(lat + LAT_BOUND, 0, LAT_SPAN as int, nt);
    lemma_lon_factor(nl);
    let w = 45 * pow2((35 - nl) as nat) as int;
    lemma_debisect_index(x, 0, w);
    lemma_lat_factor(nt);
    let h = 45 * pow2((34 - nt) as nat) as int;
    lemma_debisect_index(y, 0, h);
    assert(lon_range_of(s).1 - lon_range_of(s).0 == w);
    assert(lat_range_of(s).1 - lat_range_of(s).0 == h);
    assert(lon_err_of(s) == w / 2);
    assert(lat_err_of(s) == h / 2);
    assert(w / 2 == 45 * pow2((34 - nl) as nat));
    assert(h / 2 == 45 * pow2((33 - nt) as nat));
}

/// The index of the cell a hash names on the longitude axis, counted from
/// the west edge.
pub open spec fn lon_cell_of(s: Seq<char>) -> nat {
    bits_val(even_bits(hash_bits(s)))
}

/// The index of the cell a hash names on the latitude axis, counted from the
/// south edge.
pub open spec fn lat_cell_of(s: Seq<char>) -> nat {
    bits_val(odd_bits(hash_bits(s)))
}

/// An index stepped with wraparound over `m` cells.
pub open spec fn wrap_cell(t: int, m: nat) -> nat {
    if t < 0 {
        (t + m) as nat
    } else if t >= m {
        (t - m) as nat
    } else {
        t as nat
    }
}

/// An index stepped with clamping to the edges of `m` cells.
pub open spec fn clamp_cell(t: int, m: nat) -> nat {
    if t < 0 {
        0
    } else if t >= m {
        (m - 1) as nat
    } else {
        t as nat
    }
}

/// A value sitting in cell `t` of a span of `pow2(n)` cells of width `w`
/// bisects to exactly the binary numeral of `t`; the top of the whole span
/// counts as the last cell.
proof fn lemma_bisect_center(t: nat, w: int, n: nat, span: int, v: int)
    requires
        w >= 2,
        t < pow2(n),
        span == w * pow2(n),
        t * w <= v <= t * w + w,
        v < t * w + w || t + 1 == pow2(n),
    ensures
        bisect_bits(v, 0, span, n) == nat_bits(t, n),
        nat_bits(t, n).len() == n,
        bits_val(nat_bits(t, n)) == t,
{
    lemma_nat_bits_val(t, n);
    lemma_debisect_index(nat_bits(t, n), 0, w);
    if t + 1 == pow2(n) {
        assert((t + 1) * w == pow2(n) * w) by {
            lemma_mul_is_commutative(t as int + 1, w);
            lemma_mul_is_commutative(pow2(n) as int, w);
        }
        assert(t * w + w == (t + 1) * w) by {
            lemma_mul_is_distributive_add_other_way(w, t as int, 1);
        }
        lemma_mul_is_commutative(w, pow2(n) as int);
    }
    lemma_bisect_of_cell(nat_bits(t, n), v, 0, w);
}

/// What one neighbor step does, cell by cell: the longitude index moves with
/// wraparound, the latitude index with clamping, and the result is again a
/// valid hash of the same length.
pub proof fn lemma_neighbor_cell(s: Seq<char>, d: Direction)
    requires
        valid_hash(s),
    ensures
        ({
            let s2 = neighbor_seq(s, d);
            let ml = pow2(lon_bit_count(s.len()));
            let mt = pow2(lat_bit_count(s.len()));
            &&& s2.len() == s.len()
            &&& valid_hash(s2)
            &&& lon_cell_of(s) < ml
            &&& lat_cell_of(s) < mt
            &&& lon_cell_of(s2) == wrap_cell(lon_cell_of(s) as int + lon_step(d), ml)
            &&& lat_cell_of(s2) == clamp_cell(lat_cell_of(s) as int + lat_step(d), mt)
            &&& (lat_range_of(s).1 == LAT_SPAN) == (lat_cell_of(s) + 1 == mt)
            &&& (lat_range_of(s).0 == 0) == (lat_cell_of(s) == 0)
        }),
{
    let p = s.len();
    let nl = lon_bit_count(p);
    let nt = lat_bit_count(p);
    lemma_bit_counts(p);
    let b = hash_bits(s);
    assert(b.len() == 5 * p);
    let x = even_bits(b);
    let y = odd_bits(b);
    assert(x.len() == nl && y.len() == nt);
    let i = bits_val(x);
    let j = bits_val(y);
    let ml = pow2(nl);
    let mt = pow2(nt);
    lemma_bits_val_bound(x);
    lemma_bits_val_bound(y);
    lemma_lon_factor(nl);
    lemma_lat_factor(nt);
    let w = 45 * pow2((35 - nl) as nat) as int;
    let h = 45 * pow2((34 - nt) as nat) as int;
    lemma_debisect_index(x, 0, w);
    lemma_debisect_index(y, 0, h);
    assert(lon_range_of(s) == (i * w, i * w + w));
    assert(lat_range_of(s) == (j * h, j * h + h));
    assert(2 * lon_err_of(s) == w && 2 * lat_err_of(s) == h);
    assert(ml * w == LON_SPAN) by {
        lemma_mul_is_commutative(w, ml as int);
    }
    assert(mt * h == LAT_SPAN) by {
        lemma_mul_is_commutative(h, mt as int);
    }
    assert((i + 1) * w == i * w + w && (i + 2) * w == i * w + 2 * w) by {
        lemma_mul_is_distributive_add_other_way(w, i as int, 1);
        lemma_mul_is_distributive_add_other_way(w, i as int, 2);
    }
    assert((j + 1) * h == j * h + h && (j + 2) * h == j * h + 2 * h) by {
        lemma_mul_is_distributive_add_other_way(h, j as int, 1);
        lemma_mul_is_distributive_add_other_way(h, j as int, 2);
    }
    assert((lat_range_of(s).1 == LAT_SPAN) == (j + 1 == mt)) by {
        if j + 1 < mt {
            lemma_mul_strict_inequality(j as int + 1, mt as int, h);
        }
        if j + 1 == mt {
            assert((j + 1) * h == mt * h);
        }
    }
    assert((lat_range_of(s).0 == 0) == (j == 0)) by {
        if j >= 1 {
            lemma_mul_inequality(1, j as int, h);
        }
    }
    let cx = i * w + w / 2;
    let cy = j * h + h / 2;
    assert(lon_center_of(s) + LON_BOUND == cx && lat_center_of(s) + LAT_BOUND == cy);
    let dx = lon_step(d);
    let dy = lat_step(d);
    let sx = cx + dx * w;
    let sy = cy + dy * h;
    if dx == 1 {
        assert(dx * w == 1 * w);
    } else if dx == -1 {
        assert(dx * w == (-1) * w);
    } else {
        assert(dx * w == 0 * w);
    }
    if dy == 1 {
        assert(dy * h == 1 * h);
    } else if dy == -1 {
        assert(dy * h == (-1) * h);
    } else {
        assert(dy * h == 0 * h);
    }
    assert(lon_center_of(s) + LON_BOUND + dx * (2 * lon_err_of(s)) == sx);
    assert(lat_center_of(s) + LAT_BOUND + dy * (2 * lat_err_of(s)) == sy);
    let t1 = wrap_cell(i as int + dx, ml);
    let t2 = clamp_cell(j as int + dy, mt);
    let vx = wrap_lon(sx);
    let vy = clamp_lat(sy);
    assert(i * w >= 0 && j * h >= 0) by {
        lemma_mul_inequality(0, i as int, w);
        lemma_mul_inequality(0, j as int, h);
    }
    assert((i + 1) * w <= ml * w && (j + 1) * h <= mt * h) by {
        lemma_mul_inequality(i as int + 1, ml as int, w);
        lemma_mul_inequality(j as int + 1, mt as int, h);
    }
    assert(t1 * w <= vx <= t1 * w + w && (vx < t1 * w + w || t1 + 1 == ml) && t1 < ml) by {
        if dx == 1 {
            if i + 1 == ml {
                assert(sx == LON_SPAN + w / 2);
                assert(vx == w / 2);
                assert(t1 == 0);
                assert(t1 * w == 0);
            } else {
                assert((i + 2) * w <= ml * w) by {
                    lemma_mul_inequality(i as int + 2, ml as int, w);
                }
                assert(t1 == i + 1);
                assert(t1 * w == i * w + w);
            }
        } else if dx == -1 {
            if i == 0 {
                assert(sx == w / 2 - w);
                assert(vx == LON_SPAN + w / 2 - w);
                assert(t1 == ml - 1);
                assert(t1 * w == ml * w - w) by {
                    lemma_mul_is_distributive_sub_other_way(w, ml as int, 1);
                }
            } else {
                assert(t1 == i - 1);
                assert(t1 * w == i * w - w) by {
                    lemma_mul_is_distributive_sub_other_way(w, i as int, 1);
                }
            }
        } else {
            assert(t1 == i);
        }
    }
    assert(t2 * h <= vy <= t2 * h + h && (vy < t2 * h + h || t2 + 1 == mt) && t2 < mt) by {
        lemma_pow2_pos(nt);
        if dy == 1 {
            if j + 1 == mt {
                assert(sy == LAT_SPAN + h / 2);
                assert(vy == LAT_SPAN);
                assert(t2 == mt - 1);
                assert(t2 * h == mt * h - h) by {
                    lemma_mul_is_distributive_sub_other_way(h, mt as int, 1);
                }
            } else {
                assert((j + 2) * h <= mt * h) by {
                    lemma_mul_inequality(j as int + 2, mt as int, h);
                }
                assert(t2 == j + 1);
                assert(t2 * h == j * h + h);
            }
        } else if dy == -1 {
            if j == 0 {
                assert(sy == h / 2 - h);
                assert(vy == 0);
                assert(t2 == 0);
                assert(t2 * h == 0);
            } else {
                assert(t2 == j - 1);
                assert(t2 * h == j * h - h) by {
                    lemma_mul_is_distributive_sub_other_way(h, j as int, 1);
                }
            }
        } else {
            assert(t2 == j);
        }
    }
    lemma_bisect_center(t1, w, nl, LON_SPAN as int, vx);
    lemma_bisect_center(t2, h, nt, LAT_SPAN as int, vy);
    let x2 = nat_bits(t1, nl);
    let y2 = nat_bits(t2, nt);
    let b2 = interleave(x2, y2);
    let s2 = neighbor_seq(s, d);
    assert(encode_bits(vx - LON_BOUND, vy - LAT_BOUND, p) == b2);
    assert(s2 == chars_of_bits(b2));
    assert(b2.len() == 5 * p);
    assert((5 * p as int) % 5 == 0) by {
        lemma_mod_multiples_basic(p as int, 5);
    }
    lemma_div_multiples_vanish(p as int, 5);
    assert(s2.len() == p);
    lemma_chars_of_bits_valid(b2);
    assert(valid_hash(s2));
    lemma_hash_bits_of_chars(b2);
    lemma_interleave_even_odd(x2, y2);
    assert(lon_cell_of(s2) == t1 && lat_cell_of(s2) == t2);
}

/// Idempotent direction pair: stepping to a neighbor and back returns the
/// original hash, for every direction and its opposite, whenever the
/// latitude component of the step does not run into a pole.
pub proof fn lemma_neighbor_involution(s: Seq<char>, d: Direction)
    requires
        valid_hash(s),
        lat_step(d) == 1 ==> lat_range_of(s).1 != LAT_SPAN,
        lat_step(d) == -1 ==> lat_range_of(s).0 != 0,
    ensures
        neighbor_seq(neighbor_seq(s, d), opposite(d)) == s,
{
    let p = s.len();
    let ml = pow2(lon_bit_count(p));
    let mt = pow2(lat_bit_count(p));
    let i = lon_cell_of(s);
    let j = lat_cell_of(s);
    lemma_neighbor_cell(s, d);
    let s2 = neighbor_seq(s, d);
    lemma_neighbor_cell(s2, opposite(d));
    let s3 = neighbor_seq(s2, opposite(d));
    lemma_pow2_pos(lon_bit_count(p));
    lemma_pow2_pos(lat_bit_count(p));
    assert(lon_step(opposite(d)) == -lon_step(d));
    assert(lat_step(opposite(d)) == -lat_step(d));
    assert(lon_cell_of(s3) == i);
    assert(lat_cell_of(s3) == j);
    let b = hash_bits(s);
    let b3 = hash_bits(s3);
    assert(s3.len() == p);
    assert(even_bits(b3).len() == even_bits(b).len());
    assert(odd_bits(b3).len() == odd_bits(b).len());
    lemma_bits_val_injective(even_bits(b3), even_bits(b));
    lemma_bits_val_injective(odd_bits(b3), odd_bits(b));
    lemma_interleave_id(b3);
    lemma_interleave_id(b);
    assert(b3 == b);
    lemma_chars_of_hash_bits(s3);
    lemma_chars_of_hash_bits(s);
}


} // verus!
