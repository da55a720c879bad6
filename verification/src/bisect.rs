//! Binary bisection of a closed integer interval: the shared convention that
//! ties encoding (choose the half that holds the value) to decoding (follow
//! recorded bits through the same halving).
//!
//! All lemmas speak of intervals of width `w * pow2(n)`, so that every
//! midpoint taken over `n` steps is exact.

use vstd::prelude::*;
use vstd::arithmetic::power2::pow2;
use vstd::arithmetic::power2::lemma_pow2_unfold;
use vstd::arithmetic::power2::lemma_pow2_pos;
use vstd::arithmetic::power2::lemma2_to64;
use vstd::arithmetic::div_mod::lemma_fundamental_div_mod;
use vstd::arithmetic::mul::lemma_mul_is_distributive_add_other_way;
use vstd::arithmetic::mul::lemma_mul_is_commutative;
use vstd::arithmetic::mul::lemma_mul_inequality;
use crate::bits::bits_val;
use crate::bits::lemma_bits_val_bound;

verus! {

/// Midpoint of `[lo, hi]`; exact whenever the width is even.
pub open spec fn mid(lo: int, hi: int) -> int {
    lo + (hi - lo) / 2
}

/// One refinement step: keep the upper half on a set bit, the lower half on a
/// clear bit.
pub open spec fn refine(lo: int, hi: int, b: bool) -> (int, int) {
    if b {
        (mid(lo, hi), hi)
    } else {
        (lo, mid(lo, hi))
    }
}

/// The bit string that `n` bisection steps toward `v` produce, most
/// significant bit first: a set bit records that `v` lay at or above the
/// midpoint.
pub open spec fn bisect_bits(v: int, lo: int, hi: int, n: nat) -> Seq<bool>
    decreases n,
{
    if n == 0 {
        Seq::empty()
    } else {
        let b = v >= mid(lo, hi);
        let r = refine(lo, hi, b);
        seq![b] + bisect_bits(v, r.0, r.1, (n - 1) as nat)
    }
}

/// The interval reached from `[lo, hi]` by refining along the bits of `bs`.
pub open spec fn debisect(bs: Seq<bool>, lo: int, hi: int) -> (int, int)
    decreases bs.len(),
{
    if bs.len() == 0 {
        (lo, hi)
    } else {
        let r = refine(lo, hi, bs[0]);
        debisect(bs.drop_first(), r.0, r.1)
    }
}

pub proof fn lemma_bisect_len(v: int, lo: int, hi: int, n: nat)
    ensures
        bisect_bits(v, lo, hi, n).len() == n,
    decreases n,
{
    if n > 0 {
        let b = v >= mid(lo, hi);
        let r = refine(lo, hi, b);
        lemma_bisect_len(v, r.0, r.1, (n - 1) as nat);
    }
}

pub proof fn lemma_debisect_snoc(bs: Seq<bool>, b: bool, lo: int, hi: int)
    ensures
        debisect(bs.push(b), lo, hi) == ({
            let r = debisect(bs, lo, hi);
            refine(r.0, r.1, b)
        }),
    decreases bs.len(),
{
    if bs.len() == 0 {
        assert(bs.push(b).drop_first() =~= Seq::<bool>::empty());
        assert(bs.push(b)[0] == b);
        assert(debisect(bs, lo, hi) == (lo, hi));
        let r = refine(lo, hi, b);
        assert(debisect(bs.push(b), lo, hi) == debisect(Seq::<bool>::empty(), r.0, r.1));
    } else {
        assert(bs.push(b).drop_first() =~= bs.drop_first().push(b));
        assert(bs.push(b)[0] == bs[0]);
        let r = refine(lo, hi, bs[0]);
        assert(debisect(bs, lo, hi) == debisect(bs.drop_first(), r.0, r.1));
        assert(debisect(bs.push(b), lo, hi) == debisect(bs.drop_first().push(b), r.0, r.1));
        lemma_debisect_snoc(bs.drop_first(), b, r.0, r.1);
    }
}

pub proof fn lemma_bisect_snoc(v: int, lo: int, hi: int, n: nat)
    ensures
        bisect_bits(v, lo, hi, n + 1) == ({
            let r = debisect(bisect_bits(v, lo, hi, n), lo, hi);
            bisect_bits(v, lo, hi, n).push(v >= mid(r.0, r.1))
        }),
    decreases n,
{
    if n == 0 {
        let b = v >= mid(lo, hi);
        assert(bisect_bits(v, lo, hi, 1) =~= Seq::<bool>::empty().push(b)) by {
            let r = refine(lo, hi, b);
            assert(bisect_bits(v, r.0, r.1, 0) == Seq::<bool>::empty());
        }
    } else {
        let b0 = v >= mid(lo, hi);
        let r0 = refine(lo, hi, b0);
        lemma_bisect_snoc(v, r0.0, r0.1, (n - 1) as nat);
        let rest = bisect_bits(v, r0.0, r0.1, (n - 1) as nat);
        let full = bisect_bits(v, lo, hi, n);
        assert(full == seq![b0] + rest);
        assert(full[0] == b0);
        assert(full.drop_first() =~= rest);
        let r = debisect(rest, r0.0, r0.1);
        assert(debisect(full, lo, hi) == r);
        let rest1 = bisect_bits(v, r0.0, r0.1, n as nat);
        assert(bisect_bits(v, lo, hi, n + 1) == seq![b0] + rest1);
        assert(rest1 == rest.push(v >= mid(r.0, r.1)));
        assert(seq![b0] + rest.push(v >= mid(r.0, r.1)) =~= (seq![b0] + rest).push(
            v >= mid(r.0, r.1),
        ));
    }
}

/// Refining `[lo, lo + w * pow2(n)]` along an `n`-bit string lands on the
/// cell of width `w` whose index is the string's binary value.
pub proof fn lemma_debisect_index(bs: Seq<bool>, lo: int, w: int)
    requires
        w >= 0,
    ensures
        ({
            let r = debisect(bs, lo, lo + w * pow2(bs.len()));
            r.0 == lo + bits_val(bs) * w && r.1 == r.0 + w
        }),
    decreases bs.len(),
{
    lemma2_to64();
    if bs.len() == 0 {
        assert(bits_val(bs) == 0);
        assert(0 * w == 0);
        assert(w * pow2(0) == w);
        assert(debisect(bs, lo, lo + w * pow2(0)) == (lo, lo + w * pow2(0)));
    } else {
        let n = bs.len();
        let hi = lo + w * pow2(n);
        let half = w * pow2((n - 1) as nat);
        lemma_pow2_unfold(n);
        assert(w * pow2(n) == half * 2) by {
            lemma_mul_is_commutative(w, pow2(n) as int);
            lemma_mul_is_commutative(w, pow2((n - 1) as nat) as int);
            lemma_mul_is_distributive_add_other_way(
                w,
                pow2((n - 1) as nat) as int,
                pow2((n - 1) as nat) as int,
            );
        }
        assert((half * 2) / 2 == half);
        assert(mid(lo, hi) == lo + half);
        let rest = bs.drop_first();
        if bs[0] {
            lemma_debisect_index(rest, lo + half, w);
            assert(lo + half + w * pow2((n - 1) as nat) == hi);
            assert(bits_val(bs) == pow2((n - 1) as nat) + bits_val(rest));
            assert((pow2((n - 1) as nat) + bits_val(rest)) * w == pow2((n - 1) as nat) * w
                + bits_val(rest) * w) by {
                lemma_mul_is_distributive_add_other_way(
                    w,
                    pow2((n - 1) as nat) as int,
                    bits_val(rest) as int,
                );
            }
            lemma_mul_is_commutative(w, pow2((n - 1) as nat) as int);
        } else {
            lemma_debisect_index(rest, lo, w);
            assert(bits_val(bs) == bits_val(rest));
        }
    }
}

/// Bisection toward a value of the interval never loses it: the refined
/// interval still holds `v` after every step.
pub proof fn lemma_bisect_in_range(v: int, lo: int, hi: int, n: nat)
    requires
        lo <= v <= hi,
    ensures
        ({
            let r = debisect(bisect_bits(v, lo, hi, n), lo, hi);
            r.0 <= v <= r.1
        }),
    decreases n,
{
    if n > 0 {
        lemma_fundamental_div_mod(hi - lo, 2);
        assert(lo <= mid(lo, hi) <= hi);
        let b = v >= mid(lo, hi);
        let r0 = refine(lo, hi, b);
        lemma_bisect_in_range(v, r0.0, r0.1, (n - 1) as nat);
        let full = bisect_bits(v, lo, hi, n);
        let rest = bisect_bits(v, r0.0, r0.1, (n - 1) as nat);
        assert(full[0] == b && full.drop_first() =~= rest);
    }
}

/// A value of a cell bisects back to exactly that cell's bits: the lower
/// bound is reached, the upper is not, except that the top value of the whole
/// interval belongs to the all-ones cell.
pub proof fn lemma_bisect_of_cell(bs: Seq<bool>, v: int, lo: int, w: int)
    requires
        w >= 1,
        ({
            let r = debisect(bs, lo, lo + w * pow2(bs.len()));
            r.0 <= v <= r.1 && (v < r.1 || r.1 == lo + w * pow2(bs.len()))
        }),
    ensures
        bisect_bits(v, lo, lo + w * pow2(bs.len()), bs.len()) == bs,
    decreases bs.len(),
{
    lemma2_to64();
    if bs.len() == 0 {
        lemma_bisect_len(v, lo, lo + w * pow2(0), 0);
        assert(bisect_bits(v, lo, lo + w * pow2(0), 0) =~= bs);
    } else {
        let n = bs.len();
        let hi = lo + w * pow2(n);
        let half = w * pow2((n - 1) as nat);
        lemma_pow2_unfold(n);
        lemma_pow2_pos((n - 1) as nat);
        assert(w * pow2(n) == half * 2) by {
            lemma_mul_is_commutative(w, pow2(n) as int);
            lemma_mul_is_commutative(w, pow2((n - 1) as nat) as int);
            lemma_mul_is_distributive_add_other_way(
                w,
                pow2((n - 1) as nat) as int,
                pow2((n - 1) as nat) as int,
            );
        }
        assert((half * 2) / 2 == half);
        assert(mid(lo, hi) == lo + half);
        assert(half >= 1) by {
            lemma_mul_inequality(1, w, pow2((n - 1) as nat) as int);
            lemma_mul_is_commutative(w, pow2((n - 1) as nat) as int);
        }
        let rest = bs.drop_first();
        lemma_debisect_index(bs, lo, w);
        lemma_debisect_index(rest, if bs[0] {
            lo + half
        } else {
            lo
        }, w);
        lemma_bits_val_bound(rest);
        let r = debisect(bs, lo, hi);
        if bs[0] {
            assert(bits_val(bs) == pow2((n - 1) as nat) + bits_val(rest));
            assert(r.0 == lo + bits_val(bs) * w);
            assert(bits_val(bs) * w >= pow2((n - 1) as nat) * w) by {
                lemma_mul_inequality(
                    pow2((n - 1) as nat) as int,
                    bits_val(bs) as int,
                    w,
                );
            }
            lemma_mul_is_commutative(w, pow2((n - 1) as nat) as int);
            assert(v >= mid(lo, hi));
            assert(debisect(rest, lo + half, lo + half + half) == r) by {
                assert(bs.drop_first() =~= rest);
            }
            lemma_bisect_of_cell(rest, v, lo + half, w);
            let b = v >= mid(lo, hi);
            assert(bisect_bits(v, lo, hi, n) == seq![true] + bisect_bits(
                v,
                lo + half,
                hi,
                (n - 1) as nat,
            ));
            assert(seq![true] + rest =~= bs);
        } else {
            assert(bits_val(bs) == bits_val(rest));
            assert(r.1 == lo + bits_val(bs) * w + w);
            assert((bits_val(bs) + 1) * w <= pow2((n - 1) as nat) * w) by {
                lemma_mul_inequality(
                    bits_val(bs) as int + 1,
                    pow2((n - 1) as nat) as int,
                    w,
                );
            }
            assert((bits_val(bs) + 1) * w == bits_val(bs) * w + w) by {
                lemma_mul_is_distributive_add_other_way(w, bits_val(bs) as int, 1);
            }
            lemma_mul_is_commutative(w, pow2((n - 1) as nat) as int);
            assert(r.1 <= mid(lo, hi));
            assert(mid(lo, hi) < hi);
            assert(v < r.1);
            assert(!(v >= mid(lo, hi)));
            lemma_bisect_of_cell(rest, v, lo, w);
            assert(bisect_bits(v, lo, hi, n) == seq![false] + bisect_bits(
                v,
                lo,
                lo + half,
                (n - 1) as nat,
            ));
            assert(seq![false] + rest =~= bs);
        }
    }
}

} // verus!
