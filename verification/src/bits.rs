//! Bit strings read most-significant-bit first, and the interleaving of the
//! two per-axis bit strings into the single bit stream of a geohash.

use vstd::prelude::*;
use vstd::arithmetic::power2::pow2;
use vstd::arithmetic::power2::lemma_pow2_unfold;
use vstd::arithmetic::power2::lemma2_to64;
use vstd::arithmetic::div_mod::lemma_fundamental_div_mod;

verus! {

/// The value of a bit string read as a binary numeral, most significant bit
/// first.
pub open spec fn bits_val(bs: Seq<bool>) -> nat
    decreases bs.len(),
{
    if bs.len() == 0 {
        0
    } else {
        (if bs[0] {
            pow2((bs.len() - 1) as nat)
        } else {
            0
        }) + bits_val(bs.drop_first())
    }
}

/// The `n`-bit binary numeral of `t`, most significant bit first.
pub open spec fn nat_bits(t: nat, n: nat) -> Seq<bool>
    decreases n,
{
    if n == 0 {
        Seq::empty()
    } else {
        nat_bits(t / 2, (n - 1) as nat).push(t % 2 == 1)
    }
}

/// Alternate bits of `x` and `y`, starting with `x`; meaningful when `x` is
/// as long as `y` or one bit longer.
pub open spec fn interleave(x: Seq<bool>, y: Seq<bool>) -> Seq<bool> {
    Seq::new(
        x.len() + y.len(),
        |i: int|
            if i % 2 == 0 {
                x[i / 2]
            } else {
                y[i / 2]
            },
    )
}

/// The bits at even positions: the first axis of an interleaved stream.
pub open spec fn even_bits(b: Seq<bool>) -> Seq<bool> {
    Seq::new((b.len() + 1) / 2, |i: int| b[2 * i])
}

/// The bits at odd positions: the second axis of an interleaved stream.
pub open spec fn odd_bits(b: Seq<bool>) -> Seq<bool> {
    Seq::new(b.len() / 2, |i: int| b[2 * i + 1])
}

pub proof fn lemma_bits_val_snoc(bs: Seq<bool>, b: bool)
    ensures
        bits_val(bs.push(b)) == 2 * bits_val(bs) + (if b {
            1nat
        } else {
            0nat
        }),
    decreases bs.len(),
{
    lemma2_to64();
    if bs.len() == 0 {
        assert(bs.push(b).drop_first() =~= Seq::<bool>::empty());
        assert(bs.push(b)[0] == b);
        assert(bits_val(bs.push(b)) == (if b {
            pow2(0)
        } else {
            0
        }) + bits_val(Seq::<bool>::empty()));
        assert(bits_val(Seq::<bool>::empty()) == 0);
    } else {
        assert(bs.push(b).drop_first() =~= bs.drop_first().push(b));
        assert(bs.push(b)[0] == bs[0]);
        lemma_bits_val_snoc(bs.drop_first(), b);
        lemma_pow2_unfold(bs.len());
        assert(bits_val(bs.push(b)) == (if bs[0] {
            pow2(bs.len())
        } else {
            0
        }) + bits_val(bs.drop_first().push(b)));
        assert(bits_val(bs) == (if bs[0] {
            pow2((bs.len() - 1) as nat)
        } else {
            0
        }) + bits_val(bs.drop_first()));
    }
}

pub proof fn lemma_bits_val_bound(bs: Seq<bool>)
    ensures
        bits_val(bs) < pow2(bs.len()),
    decreases bs.len(),
{
    lemma2_to64();
    if bs.len() > 0 {
        lemma_bits_val_bound(bs.drop_first());
        lemma_pow2_unfold(bs.len());
    }
}

pub proof fn lemma_bits_val_injective(a: Seq<bool>, b: Seq<bool>)
    requires
        a.len() == b.len(),
        bits_val(a) == bits_val(b),
    ensures
        a == b,
    decreases a.len(),
{
    if a.len() == 0 {
        assert(a =~= b);
    } else {
        lemma_bits_val_bound(a.drop_first());
        lemma_bits_val_bound(b.drop_first());
        assert(a[0] == b[0]);
        lemma_bits_val_injective(a.drop_first(), b.drop_first());
        assert(a =~= b) by {
            assert(forall|i: int|
                1 <= i < a.len() ==> a[i] == a.drop_first()[i - 1] && b[i] == b.drop_first()[i
                    - 1]);
        }
    }
}

pub proof fn lemma_nat_bits_val(t: nat, n: nat)
    requires
        t < pow2(n),
    ensures
        nat_bits(t, n).len() == n,
        bits_val(nat_bits(t, n)) == t,
    decreases n,
{
    lemma2_to64();
    if n > 0 {
        lemma_pow2_unfold(n);
        lemma_fundamental_div_mod(t as int, 2);
        lemma_nat_bits_val(t / 2, (n - 1) as nat);
        lemma_bits_val_snoc(nat_bits(t / 2, (n - 1) as nat), t % 2 == 1);
    }
}

pub proof fn lemma_interleave_even_odd(x: Seq<bool>, y: Seq<bool>)
    requires
        y.len() <= x.len() <= y.len() + 1,
    ensures
        even_bits(interleave(x, y)) == x,
        odd_bits(interleave(x, y)) == y,
{
    assert(even_bits(interleave(x, y)) =~= x);
    assert(odd_bits(interleave(x, y)) =~= y);
}

pub proof fn lemma_interleave_id(b: Seq<bool>)
    ensures
        interleave(even_bits(b), odd_bits(b)) == b,
{
    assert forall|i: int| 0 <= i < b.len() implies interleave(even_bits(b), odd_bits(b))[i]
        == b[i] by {
        lemma_fundamental_div_mod(i, 2);
    }
    assert(interleave(even_bits(b), odd_bits(b)) =~= b);
}

pub proof fn lemma_interleave_push_even(x: Seq<bool>, y: Seq<bool>, b: bool)
    requires
        x.len() == y.len(),
    ensures
        interleave(x.push(b), y) == interleave(x, y).push(b),
{
    assert(interleave(x.push(b), y) =~= interleave(x, y).push(b));
}

pub proof fn lemma_interleave_push_odd(x: Seq<bool>, y: Seq<bool>, b: bool)
    requires
        x.len() == y.len() + 1,
    ensures
        interleave(x, y.push(b)) == interleave(x, y).push(b),
{
    assert(interleave(x, y.push(b)) =~= interleave(x, y).push(b));
}

} // verus!
