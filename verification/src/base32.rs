//! The 32-symbol geohash alphabet `0123456789bcdefghjkmnpqrstuvwxyz`
//! (lowercase; `a`, `i`, `l`, `o` are left out), and the correspondence
//! between characters, their five-bit values, and bit streams.

use vstd::prelude::*;
use vstd::arithmetic::power2::lemma2_to64;
use vstd::arithmetic::div_mod::lemma_fundamental_div_mod;
use vstd::arithmetic::div_mod::lemma_fundamental_div_mod_converse;
use vstd::arithmetic::div_mod::lemma_div_denominator;
use vstd::arithmetic::div_mod::lemma_div_is_ordered;
use vstd::arithmetic::div_mod::lemma_div_pos_is_pos;
use vstd::arithmetic::div_mod::lemma_div_multiples_vanish;
use crate::bits::bits_val;

verus! {

/// The character standing at index `k` of the alphabet.
pub open spec fn alphabet_char(k: int) -> char {
    if k == 0 {
        '0'
    } else if k == 1 {
        '1'
    } else if k == 2 {
        '2'
    } else if k == 3 {
        '3'
    } else if k == 4 {
        '4'
    } else if k == 5 {
        '5'
    } else if k == 6 {
        '6'
    } else if k == 7 {
        '7'
    } else if k == 8 {
        '8'
    } else if k == 9 {
        '9'
    } else if k == 10 {
        'b'
    } else if k == 11 {
        'c'
    } else if k == 12 {
        'd'
    } else if k == 13 {
        'e'
    } else if k == 14 {
        'f'
    } else if k == 15 {
        'g'
    } else if k == 16 {
        'h'
    } else if k == 17 {
        'j'
    } else if k == 18 {
        'k'
    } else if k == 19 {
        'm'
    } else if k == 20 {
        'n'
    } else if k == 21 {
        'p'
    } else if k == 22 {
        'q'
    } else if k == 23 {
        'r'
    } else if k == 24 {
        's'
    } else if k == 25 {
        't'
    } else if k == 26 {
        'u'
    } else if k == 27 {
        'v'
    } else if k == 28 {
        'w'
    } else if k == 29 {
        'x'
    } else if k == 30 {
        'y'
    } else if k == 31 {
        'z'
    } else {
        ' '
    }
}

/// The index of a character in the alphabet, or -1 when it does not belong;
/// uppercase letters do not belong.
pub open spec fn char_val(c: char) -> int {
    if c == '0' {
        0
    } else if c == '1' {
        1
    } else if c == '2' {
        2
    } else if c == '3' {
        3
    } else if c == '4' {
        4
    } else if c == '5' {
        5
    } else if c == '6' {
        6
    } else if c == '7' {
        7
    } else if c == '8' {
        8
    } else if c == '9' {
        9
    } else if c == 'b' {
        10
    } else if c == 'c' {
        11
    } else if c == 'd' {
        12
    } else if c == 'e' {
        13
    } else if c == 'f' {
        14
    } else if c == 'g' {
        15
    } else if c == 'h' {
        16
    } else if c == 'j' {
        17
    } else if c == 'k' {
        18
    } else if c == 'm' {
        19
    } else if c == 'n' {
        20
    } else if c == 'p' {
        21
    } else if c == 'q' {
        22
    } else if c == 'r' {
        23
    } else if c == 's' {
        24
    } else if c == 't' {
        25
    } else if c == 'u' {
        26
    } else if c == 'v' {
        27
    } else if c == 'w' {
        28
    } else if c == 'x' {
        29
    } else if c == 'y' {
        30
    } else if c == 'z' {
        31
    } else {
        -1
    }
}

/// Whether a character belongs to the geohash alphabet.
pub open spec fn is_b32(c: char) -> bool {
    char_val(c) >= 0
}

/// The alphabet as a sequence, indexed by five-bit value.
pub open spec fn alphabet() -> Seq<char> {
    Seq::new(32, |k: int| alphabet_char(k))
}

/// A hash string: one to twelve characters, all drawn from the alphabet.
pub open spec fn valid_hash(s: Seq<char>) -> bool {
    1 <= s.len() <= 12 && forall|i: int| 0 <= i < s.len() ==> is_b32(s[i])
}

/// The five bits of a character value, most significant first.
pub open spec fn char_bits(k: int) -> Seq<bool> {
    seq![k / 16 % 2 == 1, k / 8 % 2 == 1, k / 4 % 2 == 1, k / 2 % 2 == 1, k % 2 == 1]
}

/// One character for every five bits of a stream, most significant group
/// first.
pub open spec fn chars_of_bits(b: Seq<bool>) -> Seq<char> {
    Seq::new(b.len() / 5, |j: int| alphabet_char(bits_val(b.subrange(5 * j, 5 * j + 5)) as int))
}

/// The bit stream a hash string denotes: five bits per character.
pub open spec fn hash_bits(s: Seq<char>) -> Seq<bool> {
    Seq::new(5 * s.len(), |i: int| char_bits(char_val(s[i / 5]))[i % 5])
}

pub proof fn lemma_alphabet_val(k: int)
    requires
        0 <= k < 32,
    ensures
        char_val(alphabet_char(k)) == k,
{
}

pub proof fn lemma_char_val_range(c: char)
    requires
        is_b32(c),
    ensures
        0 <= char_val(c) < 32,
        alphabet_char(char_val(c)) == c,
{
}

/// One nat per bit.
pub open spec fn bit1(b: bool) -> nat {
    if b {
        1
    } else {
        0
    }
}

pub proof fn lemma_bits_val_concrete5(b0: bool, b1: bool, b2: bool, b3: bool, b4: bool)
    ensures
        bits_val(seq![b0, b1, b2, b3, b4]) == 16 * bit1(b0) + 8 * bit1(b1) + 4 * bit1(b2) + 2
            * bit1(b3) + bit1(b4),
{
    lemma2_to64();
    let s = seq![b0, b1, b2, b3, b4];
    assert(s.drop_first() =~= seq![b1, b2, b3, b4]);
    assert(seq![b1, b2, b3, b4].drop_first() =~= seq![b2, b3, b4]);
    assert(seq![b2, b3, b4].drop_first() =~= seq![b3, b4]);
    assert(seq![b3, b4].drop_first() =~= seq![b4]);
    assert(seq![b4].drop_first() =~= Seq::<bool>::empty());
    assert(bits_val(Seq::<bool>::empty()) == 0);
    assert(bits_val(seq![b4]) == bit1(b4));
    assert(bits_val(seq![b3, b4]) == 2 * bit1(b3) + bits_val(seq![b4]));
    assert(bits_val(seq![b2, b3, b4]) == 4 * bit1(b2) + bits_val(seq![b3, b4]));
    assert(bits_val(seq![b1, b2, b3, b4]) == 8 * bit1(b1) + bits_val(seq![b2, b3, b4]));
    assert(bits_val(s) == 16 * bit1(b0) + bits_val(seq![b1, b2, b3, b4]));
}

/// Five bits carry a value below 32, and that value spells the same five bits
/// back.
pub proof fn lemma_char_bits_of_val(bs: Seq<bool>)
    requires
        bs.len() == 5,
    ensures
        bits_val(bs) < 32,
        char_bits(bits_val(bs) as int) == bs,
{
    let b0 = bs[0];
    let b1 = bs[1];
    let b2 = bs[2];
    let b3 = bs[3];
    let b4 = bs[4];
    assert(bs =~= seq![b0, b1, b2, b3, b4]);
    lemma_bits_val_concrete5(b0, b1, b2, b3, b4);
    let a = bit1(b0) as int;
    let b = bit1(b1) as int;
    let c = bit1(b2) as int;
    let d = bit1(b3) as int;
    let e = bit1(b4) as int;
    let v = 16 * a + 8 * b + 4 * c + 2 * d + e;
    lemma_fundamental_div_mod_converse(v, 16, a, 8 * b + 4 * c + 2 * d + e);
    lemma_fundamental_div_mod_converse(a, 2, 0, a);
    lemma_fundamental_div_mod_converse(v, 8, 2 * a + b, 4 * c + 2 * d + e);
    lemma_fundamental_div_mod_converse(2 * a + b, 2, a, b);
    lemma_fundamental_div_mod_converse(v, 4, 4 * a + 2 * b + c, 2 * d + e);
    lemma_fundamental_div_mod_converse(4 * a + 2 * b + c, 2, 2 * a + b, c);
    lemma_fundamental_div_mod_converse(v, 2, 8 * a + 4 * b + 2 * c + d, e);
    assert(char_bits(v) =~= bs);
}

/// A value below 32 read back from its five bits.
pub proof fn lemma_val_of_char_bits(k: int)
    requires
        0 <= k < 32,
    ensures
        char_bits(k).len() == 5,
        bits_val(char_bits(k)) == k,
{
    lemma_fundamental_div_mod(k, 2);
    lemma_div_pos_is_pos(k, 2);
    lemma_div_denominator(k, 2, 2);
    lemma_fundamental_div_mod(k / 2, 2);
    lemma_div_pos_is_pos(k / 2, 2);
    lemma_div_denominator(k, 4, 2);
    lemma_fundamental_div_mod(k / 4, 2);
    lemma_div_pos_is_pos(k / 4, 2);
    lemma_div_denominator(k, 8, 2);
    lemma_fundamental_div_mod(k / 8, 2);
    lemma_div_pos_is_pos(k / 8, 2);
    lemma_div_is_ordered(k, 31, 16);
    lemma_div_pos_is_pos(k, 16);
    lemma_fundamental_div_mod_converse(k / 16, 2, 0, k / 16);
    lemma_bits_val_concrete5(
        k / 16 % 2 == 1,
        k / 8 % 2 == 1,
        k / 4 % 2 == 1,
        k / 2 % 2 == 1,
        k % 2 == 1,
    );
}

/// Reading the characters of a bit stream back as bits restores the stream.
pub proof fn lemma_hash_bits_of_chars(b: Seq<bool>)
    requires
        b.len() % 5 == 0,
    ensures
        hash_bits(chars_of_bits(b)) == b,
{
    let s = chars_of_bits(b);
    lemma_fundamental_div_mod(b.len() as int, 5);
    assert(5 * s.len() == b.len());
    assert forall|i: int| 0 <= i < b.len() implies hash_bits(s)[i] == b[i] by {
        let j = i / 5;
        let r = i % 5;
        lemma_fundamental_div_mod(i, 5);
        lemma_div_pos_is_pos(i, 5);
        lemma_div_is_ordered(i, b.len() - 1, 5);
        let g = b.subrange(5 * j, 5 * j + 5);
        assert(g.len() == 5);
        lemma_char_bits_of_val(g);
        lemma_alphabet_val(bits_val(g) as int);
        assert(s[j] == alphabet_char(bits_val(g) as int));
        assert(char_bits(char_val(s[j])) == g);
        assert(g[r] == b[5 * j + r]);
    }
    assert(hash_bits(s) =~= b);
}

/// Spelling the bits of a valid hash string back as characters restores the
/// string.
pub proof fn lemma_chars_of_hash_bits(s: Seq<char>)
    requires
        forall|i: int| 0 <= i < s.len() ==> is_b32(s[i]),
    ensures
        chars_of_bits(hash_bits(s)) == s,
{
    let b = hash_bits(s);
    assert(b.len() == 5 * s.len());
    lemma_div_multiples_vanish(s.len() as int, 5);
    assert(b.len() / 5 == s.len());
    assert forall|j: int| 0 <= j < s.len() implies chars_of_bits(b)[j] == s[j] by {
        let g = b.subrange(5 * j, 5 * j + 5);
        let k = char_val(s[j]);
        lemma_char_val_range(s[j]);
        assert forall|r: int| 0 <= r < 5 implies g[r] == char_bits(k)[r] by {
            lemma_fundamental_div_mod_converse(5 * j + r, 5, j, r);
            assert(g[r] == b[5 * j + r]);
        }
        assert(g =~= char_bits(k));
        lemma_val_of_char_bits(k);
        assert(chars_of_bits(b)[j] == alphabet_char(bits_val(g) as int));
    }
    assert(chars_of_bits(b) =~= s);
}

/// Extending a prefix of a hash's bit stream by the five bits of its next
/// character reaches the next prefix.
pub proof fn lemma_hash_bits_extend(s: Seq<char>, prev: Seq<bool>, k: int, idx: int)
    requires
        0 <= idx < s.len(),
        k == char_val(s[idx]),
        prev == hash_bits(s).take(5 * idx),
    ensures
        prev + char_bits(k) == hash_bits(s).take(5 * idx + 5),
{
    let hb = hash_bits(s);
    assert forall|t: int| 0 <= t < 5 implies hb[5 * idx + t] == char_bits(k)[t] by {
        lemma_fundamental_div_mod_converse(5 * idx + t, 5, idx, t);
    }
    assert(prev + char_bits(k) =~= hb.take(5 * idx + 5));
}

/// Every character spelt from a bit stream belongs to the alphabet.
pub proof fn lemma_chars_of_bits_valid(b: Seq<bool>)
    ensures
        forall|j: int|
            0 <= j < chars_of_bits(b).len() ==> is_b32(#[trigger] chars_of_bits(b)[j])
                && alphabet().contains(chars_of_bits(b)[j]),
{
    assert forall|j: int| 0 <= j < chars_of_bits(b).len() implies is_b32(
        #[trigger] chars_of_bits(b)[j],
    ) && alphabet().contains(chars_of_bits(b)[j]) by {
        let g = b.subrange(5 * j, 5 * j + 5);
        assert(g.len() == 5);
        lemma_char_bits_of_val(g);
        let k = bits_val(g) as int;
        lemma_alphabet_val(k);
        assert(alphabet()[k] == chars_of_bits(b)[j]);
        assert(alphabet().contains(chars_of_bits(b)[j]));
    }
}

/// The character standing at a five-bit value.
pub fn char_of_val(k: u8) -> (c: char)
    requires
        k < 32,
    ensures
        c == alphabet_char(k as int),
{
    match k {
        0 => '0',
        1 => '1',
        2 => '2',
        3 => '3',
        4 => '4',
        5 => '5',
        6 => '6',
        7 => '7',
        8 => '8',
        9 => '9',
        10 => 'b',
        11 => 'c',
        12 => 'd',
        13 => 'e',
        14 => 'f',
        15 => 'g',
        16 => 'h',
        17 => 'j',
        18 => 'k',
        19 => 'm',
        20 => 'n',
        21 => 'p',
        22 => 'q',
        23 => 'r',
        24 => 's',
        25 => 't',
        26 => 'u',
        27 => 'v',
        28 => 'w',
        29 => 'x',
        30 => 'y',
        _ => 'z',
    }
}

/// The five-bit value of a character, or `None` for one outside the
/// alphabet; uppercase is outside.
pub fn val_of_char(c: char) -> (r: Option<u8>)
    ensures
        match r {
            Some(k) => is_b32(c) && k as int == char_val(c),
            None => !is_b32(c),
        },
{
    match c {
        '0' => Some(0),
        '1' => Some(1),
        '2' => Some(2),
        '3' => Some(3),
        '4' => Some(4),
        '5' => Some(5),
        '6' => Some(6),
        '7' => Some(7),
        '8' => Some(8),
        '9' => Some(9),
        'b' => Some(10),
        'c' => Some(11),
        'd' => Some(12),
        'e' => Some(13),
        'f' => Some(14),
        'g' => Some(15),
        'h' => Some(16),
        'j' => Some(17),
        'k' => Some(18),
        'm' => Some(19),
        'n' => Some(20),
        'p' => Some(21),
        'q' => Some(22),
        'r' => Some(23),
        's' => Some(24),
        't' => Some(25),
        'u' => Some(26),
        'v' => Some(27),
        'w' => Some(28),
        'x' => Some(29),
        'y' => Some(30),
        'z' => Some(31),
        _ => None,
    }
}

} // verus!
