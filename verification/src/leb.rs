//! Mathematical model of the LEB128 wire format.
//!
//! An encoded value is a sequence of base-128 digits, least-significant
//! first, one digit per byte.  Each byte holds its digit in the low 7 bits;
//! the high bit is set on every byte except the last.  The functions here
//! describe that format over `Seq<u8>` and `nat`; the executable encoder and
//! decoder are specified against them.

use vstd::prelude::*;
use vstd::arithmetic::div_mod::*;
use vstd::arithmetic::mul::*;
use vstd::arithmetic::power2::*;

verus! {

/// The canonical encoding of `v`: the unique shortest byte sequence whose
/// 7-bit groups, least-significant first, spell out `v`, with the high bit
/// set on every byte but the last.
pub open spec fn leb_bytes(v: nat) -> Seq<u8>
    decreases v,
{
    if v < 128 {
        seq![v as u8]
    } else {
        seq![(v % 128 + 128) as u8] + leb_bytes(v / 128)
    }
}

/// Number of bits needed to represent `v`: at least 1, also for zero.
pub open spec fn significant_bits(v: nat) -> nat
    decreases v,
{
    if v < 2 {
        1
    } else {
        1 + significant_bits(v / 2)
    }
}

/// Index of the first byte of `s` with the high (continuation) bit clear,
/// or -1 if every byte of `s` has it set.
pub open spec fn first_terminal(s: Seq<u8>) -> int
    decreases s.len(),
{
    if s.len() == 0 {
        -1
    } else if s[0] < 128 {
        0
    } else {
        let t = first_terminal(s.drop_first());
        if t < 0 {
            -1
        } else {
            t + 1
        }
    }
}

/// The integer spelled out by the 7-bit groups of `s`, least-significant
/// group first; continuation bits carry no value.
pub open spec fn raw_value(s: Seq<u8>) -> nat
    decreases s.len(),
{
    if s.len() == 0 {
        0
    } else {
        (s[0] % 128) as nat + 128 * raw_value(s.drop_first())
    }
}

/// Decoding at most `max_index + 1` groups from `s` succeeds: a terminal
/// byte appears no later than index `max_index`.
pub open spec fn decode_ok(s: Seq<u8>, max_index: int) -> bool {
    0 <= first_terminal(s) <= max_index
}

/// The value a width-`width` decoder reads from `s`: the groups up to and
/// including the first terminal byte, truncated to `width` bits.
pub open spec fn decode_value(s: Seq<u8>, width: nat) -> nat {
    raw_value(s.take(first_terminal(s) + 1)) % pow2(width)
}

/// The number of bytes a decoder consumes from `s`: the position of the
/// first terminal byte, plus one.
pub open spec fn decode_len(s: Seq<u8>) -> int {
    first_terminal(s) + 1
}

/// The groups of `s` spell out a value below `pow2(7 * s.len())`.
pub proof fn lemma_raw_value_bound(s: Seq<u8>)
    ensures
        raw_value(s) < pow2(7 * s.len()),
    decreases s.len(),
{
    if s.len() == 0 {
        lemma2_to64();
    } else {
        lemma_raw_value_bound(s.drop_first());
        lemma_pow2_adds(7, 7 * (s.len() - 1) as nat);
        lemma2_to64();
        let r = raw_value(s.drop_first());
        assert(r <= pow2(7 * (s.len() - 1) as nat) - 1);
        lemma_mul_inequality(r as int, pow2(7 * (s.len() - 1) as nat) - 1, 128);
        assert(128 * r == r * 128) by (nonlinear_arith);
        assert((pow2(7 * (s.len() - 1) as nat) - 1) * 128 == 128 * pow2(7 * (s.len() - 1) as nat) - 128)
            by (nonlinear_arith);
    }
}

/// Taking one more byte of `s` adds its group, scaled by its position.
pub proof fn lemma_raw_value_take_succ(s: Seq<u8>, i: int)
    requires
        0 <= i < s.len(),
    ensures
        raw_value(s.take(i + 1)) == raw_value(s.take(i)) + (s[i] % 128) * pow2(7 * i as nat),
    decreases i,
{
    if i == 0 {
        assert(s.take(1) =~= seq![s[0]]);
        assert(s.take(0) =~= Seq::<u8>::empty());
        assert(s.take(1).drop_first() =~= Seq::<u8>::empty());
        lemma2_to64();
    } else {
        let d = s.drop_first();
        lemma_raw_value_take_succ(d, i - 1);
        assert(s.take(i + 1).drop_first() =~= d.take(i));
        assert(s.take(i).drop_first() =~= d.take(i - 1));
        assert(s.take(i + 1)[0] == s[0]);
        assert(s.take(i)[0] == s[0]);
        assert(d[i - 1] == s[i]);
        assert(raw_value(s.take(i + 1)) == (s[0] % 128) as nat + 128 * raw_value(d.take(i)));
        assert(raw_value(s.take(i)) == (s[0] % 128) as nat + 128 * raw_value(d.take(i - 1)));
        let g = (s[i] % 128) as int;
        let p = pow2(7 * (i - 1) as nat) as int;
        assert(128 * (raw_value(d.take(i - 1)) + g * p)
            == 128 * raw_value(d.take(i - 1)) + g * (128 * p)) by (nonlinear_arith);
        lemma_pow2_adds(7, 7 * (i - 1) as nat);
        lemma2_to64();
        assert(128 * p == pow2(7 * i as nat));
    }
}

/// If the bytes of `s` before `i` all carry the continuation bit and the
/// byte at `i` does not, then `i` is the first terminal position.
pub proof fn lemma_first_terminal_position(s: Seq<u8>, i: int)
    requires
        0 <= i < s.len(),
        forall|j: int| 0 <= j < i ==> s[j] >= 128,
        s[i] < 128,
    ensures
        first_terminal(s) == i,
    decreases i,
{
    if i > 0 {
        let d = s.drop_first();
        assert(forall|j: int| 0 <= j < i - 1 ==> d[j] == s[j + 1] && d[j] >= 128);
        assert(d[i - 1] == s[i]);
        lemma_first_terminal_position(d, i - 1);
    }
}

/// If every byte of `s` carries the continuation bit, `s` has no terminal.
pub proof fn lemma_first_terminal_none(s: Seq<u8>)
    requires
        forall|j: int| 0 <= j < s.len() ==> s[j] >= 128,
    ensures
        first_terminal(s) == -1,
    decreases s.len(),
{
    if s.len() > 0 {
        let d = s.drop_first();
        assert(forall|j: int| 0 <= j < d.len() ==> d[j] == s[j + 1] && d[j] >= 128);
        lemma_first_terminal_none(d);
    }
}

/// The first terminal position lies in `s`, or is -1.
pub proof fn lemma_first_terminal_range(s: Seq<u8>)
    ensures
        -1 <= first_terminal(s) < s.len(),
    decreases s.len(),
{
    if s.len() > 0 && s[0] >= 128 {
        lemma_first_terminal_range(s.drop_first());
    }
}

/// If the first `k` bytes of `s` all carry the continuation bit, no
/// terminal appears before index `k`.
pub proof fn lemma_first_terminal_min(s: Seq<u8>, k: int)
    requires
        0 <= k <= s.len(),
        forall|j: int| 0 <= j < k ==> s[j] >= 128,
    ensures
        first_terminal(s) == -1 || first_terminal(s) >= k,
    decreases k,
{
    if k > 0 && s.len() > 0 {
        let d = s.drop_first();
        assert(forall|j: int| 0 <= j < k - 1 ==> d[j] == s[j + 1] && d[j] >= 128);
        lemma_first_terminal_min(d, k - 1);
    }
}

/// Adding one 7-bit group at bit position `shift` and truncating to `width`
/// bits keeps the low part `low` and only the bits of the group that fit.
pub proof fn lemma_group_truncation(low: nat, group: nat, shift: nat, width: nat)
    requires
        low < pow2(shift),
        group < 128,
        shift < width,
    ensures
        low + (group % pow2((width - shift) as nat)) * pow2(shift) < pow2(width),
        (low + group * pow2(shift)) % pow2(width) == low + (group % pow2((width - shift) as nat))
            * pow2(shift),
{
    let k = (width - shift) as nat;
    let q = group / pow2(k);
    let r = group % pow2(k);
    lemma_pow2_pos(k);
    lemma_pow2_pos(shift);
    lemma_pow2_pos(width);
    lemma_fundamental_div_mod(group as int, pow2(k) as int);
    lemma_pow2_adds(k, shift);
    assert(group * pow2(shift) == (pow2(k) * q + r) * pow2(shift));
    assert((pow2(k) * q + r) * pow2(shift) == (pow2(k) * q) * pow2(shift) + r * pow2(shift))
        by (nonlinear_arith);
    assert((pow2(k) * q) * pow2(shift) == pow2(width) * q) by (nonlinear_arith)
        requires pow2(k) * pow2(shift) == pow2(width),
    ;
    assert(r <= pow2(k) - 1);
    lemma_mul_inequality(r as int, pow2(k) - 1, pow2(shift) as int);
    assert((pow2(k) - 1) * pow2(shift) == pow2(k) * pow2(shift) - pow2(shift)) by (nonlinear_arith);
    assert(low + r * pow2(shift) < pow2(width));
    assert(low + group * pow2(shift) == pow2(width) * (q as int) + (low + r * pow2(shift)));
    lemma_mod_multiples_vanish(q as int, (low + r * pow2(shift)) as int, pow2(width) as int);
    lemma_small_mod((low + r * pow2(shift)) as nat, pow2(width));
}

/// The value of `pow2(128)`, one past the largest `u128`.
pub proof fn lemma_pow2_128()
    ensures
        pow2(128) == 0x100000000000000000000000000000000,
{
    lemma_pow2_adds(64, 64);
    lemma2_to64();
    assert(0x10000000000000000 * 0x10000000000000000 == 0x100000000000000000000000000000000nat)
        by (nonlinear_arith);
}

/// The shape of a canonical encoding: at least one byte, the continuation
/// bit set everywhere but on the last byte, where it is clear.
pub proof fn lemma_leb_bytes_shape(v: nat)
    ensures
        leb_bytes(v).len() >= 1,
        leb_bytes(v)[leb_bytes(v).len() - 1] < 128,
        forall|i: int| 0 <= i < leb_bytes(v).len() - 1 ==> leb_bytes(v)[i] >= 128,
    decreases v,
{
    if v >= 128 {
        lemma_leb_bytes_shape(v / 128);
        let e = leb_bytes(v);
        let t = leb_bytes(v / 128);
        assert(e == seq![(v % 128 + 128) as u8] + t);
        assert(forall|i: int| 1 <= i < e.len() ==> e[i] == t[i - 1]);
        assert(e[0] >= 128);
    }
}

/// The groups of the canonical encoding of `v` spell out `v` itself.
pub proof fn lemma_leb_bytes_value(v: nat)
    ensures
        raw_value(leb_bytes(v)) == v,
    decreases v,
{
    if v < 128 {
        assert(leb_bytes(v).drop_first() =~= Seq::<u8>::empty());
        assert(raw_value(Seq::<u8>::empty()) == 0);
        assert(leb_bytes(v)[0] == v as u8);
        assert((v as u8 % 128) as nat == v) by {
            lemma_small_mod(v, 128);
        }
    } else {
        lemma_leb_bytes_value(v / 128);
        let e = leb_bytes(v);
        assert(e.drop_first() =~= leb_bytes(v / 128));
        assert(e[0] == (v % 128 + 128) as u8);
        assert((v % 128 + 128) % 128 == v % 128) by {
            lemma_mod_multiples_vanish(1, (v % 128) as int, 128);
            lemma_small_mod((v % 128) as nat, 128);
        }
        assert(raw_value(e) == v % 128 + 128 * (v / 128));
        lemma_fundamental_div_mod(v as int, 128);
    }
}

/// A value below `pow2(7 * k)` encodes in at most `k` bytes.
pub proof fn lemma_leb_bytes_len(v: nat, k: nat)
    requires
        1 <= k,
        v < pow2(7 * k),
    ensures
        leb_bytes(v).len() <= k,
    decreases k,
{
    if v >= 128 {
        lemma2_to64();
        if k == 1 {
            assert(false);
        }
        lemma_pow2_adds(7 * (k - 1) as nat, 7);
        lemma_multiply_divide_lt(v as int, 128, pow2(7 * (k - 1) as nat) as int);
        lemma_leb_bytes_len(v / 128, (k - 1) as nat);
    }
}

/// A value below `pow2(k)` needs at most `k` bits.
pub proof fn lemma_significant_bits_le(v: nat, k: nat)
    requires
        v < pow2(k),
        1 <= k,
    ensures
        significant_bits(v) <= k,
    decreases k,
{
    if v >= 2 {
        lemma2_to64();
        if k == 1 {
            assert(false);
        }
        lemma_pow2_adds((k - 1) as nat, 1);
        lemma_multiply_divide_lt(v as int, 2, pow2((k - 1) as nat) as int);
        lemma_significant_bits_le(v / 2, (k - 1) as nat);
    }
}

/// Dropping the low 7-bit group of a value with at least one more group
/// removes exactly seven significant bits.
pub proof fn lemma_significant_bits_div128(v: nat)
    requires
        128 <= v,
    ensures
        significant_bits(v) == 7 + significant_bits(v / 128),
{
    lemma_div_is_ordered(128, v as int, 2);
    lemma_div_is_ordered(128, v as int, 4);
    lemma_div_is_ordered(128, v as int, 8);
    lemma_div_is_ordered(128, v as int, 16);
    lemma_div_is_ordered(128, v as int, 32);
    lemma_div_is_ordered(128, v as int, 64);
    lemma_div_denominator(v as int, 2, 2);
    lemma_div_denominator(v as int, 4, 2);
    lemma_div_denominator(v as int, 8, 2);
    lemma_div_denominator(v as int, 16, 2);
    lemma_div_denominator(v as int, 32, 2);
    lemma_div_denominator(v as int, 64, 2);
    assert(significant_bits(v) == 1 + significant_bits(v / 2));
    assert(significant_bits(v / 2) == 1 + significant_bits(v / 4));
    assert(significant_bits(v / 4) == 1 + significant_bits(v / 8));
    assert(significant_bits(v / 8) == 1 + significant_bits(v / 16));
    assert(significant_bits(v / 16) == 1 + significant_bits(v / 32));
    assert(significant_bits(v / 32) == 1 + significant_bits(v / 64));
    assert(significant_bits(v / 64) == 1 + significant_bits(v / 128));
}

/// Canonical minimality: an encoding has exactly
/// `max(1, ceil(significant_bits(v) / 7))` bytes.  `(b + 6) / 7` is that
/// ceiling, and it is at least 1 because `significant_bits` is.
pub proof fn lemma_canonical_length(v: nat)
    ensures
        1 <= significant_bits(v),
        leb_bytes(v).len() == (significant_bits(v) + 6) / 7,
    decreases v,
{
    if v < 128 {
        lemma2_to64();
        lemma_significant_bits_le(v, 7);
    } else {
        lemma_significant_bits_div128(v);
        lemma_canonical_length(v / 128);
        lemma_div_plus_one((significant_bits(v / 128) + 6) as int, 7);
    }
}

/// Terminal-bit correctness: the last byte of an encoding has the high
/// bit clear; every byte before it has it set.
pub proof fn lemma_terminal_bit(v: nat)
    ensures
        leb_bytes(v).len() >= 1,
        leb_bytes(v)[leb_bytes(v).len() - 1] & 0x80 == 0,
        forall|i: int|
            0 <= i < leb_bytes(v).len() - 1 ==> #[trigger] (leb_bytes(v)[i] & 0x80) == 0x80,
{
    lemma_leb_bytes_shape(v);
    assert(forall|b: u8| b < 128 ==> #[trigger] (b & 0x80) == 0) by (bit_vector);
    assert(forall|b: u8| b >= 128 ==> #[trigger] (b & 0x80) == 0x80) by (bit_vector);
}

/// Round-trip with trailing-byte tolerance: the canonical encoding of `v`,
/// followed by any extra bytes, decodes at any width that can hold `v` to
/// exactly `v`, consuming exactly the encoding and nothing after it.
pub proof fn lemma_round_trip(v: nat, width: nat, extra: Seq<u8>)
    requires
        1 <= width,
        v < pow2(width),
    ensures
        1 <= leb_bytes(v).len() <= (width + 6) / 7,
        decode_ok(leb_bytes(v) + extra, ((width + 6) / 7 - 1) as int),
        decode_value(leb_bytes(v) + extra, width) == v,
        decode_len(leb_bytes(v) + extra) == leb_bytes(v).len(),
{
    let e = leb_bytes(v);
    let s = e + extra;
    let k = (width + 6) / 7;
    lemma_fundamental_div_mod((width + 6) as int, 7);
    if width < 7 * k {
        lemma_pow2_strictly_increases(width, 7 * k);
    }
    lemma_leb_bytes_len(v, k);
    lemma_leb_bytes_shape(v);
    assert(forall|j: int| 0 <= j < e.len() ==> s[j] == e[j]);
    lemma_first_terminal_position(s, e.len() - 1);
    assert(s.take(e.len() as int) =~= e);
    lemma_leb_bytes_value(v);
    lemma_pow2_pos(width);
    lemma_small_mod(v, pow2(width));
}

} // verus!
