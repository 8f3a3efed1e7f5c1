//! Decoders: one per unsigned integer width.
//!
//! Each function reads one LEB128-encoded value from the front of a byte
//! slice and returns it together with the number of bytes consumed; bytes
//! after the first terminal byte are left untouched.  A slice that ends
//! before a terminal byte yields [`Error::Insufficient`]; one that carries
//! more continuation groups than the width allows yields
//! [`Error::Overflow`].

use vstd::prelude::*;
use vstd::arithmetic::mul::lemma_mul_inequality;
use vstd::arithmetic::power2::*;
use crate::leb::{
    decode_len, decode_ok, decode_value, lemma_first_terminal_min, lemma_first_terminal_none,
    lemma_first_terminal_position, lemma_first_terminal_range, lemma_group_truncation,
    lemma_pow2_128, lemma_raw_value_bound, lemma_raw_value_take_succ, raw_value,
};

verus! {

/// A reason a byte sequence failed to decode.
#[derive(Clone, Copy, Debug, PartialEq, Eq)]
pub enum Error {
    /// Not enough input bytes: the slice ended before a terminal byte.
    Insufficient,
    /// Input bytes exceed maximum: more groups than the width can hold.
    Overflow,
}

/// The error a decoder limited to `max_index + 1` groups reports for `s`
/// when no terminal byte appears among the groups it may read.
pub open spec fn decode_err(s: Seq<u8>, max_index: int) -> Error {
    if s.len() > max_index {
        Error::Overflow
    } else {
        Error::Insufficient
    }
}

/// Insufficient detection: a slice made only of continuation-bit-set
/// bytes, no longer than a decoder's group limit allows, decodes to
/// [`Error::Insufficient`] under that decoder's contract.
pub proof fn lemma_insufficient(s: Seq<u8>, max_index: int)
    requires
        0 <= max_index,
        s.len() <= max_index,
        forall|j: int| 0 <= j < s.len() ==> s[j] >= 128,
    ensures
        !decode_ok(s, max_index),
        decode_err(s, max_index) == Error::Insufficient,
{
    lemma_first_terminal_none(s);
}

/// Overflow detection: a slice whose bytes up to and including a decoder's
/// group limit all have the continuation bit set decodes to
/// [`Error::Overflow`] under that decoder's contract.
pub proof fn lemma_overflow(s: Seq<u8>, max_index: int)
    requires
        0 <= max_index < s.len(),
        forall|j: int| 0 <= j <= max_index ==> s[j] >= 128,
    ensures
        !decode_ok(s, max_index),
        decode_err(s, max_index) == Error::Overflow,
{
    lemma_first_terminal_min(s, max_index + 1);
}

/// Decode the given slice as `u8`.
///
/// Returns the value and the start index of the remaining slice.
pub fn u8(buf: &[u8]) -> (r: Result<(u8, usize), Error>)
    ensures
        decode_ok(buf@, 1) ==> r == Ok::<(u8, usize), Error>((
            decode_value(buf@, 8) as u8,
            decode_len(buf@) as usize,
        )),
        !decode_ok(buf@, 1) ==> r == Err::<(u8, usize), Error>(decode_err(buf@, 1)),
{
    let mut num: u8 = 0;
    let mut mult: u8 = 1;
    let mut i: usize = 0;
    proof {
        lemma2_to64();
        assert(buf@.take(0) =~= Seq::<u8>::empty());
    }
    while i < buf.len()
        invariant
            i <= buf.len(),
            i <= 1,
            mult == pow2((7 * i) as nat),
            num as nat == raw_value(buf@.take(i as int)),
            forall|j: int| 0 <= j < i ==> buf@[j] >= 128,
        decreases buf@.len() - i,
    {
        let byte = buf[i];
        proof {
            lemma_raw_value_bound(buf@.take(i as int));
            lemma_raw_value_take_succ(buf@, i as int);
            lemma2_to64();
        }
        if byte < 128 {
            proof {
                lemma_first_terminal_position(buf@, i as int);
                if i == 1 {
                    lemma_group_truncation(num as nat, byte as nat, 7, 8);
                } else {
                    lemma_mul_inequality(byte as int, 127, pow2((7 * i) as nat) as int);
                    lemma_pow2_adds((7 * i) as nat, 7);
                }
            }
            let g: u8 = if i == 1 { byte % 2 } else { byte };
            return Ok((num + g * mult, i + 1));
        }
        if i == 1 {
            proof {
                lemma_first_terminal_min(buf@, 2);
                lemma_first_terminal_range(buf@);
            }
            return Err(Error::Overflow);
        }
        proof {
            lemma_mul_inequality((byte % 128) as int, 127, pow2((7 * i) as nat) as int);
            lemma_pow2_adds((7 * i) as nat, 7);
        }
        num = num + (byte % 128) * mult;
        mult = mult * 128;
        i = i + 1;
    }
    proof {
        lemma_first_terminal_none(buf@);
        lemma_first_terminal_range(buf@);
    }
    Err(Error::Insufficient)
}

/// Decode the given slice as `u16`.
///
/// Returns the value and the start index of the remaining slice.
pub fn u16(buf: &[u8]) -> (r: Result<(u16, usize), Error>)
    ensures
        decode_ok(buf@, 2) ==> r == Ok::<(u16, usize), Error>((
            decode_value(buf@, 16) as u16,
            decode_len(buf@) as usize,
        )),
        !decode_ok(buf@, 2) ==> r == Err::<(u16, usize), Error>(decode_err(buf@, 2)),
{
    let mut num: u16 = 0;
    let mut mult: u16 = 1;
    let mut i: usize = 0;
    proof {
        lemma2_to64();
        assert(buf@.take(0) =~= Seq::<u8>::empty());
    }
    while i < buf.len()
        invariant
            i <= buf.len(),
            i <= 2,
            mult == pow2((7 * i) as nat),
            num as nat == raw_value(buf@.take(i as int)),
            forall|j: int| 0 <= j < i ==> buf@[j] >= 128,
        decreases buf@.len() - i,
    {
        let byte = buf[i];
        proof {
            lemma_raw_value_bound(buf@.take(i as int));
            lemma_raw_value_take_succ(buf@, i as int);
            lemma2_to64();
        }
        if byte < 128 {
            proof {
                lemma_first_terminal_position(buf@, i as int);
                if i == 2 {
                    lemma_group_truncation(num as nat, byte as nat, 14, 16);
                } else {
                    lemma_mul_inequality(byte as int, 127, pow2((7 * i) as nat) as int);
                    lemma_pow2_adds((7 * i) as nat, 7);
                    lemma_pow2_strictly_increases((7 * i + 7) as nat, 16);
                }
            }
            let g: u16 = if i == 2 { (byte % 4) as u16 } else { byte as u16 };
            return Ok((num + g * mult, i + 1));
        }
        if i == 2 {
            proof {
                lemma_first_terminal_min(buf@, 3);
                lemma_first_terminal_range(buf@);
            }
            return Err(Error::Overflow);
        }
        proof {
            lemma_mul_inequality((byte % 128) as int, 127, pow2((7 * i) as nat) as int);
            lemma_pow2_adds((7 * i) as nat, 7);
            lemma_pow2_strictly_increases((7 * i + 7) as nat, 16);
        }
        num = num + (byte % 128) as u16 * mult;
        mult = mult * 128;
        i = i + 1;
    }
    proof {
        lemma_first_terminal_none(buf@);
        lemma_first_terminal_range(buf@);
    }
    Err(Error::Insufficient)
}

/// Decode the given slice as `u32`.
///
/// Returns the value and the start index of the remaining slice.
pub fn u32(buf: &[u8]) -> (r: Result<(u32, usize), Error>)
    ensures
        decode_ok(buf@, 4) ==> r == Ok::<(u32, usize), Error>((
            decode_value(buf@, 32) as u32,
            decode_len(buf@) as usize,
        )),
        !decode_ok(buf@, 4) ==> r == Err::<(u32, usize), Error>(decode_err(buf@, 4)),
{
    let mut num: u32 = 0;
    let mut mult: u32 = 1;
    let mut i: usize = 0;
    proof {
        lemma2_to64();
        assert(buf@.take(0) =~= Seq::<u8>::empty());
    }
    while i < buf.len()
        invariant
            i <= buf.len(),
            i <= 4,
            mult == pow2((7 * i) as nat),
            num as nat == raw_value(buf@.take(i as int)),
            forall|j: int| 0 <= j < i ==> buf@[j] >= 128,
        decreases buf@.len() - i,
    {
        let byte = buf[i];
        proof {
            lemma_raw_value_bound(buf@.take(i as int));
            lemma_raw_value_take_succ(buf@, i as int);
            lemma2_to64();
        }
        if byte < 128 {
            proof {
                lemma_first_terminal_position(buf@, i as int);
                if i == 4 {
                    lemma_group_truncation(num as nat, byte as nat, 28, 32);
                } else {
                    lemma_mul_inequality(byte as int, 127, pow2((7 * i) as nat) as int);
                    lemma_pow2_adds((7 * i) as nat, 7);
                    lemma_pow2_strictly_increases((7 * i + 7) as nat, 32);
                }
            }
            let g: u32 = if i == 4 { (byte % 16) as u32 } else { byte as u32 };
            return Ok((num + g * mult, i + 1));
        }
        if i == 4 {
            proof {
                lemma_first_terminal_min(buf@, 5);
                lemma_first_terminal_range(buf@);
            }
            return Err(Error::Overflow);
        }
        proof {
            lemma_mul_inequality((byte % 128) as int, 127, pow2((7 * i) as nat) as int);
            lemma_pow2_adds((7 * i) as nat, 7);
            lemma_pow2_strictly_increases((7 * i + 7) as nat, 32);
        }
        num = num + (byte % 128) as u32 * mult;
        mult = mult * 128;
        i = i + 1;
    }
    proof {
        lemma_first_terminal_none(buf@);
        lemma_first_terminal_range(buf@);
    }
    Err(Error::Insufficient)
}

/// Decode the given slice as `u64`.
///
/// Returns the value and the start index of the remaining slice.
pub fn u64(buf: &[u8]) -> (r: Result<(u64, usize), Error>)
    ensures
        decode_ok(buf@, 9) ==> r == Ok::<(u64, usize), Error>((
            decode_value(buf@, 64) as u64,
            decode_len(buf@) as usize,
        )),
        !decode_ok(buf@, 9) ==> r == Err::<(u64, usize), Error>(decode_err(buf@, 9)),
{
    let mut num: u64 = 0;
    let mut mult: u64 = 1;
    let mut i: usize = 0;
    proof {
        lemma2_to64();
        assert(buf@.take(0) =~= Seq::<u8>::empty());
    }
    while i < buf.len()
        invariant
            i <= buf.len(),
            i <= 9,
            mult == pow2((7 * i) as nat),
            num as nat == raw_value(buf@.take(i as int)),
            forall|j: int| 0 <= j < i ==> buf@[j] >= 128,
        decreases buf@.len() - i,
    {
        let byte = buf[i];
        proof {
            lemma_raw_value_bound(buf@.take(i as int));
            lemma_raw_value_take_succ(buf@, i as int);
            lemma2_to64();
        }
        if byte < 128 {
            proof {
                lemma_first_terminal_position(buf@, i as int);
                if i == 9 {
                    lemma_group_truncation(num as nat, byte as nat, 63, 64);
                } else {
                    lemma_mul_inequality(byte as int, 127, pow2((7 * i) as nat) as int);
                    lemma_pow2_adds((7 * i) as nat, 7);
                    lemma_pow2_strictly_increases((7 * i + 7) as nat, 64);
                }
            }
            let g: u64 = if i == 9 { (byte % 2) as u64 } else { byte as u64 };
            return Ok((num + g * mult, i + 1));
        }
        if i == 9 {
            proof {
                lemma_first_terminal_min(buf@, 10);
                lemma_first_terminal_range(buf@);
            }
            return Err(Error::Overflow);
        }
        proof {
            lemma_mul_inequality((byte % 128) as int, 127, pow2((7 * i) as nat) as int);
            lemma_pow2_adds((7 * i) as nat, 7);
            lemma_pow2_strictly_increases((7 * i + 7) as nat, 64);
        }
        num = num + (byte % 128) as u64 * mult;
        mult = mult * 128;
        i = i + 1;
    }
    proof {
        lemma_first_terminal_none(buf@);
        lemma_first_terminal_range(buf@);
    }
    Err(Error::Insufficient)
}

/// Decode the given slice as `u128`.
///
/// Returns the value and the start index of the remaining slice.
pub fn u128(buf: &[u8]) -> (r: Result<(u128, usize), Error>)
    ensures
        decode_ok(buf@, 18) ==> r == Ok::<(u128, usize), Error>((
            decode_value(buf@, 128) as u128,
            decode_len(buf@) as usize,
        )),
        !decode_ok(buf@, 18) ==> r == Err::<(u128, usize), Error>(decode_err(buf@, 18)),
{
    let mut num: u128 = 0;
    let mut mult: u128 = 1;
    let mut i: usize = 0;
    proof {
        lemma2_to64();
        assert(buf@.take(0) =~= Seq::<u8>::empty());
    }
    while i < buf.len()
        invariant
            i <= buf.len(),
            i <= 18,
            mult == pow2((7 * i) as nat),
            num as nat == raw_value(buf@.take(i as int)),
            forall|j: int| 0 <= j < i ==> buf@[j] >= 128,
        decreases buf@.len() - i,
    {
        let byte = buf[i];
        proof {
            lemma_raw_value_bound(buf@.take(i as int));
            lemma_raw_value_take_succ(buf@, i as int);
            lemma2_to64();
            lemma_pow2_128();
        }
        if byte < 128 {
            proof {
                lemma_first_terminal_position(buf@, i as int);
                if i == 18 {
                    lemma_group_truncation(num as nat, byte as nat, 126, 128);
                } else {
                    lemma_mul_inequality(byte as int, 127, pow2((7 * i) as nat) as int);
                    lemma_pow2_adds((7 * i) as nat, 7);
                    lemma_pow2_strictly_increases((7 * i + 7) as nat, 128);
                }
            }
            let g: u128 = if i == 18 { (byte % 4) as u128 } else { byte as u128 };
            return Ok((num + g * mult, i + 1));
        }
        if i == 18 {
            proof {
                lemma_first_terminal_min(buf@, 19);
                lemma_first_terminal_range(buf@);
            }
            return Err(Error::Overflow);
        }
        proof {
            lemma_mul_inequality((byte % 128) as int, 127, pow2((7 * i) as nat) as int);
            lemma_pow2_adds((7 * i) as nat, 7);
            lemma_pow2_strictly_increases((7 * i + 7) as nat, 128);
        }
        num = num + (byte % 128) as u128 * mult;
        mult = mult * 128;
        i = i + 1;
    }
    proof {
        lemma_first_terminal_none(buf@);
        lemma_first_terminal_range(buf@);
    }
    Err(Error::Insufficient)
}

/// Decode the given slice as `usize`.
///
/// Returns the value and the start index of the remaining slice.  The
/// native width reads as the 32-bit decoder on a 32-bit target and as the
/// 64-bit decoder on a 64-bit target.
pub fn usize(buf: &[u8]) -> (r: Result<(usize, usize), Error>)
    ensures
        usize::MAX as nat == u32::MAX as nat ==> {
            &&& (decode_ok(buf@, 4) ==> r == Ok::<(usize, usize), Error>((
                decode_value(buf@, 32) as usize,
                decode_len(buf@) as usize,
            )))
            &&& (!decode_ok(buf@, 4) ==> r == Err::<(usize, usize), Error>(decode_err(buf@, 4)))
        },
        usize::MAX as nat == u64::MAX as nat ==> {
            &&& (decode_ok(buf@, 9) ==> r == Ok::<(usize, usize), Error>((
                decode_value(buf@, 64) as usize,
                decode_len(buf@) as usize,
            )))
            &&& (!decode_ok(buf@, 9) ==> r == Err::<(usize, usize), Error>(decode_err(buf@, 9)))
        },
{
    proof {
        lemma2_to64();
        lemma_pow2_pos(32);
        lemma_pow2_pos(64);
    }
    if usize::MAX == u32::MAX as usize {
        match u32(buf) {
            Ok((n, c)) => Ok((n as usize, c)),
            Err(e) => Err(e),
        }
    } else {
        proof {
            assert(usize::MAX as nat == u64::MAX as nat);
        }
        match u64(buf) {
            Ok((n, c)) => Ok((n as usize, c)),
            Err(e) => Err(e),
        }
    }
}

} // verus!
