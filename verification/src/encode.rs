//! Encoders: one per unsigned integer width.
//!
//! Each function writes the canonical LEB128 encoding of its argument into
//! the caller's byte array and returns the sub-slice actually written.  The
//! array is sized for the width's largest value, so encoding cannot fail.
//! Bytes of the array beyond the returned slice keep their prior contents
//! and are not part of the result.

use vstd::prelude::*;
use vstd::arithmetic::power2::*;
use vstd::slice::slice_subrange;
use crate::leb::{leb_bytes, lemma_leb_bytes_len, lemma_leb_bytes_shape, lemma_pow2_128};

verus! {

/// Encode the given `u8` into the given byte array.
///
/// Returns the slice of encoded bytes.
pub fn u8(number: u8, buf: &mut [u8; 2]) -> (r: &[u8])
    ensures
        r@ == leb_bytes(number as nat),
        final(buf)@.subrange(0, r@.len() as int) == r@,
        forall|j: int| r@.len() <= j < 2 ==> final(buf)@[j] == old(buf)@[j],
{
    let ghost v = number as nat;
    proof {
        lemma2_to64();
        lemma_pow2_strictly_increases(8, 14);
        lemma_leb_bytes_len(v, 2);
    }
    let ghost binit = buf@;
    let mut n = number;
    let mut i: usize = 0;
    loop
        invariant
            v == number as nat,
            i + leb_bytes(n as nat).len() == leb_bytes(v).len(),
            leb_bytes(v).len() <= 2,
            leb_bytes(v) == buf@.subrange(0, i as int) + leb_bytes(n as nat),
            binit == old(buf)@,
            forall|j: int| i <= j < 2 ==> buf@[j] == binit[j],
        decreases n,
    {
        proof {
            lemma_leb_bytes_shape(n as nat);
        }
        let ghost bold = buf@;
        if n < 128 {
            buf[i] = n;
            proof {
                assert(leb_bytes(n as nat) =~= seq![n]);
                assert(buf@.subrange(0, (i + 1) as int) =~= bold.subrange(0, i as int) + seq![n]);
                assert(leb_bytes(v) =~= buf@.subrange(0, (i + 1) as int));
            }
            let r = slice_subrange(buf.as_slice(), 0, i + 1);
            proof {
                assert(r@ =~= leb_bytes(v));
            }
            return r;
        }
        let ghost n0 = n;
        let byte = n % 128 + 128;
        buf[i] = byte;
        n = n / 128;
        i = i + 1;
        proof {
            assert(byte == (n0 as nat % 128 + 128) as u8);
            assert(n as nat == n0 as nat / 128);
            assert(buf@.subrange(0, i as int) =~= bold.subrange(0, i - 1) + seq![byte]);
            assert(leb_bytes(v) =~= buf@.subrange(0, i as int) + leb_bytes(n as nat));
        }
    }
}

/// Encode the given `u16` into the given byte array.
///
/// Returns the slice of encoded bytes.
pub fn u16(number: u16, buf: &mut [u8; 3]) -> (r: &[u8])
    ensures
        r@ == leb_bytes(number as nat),
        final(buf)@.subrange(0, r@.len() as int) == r@,
        forall|j: int| r@.len() <= j < 3 ==> final(buf)@[j] == old(buf)@[j],
{
    let ghost v = number as nat;
    proof {
        lemma2_to64();
        lemma_pow2_strictly_increases(16, 21);
        lemma_leb_bytes_len(v, 3);
    }
    let ghost binit = buf@;
    let mut n = number;
    let mut i: usize = 0;
    loop
        invariant
            v == number as nat,
            i + leb_bytes(n as nat).len() == leb_bytes(v).len(),
            leb_bytes(v).len() <= 3,
            leb_bytes(v) == buf@.subrange(0, i as int) + leb_bytes(n as nat),
            binit == old(buf)@,
            forall|j: int| i <= j < 3 ==> buf@[j] == binit[j],
        decreases n,
    {
        proof {
            lemma_leb_bytes_shape(n as nat);
        }
        let ghost bold = buf@;
        if n < 128 {
            let byte = n as u8;
            buf[i] = byte;
            proof {
                assert(leb_bytes(n as nat) =~= seq![byte]);
                assert(buf@.subrange(0, (i + 1) as int) =~= bold.subrange(0, i as int) + seq![byte]);
                assert(leb_bytes(v) =~= buf@.subrange(0, (i + 1) as int));
            }
            let r = slice_subrange(buf.as_slice(), 0, i + 1);
            proof {
                assert(r@ =~= leb_bytes(v));
            }
            return r;
        }
        let ghost n0 = n;
        let byte = (n % 128) as u8 + 128;
        buf[i] = byte;
        n = n / 128;
        i = i + 1;
        proof {
            assert(byte == (n0 as nat % 128 + 128) as u8);
            assert(n as nat == n0 as nat / 128);
            assert(buf@.subrange(0, i as int) =~= bold.subrange(0, i - 1) + seq![byte]);
            assert(leb_bytes(v) =~= buf@.subrange(0, i as int) + leb_bytes(n as nat));
        }
    }
}

/// Encode the given `u32` into the given byte array.
///
/// Returns the slice of encoded bytes.
pub fn u32(number: u32, buf: &mut [u8; 5]) -> (r: &[u8])
    ensures
        r@ == leb_bytes(number as nat),
        final(buf)@.subrange(0, r@.len() as int) == r@,
        forall|j: int| r@.len() <= j < 5 ==> final(buf)@[j] == old(buf)@[j],
{
    let ghost v = number as nat;
    proof {
        lemma2_to64();
        lemma_pow2_strictly_increases(32, 35);
        lemma_leb_bytes_len(v, 5);
    }
    let ghost binit = buf@;
    let mut n = number;
    let mut i: usize = 0;
    loop
        invariant
            v == number as nat,
            i + leb_bytes(n as nat).len() == leb_bytes(v).len(),
            leb_bytes(v).len() <= 5,
            leb_bytes(v) == buf@.subrange(0, i as int) + leb_bytes(n as nat),
            binit == old(buf)@,
            forall|j: int| i <= j < 5 ==> buf@[j] == binit[j],
        decreases n,
    {
        proof {
            lemma_leb_bytes_shape(n as nat);
        }
        let ghost bold = buf@;
        if n < 128 {
            let byte = n as u8;
            buf[i] = byte;
            proof {
                assert(leb_bytes(n as nat) =~= seq![byte]);
                assert(buf@.subrange(0, (i + 1) as int) =~= bold.subrange(0, i as int) + seq![byte]);
                assert(leb_bytes(v) =~= buf@.subrange(0, (i + 1) as int));
            }
            let r = slice_subrange(buf.as_slice(), 0, i + 1);
            proof {
                assert(r@ =~= leb_bytes(v));
            }
            return r;
        }
        let ghost n0 = n;
        let byte = (n % 128) as u8 + 128;
        buf[i] = byte;
        n = n / 128;
        i = i + 1;
        proof {
            assert(byte == (n0 as nat % 128 + 128) as u8);
            assert(n as nat == n0 as nat / 128);
            assert(buf@.subrange(0, i as int) =~= bold.subrange(0, i - 1) + seq![byte]);
            assert(leb_bytes(v) =~= buf@.subrange(0, i as int) + leb_bytes(n as nat));
        }
    }
}

/// Encode the given `u64` into the given byte array.
///
/// Returns the slice of encoded bytes.
pub fn u64(number: u64, buf: &mut [u8; 10]) -> (r: &[u8])
    ensures
        r@ == leb_bytes(number as nat),
        final(buf)@.subrange(0, r@.len() as int) == r@,
        forall|j: int| r@.len() <= j < 10 ==> final(buf)@[j] == old(buf)@[j],
{
    let ghost v = number as nat;
    proof {
        lemma2_to64();
        lemma_pow2_strictly_increases(64, 70);
        lemma_leb_bytes_len(v, 10);
    }
    let ghost binit = buf@;
    let mut n = number;
    let mut i: usize = 0;
    loop
        invariant
            v == number as nat,
            i + leb_bytes(n as nat).len() == leb_bytes(v).len(),
            leb_bytes(v).len() <= 10,
            leb_bytes(v) == buf@.subrange(0, i as int) + leb_bytes(n as nat),
            binit == old(buf)@,
            forall|j: int| i <= j < 10 ==> buf@[j] == binit[j],
        decreases n,
    {
        proof {
            lemma_leb_bytes_shape(n as nat);
        }
        let ghost bold = buf@;
        if n < 128 {
            let byte = n as u8;
            buf[i] = byte;
            proof {
                assert(leb_bytes(n as nat) =~= seq![byte]);
                assert(buf@.subrange(0, (i + 1) as int) =~= bold.subrange(0, i as int) + seq![byte]);
                assert(leb_bytes(v) =~= buf@.subrange(0, (i + 1) as int));
            }
            let r = slice_subrange(buf.as_slice(), 0, i + 1);
            proof {
                assert(r@ =~= leb_bytes(v));
            }
            return r;
        }
        let ghost n0 = n;
        let byte = (n % 128) as u8 + 128;
        buf[i] = byte;
        n = n / 128;
        i = i + 1;
        proof {
            assert(byte == (n0 as nat % 128 + 128) as u8);
            assert(n as nat == n0 as nat / 128);
            assert(buf@.subrange(0, i as int) =~= bold.subrange(0, i - 1) + seq![byte]);
            assert(leb_bytes(v) =~= buf@.subrange(0, i as int) + leb_bytes(n as nat));
        }
    }
}

/// Encode the given `u128` into the given byte array.
///
/// Returns the slice of encoded bytes.
pub fn u128(number: u128, buf: &mut [u8; 19]) -> (r: &[u8])
    ensures
        r@ == leb_bytes(number as nat),
        final(buf)@.subrange(0, r@.len() as int) == r@,
        forall|j: int| r@.len() <= j < 19 ==> final(buf)@[j] == old(buf)@[j],
{
    let ghost v = number as nat;
    proof {
        lemma_pow2_128();
        lemma_pow2_strictly_increases(128, 133);
        lemma_leb_bytes_len(v, 19);
    }
    let ghost binit = buf@;
    let mut n = number;
    let mut i: usize = 0;
    loop
        invariant
            v == number as nat,
            i + leb_bytes(n as nat).len() == leb_bytes(v).len(),
            leb_bytes(v).len() <= 19,
            leb_bytes(v) == buf@.subrange(0, i as int) + leb_bytes(n as nat),
            binit == old(buf)@,
            forall|j: int| i <= j < 19 ==> buf@[j] == binit[j],
        decreases n,
    {
        proof {
            lemma_leb_bytes_shape(n as nat);
        }
        let ghost bold = buf@;
        if n < 128 {
            let byte = n as u8;
            buf[i] = byte;
            proof {
                assert(leb_bytes(n as nat) =~= seq![byte]);
                assert(buf@.subrange(0, (i + 1) as int) =~= bold.subrange(0, i as int) + seq![byte]);
                assert(leb_bytes(v) =~= buf@.subrange(0, (i + 1) as int));
            }
            let r = slice_subrange(buf.as_slice(), 0, i + 1);
            proof {
                assert(r@ =~= leb_bytes(v));
            }
            return r;
        }
        let ghost n0 = n;
        let byte = (n % 128) as u8 + 128;
        buf[i] = byte;
        n = n / 128;
        i = i + 1;
        proof {
            assert(byte == (n0 as nat % 128 + 128) as u8);
            assert(n as nat == n0 as nat / 128);
            assert(buf@.subrange(0, i as int) =~= bold.subrange(0, i - 1) + seq![byte]);
            assert(leb_bytes(v) =~= buf@.subrange(0, i as int) + leb_bytes(n as nat));
        }
    }
}

/// Encode the given `usize` into the given byte array.
///
/// Returns the slice of encoded bytes.
pub fn usize(number: usize, buf: &mut [u8; 10]) -> (r: &[u8])
    ensures
        r@ == leb_bytes(number as nat),
        final(buf)@.subrange(0, r@.len() as int) == r@,
        forall|j: int| r@.len() <= j < 10 ==> final(buf)@[j] == old(buf)@[j],
{
    u64(number as u64, buf)
}

} // verus!
