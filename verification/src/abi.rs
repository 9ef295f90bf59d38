//! Word-level helpers for the 32-byte-aligned binary call encoding: reading
//! and writing words, zero padding, and the facts that tie a word's bytes to
//! its numeric value.

use vstd::prelude::*;
use crate::bytes32::{
    be_val, is_small_word, lemma_small_word_val, pow256, word64, Word256,
};

verus! {

/// A string of `n` zero bytes.
pub open spec fn zeros(n: nat) -> Seq<u8> {
    Seq::new(n, |i: int| 0u8)
}

/// The 32-byte word of `b` that starts at `p`.
pub open spec fn word_at(b: Seq<u8>, p: int) -> Seq<u8> {
    b.subrange(p, p + 32)
}

/// The length `n` rounded up to a multiple of 32.
pub open spec fn pad32(n: nat) -> nat {
    ((n + 31) / 32) * 32
}

/// Two equally long byte strings with the same value are equal.
pub proof fn lemma_be_val_injective(a: Seq<u8>, b: Seq<u8>)
    requires
        a.len() == b.len(),
        be_val(a) == be_val(b),
    ensures
        a =~= b,
    decreases a.len(),
{
    if a.len() > 0 {
        assert(be_val(a) == be_val(a.drop_last()) * 256 + a.last());
        assert(be_val(b) == be_val(b.drop_last()) * 256 + b.last());
        assert(a.last() == be_val(a) % 256 && be_val(a.drop_last()) == be_val(a) / 256)
            by (nonlinear_arith)
            requires
                be_val(a) == be_val(a.drop_last()) * 256 + a.last(),
                0 <= a.last() < 256,
        ;
        assert(b.last() == be_val(b) % 256 && be_val(b.drop_last()) == be_val(b) / 256)
            by (nonlinear_arith)
            requires
                be_val(b) == be_val(b.drop_last()) * 256 + b.last(),
                0 <= b.last() < 256,
        ;
        lemma_be_val_injective(a.drop_last(), b.drop_last());
        assert(a =~= a.drop_last().push(a.last()));
        assert(b =~= b.drop_last().push(b.last()));
    }
}

/// A copy of the bytes of `v` from `start` to `end`.
pub fn vec_slice(v: &Vec<u8>, start: usize, end: usize) -> (r: Vec<u8>)
    requires
        start <= end <= v@.len(),
    ensures
        r@ == v@.subrange(start as int, end as int),
{
    let mut out: Vec<u8> = Vec::new();
    let mut i: usize = start;
    while i < end
        invariant
            start <= i <= end <= v@.len(),
            out@ == v@.subrange(start as int, i as int),
        decreases end - i,
    {
        out.push(v[i]);
        proof {
            assert(out@ =~= v@.subrange(start as int, i + 1));
        }
        i += 1;
    }
    out
}

/// Appends all bytes of `v` to `out`.
pub fn push_bytes(out: &mut Vec<u8>, v: &Vec<u8>)
    ensures
        final(out)@ == old(out)@ + v@,
{
    let mut i: usize = 0;
    while i < v.len()
        invariant
            i <= v@.len(),
            out@ == old(out)@ + v@.subrange(0, i as int),
        decreases v@.len() - i,
    {
        out.push(v[i]);
        proof {
            assert(out@ =~= old(out)@ + v@.subrange(0, i + 1));
        }
        i += 1;
    }
    proof {
        assert(v@.subrange(0, v@.len() as int) =~= v@);
    }
}

/// Appends the 32-byte word that carries a 64-bit value.
pub fn push_word_u64(out: &mut Vec<u8>, x: u64)
    ensures
        final(out)@ == old(out)@ + word64(x),
{
    let w = Word256::from_u64(x);
    push_bytes(out, w.as_bytes());
}

/// Appends the 32 bytes of a word.
pub fn push_word(out: &mut Vec<u8>, w: &Word256)
    ensures
        final(out)@ == old(out)@ + w@,
{
    push_bytes(out, w.as_bytes());
}

/// Appends zero bytes until the length written since `written` is a
/// multiple of 32.
pub fn push_pad32(out: &mut Vec<u8>, written: usize)
    ensures
        final(out)@ == old(out)@ + zeros((pad32(written as nat) - written as nat) as nat),
{
    let rem: usize = written % 32;
    let k: usize = if rem == 0 {
        0
    } else {
        32 - rem
    };
    proof {
        assert(k as nat == pad32(written as nat) - written as nat);
    }
    let mut i: usize = 0;
    while i < k
        invariant
            i <= k,
            out@ == old(out)@ + zeros(i as nat),
        decreases k - i,
    {
        out.push(0u8);
        proof {
            assert(out@ =~= old(out)@ + zeros((i + 1) as nat));
        }
        i += 1;
    }
}

/// The word of `b` at `p`, copied out.
pub fn read_word_at(b: &Vec<u8>, p: usize) -> (r: Word256)
    requires
        p + 32 <= b@.len(),
    ensures
        r@ == word_at(b@, p as int),
{
    let blen = b.len();
    proof {
        assert(p + 32 <= blen);
    }
    let bytes = vec_slice(b, p, p + 32);
    Word256::from_bytes(bytes)
}

/// The 64-bit value of the word of `b` at `p`, where the word is small.
pub fn read_u64_at(b: &Vec<u8>, p: usize) -> (r: Option<u64>)
    requires
        p + 32 <= b@.len(),
    ensures
        match r {
            Some(n) => is_small_word(word_at(b@, p as int)) && n == be_val(
                word_at(b@, p as int),
            ),
            None => !is_small_word(word_at(b@, p as int)),
        },
{
    let ghost w = word_at(b@, p as int);
    let blen: usize = b.len();
    let mut i: usize = 0;
    while i < 24
        invariant
            i <= 24,
            p + 32 <= blen == b@.len(),
            w == word_at(b@, p as int),
            forall|j: int| 0 <= j < i ==> w[j] == 0u8,
        decreases 24 - i,
    {
        if b[p + i] != 0 {
            proof {
                assert(w[i as int] == b@[p + i]);
            }
            return None;
        }
        proof {
            assert(w[i as int] == b@[p + i]);
        }
        i += 1;
    }
    let mut acc: u64 = 0;
    let mut j: usize = 0;
    while j < 8
        invariant
            j <= 8,
            p + 32 <= blen == b@.len(),
            w == word_at(b@, p as int),
            acc as nat == be_val(w.subrange(24, 24 + j as int)),
            (acc as nat) < pow256(j as nat),
        decreases 8 - j,
    {
        let byte = b[p + 24 + j];
        proof {
            let pre = w.subrange(24, 24 + j as int);
            let cur = w.subrange(24, 24 + j + 1);
            assert(cur.drop_last() =~= pre);
            assert(cur.last() == b@[p + 24 + j]);
            assert((acc as nat) * 256 + byte < pow256((j as nat) + 1))
                by (nonlinear_arith)
                requires
                    (acc as nat) < pow256(j as nat),
                    byte < 256,
                    pow256((j as nat) + 1) == 256 * pow256(j as nat),
            ;
            crate::bytes32::lemma_pow256_increases((j as nat) + 1, 8);
            assert(pow256(8) == 0x1_0000_0000_0000_0000) by {
                reveal_with_fuel(pow256, 9);
            }
        }
        acc = acc * 256 + (byte as u64);
        j += 1;
    }
    proof {
        assert(forall|j: int| 0 <= j < 24 ==> w[j] == 0u8);
        assert(is_small_word(w));
        lemma_small_word_val(w);
        assert(w.subrange(24, 32) =~= w.subrange(24int, 24int + 8));
    }
    Some(acc)
}

/// The boolean carried by a strictly encoded word: all bytes zero for false,
/// a single trailing one for true.
pub fn read_bool_at(b: &Vec<u8>, p: usize) -> (r: Option<bool>)
    requires
        p + 32 <= b@.len(),
    ensures
        match r {
            Some(v) => word_at(b@, p as int) == word64(if v {
                1u64
            } else {
                0u64
            }),
            None => word_at(b@, p as int) != word64(0u64) && word_at(b@, p as int) != word64(
                1u64,
            ),
        },
{
    let ghost w = word_at(b@, p as int);
    match read_u64_at(b, p) {
        Some(0u64) => {
            proof {
                crate::bytes32::lemma_word64_val(0u64);
                lemma_be_val_injective(w, word64(0u64));
            }
            Some(false)
        },
        Some(1u64) => {
            proof {
                crate::bytes32::lemma_word64_val(1u64);
                lemma_be_val_injective(w, word64(1u64));
            }
            Some(true)
        },
        Some(_) => {
            proof {
                crate::bytes32::lemma_word64_val(0u64);
                crate::bytes32::lemma_word64_val(1u64);
            }
            None
        },
        None => {
            proof {
                crate::bytes32::lemma_word64_val(0u64);
                crate::bytes32::lemma_word64_val(1u64);
            }
            None
        },
    }
}

} // verus!
