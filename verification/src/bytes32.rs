//! Big-endian byte-string arithmetic and the 32-byte word type that carries
//! 256-bit on-chain integers through the library as plain bytes.

use vstd::prelude::*;
use vstd::arithmetic::div_mod::{lemma_div_pos_is_pos, lemma_fundamental_div_mod};

verus! {

/// Numeric value of a big-endian byte string.
pub open spec fn be_val(s: Seq<u8>) -> nat
    decreases s.len(),
{
    if s.len() == 0 {
        0nat
    } else {
        (be_val(s.drop_last()) * 256 + s.last()) as nat
    }
}

/// 256 raised to the power `k`.
pub open spec fn pow256(k: nat) -> nat
    decreases k,
{
    if k == 0 {
        1nat
    } else {
        256 * pow256((k - 1) as nat)
    }
}

/// A byte string is bounded by 256 to its length.
pub proof fn lemma_be_val_bound(s: Seq<u8>)
    ensures
        be_val(s) < pow256(s.len()),
    decreases s.len(),
{
    if s.len() > 0 {
        lemma_be_val_bound(s.drop_last());
        assert(be_val(s.drop_last()) <= pow256((s.len() - 1) as nat) - 1);
        assert(be_val(s.drop_last()) * 256 <= (pow256((s.len() - 1) as nat) - 1) * 256)
            by (nonlinear_arith)
            requires
                be_val(s.drop_last()) <= pow256((s.len() - 1) as nat) - 1,
        ;
    }
}

/// Appending byte strings multiplies the head's value by the tail's weight.
pub proof fn lemma_be_val_append(s: Seq<u8>, t: Seq<u8>)
    ensures
        be_val(s + t) == be_val(s) * pow256(t.len()) + be_val(t),
    decreases t.len(),
{
    if t.len() == 0 {
        assert(s + t =~= s);
        assert(pow256(t.len()) == 1);
        assert(be_val(s) * pow256(t.len()) == be_val(s))
            by (nonlinear_arith)
            requires
                pow256(t.len()) == 1,
        ;
    } else {
        let tl = t.drop_last();
        lemma_be_val_append(s, tl);
        assert((s + t).drop_last() =~= s + tl);
        assert((s + t).last() == t.last());
        assert(be_val(s + t) == be_val(s + tl) * 256 + t.last());
        assert((be_val(s) * pow256(tl.len()) + be_val(tl)) * 256 + t.last()
            == be_val(s) * (256 * pow256(tl.len())) + (be_val(tl) * 256 + t.last()))
            by (nonlinear_arith);
        assert(pow256(t.len()) == 256 * pow256(tl.len()));
        assert(be_val(t) == be_val(tl) * 256 + t.last());
        assert(be_val(s) * pow256(t.len()) == be_val(s) * (256 * pow256(tl.len())))
            by (nonlinear_arith)
            requires
                pow256(t.len()) == 256 * pow256(tl.len()),
        ;
        assert(be_val(s + t) == be_val(s) * pow256(t.len()) + be_val(t));
    }
}

/// A string of zero bytes has value zero.
pub proof fn lemma_be_val_zeros(s: Seq<u8>)
    requires
        forall|i: int| 0 <= i < s.len() ==> s[i] == 0u8,
    ensures
        be_val(s) == 0,
    decreases s.len(),
{
    if s.len() > 0 {
        lemma_be_val_zeros(s.drop_last());
    }
}

/// A word whose first 24 bytes are zero: its value fits in 64 bits.
pub open spec fn is_small_word(w: Seq<u8>) -> bool {
    &&& w.len() == 32
    &&& forall|i: int| 0 <= i < 24 ==> w[i] == 0u8
}

/// A small word's value is that of its last eight bytes, below 2^64.
pub proof fn lemma_small_word_val(w: Seq<u8>)
    requires
        is_small_word(w),
    ensures
        be_val(w) == be_val(w.subrange(24, 32)),
        be_val(w) < 0x1_0000_0000_0000_0000,
{
    let head = w.subrange(0, 24);
    let tail = w.subrange(24, 32);
    assert(w =~= head + tail);
    lemma_be_val_zeros(head);
    lemma_be_val_append(head, tail);
    lemma_be_val_bound(tail);
    assert(pow256(8) == 0x1_0000_0000_0000_0000) by {
        reveal_with_fuel(pow256, 9);
    }
}

/// The 32-byte big-endian word that carries a 64-bit value.
pub open spec fn word64(x: u64) -> Seq<u8> {
    Seq::new(32, |i: int| if i < 24 {
        0u8
    } else {
        (x as nat / pow256((31 - i) as nat) % 256) as u8
    })
}

/// `word64` really encodes its argument.
pub proof fn lemma_word64_val(x: u64)
    ensures
        is_small_word(word64(x)),
        be_val(word64(x)) == x,
{
    lemma_word64_val_partial(x, 32);
    assert(word64(x).subrange(0, 32) =~= word64(x));
    assert(pow256(0) == 1);
    assert(x as nat / 1nat == x as nat)
        by (nonlinear_arith);
    assert(forall|i: int| 0 <= i < 24 ==> word64(x)[i] == 0u8);
}

/// The first `n` bytes of `word64(x)` encode `x` shifted right by the rest.
proof fn lemma_word64_val_partial(x: u64, n: int)
    requires
        0 <= n <= 32,
    ensures
        be_val(word64(x).subrange(0, n)) == x as nat / pow256((32 - n) as nat),
    decreases n,
{
    let w = word64(x);
    if n == 0 {
        lemma_pow256_u64_bound(x, 32);
    } else {
        lemma_word64_val_partial(x, n - 1);
        let s = w.subrange(0, n);
        assert(s.drop_last() =~= w.subrange(0, n - 1));
        let k = (32 - n) as nat;
        assert(pow256(k + 1) == 256 * pow256(k));
        lemma_pow256_pos(k);
        if n <= 24 {
            lemma_pow256_u64_bound(x, (32 - n + 1) as nat);
            lemma_div_chain(x as nat, pow256(k), 256);
            assert(be_val(s) == (x as nat / pow256(k + 1)) * 256 + 0);
            assert(x as nat / pow256(k + 1) == 0) by {
                lemma_pow256_u64_bound(x, k + 1);
            }
            assert(x as nat / pow256(k) == 0) by {
                lemma_pow256_u64_bound(x, k);
            }
        } else {
            assert(s.last() == (x as nat / pow256((31 - (n - 1)) as nat) % 256) as u8);
            assert((31 - (n - 1)) as nat == k);
            assert(x as nat / pow256(k) % 256 < 256);
            lemma_div_chain(x as nat, pow256(k), 256);
            assert((x as nat / pow256(k + 1)) * 256 + x as nat / pow256(k) % 256
                == (x as nat / pow256(k) / 256) * 256 + x as nat / pow256(k) % 256);
            lemma_fundamental_div_mod_nat(x as nat / pow256(k), 256);
        }
    }
}

/// Division by a product divides twice.
proof fn lemma_div_chain(x: nat, a: nat, b: nat)
    requires
        a > 0,
        b > 0,
    ensures
        x / (a * b) == x / a / b,
{
    vstd::arithmetic::div_mod::lemma_div_denominator(x as int, a as int, b as int);
}

/// n == (n / d) * d + n % d for naturals.
proof fn lemma_fundamental_div_mod_nat(n: nat, d: nat)
    requires
        d > 0,
    ensures
        n == (n / d) * d + n % d,
{
    lemma_fundamental_div_mod(n as int, d as int);
    assert((n / d) * d == d * (n / d)) by (nonlinear_arith);
}

/// Powers of 256 are positive.
pub proof fn lemma_pow256_pos(k: nat)
    ensures
        pow256(k) > 0,
    decreases k,
{
    if k > 0 {
        lemma_pow256_pos((k - 1) as nat);
    }
}

/// Beyond eight bytes of weight, a 64-bit value shifts to zero.
proof fn lemma_pow256_u64_bound(x: u64, k: nat)
    requires
        k >= 8,
    ensures
        x as nat / pow256(k) == 0,
    decreases k,
{
    if k == 8 {
        assert(pow256(8) == 0x1_0000_0000_0000_0000) by {
            reveal_with_fuel(pow256, 9);
        }
        assert(x as nat / 0x1_0000_0000_0000_0000 == 0);
    } else {
        lemma_pow256_u64_bound(x, (k - 1) as nat);
        lemma_pow256_pos((k - 1) as nat);
        lemma_div_chain(x as nat, pow256((k - 1) as nat), 256);
        lemma_div_pos_is_pos((x as nat / pow256((k - 1) as nat)) as int, 256);
    }
}

/// Copy of a byte vector, element for element.
pub fn copy_bytes(v: &Vec<u8>) -> (r: Vec<u8>)
    ensures
        r@ == v@,
{
    let mut out: Vec<u8> = Vec::new();
    let mut i: usize = 0;
    while i < v.len()
        invariant
            i <= v@.len(),
            out@ == v@.subrange(0, i as int),
        decreases v@.len() - i,
    {
        out.push(v[i]);
        proof {
            assert(out@ =~= v@.subrange(0, i + 1));
        }
        i += 1;
    }
    proof {
        assert(out@ =~= v@);
    }
    out
}

/// Whether two byte vectors hold the same bytes.
pub fn eq_bytes(a: &Vec<u8>, b: &Vec<u8>) -> (r: bool)
    ensures
        r == (a@ == b@),
{
    if a.len() != b.len() {
        return false;
    }
    let mut i: usize = 0;
    while i < a.len()
        invariant
            i <= a@.len(),
            a@.len() == b@.len(),
            forall|j: int| 0 <= j < i ==> a@[j] == b@[j],
        decreases a@.len() - i,
    {
        if a[i] != b[i] {
            return false;
        }
        i += 1;
    }
    proof {
        assert(a@ =~= b@);
    }
    true
}

/// A 256-bit unsigned on-chain integer, held as its 32 big-endian bytes.
#[derive(Debug)]
pub struct Word256 {
    bytes: Vec<u8>,
}

impl Clone for Word256 {
    /// A clone carries the same bytes.
    fn clone(&self) -> (r: Self)
        ensures
            r@ == self@,
    {
        proof {
            use_type_invariant(self);
        }
        Word256 { bytes: copy_bytes(&self.bytes) }
    }
}

impl View for Word256 {
    type V = Seq<u8>;

    closed spec fn view(&self) -> Seq<u8> {
        self.bytes@
    }
}

impl Word256 {
    #[verifier::type_invariant]
    pub closed spec fn wf(self) -> bool {
        self.bytes@.len() == 32
    }

    /// Numeric value of this word.
    pub open spec fn val(&self) -> nat {
        be_val(self@)
    }

    /// The zero word.
    pub fn zero() -> (r: Word256)
        ensures
            r@ == word64(0),
            r.val() == 0,
    {
        Word256::from_u64(0)
    }

    /// The word that carries a 64-bit value.
    pub fn from_u64(x: u64) -> (r: Word256)
        ensures
            r@ == word64(x),
            r.val() == x,
    {
        let mut bytes: Vec<u8> = Vec::new();
        let mut i: usize = 0;
        while i < 24
            invariant
                i <= 24,
                bytes@.len() == i,
                forall|j: int| 0 <= j < i ==> bytes@[j] == word64(x)[j],
            decreases 24 - i,
        {
            bytes.push(0u8);
            i += 1;
        }
        while i < 32
            invariant
                24 <= i <= 32,
                bytes@.len() == i,
                forall|j: int| 0 <= j < i ==> bytes@[j] == word64(x)[j],
            decreases 32 - i,
        {
            let weight = pow256_u64(31 - i);
            let b: u8 = ((x / weight) % 256) as u8;
            bytes.push(b);
            i += 1;
        }
        proof {
            assert(bytes@ =~= word64(x));
            lemma_word64_val(x);
        }
        Word256 { bytes }
    }

    /// A word made of the given 32 bytes.
    pub fn from_bytes(bytes: Vec<u8>) -> (r: Word256)
        requires
            bytes@.len() == 32,
        ensures
            r@ == bytes@,
    {
        Word256 { bytes }
    }

    /// The bytes of this word.
    pub fn as_bytes(&self) -> (r: &Vec<u8>)
        ensures
            r@ == self@,
            r@.len() == 32,
    {
        proof {
            use_type_invariant(self);
        }
        &self.bytes
    }
}

/// 256^k as a 64-bit value, for weights below 2^64.
pub fn pow256_u64(k: usize) -> (r: u64)
    requires
        k <= 7,
    ensures
        r == pow256(k as nat),
        r > 0,
{
    let mut r: u64 = 1;
    let mut j: usize = 0;
    while j < k
        invariant
            j <= k <= 7,
            r == pow256(j as nat),
            r <= 0x100_0000_0000_0000,
        decreases k - j,
    {
        proof {
            lemma_pow256_bound((j + 1) as nat);
        }
        r = r * 256;
        j += 1;
    }
    proof {
        lemma_pow256_pos(k as nat);
    }
    r
}

/// Small powers of 256 stay below 2^56.
proof fn lemma_pow256_bound(k: nat)
    requires
        k <= 7,
    ensures
        pow256(k) <= 0x100_0000_0000_0000,
{
    assert(pow256(7) == 0x100_0000_0000_0000) by {
        reveal_with_fuel(pow256, 8);
    }
    lemma_pow256_increases(k, 7);
}

/// pow256 is monotone.
pub proof fn lemma_pow256_increases(a: nat, b: nat)
    requires
        a <= b,
    ensures
        pow256(a) <= pow256(b),
    decreases b,
{
    if a < b {
        lemma_pow256_increases(a, (b - 1) as nat);
        lemma_pow256_pos((b - 1) as nat);
    }
}

} // verus!
