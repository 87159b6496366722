//! A growable little-endian bit container and its big-endian serialization.
//!
//! Bit `k` lives in byte `k / 8`, at position `k % 8` (least-significant bit
//! first). Serialization reverses the bytes, so the most-significant group
//! comes first, and strips the leading all-zero bytes.

use vstd::prelude::*;

verus! {

use vstd::arithmetic::div_mod::lemma_fundamental_div_mod;
use vstd::arithmetic::div_mod::lemma_fundamental_div_mod_converse;
use vstd::arithmetic::div_mod::lemma_mod_bound;
use vstd::arithmetic::power2::lemma2_to64;
use vstd::arithmetic::power2::lemma_pow2_adds;
use vstd::arithmetic::power2::pow2;

/// Bit `k` of a little-endian byte sequence: byte `k / 8` holds bits
/// `8*(k/8)` .. `8*(k/8) + 7`, least-significant bit first.
pub open spec fn le_bit(bytes: Seq<u8>, k: int) -> bool {
    &&& 0 <= k < 8 * bytes.len()
    &&& (bytes[k / 8] >> ((k % 8) as u8)) & 1u8 == 1u8
}

/// Bit `k` of a big-endian byte sequence: the last byte holds bits 0..=7,
/// the byte before it bits 8..=15, and so on.
pub open spec fn be_bit(bytes: Seq<u8>, k: int) -> bool {
    &&& 0 <= k < 8 * bytes.len()
    &&& (bytes[bytes.len() - 1 - k / 8] >> ((k % 8) as u8)) & 1u8 == 1u8
}

/// `v` is the canonical big-endian encoding of the bit set `bits`: bit `k`
/// of `v` is set exactly when `bits` holds `k`, and no leading all-zero byte
/// remains (so an all-zero mask encodes as the empty sequence).
pub open spec fn is_be_encoding(v: Seq<u8>, bits: Set<int>) -> bool {
    &&& forall|k: int| be_bit(v, k) <==> bits.contains(k)
    &&& v.len() > 0 ==> v[0] != 0
}

proof fn lemma_bit_pos(k: int)
    requires
        0 <= k,
    ensures
        k == 8 * (k / 8) + k % 8,
        0 <= k % 8 < 8,
        8 * (k / 8) <= k < 8 * (k / 8) + 8,
{
    lemma_fundamental_div_mod(k, 8);
    lemma_mod_bound(k, 8);
}

proof fn lemma_or_bit(b: u8, m: u8, j: u8)
    by (bit_vector)
    requires
        m < 8,
        j < 8,
    ensures
        ((b | (1u8 << m)) >> j) & 1u8 == 1u8 <==> ((b >> j) & 1u8 == 1u8 || j == m),
{
}

proof fn lemma_zero_byte_bit(m: u8)
    by (bit_vector)
    ensures
        (0u8 >> m) & 1u8 != 1u8,
{
}

proof fn lemma_le_bit_push_zero(bytes: Seq<u8>)
    ensures
        forall|j: int| le_bit(bytes.push(0u8), j) <==> le_bit(bytes, j),
{
    assert forall|j: int| le_bit(bytes.push(0u8), j) <==> le_bit(bytes, j) by {
        if 0 <= j {
            lemma_fundamental_div_mod(j, 8);
            if j < 8 * bytes.len() {
                assert(bytes.push(0u8)[j / 8] == bytes[j / 8]);
            } else if j < 8 * (bytes.len() + 1) {
                assert(j / 8 == bytes.len());
                lemma_zero_byte_bit((j % 8) as u8);
            }
        }
    }
}

/// The value of a byte sequence read as a big-endian unsigned integer.
pub open spec fn be_val(v: Seq<u8>) -> nat
    decreases v.len(),
{
    if v.len() == 0 {
        0
    } else {
        be_val(v.drop_last()) * 256 + (v.last() as nat)
    }
}

/// The value contributed by bits `0 .. n` of a big-endian byte sequence.
pub open spec fn bits_val(v: Seq<u8>, n: int) -> nat
    decreases n,
{
    if n <= 0 {
        0
    } else {
        bits_val(v, n - 1) + if be_bit(v, n - 1) {
            pow2((n - 1) as nat)
        } else {
            0nat
        }
    }
}

/// The sum of the powers of two from `2^a` to `2^b` inclusive.
pub open spec fn pow2_sum(a: int, b: int) -> nat
    decreases b + 1 - a,
{
    if a < 0 || a > b {
        0
    } else {
        pow2(a as nat) + pow2_sum(a + 1, b)
    }
}

proof fn lemma_byte_val(b: u8)
    by (bit_vector)
    ensures
        b == ((b >> 0u8) & 1u8) * 1 + ((b >> 1u8) & 1u8) * 2 + ((b >> 2u8) & 1u8) * 4 + ((b
            >> 3u8) & 1u8) * 8 + ((b >> 4u8) & 1u8) * 16 + ((b >> 5u8) & 1u8) * 32 + ((b >> 6u8)
            & 1u8) * 64 + ((b >> 7u8) & 1u8) * 128,
        forall|m: u8| ((b >> m) & 1u8) == 0 || ((b >> m) & 1u8) == 1,
{
}

proof fn lemma_bits_val_byte(v: Seq<u8>)
    requires
        v.len() >= 1,
    ensures
        bits_val(v, 8) == v.last(),
{
    reveal_with_fuel(bits_val, 9);
    let b = v.last();
    lemma_byte_val(b);
    lemma2_to64();
    assert forall|j: int| 0 <= j < 8 implies be_bit(v, j) == (((b >> (j as u8)) & 1u8)
        == 1u8) by {
        assert(j / 8 == 0 && j % 8 == j);
        assert(v[v.len() - 1 - j / 8] == b);
    }
}

proof fn lemma_bits_val_split(v: Seq<u8>, n: int)
    requires
        v.len() >= 1,
        n >= 8,
    ensures
        bits_val(v, n) == bits_val(v, 8) + 256 * bits_val(v.drop_last(), n - 8),
    decreases n,
{
    if n == 8 {
        assert(bits_val(v.drop_last(), 0) == 0);
    } else {
        lemma_bits_val_split(v, n - 1);
        let x = n - 1;
        assert(be_bit(v, x) <==> be_bit(v.drop_last(), x - 8)) by {
            lemma_bit_pos(x);
            lemma_fundamental_div_mod_converse(x - 8, 8, x / 8 - 1, x % 8);
            if 0 <= x - 8 < 8 * v.drop_last().len() {
                assert(v.drop_last()[v.drop_last().len() - 1 - (x - 8) / 8] == v[v.len() - 1 - x
                    / 8]);
            }
        }
        lemma_pow2_adds(8, (x - 8) as nat);
        lemma2_to64();
        assert(pow2(x as nat) == 256 * pow2((x - 8) as nat));
    }
}

proof fn lemma_be_val_bits(v: Seq<u8>)
    ensures
        be_val(v) == bits_val(v, 8 * v.len() as int),
    decreases v.len(),
{
    if v.len() > 0 {
        lemma_be_val_bits(v.drop_last());
        lemma_bits_val_split(v, 8 * v.len() as int);
        lemma_bits_val_byte(v);
    }
}

proof fn lemma_single_bits_val(v: Seq<u8>, i: int, n: int)
    requires
        0 <= i,
        forall|k: int| be_bit(v, k) <==> k == i,
        0 <= n,
    ensures
        bits_val(v, n) == if n > i {
            pow2(i as nat)
        } else {
            0nat
        },
    decreases n,
{
    if n > 0 {
        lemma_single_bits_val(v, i, n - 1);
    }
}

/// Law: a mask holding exactly one set bit `i` reads, as a big-endian
/// unsigned integer, as two to the power `i`.
pub proof fn lemma_single_bit_value(v: Seq<u8>, i: int)
    requires
        0 <= i,
        forall|k: int| be_bit(v, k) <==> k == i,
    ensures
        be_val(v) == pow2(i as nat),
{
    lemma_be_val_bits(v);
    assert(be_bit(v, i));
    lemma_single_bits_val(v, i, 8 * v.len() as int);
}

proof fn lemma_pow2_sum_snoc(a: int, b: int)
    requires
        0 <= a <= b,
    ensures
        pow2_sum(a, b) == pow2_sum(a, b - 1) + pow2(b as nat),
    decreases b - a,
{
    if a < b {
        lemma_pow2_sum_snoc(a + 1, b);
    } else {
        assert(pow2_sum(a + 1, b) == 0);
        assert(pow2_sum(a, b - 1) == 0);
    }
}

proof fn lemma_range_bits_val(v: Seq<u8>, a: int, b: int, n: int)
    requires
        0 <= a <= b,
        forall|k: int| be_bit(v, k) <==> a <= k <= b,
        0 <= n,
    ensures
        bits_val(v, n) == if n <= a {
            0nat
        } else if n <= b + 1 {
            pow2_sum(a, n - 1)
        } else {
            pow2_sum(a, b)
        },
    decreases n,
{
    if n > 0 {
        lemma_range_bits_val(v, a, b, n - 1);
        if n == a + 1 {
            assert(pow2_sum(a + 1, a) == 0);
        } else if a < n <= b + 1 {
            lemma_pow2_sum_snoc(a, n - 1);
        }
    }
}

/// Law: a mask whose set bits are exactly `a ..= b` reads, as a big-endian
/// unsigned integer, as the sum of the powers of two from `2^a` to `2^b`.
pub proof fn lemma_range_value(v: Seq<u8>, a: int, b: int)
    requires
        0 <= a <= b,
        forall|k: int| be_bit(v, k) <==> a <= k <= b,
    ensures
        be_val(v) == pow2_sum(a, b),
{
    lemma_be_val_bits(v);
    assert(be_bit(v, b));
    lemma_range_bits_val(v, a, b, 8 * v.len() as int);
}

/// A growable bit container backed by plain bytes. It is created empty,
/// grows on demand as bits are set, and is finally serialized once into the
/// big-endian byte mask.
pub struct BitMask {
    bytes: Vec<u8>,
}

impl View for BitMask {
    type V = Seq<u8>;

    closed spec fn view(&self) -> Seq<u8> {
        self.bytes@
    }
}

impl BitMask {
    /// A container with no bit set.
    pub fn new() -> (r: BitMask)
        ensures
            r@.len() == 0,
    {
        BitMask { bytes: Vec::new() }
    }

    /// Sets bit `k`, growing the container so the bit is addressable.
    /// Every other bit keeps its value.
    pub fn set_bit(&mut self, k: usize)
        ensures
            forall|j: int| le_bit(final(self)@, j) <==> (le_bit(old(self)@, j) || j == k as int),
    {
        let idx: usize = k / 8;
        let ghost orig = self@;
        while self.bytes.len() <= idx
            invariant
                forall|j: int| le_bit(self@, j) <==> le_bit(orig, j),
            decreases idx + 1 - self.bytes.len(),
        {
            let ghost prev = self@;
            self.bytes.push(0u8);
            proof {
                lemma_le_bit_push_zero(prev);
            }
        }
        let m: u8 = (k % 8) as u8;
        let b: u8 = self.bytes[idx];
        let nb: u8 = b | (1u8 << m);
        let ghost mid = self@;
        self.bytes.set(idx, nb);
        proof {
            lemma_bit_pos(k as int);
            assert(k < 8 * mid.len());
            assert forall|j: int| le_bit(self@, j) <==> (le_bit(orig, j) || j == k as int) by {
                assert(le_bit(mid, j) <==> le_bit(orig, j));
                if 0 <= j < 8 * mid.len() {
                    lemma_bit_pos(j);
                    if j / 8 == idx as int {
                        lemma_or_bit(mid[idx as int], m, (j % 8) as u8);
                    } else {
                        assert(self@[j / 8] == mid[j / 8]);
                    }
                } else {
                    assert(self@.len() == mid.len());
                }
            }
            assert(orig == old(self)@);
            assert(forall|j: int|
                le_bit(self@, j) <==> (le_bit(old(self)@, j) || j == k as int));
        }
    }

    /// Sets every bit from `start` to `end` inclusive; every other bit keeps
    /// its value.
    pub fn set_range(&mut self, start: usize, end: usize)
        requires
            start <= end,
        ensures
            forall|j: int|
                le_bit(final(self)@, j) <==> (le_bit(old(self)@, j) || (start <= j <= end)),
    {
        let ghost orig = self@;
        let mut k: usize = start;
        while k < end
            invariant
                start <= k <= end,
                forall|j: int| le_bit(self@, j) <==> (le_bit(orig, j) || (start <= j < k)),
            decreases end - k,
        {
            let ghost prev = self@;
            self.set_bit(k);
            proof {
                assert forall|j: int|
                    le_bit(self@, j) <==> (le_bit(orig, j) || (start <= j < k + 1)) by {
                    assert(le_bit(self@, j) <==> (le_bit(prev, j) || j == k as int));
                    assert(le_bit(prev, j) <==> (le_bit(orig, j) || (start <= j < k)));
                }
            }
            k = k + 1;
        }
        let ghost prev = self@;
        self.set_bit(end);
        proof {
            assert forall|j: int|
                le_bit(self@, j) <==> (le_bit(orig, j) || (start <= j <= end)) by {
                assert(le_bit(self@, j) <==> (le_bit(prev, j) || j == end as int));
                assert(le_bit(prev, j) <==> (le_bit(orig, j) || (start <= j < end)));
            }
        }
    }

    /// Serializes the container: bytes are emitted most-significant group
    /// first, and the leading all-zero bytes are stripped, so the result is
    /// the minimal big-endian mask with exactly the container's bits.
    pub fn into_bytes(self) -> (r: Vec<u8>)
        ensures
            forall|k: int| be_bit(r@, k) <==> le_bit(self@, k),
            r@.len() > 0 ==> r@[0] != 0,
    {
        let mut n: usize = self.bytes.len();
        while n > 0 && self.bytes[n - 1] == 0
            invariant
                n <= self@.len(),
                forall|j: int| n <= j < self@.len() ==> self@[j] == 0,
            decreases n,
        {
            n = n - 1;
        }
        let mut r: Vec<u8> = Vec::new();
        let mut i: usize = n;
        while i > 0
            invariant
                i <= n <= self@.len(),
                r@.len() == n - i,
                forall|j: int| 0 <= j < r@.len() ==> r@[j] == self@[n - 1 - j],
            decreases i,
        {
            i = i - 1;
            let b = self.bytes[i];
            r.push(b);
        }
        proof {
            assert forall|k: int| be_bit(r@, k) <==> le_bit(self@, k) by {
                if 0 <= k {
                    lemma_fundamental_div_mod(k, 8);
                    if k < 8 * (n as int) {
                        assert(r@[r@.len() - 1 - k / 8] == self@[k / 8]);
                    } else if k < 8 * self@.len() {
                        assert(k / 8 >= n);
                        assert(self@[k / 8] == 0);
                        lemma_zero_byte_bit((k % 8) as u8);
                    }
                }
            }
        }
        r
    }
}

} // verus!
