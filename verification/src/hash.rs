use vstd::prelude::*;

verus! {

/// A 32-byte block root, held as two big-endian halves of 16 bytes each.
///
/// Roots are ordered as 256-bit unsigned numbers, which is the lexicographic
/// order of their 32 bytes.
#[derive(Clone, Copy, Debug, PartialEq, Eq, Structural, Hash)]
pub struct Hash256 {
    /// The first 16 bytes, as a big-endian number.
    pub hi: u128,
    /// The last 16 bytes, as a big-endian number.
    pub lo: u128,
}

/// `a` comes strictly before `b` in the order of roots.
pub open spec fn hash_lt(a: Hash256, b: Hash256) -> bool {
    a.hi < b.hi || (a.hi == b.hi && a.lo < b.lo)
}

/// `a` comes before `b` in the order of roots, or is `b`.
pub open spec fn hash_le(a: Hash256, b: Hash256) -> bool {
    a == b || hash_lt(a, b)
}

/// The number that the bytes spell, the most significant byte first.
pub open spec fn be_value(bytes: Seq<u8>) -> nat
    decreases bytes.len(),
{
    if bytes.len() == 0 {
        0
    } else {
        be_value(bytes.drop_last()) * 256 + bytes.last() as nat
    }
}

/// 256 to the power of `n`.
pub open spec fn pow256(n: nat) -> nat
    decreases n,
{
    if n == 0 {
        1
    } else {
        256 * pow256((n - 1) as nat)
    }
}

impl Hash256 {
    /// The root that 32 bytes spell: the first 16 give `hi`, the last 16 `lo`.
    pub open spec fn spec_from_be_bytes(bytes: Seq<u8>) -> Hash256 {
        Hash256 {
            hi: be_value(bytes.subrange(0, 16)) as u128,
            lo: be_value(bytes.subrange(16, 32)) as u128,
        }
    }

    /// The root as a 256-bit number.
    pub open spec fn value(self) -> nat {
        (self.hi as nat) * 0x1_0000_0000_0000_0000_0000_0000_0000_0000nat + (self.lo as nat)
    }

    /// The all-zero root.
    pub open spec fn spec_zero() -> Hash256 {
        Hash256 { hi: 0, lo: 0 }
    }

    /// The root whose last eight bytes hold `x` and whose other bytes are zero.
    pub open spec fn spec_from_low_u64_be(x: u64) -> Hash256 {
        Hash256 { hi: 0, lo: x as u128 }
    }

    /// The all-zero root.
    #[verifier::when_used_as_spec(spec_zero)]
    pub fn zero() -> (h: Hash256)
        ensures
            h == Hash256::spec_zero(),
            h.value() == 0,
    {
        Hash256 { hi: 0, lo: 0 }
    }

    /// The root whose last eight bytes hold `x`, big-endian, and whose other
    /// bytes are zero.
    #[verifier::when_used_as_spec(spec_from_low_u64_be)]
    pub fn from_low_u64_be(x: u64) -> (h: Hash256)
        ensures
            h == Hash256::spec_from_low_u64_be(x),
            h.value() == x,
    {
        Hash256 { hi: 0, lo: x as u128 }
    }

    /// The root that the 32 bytes spell.
    #[verifier::when_used_as_spec(spec_from_be_bytes_array)]
    pub fn from_be_bytes(bytes: &[u8; 32]) -> (h: Hash256)
        ensures
            h == Hash256::spec_from_be_bytes(bytes@),
            h.hi == be_value(bytes@.subrange(0, 16)),
            h.lo == be_value(bytes@.subrange(16, 32)),
    {
        Hash256 { hi: be_u128(bytes, 0), lo: be_u128(bytes, 16) }
    }

    /// The root that the 32 bytes of an array spell.
    pub open spec fn spec_from_be_bytes_array(bytes: &[u8; 32]) -> Hash256 {
        Hash256::spec_from_be_bytes(bytes@)
    }

    /// The 32 bytes that spell the root.
    pub fn to_be_bytes(&self) -> (bytes: [u8; 32])
        ensures
            Hash256::spec_from_be_bytes(bytes@) == *self,
            be_value(bytes@.subrange(0, 16)) == self.hi,
            be_value(bytes@.subrange(16, 32)) == self.lo,
    {
        let mut bytes = [0u8;32];
        put_be_u128(&mut bytes, 0, self.hi);
        let ghost first = bytes@;
        put_be_u128(&mut bytes, 16, self.lo);
        proof {
            assert(bytes@.subrange(0, 16) =~= first.subrange(0, 16));
        }
        bytes
    }

    /// Whether this is the all-zero root.
    pub fn is_zero(&self) -> (b: bool)
        ensures
            b == (*self == Hash256::spec_zero()),
    {
        self.hi == 0 && self.lo == 0
    }

    /// The last eight bytes of the root, as a big-endian number.
    pub fn low_u64(&self) -> (x: u64)
        ensures
            x as nat == self.lo as nat % 0x1_0000_0000_0000_0000nat,
    {
        (self.lo % 0x1_0000_0000_0000_0000u128) as u64
    }

    /// Whether `self` comes strictly before `other` in the order of roots.
    pub fn precedes(&self, other: &Hash256) -> (b: bool)
        ensures
            b == hash_lt(*self, *other),
    {
        self.hi < other.hi || (self.hi == other.hi && self.lo < other.lo)
    }
}

/// The order of roots is the order of their values as 256-bit numbers.
pub proof fn lemma_hash_order_is_numeric(a: Hash256, b: Hash256)
    ensures
        hash_lt(a, b) <==> a.value() < b.value(),
        a == b <==> a.value() == b.value(),
{
    let m = 0x1_0000_0000_0000_0000_0000_0000_0000_0000nat;
    assert(a.lo < m && b.lo < m);
    if a.hi < b.hi {
        assert((a.hi as nat) * m + m <= (b.hi as nat) * m) by (nonlinear_arith)
            requires
                (a.hi as nat) + 1 <= (b.hi as nat),
        ;
    } else if b.hi < a.hi {
        assert((b.hi as nat) * m + m <= (a.hi as nat) * m) by (nonlinear_arith)
            requires
                (b.hi as nat) + 1 <= (a.hi as nat),
        ;
    }
}

/// The order of roots is a strict total order.
pub proof fn lemma_hash_order_total(a: Hash256, b: Hash256, c: Hash256)
    ensures
        !hash_lt(a, a),
        hash_lt(a, b) || a == b || hash_lt(b, a),
        !(hash_lt(a, b) && hash_lt(b, a)),
        hash_lt(a, b) && hash_lt(b, c) ==> hash_lt(a, c),
{
}

/// Sixteen bytes spell the numbers below 2 to the power of 128.
pub proof fn lemma_pow256_16()
    ensures
        pow256(16) == 0x1_0000_0000_0000_0000_0000_0000_0000_0000,
{
    assert(pow256(4) == 0x1_0000_0000) by {
        reveal_with_fuel(pow256, 5);
    }
    assert(pow256(8) == 0x1_0000_0000_0000_0000) by {
        reveal_with_fuel(pow256, 5);
    }
    assert(pow256(12) == 0x1_0000_0000_0000_0000_0000_0000) by {
        reveal_with_fuel(pow256, 5);
    }
    assert(pow256(16) == 0x1_0000_0000_0000_0000_0000_0000_0000_0000) by {
        reveal_with_fuel(pow256, 5);
    }
}

/// The powers of 256 grow with the exponent.
pub proof fn lemma_pow256_mono(a: nat, b: nat)
    requires
        a <= b,
    ensures
        1 <= pow256(a) <= pow256(b),
    decreases b,
{
    if a < b {
        lemma_pow256_mono(a, (b - 1) as nat);
    } else if a > 0 {
        lemma_pow256_mono((a - 1) as nat, (a - 1) as nat);
    }
}

/// The bytes of a string of length `n` spell a number below 256 to the power
/// of `n`.
pub proof fn lemma_be_value_bound(bytes: Seq<u8>)
    ensures
        be_value(bytes) < pow256(bytes.len()),
    decreases bytes.len(),
{
    if bytes.len() > 0 {
        lemma_be_value_bound(bytes.drop_last());
    }
}

/// The number that a string spells with one more byte in front.
pub proof fn lemma_be_value_prepend(b: u8, bytes: Seq<u8>)
    ensures
        be_value(seq![b] + bytes) == b * pow256(bytes.len()) + be_value(bytes),
    decreases bytes.len(),
{
    let all = seq![b] + bytes;
    if bytes.len() == 0 {
        assert(all.drop_last() =~= Seq::<u8>::empty());
        assert(be_value(all.drop_last()) == 0);
        assert(all.last() == b);
        assert(pow256(0) == 1);
        assert(be_value(bytes) == 0);
        assert(b * pow256(bytes.len()) == b) by (nonlinear_arith)
            requires
                pow256(bytes.len()) == 1,
        ;
    } else {
        assert(all.drop_last() =~= seq![b] + bytes.drop_last());
        assert(all.last() == bytes.last());
        lemma_be_value_prepend(b, bytes.drop_last());
        let p = pow256((bytes.len() - 1) as nat);
        let v = be_value(bytes.drop_last());
        assert(pow256(bytes.len()) == 256 * p);
        assert(be_value(seq![b] + bytes.drop_last()) == b * p + v);
        assert(be_value(all) == (b * p + v) * 256 + bytes.last());
        assert((b * p + v) * 256 == b * (256 * p) + v * 256) by (nonlinear_arith);
    }
}

/// The number that two strings spell one after the other.
pub proof fn lemma_be_value_concat(a: Seq<u8>, b: Seq<u8>)
    ensures
        be_value(a + b) == be_value(a) * pow256(b.len()) + be_value(b),
    decreases b.len(),
{
    let all = a + b;
    if b.len() == 0 {
        assert(all =~= a);
        assert(pow256(0) == 1);
        assert(be_value(a) * pow256(b.len()) == be_value(a)) by (nonlinear_arith)
            requires
                pow256(b.len()) == 1,
        ;
    } else {
        assert(all.drop_last() =~= a + b.drop_last());
        assert(all.last() == b.last());
        lemma_be_value_concat(a, b.drop_last());
        let p = pow256((b.len() - 1) as nat);
        let x = be_value(a);
        let v = be_value(b.drop_last());
        assert(pow256(b.len()) == 256 * p);
        assert(be_value(all) == (x * p + v) * 256 + b.last());
        assert((x * p + v) * 256 == x * (256 * p) + v * 256) by (nonlinear_arith);
    }
}

/// The value of the root that 32 bytes spell is the number that they spell:
/// the order of roots is the order of their bytes, the first byte counting
/// most.
pub proof fn lemma_value_of_bytes(bytes: Seq<u8>)
    requires
        bytes.len() == 32,
    ensures
        Hash256::spec_from_be_bytes(bytes).value() == be_value(bytes),
{
    let a = bytes.subrange(0, 16);
    let b = bytes.subrange(16, 32);
    assert(bytes =~= a + b);
    lemma_be_value_concat(a, b);
    lemma_be_value_bound(a);
    lemma_be_value_bound(b);
    lemma_pow256_16();
}

/// Two strings of the same length that spell the same number are the same
/// string.
pub proof fn lemma_be_value_injective(a: Seq<u8>, b: Seq<u8>)
    requires
        a.len() == b.len(),
        be_value(a) == be_value(b),
    ensures
        a == b,
    decreases a.len(),
{
    if a.len() > 0 {
        assert(be_value(a.drop_last()) == be_value(b.drop_last()) && a.last() == b.last()) by {
            let x = be_value(a.drop_last());
            let y = be_value(b.drop_last());
            assert(x * 256 + a.last() == y * 256 + b.last());
        }
        lemma_be_value_injective(a.drop_last(), b.drop_last());
        assert(a =~= a.drop_last().push(a.last()));
        assert(b =~= b.drop_last().push(b.last()));
    } else {
        assert(a =~= b);
    }
}

/// The number that `bytes[start..start + 16]` spell.
fn be_u128(bytes: &[u8; 32], start: usize) -> (x: u128)
    requires
        start <= 16,
    ensures
        x == be_value(bytes@.subrange(start as int, start + 16)),
{
    let mut acc: u128 = 0;
    let mut i: usize = 0;
    while i < 16
        invariant
            i <= 16,
            start <= 16,
            bytes@.len() == 32,
            acc == be_value(bytes@.subrange(start as int, start + i)),
        decreases 16 - i,
    {
        proof {
            let seen = bytes@.subrange(start as int, start + i);
            lemma_be_value_bound(seen);
            lemma_pow256_mono((i + 1) as nat, 16);
            lemma_pow256_16();
            assert(bytes@.subrange(start as int, start + i + 1).drop_last() =~= seen);
        }
        acc = acc * 256 + bytes[start + i] as u128;
        i += 1;
    }
    acc
}

/// Writes the 16 bytes that spell `x` to `out[start..start + 16]`.
fn put_be_u128(out: &mut [u8; 32], start: usize, x: u128)
    requires
        start <= 16,
    ensures
        be_value(final(out)@.subrange(start as int, start + 16)) == x,
        forall|k: int|
            0 <= k < 32 && !(start <= k < start + 16) ==> final(out)@[k] == old(out)@[k],
{
    let mut rest: u128 = x;
    let mut i: usize = 16;
    proof {
        assert(out@.subrange(start + 16, start + 16) =~= Seq::<u8>::empty());
        assert(pow256(0) == 1);
        assert(be_value(Seq::<u8>::empty()) == 0);
        assert(x * pow256(0) == x) by (nonlinear_arith)
            requires
                pow256(0) == 1,
        ;
    }
    while i > 0
        invariant
            i <= 16,
            start <= 16,
            out@.len() == 32,
            x == rest * pow256((16 - i) as nat) + be_value(
                out@.subrange(start + i, start + 16),
            ),
            forall|k: int| 0 <= k < 32 && !(start <= k < start + 16) ==> out@[k] == old(out)@[k],
        decreases i,
    {
        let ghost tail = out@.subrange(start + i, start + 16);
        i -= 1;
        let b = (rest % 256) as u8;
        out[start + i] = b;
        proof {
            assert(out@.subrange(start + i, start + 16) =~= seq![b] + tail);
            lemma_be_value_prepend(b, tail);
            let p = pow256((16 - i - 1) as nat);
            let q = (rest / 256) as int;
            assert(rest == q * 256 + b);
            assert(pow256((16 - i) as nat) == 256 * p);
            assert((q * 256 + b) * p == q * (256 * p) + b * p) by (nonlinear_arith);
        }
        rest = rest / 256;
    }
    proof {
        lemma_pow256_16();
        assert(rest == 0) by {
            if rest >= 1 {
                assert(rest * pow256(16) >= pow256(16)) by (nonlinear_arith)
                    requires
                        rest >= 1,
                ;
            }
        }
    }
}

} // verus!
