//! The bytes of a state machine snapshot: a sequence of text-to-bytes
//! pairs as bincode writes it with fixed-size integers, and why bytes that
//! begin with the encoding of some pairs begin with the encoding of no
//! other.

use vstd::prelude::*;
use vstd::utf8::{decode_utf8, encode_utf8};

verus! {

broadcast use vstd::utf8::encode_utf8_decode_utf8;

/// `n` in `k` bytes, the least significant first.
pub open spec fn le_bytes(n: nat, k: nat) -> Seq<u8>
    decreases k,
{
    if k == 0 {
        Seq::empty()
    } else {
        seq![(n % 256) as u8] + le_bytes(n / 256, (k - 1) as nat)
    }
}

/// A length as bincode writes it with fixed-size integers: eight bytes,
/// little-endian.
pub open spec fn bincode_len(n: nat) -> Seq<u8> {
    le_bytes(n, 8)
}

/// One text-to-bytes pair as bincode writes it: the text's UTF-8 bytes,
/// then the bytes, each after its length.
pub open spec fn bincode_pair(p: (Seq<char>, Seq<u8>)) -> Seq<u8> {
    bincode_len(encode_utf8(p.0).len()) + encode_utf8(p.0) + bincode_len(p.1.len()) + p.1
}

/// The pairs `s`, each as bincode writes it, one after the other.
pub open spec fn bincode_pairs_body(s: Seq<(Seq<char>, Seq<u8>)>) -> Seq<u8>
    decreases s.len(),
{
    if s.len() == 0 {
        Seq::empty()
    } else {
        bincode_pairs_body(s.drop_last()) + bincode_pair(s.last())
    }
}

/// The bytes that `bincode::serialize` gives for a sequence of text-to-bytes
/// pairs, or for a map with these entries in this order: their number, then
/// the pairs.
pub open spec fn bincode_pairs_encoding(pairs: Seq<(Seq<char>, Seq<u8>)>) -> Seq<u8> {
    bincode_len(pairs.len()) + bincode_pairs_body(pairs)
}

/// Whether `x` is a prefix of `b`.
pub open spec fn prefix_of(x: Seq<u8>, b: Seq<u8>) -> bool {
    x.len() <= b.len() && b.take(x.len() as int) == x
}

/// Whether `bytes` begin with the encoding of the pairs `s`.
pub open spec fn begins_with_pairs(bytes: Seq<u8>, s: Seq<(Seq<char>, Seq<u8>)>) -> bool {
    prefix_of(bincode_pairs_encoding(s), bytes)
}

/// 256 to the power `k`.
pub open spec fn pow256(k: nat) -> nat
    decreases k,
{
    if k == 0 {
        1
    } else {
        256 * pow256((k - 1) as nat)
    }
}

/// Eight bytes hold every number below 2 to the 64.
proof fn lemma_pow256_8()
    ensures
        pow256(8) == 0x1_0000_0000_0000_0000,
{
    reveal_with_fuel(pow256, 9);
}

/// Numbers below `256^k` with the same `k` bytes are equal.
proof fn lemma_le_bytes_injective(n: nat, m: nat, k: nat)
    requires
        n < pow256(k),
        m < pow256(k),
        le_bytes(n, k) == le_bytes(m, k),
    ensures
        n == m,
    decreases k,
{
    if k > 0 {
        let p = pow256((k - 1) as nat);
        assert(le_bytes(n, k)[0] == le_bytes(m, k)[0]);
        assert(le_bytes(n, k)[0] == (n % 256) as u8);
        assert(le_bytes(m, k)[0] == (m % 256) as u8);
        assert(((n % 256) as u8) as nat == n % 256);
        assert(((m % 256) as u8) as nat == m % 256);
        assert(n % 256 == m % 256);
        assert(le_bytes(n, k).drop_first() =~= le_bytes(n / 256, (k - 1) as nat));
        assert(le_bytes(m, k).drop_first() =~= le_bytes(m / 256, (k - 1) as nat));
        assert(n / 256 < p) by (nonlinear_arith)
            requires
                n < 256 * p,
        ;
        assert(m / 256 < p) by (nonlinear_arith)
            requires
                m < 256 * p,
        ;
        lemma_le_bytes_injective(n / 256, m / 256, (k - 1) as nat);
        assert(n == m) by (nonlinear_arith)
            requires
                n / 256 == m / 256,
                n % 256 == m % 256,
        ;
    }
}

/// `k` bytes.
proof fn lemma_le_bytes_len(n: nat, k: nat)
    ensures
        le_bytes(n, k).len() == k,
    decreases k,
{
    if k > 0 {
        lemma_le_bytes_len(n / 256, (k - 1) as nat);
    }
}

/// The pairs, read from the front: the first pair, then the others.
proof fn lemma_body_front(s: Seq<(Seq<char>, Seq<u8>)>)
    requires
        s.len() > 0,
    ensures
        bincode_pairs_body(s) == bincode_pair(s[0]) + bincode_pairs_body(s.drop_first()),
    decreases s.len(),
{
    if s.len() == 1 {
        assert(s.drop_last() =~= Seq::<(Seq<char>, Seq<u8>)>::empty());
        assert(s.drop_first() =~= Seq::<(Seq<char>, Seq<u8>)>::empty());
        assert(bincode_pairs_body(s) =~= bincode_pair(s[0]) + bincode_pairs_body(s.drop_first()));
    } else {
        lemma_body_front(s.drop_last());
        assert(s.drop_last().drop_first() =~= s.drop_first().drop_last());
        assert(s.drop_first().last() == s.last());
        assert(s.drop_last()[0] == s[0]);
        assert(bincode_pairs_body(s) =~= bincode_pair(s[0]) + bincode_pairs_body(s.drop_first()));
    }
}

/// A prefix of `b` that is `a` then `c`: `a` is a prefix of `b`, and `c` of
/// what follows `a` in `b`.
proof fn lemma_prefix_split(a: Seq<u8>, c: Seq<u8>, b: Seq<u8>)
    requires
        prefix_of(a + c, b),
    ensures
        prefix_of(a, b),
        prefix_of(c, b.skip(a.len() as int)),
{
    assert(b.take(a.len() as int) =~= (a + c).take(a.len() as int));
    assert((a + c).take(a.len() as int) =~= a);
    assert(b.skip(a.len() as int).take(c.len() as int) =~= (a + c).skip(a.len() as int));
    assert((a + c).skip(a.len() as int) =~= c);
}

/// Two prefixes of `b` of the same length are equal.
proof fn lemma_prefix_same(x: Seq<u8>, y: Seq<u8>, b: Seq<u8>)
    requires
        prefix_of(x, b),
        prefix_of(y, b),
        x.len() == y.len(),
    ensures
        x == y,
{
}

/// The lengths that two prefixes of `b` begin with, when both are below
/// 2 to the 64, are equal when their encodings are both prefixes of `b`.
proof fn lemma_len_same(n: nat, m: nat, b: Seq<u8>)
    requires
        prefix_of(bincode_len(n), b),
        prefix_of(bincode_len(m), b),
        n < 0x1_0000_0000_0000_0000,
        m < 0x1_0000_0000_0000_0000,
    ensures
        n == m,
{
    lemma_le_bytes_len(n, 8);
    lemma_le_bytes_len(m, 8);
    lemma_prefix_same(bincode_len(n), bincode_len(m), b);
    lemma_pow256_8();
    lemma_le_bytes_injective(n, m, 8);
}

/// Two pairs whose encodings are both prefixes of `b`, shorter than 2 to
/// the 64, are the same pair.
proof fn lemma_pair_unique(p1: (Seq<char>, Seq<u8>), p2: (Seq<char>, Seq<u8>), b: Seq<u8>)
    requires
        prefix_of(bincode_pair(p1), b),
        prefix_of(bincode_pair(p2), b),
        b.len() < 0x1_0000_0000_0000_0000,
    ensures
        p1 == p2,
        bincode_pair(p1) == bincode_pair(p2),
{
    let k1 = encode_utf8(p1.0);
    let k2 = encode_utf8(p2.0);
    lemma_le_bytes_len(k1.len(), 8);
    lemma_le_bytes_len(k2.len(), 8);
    lemma_le_bytes_len(p1.1.len(), 8);
    lemma_le_bytes_len(p2.1.len(), 8);
    let a1 = bincode_len(k1.len());
    let a2 = bincode_len(k2.len());
    lemma_prefix_split(a1 + k1 + bincode_len(p1.1.len()), p1.1, b);
    lemma_prefix_split(a1 + k1, bincode_len(p1.1.len()), b);
    lemma_prefix_split(a1, k1, b);
    lemma_prefix_split(a2 + k2 + bincode_len(p2.1.len()), p2.1, b);
    lemma_prefix_split(a2 + k2, bincode_len(p2.1.len()), b);
    lemma_prefix_split(a2, k2, b);
    lemma_len_same(k1.len(), k2.len(), b);
    let rest = b.skip(8);
    lemma_prefix_same(k1, k2, rest);
    assert(decode_utf8(k1) == p1.0);
    assert(decode_utf8(k2) == p2.0);
    assert(p1.0 == p2.0);
    let after = b.skip(8 + k1.len() as int);
    lemma_len_same(p1.1.len(), p2.1.len(), after);
    let vals = b.skip(8 + k1.len() as int + 8);
    assert(a1 + k1 + bincode_len(p1.1.len()) == a2 + k2 + bincode_len(p2.1.len()));
    lemma_prefix_same(p1.1, p2.1, vals);
    assert(p1 == p2);
}

/// Two sequences of as many pairs whose encodings both begin `b` are the
/// same, when `b` is shorter than 2 to the 64.
proof fn lemma_body_unique(s1: Seq<(Seq<char>, Seq<u8>)>, s2: Seq<(Seq<char>, Seq<u8>)>, b: Seq<u8>)
    requires
        s1.len() == s2.len(),
        prefix_of(bincode_pairs_body(s1), b),
        prefix_of(bincode_pairs_body(s2), b),
        b.len() < 0x1_0000_0000_0000_0000,
    ensures
        s1 == s2,
    decreases s1.len(),
{
    if s1.len() == 0 {
        assert(s1 =~= s2);
    } else {
        lemma_body_front(s1);
        lemma_body_front(s2);
        lemma_prefix_split(bincode_pair(s1[0]), bincode_pairs_body(s1.drop_first()), b);
        lemma_prefix_split(bincode_pair(s2[0]), bincode_pairs_body(s2.drop_first()), b);
        lemma_pair_unique(s1[0], s2[0], b);
        let rest = b.skip(bincode_pair(s1[0]).len() as int);
        lemma_body_unique(s1.drop_first(), s2.drop_first(), rest);
        assert(s1 =~= seq![s1[0]] + s1.drop_first());
        assert(s2 =~= seq![s2[0]] + s2.drop_first());
    }
}

/// The encoding of the pairs is at least as long as their number.
proof fn lemma_body_len(s: Seq<(Seq<char>, Seq<u8>)>)
    ensures
        bincode_pairs_body(s).len() >= s.len(),
    decreases s.len(),
{
    if s.len() > 0 {
        lemma_body_len(s.drop_last());
        lemma_le_bytes_len(encode_utf8(s.last().0).len(), 8);
    }
}

/// Bytes shorter than 2 to the 64 begin with the encoding of at most one
/// sequence of pairs.
pub proof fn lemma_encoding_unique(b: Seq<u8>, s1: Seq<(Seq<char>, Seq<u8>)>, s2: Seq<(Seq<char>, Seq<u8>)>)
    requires
        begins_with_pairs(b, s1),
        begins_with_pairs(b, s2),
        b.len() < 0x1_0000_0000_0000_0000,
    ensures
        s1 == s2,
{
    lemma_le_bytes_len(s1.len(), 8);
    lemma_le_bytes_len(s2.len(), 8);
    lemma_body_len(s1);
    lemma_body_len(s2);
    lemma_prefix_split(bincode_len(s1.len()), bincode_pairs_body(s1), b);
    lemma_prefix_split(bincode_len(s2.len()), bincode_pairs_body(s2), b);
    lemma_len_same(s1.len(), s2.len(), b);
    lemma_body_unique(s1, s2, b.skip(8));
}

} // verus!
