//! Fixed-width integer encodings and byte-string building.
use vstd::prelude::*;

verus! {

/// The `n` low bytes of `v`, least significant first (`to_le_bytes`).
pub open spec fn le_bytes(v: nat, n: nat) -> Seq<u8>
    decreases n,
{
    if n == 0 {
        Seq::empty()
    } else {
        seq![(v % 256) as u8] + le_bytes(v / 256, (n - 1) as nat)
    }
}

/// The `n` low bytes of `v`, most significant first (`to_be_bytes`).
pub open spec fn be_bytes(v: nat, n: nat) -> Seq<u8>
    decreases n,
{
    if n == 0 {
        Seq::empty()
    } else {
        be_bytes(v / 256, (n - 1) as nat).push((v % 256) as u8)
    }
}

/// The value of a little-endian byte string.
pub open spec fn le_value(s: Seq<u8>) -> nat
    decreases s.len(),
{
    if s.len() == 0 {
        0
    } else {
        s[0] as nat + 256 * le_value(s.drop_first())
    }
}

/// The value of a big-endian byte string.
pub open spec fn be_value(s: Seq<u8>) -> nat
    decreases s.len(),
{
    if s.len() == 0 {
        0
    } else {
        be_value(s.drop_last()) * 256 + s.last() as nat
    }
}

pub proof fn lemma_le_bytes_len(v: nat, n: nat)
    ensures
        le_bytes(v, n).len() == n,
    decreases n,
{
    if n > 0 {
        lemma_le_bytes_len(v / 256, (n - 1) as nat);
    }
}

pub proof fn lemma_be_bytes_len(v: nat, n: nat)
    ensures
        be_bytes(v, n).len() == n,
    decreases n,
{
    if n > 0 {
        lemma_be_bytes_len(v / 256, (n - 1) as nat);
    }
}

/// Appends the `n` low bytes of `v`, least significant first.
pub fn push_le(out: &mut Vec<u8>, v: u128, n: usize)
    ensures
        final(out)@ == old(out)@ + le_bytes(v as nat, n as nat),
    decreases n,
{
    if n > 0 {
        out.push((v % 256) as u8);
        push_le(out, v / 256, n - 1);
        proof {
            assert(old(out)@ + le_bytes(v as nat, n as nat) == old(out)@.push((v % 256) as u8)
                + le_bytes((v / 256) as nat, (n - 1) as nat));
        }
    } else {
        proof {
            assert(old(out)@ + le_bytes(v as nat, 0) == old(out)@);
        }
    }
}

/// Appends the `n` low bytes of `v`, most significant first.
pub fn push_be(out: &mut Vec<u8>, v: u128, n: usize)
    ensures
        final(out)@ == old(out)@ + be_bytes(v as nat, n as nat),
    decreases n,
{
    if n > 0 {
        push_be(out, v / 256, n - 1);
        out.push((v % 256) as u8);
        proof {
            assert(old(out)@ + be_bytes(v as nat, n as nat) == (old(out)@ + be_bytes(
                (v / 256) as nat,
                (n - 1) as nat,
            )).push((v % 256) as u8));
        }
    } else {
        proof {
            assert(old(out)@ + be_bytes(v as nat, 0) == old(out)@);
        }
    }
}

/// Appends all of `data`.
pub fn push_all(out: &mut Vec<u8>, data: &[u8])
    ensures
        final(out)@ == old(out)@ + data@,
{
    let mut i: usize = 0;
    while i < data.len()
        invariant
            i <= data@.len(),
            out@ == old(out)@ + data@.take(i as int),
        decreases data@.len() - i,
    {
        out.push(data[i]);
        proof {
            assert(data@.take(i + 1) == data@.take(i as int).push(data@[i as int]));
        }
        i = i + 1;
    }
    proof {
        assert(data@.take(i as int) == data@);
    }
}

/// The first `n` bytes of `data`.
pub fn prefix_bytes(data: &[u8], n: usize) -> (r: Vec<u8>)
    requires
        n <= data@.len(),
    ensures
        r@ == data@.take(n as int),
{
    let mut out: Vec<u8> = Vec::new();
    let mut i: usize = 0;
    while i < n
        invariant
            i <= n <= data@.len(),
            out@ == data@.take(i as int),
        decreases n - i,
    {
        out.push(data[i]);
        proof {
            assert(data@.take(i + 1) == data@.take(i as int).push(data@[i as int]));
        }
        i = i + 1;
    }
    out
}

/// The value of the first eight bytes of `data`, read big-endian
/// (`u64::from_be_bytes` of a prefix).
pub fn be_u64_prefix(data: &[u8]) -> (r: u64)
    requires
        data@.len() >= 8,
    ensures
        r as nat == be_value(data@.take(8)),
{
    let mut value: u64 = 0;
    let mut i: usize = 0;
    while i < 8
        invariant
            i <= 8 <= data@.len(),
            value as nat == be_value(data@.take(i as int)),
            value < pow256(i as nat),
        decreases 8 - i,
    {
        proof {
            let t = data@.take(i + 1);
            assert(t.drop_last() == data@.take(i as int));
            assert(t.last() == data@[i as int]);
            assert(pow256((i + 1) as nat) == pow256(i as nat) * 256);
            assert(pow256(i as nat) <= pow256(7)) by {
                lemma_pow256_mono(i as nat, 7);
            }
            assert(value * 256 + data@[i as int] < pow256((i + 1) as nat)) by (nonlinear_arith)
                requires
                    value < pow256(i as nat),
                    data@[i as int] < 256,
                    pow256((i + 1) as nat) == pow256(i as nat) * 256,
            ;
            lemma_pow256_mono((i + 1) as nat, 8);
            assert(value * 256 + data@[i as int] <= u64::MAX);
        }
        value = value * 256 + data[i] as u64;
        i = i + 1;
    }
    value
}

pub open spec fn pow256(n: nat) -> nat
    decreases n,
{
    if n == 0 {
        1
    } else {
        256 * pow256((n - 1) as nat)
    }
}

pub proof fn lemma_pow256_mono(a: nat, b: nat)
    requires
        a <= b,
    ensures
        pow256(a) <= pow256(b),
        pow256(8) == 0x1_0000_0000_0000_0000,
        pow256(7) == 0x100_0000_0000_0000,
    decreases b,
{
    reveal_with_fuel(pow256, 9);
    if a < b {
        lemma_pow256_mono(a, (b - 1) as nat);
    }
}

pub proof fn lemma_pow256_positive(n: nat)
    ensures
        pow256(n) > 0,
    decreases n,
{
    if n > 0 {
        lemma_pow256_positive((n - 1) as nat);
    }
}

pub proof fn lemma_le_value_bound(s: Seq<u8>)
    ensures
        le_value(s) < pow256(s.len()),
    decreases s.len(),
{
    if s.len() > 0 {
        lemma_le_value_bound(s.drop_first());
        assert(le_value(s) < pow256(s.len())) by (nonlinear_arith)
            requires
                le_value(s) == s[0] as nat + 256 * le_value(s.drop_first()),
                le_value(s.drop_first()) < pow256(s.drop_first().len()),
                pow256(s.len()) == 256 * pow256(s.drop_first().len()),
                s[0] < 256,
        ;
    }
}

/// Reading back the `n` low bytes of `v` gives `v` modulo `256^n`.
pub proof fn lemma_le_value_of_bytes(v: nat, n: nat)
    ensures
        le_value(le_bytes(v, n)) == v % pow256(n),
    decreases n,
{
    if n > 0 {
        lemma_le_value_of_bytes(v / 256, (n - 1) as nat);
        let b = le_bytes(v, n);
        assert(b.drop_first() == le_bytes(v / 256, (n - 1) as nat));
        lemma_pow256_positive((n - 1) as nat);
        vstd::arithmetic::div_mod::lemma_mod_breakdown(v as int, 256, pow256((n - 1) as nat) as int);
    }
}

/// The bytes of a little-endian byte string's value are the string itself.
pub proof fn lemma_le_bytes_of_value(s: Seq<u8>)
    ensures
        le_bytes(le_value(s), s.len()) == s,
    decreases s.len(),
{
    if s.len() > 0 {
        let rest = s.drop_first();
        lemma_le_bytes_of_value(rest);
        let v = le_value(s);
        assert(v % 256 == s[0] as nat) by (nonlinear_arith)
            requires
                v == s[0] as nat + 256 * le_value(rest),
                s[0] < 256,
        ;
        assert(v / 256 == le_value(rest)) by (nonlinear_arith)
            requires
                v == s[0] as nat + 256 * le_value(rest),
                s[0] < 256,
        ;
        assert(le_bytes(v, s.len()) == seq![s[0]] + le_bytes(le_value(rest), rest.len()));
        assert(s == seq![s[0]] + rest);
    } else {
        assert(s == Seq::<u8>::empty());
    }
}

/// Appends the bytes of an ASCII string.
pub fn push_ascii(out: &mut Vec<u8>, s: &str)
    ensures
        final(out)@ == old(out)@ + crate::hex::ascii_bytes(s@),
{
    let chars = crate::text::chars_of(s);
    let mut i: usize = 0;
    while i < chars.len()
        invariant
            i <= chars@.len(),
            chars@ == s@,
            out@ == old(out)@ + crate::hex::ascii_bytes(s@.take(i as int)),
        decreases chars@.len() - i,
    {
        out.push(chars[i] as u8);
        proof {
            assert(crate::hex::ascii_bytes(s@.take(i + 1)) == crate::hex::ascii_bytes(
                s@.take(i as int),
            ).push(chars@[i as int] as u8));
        }
        i = i + 1;
    }
    proof {
        assert(s@.take(i as int) == s@);
    }
}

/// Whether two byte strings are equal, compared byte by byte.
pub fn bytes_equal(a: &[u8], b: &[u8]) -> (r: bool)
    ensures
        r == (a@ == b@),
{
    if a.len() != b.len() {
        return false;
    }
    let mut i: usize = 0;
    while i < a.len()
        invariant
            a@.len() == b@.len(),
            i <= a@.len(),
            forall|k: int| 0 <= k < i ==> a@[k] == b@[k],
        decreases a@.len() - i,
    {
        if a[i] != b[i] {
            return false;
        }
        i = i + 1;
    }
    proof {
        assert(a@ =~= b@);
    }
    true
}

/// `<[u8; N]>::try_from(Vec<u8>)` on a vector of exactly `N` bytes.
#[verifier::external_body]
pub fn vec_into_array<const N: usize>(v: Vec<u8>) -> (r: [u8; N])
    requires
        v@.len() == N,
    ensures
        r@ == v@,
{
    v.try_into().unwrap()
}

} // verus!
