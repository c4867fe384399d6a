//! Byte strings: lexicographic order, copying, and fixed-width integers.

use vstd::prelude::*;
use vstd::slice::slice_to_vec;

verus! {

/// The outcome of comparing two byte strings.
#[derive(Debug, Clone, Copy, PartialEq, Eq, Structural)]
pub enum KeyOrder {
    Less,
    Equal,
    Greater,
}

/// `a` sorts strictly before `b` in lexicographic order: a proper prefix of
/// `b`, or smaller at the first byte where the two differ.
pub open spec fn lex_lt(a: Seq<u8>, b: Seq<u8>) -> bool
    decreases a.len(),
{
    if b.len() == 0 {
        false
    } else if a.len() == 0 {
        true
    } else if a[0] != b[0] {
        a[0] < b[0]
    } else {
        lex_lt(a.skip(1), b.skip(1))
    }
}

/// `a` sorts before `b` or is `b`.
pub open spec fn lex_le(a: Seq<u8>, b: Seq<u8>) -> bool {
    a == b || lex_lt(a, b)
}

/// No byte string sorts before itself.
pub proof fn lemma_lex_irreflexive(a: Seq<u8>)
    ensures
        !lex_lt(a, a),
    decreases a.len(),
{
    if a.len() > 0 {
        lemma_lex_irreflexive(a.skip(1));
    }
}

/// The order is transitive.
pub proof fn lemma_lex_transitive(a: Seq<u8>, b: Seq<u8>, c: Seq<u8>)
    requires
        lex_lt(a, b),
        lex_lt(b, c),
    ensures
        lex_lt(a, c),
    decreases a.len(),
{
    if a.len() > 0 && a[0] == b[0] && b[0] == c[0] {
        lemma_lex_transitive(a.skip(1), b.skip(1), c.skip(1));
    }
}

/// Of two byte strings one sorts before the other, unless they are equal.
pub proof fn lemma_lex_total(a: Seq<u8>, b: Seq<u8>)
    ensures
        lex_lt(a, b) || a == b || lex_lt(b, a),
    decreases a.len(),
{
    if a.len() > 0 && b.len() > 0 && a[0] == b[0] {
        lemma_lex_total(a.skip(1), b.skip(1));
        if a.skip(1) == b.skip(1) {
            assert(a =~= seq![a[0]] + a.skip(1));
            assert(b =~= seq![b[0]] + b.skip(1));
        }
    } else if a.len() == 0 && b.len() == 0 {
        assert(a =~= b);
    }
}

/// No two byte strings sort before each other.
pub proof fn lemma_lex_asymmetric(a: Seq<u8>, b: Seq<u8>)
    requires
        lex_lt(a, b),
    ensures
        !lex_lt(b, a),
        a != b,
{
    lemma_lex_irreflexive(a);
    if lex_lt(b, a) {
        lemma_lex_transitive(a, b, a);
    }
}

/// The first place where two byte strings differ, or where one of them ends,
/// decides: the one that ends there, or has the smaller byte there, sorts
/// before the other.
pub proof fn law_first_difference_decides(a: Seq<u8>, b: Seq<u8>, n: int)
    requires
        0 <= n <= a.len(),
        n <= b.len(),
        forall|i: int| 0 <= i < n ==> #[trigger] a[i] == b[i],
        n == a.len() || n == b.len() || a[n] != b[n],
    ensures
        lex_lt(a, b) <==> n < b.len() && (n == a.len() || a[n] < b[n]),
        lex_le(a, b) <==> n == a.len() || (n < b.len() && a[n] < b[n]),
    decreases n,
{
    if n > 0 {
        let x = a.skip(1);
        let y = b.skip(1);
        assert(a[0] == b[0]);
        assert forall|i: int| 0 <= i < n - 1 implies #[trigger] x[i] == y[i] by {
            assert(a[i + 1] == b[i + 1]);
        }
        law_first_difference_decides(x, y, n - 1);
    }
    if n == a.len() && n == b.len() {
        assert(a =~= b);
    }
    lemma_lex_irreflexive(a);
}

/// Compare two byte strings lexicographically.
pub fn compare_bytes(a: &[u8], b: &[u8]) -> (r: KeyOrder)
    ensures
        match r {
            KeyOrder::Less => lex_lt(a@, b@),
            KeyOrder::Equal => a@ == b@,
            KeyOrder::Greater => lex_lt(b@, a@),
        },
{
    let mut i: usize = 0;
    assert(a@.skip(0) =~= a@ && b@.skip(0) =~= b@);
    while i < a.len() && i < b.len()
        invariant
            i <= a@.len(),
            i <= b@.len(),
            a@.take(i as int) == b@.take(i as int),
            lex_lt(a@, b@) == lex_lt(a@.skip(i as int), b@.skip(i as int)),
            lex_lt(b@, a@) == lex_lt(b@.skip(i as int), a@.skip(i as int)),
        decreases a@.len() - i,
    {
        if a[i] != b[i] {
            if a[i] < b[i] {
                return KeyOrder::Less;
            }
            return KeyOrder::Greater;
        }
        proof {
            assert(a@.skip(i as int).skip(1) =~= a@.skip(i + 1));
            assert(b@.skip(i as int).skip(1) =~= b@.skip(i + 1));
            assert(a@.take(i + 1) =~= a@.take(i as int).push(a@[i as int]));
            assert(b@.take(i + 1) =~= b@.take(i as int).push(b@[i as int]));
        }
        i = i + 1;
    }
    if i < b.len() {
        KeyOrder::Less
    } else if i < a.len() {
        KeyOrder::Greater
    } else {
        proof {
            assert(a@.take(i as int) =~= a@);
            assert(b@.take(i as int) =~= b@);
        }
        KeyOrder::Equal
    }
}

/// Whether two byte strings are equal.
pub fn bytes_eq(a: &[u8], b: &[u8]) -> (r: bool)
    ensures
        r == (a@ == b@),
{
    match compare_bytes(a, b) {
        KeyOrder::Equal => true,
        KeyOrder::Less => {
            proof {
                lemma_lex_asymmetric(a@, b@);
            }
            false
        },
        KeyOrder::Greater => {
            proof {
                lemma_lex_asymmetric(b@, a@);
            }
            false
        },
    }
}

/// Whether `a` sorts strictly before `b`.
pub fn bytes_lt(a: &[u8], b: &[u8]) -> (r: bool)
    ensures
        r == lex_lt(a@, b@),
{
    match compare_bytes(a, b) {
        KeyOrder::Less => true,
        KeyOrder::Equal => {
            proof {
                lemma_lex_irreflexive(a@);
            }
            false
        },
        KeyOrder::Greater => {
            proof {
                lemma_lex_asymmetric(b@, a@);
            }
            false
        },
    }
}

/// Whether `a` sorts before `b` or equals it.
pub fn bytes_le(a: &[u8], b: &[u8]) -> (r: bool)
    ensures
        r == lex_le(a@, b@),
{
    proof {
        lemma_lex_total(a@, b@);
        if lex_lt(b@, a@) {
            lemma_lex_asymmetric(b@, a@);
        }
    }
    !bytes_lt(b, a)
}

/// A copy of a byte string.
pub fn copy_bytes(a: &[u8]) -> (r: Vec<u8>)
    ensures
        r@ == a@,
{
    slice_to_vec(a)
}

/// Append a byte string to a buffer.
pub fn push_bytes(out: &mut Vec<u8>, a: &[u8])
    ensures
        final(out)@ == old(out)@ + a@,
{
    out.extend_from_slice(a);
    assert(out@ =~= old(out)@ + a@);
}

/// The four bytes of `x`, least significant first.
pub open spec fn le_u32(x: u32) -> Seq<u8> {
    seq![
        (x % 256) as u8,
        ((x / 256) % 256) as u8,
        ((x / 65536) % 256) as u8,
        ((x / 16777216) % 256) as u8,
    ]
}

/// The number whose four bytes, least significant first, start `s`.
pub open spec fn u32_of_le(s: Seq<u8>) -> u32 {
    (s[0] + s[1] * 256 + s[2] * 65536 + s[3] * 16777216) as u32
}

/// Four bytes of which one differs give another number.
pub proof fn lemma_le_u32_differs(x: Seq<u8>, y: Seq<u8>, i: int)
    requires
        0 <= i < 4 <= x.len(),
        4 <= y.len(),
        x[i] != y[i],
        forall|k: int| 0 <= k < 4 && k != i ==> x[k] == y[k],
    ensures
        u32_of_le(x) != u32_of_le(y),
{
    assert(u32_of_le(x) == x[0] + x[1] * 256 + x[2] * 65536 + x[3] * 16777216);
    assert(u32_of_le(y) == y[0] + y[1] * 256 + y[2] * 65536 + y[3] * 16777216);
    assert(i == 0 || i == 1 || i == 2 || i == 3);
}

/// The eight bytes of `x`, least significant first.
pub open spec fn le_u64(x: u64) -> Seq<u8> {
    le_u32((x % 4294967296) as u32) + le_u32((x / 4294967296) as u32)
}

/// The number whose eight bytes, least significant first, start `s`.
pub open spec fn u64_of_le(s: Seq<u8>) -> u64 {
    (u32_of_le(s) + u32_of_le(s.skip(4)) * 4294967296) as u64
}

/// Reading back four written bytes gives the number.
pub proof fn lemma_le_u32_round_trip(x: u32, rest: Seq<u8>)
    ensures
        u32_of_le(le_u32(x) + rest) == x,
        le_u32(x).len() == 4,
{
    let s = le_u32(x) + rest;
    assert(s[0] == (x % 256) as u8);
    assert(s[1] == ((x / 256) % 256) as u8);
    assert(s[2] == ((x / 65536) % 256) as u8);
    assert(s[3] == ((x / 16777216) % 256) as u8);
    assert(x == x % 256 + ((x / 256) % 256) * 256 + ((x / 65536) % 256) * 65536 + ((x / 16777216)
        % 256) * 16777216) by (bit_vector);
}

/// Reading back eight written bytes gives the number.
pub proof fn lemma_le_u64_round_trip(x: u64)
    ensures
        u64_of_le(le_u64(x)) == x,
        le_u64(x).len() == 8,
{
    let lo = (x % 4294967296) as u32;
    let hi = (x / 4294967296) as u32;
    lemma_le_u32_round_trip(lo, le_u32(hi));
    lemma_le_u32_round_trip(hi, Seq::<u8>::empty());
    assert(le_u64(x).skip(4) =~= le_u32(hi) + Seq::<u8>::empty());
}

/// Append the four bytes of `x`, least significant first.
pub fn push_le_u32(out: &mut Vec<u8>, x: u32)
    ensures
        final(out)@ == old(out)@ + le_u32(x),
{
    out.push((x % 256) as u8);
    out.push(((x / 256) % 256) as u8);
    out.push(((x / 65536) % 256) as u8);
    out.push(((x / 16777216) % 256) as u8);
    assert(out@ =~= old(out)@ + le_u32(x));
}

/// The number in the four bytes at `pos`, least significant first.
pub fn read_le_u32(s: &[u8], pos: usize) -> (r: u32)
    requires
        pos + 4 <= s@.len(),
    ensures
        r == u32_of_le(s@.skip(pos as int)),
{
    let b0: u32 = s[pos] as u32;
    let b1: u32 = s[pos + 1] as u32;
    let b2: u32 = s[pos + 2] as u32;
    let b3: u32 = s[pos + 3] as u32;
    b0 + b1 * 256 + b2 * 65536 + b3 * 16777216
}

/// The eight bytes of `x`, least significant first.
pub fn le_bytes_u64(x: u64) -> (r: Vec<u8>)
    ensures
        r@ == le_u64(x),
{
    let mut out: Vec<u8> = Vec::new();
    push_le_u32(&mut out, (x % 4294967296) as u32);
    push_le_u32(&mut out, (x / 4294967296) as u32);
    assert(out@ =~= le_u64(x));
    out
}

/// The number in the first eight bytes, least significant first.
pub fn read_le_u64(s: &[u8]) -> (r: u64)
    requires
        s@.len() >= 8,
    ensures
        r == u64_of_le(s@),
{
    let lo: u64 = read_le_u32(s, 0) as u64;
    let hi: u64 = read_le_u32(s, 4) as u64;
    assert(s@.skip(0) =~= s@);
    lo + hi * 4294967296
}

/// Numbers are written with their least significant byte first.
pub proof fn law_least_significant_byte_first(x: u32, y: u64)
    ensures
        le_u32(x).len() == 4,
        x == le_u32(x)[0] + le_u32(x)[1] * 0x100 + le_u32(x)[2] * 0x1_0000 + le_u32(x)[3]
            * 0x100_0000,
        le_u64(y).len() == 8,
        y == le_u64(y)[0] + le_u64(y)[1] * 0x100 + le_u64(y)[2] * 0x1_0000 + le_u64(y)[3]
            * 0x100_0000 + le_u64(y)[4] * 0x1_0000_0000 + le_u64(y)[5] * 0x100_0000_0000 + le_u64(
            y,
        )[6] * 0x1_0000_0000_0000 + le_u64(y)[7] * 0x100_0000_0000_0000,
{
    lemma_le_u32_round_trip(x, Seq::empty());
    assert(le_u32(x) + Seq::<u8>::empty() =~= le_u32(x));
    lemma_le_u64_round_trip(y);
    let lo = (y % 4294967296) as u32;
    let hi = (y / 4294967296) as u32;
    lemma_le_u32_round_trip(lo, le_u32(hi));
    lemma_le_u32_round_trip(hi, Seq::empty());
    assert(le_u64(y).skip(4) =~= le_u32(hi) + Seq::<u8>::empty());
    let s = le_u64(y);
    let t = s.skip(4);
    assert(t[0] == s[4] && t[1] == s[5] && t[2] == s[6] && t[3] == s[7]);
    assert(y == u32_of_le(s) + u32_of_le(t) * 4294967296);
}

} // verus!
