//! Byte-string ordering and big-endian integer codecs.
//!
//! Keys and values throughout the store are opaque byte strings, compared by
//! unsigned lexicographic order. Record headers and versioned keys use
//! big-endian fixed-width integers, whose byte order is what makes encoded
//! keys sort by version.
use vstd::prelude::*;

verus! {

/// Strict lexicographic order on byte sequences: `a` sorts before `b`.
pub open spec fn lex_lt(a: Seq<u8>, b: Seq<u8>) -> bool
    decreases a.len(),
{
    if b.len() == 0 {
        false
    } else if a.len() == 0 {
        true
    } else if a[0] < b[0] {
        true
    } else if a[0] > b[0] {
        false
    } else {
        lex_lt(a.subrange(1, a.len() as int), b.subrange(1, b.len() as int))
    }
}

pub proof fn lemma_lex_lt_irrefl(a: Seq<u8>)
    ensures
        !lex_lt(a, a),
    decreases a.len(),
{
    if a.len() > 0 {
        lemma_lex_lt_irrefl(a.subrange(1, a.len() as int));
    }
}

/// At least one of `a < b`, `b < a`, `a == b` holds; together with
/// `lemma_lex_lt_irrefl` and `lemma_lex_lt_asym` the order is total.
pub proof fn lemma_lex_lt_total(a: Seq<u8>, b: Seq<u8>)
    ensures
        lex_lt(a, b) || lex_lt(b, a) || a == b,
    decreases a.len(),
{
    if a.len() == 0 && b.len() == 0 {
        assert(a =~= b);
    } else if a.len() > 0 && b.len() > 0 && a[0] == b[0] {
        let at = a.subrange(1, a.len() as int);
        let bt = b.subrange(1, b.len() as int);
        lemma_lex_lt_total(at, bt);
        if !lex_lt(a, b) && !lex_lt(b, a) {
            assert(at == bt);
            assert forall|i: int| 0 <= i < a.len() implies a[i] == b[i] by {
                if i >= 1 {
                    assert(a[i] == at[i - 1]);
                    assert(b[i] == bt[i - 1]);
                }
            }
            assert(a =~= b);
        }
    }
}

pub proof fn lemma_lex_lt_trans(a: Seq<u8>, b: Seq<u8>, c: Seq<u8>)
    requires
        lex_lt(a, b),
        lex_lt(b, c),
    ensures
        lex_lt(a, c),
    decreases a.len() + b.len() + c.len(),
{
    if a.len() > 0 && b.len() > 0 && c.len() > 0 && a[0] == b[0] && b[0] == c[0] {
        lemma_lex_lt_trans(
            a.subrange(1, a.len() as int),
            b.subrange(1, b.len() as int),
            c.subrange(1, c.len() as int),
        );
    }
}

pub proof fn lemma_lex_lt_asym(a: Seq<u8>, b: Seq<u8>)
    requires
        lex_lt(a, b),
    ensures
        !lex_lt(b, a),
        a != b,
{
    if lex_lt(b, a) {
        lemma_lex_lt_trans(a, b, a);
        lemma_lex_lt_irrefl(a);
    }
    lemma_lex_lt_irrefl(a);
}

/// A shared prefix does not affect the relative order of two byte strings.
pub proof fn lemma_lex_lt_prefix(p: Seq<u8>, a: Seq<u8>, b: Seq<u8>)
    ensures
        lex_lt(p + a, p + b) == lex_lt(a, b),
    decreases p.len(),
{
    if p.len() == 0 {
        assert(p + a =~= a);
        assert(p + b =~= b);
    } else {
        let pt = p.subrange(1, p.len() as int);
        lemma_lex_lt_prefix(pt, a, b);
        assert((p + a).subrange(1, (p + a).len() as int) =~= pt + a);
        assert((p + b).subrange(1, (p + b).len() as int) =~= pt + b);
        assert((p + a)[0] == p[0] && (p + b)[0] == p[0]);
    }
}

/// Compares two byte strings; true iff `a` is lexicographically before `b`.
pub fn bytes_lt(a: &[u8], b: &[u8]) -> (r: bool)
    ensures
        r == lex_lt(a@, b@),
    decreases a@.len(),
{
    if b.len() == 0 {
        false
    } else if a.len() == 0 {
        true
    } else if a[0] < b[0] {
        true
    } else if a[0] > b[0] {
        false
    } else {
        bytes_lt(
            vstd::slice::slice_subrange(a, 1, a.len()),
            vstd::slice::slice_subrange(b, 1, b.len()),
        )
    }
}

/// Byte-for-byte equality of two byte strings.
pub fn bytes_eq(a: &[u8], b: &[u8]) -> (r: bool)
    ensures
        r == (a@ == b@),
    decreases a@.len(),
{
    if a.len() != b.len() {
        false
    } else if a.len() == 0 {
        assert(a@ =~= b@);
        true
    } else if a[0] != b[0] {
        false
    } else {
        let r = bytes_eq(
            vstd::slice::slice_subrange(a, 1, a.len()),
            vstd::slice::slice_subrange(b, 1, b.len()),
        );
        proof {
            let at = a@.subrange(1, a@.len() as int);
            let bt = b@.subrange(1, b@.len() as int);
            if r {
                assert forall|i: int| 0 <= i < a@.len() implies a@[i] == b@[i] by {
                    if i >= 1 {
                        assert(a@[i] == at[i - 1]);
                        assert(b@[i] == bt[i - 1]);
                    }
                }
                assert(a@ =~= b@);
            } else {
                if a@ == b@ {
                    assert(at =~= bt);
                }
            }
        }
        r
    }
}

/// The four bytes of `x`, most significant first.
pub open spec fn spec_be32(x: u32) -> Seq<u8> {
    seq![(x >> 24) as u8, (x >> 16) as u8, (x >> 8) as u8, x as u8]
}

/// The value read from four bytes, most significant first.
pub open spec fn be32_val(s: Seq<u8>) -> u32 {
    ((s[0] as u32) << 24) | ((s[1] as u32) << 16) | ((s[2] as u32) << 8) | (s[3] as u32)
}

pub proof fn lemma_be32_roundtrip(x: u32)
    ensures
        be32_val(spec_be32(x)) == x,
{
    assert((((x >> 24) as u8 as u32) << 24) | (((x >> 16) as u8 as u32) << 16) | (((x
        >> 8) as u8 as u32) << 8) | (x as u8 as u32) == x) by (bit_vector);
}

/// The eight bytes of `x`, most significant first.
pub open spec fn spec_be64(x: u64) -> Seq<u8> {
    seq![
        (x >> 56) as u8,
        (x >> 48) as u8,
        (x >> 40) as u8,
        (x >> 32) as u8,
        (x >> 24) as u8,
        (x >> 16) as u8,
        (x >> 8) as u8,
        x as u8,
    ]
}

/// The value read from eight bytes, most significant first.
pub open spec fn be64_val(s: Seq<u8>) -> u64 {
    ((s[0] as u64) << 56) | ((s[1] as u64) << 48) | ((s[2] as u64) << 40) | ((s[3] as u64) << 32)
        | ((s[4] as u64) << 24) | ((s[5] as u64) << 16) | ((s[6] as u64) << 8) | (s[7] as u64)
}

pub proof fn lemma_be64_roundtrip(x: u64)
    ensures
        be64_val(spec_be64(x)) == x,
{
    assert((((x >> 56) as u8 as u64) << 56) | (((x >> 48) as u8 as u64) << 48) | (((x
        >> 40) as u8 as u64) << 40) | (((x >> 32) as u8 as u64) << 32) | (((x
        >> 24) as u8 as u64) << 24) | (((x >> 16) as u8 as u64) << 16) | (((x >> 8) as u8 as u64)
        << 8) | (x as u8 as u64) == x) by (bit_vector);
}

/// If two equally long byte strings agree before position `d` and differ
/// there, the one with the smaller byte at `d` sorts first.
pub proof fn lemma_lex_lt_at(s: Seq<u8>, t: Seq<u8>, d: int)
    requires
        s.len() == t.len(),
        0 <= d < s.len(),
        forall|j: int| 0 <= j < d ==> s[j] == t[j],
        s[d] < t[d],
    ensures
        lex_lt(s, t),
    decreases d,
{
    if d > 0 {
        let st = s.subrange(1, s.len() as int);
        let tt = t.subrange(1, t.len() as int);
        assert(forall|j: int| 0 <= j < d - 1 ==> #[trigger] st[j] == s[j + 1] && tt[j] == t[j + 1]);
        lemma_lex_lt_at(st, tt, d - 1);
    }
}

/// Big-endian byte order agrees with numeric order: a smaller 64-bit value
/// encodes to a lexicographically smaller byte string.
pub proof fn lemma_be64_order(x: u64, y: u64)
    requires
        x < y,
    ensures
        lex_lt(spec_be64(x), spec_be64(y)),
{
    let s = spec_be64(x);
    let t = spec_be64(y);
    let b0 = (x >> 56) as u8 == (y >> 56) as u8;
    let b1 = (x >> 48) as u8 == (y >> 48) as u8;
    let b2 = (x >> 40) as u8 == (y >> 40) as u8;
    let b3 = (x >> 32) as u8 == (y >> 32) as u8;
    let b4 = (x >> 24) as u8 == (y >> 24) as u8;
    let b5 = (x >> 16) as u8 == (y >> 16) as u8;
    let b6 = (x >> 8) as u8 == (y >> 8) as u8;
    assert({
        ||| (((x >> 56) as u8) < ((y >> 56) as u8))
        ||| (((x >> 56) as u8) == ((y >> 56) as u8) && ((x >> 48) as u8) < ((y >> 48) as u8))
        ||| (((x >> 56) as u8) == ((y >> 56) as u8) && ((x >> 48) as u8) == ((y >> 48) as u8) && ((x >> 40) as u8) < ((y >> 40) as u8))
        ||| (((x >> 56) as u8) == ((y >> 56) as u8) && ((x >> 48) as u8) == ((y >> 48) as u8) && ((x >> 40) as u8) == ((y >> 40) as u8) && ((x >> 32) as u8) < ((y >> 32) as u8))
        ||| (((x >> 56) as u8) == ((y >> 56) as u8) && ((x >> 48) as u8) == ((y >> 48) as u8) && ((x >> 40) as u8) == ((y >> 40) as u8) && ((x >> 32) as u8) == ((y >> 32) as u8) && ((x >> 24) as u8) < ((y >> 24) as u8))
        ||| (((x >> 56) as u8) == ((y >> 56) as u8) && ((x >> 48) as u8) == ((y >> 48) as u8) && ((x >> 40) as u8) == ((y >> 40) as u8) && ((x >> 32) as u8) == ((y >> 32) as u8) && ((x >> 24) as u8) == ((y >> 24) as u8) && ((x >> 16) as u8) < ((y >> 16) as u8))
        ||| (((x >> 56) as u8) == ((y >> 56) as u8) && ((x >> 48) as u8) == ((y >> 48) as u8) && ((x >> 40) as u8) == ((y >> 40) as u8) && ((x >> 32) as u8) == ((y >> 32) as u8) && ((x >> 24) as u8) == ((y >> 24) as u8) && ((x >> 16) as u8) == ((y >> 16) as u8) && ((x >> 8) as u8) < ((y >> 8) as u8))
        ||| (((x >> 56) as u8) == ((y >> 56) as u8) && ((x >> 48) as u8) == ((y >> 48) as u8) && ((x >> 40) as u8) == ((y >> 40) as u8) && ((x >> 32) as u8) == ((y >> 32) as u8) && ((x >> 24) as u8) == ((y >> 24) as u8) && ((x >> 16) as u8) == ((y >> 16) as u8) && ((x >> 8) as u8) == ((y >> 8) as u8) && (x as u8) < (y as u8))
    }) by (bit_vector)
        requires
            x < y,
    ;
    if !b0 {
        lemma_lex_lt_at(s, t, 0);
    } else if !b1 {
        lemma_lex_lt_at(s, t, 1);
    } else if !b2 {
        lemma_lex_lt_at(s, t, 2);
    } else if !b3 {
        lemma_lex_lt_at(s, t, 3);
    } else if !b4 {
        lemma_lex_lt_at(s, t, 4);
    } else if !b5 {
        lemma_lex_lt_at(s, t, 5);
    } else if !b6 {
        lemma_lex_lt_at(s, t, 6);
    } else {
        lemma_lex_lt_at(s, t, 7);
    }
}

/// Appends the four big-endian bytes of `x`.
pub fn push_be32(out: &mut Vec<u8>, x: u32)
    ensures
        final(out)@ == old(out)@ + spec_be32(x),
{
    out.push((x >> 24) as u8);
    out.push((x >> 16) as u8);
    out.push((x >> 8) as u8);
    out.push(x as u8);
    assert(out@ =~= old(out)@ + spec_be32(x));
}

/// Appends the eight big-endian bytes of `x`.
pub fn push_be64(out: &mut Vec<u8>, x: u64)
    ensures
        final(out)@ == old(out)@ + spec_be64(x),
{
    out.push((x >> 56) as u8);
    out.push((x >> 48) as u8);
    out.push((x >> 40) as u8);
    out.push((x >> 32) as u8);
    out.push((x >> 24) as u8);
    out.push((x >> 16) as u8);
    out.push((x >> 8) as u8);
    out.push(x as u8);
    assert(out@ =~= old(out)@ + spec_be64(x));
}

/// Reads a big-endian `u32` from `buf` at `pos`.
pub fn be32_at(buf: &Vec<u8>, pos: usize) -> (x: u32)
    requires
        pos + 4 <= buf@.len(),
    ensures
        x == be32_val(buf@.subrange(pos as int, pos + 4)),
{
    let n: usize = buf.len();
    let x = ((buf[pos] as u32) << 24) | ((buf[pos + 1] as u32) << 16) | ((buf[pos + 2] as u32)
        << 8) | (buf[pos + 3] as u32);
    proof {
        let s = buf@.subrange(pos as int, pos + 4);
        assert(s[0] == buf@[pos as int] && s[1] == buf@[pos + 1] && s[2] == buf@[pos + 2] && s[3]
            == buf@[pos + 3]);
    }
    x
}

/// Reads a big-endian `u64` from `buf` at `pos`.
pub fn be64_at(buf: &Vec<u8>, pos: usize) -> (x: u64)
    requires
        pos + 8 <= buf@.len(),
    ensures
        x == be64_val(buf@.subrange(pos as int, pos + 8)),
{
    let n: usize = buf.len();
    let x = ((buf[pos] as u64) << 56) | ((buf[pos + 1] as u64) << 48) | ((buf[pos + 2] as u64)
        << 40) | ((buf[pos + 3] as u64) << 32) | ((buf[pos + 4] as u64) << 24) | ((buf[pos
        + 5] as u64) << 16) | ((buf[pos + 6] as u64) << 8) | (buf[pos + 7] as u64);
    proof {
        let s = buf@.subrange(pos as int, pos + 8);
        assert(s[0] == buf@[pos as int] && s[1] == buf@[pos + 1] && s[2] == buf@[pos + 2] && s[3]
            == buf@[pos + 3] && s[4] == buf@[pos + 4] && s[5] == buf@[pos + 5] && s[6] == buf@[pos
            + 6] && s[7] == buf@[pos + 7]);
    }
    x
}

/// A fresh vector with the same bytes as `v`.
pub fn clone_bytes(v: &Vec<u8>) -> (r: Vec<u8>)
    ensures
        r@ == v@,
{
    let n: usize = v.len();
    let r = copy_range(v, 0, n);
    assert(v@.subrange(0, n as int) =~= v@);
    r
}

/// Appends all of `s` to `out`.
pub fn push_bytes(out: &mut Vec<u8>, s: &[u8])
    ensures
        final(out)@ == old(out)@ + s@,
{
    let n: usize = s.len();
    let mut i: usize = 0;
    assert(out@ =~= old(out)@ + s@.subrange(0, 0));
    while i < n
        invariant
            n == s@.len(),
            i <= n,
            out@ == old(out)@ + s@.subrange(0, i as int),
        decreases n - i,
    {
        out.push(s[i]);
        assert(out@ =~= old(out)@ + s@.subrange(0, i + 1));
        i = i + 1;
    }
    assert(out@ =~= old(out)@ + s@);
}

/// Copies `len` bytes of `buf` starting at `pos` into a fresh vector.
pub fn copy_range(buf: &Vec<u8>, pos: usize, len: usize) -> (r: Vec<u8>)
    requires
        pos + len <= buf@.len(),
    ensures
        r@ == buf@.subrange(pos as int, pos + len),
{
    let n: usize = buf.len();
    let mut r: Vec<u8> = Vec::new();
    let mut i: usize = 0;
    while i < len
        invariant
            pos + len <= n,
            n == buf@.len(),
            i <= len,
            r@ == buf@.subrange(pos as int, pos + i),
        decreases len - i,
    {
        r.push(buf[pos + i]);
        assert(r@ =~= buf@.subrange(pos as int, pos + i + 1));
        i = i + 1;
    }
    r
}

} // verus!
