//! Canonical byte encoding primitives.
//!
//! Every value that is signed, stored in the trie, or persisted in the
//! key-value store is serialized with this self-describing canonical format:
//! fixed-width little-endian integers, length-prefixed byte strings, and
//! one-byte variant tags.  Envelope signing additionally uses the decimal
//! string rendering of a timestamp.

use vstd::prelude::*;

verus! {

// ---------------------------------------------------------------------------
// Little-endian u64 / i64
// ---------------------------------------------------------------------------

/// The eight little-endian bytes of `n`.
pub open spec fn u64_le(n: u64) -> Seq<u8> {
    seq![
        (n & 0xff) as u8,
        ((n >> 8) & 0xff) as u8,
        ((n >> 16) & 0xff) as u8,
        ((n >> 24) & 0xff) as u8,
        ((n >> 32) & 0xff) as u8,
        ((n >> 40) & 0xff) as u8,
        ((n >> 48) & 0xff) as u8,
        ((n >> 56) & 0xff) as u8,
    ]
}

/// The u64 denoted by eight little-endian bytes.
pub open spec fn le_val(s: Seq<u8>) -> u64
    recommends
        s.len() == 8,
{
    (s[0] as u64) | ((s[1] as u64) << 8) | ((s[2] as u64) << 16) | ((s[3] as u64) << 24)
        | ((s[4] as u64) << 32) | ((s[5] as u64) << 40) | ((s[6] as u64) << 48) | ((s[7] as u64)
        << 56)
}

/// Reading back the little-endian bytes of `n` yields `n`.
pub proof fn lemma_u64_le_roundtrip(n: u64)
    ensures
        le_val(u64_le(n)) == n,
{
    assert(((n & 0xff) as u8 as u64) | ((((n >> 8) & 0xff) as u8 as u64) << 8) | ((((n >> 16)
        & 0xff) as u8 as u64) << 16) | ((((n >> 24) & 0xff) as u8 as u64) << 24) | ((((n >> 32)
        & 0xff) as u8 as u64) << 32) | ((((n >> 40) & 0xff) as u8 as u64) << 40) | ((((n >> 48)
        & 0xff) as u8 as u64) << 48) | ((((n >> 56) & 0xff) as u8 as u64) << 56) == n)
        by (bit_vector);
}

/// Appends the eight little-endian bytes of `n` to `out`.
pub fn enc_u64(out: &mut Vec<u8>, n: u64)
    ensures
        final(out)@ == old(out)@ + u64_le(n),
{
    out.push((n & 0xff) as u8);
    out.push(((n >> 8) & 0xff) as u8);
    out.push(((n >> 16) & 0xff) as u8);
    out.push(((n >> 24) & 0xff) as u8);
    out.push(((n >> 32) & 0xff) as u8);
    out.push(((n >> 40) & 0xff) as u8);
    out.push(((n >> 48) & 0xff) as u8);
    out.push(((n >> 56) & 0xff) as u8);
    proof {
        assert(out@ =~= old(out)@ + u64_le(n));
    }
}

/// Parse of a u64 at `pos`: the value and the position after it.
pub open spec fn dec_u64_at(s: Seq<u8>, pos: int) -> Option<(u64, int)> {
    if 0 <= pos && pos + 8 <= s.len() {
        Some((le_val(s.subrange(pos, pos + 8)), pos + 8))
    } else {
        None
    }
}

/// Reads a u64 from the eight little-endian bytes at `pos`.
pub fn dec_u64(buf: &[u8], pos: usize) -> (r: Option<(u64, usize)>)
    ensures
        match r {
            Some((n, p)) => dec_u64_at(buf@, pos as int) == Some((n, p as int)),
            None => dec_u64_at(buf@, pos as int) is None,
        },
{
    if buf.len() < 8 || pos > buf.len() - 8 {
        return None;
    }
    let n: u64 = (buf[pos] as u64) | ((buf[pos + 1] as u64) << 8) | ((buf[pos + 2] as u64) << 16)
        | ((buf[pos + 3] as u64) << 24) | ((buf[pos + 4] as u64) << 32) | ((buf[pos + 5] as u64)
        << 40) | ((buf[pos + 6] as u64) << 48) | ((buf[pos + 7] as u64) << 56);
    proof {
        let s = buf@.subrange(pos as int, pos + 8);
        assert(s[0] == buf@[pos as int]);
        assert(s[1] == buf@[pos + 1]);
        assert(s[2] == buf@[pos + 2]);
        assert(s[3] == buf@[pos + 3]);
        assert(s[4] == buf@[pos + 4]);
        assert(s[5] == buf@[pos + 5]);
        assert(s[6] == buf@[pos + 6]);
        assert(s[7] == buf@[pos + 7]);
    }
    Some((n, pos + 8))
}

/// If the bytes at `pos` are `u64_le(n)`, the parse at `pos` yields `n`.
pub proof fn lemma_dec_u64_of_enc(s: Seq<u8>, pos: int, n: u64)
    requires
        0 <= pos,
        pos + 8 <= s.len(),
        s.subrange(pos, pos + 8) == u64_le(n),
    ensures
        dec_u64_at(s, pos) == Some((n, pos + 8)),
{
    lemma_u64_le_roundtrip(n);
}

/// The eight little-endian bytes of `n`'s two's-complement representation.
pub open spec fn i64_le(n: i64) -> Seq<u8> {
    u64_le(n as u64)
}

/// Appends the eight little-endian bytes of `n` to `out`.
pub fn enc_i64(out: &mut Vec<u8>, n: i64)
    ensures
        final(out)@ == old(out)@ + i64_le(n),
{
    enc_u64(out, n as u64);
}

/// Parse of an i64 at `pos`.
pub open spec fn dec_i64_at(s: Seq<u8>, pos: int) -> Option<(i64, int)> {
    match dec_u64_at(s, pos) {
        Some((n, p)) => Some((n as i64, p)),
        None => None,
    }
}

/// Reads an i64 from the eight little-endian bytes at `pos`.
pub fn dec_i64(buf: &[u8], pos: usize) -> (r: Option<(i64, usize)>)
    ensures
        match r {
            Some((n, p)) => dec_i64_at(buf@, pos as int) == Some((n, p as int)),
            None => dec_i64_at(buf@, pos as int) is None,
        },
{
    match dec_u64(buf, pos) {
        Some((n, p)) => Some((n as i64, p)),
        None => None,
    }
}

/// If the bytes at `pos` are `i64_le(n)`, the parse at `pos` yields `n`.
pub proof fn lemma_dec_i64_of_enc(s: Seq<u8>, pos: int, n: i64)
    requires
        0 <= pos,
        pos + 8 <= s.len(),
        s.subrange(pos, pos + 8) == i64_le(n),
    ensures
        dec_i64_at(s, pos) == Some((n, pos + 8)),
{
    lemma_dec_u64_of_enc(s, pos, n as u64);
    assert(((n as u64) as i64) == n) by (bit_vector);
}

// ---------------------------------------------------------------------------
// Length-prefixed byte strings
// ---------------------------------------------------------------------------

/// A byte string encoded as its length followed by its raw bytes.
pub open spec fn enc_bytes_spec(b: Seq<u8>) -> Seq<u8> {
    u64_le(b.len() as u64) + b
}

/// Appends the length-prefixed encoding of `b` to `out`.
pub fn enc_bytes(out: &mut Vec<u8>, b: &[u8])
    ensures
        final(out)@ == old(out)@ + enc_bytes_spec(b@),
{
    enc_u64(out, b.len() as u64);
    let mut i: usize = 0;
    while i < b.len()
        invariant
            i <= b@.len(),
            out@ == old(out)@ + u64_le(b@.len() as u64) + b@.take(i as int),
        decreases b@.len() - i,
    {
        out.push(b[i]);
        proof {
            assert(b@.take(i + 1) =~= b@.take(i as int).push(b@[i as int]));
        }
        i = i + 1;
    }
    proof {
        assert(b@.take(b@.len() as int) =~= b@);
        assert(out@ =~= old(out)@ + enc_bytes_spec(b@));
    }
}

/// Parse of a length-prefixed byte string at `pos`.
pub open spec fn dec_bytes_at(s: Seq<u8>, pos: int) -> Option<(Seq<u8>, int)> {
    match dec_u64_at(s, pos) {
        Some((n, p)) => if p + n <= s.len() {
            Some((s.subrange(p, p + n), p + n))
        } else {
            None
        },
        None => None,
    }
}

/// Copies `buf[start..end]` into a fresh vector.
pub fn bytes_range(buf: &[u8], start: usize, end: usize) -> (r: Vec<u8>)
    requires
        start <= end <= buf@.len(),
    ensures
        r@ == buf@.subrange(start as int, end as int),
{
    let mut r: Vec<u8> = Vec::new();
    let mut i: usize = start;
    while i < end
        invariant
            start <= i <= end <= buf@.len(),
            r@ == buf@.subrange(start as int, i as int),
        decreases end - i,
    {
        r.push(buf[i]);
        proof {
            assert(buf@.subrange(start as int, i + 1) =~= buf@.subrange(start as int, i as int)
                .push(buf@[i as int]));
        }
        i = i + 1;
    }
    r
}

/// Reads a length-prefixed byte string at `pos`.
pub fn dec_bytes(buf: &[u8], pos: usize) -> (r: Option<(Vec<u8>, usize)>)
    ensures
        match r {
            Some((v, p)) => dec_bytes_at(buf@, pos as int) == Some((v@, p as int)),
            None => dec_bytes_at(buf@, pos as int) is None,
        },
{
    match dec_u64(buf, pos) {
        Some((n, p)) => {
            if n <= (buf.len() - p) as u64 {
                let len: usize = n as usize;
                let v = bytes_range(buf, p, p + len);
                Some((v, p + len))
            } else {
                None
            }
        },
        None => None,
    }
}

/// If the bytes at `pos` are `enc_bytes_spec(b)`, the parse at `pos` yields `b`.
pub proof fn lemma_dec_bytes_of_enc(s: Seq<u8>, pos: int, b: Seq<u8>)
    requires
        0 <= pos,
        b.len() <= u64::MAX,
        pos + enc_bytes_spec(b).len() <= s.len(),
        s.subrange(pos, pos + enc_bytes_spec(b).len() as int) == enc_bytes_spec(b),
    ensures
        dec_bytes_at(s, pos) == Some((b, pos + 8 + b.len())),
{
    let e = enc_bytes_spec(b);
    assert(e.len() == 8 + b.len());
    assert(s.subrange(pos, pos + 8) =~= e.subrange(0, 8));
    assert(e.subrange(0, 8) =~= u64_le(b.len() as u64));
    lemma_dec_u64_of_enc(s, pos, b.len() as u64);
    assert(s.subrange(pos + 8, pos + 8 + b.len() as int) =~= e.subrange(8, 8 + b.len() as int));
    assert(e.subrange(8, 8 + b.len() as int) =~= b);
}

// ---------------------------------------------------------------------------
// Decimal string rendering of integers (used for envelope signing bytes)
// ---------------------------------------------------------------------------

/// The ASCII decimal digits of `n`, most significant first.
pub open spec fn dec_digits(n: nat) -> Seq<u8>
    decreases n,
{
    if n < 10 {
        seq![(48 + n) as u8]
    } else {
        dec_digits(n / 10).push((48 + n % 10) as u8)
    }
}

/// The ASCII decimal rendering of `n`, with a leading minus sign if negative.
pub open spec fn i64_dec_str(n: int) -> Seq<u8> {
    if n < 0 {
        seq![45u8] + dec_digits((-n) as nat)
    } else {
        dec_digits(n as nat)
    }
}

/// Appends the ASCII decimal digits of `n`, most significant first.
fn enc_u64_digits(out: &mut Vec<u8>, n: u64)
    ensures
        final(out)@ == old(out)@ + dec_digits(n as nat),
    decreases n,
{
    if n < 10 {
        out.push(48 + (n as u8));
        proof {
            assert(out@ =~= old(out)@ + dec_digits(n as nat));
        }
    } else {
        enc_u64_digits(out, n / 10);
        out.push(48 + ((n % 10) as u8));
        proof {
            assert(out@ =~= old(out)@ + dec_digits(n as nat));
        }
    }
}

/// Appends the ASCII decimal rendering of `n` to `out`.
pub fn enc_i64_dec_str(out: &mut Vec<u8>, n: i64)
    ensures
        final(out)@ == old(out)@ + i64_dec_str(n as int),
{
    if n >= 0 {
        enc_u64_digits(out, n as u64);
    } else {
        out.push(45u8);
        let mag: u64 = ((-(n + 1)) as u64) + 1;
        assert(mag == -(n as int));
        enc_u64_digits(out, mag);
        proof {
            assert(out@ =~= old(out)@ + i64_dec_str(n as int));
        }
    }
}

/// Copies a byte vector.
pub fn copy_bytes(v: &Vec<u8>) -> (r: Vec<u8>)
    ensures
        r@ == v@,
{
    let r = bytes_range(v.as_slice(), 0, v.len());
    proof {
        assert(v@.subrange(0, v@.len() as int) =~= v@);
    }
    r
}

/// Byte-for-byte equality of two byte strings.
pub fn bytes_eq(a: &[u8], b: &[u8]) -> (r: bool)
    ensures
        r == (a@ == b@),
{
    if a.len() != b.len() {
        proof {
            assert(a@.len() != b@.len());
        }
        return false;
    }
    let mut i: usize = 0;
    while i < a.len()
        invariant
            i <= a@.len(),
            a@.len() == b@.len(),
            forall|j: int| 0 <= j < i ==> a@[j] == b@[j],
        decreases a@.len() - i,
    {
        if a[i] != b[i] {
            return false;
        }
        i = i + 1;
    }
    proof {
        assert(a@ =~= b@);
    }
    true
}

// ---------------------------------------------------------------------------
// Item sequences
// ---------------------------------------------------------------------------

/// Concatenation of the encodings of the items of `l`, head first.
pub open spec fn items_enc<T>(l: Seq<T>, g: spec_fn(T) -> Seq<u8>) -> Seq<u8>
    decreases l.len(),
{
    if l.len() == 0 {
        Seq::empty()
    } else {
        g(l[0]) + items_enc(l.drop_first(), g)
    }
}

/// Parse of exactly `n` consecutive items at `pos`, with element parser `f`.
pub open spec fn dec_items_at<T>(
    s: Seq<u8>,
    pos: int,
    n: nat,
    f: spec_fn(Seq<u8>, int) -> Option<(T, int)>,
) -> Option<(Seq<T>, int)>
    decreases n,
{
    if n == 0 {
        Some((Seq::empty(), pos))
    } else {
        match f(s, pos) {
            Some((x, p)) => match dec_items_at(s, p, (n - 1) as nat, f) {
                Some((l, q)) => Some((seq![x] + l, q)),
                None => None,
            },
            None => None,
        }
    }
}

/// If the bytes at `pos` are the item-wise encoding of `l` and `f` parses
/// each item's encoding back to the item, the sequence parse yields `l`.
pub proof fn lemma_dec_items_of_enc<T>(
    s: Seq<u8>,
    pos: int,
    l: Seq<T>,
    g: spec_fn(T) -> Seq<u8>,
    f: spec_fn(Seq<u8>, int) -> Option<(T, int)>,
)
    requires
        0 <= pos,
        pos + items_enc(l, g).len() <= s.len(),
        s.subrange(pos, pos + items_enc(l, g).len() as int) == items_enc(l, g),
        forall|j: int, p: int|
            0 <= j < l.len() && 0 <= p && p + g(#[trigger] l[j]).len() <= s.len() && s.subrange(
                p,
                #[trigger] (p + g(l[j]).len() as int),
            ) == g(l[j]) ==> f(s, p) == Some((l[j], p + g(l[j]).len())),
    ensures
        dec_items_at(s, pos, l.len(), f) == Some((l, pos + items_enc(l, g).len())),
    decreases l.len(),
{
    if l.len() > 0 {
        let e = items_enc(l, g);
        let e0 = g(l[0]);
        let p1 = pos + e0.len() as int;
        assert(s.subrange(pos, p1) =~= e.subrange(0, e0.len() as int));
        assert(e.subrange(0, e0.len() as int) =~= e0);
        assert(f(s, pos) == Some((l[0], p1)));
        let lt = l.drop_first();
        assert(s.subrange(p1, p1 + items_enc(lt, g).len() as int) =~= e.subrange(
            e0.len() as int,
            e.len() as int,
        ));
        assert(e.subrange(e0.len() as int, e.len() as int) =~= items_enc(lt, g));
        assert forall|j: int, p: int|
            0 <= j < lt.len() && 0 <= p && p + g(#[trigger] lt[j]).len() <= s.len() && s.subrange(
                p,
                #[trigger] (p + g(lt[j]).len() as int),
            ) == g(lt[j]) implies f(s, p) == Some((lt[j], p + g(lt[j]).len())) by {
            assert(lt[j] == l[j + 1]);
        }
        lemma_dec_items_of_enc(s, p1, lt, g, f);
        assert(seq![l[0]] + lt =~= l);
    }
}

/// The length of an item-wise encoding is the sum of the items' encodings.
pub proof fn lemma_items_enc_push<T>(l: Seq<T>, x: T, g: spec_fn(T) -> Seq<u8>)
    ensures
        items_enc(l.push(x), g) == items_enc(l, g) + g(x),
    decreases l.len(),
{
    if l.len() == 0 {
        assert(l.push(x)[0] == x);
        assert(l.push(x).drop_first() =~= Seq::<T>::empty());
        assert(items_enc(Seq::<T>::empty(), g) == Seq::<u8>::empty());
        assert(items_enc(l, g) == Seq::<u8>::empty());
        assert(items_enc(l.push(x), g) == g(x) + Seq::<u8>::empty());
        assert(items_enc(l.push(x), g) =~= items_enc(l, g) + g(x));
    } else {
        assert(l.push(x)[0] == l[0]);
        assert(l.push(x).drop_first() =~= l.drop_first().push(x));
        assert(l.push(x).len() > 0);
        assert(items_enc(l.push(x), g) == g(l[0]) + items_enc(l.drop_first().push(x), g));
        lemma_items_enc_push(l.drop_first(), x, g);
        assert(items_enc(l, g) == g(l[0]) + items_enc(l.drop_first(), g));
        assert(items_enc(l.push(x), g) =~= items_enc(l, g) + g(x));
    }
}

} // verus!
