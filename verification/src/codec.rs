//! Little-endian byte layouts of the integers that the on-disk formats use.
use vstd::prelude::*;

verus! {

/// The eight bytes of `x`, least significant first (`u64::to_le_bytes`).
pub open spec fn u64_le(x: u64) -> Seq<u8> {
    seq![
        (x & 0xff) as u8,
        ((x >> 8) & 0xff) as u8,
        ((x >> 16) & 0xff) as u8,
        ((x >> 24) & 0xff) as u8,
        ((x >> 32) & 0xff) as u8,
        ((x >> 40) & 0xff) as u8,
        ((x >> 48) & 0xff) as u8,
        ((x >> 56) & 0xff) as u8,
    ]
}

/// The `u64` whose little-endian bytes are the first eight of `b`
/// (`u64::from_le_bytes`).
pub open spec fn u64_from_le(b: Seq<u8>) -> u64 {
    le8_to_u64(b[0], b[1], b[2], b[3], b[4], b[5], b[6], b[7])
}

pub open spec fn le8_to_u64(b0: u8, b1: u8, b2: u8, b3: u8, b4: u8, b5: u8, b6: u8, b7: u8) -> u64 {
    (b0 as u64) | ((b1 as u64) << 8) | ((b2 as u64) << 16) | ((b3 as u64) << 24) | ((b4 as u64)
        << 32) | ((b5 as u64) << 40) | ((b6 as u64) << 48) | ((b7 as u64) << 56)
}

/// The four bytes of `x`, least significant first (`u32::to_le_bytes`).
pub open spec fn u32_le(x: u32) -> Seq<u8> {
    seq![(x & 0xff) as u8, ((x >> 8) & 0xff) as u8, ((x >> 16) & 0xff) as u8, ((x >> 24) & 0xff) as u8]
}

/// The `u32` whose little-endian bytes are the first four of `b`.
pub open spec fn u32_from_le(b: Seq<u8>) -> u32 {
    le4_to_u32(b[0], b[1], b[2], b[3])
}

pub open spec fn le4_to_u32(b0: u8, b1: u8, b2: u8, b3: u8) -> u32 {
    (b0 as u32) | ((b1 as u32) << 8) | ((b2 as u32) << 16) | ((b3 as u32) << 24)
}

/// The little-endian bytes of each value of `v`, in order.
pub open spec fn u32s_le(v: Seq<u32>) -> Seq<u8>
    decreases v.len(),
{
    if v.len() == 0 {
        Seq::empty()
    } else {
        u32s_le(v.drop_last()) + u32_le(v.last())
    }
}

/// The little-endian bytes of each value of `v`, in order.
pub open spec fn u64s_le(v: Seq<u64>) -> Seq<u8>
    decreases v.len(),
{
    if v.len() == 0 {
        Seq::empty()
    } else {
        u64s_le(v.drop_last()) + u64_le(v.last())
    }
}

/// The values whose little-endian bytes are `b`, four bytes each; a tail
/// shorter than four bytes is ignored.
pub open spec fn u32s_from_le(b: Seq<u8>) -> Seq<u32>
    decreases b.len(),
{
    if b.len() < 4 {
        Seq::empty()
    } else {
        seq![u32_from_le(b.take(4))] + u32s_from_le(b.skip(4))
    }
}

/// The values whose little-endian bytes are `b`, eight bytes each; a tail
/// shorter than eight bytes is ignored.
pub open spec fn u64s_from_le(b: Seq<u8>) -> Seq<u64>
    decreases b.len(),
{
    if b.len() < 8 {
        Seq::empty()
    } else {
        seq![u64_from_le(b.take(8))] + u64s_from_le(b.skip(8))
    }
}

pub proof fn lemma_u64_le_roundtrip(x: u64)
    ensures
        u64_le(x).len() == 8,
        u64_from_le(u64_le(x)) == x,
{
    let b = u64_le(x);
    assert(le8_to_u64(
        (x & 0xff) as u8,
        ((x >> 8) & 0xff) as u8,
        ((x >> 16) & 0xff) as u8,
        ((x >> 24) & 0xff) as u8,
        ((x >> 32) & 0xff) as u8,
        ((x >> 40) & 0xff) as u8,
        ((x >> 48) & 0xff) as u8,
        ((x >> 56) & 0xff) as u8,
    ) == x) by (bit_vector);
}

pub proof fn lemma_u32_le_roundtrip(x: u32)
    ensures
        u32_le(x).len() == 4,
        u32_from_le(u32_le(x)) == x,
{
    assert(le4_to_u32(
        (x & 0xff) as u8,
        ((x >> 8) & 0xff) as u8,
        ((x >> 16) & 0xff) as u8,
        ((x >> 24) & 0xff) as u8,
    ) == x) by (bit_vector);
}

pub proof fn lemma_u32s_le_len(v: Seq<u32>)
    ensures
        u32s_le(v).len() == 4 * v.len(),
    decreases v.len(),
{
    if v.len() > 0 {
        lemma_u32s_le_len(v.drop_last());
    }
}

pub proof fn lemma_u64s_le_len(v: Seq<u64>)
    ensures
        u64s_le(v).len() == 8 * v.len(),
    decreases v.len(),
{
    if v.len() > 0 {
        lemma_u64s_le_len(v.drop_last());
    }
}

/// Decoding a concatenation of whole four-byte groups decodes each part.
pub proof fn lemma_u32s_from_le_append(a: Seq<u8>, b: Seq<u8>)
    requires
        a.len() % 4 == 0,
    ensures
        u32s_from_le(a + b) == u32s_from_le(a) + u32s_from_le(b),
    decreases a.len(),
{
    if a.len() >= 4 {
        assert((a + b).take(4) =~= a.take(4));
        assert((a + b).skip(4) =~= a.skip(4) + b);
        lemma_u32s_from_le_append(a.skip(4), b);
        assert(u32s_from_le(a + b) =~= u32s_from_le(a) + u32s_from_le(b));
    } else {
        assert(a.len() == 0);
        assert(a + b =~= b);
        assert(u32s_from_le(a) =~= Seq::<u32>::empty());
        assert(u32s_from_le(a + b) =~= u32s_from_le(a) + u32s_from_le(b));
    }
}

/// Decoding a concatenation of whole eight-byte groups decodes each part.
pub proof fn lemma_u64s_from_le_append(a: Seq<u8>, b: Seq<u8>)
    requires
        a.len() % 8 == 0,
    ensures
        u64s_from_le(a + b) == u64s_from_le(a) + u64s_from_le(b),
    decreases a.len(),
{
    if a.len() >= 8 {
        assert((a + b).take(8) =~= a.take(8));
        assert((a + b).skip(8) =~= a.skip(8) + b);
        lemma_u64s_from_le_append(a.skip(8), b);
        assert(u64s_from_le(a + b) =~= u64s_from_le(a) + u64s_from_le(b));
    } else {
        assert(a.len() == 0);
        assert(a + b =~= b);
        assert(u64s_from_le(a) =~= Seq::<u64>::empty());
        assert(u64s_from_le(a + b) =~= u64s_from_le(a) + u64s_from_le(b));
    }
}

/// Decoding the bytes of a sequence of values gives the values back.
pub proof fn lemma_u32s_roundtrip(v: Seq<u32>)
    ensures
        u32s_from_le(u32s_le(v)) == v,
    decreases v.len(),
{
    if v.len() > 0 {
        lemma_u32s_roundtrip(v.drop_last());
        lemma_u32s_le_len(v.drop_last());
        lemma_u32_le_roundtrip(v.last());
        let tail = u32_le(v.last());
        lemma_u32s_from_le_append(u32s_le(v.drop_last()), tail);
        assert(tail.take(4) =~= tail);
        assert(tail.skip(4) =~= Seq::<u8>::empty());
        assert(u32s_from_le(tail.skip(4)) =~= Seq::<u32>::empty());
        assert(u32s_from_le(tail) =~= seq![v.last()]);
        assert(v =~= v.drop_last().push(v.last()));
    } else {
        assert(u32s_from_le(u32s_le(v)) =~= v);
    }
}

/// Decoding the bytes of a sequence of values gives the values back.
pub proof fn lemma_u64s_roundtrip(v: Seq<u64>)
    ensures
        u64s_from_le(u64s_le(v)) == v,
    decreases v.len(),
{
    if v.len() > 0 {
        lemma_u64s_roundtrip(v.drop_last());
        lemma_u64s_le_len(v.drop_last());
        lemma_u64_le_roundtrip(v.last());
        let tail = u64_le(v.last());
        lemma_u64s_from_le_append(u64s_le(v.drop_last()), tail);
        assert(tail.take(8) =~= tail);
        assert(tail.skip(8) =~= Seq::<u8>::empty());
        assert(u64s_from_le(tail.skip(8)) =~= Seq::<u64>::empty());
        assert(u64s_from_le(tail) =~= seq![v.last()]);
        assert(v =~= v.drop_last().push(v.last()));
    } else {
        assert(u64s_from_le(u64s_le(v)) =~= v);
    }
}

/// Appends the little-endian bytes of `x` to `out`.
pub fn push_u64_le(out: &mut Vec<u8>, x: u64)
    ensures
        final(out)@ == old(out)@ + u64_le(x),
{
    out.push((x & 0xff) as u8);
    out.push(((x >> 8) & 0xff) as u8);
    out.push(((x >> 16) & 0xff) as u8);
    out.push(((x >> 24) & 0xff) as u8);
    out.push(((x >> 32) & 0xff) as u8);
    out.push(((x >> 40) & 0xff) as u8);
    out.push(((x >> 48) & 0xff) as u8);
    out.push(((x >> 56) & 0xff) as u8);
    assert(out@ =~= old(out)@ + u64_le(x));
}

/// Appends the little-endian bytes of `x` to `out`.
pub fn push_u32_le(out: &mut Vec<u8>, x: u32)
    ensures
        final(out)@ == old(out)@ + u32_le(x),
{
    out.push((x & 0xff) as u8);
    out.push(((x >> 8) & 0xff) as u8);
    out.push(((x >> 16) & 0xff) as u8);
    out.push(((x >> 24) & 0xff) as u8);
    assert(out@ =~= old(out)@ + u32_le(x));
}

/// Appends the little-endian bytes of every value of `v` to `out`.
pub fn push_u32s_le(out: &mut Vec<u8>, v: &[u32])
    ensures
        final(out)@ == old(out)@ + u32s_le(v@),
{
    let mut i: usize = 0;
    while i < v.len()
        invariant
            0 <= i <= v@.len(),
            out@ == old(out)@ + u32s_le(v@.take(i as int)),
        decreases v@.len() - i,
    {
        push_u32_le(out, v[i]);
        proof {
            let t = v@.take(i + 1);
            assert(t.drop_last() =~= v@.take(i as int));
            assert(t.last() == v@[i as int]);
        }
        i = i + 1;
    }
    assert(v@.take(i as int) =~= v@);
}

/// Appends the little-endian bytes of every value of `v` to `out`.
pub fn push_u64s_le(out: &mut Vec<u8>, v: &[u64])
    ensures
        final(out)@ == old(out)@ + u64s_le(v@),
{
    let mut i: usize = 0;
    while i < v.len()
        invariant
            0 <= i <= v@.len(),
            out@ == old(out)@ + u64s_le(v@.take(i as int)),
        decreases v@.len() - i,
    {
        push_u64_le(out, v[i]);
        proof {
            let t = v@.take(i + 1);
            assert(t.drop_last() =~= v@.take(i as int));
            assert(t.last() == v@[i as int]);
        }
        i = i + 1;
    }
    assert(v@.take(i as int) =~= v@);
}

/// Reads the little-endian `u64` that starts at `pos`.
pub fn read_u64_le(b: &[u8], pos: usize) -> (x: u64)
    requires
        pos + 8 <= b@.len(),
    ensures
        x == u64_from_le(b@.subrange(pos as int, pos + 8)),
{
    (b[pos] as u64) | ((b[pos + 1] as u64) << 8) | ((b[pos + 2] as u64) << 16) | ((b[pos + 3] as u64)
        << 24) | ((b[pos + 4] as u64) << 32) | ((b[pos + 5] as u64) << 40) | ((b[pos + 6] as u64)
        << 48) | ((b[pos + 7] as u64) << 56)
}

/// Reads the little-endian `u32` that starts at `pos`.
pub fn read_u32_le(b: &[u8], pos: usize) -> (x: u32)
    requires
        pos + 4 <= b@.len(),
    ensures
        x == u32_from_le(b@.subrange(pos as int, pos + 4)),
{
    (b[pos] as u32) | ((b[pos + 1] as u32) << 8) | ((b[pos + 2] as u32) << 16) | ((b[pos + 3] as u32)
        << 24)
}

/// Reads `n` little-endian `u32` values that start at `pos`.
pub fn read_u32s_le(b: &[u8], pos: usize, n: usize) -> (v: Vec<u32>)
    requires
        pos + 4 * n <= b@.len(),
    ensures
        v@ == u32s_from_le(b@.subrange(pos as int, pos + 4 * n)),
        v@.len() == n,
{
    let mut v: Vec<u32> = Vec::new();
    let mut i: usize = 0;
    let ghost whole = b@.subrange(pos as int, pos + 4 * n);
    let len = b.len();
    while i < n
        invariant
            0 <= i <= n,
            len == b@.len(),
            pos + 4 * n <= b@.len(),
            whole == b@.subrange(pos as int, pos + 4 * n),
            v@ == u32s_from_le(whole.take(4 * i)),
            v@.len() == i,
        decreases n - i,
    {
        let x = read_u32_le(b, pos + 4 * i);
        proof {
            let a = whole.take(4 * i);
            let c = whole.subrange(4 * i, 4 * i + 4);
            assert(whole.take(4 * (i + 1)) =~= a + c);
            lemma_u32s_from_le_append(a, c);
            assert(c.take(4) =~= c);
            assert(c.skip(4) =~= Seq::<u8>::empty());
            assert(u32s_from_le(c.skip(4)) =~= Seq::<u32>::empty());
            assert(c =~= b@.subrange(pos + 4 * i, pos + 4 * i + 4));
            assert(u32s_from_le(c) =~= seq![x]);
        }
        v.push(x);
        i = i + 1;
    }
    assert(whole.take(4 * n) =~= whole);
    v
}

} // verus!
