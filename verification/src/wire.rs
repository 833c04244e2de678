//! Byte-level specifications of the wire format: big-endian integers.
use vstd::prelude::*;
use vstd::utf8::encode_utf8;

verus! {

/// The two big-endian bytes of a 16-bit value.
pub open spec fn be16(x: u16) -> Seq<u8> {
    seq![(x >> 8u16) as u8, x as u8]
}

/// The four big-endian bytes of a 32-bit value.
pub open spec fn be32(x: u32) -> Seq<u8> {
    seq![(x >> 24u32) as u8, (x >> 16u32) as u8, (x >> 8u32) as u8, x as u8]
}

/// The 16-bit value whose big-endian bytes are `b0`, `b1`.
pub open spec fn from_be16(b0: u8, b1: u8) -> u16 {
    ((b0 as u16) << 8u16) | (b1 as u16)
}

/// The 32-bit value whose big-endian bytes are `b0` to `b3`.
pub open spec fn from_be32(b0: u8, b1: u8, b2: u8, b3: u8) -> u32 {
    ((b0 as u32) << 24u32) | ((b1 as u32) << 16u32) | ((b2 as u32) << 8u32) | (b3 as u32)
}

/// Reading back the bytes of `be16(x)` gives `x`.
pub proof fn lemma_be16_roundtrip(x: u16)
    ensures
        from_be16(be16(x)[0], be16(x)[1]) == x,
{
    let b0 = (x >> 8u16) as u8;
    let b1 = x as u8;
    assert(((b0 as u16) << 8u16) | (b1 as u16) == x) by (bit_vector)
        requires
            b0 == (x >> 8u16) as u8,
            b1 == x as u8,
    ;
}

/// Reading back the bytes of `be32(x)` gives `x`.
pub proof fn lemma_be32_roundtrip(x: u32)
    ensures
        from_be32(be32(x)[0], be32(x)[1], be32(x)[2], be32(x)[3]) == x,
{
    let b0 = (x >> 24u32) as u8;
    let b1 = (x >> 16u32) as u8;
    let b2 = (x >> 8u32) as u8;
    let b3 = x as u8;
    assert(((b0 as u32) << 24u32) | ((b1 as u32) << 16u32) | ((b2 as u32) << 8u32) | (b3 as u32)
        == x) by (bit_vector)
        requires
            b0 == (x >> 24u32) as u8,
            b1 == (x >> 16u32) as u8,
            b2 == (x >> 8u32) as u8,
            b3 == x as u8,
    ;
}

/// The big-endian bytes of a 16-bit value.
pub fn u16_to_be(x: u16) -> (r: [u8; 2])
    ensures
        r@ == be16(x),
{
    let r = [(x >> 8u16) as u8, x as u8];
    assert(r@ =~= be16(x));
    r
}

/// The big-endian bytes of a 32-bit value.
pub fn u32_to_be(x: u32) -> (r: [u8; 4])
    ensures
        r@ == be32(x),
{
    let r = [(x >> 24u32) as u8, (x >> 16u32) as u8, (x >> 8u32) as u8, x as u8];
    assert(r@ =~= be32(x));
    r
}


/// The byte that separates the labels of a dotted name.
pub const DOT: u8 = 0x2e;

/// The pieces of `s` between occurrences of `sep`, as `str::split` yields
/// them: always at least one piece, empty pieces included.
pub open spec fn split_on<A>(s: Seq<A>, sep: A) -> Seq<Seq<A>>
    decreases s.len(),
{
    if s.len() == 0 {
        seq![Seq::<A>::empty()]
    } else {
        let r = split_on(s.drop_last(), sep);
        if s.last() == sep {
            r.push(Seq::<A>::empty())
        } else {
            r.update(r.len() - 1, r.last().push(s.last()))
        }
    }
}

/// The pieces `ls` put back together with `sep` between neighbours.
pub open spec fn join_with<A>(ls: Seq<Seq<A>>, sep: A) -> Seq<A>
    decreases ls.len(),
{
    if ls.len() == 0 {
        Seq::<A>::empty()
    } else if ls.len() == 1 {
        ls[0]
    } else {
        join_with(ls.drop_last(), sep).push(sep) + ls.last()
    }
}

/// Splitting never yields an empty list of pieces.
pub proof fn lemma_split_nonempty<A>(s: Seq<A>, sep: A)
    ensures
        split_on(s, sep).len() >= 1,
    decreases s.len(),
{
    if s.len() > 0 {
        lemma_split_nonempty(s.drop_last(), sep);
    }
}

/// Joining the pieces of a split gives back the original bytes.
pub proof fn lemma_join_split<A>(s: Seq<A>, sep: A)
    ensures
        join_with(split_on(s, sep), sep) == s,
    decreases s.len(),
{
    if s.len() == 0 {
    } else {
        let p = s.drop_last();
        lemma_join_split(p, sep);
        lemma_split_nonempty(p, sep);
        let r = split_on(p, sep);
        if s.last() == sep {
            let r2 = r.push(Seq::<A>::empty());
            assert(r2.drop_last() =~= r);
            assert(join_with(r2, sep) =~= p.push(sep));
            assert(p.push(sep) =~= s);
        } else {
            let r2 = r.update(r.len() - 1, r.last().push(s.last()));
            assert(r2.drop_last() =~= r.drop_last());
            if r.len() == 1 {
                assert(join_with(r2, sep) == r2[0]);
                assert(r2[0] =~= s);
            } else {
                assert(join_with(r2, sep) =~= join_with(r.drop_last(), sep).push(sep) + r.last().push(
                    s.last(),
                ));
                assert(join_with(r, sep) =~= join_with(r.drop_last(), sep).push(sep) + r.last());
                assert(join_with(r2, sep) =~= p.push(s.last()));
                assert(p.push(s.last()) =~= s);
            }
        }
    }
}

/// A sequence without the separator splits into itself alone.
pub proof fn lemma_split_without_sep<A>(s: Seq<A>, sep: A)
    requires
        !s.contains(sep),
    ensures
        split_on(s, sep) == seq![s],
    decreases s.len(),
{
    if s.len() == 0 {
        assert(s =~= Seq::<A>::empty());
        assert(split_on(s, sep) =~= seq![s]);
    } else {
        let p = s.drop_last();
        assert(!p.contains(sep)) by {
            if p.contains(sep) {
                let k = choose|k: int| 0 <= k < p.len() && p[k] == sep;
                assert(0 <= k < s.len() && s[k] == sep);
            }
        }
        lemma_split_without_sep(p, sep);
        assert(s.last() != sep) by {
            assert(s[s.len() - 1] == s.last());
        }
        assert(p.push(s.last()) =~= s);
        assert(split_on(s, sep) =~= seq![s]);
    }
}

/// Splitting at a separator: the pieces before it, then the pieces after it.
pub proof fn lemma_split_at_sep<A>(s: Seq<A>, sep: A, i: int)
    requires
        0 <= i < s.len(),
        s[i] == sep,
    ensures
        split_on(s, sep) == split_on(s.take(i), sep) + split_on(s.skip(i + 1), sep),
    decreases s.len(),
{
    if s.len() == i + 1 {
        assert(s.drop_last() =~= s.take(i));
        assert(s.skip(i + 1) =~= Seq::<A>::empty());
        assert(split_on(s.skip(i + 1), sep) =~= seq![Seq::<A>::empty()]);
        assert(split_on(s, sep) =~= split_on(s.take(i), sep) + split_on(s.skip(i + 1), sep));
    } else {
        let p = s.drop_last();
        lemma_split_at_sep(p, sep, i);
        assert(p.take(i) =~= s.take(i));
        let r = s.skip(i + 1);
        assert(r.drop_last() =~= p.skip(i + 1));
        assert(r.last() == s.last());
        lemma_split_nonempty(p.skip(i + 1), sep);
        let a = split_on(s.take(i), sep);
        let b = split_on(p.skip(i + 1), sep);
        if s.last() == sep {
            assert((a + b).push(Seq::<A>::empty()) =~= a + b.push(Seq::<A>::empty()));
        } else {
            assert((a + b).update((a + b).len() - 1, (a + b).last().push(s.last())) =~= a + b.update(
                b.len() - 1,
                b.last().push(s.last()),
            ));
        }
    }
}

/// Each label as its length byte followed by its bytes, labels in order.
pub open spec fn encode_labels(ls: Seq<Seq<u8>>) -> Seq<u8>
    decreases ls.len(),
{
    if ls.len() == 0 {
        Seq::<u8>::empty()
    } else {
        encode_labels(ls.drop_last()).push(ls.last().len() as u8) + ls.last()
    }
}

/// The labels of a dotted name: its UTF-8 bytes split at each dot.
pub open spec fn name_labels(name: Seq<char>) -> Seq<Seq<u8>> {
    split_on(encode_utf8(name), DOT)
}

/// A name on the wire: each label with its length byte, then a zero byte.
pub open spec fn name_bytes(name: Seq<char>) -> Seq<u8> {
    encode_labels(name_labels(name)).push(0u8)
}

/// A character string on the wire: its byte length (modulo 256), then its
/// UTF-8 bytes.
pub open spec fn char_string_bytes(s: Seq<char>) -> Seq<u8> {
    seq![encode_utf8(s).len() as u8] + encode_utf8(s)
}

/// Appends all of `src` to `out`.
pub fn extend_bytes(out: &mut Vec<u8>, src: &[u8])
    ensures
        final(out)@ == old(out)@ + src@,
{
    out.extend_from_slice(src);
    assert(final(out)@ =~= old(out)@ + src@);
}

/// Appends `src[from..to]` to `out`.
pub fn extend_range(out: &mut Vec<u8>, src: &[u8], from: usize, to: usize)
    requires
        from <= to <= src@.len(),
    ensures
        final(out)@ == old(out)@ + src@.subrange(from as int, to as int),
{
    let mut i = from;
    while i < to
        invariant
            from <= i <= to <= src@.len(),
            out@ == old(out)@ + src@.subrange(from as int, i as int),
        decreases to - i,
    {
        out.push(src[i]);
        i = i + 1;
        assert(out@ =~= old(out)@ + src@.subrange(from as int, i as int));
    }
}

/// The wire form of a dotted name: its UTF-8 bytes split at each dot, each
/// label written as its length (modulo 256) and its bytes, then a zero byte.
pub fn encode_dns_name(name: &str) -> (r: Vec<u8>)
    ensures
        r@ == name_bytes(name@),
{
    let b = name.as_bytes();
    let n = b.len();
    let mut out: Vec<u8> = Vec::new();
    let mut start: usize = 0;
    let mut i: usize = 0;
    let ghost mut done: Seq<Seq<u8>> = Seq::empty();
    assert(b@.take(0) =~= Seq::<u8>::empty());
    while i < n
        invariant
            n == b@.len(),
            b@ == encode_utf8(name@),
            start <= i <= n,
            split_on(b@.take(i as int), DOT) == done.push(b@.subrange(start as int, i as int)),
            out@ == encode_labels(done),
        decreases n - i,
    {
        let ghost prev = b@.take(i as int);
        assert(b@.take(i + 1).drop_last() =~= prev);
        assert(b@.take(i + 1).last() == b@[i as int]);
        if b[i] == DOT {
            out.push((i - start) as u8);
            extend_range(&mut out, b, start, i);
            proof {
                let lab = b@.subrange(start as int, i as int);
                assert(done.push(lab).drop_last() =~= done);
                assert(out@ =~= encode_labels(done.push(lab)));
                done = done.push(lab);
                assert(b@.subrange((i + 1) as int, (i + 1) as int) =~= Seq::<u8>::empty());
            }
            start = i + 1;
        } else {
            proof {
                let lab = b@.subrange(start as int, i as int);
                assert(lab.push(b@[i as int]) =~= b@.subrange(start as int, i + 1));
                assert(done.push(lab).update(done.len() as int, lab.push(b@[i as int])) =~= done.push(
                    b@.subrange(start as int, i + 1),
                ));
            }
        }
        i = i + 1;
    }
    assert(b@.take(n as int) =~= b@);
    let ghost lab = b@.subrange(start as int, n as int);
    out.push((n - start) as u8);
    extend_range(&mut out, b, start, n);
    proof {
        assert(done.push(lab).drop_last() =~= done);
        assert(out@ =~= encode_labels(done.push(lab)));
    }
    out.push(0u8);
    out
}

} // verus!
