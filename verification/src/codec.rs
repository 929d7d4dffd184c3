//! Byte-level framing shared by blocks and the block index: big-endian
//! `u32` fields and sequences of length-prefixed byte strings.

use vstd::prelude::*;
use bytes::BufMut;
use vstd::slice::{slice_subrange, slice_to_vec};

verus! {

/// The four bytes of `v`, most significant first.
pub open spec fn spec_u32_be(v: u32) -> Seq<u8> {
    seq![
        (v / 16777216) as u8,
        ((v / 65536) % 256) as u8,
        ((v / 256) % 256) as u8,
        (v % 256) as u8,
    ]
}

/// The number whose big-endian bytes are the first four bytes of `b`.
pub open spec fn spec_u32_from_be(b: Seq<u8>) -> int
    recommends
        b.len() >= 4,
{
    b[0] as int * 16777216 + b[1] as int * 65536 + b[2] as int * 256 + b[3] as int
}

/// One byte string with its length in front.
pub open spec fn spec_item(s: Seq<u8>) -> Seq<u8> {
    spec_u32_be(s.len() as u32) + s
}

/// The concatenation of the length-prefixed items.
pub open spec fn spec_frame(items: Seq<Seq<u8>>) -> Seq<u8>
    decreases items.len(),
{
    if items.len() == 0 {
        Seq::empty()
    } else {
        spec_item(items[0]) + spec_frame(items.skip(1))
    }
}

/// The items that `b` is the frame of, if it is one.
pub open spec fn spec_unframe(b: Seq<u8>) -> Option<Seq<Seq<u8>>>
    decreases b.len(),
{
    if b.len() == 0 {
        Some(Seq::empty())
    } else if b.len() < 4 {
        None
    } else {
        let n = spec_u32_from_be(b);
        if b.len() < 4 + n {
            None
        } else {
            match spec_unframe(b.skip(4 + n)) {
                None => None,
                Some(rest) => Some(seq![b.subrange(4, 4 + n)] + rest),
            }
        }
    }
}

/// The views of a vector of byte strings.
pub open spec fn spec_items(v: Seq<Vec<u8>>) -> Seq<Seq<u8>> {
    Seq::new(v.len(), |i: int| v[i]@)
}

/// Every item is short enough for a `u32` length prefix.
pub open spec fn spec_items_fit(items: Seq<Seq<u8>>) -> bool {
    forall|i: int| 0 <= i < items.len() ==> (#[trigger] items[i]).len() <= u32::MAX
}

pub proof fn lemma_u32_be_round_trip(v: u32)
    ensures
        spec_u32_be(v).len() == 4,
        spec_u32_from_be(spec_u32_be(v)) == v,
{
}

/// Reading a frame that starts with an item gives that item and goes on
/// behind it.
pub proof fn lemma_item_prefix(s: Seq<u8>, rest: Seq<u8>)
    requires
        s.len() <= u32::MAX,
    ensures
        (spec_item(s) + rest).len() == 4 + s.len() + rest.len(),
        spec_u32_from_be(spec_item(s) + rest) == s.len(),
        (spec_item(s) + rest).subrange(4, 4 + s.len() as int) == s,
        (spec_item(s) + rest).skip(4 + s.len() as int) == rest,
{
    let b = spec_item(s) + rest;
    lemma_u32_be_round_trip(s.len() as u32);
    assert(b[0] == spec_u32_be(s.len() as u32)[0]);
    assert(b[1] == spec_u32_be(s.len() as u32)[1]);
    assert(b[2] == spec_u32_be(s.len() as u32)[2]);
    assert(b[3] == spec_u32_be(s.len() as u32)[3]);
    assert(b.subrange(4, 4 + s.len() as int) =~= s);
    assert(b.skip(4 + s.len() as int) =~= rest);
}

/// A frame read back gives the items it was made of.
pub proof fn lemma_unframe_frame(items: Seq<Seq<u8>>)
    requires
        spec_items_fit(items),
    ensures
        spec_unframe(spec_frame(items)) == Some(items),
    decreases items.len(),
{
    if items.len() == 0 {
        assert(items =~= Seq::empty());
    } else {
        let rest = items.skip(1);
        lemma_unframe_frame(rest);
        lemma_item_prefix(items[0], spec_frame(rest));
        assert(seq![items[0]] + rest =~= items);
    }
}

/// The frame of a sequence with one more item at its end.
pub proof fn lemma_frame_push(items: Seq<Seq<u8>>, x: Seq<u8>)
    ensures
        spec_frame(items.push(x)) == spec_frame(items) + spec_item(x),
    decreases items.len(),
{
    if items.len() == 0 {
        assert(items.push(x).skip(1) =~= Seq::<Seq<u8>>::empty());
        assert(spec_frame(items.push(x).skip(1)) =~= Seq::<u8>::empty());
        assert(spec_frame(items) =~= Seq::<u8>::empty());
        assert(items.push(x)[0] == x);
        assert(spec_frame(items.push(x)) =~= spec_frame(items) + spec_item(x));
    } else {
        lemma_frame_push(items.skip(1), x);
        assert(items.push(x).skip(1) =~= items.skip(1).push(x));
        assert(spec_frame(items.push(x)) =~= spec_frame(items) + spec_item(x));
    }
}

/// The number of bytes in the items, their length prefixes not counted.
pub open spec fn spec_payload(items: Seq<Seq<u8>>) -> int
    decreases items.len(),
{
    if items.len() == 0 {
        0
    } else {
        items[0].len() + spec_payload(items.skip(1))
    }
}

/// A frame is as long as its items together and four bytes for each.
pub proof fn lemma_frame_len(items: Seq<Seq<u8>>)
    ensures
        spec_frame(items).len() == spec_payload(items) + 4 * items.len(),
    decreases items.len(),
{
    if items.len() > 0 {
        lemma_frame_len(items.skip(1));
    }
}

/// Calls `bytes::BufMut::put_u32` on the vector, which appends the four
/// bytes of `v` in big-endian order and leaves what was there untouched.
#[verifier::external_body]
pub(crate) fn put_u32(buf: &mut Vec<u8>, v: u32)
    ensures
        final(buf)@ == old(buf)@ + spec_u32_be(v),
{
    buf.put_u32(v);
}

/// Reads the big-endian `u32` that starts at `pos`.
pub fn read_u32(bytes: &[u8], pos: usize) -> (r: u32)
    requires
        pos + 4 <= bytes@.len(),
    ensures
        r == spec_u32_from_be(bytes@.skip(pos as int)),
{
    let b0: u32 = bytes[pos] as u32;
    let b1: u32 = bytes[pos + 1] as u32;
    let b2: u32 = bytes[pos + 2] as u32;
    let b3: u32 = bytes[pos + 3] as u32;
    b0 * 16777216 + b1 * 65536 + b2 * 256 + b3
}

/// Appends `src` to `buf`.
pub fn append_bytes(buf: &mut Vec<u8>, src: &[u8])
    ensures
        final(buf)@ == old(buf)@ + src@,
{
    let mut i: usize = 0;
    while i < src.len()
        invariant
            i <= src@.len(),
            buf@ == old(buf)@ + src@.take(i as int),
        decreases src@.len() - i,
    {
        buf.push(src[i]);
        i += 1;
        assert(buf@ =~= old(buf)@ + src@.take(i as int));
    }
    assert(src@.take(i as int) =~= src@);
}

/// Appends one length-prefixed item to `buf`.
pub fn put_item(buf: &mut Vec<u8>, item: &[u8])
    requires
        item@.len() <= u32::MAX,
    ensures
        final(buf)@ == old(buf)@ + spec_item(item@),
{
    put_u32(buf, item.len() as u32);
    append_bytes(buf, item);
    assert(buf@ =~= old(buf)@ + spec_item(item@));
}

/// Appends the frame of `items` to `buf`.
pub fn put_frame(buf: &mut Vec<u8>, items: &Vec<Vec<u8>>)
    requires
        spec_items_fit(spec_items(items@)),
    ensures
        final(buf)@ == old(buf)@ + spec_frame(spec_items(items@)),
{
    let ghost all = spec_items(items@);
    let mut i: usize = 0;
    assert(all.skip(0) =~= all);
    while i < items.len()
        invariant
            i <= items@.len(),
            all == spec_items(items@),
            spec_items_fit(all),
            buf@ + spec_frame(all.skip(i as int)) == old(buf)@ + spec_frame(all),
        decreases items@.len() - i,
    {
        proof {
            assert(all.skip(i as int).skip(1) =~= all.skip(i as int + 1));
            assert(all.skip(i as int)[0] == items@[i as int]@);
            assert(all[i as int].len() <= u32::MAX);
        }
        let ghost before = buf@;
        put_item(buf, items[i].as_slice());
        i += 1;
        assert(buf@ + spec_frame(all.skip(i as int)) =~= before + spec_frame(all.skip(i as int - 1)));
    }
    assert(all.skip(i as int) =~= Seq::<Seq<u8>>::empty());
    assert(buf@ =~= old(buf)@ + spec_frame(all));
}

/// What reading goes on to give once `done` has been read and `rest` is left.
pub open spec fn spec_unframe_onto(done: Seq<Seq<u8>>, rest: Seq<u8>) -> Option<Seq<Seq<u8>>> {
    match spec_unframe(rest) {
        None => None,
        Some(more) => Some(done + more),
    }
}

/// Splits a frame into its items; `None` where `bytes` is no frame.
pub fn unframe(bytes: &[u8]) -> (r: Option<Vec<Vec<u8>>>)
    ensures
        match r {
            Some(v) => spec_unframe(bytes@) == Some(spec_items(v@)) && spec_items_fit(
                spec_items(v@),
            ),
            None => spec_unframe(bytes@).is_none(),
        },
{
    let mut out: Vec<Vec<u8>> = Vec::new();
    let mut pos: usize = 0;
    let len: usize = bytes.len();
    assert(bytes@.skip(0) =~= bytes@);
    assert(spec_items(out@) =~= Seq::<Seq<u8>>::empty());
    assert(spec_unframe_onto(spec_items(out@), bytes@.skip(0)) == spec_unframe(bytes@)) by {
        match spec_unframe(bytes@) {
            None => {},
            Some(more) => {
                assert(Seq::<Seq<u8>>::empty() + more =~= more);
            },
        }
    }
    while pos < len
        invariant
            len == bytes@.len(),
            pos <= len,
            spec_items_fit(spec_items(out@)),
            spec_unframe(bytes@) == spec_unframe_onto(spec_items(out@), bytes@.skip(pos as int)),
        decreases len - pos,
    {
        let ghost rest = bytes@.skip(pos as int);
        if len - pos < 4 {
            return None;
        }
        let n: usize = read_u32(bytes, pos) as usize;
        if len - pos - 4 < n {
            return None;
        }
        let item: Vec<u8> = slice_to_vec(slice_subrange(bytes, pos + 4, pos + 4 + n));
        proof {
            assert(item@ =~= rest.subrange(4, 4 + n));
            assert(rest.skip(4 + n) =~= bytes@.skip(pos + 4 + n));
            let ghost done = spec_items(out@);
            assert(spec_items(out@.push(item)) =~= done.push(item@));
            match spec_unframe(rest.skip(4 + n)) {
                None => {},
                Some(more) => {
                    assert(done + (seq![item@] + more) =~= done.push(item@) + more);
                },
            }
        }
        out.push(item);
        pos = pos + 4 + n;
    }
    proof {
        assert(bytes@.skip(pos as int) =~= Seq::<u8>::empty());
        assert(spec_items(out@) + Seq::<Seq<u8>>::empty() =~= spec_items(out@));
    }
    Some(out)
}

} // verus!
