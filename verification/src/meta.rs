//! The block index: one entry per block, with the block's offset in the
//! data region and its first key, and the encoding of the whole index.
//!
//! An index entry is framed as one item: the offset in four big-endian
//! bytes, then the key.

use vstd::prelude::*;
use vstd::slice::{slice_subrange, slice_to_vec};
use crate::codec::{
    append_bytes, lemma_frame_push, lemma_u32_be_round_trip, lemma_unframe_frame, put_item,
    put_u32, read_u32, spec_frame, spec_items, spec_items_fit, spec_u32_be, spec_u32_from_be,
    spec_unframe, unframe,
};

verus! {

/// What can go wrong in this library.
#[derive(Debug, Clone, Copy, PartialEq, Eq)]
pub enum TableError {
    /// The bytes of a table, of its index or of a block are malformed.
    FormatError,
    /// An entry is larger than any block can hold: with it the table would
    /// outgrow what a 32-bit offset can address.
    CapacityViolation,
    /// A key came after a greater one.
    OrderingViolation,
}

/// Where a block lies and what its first key is.
pub struct BlockMeta {
    pub offset: u32,
    pub first_key: Vec<u8>,
}

/// The item that stands for one index entry.
pub open spec fn spec_meta_item(e: (u32, Seq<u8>)) -> Seq<u8> {
    spec_u32_be(e.0) + e.1
}

/// The index entry that an item stands for.
pub open spec fn spec_meta_of_item(item: Seq<u8>) -> (u32, Seq<u8>) {
    (spec_u32_from_be(item) as u32, item.skip(4))
}

/// The entries as offsets and keys.
pub open spec fn spec_metas(v: Seq<BlockMeta>) -> Seq<(u32, Seq<u8>)> {
    Seq::new(v.len(), |i: int| (v[i].offset, v[i].first_key@))
}

/// The items of the entries.
pub open spec fn spec_meta_items(es: Seq<(u32, Seq<u8>)>) -> Seq<Seq<u8>> {
    Seq::new(es.len(), |i: int| spec_meta_item(es[i]))
}

/// Every key leaves room for the offset in a framed item.
pub open spec fn spec_metas_fit(es: Seq<(u32, Seq<u8>)>) -> bool {
    forall|i: int| 0 <= i < es.len() ==> (#[trigger] es[i]).1.len() + 4 <= u32::MAX
}

/// The encoding of an index.
pub open spec fn spec_encode_index(es: Seq<(u32, Seq<u8>)>) -> Seq<u8> {
    spec_frame(spec_meta_items(es))
}

/// The index that `b` encodes, if it encodes one.
pub open spec fn spec_decode_index(b: Seq<u8>) -> Option<Seq<(u32, Seq<u8>)>> {
    match spec_unframe(b) {
        None => None,
        Some(items) => if forall|i: int| 0 <= i < items.len() ==> (#[trigger] items[i]).len() >= 4 {
            Some(Seq::new(items.len(), |i: int| spec_meta_of_item(items[i])))
        } else {
            None
        },
    }
}

/// An item read back gives the entry it was made of.
pub proof fn lemma_meta_item_round_trip(e: (u32, Seq<u8>))
    ensures
        spec_meta_item(e).len() == 4 + e.1.len(),
        spec_meta_of_item(spec_meta_item(e)) == e,
{
    lemma_u32_be_round_trip(e.0);
    let item = spec_meta_item(e);
    assert(item[0] == spec_u32_be(e.0)[0]);
    assert(item[1] == spec_u32_be(e.0)[1]);
    assert(item[2] == spec_u32_be(e.0)[2]);
    assert(item[3] == spec_u32_be(e.0)[3]);
    assert(item.skip(4) =~= e.1);
}

/// Decoding the encoding of any index gives that index back.
pub proof fn lemma_index_round_trip(es: Seq<(u32, Seq<u8>)>)
    requires
        spec_metas_fit(es),
    ensures
        spec_decode_index(spec_encode_index(es)) == Some(es),
{
    let items = spec_meta_items(es);
    assert forall|i: int| 0 <= i < items.len() implies (#[trigger] items[i]).len() <= u32::MAX
        && items[i].len() >= 4 && spec_meta_of_item(items[i]) == es[i] by {
        lemma_meta_item_round_trip(es[i]);
    }
    lemma_unframe_frame(items);
    assert(Seq::new(items.len(), |i: int| spec_meta_of_item(items[i])) =~= es);
}

impl BlockMeta {
    /// Appends the encoding of the index to `buf`.
    pub fn encode_block_meta(block_meta: &Vec<BlockMeta>, buf: &mut Vec<u8>)
        requires
            spec_metas_fit(spec_metas(block_meta@)),
        ensures
            final(buf)@ == old(buf)@ + spec_encode_index(spec_metas(block_meta@)),
    {
        let ghost es = spec_metas(block_meta@);
        let ghost items = spec_meta_items(es);
        let mut i: usize = 0;
        assert(items.take(0) =~= Seq::<Seq<u8>>::empty());
        assert(buf@ =~= old(buf)@ + spec_frame(items.take(0)));
        while i < block_meta.len()
            invariant
                i <= block_meta@.len(),
                es == spec_metas(block_meta@),
                items == spec_meta_items(es),
                spec_metas_fit(es),
                buf@ == old(buf)@ + spec_frame(items.take(i as int)),
            decreases block_meta@.len() - i,
        {
            let mut item: Vec<u8> = Vec::new();
            put_u32(&mut item, block_meta[i].offset);
            append_bytes(&mut item, block_meta[i].first_key.as_slice());
            proof {
                assert(es[i as int] == (block_meta@[i as int].offset, block_meta@[i as int].first_key@));
                assert(item@ =~= spec_meta_item(es[i as int]));
                lemma_meta_item_round_trip(es[i as int]);
                lemma_frame_push(items.take(i as int), items[i as int]);
                assert(items.take(i as int).push(items[i as int]) =~= items.take(i as int + 1));
            }
            put_item(buf, item.as_slice());
            i += 1;
            assert(buf@ =~= old(buf)@ + spec_frame(items.take(i as int)));
        }
        assert(items.take(i as int) =~= items);
    }

    /// Reads an index back from its encoding; `None` where the bytes encode
    /// none.
    pub fn decode_block_meta(bytes: &[u8]) -> (r: Option<Vec<BlockMeta>>)
        ensures
            match r {
                Some(v) => spec_decode_index(bytes@) == Some(spec_metas(v@)),
                None => spec_decode_index(bytes@).is_none(),
            },
    {
        let items = match unframe(bytes) {
            None => {
                return None;
            },
            Some(items) => items,
        };
        let ghost its = spec_items(items@);
        let mut out: Vec<BlockMeta> = Vec::new();
        let mut i: usize = 0;
        while i < items.len()
            invariant
                i <= items@.len(),
                its == spec_items(items@),
                spec_unframe(bytes@) == Some(its),
                spec_items_fit(its),
                out@.len() == i,
                forall|j: int| 0 <= j < i ==> (#[trigger] its[j]).len() >= 4,
                forall|j: int|
                    0 <= j < i ==> (#[trigger] spec_metas(out@)[j]) == spec_meta_of_item(its[j]),
            decreases items@.len() - i,
        {
            let item: &[u8] = items[i].as_slice();
            assert(item@ == its[i as int]);
            if item.len() < 4 {
                return None;
            }
            assert(item@.skip(0) =~= item@);
            let offset: u32 = read_u32(item, 0);
            let first_key: Vec<u8> = slice_to_vec(slice_subrange(item, 4, item.len()));
            assert(first_key@ =~= item@.skip(4));
            let ghost before = out@;
            out.push(BlockMeta { offset, first_key });
            proof {
                assert forall|j: int| 0 <= j < i + 1 implies (#[trigger] spec_metas(out@)[j])
                    == spec_meta_of_item(its[j]) by {
                    if j < i {
                        assert(spec_metas(before)[j] == spec_meta_of_item(its[j]));
                        assert(out@[j] == before[j]);
                    }
                }
            }
            i += 1;
        }
        assert(spec_metas(out@) =~= Seq::new(its.len(), |i: int| spec_meta_of_item(its[i])));
        Some(out)
    }
}

} // verus!
