//! Blocks: a bounded run of key-value entries, the accumulator that fills
//! one, and a cursor over one.
//!
//! A block is kept as a flat sequence of byte strings in which keys and
//! values alternate; its encoding is the frame of that sequence.

use vstd::prelude::*;
use crate::codec::{put_frame, spec_frame, spec_items, spec_items_fit, spec_unframe, unframe, lemma_frame_push};
use crate::keys::{key_less, spec_key_lt};
use vstd::slice::slice_to_vec;

verus! {

/// Keys and values alternate, and each is short enough to be framed.
pub open spec fn spec_block_wf(items: Seq<Seq<u8>>) -> bool {
    items.len() % 2 == 0 && spec_items_fit(items)
}

/// The number of entries.
pub open spec fn spec_block_len(items: Seq<Seq<u8>>) -> int {
    items.len() as int / 2
}

/// The key of entry `i`.
pub open spec fn spec_block_key(items: Seq<Seq<u8>>, i: int) -> Seq<u8> {
    items[2 * i]
}

/// The value of entry `i`.
pub open spec fn spec_block_value(items: Seq<Seq<u8>>, i: int) -> Seq<u8> {
    items[2 * i + 1]
}

/// The block that `b` encodes, if it encodes one.
pub open spec fn spec_decode_block(b: Seq<u8>) -> Option<Seq<Seq<u8>>> {
    match spec_unframe(b) {
        None => None,
        Some(items) => if items.len() % 2 == 0 {
            Some(items)
        } else {
            None
        },
    }
}

/// The first entry from `from` on whose key is not before `key`; the number
/// of entries where there is none.
pub open spec fn spec_block_seek(items: Seq<Seq<u8>>, key: Seq<u8>, from: int) -> int
    decreases spec_block_len(items) - from,
{
    if from >= spec_block_len(items) {
        spec_block_len(items)
    } else if !spec_key_lt(spec_block_key(items, from), key) {
        from
    } else {
        spec_block_seek(items, key, from + 1)
    }
}

/// What `spec_block_seek` finds: every entry between `from` and it has a
/// key before `key`, and the entry it names has not.
pub proof fn lemma_block_seek(items: Seq<Seq<u8>>, key: Seq<u8>, from: int)
    requires
        0 <= from <= spec_block_len(items),
    ensures
        from <= spec_block_seek(items, key, from) <= spec_block_len(items),
        forall|j: int|
            from <= j < spec_block_seek(items, key, from) ==> spec_key_lt(
                #[trigger] spec_block_key(items, j),
                key,
            ),
        spec_block_seek(items, key, from) < spec_block_len(items) ==> !spec_key_lt(
            spec_block_key(items, spec_block_seek(items, key, from)),
            key,
        ),
    decreases spec_block_len(items) - from,
{
    if from < spec_block_len(items) && spec_key_lt(spec_block_key(items, from), key) {
        lemma_block_seek(items, key, from + 1);
    }
}

/// Whether a block of `size` encoded bytes takes an entry of the given
/// sizes. A block without entries takes any entry whose encoding a 32-bit
/// length can count; a block with entries takes one only where its encoding
/// stays within `block_size`.
pub open spec fn spec_entry_fits(size: int, block_size: int, klen: int, vlen: int) -> bool {
    8 + klen + vlen <= u32::MAX && (size == 0 || size + 8 + klen + vlen <= block_size)
}

/// The block holds one entry, or its encoding is within `block_size`.
pub open spec fn spec_block_within(items: Seq<Seq<u8>>, block_size: int) -> bool {
    items.len() <= 2 || spec_frame(items).len() <= block_size
}

/// An immutable block of entries.
pub struct Block {
    items: Vec<Vec<u8>>,
}

impl Block {
    /// Keys and values, alternating.
    pub closed spec fn view(&self) -> Seq<Seq<u8>> {
        spec_items(self.items@)
    }

    pub open spec fn wf(&self) -> bool {
        spec_block_wf(self@)
    }

    /// A block without entries.
    pub fn empty() -> (r: Block)
        ensures
            r.wf(),
            r@ == Seq::<Seq<u8>>::empty(),
    {
        let r = Block { items: Vec::new() };
        assert(spec_items(r.items@) =~= Seq::<Seq<u8>>::empty());
        r
    }

    /// The number of entries.
    pub fn len(&self) -> (r: usize)
        ensures
            r == spec_block_len(self@),
    {
        self.items.len() / 2
    }

    /// The key of entry `i`.
    pub fn key(&self, i: usize) -> (r: &[u8])
        requires
            self.wf(),
            i < spec_block_len(self@),
        ensures
            r@ == spec_block_key(self@, i as int),
    {
        let n: usize = self.items.len();
        assert(spec_items(self.items@).len() == n);
        assert(spec_items(self.items@)[2 * i] == self.items@[2 * i]@);
        self.items[2 * i].as_slice()
    }

    /// The value of entry `i`.
    pub fn value(&self, i: usize) -> (r: &[u8])
        requires
            self.wf(),
            i < spec_block_len(self@),
        ensures
            r@ == spec_block_value(self@, i as int),
    {
        let n: usize = self.items.len();
        assert(spec_items(self.items@).len() == n);
        assert(spec_items(self.items@)[2 * i + 1] == self.items@[2 * i + 1]@);
        self.items[2 * i + 1].as_slice()
    }

    /// The bytes that stand for this block.
    pub fn encode(&self) -> (r: Vec<u8>)
        requires
            self.wf(),
        ensures
            r@ == spec_frame(self@),
    {
        let mut out: Vec<u8> = Vec::new();
        put_frame(&mut out, &self.items);
        assert(out@ =~= spec_frame(self@));
        out
    }

    /// Reads a block back from its bytes; `None` where they encode none.
    pub fn decode(bytes: &[u8]) -> (r: Option<Block>)
        ensures
            match r {
                Some(b) => b.wf() && spec_decode_block(bytes@) == Some(b@),
                None => spec_decode_block(bytes@).is_none(),
            },
    {
        match unframe(bytes) {
            None => None,
            Some(items) => {
                if items.len() % 2 == 0 {
                    Some(Block { items })
                } else {
                    None
                }
            },
        }
    }
}

/// Accumulates entries up to a size threshold. The first entry is always
/// taken, so that an entry larger than the threshold gets a block of its
/// own.
pub struct BlockBuilder {
    items: Vec<Vec<u8>>,
    size: usize,
    block_size: usize,
}

impl BlockBuilder {
    /// The entries taken so far, keys and values alternating.
    pub closed spec fn view(&self) -> Seq<Seq<u8>> {
        spec_items(self.items@)
    }

    /// The threshold that the encoded block may not pass once it holds
    /// more than one entry.
    pub closed spec fn spec_block_size(&self) -> int {
        self.block_size as int
    }

    pub closed spec fn wf(&self) -> bool {
        &&& spec_block_wf(spec_items(self.items@))
        &&& self.size == spec_frame(spec_items(self.items@)).len()
        &&& self.items@.len() > 2 ==> self.size <= self.block_size
        &&& self.items@.len() <= 2 ==> self.size <= u32::MAX
    }

    /// A well-formed accumulator holds a well-formed block, which has one
    /// entry or is within the threshold, and whose encoding is empty exactly
    /// when it has no entry.
    pub proof fn lemma_wf(&self)
        requires
            self.wf(),
        ensures
            spec_block_wf(self@),
            spec_block_within(self@, self.spec_block_size()),
            self@.len() == 0 <==> spec_frame(self@).len() == 0,
    {
        if self@.len() > 0 {
            assert(spec_frame(self@).len() >= 4);
        }
    }

    /// An empty accumulator for blocks of at most `block_size` bytes.
    pub fn new(block_size: usize) -> (r: BlockBuilder)
        ensures
            r.wf(),
            r@ == Seq::<Seq<u8>>::empty(),
            r.spec_block_size() == block_size,
    {
        let r = BlockBuilder { items: Vec::new(), size: 0, block_size };
        assert(spec_items(r.items@) =~= Seq::<Seq<u8>>::empty());
        r
    }

    /// Whether the block takes one more entry of this key and value: the
    /// first entry always, as far as it can be encoded, and a later one
    /// where the block stays within its threshold with it.
    pub fn fits(&self, key: &[u8], value: &[u8]) -> (r: bool)
        requires
            self.wf(),
        ensures
            r == spec_entry_fits(
                spec_frame(self@).len() as int,
                self.spec_block_size(),
                key@.len() as int,
                value@.len() as int,
            ),
    {
        proof {
            self.lemma_wf();
        }
        let limit: usize = u32::MAX as usize - 8;
        if key.len() > limit || value.len() > limit - key.len() {
            return false;
        }
        if self.items.len() == 0 {
            return true;
        }
        if self.size > self.block_size {
            return false;
        }
        let room: usize = self.block_size - self.size;
        !(room < 8 || room - 8 < key.len() || room - 8 - key.len() < value.len())
    }

    /// Takes the entry if the block has no entry yet or stays within its
    /// threshold with it, and says whether it did.
    pub fn add(&mut self, key: &[u8], value: &[u8]) -> (r: bool)
        requires
            old(self).wf(),
        ensures
            final(self).wf(),
            final(self).spec_block_size() == old(self).spec_block_size(),
            r == spec_entry_fits(
                spec_frame(old(self)@).len() as int,
                old(self).spec_block_size(),
                key@.len() as int,
                value@.len() as int,
            ),
            r ==> final(self)@ == old(self)@.push(key@).push(value@),
            !r ==> final(self)@ == old(self)@,
    {
        if !self.fits(key, value) {
            return false;
        }
        proof {
            self.lemma_wf();
            let items = spec_items(self.items@);
            lemma_frame_push(items, key@);
            lemma_frame_push(items.push(key@), value@);
            crate::codec::lemma_u32_be_round_trip(key@.len() as u32);
            crate::codec::lemma_u32_be_round_trip(value@.len() as u32);
        }
        let ghost before = spec_items(self.items@);
        self.items.push(slice_to_vec(key));
        self.items.push(slice_to_vec(value));
        self.size = self.size + 8 + key.len() + value.len();
        assert(spec_items(self.items@) =~= before.push(key@).push(value@));
        true
    }

    /// The length of the block's encoding as it stands.
    pub fn estimated_size(&self) -> (r: usize)
        requires
            self.wf(),
        ensures
            r == spec_frame(self@).len(),
    {
        self.size
    }

    /// Whether no entry was taken yet.
    pub fn is_empty(&self) -> (r: bool)
        ensures
            r == (self@.len() == 0),
    {
        self.items.len() == 0
    }

    /// The block of the entries taken.
    pub fn build(self) -> (r: Block)
        requires
            self.wf(),
        ensures
            r.wf(),
            r@ == self@,
    {
        Block { items: self.items }
    }
}

/// A cursor over the entries of one block.
pub struct BlockIterator {
    block: Block,
    idx: usize,
}

impl BlockIterator {
    /// The block's entries.
    pub closed spec fn spec_items(&self) -> Seq<Seq<u8>> {
        self.block@
    }

    /// The entry the cursor stands at; the number of entries once it has
    /// left the block.
    pub closed spec fn spec_idx(&self) -> int {
        self.idx as int
    }

    pub closed spec fn wf(&self) -> bool {
        self.block.wf() && self.idx <= spec_block_len(self.block@)
    }

    /// A well-formed cursor stands within its block or right behind it.
    pub proof fn lemma_wf(&self)
        requires
            self.wf(),
        ensures
            spec_block_wf(self.spec_items()),
            0 <= self.spec_idx() <= spec_block_len(self.spec_items()),
    {
    }

    /// A cursor at the block's first entry.
    pub fn create_and_seek_to_first(block: Block) -> (r: BlockIterator)
        requires
            block.wf(),
        ensures
            r.wf(),
            r.spec_items() == block@,
            r.spec_idx() == 0,
    {
        BlockIterator { block, idx: 0 }
    }

    /// A cursor at the first entry whose key is not before `key`.
    pub fn create_and_seek_to_key(block: Block, key: &[u8]) -> (r: BlockIterator)
        requires
            block.wf(),
        ensures
            r.wf(),
            r.spec_items() == block@,
            r.spec_idx() == spec_block_seek(block@, key@, 0),
    {
        let mut it = BlockIterator { block, idx: 0 };
        it.seek_to_key(key);
        it
    }

    /// Moves to the block's first entry.
    pub fn seek_to_first(&mut self)
        requires
            old(self).wf(),
        ensures
            final(self).wf(),
            final(self).spec_items() == old(self).spec_items(),
            final(self).spec_idx() == 0,
    {
        self.idx = 0;
    }

    /// Moves to the first entry whose key is not before `key`.
    pub fn seek_to_key(&mut self, key: &[u8])
        requires
            old(self).wf(),
        ensures
            final(self).wf(),
            final(self).spec_items() == old(self).spec_items(),
            final(self).spec_idx() == spec_block_seek(old(self).spec_items(), key@, 0),
    {
        let n: usize = self.block.len();
        let mut i: usize = 0;
        while i < n && key_less(self.block.key(i), key)
            invariant
                self.block.wf(),
                n == spec_block_len(self.block@),
                i <= n,
                spec_block_seek(self.block@, key@, 0) == spec_block_seek(
                    self.block@,
                    key@,
                    i as int,
                ),
            decreases n - i,
        {
            i += 1;
        }
        self.idx = i;
    }

    /// Whether the cursor stands at an entry.
    pub fn is_valid(&self) -> (r: bool)
        requires
            self.wf(),
        ensures
            r == (self.spec_idx() < spec_block_len(self.spec_items())),
    {
        self.idx < self.block.len()
    }

    /// Whether the cursor stands at the block's last entry.
    pub fn is_last(&self) -> (r: bool)
        requires
            self.wf(),
        ensures
            r == (self.spec_idx() + 1 == spec_block_len(self.spec_items())),
    {
        self.idx < self.block.len() && self.idx + 1 == self.block.len()
    }

    /// The key of the entry the cursor stands at.
    pub fn key(&self) -> (r: &[u8])
        requires
            self.wf(),
            self.spec_idx() < spec_block_len(self.spec_items()),
        ensures
            r@ == spec_block_key(self.spec_items(), self.spec_idx()),
    {
        self.block.key(self.idx)
    }

    /// The value of the entry the cursor stands at.
    pub fn value(&self) -> (r: &[u8])
        requires
            self.wf(),
            self.spec_idx() < spec_block_len(self.spec_items()),
        ensures
            r@ == spec_block_value(self.spec_items(), self.spec_idx()),
    {
        self.block.value(self.idx)
    }

    /// Moves one entry on; a cursor that has left the block stays there.
    pub fn next(&mut self)
        requires
            old(self).wf(),
        ensures
            final(self).wf(),
            final(self).spec_items() == old(self).spec_items(),
            final(self).spec_idx() == if old(self).spec_idx() < spec_block_len(
                old(self).spec_items(),
            ) {
                old(self).spec_idx() + 1
            } else {
                old(self).spec_idx()
            },
    {
        if self.idx < self.block.len() {
            self.idx += 1;
        }
    }
}

} // verus!
