//! The table builder: takes entries in ascending key order, packs them into
//! blocks, and assembles the table.

use vstd::prelude::*;
use vstd::slice::slice_to_vec;
use crate::block::{spec_block_wf, spec_block_within, spec_entry_fits, BlockBuilder};
use crate::codec::{append_bytes, lemma_unframe_frame, put_u32, spec_frame, spec_u32_be};
use crate::keys::{
    key_less, lemma_key_le_le, lemma_key_le_lt, lemma_key_lt_asymmetric, lemma_key_lt_irreflexive,
    lemma_key_lt_le, spec_key_lt,
};
use crate::meta::{spec_encode_index, spec_metas, spec_metas_fit, BlockMeta, TableError};
use crate::table::{spec_index_ordered, FileObject, SsTable};

verus! {

/// The entries of the blocks, one block after the other.
pub open spec fn spec_concat(blocks: Seq<Seq<Seq<u8>>>) -> Seq<Seq<u8>>
    decreases blocks.len(),
{
    if blocks.len() == 0 {
        Seq::empty()
    } else {
        spec_concat(blocks.drop_last()) + blocks.last()
    }
}

/// The encodings of the blocks, one after the other.
pub open spec fn spec_frames(blocks: Seq<Seq<Seq<u8>>>) -> Seq<u8>
    decreases blocks.len(),
{
    if blocks.len() == 0 {
        Seq::empty()
    } else {
        spec_frames(blocks.drop_last()) + spec_frame(blocks.last())
    }
}

/// Where block `i` ends in a data region of `data_len` bytes.
pub open spec fn spec_end(es: Seq<(u32, Seq<u8>)>, data_len: int, i: int) -> int {
    if i + 1 < es.len() {
        es[i + 1].0 as int
    } else {
        data_len
    }
}

/// The index and the data region hold exactly the given blocks: each block
/// is well formed and not empty, starts where the one before it ends, lies
/// encoded at its offset, and has its first key in the index.
pub open spec fn spec_holds(es: Seq<(u32, Seq<u8>)>, data: Seq<u8>, blocks: Seq<Seq<Seq<u8>>>) -> bool {
    &&& es.len() == blocks.len()
    &&& es.len() > 0 ==> es[0].0 == 0
    &&& forall|i: int|
        0 <= i < es.len() ==> {
            &&& spec_block_wf(#[trigger] blocks[i])
            &&& blocks[i].len() >= 2
            &&& blocks[i][0] == es[i].1
            &&& es[i].0 + spec_frame(blocks[i]).len() == spec_end(es, data.len() as int, i)
            &&& data.subrange(es[i].0 as int, spec_end(es, data.len() as int, i)) == spec_frame(
                blocks[i],
            )
        }
}

/// Every block holds one entry, or its encoding is within `block_size`.
pub open spec fn spec_blocks_within(blocks: Seq<Seq<Seq<u8>>>, block_size: int) -> bool {
    forall|i: int| 0 <= i < blocks.len() ==> spec_block_within(#[trigger] blocks[i], block_size)
}

/// The error with which an entry is turned away, if it is: its key comes
/// before the last one taken, or the table with it would be longer than a
/// 32-bit offset can say, which no block can hold.
pub open spec fn spec_add_error(
    entries: Seq<Seq<u8>>,
    stored: int,
    key: Seq<u8>,
    value: Seq<u8>,
) -> Option<TableError> {
    if entries.len() > 0 && spec_key_lt(key, entries[entries.len() - 2]) {
        Some(TableError::OrderingViolation)
    } else if stored + 8 + key.len() + value.len() > u32::MAX {
        Some(TableError::CapacityViolation)
    } else {
        None
    }
}

/// Builds a table from entries that come in ascending key order.
pub struct SsTableBuilder {
    meta: Vec<BlockMeta>,
    builder: BlockBuilder,
    first_key: Vec<u8>,
    last_key: Vec<u8>,
    data: Vec<u8>,
    block_size: usize,
    blocks: Ghost<Seq<Seq<Seq<u8>>>>,
}

impl SsTableBuilder {
    /// The finished blocks, each as keys and values alternating.
    pub closed spec fn spec_blocks(&self) -> Seq<Seq<Seq<u8>>> {
        self.blocks@
    }

    /// The entries of the block in progress.
    pub closed spec fn spec_pending(&self) -> Seq<Seq<u8>> {
        self.builder@
    }

    /// The encoded bytes of the finished blocks.
    pub closed spec fn spec_data(&self) -> Seq<u8> {
        self.data@
    }

    /// The index entries of the finished blocks.
    pub closed spec fn spec_index(&self) -> Seq<(u32, Seq<u8>)> {
        spec_metas(self.meta@)
    }

    /// The first key of the block in progress; empty while that block has
    /// no entry.
    pub closed spec fn spec_first_key(&self) -> Seq<u8> {
        self.first_key@
    }

    /// The key of the entry taken last.
    pub closed spec fn spec_last_key(&self) -> Seq<u8> {
        self.last_key@
    }

    /// The threshold for a block's encoding.
    pub closed spec fn spec_block_size(&self) -> int {
        self.block_size as int
    }

    /// Every entry taken so far, in the order of arrival, keys and values
    /// alternating.
    pub open spec fn spec_entries(&self) -> Seq<Seq<u8>> {
        spec_concat(self.spec_blocks()) + self.spec_pending()
    }

    /// The blocks that the table will have: the finished ones, and the one
    /// in progress if it has entries.
    pub open spec fn spec_all_blocks(&self) -> Seq<Seq<Seq<u8>>> {
        if self.spec_pending().len() == 0 {
            self.spec_blocks()
        } else {
            self.spec_blocks().push(self.spec_pending())
        }
    }

    /// The first keys ascend strictly: those in the index from block to
    /// block, and that of the block in progress after all of them. A block
    /// in progress without entries comes before the first block only.
    pub open spec fn spec_first_keys_ascend(&self) -> bool {
        &&& forall|i: int, j: int|
            0 <= i < j < self.spec_index().len() ==> spec_key_lt(
                (#[trigger] self.spec_index()[i]).1,
                (#[trigger] self.spec_index()[j]).1,
            )
        &&& self.spec_pending().len() > 0 ==> forall|i: int|
            0 <= i < self.spec_index().len() ==> spec_key_lt(
                (#[trigger] self.spec_index()[i]).1,
                self.spec_first_key(),
            )
        &&& self.spec_pending().len() == 0 ==> self.spec_index().len() == 0
    }

    /// The number of bytes that all entries taken so far encode to.
    pub open spec fn spec_stored(&self) -> int {
        (self.spec_data().len() + spec_frame(self.spec_pending()).len()) as int
    }

    pub closed spec fn wf(&self) -> bool {
        &&& self.builder.wf()
        &&& self.builder.spec_block_size() == self.block_size
        &&& self.data@.len() + spec_frame(self.builder@).len() <= u32::MAX
        &&& self.data@ == spec_frames(self.blocks@)
        &&& spec_holds(spec_metas(self.meta@), self.data@, self.blocks@)
        &&& spec_index_ordered(spec_metas(self.meta@), self.data@.len() as int)
        &&& spec_metas_fit(spec_metas(self.meta@))
        &&& spec_blocks_within(self.blocks@, self.block_size as int)
        &&& self.builder@.len() == 0 ==> self.first_key@.len() == 0
        &&& self.builder@.len() > 0 ==> {
            &&& self.first_key@ == self.builder@[0]
            &&& self.first_key@.len() + 4 <= u32::MAX
            &&& !spec_key_lt(self.last_key@, self.first_key@)
        }
        &&& self.spec_entries().len() > 0 ==> self.last_key@ == self.spec_entries()[
            self.spec_entries().len() - 2
        ]
        &&& forall|i: int|
            0 <= i < self.meta@.len() ==> {
                &&& !spec_key_lt(self.last_key@, (#[trigger] spec_metas(self.meta@)[i]).1)
                &&& self.builder@.len() > 0 ==> !spec_key_lt(
                    self.first_key@,
                    spec_metas(self.meta@)[i].1,
                )
            }
    }

    /// What a well-formed builder holds: the finished blocks lie in the data
    /// region as the index says, in ascending order, and the block in
    /// progress is well formed.
    pub proof fn lemma_wf(&self)
        requires
            self.wf(),
        ensures
            spec_holds(self.spec_index(), self.spec_data(), self.spec_blocks()),
            spec_index_ordered(self.spec_index(), self.spec_data().len() as int),
            self.spec_data() == spec_frames(self.spec_blocks()),
            spec_block_wf(self.spec_pending()),
            self.spec_stored() <= u32::MAX,
            spec_blocks_within(self.spec_all_blocks(), self.spec_block_size()),
            self.spec_pending().len() == 0 ==> self.spec_first_key().len() == 0,
            self.spec_pending().len() > 0 ==> self.spec_first_key() == self.spec_pending()[0],
            self.spec_entries().len() > 0 ==> self.spec_last_key() == self.spec_entries()[
                self.spec_entries().len() - 2
            ],
    {
        self.builder.lemma_wf();
    }

    /// A builder without entries, for blocks of at most `block_size` bytes.
    pub fn new(block_size: usize) -> (r: SsTableBuilder)
        ensures
            r.wf(),
            r.spec_block_size() == block_size,
            r.spec_blocks() == Seq::<Seq<Seq<u8>>>::empty(),
            r.spec_pending() == Seq::<Seq<u8>>::empty(),
            r.spec_data() == Seq::<u8>::empty(),
            r.spec_index() == Seq::<(u32, Seq<u8>)>::empty(),
            r.spec_entries() == Seq::<Seq<u8>>::empty(),
    {
        let r = SsTableBuilder {
            meta: Vec::new(),
            builder: BlockBuilder::new(block_size),
            first_key: Vec::new(),
            last_key: Vec::new(),
            data: Vec::new(),
            block_size,
            blocks: Ghost(Seq::empty()),
        };
        proof {
            assert(spec_metas(r.meta@) =~= Seq::<(u32, Seq<u8>)>::empty());
            assert(r.spec_entries() =~= Seq::<Seq<u8>>::empty());
            assert(spec_frame(r.builder@) =~= Seq::<u8>::empty());
            assert(r.data@ =~= spec_frames(r.blocks@));
        }
        r
    }

    /// Takes an entry. The key may not come before the last one taken, and
    /// the table with the entry may not be longer than a 32-bit offset can
    /// say. Where the block in progress has entries and no room for this
    /// one, that block is finished first and the entry opens the next one;
    /// an entry larger than the block size so gets a block of its own.
    pub fn add(&mut self, key: &[u8], value: &[u8]) -> (r: Result<(), TableError>)
        requires
            old(self).wf(),
        ensures
            final(self).wf(),
            final(self).spec_block_size() == old(self).spec_block_size(),
            r == match spec_add_error(
                old(self).spec_entries(),
                old(self).spec_stored(),
                key@,
                value@,
            ) {
                Some(e) => Err::<(), TableError>(e),
                None => Ok(()),
            },
            r.is_err() ==> *final(self) == *old(self),
            old(self).spec_data().len() <= final(self).spec_data().len(),
            r.is_ok() ==> final(self).spec_entries() == old(self).spec_entries().push(key@).push(
                value@,
            ),
            r.is_ok() ==> if spec_entry_fits(
                spec_frame(old(self).spec_pending()).len() as int,
                old(self).spec_block_size(),
                key@.len() as int,
                value@.len() as int,
            ) {
                &&& final(self).spec_blocks() == old(self).spec_blocks()
                &&& final(self).spec_pending() == old(self).spec_pending().push(key@).push(value@)
                &&& final(self).spec_data() == old(self).spec_data()
                &&& final(self).spec_first_key() == if old(self).spec_pending().len() == 0 {
                    key@
                } else {
                    old(self).spec_first_key()
                }
                &&& final(self).spec_index() == old(self).spec_index()
            } else {
                &&& final(self).spec_blocks() == old(self).spec_blocks().push(
                    old(self).spec_pending(),
                )
                &&& final(self).spec_pending() == seq![key@, value@]
                &&& final(self).spec_data() == old(self).spec_data() + spec_frame(
                    old(self).spec_pending(),
                )
                &&& final(self).spec_first_key() == key@
                &&& final(self).spec_index() == old(self).spec_index().push(
                    (old(self).spec_data().len() as u32, old(self).spec_first_key()),
                )
            },
            r.is_ok() ==> final(self).spec_last_key() == key@,
            r.is_ok() && old(self).spec_first_keys_ascend() && (old(self).spec_entries().len() > 0
                ==> spec_key_lt(old(self).spec_last_key(), key@))
                ==> final(self).spec_first_keys_ascend(),
    {
        match self.rejection(key, value) {
            Some(e) => {
                return Err(e);
            },
            None => {},
        }
        let ghost before = *self;
        proof {
            self.builder.lemma_wf();
            self.lemma_entries();
        }
        if !self.builder.fits(key, value) {
            assert(spec_frame(Seq::<Seq<u8>>::empty()) =~= Seq::<u8>::empty());
            self.finish_block();
            proof {
                self.lemma_entries();
                assert(spec_frame(self.builder@) =~= Seq::<u8>::empty());
            }
            self.take(key, value);
            assert(self.spec_pending() =~= seq![key@, value@]);
            proof {
                if before.spec_first_keys_ascend() && spec_key_lt(before.spec_last_key(), key@) {
                    before.lemma_ascent_kept(*self, key@);
                }
            }
        } else {
            self.take(key, value);
        }
        Ok(())
    }

    /// The error with which the entry is turned away, if it is.
    pub fn rejection(&self, key: &[u8], value: &[u8]) -> (r: Option<TableError>)
        requires
            self.wf(),
        ensures
            r == spec_add_error(
                self.spec_entries(),
                self.spec_stored(),
                key@,
                value@,
            ),
    {
        proof {
            self.builder.lemma_wf();
            self.lemma_entries();
        }
        let has_entries: bool = self.meta.len() > 0 || !self.builder.is_empty();
        if has_entries && key_less(key, self.last_key.as_slice()) {
            return Some(TableError::OrderingViolation);
        }
        let stored: usize = self.data.len() + self.builder.estimated_size();
        let limit: usize = u32::MAX as usize;
        if limit - stored < 8 || limit - stored - 8 < key.len() || limit - stored - 8 - key.len()
            < value.len() {
            return Some(TableError::CapacityViolation);
        }
        None
    }

    /// Puts an entry that was not turned away into the block in progress,
    /// which has room for it.
    fn take(&mut self, key: &[u8], value: &[u8])
        requires
            old(self).wf(),
            spec_add_error(
                old(self).spec_entries(),
                old(self).spec_stored(),
                key@,
                value@,
            ).is_none(),
            spec_entry_fits(
                spec_frame(old(self).spec_pending()).len() as int,
                old(self).spec_block_size(),
                key@.len() as int,
                value@.len() as int,
            ),
        ensures
            final(self).wf(),
            final(self).spec_block_size() == old(self).spec_block_size(),
            final(self).spec_blocks() == old(self).spec_blocks(),
            final(self).spec_pending() == old(self).spec_pending().push(key@).push(value@),
            final(self).spec_data() == old(self).spec_data(),
            final(self).spec_entries() == old(self).spec_entries().push(key@).push(value@),
            final(self).spec_last_key() == key@,
            final(self).spec_first_key() == if old(self).spec_pending().len() == 0 {
                key@
            } else {
                old(self).spec_first_key()
            },
            final(self).spec_index() == old(self).spec_index(),
    {
        proof {
            self.builder.lemma_wf();
            self.lemma_entries();
            if self.spec_entries().len() > 0 {
                assert forall|i: int| 0 <= i < self.meta@.len() implies !spec_key_lt(
                    key@,
                    (#[trigger] spec_metas(self.meta@)[i]).1,
                ) by {
                    lemma_key_le_le(spec_metas(self.meta@)[i].1, self.last_key@, key@);
                }
                if self.builder@.len() > 0 {
                    lemma_key_le_le(self.first_key@, self.last_key@, key@);
                }
            }
            lemma_key_lt_irreflexive(key@);
            crate::codec::lemma_frame_push(self.builder@, key@);
            crate::codec::lemma_frame_push(self.builder@.push(key@), value@);
        }
        let was_empty: bool = self.builder.is_empty();
        let added: bool = self.builder.add(key, value);
        assert(added);
        if was_empty {
            self.first_key = slice_to_vec(key);
        }
        self.last_key = slice_to_vec(key);
        proof {
            self.builder.lemma_wf();
            assert(self.spec_entries() =~= old(self).spec_entries().push(key@).push(value@));
        }
    }

    /// Where the first keys ascend strictly and a key after the last one
    /// taken opens the next block, the first keys still ascend strictly.
    proof fn lemma_ascent_kept(&self, after: SsTableBuilder, key: Seq<u8>)
        requires
            self.wf(),
            self.spec_first_keys_ascend(),
            self.spec_pending().len() > 0,
            spec_key_lt(self.spec_last_key(), key),
            after.spec_index().len() == self.spec_index().len() + 1,
            forall|i: int|
                0 <= i < self.spec_index().len() ==> (#[trigger] after.spec_index()[i])
                    == self.spec_index()[i],
            after.spec_index()[self.spec_index().len() as int].1 == self.spec_first_key(),
            after.spec_first_key() == key,
            after.spec_pending().len() > 0,
        ensures
            after.spec_first_keys_ascend(),
    {
        let n = self.spec_index().len() as int;
        let es = after.spec_index();
        lemma_key_lt_asymmetric(self.last_key@, key);
        lemma_key_le_lt(self.first_key@, self.last_key@, key);
        assert forall|i: int| 0 <= i < es.len() implies spec_key_lt((#[trigger] es[i]).1, key) by {
            if i < n {
                assert(es[i] == self.spec_index()[i]);
                lemma_key_lt_le(es[i].1, self.first_key@, self.last_key@);
                lemma_key_lt_le(es[i].1, self.last_key@, key);
            }
        }
        assert forall|i: int, j: int| 0 <= i < j < es.len() implies spec_key_lt(
            (#[trigger] es[i]).1,
            (#[trigger] es[j]).1,
        ) by {
            assert(es[i] == self.spec_index()[i]);
            if j < n {
                assert(es[j] == self.spec_index()[j]);
            }
        }
    }

    /// Whether any entry was taken, read off the blocks.
    proof fn lemma_entries(&self)
        requires
            self.wf(),
        ensures
            self.spec_entries().len() > 0 <==> (self.spec_blocks().len() > 0
                || self.spec_pending().len() > 0),
            self.spec_entries().len() % 2 == 0,
            self.spec_blocks().len() == self.meta@.len(),
    {
        self.builder.lemma_wf();
        lemma_concat_len(self.blocks@);
        if self.blocks@.len() > 0 {
            assert(self.blocks@.last() == self.blocks@[self.blocks@.len() - 1]);
        }
    }

    /// Closes the block in progress: its encoding goes to the end of the
    /// data region, and its offset and first key go into the index.
    fn finish_block(&mut self)
        requires
            old(self).wf(),
            old(self).spec_pending().len() > 0,
        ensures
            final(self).wf(),
            final(self).spec_block_size() == old(self).spec_block_size(),
            final(self).spec_blocks() == old(self).spec_blocks().push(old(self).spec_pending()),
            final(self).spec_pending() == Seq::<Seq<u8>>::empty(),
            final(self).spec_data() == old(self).spec_data() + spec_frame(
                old(self).spec_pending(),
            ),
            final(self).spec_index() == old(self).spec_index().push(
                (old(self).spec_data().len() as u32, old(self).first_key@),
            ),
            final(self).spec_first_key() == Seq::<u8>::empty(),
            final(self).spec_last_key() == old(self).spec_last_key(),
            final(self).spec_entries() == old(self).spec_entries(),
    {
        proof {
            self.builder.lemma_wf();
        }
        let ghost pending = self.builder@;
        let ghost old_es = spec_metas(self.meta@);
        let ghost old_data = self.data@;
        let ghost old_blocks = self.blocks@;
        let mut builder = BlockBuilder::new(self.block_size);
        std::mem::swap(&mut self.builder, &mut builder);
        let encoded_block: Vec<u8> = builder.build().encode();
        let mut first_key: Vec<u8> = Vec::new();
        std::mem::swap(&mut self.first_key, &mut first_key);
        let offset: u32 = self.data.len() as u32;
        self.meta.push(BlockMeta { offset, first_key });
        append_bytes(&mut self.data, encoded_block.as_slice());
        self.blocks = Ghost(old_blocks.push(pending));
        proof {
            let es = spec_metas(self.meta@);
            let data = self.data@;
            let blocks = self.blocks@;
            let n = old_es.len() as int;
            assert(es =~= old_es.push((old_data.len() as u32, old(self).first_key@)));
            assert(blocks.drop_last() =~= old_blocks);
            assert(spec_frame(self.builder@) =~= Seq::<u8>::empty());
            assert forall|i: int| 0 <= i < es.len() implies {
                &&& spec_block_wf(#[trigger] blocks[i])
                &&& blocks[i].len() >= 2
                &&& blocks[i][0] == es[i].1
                &&& es[i].0 + spec_frame(blocks[i]).len() == spec_end(es, data.len() as int, i)
                &&& data.subrange(es[i].0 as int, spec_end(es, data.len() as int, i))
                    == spec_frame(blocks[i])
            } by {
                if i < n {
                    assert(blocks[i] == old_blocks[i]);
                    assert(es[i] == old_es[i]);
                    assert(spec_end(es, data.len() as int, i) == spec_end(
                        old_es,
                        old_data.len() as int,
                        i,
                    ));
                    assert(data.subrange(es[i].0 as int, spec_end(es, data.len() as int, i))
                        =~= old_data.subrange(
                        old_es[i].0 as int,
                        spec_end(old_es, old_data.len() as int, i),
                    ));
                } else {
                    assert(data.subrange(es[i].0 as int, spec_end(es, data.len() as int, i))
                        =~= spec_frame(pending));
                }
            }
            assert(spec_index_ordered(es, data.len() as int)) by {
                assert forall|i: int, j: int| 0 <= i < j < es.len() implies (#[trigger] es[i]).0
                    <= (#[trigger] es[j]).0 && !spec_key_lt(es[j].1, es[i].1) by {
                    assert(es[i] == old_es[i]);
                    if j < n {
                        assert(es[j] == old_es[j]);
                    }
                }
                assert forall|i: int| 0 <= i < es.len() implies (#[trigger] es[i]).0
                    <= data.len() by {
                    if i < n {
                        assert(es[i] == old_es[i]);
                    }
                }
            }
            assert(spec_metas_fit(es)) by {
                assert forall|i: int| 0 <= i < es.len() implies (#[trigger] es[i]).1.len() + 4
                    <= u32::MAX by {
                    if i < n {
                        assert(es[i] == old_es[i]);
                    }
                }
            }
            assert(self.spec_entries() =~= old(self).spec_entries());
            assert forall|i: int| 0 <= i < self.meta@.len() implies !spec_key_lt(
                self.last_key@,
                (#[trigger] spec_metas(self.meta@)[i]).1,
            ) by {
                if i < n {
                    assert(es[i] == old_es[i]);
                }
            }
        }
    }

    /// The number of bytes in the data region so far. The block in progress
    /// does not count until it is finished.
    pub fn estimated_size(&self) -> (r: usize)
        ensures
            r == self.spec_data().len(),
    {
        self.data.len()
    }

    /// Finishes the block in progress, if it has entries, and assembles the
    /// table: the data region, the encoded index, and the offset of the
    /// index in four big-endian bytes.
    pub fn build(self, id: usize) -> (r: SsTable)
        requires
            self.wf(),
        ensures
            r.wf(),
            r.spec_id() == id,
            r.spec_index_offset() == self.spec_stored(),
            r.spec_file() == spec_frames(self.spec_all_blocks()) + spec_encode_index(
                r.spec_index(),
            ) + spec_u32_be(self.spec_stored() as u32),
            spec_holds(
                r.spec_index(),
                r.spec_file().take(r.spec_index_offset()),
                self.spec_all_blocks(),
            ),
            r.spec_num_blocks() == self.spec_all_blocks().len(),
            r.spec_blocks() == self.spec_all_blocks(),
            r.spec_sound(),
            spec_metas_fit(r.spec_index()),
            spec_blocks_within(r.spec_blocks(), self.spec_block_size()),
            spec_concat(r.spec_blocks()) == self.spec_entries(),
    {
        let ghost start = self;
        let mut this = self;
        proof {
            this.builder.lemma_wf();
        }
        if !this.builder.is_empty() {
            this.finish_block();
        }
        let ghost blocks = this.blocks@;
        let ghost data = this.data@;
        let ghost es = spec_metas(this.meta@);
        assert(blocks == start.spec_all_blocks());
        assert(data.len() == start.spec_stored()) by {
            assert(spec_frame(Seq::<Seq<u8>>::empty()) =~= Seq::<u8>::empty());
        }
        let mut buf: Vec<u8> = this.data;
        let meta_offset: usize = buf.len();
        BlockMeta::encode_block_meta(&this.meta, &mut buf);
        put_u32(&mut buf, meta_offset as u32);
        let file = FileObject::create(buf);
        let table = SsTable::assemble(id, file, this.meta, meta_offset);
        proof {
            assert(table.spec_file().take(meta_offset as int) =~= data);
            lemma_built(table, data, blocks);
            assert(spec_concat(blocks) =~= start.spec_entries()) by {
                if start.spec_pending().len() > 0 {
                    assert(blocks.drop_last() =~= start.spec_blocks());
                }
            }
        }
        table
    }

    /// Builds the table under the identifier 0.
    pub fn build_for_test(self) -> (r: SsTable)
        requires
            self.wf(),
        ensures
            r.wf(),
            r.spec_id() == 0,
            r.spec_index_offset() == self.spec_stored(),
            r.spec_file() == spec_frames(self.spec_all_blocks()) + spec_encode_index(
                r.spec_index(),
            ) + spec_u32_be(self.spec_stored() as u32),
            r.spec_blocks() == self.spec_all_blocks(),
            r.spec_sound(),
            spec_concat(r.spec_blocks()) == self.spec_entries(),
    {
        self.build(0)
    }
}

/// A table whose index and data region hold the given blocks gives exactly
/// those blocks when they are read and decoded.
pub proof fn lemma_built(t: SsTable, data: Seq<u8>, blocks: Seq<Seq<Seq<u8>>>)
    requires
        0 <= t.spec_index_offset() <= t.spec_file().len(),
        t.spec_index_offset() == data.len(),
        t.spec_file().take(t.spec_index_offset()) == data,
        spec_holds(t.spec_index(), data, blocks),
        spec_index_ordered(t.spec_index(), data.len() as int),
    ensures
        t.spec_blocks() == blocks,
        t.spec_sound(),
{
    let es = t.spec_index();
    assert forall|i: int| 0 <= i < t.spec_num_blocks() implies t.spec_block(i) == Some(
        #[trigger] blocks[i],
    ) by {
        assert(spec_block_wf(blocks[i]));
        assert(t.spec_block_end(i) == spec_end(es, data.len() as int, i));
        assert(es[i].0 <= data.len());
        assert(t.spec_block_bytes(i) =~= data.subrange(
            es[i].0 as int,
            spec_end(es, data.len() as int, i),
        ));
        lemma_unframe_frame(blocks[i]);
    }
    assert(t.spec_blocks() =~= blocks);
    assert forall|i: int| 0 <= i < t.spec_num_blocks() implies {
        &&& (#[trigger] t.spec_block(i)).is_some()
        &&& spec_block_wf(t.spec_block(i).unwrap())
        &&& t.spec_block(i).unwrap().len() >= 2
        &&& t.spec_block(i).unwrap()[0] == t.spec_index()[i].1
    } by {
        assert(t.spec_block(i) == Some(blocks[i]));
    }
}

/// The blocks' entries together are as many as the blocks hold.
pub proof fn lemma_concat_len(blocks: Seq<Seq<Seq<u8>>>)
    ensures
        blocks.len() > 0 ==> spec_concat(blocks).len() >= blocks.last().len(),
        (forall|i: int| 0 <= i < blocks.len() ==> (#[trigger] blocks[i]).len() % 2 == 0)
            ==> spec_concat(blocks).len() % 2 == 0,
    decreases blocks.len(),
{
    if blocks.len() > 0 {
        lemma_concat_len(blocks.drop_last());
        if forall|i: int| 0 <= i < blocks.len() ==> (#[trigger] blocks[i]).len() % 2 == 0 {
            assert forall|i: int| 0 <= i < blocks.drop_last().len() implies (
            #[trigger] blocks.drop_last()[i]).len() % 2 == 0 by {
                assert(blocks.drop_last()[i] == blocks[i]);
            }
            assert(blocks.last() == blocks[blocks.len() - 1]);
        }
    }
}

} // verus!
