//! The table cursor: a block index and a cursor within that block, which
//! together walk the table's entries in order and can be set to a key.

use vstd::prelude::*;
use std::sync::Arc;
use crate::block::{spec_block_key, spec_block_len, spec_block_seek, spec_block_value, Block, BlockIterator};
use crate::meta::TableError;
use crate::table::{spec_find_block_idx, SsTable};

verus! {

/// Where a cursor set to the table's start stands: in block 0 at entry 0,
/// or behind the last block of a table without blocks. `None` where the
/// block does not decode.
pub open spec fn spec_first(t: SsTable) -> Option<(int, int)> {
    if t.spec_num_blocks() == 0 {
        Some((0, 0))
    } else {
        match t.spec_block(0) {
            None => None,
            Some(_) => Some((0, 0)),
        }
    }
}

/// Where a cursor that leaves block `idx` goes: to the first entry of the
/// next block, or behind the last block. `None` where the next block does
/// not decode.
pub open spec fn spec_roll(t: SsTable, idx: int) -> Option<(int, int)> {
    if idx + 1 < t.spec_num_blocks() {
        match t.spec_block(idx + 1) {
            None => None,
            Some(_) => Some((idx + 1, 0)),
        }
    } else {
        Some((t.spec_num_blocks(), 0))
    }
}

/// Where a cursor set to `key` stands: in the block that the index gives
/// for `key`, at the first entry whose key is not before `key`; where that
/// block has none, where a cursor that leaves it goes. `None` where a block
/// that is read does not decode.
pub open spec fn spec_seek(t: SsTable, key: Seq<u8>) -> Option<(int, int)> {
    if t.spec_num_blocks() == 0 {
        Some((0, 0))
    } else {
        let idx = spec_find_block_idx(t.spec_index(), key);
        match t.spec_block(idx) {
            None => None,
            Some(items) => {
                let p = spec_block_seek(items, key, 0);
                if p < spec_block_len(items) {
                    Some((idx, p))
                } else {
                    spec_roll(t, idx)
                }
            },
        }
    }
}

/// Whether a position names an entry of the table.
pub open spec fn spec_at_entry(t: SsTable, at: (int, int)) -> bool {
    &&& 0 <= at.0 < t.spec_num_blocks()
    &&& t.spec_block(at.0).is_some()
    &&& 0 <= at.1 < spec_block_len(t.spec_block(at.0).unwrap())
}

/// Where a cursor at an entry stands after one step: at the next entry of
/// its block, and from the block's last entry where a cursor that leaves
/// the block goes.
pub open spec fn spec_step(t: SsTable, at: (int, int)) -> Option<(int, int)> {
    if at.1 + 1 < spec_block_len(t.spec_block(at.0).unwrap()) {
        Some((at.0, at.1 + 1))
    } else {
        spec_roll(t, at.0)
    }
}

/// A cursor over the entries of a table.
pub struct SsTableIterator {
    table: Arc<SsTable>,
    blk_iter: BlockIterator,
    blk_idx: usize,
}

impl SsTableIterator {
    /// The table that the cursor walks.
    pub closed spec fn spec_table(&self) -> SsTable {
        *self.table
    }

    /// The block and the entry in it at which the cursor stands; the number
    /// of blocks and 0 once it has left the last block.
    pub closed spec fn spec_position(&self) -> (int, int) {
        Self::spec_position_of(*self.table, self.blk_idx, self.blk_iter)
    }

    pub closed spec fn wf(&self) -> bool {
        self.table.wf() && Self::spec_loaded(*self.table, self.blk_idx, self.blk_iter)
    }

    /// Whether the cursor stands at an entry.
    pub open spec fn spec_is_valid(&self) -> bool {
        spec_at_entry(self.spec_table(), self.spec_position())
    }

    /// A well-formed cursor walks a well-formed table and stands at an
    /// entry, behind the last entry of a block, or behind the last block.
    pub proof fn lemma_wf(&self)
        requires
            self.wf(),
        ensures
            self.spec_table().wf(),
            0 <= self.spec_position().0 <= self.spec_table().spec_num_blocks(),
            self.spec_position().0 < self.spec_table().spec_num_blocks() ==> {
                &&& self.spec_table().spec_block(self.spec_position().0).is_some()
                &&& 0 <= self.spec_position().1 <= spec_block_len(
                    self.spec_table().spec_block(self.spec_position().0).unwrap(),
                )
            },
            self.spec_position().0 == self.spec_table().spec_num_blocks()
                ==> self.spec_position().1 == 0,
    {
        self.blk_iter.lemma_wf();
    }

    fn seek_to_first_inner(table: &Arc<SsTable>) -> (r: Result<(usize, BlockIterator), TableError>)
        requires
            table.wf(),
        ensures
            match r {
                Ok((blk_idx, blk_iter)) => {
                    &&& spec_first(**table) == Some(
                        Self::spec_position_of(**table, blk_idx, blk_iter),
                    )
                    &&& Self::spec_loaded(**table, blk_idx, blk_iter)
                },
                Err(e) => e == TableError::FormatError && spec_first(**table).is_none(),
            },
    {
        if table.num_of_blocks() == 0 {
            return Ok((0, BlockIterator::create_and_seek_to_first(Block::empty())));
        }
        match table.read_block_cached(0) {
            Ok(block) => Ok((0, BlockIterator::create_and_seek_to_first(block))),
            Err(e) => Err(e),
        }
    }

    /// A block index and a block cursor that belong together: the cursor
    /// walks the block of that index, or the index is behind the last block
    /// and the cursor stands at no entry.
    pub closed spec fn spec_loaded(t: SsTable, blk_idx: usize, blk_iter: BlockIterator) -> bool {
        &&& blk_iter.wf()
        &&& blk_idx <= t.spec_num_blocks()
        &&& blk_idx < t.spec_num_blocks() ==> t.spec_block(blk_idx as int) == Some(
            blk_iter.spec_items(),
        )
        &&& blk_idx == t.spec_num_blocks() ==> blk_iter.spec_idx() >= spec_block_len(
            blk_iter.spec_items(),
        )
    }

    /// The position that a block index and a block cursor stand for.
    pub closed spec fn spec_position_of(t: SsTable, blk_idx: usize, blk_iter: BlockIterator) -> (
        int,
        int,
    ) {
        if blk_idx < t.spec_num_blocks() {
            (blk_idx as int, blk_iter.spec_idx())
        } else {
            (t.spec_num_blocks(), 0)
        }
    }

    /// A cursor on `table`, set to its first entry.
    pub fn create_and_seek_to_first(table: Arc<SsTable>) -> (r: Result<Self, TableError>)
        requires
            table.wf(),
        ensures
            match r {
                Ok(it) => it.wf() && it.spec_table() == *table && spec_first(*table) == Some(
                    it.spec_position(),
                ),
                Err(e) => e == TableError::FormatError && spec_first(*table).is_none(),
            },
    {
        match Self::seek_to_first_inner(&table) {
            Ok((blk_idx, blk_iter)) => Ok(SsTableIterator { table, blk_iter, blk_idx }),
            Err(e) => Err(e),
        }
    }

    /// Sets the cursor to the table's first entry. On an error it stays
    /// where it was.
    pub fn seek_to_first(&mut self) -> (r: Result<(), TableError>)
        requires
            old(self).wf(),
        ensures
            final(self).wf(),
            final(self).spec_table() == old(self).spec_table(),
            match r {
                Ok(()) => spec_first(old(self).spec_table()) == Some(final(self).spec_position()),
                Err(e) => e == TableError::FormatError && spec_first(
                    old(self).spec_table(),
                ).is_none() && final(self).spec_position() == old(self).spec_position(),
            },
    {
        match Self::seek_to_first_inner(&self.table) {
            Ok((blk_idx, blk_iter)) => {
                self.blk_idx = blk_idx;
                self.blk_iter = blk_iter;
                Ok(())
            },
            Err(e) => Err(e),
        }
    }

    fn seek_to_key_inner(table: &Arc<SsTable>, key: &[u8]) -> (r: Result<
        (usize, BlockIterator),
        TableError,
    >)
        requires
            table.wf(),
        ensures
            match r {
                Ok((blk_idx, blk_iter)) => {
                    &&& spec_seek(**table, key@) == Some(
                        Self::spec_position_of(**table, blk_idx, blk_iter),
                    )
                    &&& Self::spec_loaded(**table, blk_idx, blk_iter)
                },
                Err(e) => e == TableError::FormatError && spec_seek(**table, key@).is_none(),
            },
    {
        if table.num_of_blocks() == 0 {
            return Ok((0, BlockIterator::create_and_seek_to_first(Block::empty())));
        }
        let mut blk_idx: usize = table.find_block_idx(key);
        let mut blk_iter = match table.read_block_cached(blk_idx) {
            Ok(block) => BlockIterator::create_and_seek_to_key(block, key),
            Err(e) => {
                return Err(e);
            },
        };
        proof {
            blk_iter.lemma_wf();
        }
        if !blk_iter.is_valid() {
            blk_idx += 1;
            if blk_idx < table.num_of_blocks() {
                blk_iter = match table.read_block_cached(blk_idx) {
                    Ok(block) => BlockIterator::create_and_seek_to_first(block),
                    Err(e) => {
                        return Err(e);
                    },
                };
            }
        }
        Ok((blk_idx, blk_iter))
    }

    /// A cursor on `table`, set to the first entry whose key is not before
    /// `key`.
    pub fn create_and_seek_to_key(table: Arc<SsTable>, key: &[u8]) -> (r: Result<Self, TableError>)
        requires
            table.wf(),
        ensures
            match r {
                Ok(it) => it.wf() && it.spec_table() == *table && spec_seek(*table, key@) == Some(
                    it.spec_position(),
                ),
                Err(e) => e == TableError::FormatError && spec_seek(*table, key@).is_none(),
            },
    {
        match Self::seek_to_key_inner(&table, key) {
            Ok((blk_idx, blk_iter)) => Ok(SsTableIterator { table, blk_iter, blk_idx }),
            Err(e) => Err(e),
        }
    }

    /// Sets the cursor to the first entry whose key is not before `key`:
    /// the index gives the block, and where every key of that block is
    /// before `key`, the cursor goes on to the next block. On an error it
    /// stays where it was.
    pub fn seek_to_key(&mut self, key: &[u8]) -> (r: Result<(), TableError>)
        requires
            old(self).wf(),
        ensures
            final(self).wf(),
            final(self).spec_table() == old(self).spec_table(),
            match r {
                Ok(()) => spec_seek(old(self).spec_table(), key@) == Some(
                    final(self).spec_position(),
                ),
                Err(e) => e == TableError::FormatError && spec_seek(
                    old(self).spec_table(),
                    key@,
                ).is_none() && final(self).spec_position() == old(self).spec_position(),
            },
    {
        match Self::seek_to_key_inner(&self.table, key) {
            Ok((blk_idx, blk_iter)) => {
                self.blk_iter = blk_iter;
                self.blk_idx = blk_idx;
                Ok(())
            },
            Err(e) => Err(e),
        }
    }

    /// The key of the entry at which the cursor stands.
    pub fn key(&self) -> (r: &[u8])
        requires
            self.wf(),
            self.spec_is_valid(),
        ensures
            r@ == spec_block_key(
                self.spec_table().spec_block(self.spec_position().0).unwrap(),
                self.spec_position().1,
            ),
    {
        self.blk_iter.key()
    }

    /// The value of the entry at which the cursor stands.
    pub fn value(&self) -> (r: &[u8])
        requires
            self.wf(),
            self.spec_is_valid(),
        ensures
            r@ == spec_block_value(
                self.spec_table().spec_block(self.spec_position().0).unwrap(),
                self.spec_position().1,
            ),
    {
        self.blk_iter.value()
    }

    /// Whether the cursor stands at an entry.
    pub fn is_valid(&self) -> (r: bool)
        requires
            self.wf(),
        ensures
            r == self.spec_is_valid(),
    {
        proof {
            self.blk_iter.lemma_wf();
        }
        self.blk_iter.is_valid()
    }

    /// Moves the cursor one entry on, into the next block where it leaves
    /// one. A cursor that stands at no entry stays where it is, and so does
    /// one whose next block does not decode.
    pub fn next(&mut self) -> (r: Result<(), TableError>)
        requires
            old(self).wf(),
        ensures
            final(self).wf(),
            final(self).spec_table() == old(self).spec_table(),
            !old(self).spec_is_valid() ==> r.is_ok() && final(self).spec_position() == old(
                self,
            ).spec_position(),
            old(self).spec_is_valid() ==> match r {
                Ok(()) => spec_step(old(self).spec_table(), old(self).spec_position()) == Some(
                    final(self).spec_position(),
                ),
                Err(e) => e == TableError::FormatError && spec_step(
                    old(self).spec_table(),
                    old(self).spec_position(),
                ).is_none() && final(self).spec_position() == old(self).spec_position(),
            },
    {
        proof {
            self.blk_iter.lemma_wf();
        }
        if !self.blk_iter.is_valid() {
            return Ok(());
        }
        let n: usize = self.table.num_of_blocks();
        if self.blk_iter.is_last() && self.blk_idx + 1 < n {
            match self.table.read_block_cached(self.blk_idx + 1) {
                Ok(block) => {
                    self.blk_iter = BlockIterator::create_and_seek_to_first(block);
                    self.blk_idx = self.blk_idx + 1;
                },
                Err(e) => {
                    return Err(e);
                },
            }
        } else {
            self.blk_iter.next();
            if !self.blk_iter.is_valid() {
                self.blk_idx = self.blk_idx + 1;
            }
        }
        Ok(())
    }
}

} // verus!
