//! The immutable table: the stored bytes, the block index read from them,
//! the search for the block that may hold a key, and the reading of blocks.

use vstd::prelude::*;
use vstd::slice::{slice_subrange, slice_to_vec};
use crate::block::{spec_block_wf, spec_decode_block, Block};
use crate::codec::{read_u32, spec_u32_from_be};
use crate::keys::{key_less, lemma_key_le_le, lemma_key_lt_le, spec_key_lt};
use crate::meta::{spec_decode_index, spec_metas, BlockMeta, TableError};

verus! {

/// Offsets never fall and stay within the data region, and first keys never
/// fall.
pub open spec fn spec_index_ordered(es: Seq<(u32, Seq<u8>)>, index_offset: int) -> bool {
    &&& forall|i: int| 0 <= i < es.len() ==> (#[trigger] es[i]).0 <= index_offset
    &&& forall|i: int, j: int|
        0 <= i < j < es.len() ==> (#[trigger] es[i]).0 <= (#[trigger] es[j]).0 && !spec_key_lt(
            es[j].1,
            es[i].1,
        )
}

/// The last block whose first key is not after `key`; block 0 where there is
/// none.
pub open spec fn spec_find_block_idx(es: Seq<(u32, Seq<u8>)>, key: Seq<u8>) -> int
    decreases es.len(),
{
    if es.len() <= 1 {
        0
    } else if !spec_key_lt(key, es.last().1) {
        es.len() - 1
    } else {
        spec_find_block_idx(es.drop_last(), key)
    }
}

/// An index that is searched from its end for the first key not after
/// `key` stops at `r`, where every later first key is after `key` and that
/// of `r` is not.
pub proof fn lemma_find_block_idx(es: Seq<(u32, Seq<u8>)>, key: Seq<u8>, r: int)
    requires
        es.len() == 0 ==> r == 0,
        es.len() > 0 ==> 0 <= r < es.len(),
        forall|i: int| r < i < es.len() ==> spec_key_lt(key, (#[trigger] es[i]).1),
        r > 0 ==> !spec_key_lt(key, es[r].1),
    ensures
        spec_find_block_idx(es, key) == r,
    decreases es.len(),
{
    if es.len() > 1 {
        if spec_key_lt(key, es.last().1) {
            let shorter = es.drop_last();
            assert forall|i: int| r < i < shorter.len() implies spec_key_lt(
                key,
                (#[trigger] shorter[i]).1,
            ) by {
                assert(shorter[i] == es[i]);
            }
            lemma_find_block_idx(shorter, key, r);
        } else {
            if r < es.len() - 1 {
                assert(spec_key_lt(key, es[es.len() - 1].1));
            }
        }
    }
}

/// The parts of a table read from its bytes: where the index starts, and the
/// index. `None` where the bytes hold no table.
pub open spec fn spec_open(b: Seq<u8>) -> Option<(int, Seq<(u32, Seq<u8>)>)> {
    if b.len() < 4 {
        None
    } else {
        let off = spec_u32_from_be(b.skip(b.len() - 4));
        if off > b.len() - 4 {
            None
        } else {
            match spec_decode_index(b.subrange(off, b.len() - 4)) {
                None => None,
                Some(es) => if spec_index_ordered(es, off) {
                    Some((off, es))
                } else {
                    None
                },
            }
        }
    }
}

/// The stored bytes of a table.
pub struct FileObject {
    data: Vec<u8>,
}

impl FileObject {
    pub closed spec fn view(&self) -> Seq<u8> {
        self.data@
    }

    /// Takes the bytes into store.
    pub fn create(data: Vec<u8>) -> (r: FileObject)
        ensures
            r@ == data@,
    {
        FileObject { data }
    }

    /// The number of bytes stored.
    pub fn size(&self) -> (r: usize)
        ensures
            r == self@.len(),
    {
        self.data.len()
    }

    /// All the bytes stored.
    pub fn bytes(&self) -> (r: &[u8])
        ensures
            r@ == self@,
    {
        self.data.as_slice()
    }

    /// The `len` bytes from `offset` on.
    pub fn read(&self, offset: usize, len: usize) -> (r: Vec<u8>)
        requires
            offset + len <= self@.len(),
        ensures
            r@ == self@.subrange(offset as int, offset + len),
    {
        let size: usize = self.data.len();
        let tail: &[u8] = slice_subrange(self.data.as_slice(), offset, size);
        let r: Vec<u8> = slice_to_vec(slice_subrange(tail, 0, len));
        assert(r@ =~= self@.subrange(offset as int, offset + len));
        r
    }
}

/// An immutable table.
pub struct SsTable {
    file: FileObject,
    block_metas: Vec<BlockMeta>,
    block_meta_offset: usize,
    id: usize,
}

impl SsTable {
    /// The stored bytes.
    pub closed spec fn spec_file(&self) -> Seq<u8> {
        self.file@
    }

    /// The block index, as offsets and first keys.
    pub closed spec fn spec_index(&self) -> Seq<(u32, Seq<u8>)> {
        spec_metas(self.block_metas@)
    }

    /// Where the data region ends and the index starts.
    pub closed spec fn spec_index_offset(&self) -> int {
        self.block_meta_offset as int
    }

    /// The table's identifier.
    pub closed spec fn spec_id(&self) -> int {
        self.id as int
    }

    pub open spec fn wf(&self) -> bool {
        &&& 0 <= self.spec_index_offset() <= self.spec_file().len()
        &&& spec_index_ordered(self.spec_index(), self.spec_index_offset())
    }

    /// The number of blocks.
    pub open spec fn spec_num_blocks(&self) -> int {
        self.spec_index().len() as int
    }

    /// Where block `i` ends.
    pub open spec fn spec_block_end(&self, i: int) -> int {
        if i + 1 < self.spec_index().len() {
            self.spec_index()[i + 1].0 as int
        } else {
            self.spec_index_offset()
        }
    }

    /// The stored bytes of block `i`.
    pub open spec fn spec_block_bytes(&self, i: int) -> Seq<u8> {
        self.spec_file().subrange(self.spec_index()[i].0 as int, self.spec_block_end(i))
    }

    /// The entries of block `i`, keys and values alternating; `None` where
    /// its bytes encode no block.
    pub open spec fn spec_block(&self, i: int) -> Option<Seq<Seq<u8>>> {
        spec_decode_block(self.spec_block_bytes(i))
    }

    /// The entries of every block, block by block.
    pub open spec fn spec_blocks(&self) -> Seq<Seq<Seq<u8>>> {
        Seq::new(self.spec_index().len(), |i: int| self.spec_block(i).unwrap())
    }

    /// Every block decodes, is well formed, has an entry, and starts with
    /// the key that the index gives for it.
    pub open spec fn spec_sound(&self) -> bool {
        forall|i: int|
            0 <= i < self.spec_num_blocks() ==> {
                &&& (#[trigger] self.spec_block(i)).is_some()
                &&& spec_block_wf(self.spec_block(i).unwrap())
                &&& self.spec_block(i).unwrap().len() >= 2
                &&& self.spec_block(i).unwrap()[0] == self.spec_index()[i].1
            }
    }

    /// Puts a table together from its parts.
    pub(crate) fn assemble(
        id: usize,
        file: FileObject,
        block_metas: Vec<BlockMeta>,
        block_meta_offset: usize,
    ) -> (r: SsTable)
        ensures
            r.spec_id() == id,
            r.spec_file() == file@,
            r.spec_index() == spec_metas(block_metas@),
            r.spec_index_offset() == block_meta_offset,
    {
        SsTable { file, block_metas, block_meta_offset, id }
    }

    /// Reads a table from its stored bytes: the trailing field gives the
    /// start of the index, and the index lies between the two.
    pub fn open(id: usize, file: FileObject) -> (r: Result<SsTable, TableError>)
        ensures
            match r {
                Ok(t) => t.wf() && t.spec_id() == id && t.spec_file() == file@ && spec_open(file@)
                    == Some((t.spec_index_offset(), t.spec_index())),
                Err(e) => e == TableError::FormatError && spec_open(file@).is_none(),
            },
    {
        let len: usize = file.size();
        if len < 4 {
            return Err(TableError::FormatError);
        }
        let off: usize = read_u32(file.bytes(), len - 4) as usize;
        if off > len - 4 {
            return Err(TableError::FormatError);
        }
        let metas = match BlockMeta::decode_block_meta(slice_subrange(file.bytes(), off, len - 4)) {
            None => {
                return Err(TableError::FormatError);
            },
            Some(metas) => metas,
        };
        if !index_is_ordered(&metas, off) {
            return Err(TableError::FormatError);
        }
        Ok(SsTable { file, block_metas: metas, block_meta_offset: off, id })
    }

    /// The table's identifier.
    pub fn id(&self) -> (r: usize)
        ensures
            r == self.spec_id(),
    {
        self.id
    }

    /// The stored bytes.
    pub fn file(&self) -> (r: &FileObject)
        ensures
            r@ == self.spec_file(),
    {
        &self.file
    }

    /// The number of blocks.
    pub fn num_of_blocks(&self) -> (r: usize)
        ensures
            r == self.spec_num_blocks(),
    {
        self.block_metas.len()
    }

    /// The first key of block `i`.
    pub fn first_key(&self, i: usize) -> (r: &[u8])
        requires
            i < self.spec_num_blocks(),
        ensures
            r@ == self.spec_index()[i as int].1,
    {
        self.block_metas[i].first_key.as_slice()
    }

    /// The offset of block `i` in the data region.
    pub fn block_offset(&self, i: usize) -> (r: usize)
        requires
            i < self.spec_num_blocks(),
        ensures
            r == self.spec_index()[i as int].0,
    {
        self.block_metas[i].offset as usize
    }

    /// The block that may hold `key`: the last one whose first key is not
    /// after `key`, found by bisection.
    pub fn find_block_idx(&self, key: &[u8]) -> (r: usize)
        requires
            self.wf(),
        ensures
            r == spec_find_block_idx(self.spec_index(), key@),
            self.spec_num_blocks() > 0 ==> r < self.spec_num_blocks(),
    {
        let n: usize = self.block_metas.len();
        let ghost es = self.spec_index();
        if n == 0 {
            return 0;
        }
        let mut lo: usize = 0;
        let mut hi: usize = n;
        while lo + 1 < hi
            invariant
                self.wf(),
                es == self.spec_index(),
                n == es.len(),
                n == self.block_metas@.len(),
                lo < hi <= n,
                lo > 0 ==> !spec_key_lt(key@, es[lo as int].1),
                forall|i: int| hi <= i < n ==> spec_key_lt(key@, (#[trigger] es[i]).1),
            decreases hi - lo,
        {
            let mid: usize = lo + (hi - lo) / 2;
            assert(es[mid as int].1 == self.block_metas@[mid as int].first_key@);
            if key_less(key, self.block_metas[mid].first_key.as_slice()) {
                proof {
                    assert forall|i: int| mid <= i < n implies spec_key_lt(
                        key@,
                        (#[trigger] es[i]).1,
                    ) by {
                        if i > mid {
                            assert(!spec_key_lt(es[i].1, es[mid as int].1));
                            lemma_key_lt_le(key@, es[mid as int].1, es[i].1);
                        }
                    }
                }
                hi = mid;
            } else {
                lo = mid;
            }
        }
        proof {
            lemma_find_block_idx(es, key@, lo as int);
        }
        lo
    }

    /// Reads block `idx` from the stored bytes and decodes it.
    pub fn read_block(&self, idx: usize) -> (r: Result<Block, TableError>)
        requires
            self.wf(),
            idx < self.spec_num_blocks(),
        ensures
            match r {
                Ok(b) => b.wf() && self.spec_block(idx as int) == Some(b@),
                Err(e) => e == TableError::FormatError && self.spec_block(idx as int).is_none(),
            },
    {
        let ghost es = self.spec_index();
        assert(es[idx as int].0 == self.block_metas@[idx as int].offset);
        let start: usize = self.block_metas[idx].offset as usize;
        let n: usize = self.block_metas.len();
        let end: usize = if idx + 1 < n {
            assert(es[idx + 1].0 == self.block_metas@[idx + 1].offset);
            self.block_metas[idx + 1].offset as usize
        } else {
            self.block_meta_offset
        };
        assert(start <= end) by {
            assert(es[idx as int].0 <= self.spec_index_offset());
        }
        let bytes: Vec<u8> = self.file.read(start, end - start);
        match Block::decode(bytes.as_slice()) {
            Some(b) => Ok(b),
            None => Err(TableError::FormatError),
        }
    }

    /// Reads block `idx`. No cache stands between the table and its bytes,
    /// so what comes back is what decoding the stored bytes gives.
    pub fn read_block_cached(&self, idx: usize) -> (r: Result<Block, TableError>)
        requires
            self.wf(),
            idx < self.spec_num_blocks(),
        ensures
            match r {
                Ok(b) => b.wf() && self.spec_block(idx as int) == Some(b@),
                Err(e) => e == TableError::FormatError && self.spec_block(idx as int).is_none(),
            },
    {
        self.read_block(idx)
    }
}

/// Whether the offsets never fall and stay within `index_offset`, and the
/// first keys never fall.
pub fn index_is_ordered(metas: &Vec<BlockMeta>, index_offset: usize) -> (r: bool)
    ensures
        r == spec_index_ordered(spec_metas(metas@), index_offset as int),
{
    let ghost es = spec_metas(metas@);
    let mut i: usize = 0;
    while i < metas.len()
        invariant
            i <= metas@.len(),
            es == spec_metas(metas@),
            spec_index_ordered(es.take(i as int), index_offset as int),
        decreases metas@.len() - i,
    {
        assert(es[i as int] == (metas@[i as int].offset, metas@[i as int].first_key@));
        if metas[i].offset as usize > index_offset {
            return false;
        }
        if i > 0 {
            assert(es[i - 1] == (metas@[i - 1].offset, metas@[i - 1].first_key@));
            if metas[i - 1].offset > metas[i].offset || key_less(
                metas[i].first_key.as_slice(),
                metas[i - 1].first_key.as_slice(),
            ) {
                return false;
            }
        }
        proof {
            let shorter = es.take(i as int);
            let longer = es.take(i as int + 1);
            assert forall|a: int, b: int| 0 <= a < b < longer.len() implies (#[trigger] longer[a]).0
                <= (#[trigger] longer[b]).0 && !spec_key_lt(longer[b].1, longer[a].1) by {
                if b < i {
                    assert(shorter[a] == longer[a] && shorter[b] == longer[b]);
                } else if a == i - 1 {
                } else {
                    assert(shorter[a] == longer[a] && shorter[i - 1] == longer[i - 1]);
                    lemma_key_le_le(longer[a].1, longer[i - 1].1, longer[b].1);
                }
            }
            assert forall|a: int| 0 <= a < longer.len() implies (#[trigger] longer[a]).0
                <= index_offset by {
                if a < i {
                    assert(shorter[a] == longer[a]);
                }
            }
        }
        i += 1;
    }
    assert(es.take(i as int) =~= es);
    true
}

} // verus!
