//! What holds of a table whose blocks all decode: a cursor walks its
//! entries in their order, one by one, and a seek finds the first entry
//! whose key is not before the one sought.

use vstd::prelude::*;
use crate::block::{lemma_block_seek, spec_block_key, spec_block_len, spec_block_seek, spec_block_value};
use crate::block::spec_block_within;
use crate::builder::{lemma_concat_len, spec_blocks_within, spec_concat, spec_end, spec_frames, spec_holds};
use crate::codec::{lemma_frame_len, lemma_u32_be_round_trip, spec_frame, spec_payload, spec_u32_be};
use crate::meta::{lemma_index_round_trip, spec_encode_index, spec_metas_fit};
use crate::iterator::{spec_at_entry, spec_first, spec_seek, spec_step};
use crate::keys::{
    lemma_key_lt_asymmetric, lemma_key_lt_irreflexive, lemma_key_lt_le, lemma_key_total, spec_key_lt,
};
use crate::table::{spec_find_block_idx, spec_index_ordered, spec_open, SsTable};

verus! {

/// The number of keys and values in the blocks before block `i`.
pub open spec fn spec_start(blocks: Seq<Seq<Seq<u8>>>, i: int) -> int {
    spec_concat(blocks.take(i)).len() as int
}

/// The place of a position in the walk through all entries.
pub open spec fn spec_rank(t: SsTable, at: (int, int)) -> int {
    spec_start(t.spec_blocks(), at.0) / 2 + at.1
}

/// The keys of the entries ascend strictly.
pub open spec fn spec_ascending(entries: Seq<Seq<u8>>) -> bool {
    forall|a: int, b: int|
        0 <= a < b < spec_block_len(entries) ==> spec_key_lt(
            #[trigger] spec_block_key(entries, a),
            #[trigger] spec_block_key(entries, b),
        )
}

/// Position `a` comes before position `b`.
pub open spec fn spec_before(a: (int, int), b: (int, int)) -> bool {
    a.0 < b.0 || (a.0 == b.0 && a.1 < b.1)
}

/// The key of the entry at a position.
pub open spec fn spec_entry_key(t: SsTable, at: (int, int)) -> Seq<u8> {
    spec_block_key(t.spec_block(at.0).unwrap(), at.1)
}

/// The keys ascend strictly from position to position, within blocks and
/// from block to block.
pub open spec fn spec_table_ascending(t: SsTable) -> bool {
    forall|a: (int, int), b: (int, int)|
        spec_at_entry(t, a) && spec_at_entry(t, b) && spec_before(a, b) ==> spec_key_lt(
            #[trigger] spec_entry_key(t, a),
            #[trigger] spec_entry_key(t, b),
        )
}

/// Block `i` starts where block `i - 1` ends, and block 0 at 0.
pub proof fn lemma_start_step(blocks: Seq<Seq<Seq<u8>>>, i: int)
    requires
        0 <= i < blocks.len(),
    ensures
        spec_start(blocks, i + 1) == spec_start(blocks, i) + blocks[i].len(),
        spec_start(blocks, 0) == 0,
        spec_start(blocks, blocks.len() as int) == spec_concat(blocks).len(),
{
    assert(blocks.take(i + 1).drop_last() =~= blocks.take(i));
    assert(blocks.take(i + 1).last() == blocks[i]);
    assert(blocks.take(0) =~= Seq::<Seq<Seq<u8>>>::empty());
    assert(blocks.take(blocks.len() as int) =~= blocks);
}

/// Later blocks start later.
pub proof fn lemma_start_monotone(blocks: Seq<Seq<Seq<u8>>>, i: int, j: int)
    requires
        0 <= i <= j <= blocks.len(),
    ensures
        spec_start(blocks, i) <= spec_start(blocks, j),
    decreases j - i,
{
    if i < j {
        lemma_start_monotone(blocks, i, j - 1);
        lemma_start_step(blocks, j - 1);
    }
}

/// Where every block holds keys and values in pairs, every block starts at
/// an even place.
pub proof fn lemma_start_even(blocks: Seq<Seq<Seq<u8>>>, i: int)
    requires
        0 <= i <= blocks.len(),
        forall|j: int| 0 <= j < blocks.len() ==> (#[trigger] blocks[j]).len() % 2 == 0,
    ensures
        spec_start(blocks, i) % 2 == 0,
{
    assert forall|j: int| 0 <= j < blocks.take(i).len() implies (#[trigger] blocks.take(i)[j]).len()
        % 2 == 0 by {
        assert(blocks.take(i)[j] == blocks[j]);
    }
    lemma_concat_len(blocks.take(i));
}

/// Item `k` of block `i` is found in the walk through all blocks at the
/// block's start plus `k`.
pub proof fn lemma_concat_index(blocks: Seq<Seq<Seq<u8>>>, i: int, k: int)
    requires
        0 <= i < blocks.len(),
        0 <= k < blocks[i].len(),
    ensures
        spec_start(blocks, i) + k < spec_concat(blocks).len(),
        spec_concat(blocks)[spec_start(blocks, i) + k] == blocks[i][k],
    decreases blocks.len(),
{
    if i == blocks.len() - 1 {
        assert(blocks.take(i) =~= blocks.drop_last());
        assert(blocks.last() == blocks[i]);
    } else {
        lemma_concat_index(blocks.drop_last(), i, k);
        assert(blocks.drop_last().take(i) =~= blocks.take(i));
        assert(blocks.drop_last()[i] == blocks[i]);
    }
}

/// The blocks of a sound table hold keys and values in pairs.
pub proof fn lemma_sound_blocks(t: SsTable)
    requires
        t.spec_sound(),
    ensures
        forall|j: int|
            0 <= j < t.spec_blocks().len() ==> (#[trigger] t.spec_blocks()[j]).len() % 2 == 0
                && t.spec_blocks()[j].len() >= 2 && t.spec_blocks()[j] == t.spec_block(j).unwrap(),
{
    assert forall|j: int| 0 <= j < t.spec_blocks().len() implies (#[trigger] t.spec_blocks()[j]).len()
        % 2 == 0 && t.spec_blocks()[j].len() >= 2 && t.spec_blocks()[j] == t.spec_block(
        j,
    ).unwrap() by {
        assert(t.spec_block(j).is_some());
    }
}

/// A cursor set to the start of a sound table stands at the first place of
/// the walk.
pub proof fn lemma_scan_first(t: SsTable)
    requires
        t.spec_sound(),
    ensures
        spec_first(t) == Some((0int, 0int)),
        spec_rank(t, (0, 0)) == 0,
        spec_at_entry(t, (0, 0)) <==> spec_concat(t.spec_blocks()).len() > 0,
{
    lemma_sound_blocks(t);
    let blocks = t.spec_blocks();
    assert(blocks.take(0) =~= Seq::<Seq<Seq<u8>>>::empty());
    if t.spec_num_blocks() > 0 {
        assert(t.spec_block(0).is_some());
        lemma_concat_index(blocks, 0, 0);
    } else {
        assert(blocks =~= Seq::<Seq<Seq<u8>>>::empty());
    }
}

/// At an entry of a sound table, the cursor's key and value are those that
/// the walk through all entries has at the cursor's place.
pub proof fn lemma_scan_entry(t: SsTable, at: (int, int))
    requires
        t.spec_sound(),
        spec_at_entry(t, at),
    ensures
        0 <= spec_rank(t, at) < spec_block_len(spec_concat(t.spec_blocks())),
        spec_block_key(spec_concat(t.spec_blocks()), spec_rank(t, at)) == spec_entry_key(t, at),
        spec_block_value(spec_concat(t.spec_blocks()), spec_rank(t, at)) == spec_block_value(
            t.spec_block(at.0).unwrap(),
            at.1,
        ),
{
    lemma_sound_blocks(t);
    let blocks = t.spec_blocks();
    lemma_start_even(blocks, at.0);
    lemma_concat_index(blocks, at.0, 2 * at.1);
    lemma_concat_index(blocks, at.0, 2 * at.1 + 1);
    lemma_concat_len(blocks);
}

/// One step from an entry of a sound table leads to the next place of the
/// walk, which is an entry unless the walk is at its end.
pub proof fn lemma_scan_step(t: SsTable, at: (int, int))
    requires
        t.spec_sound(),
        spec_at_entry(t, at),
    ensures
        spec_step(t, at).is_some(),
        spec_rank(t, spec_step(t, at).unwrap()) == spec_rank(t, at) + 1,
        spec_at_entry(t, spec_step(t, at).unwrap()) <==> spec_rank(t, at) + 1 < spec_block_len(
            spec_concat(t.spec_blocks()),
        ),
{
    lemma_sound_blocks(t);
    let blocks = t.spec_blocks();
    let n = t.spec_num_blocks();
    lemma_start_even(blocks, at.0);
    lemma_start_even(blocks, at.0 + 1);
    lemma_start_step(blocks, at.0);
    lemma_concat_len(blocks);
    if at.1 + 1 < spec_block_len(t.spec_block(at.0).unwrap()) {
        lemma_scan_entry(t, (at.0, at.1 + 1));
    } else if at.0 + 1 < n {
        assert(t.spec_block(at.0 + 1).is_some());
        lemma_scan_entry(t, (at.0 + 1, 0));
    } else {
    }
}

/// In a sound table whose entries ascend strictly in the walk through them,
/// the keys ascend strictly from position to position.
pub proof fn lemma_table_ascending(t: SsTable)
    requires
        t.spec_sound(),
        spec_ascending(spec_concat(t.spec_blocks())),
    ensures
        spec_table_ascending(t),
{
    lemma_sound_blocks(t);
    let blocks = t.spec_blocks();
    let entries = spec_concat(blocks);
    assert forall|a: (int, int), b: (int, int)|
        spec_at_entry(t, a) && spec_at_entry(t, b) && spec_before(a, b) implies spec_key_lt(
        #[trigger] spec_entry_key(t, a),
        #[trigger] spec_entry_key(t, b),
    ) by {
        lemma_scan_entry(t, a);
        lemma_scan_entry(t, b);
        lemma_start_even(blocks, a.0);
        lemma_start_even(blocks, b.0);
        if a.0 < b.0 {
            lemma_start_step(blocks, a.0);
            lemma_start_monotone(blocks, a.0 + 1, b.0);
        }
        assert(spec_rank(t, a) < spec_rank(t, b));
    }
}

/// In a sound table whose keys ascend strictly from position to position,
/// the first keys in the index ascend strictly.
pub proof fn lemma_first_keys_ascending(t: SsTable)
    requires
        t.spec_sound(),
        spec_table_ascending(t),
    ensures
        forall|i: int, j: int|
            0 <= i < j < t.spec_num_blocks() ==> spec_key_lt(
                (#[trigger] t.spec_index()[i]).1,
                (#[trigger] t.spec_index()[j]).1,
            ),
{
    assert forall|i: int, j: int| 0 <= i < j < t.spec_num_blocks() implies spec_key_lt(
        (#[trigger] t.spec_index()[i]).1,
        (#[trigger] t.spec_index()[j]).1,
    ) by {
        assert(t.spec_block(i).is_some() && t.spec_block(j).is_some());
        assert(spec_at_entry(t, (i, 0)) && spec_at_entry(t, (j, 0)));
        assert(spec_before((i, 0), (j, 0)));
        assert(spec_entry_key(t, (i, 0)) == t.spec_index()[i].1);
        assert(spec_entry_key(t, (j, 0)) == t.spec_index()[j].1);
    }
}

/// Where an index and a data region hold the given blocks, each offset is
/// the length of the encodings of all blocks before it, and each is greater
/// than the one before.
pub proof fn lemma_offsets_cumulative(
    es: Seq<(u32, Seq<u8>)>,
    data: Seq<u8>,
    blocks: Seq<Seq<Seq<u8>>>,
    i: int,
)
    requires
        spec_holds(es, data, blocks),
        0 <= i < es.len(),
    ensures
        es[i].0 == spec_frames(blocks.take(i)).len(),
        es[i].0 < spec_end(es, data.len() as int, i),
    decreases i,
{
    assert(spec_frame(blocks[i]).len() >= 4) by {
        assert(blocks[i].len() >= 2);
    }
    if i == 0 {
        assert(blocks.take(0) =~= Seq::<Seq<Seq<u8>>>::empty());
    } else {
        lemma_offsets_cumulative(es, data, blocks, i - 1);
        assert(blocks.take(i).drop_last() =~= blocks.take(i - 1));
        assert(blocks.take(i).last() == blocks[i - 1]);
        assert(spec_frame(blocks[i - 1]).len() >= 4);
    }
}

/// The bytes of a table that was put together from a data region and an
/// index read back as that table: the trailing field gives the length of
/// the data region, and what lies between decodes to the index.
pub proof fn lemma_open_built(data: Seq<u8>, es: Seq<(u32, Seq<u8>)>)
    requires
        data.len() <= u32::MAX,
        spec_metas_fit(es),
        spec_index_ordered(es, data.len() as int),
    ensures
        spec_open(data + spec_encode_index(es) + spec_u32_be(data.len() as u32)) == Some(
            (data.len() as int, es),
        ),
{
    let b = data + spec_encode_index(es) + spec_u32_be(data.len() as u32);
    lemma_u32_be_round_trip(data.len() as u32);
    assert(b.skip(b.len() - 4) =~= spec_u32_be(data.len() as u32));
    assert(b.subrange(data.len() as int, b.len() - 4) =~= spec_encode_index(es));
    lemma_index_round_trip(es);
}

/// Two or more entries whose keys and values together are longer than the
/// block size do not stand in one block: where every block holds one entry
/// or is within the block size, there are at least two blocks.
pub proof fn lemma_rollover(blocks: Seq<Seq<Seq<u8>>>, block_size: int)
    requires
        spec_blocks_within(blocks, block_size),
        spec_concat(blocks).len() >= 4,
        spec_payload(spec_concat(blocks)) > block_size,
    ensures
        blocks.len() >= 2,
{
    if blocks.len() == 1 {
        assert(blocks.drop_last() =~= Seq::<Seq<Seq<u8>>>::empty());
        assert(spec_concat(blocks.drop_last()) =~= Seq::<Seq<u8>>::empty());
        assert(spec_concat(blocks) =~= blocks[0]);
        assert(spec_block_within(blocks[0], block_size));
        lemma_frame_len(blocks[0]);
    }
}

/// What the search of the index finds: a block of the table; every later
/// block starts after `key`, and the block found, unless it is block 0,
/// does not.
pub proof fn lemma_found_block(es: Seq<(u32, Seq<u8>)>, key: Seq<u8>)
    ensures
        es.len() > 0 ==> 0 <= spec_find_block_idx(es, key) < es.len(),
        es.len() == 0 ==> spec_find_block_idx(es, key) == 0,
        forall|i: int|
            spec_find_block_idx(es, key) < i < es.len() ==> spec_key_lt(key, (#[trigger] es[i]).1),
        spec_find_block_idx(es, key) > 0 ==> !spec_key_lt(key, es[spec_find_block_idx(es, key)].1),
    decreases es.len(),
{
    if es.len() > 1 && spec_key_lt(key, es.last().1) {
        lemma_found_block(es.drop_last(), key);
        let r = spec_find_block_idx(es, key);
        assert forall|i: int| r < i < es.len() implies spec_key_lt(key, (#[trigger] es[i]).1) by {
            if i < es.len() - 1 {
                assert(es.drop_last()[i] == es[i]);
            }
        }
        if r > 0 {
            assert(es.drop_last()[r] == es[r]);
        }
    }
}

/// A seek in a sound table whose keys ascend strictly lands on the first
/// entry whose key is not before the key sought: every entry before the
/// landing place has a key before it, and the entry at the landing place,
/// if there is one, has not. Where no entry is at the landing place, it is
/// the place behind the last block.
pub proof fn lemma_seek_lands(t: SsTable, key: Seq<u8>)
    requires
        t.wf(),
        t.spec_sound(),
        spec_table_ascending(t),
    ensures
        spec_seek(t, key).is_some(),
        forall|e: (int, int)|
            spec_at_entry(t, e) && spec_before(e, spec_seek(t, key).unwrap()) ==> spec_key_lt(
                #[trigger] spec_entry_key(t, e),
                key,
            ),
        spec_at_entry(t, spec_seek(t, key).unwrap()) ==> !spec_key_lt(
            spec_entry_key(t, spec_seek(t, key).unwrap()),
            key,
        ),
        !spec_at_entry(t, spec_seek(t, key).unwrap()) ==> spec_seek(t, key).unwrap() == (
            t.spec_num_blocks(),
            0int,
        ),
{
    let n = t.spec_num_blocks();
    let es = t.spec_index();
    if n > 0 {
        lemma_found_block(es, key);
        let idx = spec_find_block_idx(es, key);
        assert(t.spec_block(idx).is_some());
        let items = t.spec_block(idx).unwrap();
        lemma_block_seek(items, key, 0);
        let p = spec_block_seek(items, key, 0);
        let at = spec_seek(t, key).unwrap();
        if idx + 1 < n {
            assert(t.spec_block(idx + 1).is_some());
            assert(spec_entry_key(t, (idx + 1, 0)) == es[idx + 1].1);
            lemma_key_lt_asymmetric(key, es[idx + 1].1);
        }
        assert forall|e: (int, int)| spec_at_entry(t, e) && spec_before(e, at) implies spec_key_lt(
            #[trigger] spec_entry_key(t, e),
            key,
        ) by {
            if e.0 < idx {
                assert(spec_at_entry(t, (idx, 0)));
                assert(spec_entry_key(t, (idx, 0)) == es[idx].1);
                assert(spec_before(e, (idx, 0)));
                lemma_key_lt_le(spec_entry_key(t, e), spec_entry_key(t, (idx, 0)), key);
            } else {
                assert(e.0 == idx);
                assert(spec_entry_key(t, e) == spec_block_key(items, e.1));
            }
        }
    }
}

/// A seek for the key of an entry of a sound table whose keys ascend
/// strictly lands on that entry.
pub proof fn lemma_seek_finds_present(t: SsTable, e: (int, int))
    requires
        t.wf(),
        t.spec_sound(),
        spec_table_ascending(t),
        spec_at_entry(t, e),
    ensures
        spec_seek(t, spec_entry_key(t, e)) == Some(e),
{
    let key = spec_entry_key(t, e);
    lemma_seek_lands(t, key);
    lemma_key_lt_irreflexive(key);
    let at = spec_seek(t, key).unwrap();
    if spec_before(e, at) {
        assert(spec_key_lt(spec_entry_key(t, e), key));
    } else if spec_before(at, e) {
        assert(spec_at_entry(t, at));
        assert(spec_key_lt(spec_entry_key(t, at), spec_entry_key(t, e)));
    } else {
        assert(at.0 == e.0 && at.1 == e.1);
    }
}

/// A seek for a key that no entry has, in a sound table whose keys ascend
/// strictly, lands on the entry with the least key after the key sought:
/// the key there is after it, and no entry before has a key after it.
/// Where the seek lands on no entry, every entry's key is before the key
/// sought.
pub proof fn lemma_seek_absent(t: SsTable, key: Seq<u8>)
    requires
        t.wf(),
        t.spec_sound(),
        spec_table_ascending(t),
        forall|e: (int, int)| spec_at_entry(t, e) ==> #[trigger] spec_entry_key(t, e) != key,
    ensures
        spec_seek(t, key).is_some(),
        spec_at_entry(t, spec_seek(t, key).unwrap()) ==> spec_key_lt(
            key,
            spec_entry_key(t, spec_seek(t, key).unwrap()),
        ),
        forall|e: (int, int)|
            spec_at_entry(t, e) && spec_key_lt(key, #[trigger] spec_entry_key(t, e))
                ==> !spec_before(e, spec_seek(t, key).unwrap()),
        !spec_at_entry(t, spec_seek(t, key).unwrap()) ==> forall|e: (int, int)|
            spec_at_entry(t, e) ==> spec_key_lt(#[trigger] spec_entry_key(t, e), key),
{
    lemma_seek_lands(t, key);
    let at = spec_seek(t, key).unwrap();
    if spec_at_entry(t, at) {
        if !spec_key_lt(key, spec_entry_key(t, at)) {
            lemma_key_total(key, spec_entry_key(t, at));
        }
    }
    assert forall|e: (int, int)|
        spec_at_entry(t, e) && spec_key_lt(key, #[trigger] spec_entry_key(t, e)) implies !spec_before(
        e,
        at,
    ) by {
        lemma_key_lt_asymmetric(key, spec_entry_key(t, e));
    }
}

} // verus!
