use lsm_table::block::{Block, BlockBuilder, BlockIterator};
use lsm_table::builder::SsTableBuilder;
use lsm_table::codec::{put_frame, put_item, read_u32, unframe};
use lsm_table::iterator::SsTableIterator;
use lsm_table::keys::key_less;
use lsm_table::meta::{BlockMeta, TableError};
use lsm_table::table::{index_is_ordered, FileObject, SsTable};
use std::sync::Arc;

fn key_of(i: usize) -> Vec<u8> {
    format!("key_{:05}", i).into_bytes()
}

fn value_of(i: usize) -> Vec<u8> {
    format!("value_{:08}", i * 7).into_bytes()
}

fn build_numbered(n: usize, block_size: usize) -> SsTable {
    let mut b = SsTableBuilder::new(block_size);
    for i in 0..n {
        assert_eq!(b.add(&key_of(i * 2), &value_of(i)), Ok(()));
    }
    b.build(1)
}

fn letters(block_size: usize, keys: &[&str]) -> SsTable {
    let mut b = SsTableBuilder::new(block_size);
    for k in keys {
        assert_eq!(b.add(k.as_bytes(), k.to_uppercase().as_bytes()), Ok(()));
    }
    b.build(7)
}

#[test]
fn key_order_is_lexicographic() {
    assert!(key_less(b"a", b"b"));
    assert!(!key_less(b"b", b"a"));
    assert!(key_less(b"a", b"ab"));
    assert!(!key_less(b"ab", b"a"));
    assert!(!key_less(b"abc", b"abc"));
    assert!(key_less(b"", b"a"));
    assert!(!key_less(b"", b""));
    assert!(key_less(b"ab", b"b"));
    assert!(key_less(&[1, 255], &[2, 0]));
}

#[test]
fn frame_layout_is_length_then_bytes() {
    let mut buf = vec![9u8];
    put_item(&mut buf, b"xyz");
    assert_eq!(buf, vec![9, 0, 0, 0, 3, b'x', b'y', b'z']);
    let mut long = Vec::new();
    let item = vec![5u8; 0x0102];
    put_item(&mut long, &item);
    assert_eq!(&long[..4], &[0, 0, 1, 2]);
    assert_eq!(long.len(), 4 + 0x0102);
    assert_eq!(read_u32(&long, 0), 0x0102);
    assert_eq!(read_u32(&[0x12, 0x34, 0x56, 0x78, 0], 0), 0x12345678);
    assert_eq!(read_u32(&[0, 0xff, 0xff, 0xff, 0xff], 1), u32::MAX);
}

#[test]
fn frame_round_trip() {
    let items: Vec<Vec<u8>> = vec![b"a".to_vec(), Vec::new(), b"hello".to_vec()];
    let mut buf = Vec::new();
    put_frame(&mut buf, &items);
    assert_eq!(buf.len(), 12 + 6);
    assert_eq!(unframe(&buf), Some(items));
    assert_eq!(unframe(&[]), Some(Vec::new()));
}

#[test]
fn unframe_rejects_truncated_bytes() {
    assert_eq!(unframe(&[0, 0, 0]), None);
    assert_eq!(unframe(&[0, 0, 0, 2, 1]), None);
    assert_eq!(unframe(&[0, 0, 0, 1, 1, 0]), None);
}

#[test]
fn block_builder_reports_full() {
    let mut b = BlockBuilder::new(30);
    assert!(b.is_empty());
    assert!(b.add(b"a", b"1"));
    assert_eq!(b.estimated_size(), 10);
    assert!(b.add(b"b", b"2"));
    assert!(b.add(b"c", b"3"));
    assert_eq!(b.estimated_size(), 30);
    assert!(!b.add(b"d", b"4"));
    assert_eq!(b.estimated_size(), 30);
    let block = b.build();
    assert_eq!(block.len(), 3);
    assert_eq!(block.key(1), b"b");
    assert_eq!(block.value(2), b"3");
}

#[test]
fn block_builder_takes_oversized_first_entry() {
    let mut b = BlockBuilder::new(9);
    assert!(b.fits(b"a", b"1"));
    assert!(b.add(b"a", b"1"));
    assert_eq!(b.estimated_size(), 10);
    assert!(!b.is_empty());
    assert!(!b.fits(b"b", b""));
    assert!(!b.add(b"b", b""));
    assert_eq!(b.estimated_size(), 10);
    assert_eq!(b.build().len(), 1);
    let mut c = BlockBuilder::new(0);
    assert!(c.add(b"key", b"value"));
    assert!(!c.add(b"", b""));
    let mut d = BlockBuilder::new(18);
    assert!(d.add(b"a", b"1"));
    assert!(d.add(b"", b""));
    assert!(!d.add(b"", b""));
}

#[test]
fn block_round_trip() {
    let mut b = BlockBuilder::new(100);
    assert!(b.add(b"k1", b"v1"));
    assert!(b.add(b"k2", b""));
    let block = b.build();
    let bytes = block.encode();
    assert_eq!(
        bytes,
        vec![0, 0, 0, 2, b'k', b'1', 0, 0, 0, 2, b'v', b'1', 0, 0, 0, 2, b'k', b'2', 0, 0, 0, 0]
    );
    let back = Block::decode(&bytes).unwrap();
    assert_eq!(back.len(), 2);
    assert_eq!(back.key(0), b"k1");
    assert_eq!(back.value(0), b"v1");
    assert_eq!(back.key(1), b"k2");
    assert_eq!(back.value(1), b"");
}

#[test]
fn block_decode_rejects_odd_item_count() {
    assert!(Block::decode(&[0, 0, 0, 1, 7]).is_none());
    assert!(Block::decode(&[0, 0, 0, 1]).is_none());
    assert_eq!(Block::decode(&[]).unwrap().len(), 0);
    assert_eq!(Block::empty().len(), 0);
}

#[test]
fn block_iterator_seeks_within_block() {
    let mut b = BlockBuilder::new(100);
    assert!(b.add(b"b", b"1"));
    assert!(b.add(b"d", b"2"));
    assert!(b.add(b"f", b"3"));
    let bytes = b.build().encode();
    let mut it = BlockIterator::create_and_seek_to_key(Block::decode(&bytes).unwrap(), b"c");
    assert!(it.is_valid());
    assert_eq!(it.key(), b"d");
    assert_eq!(it.value(), b"2");
    assert!(!it.is_last());
    it.next();
    assert_eq!(it.key(), b"f");
    assert!(it.is_last());
    it.next();
    assert!(!it.is_valid());
    it.next();
    assert!(!it.is_valid());
    it.seek_to_key(b"a");
    assert_eq!(it.key(), b"b");
    it.seek_to_key(b"f");
    assert_eq!(it.key(), b"f");
    it.seek_to_key(b"g");
    assert!(!it.is_valid());
    it.seek_to_first();
    assert_eq!(it.key(), b"b");
    let first = BlockIterator::create_and_seek_to_first(Block::decode(&bytes).unwrap());
    assert_eq!(first.key(), b"b");
}

#[test]
fn index_round_trip() {
    let metas = vec![
        BlockMeta { offset: 0, first_key: b"apple".to_vec() },
        BlockMeta { offset: 4096, first_key: Vec::new() },
        BlockMeta { offset: u32::MAX, first_key: vec![0, 255, 7] },
    ];
    let mut buf = vec![1u8, 2];
    BlockMeta::encode_block_meta(&metas, &mut buf);
    assert_eq!(&buf[..2], &[1, 2]);
    let back = BlockMeta::decode_block_meta(&buf[2..]).unwrap();
    assert_eq!(back.len(), 3);
    for i in 0..3 {
        assert_eq!(back[i].offset, metas[i].offset);
        assert_eq!(back[i].first_key, metas[i].first_key);
    }
}

#[test]
fn index_layout_is_length_offset_key() {
    let metas = vec![BlockMeta { offset: 0x01020304, first_key: b"k".to_vec() }];
    let mut buf = Vec::new();
    BlockMeta::encode_block_meta(&metas, &mut buf);
    assert_eq!(buf, vec![0, 0, 0, 5, 1, 2, 3, 4, b'k']);
    let none: Vec<BlockMeta> = Vec::new();
    let mut empty = Vec::new();
    BlockMeta::encode_block_meta(&none, &mut empty);
    assert!(empty.is_empty());
    assert_eq!(BlockMeta::decode_block_meta(&[]).unwrap().len(), 0);
}

#[test]
fn index_decode_rejects_short_entry() {
    assert!(BlockMeta::decode_block_meta(&[0, 0, 0, 3, 1, 2, 3]).is_none());
    assert!(BlockMeta::decode_block_meta(&[0, 0, 0, 9, 1, 2, 3, 4]).is_none());
}

#[test]
fn index_order_is_validated() {
    let good = vec![
        BlockMeta { offset: 0, first_key: b"a".to_vec() },
        BlockMeta { offset: 10, first_key: b"a".to_vec() },
        BlockMeta { offset: 10, first_key: b"c".to_vec() },
    ];
    assert!(index_is_ordered(&good, 10));
    assert!(!index_is_ordered(&good, 9));
    let keys_fall = vec![
        BlockMeta { offset: 0, first_key: b"b".to_vec() },
        BlockMeta { offset: 10, first_key: b"a".to_vec() },
    ];
    assert!(!index_is_ordered(&keys_fall, 20));
    let offsets_fall = vec![
        BlockMeta { offset: 5, first_key: b"a".to_vec() },
        BlockMeta { offset: 4, first_key: b"b".to_vec() },
    ];
    assert!(!index_is_ordered(&offsets_fall, 20));
}

#[test]
fn table_file_layout() {
    let mut b = SsTableBuilder::new(100);
    assert_eq!(b.add(b"a", b"b"), Ok(()));
    let t = b.build(3);
    assert_eq!(t.id(), 3);
    assert_eq!(
        t.file().bytes(),
        &[
            0, 0, 0, 1, b'a', 0, 0, 0, 1, b'b', // the one block
            0, 0, 0, 5, 0, 0, 0, 0, b'a', // its index entry
            0, 0, 0, 10, // where the index starts
        ]
    );
    assert_eq!(t.file().size(), 23);
    assert_eq!(t.file().read(4, 1), b"a".to_vec());
}

#[test]
fn empty_table() {
    let t = SsTableBuilder::new(64).build(0);
    assert_eq!(t.num_of_blocks(), 0);
    assert_eq!(t.file().bytes(), &[0, 0, 0, 0]);
    assert_eq!(t.find_block_idx(b"x"), 0);
    let table = Arc::new(t);
    let mut it = SsTableIterator::create_and_seek_to_first(table.clone()).ok().unwrap();
    assert!(!it.is_valid());
    assert_eq!(it.next(), Ok(()));
    assert!(!it.is_valid());
    assert_eq!(it.seek_to_key(b"a"), Ok(()));
    assert!(!it.is_valid());
    assert_eq!(it.seek_to_first(), Ok(()));
    assert!(!it.is_valid());
    let it2 = SsTableIterator::create_and_seek_to_key(table, b"a").ok().unwrap();
    assert!(!it2.is_valid());
}

#[test]
fn block_rollover_and_estimated_size() {
    let mut b = SsTableBuilder::new(30);
    assert_eq!(b.estimated_size(), 0);
    assert_eq!(b.add(b"a", b"1"), Ok(()));
    assert_eq!(b.add(b"b", b"2"), Ok(()));
    assert_eq!(b.add(b"c", b"3"), Ok(()));
    assert_eq!(b.estimated_size(), 0);
    assert_eq!(b.add(b"e", b"5"), Ok(()));
    assert_eq!(b.estimated_size(), 30);
    assert_eq!(b.add(b"f", b"6"), Ok(()));
    assert_eq!(b.add(b"g", b"7"), Ok(()));
    assert_eq!(b.estimated_size(), 30);
    assert_eq!(b.add(b"h", b"8"), Ok(()));
    assert_eq!(b.estimated_size(), 60);
    let t = b.build(1);
    assert_eq!(t.num_of_blocks(), 3);
    assert_eq!(t.block_offset(0), 0);
    assert_eq!(t.block_offset(1), 30);
    assert_eq!(t.block_offset(2), 60);
    assert_eq!(t.first_key(0), b"a");
    assert_eq!(t.first_key(1), b"e");
    assert_eq!(t.first_key(2), b"h");
    assert_eq!(t.file().size(), 70 + 3 * 9 + 4);
}

#[test]
fn first_keys_and_offsets_ascend() {
    let t = build_numbered(200, 128);
    let n = t.num_of_blocks();
    assert!(n > 1);
    let mut expected_offset = 0usize;
    for i in 0..n {
        assert_eq!(t.block_offset(i), expected_offset);
        let block = t.read_block(i).ok().unwrap();
        assert_eq!(block.key(0), t.first_key(i));
        expected_offset += block.encode().len();
        if i > 0 {
            assert!(key_less(t.first_key(i - 1), t.first_key(i)));
            assert!(t.block_offset(i - 1) < t.block_offset(i));
        }
    }
}

#[test]
fn find_block_idx_picks_last_block_not_after_key() {
    let t = letters(30, &["b", "c", "d", "f", "g", "h", "k"]);
    assert_eq!(t.num_of_blocks(), 3);
    assert_eq!(t.find_block_idx(b"a"), 0);
    assert_eq!(t.find_block_idx(b"b"), 0);
    assert_eq!(t.find_block_idx(b"e"), 0);
    assert_eq!(t.find_block_idx(b"f"), 1);
    assert_eq!(t.find_block_idx(b"j"), 1);
    assert_eq!(t.find_block_idx(b"k"), 2);
    assert_eq!(t.find_block_idx(b"z"), 2);
}

#[test]
fn full_scan_gives_all_entries_for_any_block_size() {
    for block_size in [32usize, 64, 100, 4096, 1 << 20] {
        let t = Arc::new(build_numbered(150, block_size));
        let mut it = SsTableIterator::create_and_seek_to_first(t).ok().unwrap();
        for i in 0..150 {
            assert!(it.is_valid());
            assert_eq!(it.key(), &key_of(i * 2)[..]);
            assert_eq!(it.value(), &value_of(i)[..]);
            assert_eq!(it.next(), Ok(()));
        }
        assert!(!it.is_valid());
        assert_eq!(it.next(), Ok(()));
        assert!(!it.is_valid());
        assert_eq!(it.seek_to_first(), Ok(()));
        assert_eq!(it.key(), &key_of(0)[..]);
    }
}

#[test]
fn seek_lands_on_key_or_next_greater() {
    let t = Arc::new(build_numbered(100, 64));
    assert!(t.num_of_blocks() > 10);
    let mut it = SsTableIterator::create_and_seek_to_first(t.clone()).ok().unwrap();
    for i in 0..100 {
        assert_eq!(it.seek_to_key(&key_of(i * 2)), Ok(()));
        assert!(it.is_valid());
        assert_eq!(it.key(), &key_of(i * 2)[..]);
        assert_eq!(it.value(), &value_of(i)[..]);
        assert_eq!(it.seek_to_key(&key_of(i * 2 + 1)), Ok(()));
        if i + 1 < 100 {
            assert!(it.is_valid());
            assert_eq!(it.key(), &key_of(i * 2 + 2)[..]);
        } else {
            assert!(!it.is_valid());
        }
    }
    assert_eq!(it.seek_to_key(b"a"), Ok(()));
    assert_eq!(it.key(), &key_of(0)[..]);
    assert_eq!(it.seek_to_key(b"z"), Ok(()));
    assert!(!it.is_valid());
    let fresh = SsTableIterator::create_and_seek_to_key(t, &key_of(51)).ok().unwrap();
    assert_eq!(fresh.key(), &key_of(52)[..]);
}

#[test]
fn seek_crosses_block_boundary() {
    let t = Arc::new(letters(30, &["a", "b", "c", "e", "f", "g"]));
    assert_eq!(t.num_of_blocks(), 2);
    assert_eq!(t.first_key(1), b"e");
    assert_eq!(t.find_block_idx(b"d"), 0);
    let mut it = SsTableIterator::create_and_seek_to_key(t.clone(), b"d").ok().unwrap();
    assert!(it.is_valid());
    assert_eq!(it.key(), b"e");
    assert_eq!(it.value(), b"E");
    assert_eq!(it.seek_to_key(b"b"), Ok(()));
    assert_eq!(it.key(), b"b");
    assert_eq!(it.next(), Ok(()));
    assert_eq!(it.key(), b"c");
    assert_eq!(it.next(), Ok(()));
    assert_eq!(it.key(), b"e");
    assert_eq!(it.seek_to_key(b"h"), Ok(()));
    assert!(!it.is_valid());
    assert_eq!(it.seek_to_key(b"g"), Ok(()));
    assert_eq!(it.key(), b"g");
    assert_eq!(it.next(), Ok(()));
    assert!(!it.is_valid());
}

#[test]
fn equal_keys_are_taken() {
    let mut b = SsTableBuilder::new(1000);
    assert_eq!(b.add(b"k", b"1"), Ok(()));
    assert_eq!(b.add(b"k", b"2"), Ok(()));
    let it = SsTableIterator::create_and_seek_to_key(Arc::new(b.build(0)), b"k").ok().unwrap();
    assert_eq!(it.value(), b"1");
}

#[test]
fn add_rejects_key_out_of_order() {
    let mut b = SsTableBuilder::new(30);
    assert_eq!(b.add(b"m", b"1"), Ok(()));
    assert_eq!(b.add(b"a", b"2"), Err(TableError::OrderingViolation));
    assert_eq!(b.add(b"n", b"3"), Ok(()));
    assert_eq!(b.add(b"o", b"3"), Ok(()));
    assert_eq!(b.add(b"p", b"3"), Ok(()));
    assert_eq!(b.add(b"b", b"3"), Err(TableError::OrderingViolation));
    let t = b.build(0);
    assert_eq!(t.num_of_blocks(), 2);
    assert_eq!(t.first_key(1), b"p");
}

#[test]
fn add_gives_large_entry_a_block_of_its_own() {
    let mut b = SsTableBuilder::new(16);
    assert_eq!(b.add(b"aaaa", b"bbbbb"), Ok(()));
    assert_eq!(b.estimated_size(), 0);
    assert_eq!(b.add(b"bbbb", b"cccc"), Ok(()));
    assert_eq!(b.estimated_size(), 17);
    assert_eq!(b.add(b"cccc", b"a value far longer than the block size"), Ok(()));
    assert_eq!(b.estimated_size(), 33);
    assert_eq!(b.add(b"d", b""), Ok(()));
    assert_eq!(b.estimated_size(), 33 + 8 + 4 + 38);
    assert_eq!(b.rejection(b"e", b""), None);
    assert_eq!(b.rejection(b"a", b""), Some(TableError::OrderingViolation));
    let t = b.build_for_test();
    assert_eq!(t.id(), 0);
    assert_eq!(t.num_of_blocks(), 4);
    assert_eq!(t.first_key(2), b"cccc");
    assert_eq!(t.first_key(3), b"d");
    let it = SsTableIterator::create_and_seek_to_key(Arc::new(t), b"cc").ok().unwrap();
    assert_eq!(it.key(), b"cccc");
    assert_eq!(it.value(), b"a value far longer than the block size");
}

#[test]
fn small_block_size_gives_one_block_per_entry() {
    let mut b = SsTableBuilder::new(8);
    assert_eq!(b.add(b"aaaa", b"1111"), Ok(()));
    assert_eq!(b.estimated_size(), 0);
    assert_eq!(b.add(b"bbbb", b"2222"), Ok(()));
    assert_eq!(b.estimated_size(), 16);
    let t = b.build(0);
    assert_eq!(t.num_of_blocks(), 2);
    assert_eq!(t.block_offset(0), 0);
    assert_eq!(t.first_key(0), b"aaaa");
    assert_eq!(t.block_offset(1), 16);
    assert_eq!(t.first_key(1), b"bbbb");
    let mut it = SsTableIterator::create_and_seek_to_first(Arc::new(t)).ok().unwrap();
    assert_eq!(it.key(), b"aaaa");
    assert_eq!(it.value(), b"1111");
    assert_eq!(it.next(), Ok(()));
    assert!(it.is_valid());
    assert_eq!(it.key(), b"bbbb");
    assert_eq!(it.value(), b"2222");
    assert_eq!(it.next(), Ok(()));
    assert!(!it.is_valid());
}

#[test]
fn open_reads_back_a_built_table() {
    let built = build_numbered(60, 80);
    let bytes = built.file().bytes().to_vec();
    let opened = SsTable::open(9, FileObject::create(bytes)).ok().unwrap();
    assert_eq!(opened.id(), 9);
    assert_eq!(opened.num_of_blocks(), built.num_of_blocks());
    for i in 0..built.num_of_blocks() {
        assert_eq!(opened.block_offset(i), built.block_offset(i));
        assert_eq!(opened.first_key(i), built.first_key(i));
    }
    let mut it = SsTableIterator::create_and_seek_to_first(Arc::new(opened)).ok().unwrap();
    let mut count = 0;
    while it.is_valid() {
        assert_eq!(it.key(), &key_of(count * 2)[..]);
        assert_eq!(it.next(), Ok(()));
        count += 1;
    }
    assert_eq!(count, 60);
}

#[test]
fn open_rejects_malformed_bytes() {
    assert_eq!(SsTable::open(0, FileObject::create(vec![0, 0, 0])).err(), Some(TableError::FormatError));
    assert_eq!(SsTable::open(0, FileObject::create(vec![0, 0, 0, 1])).err(), Some(TableError::FormatError));
    assert_eq!(
        SsTable::open(0, FileObject::create(vec![7, 7, 0, 0, 0, 3, 1, 2, 3, 0, 0, 0, 2])).err(),
        Some(TableError::FormatError)
    );
    // an index entry whose offset lies behind the data region
    assert_eq!(
        SsTable::open(0, FileObject::create(vec![7, 0, 0, 0, 5, 0, 0, 0, 2, b'k', 0, 0, 0, 1])).err(),
        Some(TableError::FormatError)
    );
    assert!(SsTable::open(0, FileObject::create(vec![0, 0, 0, 0])).is_ok());
}

#[test]
fn cursor_reports_block_that_does_not_decode() {
    // one block of three bytes that are no frame, and an index entry for it
    let bytes = vec![9, 9, 9, 0, 0, 0, 5, 0, 0, 0, 0, b'k', 0, 0, 0, 3];
    let t = Arc::new(SsTable::open(0, FileObject::create(bytes)).ok().unwrap());
    assert_eq!(t.num_of_blocks(), 1);
    assert_eq!(t.read_block(0).err(), Some(TableError::FormatError));
    assert_eq!(t.read_block_cached(0).err(), Some(TableError::FormatError));
    assert_eq!(SsTableIterator::create_and_seek_to_first(t.clone()).err(), Some(TableError::FormatError));
    assert_eq!(SsTableIterator::create_and_seek_to_key(t, b"k").err(), Some(TableError::FormatError));
}

#[test]
fn cached_read_equals_plain_read() {
    let t = build_numbered(40, 64);
    for i in 0..t.num_of_blocks() {
        let a = t.read_block(i).ok().unwrap();
        let b = t.read_block_cached(i).ok().unwrap();
        let c = t.read_block_cached(i).ok().unwrap();
        assert_eq!(a.encode(), b.encode());
        assert_eq!(b.encode(), c.encode());
        let start = t.block_offset(i);
        assert_eq!(&t.file().bytes()[start..start + a.encode().len()], &a.encode()[..]);
    }
}
