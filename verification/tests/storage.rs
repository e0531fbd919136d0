use facetql::binary::{
    append_node_record, append_record, crc32, decode_frame, encode_frame, read_all, read_all_records, read_all_records_framed, read_node_record_at,
    read_one_frame,
    read_record_at, Damage, FrameOutcome, NodeRecord, RecordError, Shortage, TailState, UserOpRecord, FRAME_HEADER_LEN,
};
use facetql::btree::seek::SeekMode;
use facetql::btree::{BTree, TreeError};
use facetql::cache::RecordCache;
use facetql::catalog::{Catalog, CatalogError, SegmentMeta};
use facetql::checkpoint::{
    advance, begin_fence, ceiling, min_fence, read, release_fence, write_value, CheckpointError, Fences,
};
use facetql::commit::{CommitError, StagedCommit};
use facetql::heap::{RecordStore, StoreError};
use facetql::keys::{address_from_key, grams, kind_key, kind_prefix};
use facetql::types::RecordLocation;
use facetql::page::{Page, PageKind, Pager};
use facetql::record::HeapRecord;
use facetql::segments::{open_segment_capacity, OpenSegments};
use facetql::types::{Coordinate, Node, UserRecord};
use facetql::wal::{classify_transactions, Operation, Wal, WalOperation, WalRecord};

fn node(address: &str, data: &str) -> Node {
    let mut n =
        Node::new(Coordinate::new(1, 2, 3, 4), address.to_string(), "Thing".to_string(), "alice".to_string());
    n.data = data.to_string();
    n
}

fn copy(pager: &Pager) -> Pager {
    let mut out = Pager::new();
    for id in 0..pager.page_count() {
        out.write(id, pager.read(id).expect("page").copy());
    }
    out
}

fn key(i: usize) -> Vec<u8> {
    format!("key:{i:05}").into_bytes()
}

fn value(i: usize) -> Vec<u8> {
    format!("value {i}").into_bytes()
}

fn keys_in(tree: &BTree, prefix: &[u8], after: Option<&[u8]>, reverse: bool) -> Vec<Vec<u8>> {
    let (seen, outcome) = tree.for_each_range(prefix, after, reverse, |_k: &Vec<u8>, _v: &Vec<u8>| Ok::<bool, String>(true));
    assert_eq!(outcome, Ok(()));
    seen.into_iter().map(|(k, _)| k).collect()
}

#[test]
fn a_tree_reads_what_was_put() {
    let mut tree = BTree::fresh();
    for i in 0..2000 {
        let at = (i * 7919) % 2000;
        tree.put(&key(at), &value(at)).expect("put");
    }
    assert_eq!(tree.len(), 2000);
    for i in 0..2000 {
        assert_eq!(tree.get(&key(i)), Some(value(i)));
    }
    assert_eq!(tree.get(b"nothing"), None);

    tree.put(&key(5), b"new").expect("put");
    assert_eq!(tree.get(&key(5)), Some(b"new".to_vec()));
    assert_eq!(tree.len(), 2000);

    for i in (0..2000).step_by(2) {
        assert_eq!(tree.remove(&key(i)), Ok(true));
    }
    assert_eq!(tree.remove(&key(0)), Ok(false));
    assert_eq!(tree.len(), 1000);
    let all = keys_in(&tree, b"key:", None, false);
    let expected: Vec<Vec<u8>> = (0..2000).filter(|i| i % 2 == 1).map(key).collect();
    assert_eq!(all, expected);
    let back = keys_in(&tree, b"key:", None, true);
    assert_eq!(back, expected.into_iter().rev().collect::<Vec<_>>());
}

#[test]
fn a_tree_seeks_on_either_side() {
    let mut tree = BTree::fresh();
    for i in [10, 20, 30] {
        tree.put(&key(i), &value(i)).expect("put");
    }
    let found = |mode: SeekMode, i: usize| tree.seek(&key(i), mode).map(|(k, _)| k);
    assert_eq!(found(SeekMode::Ge, 20), Some(key(20)));
    assert_eq!(found(SeekMode::Gt, 20), Some(key(30)));
    assert_eq!(found(SeekMode::Le, 20), Some(key(20)));
    assert_eq!(found(SeekMode::Lt, 20), Some(key(10)));
    assert_eq!(found(SeekMode::Gt, 30), None);
    assert_eq!(found(SeekMode::Lt, 10), None);
    assert_eq!(keys_in(&tree, b"key:", Some(&key(10)), false), vec![key(20), key(30)]);
}

#[test]
fn a_tree_refuses_keys_and_values_that_do_not_fit() {
    let mut tree = BTree::fresh();
    assert_eq!(tree.put(b"", b"v"), Err(TreeError::KeyLength(0)));
    assert_eq!(tree.put(&vec![1u8; 1025], b"v"), Err(TreeError::KeyLength(1025)));
    assert_eq!(tree.put(b"k", &vec![1u8; 4097]), Err(TreeError::ValueLength(4097)));
    assert_eq!(tree.put(&vec![1u8; 1024], &vec![1u8; 4096]), Ok(()));
    assert_eq!(tree.len(), 1);
}

#[test]
fn a_crash_keeps_the_committed_tree() {
    let mut tree = BTree::fresh();
    for i in 0..300 {
        tree.put(&key(i), &value(i)).expect("put");
    }
    tree.commit().expect("commit");
    for i in 0..300 {
        tree.put(&key(i), b"not committed").expect("put");
    }
    for i in 300..400 {
        tree.put(&key(i), &value(i)).expect("put");
    }

    let opened = BTree::open(copy(tree.pager())).expect("open");
    assert_eq!(opened.len(), 300);
    for i in 0..300 {
        assert_eq!(opened.get(&key(i)), Some(value(i)));
    }
    assert_eq!(opened.get(&key(300)), None);

    tree.commit().expect("commit");
    let opened = BTree::open(copy(tree.pager())).expect("open");
    assert_eq!(opened.len(), 400);
    assert_eq!(opened.get(&key(7)), Some(b"not committed".to_vec()));
}

#[test]
fn a_torn_commit_leaves_the_one_before() {
    let mut tree = BTree::fresh();
    tree.put(b"a", b"1").expect("put");
    tree.commit().expect("commit");
    let old = copy(tree.pager());
    tree.put(b"a", b"2").expect("put");
    tree.commit().expect("commit");

    let meta = tree.meta_page_id();
    let mut torn = copy(tree.pager());
    torn.write(meta, old.read(meta).expect("page").copy());
    assert_eq!(BTree::open(torn).expect("open").get(b"a"), Some(b"1".to_vec()));
    assert_eq!(BTree::open(copy(tree.pager())).expect("open").get(b"a"), Some(b"2".to_vec()));
}

#[test]
fn a_file_without_pages_is_an_empty_tree() {
    let tree = BTree::open(Pager::new()).expect("open");
    assert_eq!(tree.len(), 0);
    assert_eq!(tree.get(b"a"), None);
}

#[test]
fn a_heap_reads_what_was_appended() {
    let mut store = RecordStore::fresh();
    let small = store.append(&HeapRecord::Node(node("a", "{}"))).expect("append");
    let text = "x".repeat(50_000);
    let large = store.append(&HeapRecord::Node(node("b", &text))).expect("append");
    let third = store.append(&HeapRecord::Node(node("c", "3"))).expect("append");

    match store.read(small).expect("read") {
        HeapRecord::Node(n) => assert_eq!((n.address.as_str(), n.data.as_str()), ("a", "{}")),
        _ => panic!("not a node"),
    }
    match store.read(large).expect("read") {
        HeapRecord::Node(n) => assert_eq!((n.address.as_str(), n.data.len()), ("b", 50_000)),
        _ => panic!("not a node"),
    }

    let found = store.scan_segment(0).expect("scan");
    let places: Vec<RecordLocation> = found.iter().map(|(l, _)| *l).collect();
    assert_eq!(places, vec![small, large, third]);

    assert!(matches!(store.scan_segment(9), Err(StoreError::UnknownSegment { segment: 9 })));
    let nowhere = RecordLocation { segment: 0, page: 900, slot: 0, length: 0 };
    assert!(store.read(nowhere).is_err());
}

#[test]
fn a_location_is_read_back() {
    let l = RecordLocation { segment: 7, page: 70_000, slot: 513, length: 99 };
    assert_eq!(RecordLocation::decode(&l.encode()), Some(l));
    assert_eq!(RecordLocation::decode(&[1, 2, 3]), None);
}

#[test]
fn a_cache_finds_what_was_put_and_stays_small() {
    let mut cache = RecordCache::new(Some(2));
    let at = |page: u32| RecordLocation { segment: 0, page, slot: 0, length: 1 };
    cache.put(at(1), node("a", "1"));
    cache.put(at(2), node("b", "2"));
    assert_eq!(cache.get(at(1)).expect("hit").address, "a");
    cache.put(at(3), node("c", "3"));
    assert!(cache.get(at(2)).is_none(), "the one not used for longest goes");
    assert_eq!(cache.get(at(1)).expect("hit").address, "a");
    assert_eq!(cache.get(at(3)).expect("hit").address, "c");
    cache.invalidate(at(1));
    assert!(cache.get(at(1)).is_none());
}

fn same(bytes: &Vec<u8>) -> Vec<u8> {
    bytes.clone()
}

fn given(bytes: &Vec<u8>) -> Option<Vec<u8>> {
    Some(bytes.clone())
}

#[test]
fn a_catalog_is_read_back() {
    let mut catalog = Catalog::fresh();
    assert_eq!(catalog.roll(), Some(1));
    let file = catalog.save(&same).expect("save");
    let back = Catalog::open(Some(&file), &given).expect("open");
    assert_eq!(back.active_segment(), 1);
    assert_eq!(back.next_segment(), 2);
    assert_eq!(back.segment_count(), 2);
    assert_eq!(back.page_size(), 16_384);

    let fresh = Catalog::open(None, &given).expect("open");
    assert_eq!(fresh.segment_count(), 1);

    let mut torn = file.clone();
    torn.pop();
    assert!(matches!(Catalog::open(Some(&torn), &given), Err(CatalogError::Frame(_))));
    assert!(matches!(
        Catalog::open(Some(&file), &|_b: &Vec<u8>| -> Option<Vec<u8>> { None }),
        Err(CatalogError::Sealed)
    ));
    let other = encode_frame(b"not a catalog").expect("frame");
    assert!(matches!(Catalog::open(Some(&other), &given), Err(CatalogError::Contents)));
}

#[test]
fn a_checkpoint_is_read_back_and_only_moves_forward() {
    let fences = Fences::new();
    assert_eq!(read(None), Ok(0));
    assert_eq!(read(Some(&write_value(94))), Ok(94));
    assert_eq!(read(Some(b"12\n")), Ok(12));
    assert_eq!(read(Some(b" 12\n")), Err(CheckpointError::NotDecimal));
    assert_eq!(read(Some(b"  42")), Err(CheckpointError::NotDecimal));
    assert_eq!(read(Some(b"")), Ok(0));
    assert_eq!(read(Some(b" \n")), Err(CheckpointError::Blank));
    assert_eq!(read(Some(b"12a")), Err(CheckpointError::NotDecimal));
    assert_eq!(read(Some(b"18446744073709551616")), Err(CheckpointError::TooLarge));
    assert_eq!(read(Some(&[0xff, 0xfe])), Err(CheckpointError::NotUtf8));
    assert_eq!(read(Some(&[b'1'; 65])), Err(CheckpointError::TooLong(65)));

    assert_eq!(advance(&fences, Some(b"10"), 12).expect("advance"), Some(write_value(12)));
    assert_eq!(advance(&fences, Some(b"10"), 9).expect("advance"), None);
    assert_eq!(advance(&fences, Some(b"10"), 10).expect("advance"), None);
}

#[test]
fn a_checkpoint_stays_below_every_fence() {
    let mut fences = Fences::new();
    begin_fence(&mut fences, 20);
    begin_fence(&mut fences, 15);
    assert_eq!(min_fence(&fences), Some(15));
    assert_eq!(ceiling(&fences), 14);
    assert_eq!(advance(&fences, Some(b"10"), 30).expect("advance"), Some(write_value(14)));
    release_fence(&mut fences, 15);
    assert_eq!(ceiling(&fences), 19);
    release_fence(&mut fences, 20);
    assert_eq!(min_fence(&fences), None);
    assert_eq!(ceiling(&fences), u64::MAX);
}

#[test]
fn a_frame_is_committed_only_with_its_marker() {
    let mut wal = Wal::new();
    let mut fences = Fences::new();
    let mut frame = StagedCommit::open(&mut wal, &mut fences).expect("open");
    assert_eq!(min_fence(&fences), Some(1));
    assert!(matches!(frame.stage(&mut wal, WalOperation::Commit), Err(CommitError::ControlRecord)));
    frame.stage(&mut wal, WalOperation::Apply(Operation::Delete("a".to_string()))).expect("stage");
    assert!(!classify_transactions(wal.records()).contains(1));
    frame.commit(&mut wal).expect("commit");
    assert!(classify_transactions(wal.records()).contains(1));
    assert!(matches!(frame.commit(&mut wal), Err(CommitError::AlreadyCommitted)));
    frame.settle(&mut wal, &mut fences).expect("settle");
    assert_eq!(min_fence(&fences), None);

    let mut second = StagedCommit::open(&mut wal, &mut fences).expect("open");
    second.stage(&mut wal, WalOperation::Apply(Operation::Delete("b".to_string()))).expect("stage");
    second.abandon(&mut wal, &mut fences);
    assert!(!classify_transactions(wal.records()).contains(2));
    assert_eq!(min_fence(&fences), None);

    let third = StagedCommit::open(&mut wal, &mut fences).expect("open");
    assert!(matches!(third.settle(&mut wal, &mut fences), Err(CommitError::NotCommitted)));
}

#[test]
fn a_log_opens_only_in_order() {
    let record = |sequence: u64, operation: u64| {
        WalRecord::new(sequence, 0, operation, WalOperation::Apply(Operation::Delete("a".to_string())))
    };
    let wal = Wal::open(vec![record(4, 9), record(5, 12)], 0, 3, 10).expect("open");
    assert_eq!(wal.last_sequence(), 5);
    assert_eq!(wal.last_operation_id(), 12);
    assert_eq!(wal.last_transaction_id(), 3);
    assert!(Wal::open(vec![record(4, 9), record(4, 12)], 0, 0, 0).is_none());
    assert!(Wal::open(vec![record(4, 9), record(5, 9)], 0, 0, 0).is_none());
    let empty = Wal::open(Vec::new(), 7, 8, 9).expect("open");
    assert_eq!((empty.last_sequence(), empty.last_transaction_id(), empty.last_operation_id()), (7, 8, 9));
}

#[test]
fn a_checksum_is_the_usual_one() {
    assert_eq!(crc32(b"123456789"), 0xcbf4_3926);
    assert_eq!(crc32(b""), 0);
}

#[test]
fn a_frame_is_read_back_and_damage_is_found() {
    let frame = encode_frame(b"payload").expect("encode");
    assert_eq!(frame.len(), FRAME_HEADER_LEN + 7);
    assert_eq!(decode_frame(&frame).expect("decode"), b"payload".to_vec());

    let mut wrong = frame.clone();
    let last = wrong.len() - 1;
    wrong[last] ^= 1;
    assert!(matches!(read_one_frame(&wrong, 0), FrameOutcome::Corrupt(Damage::Checksum { .. })));
    let mut magic = frame.clone();
    magic[0] ^= 1;
    assert!(matches!(read_one_frame(&magic, 0), FrameOutcome::Corrupt(Damage::Magic)));
    assert!(matches!(
        read_one_frame(&frame[..5], 0),
        FrameOutcome::Truncated(Shortage::Header { present: 5 })
    ));
    assert!(matches!(
        read_one_frame(&frame[..15], 0),
        FrameOutcome::Truncated(Shortage::Payload { declared: 7, present: 2 })
    ));
}

#[test]
fn a_torn_end_of_a_log_is_dropped() {
    let mut log: Vec<u8> = Vec::new();
    assert_eq!(append_record(&mut log, b"one").expect("append"), 0);
    let second = append_record(&mut log, b"two").expect("append");
    assert_eq!(second, (FRAME_HEADER_LEN + 3) as u64);
    assert_eq!(read_record_at(&log, second, given).expect("read"), b"two".to_vec());

    let whole = read_all_records(&log, given).expect("read");
    assert_eq!(whole, vec![(0, b"one".to_vec()), (second, b"two".to_vec())]);

    let torn = &log[..log.len() - 1];
    let (records, tail) = read_all_records_framed(torn, given).expect("read");
    assert_eq!(records, vec![(0, b"one".to_vec())]);
    assert!(matches!(tail, TailState::Truncated { offset, .. } if offset == second));
    assert_eq!(read_all_records(torn, given).expect("read").len(), 1);
    assert!(matches!(read_record_at(torn, second, given), Err(RecordError::Truncated { .. })));
    assert!(matches!(
        read_all_records(&log, |_b: &Vec<u8>| -> Option<u8> { None }),
        Err(RecordError::Unreadable { offset: 0 })
    ));
}

#[test]
fn a_node_that_is_created_again_survives() {
    let mut log: Vec<u8> = Vec::new();
    let put = |n: Node| NodeRecord::Put(n);
    append_node_record(&mut log, &put(node("a", "1")), same).expect("append");
    append_node_record(&mut log, &NodeRecord::Delete("a".to_string()), same).expect("append");
    append_node_record(&mut log, &put(node("b", "2")), same).expect("append");
    let again = append_node_record(&mut log, &put(node("a", "3")), same).expect("append");

    let found = read_all(&log, given).expect("read");
    let mut live: Vec<(String, String)> = Vec::new();
    for (_, record) in &found {
        match record {
            NodeRecord::Put(n) => {
                live.retain(|(a, _)| *a != n.address);
                live.push((n.address.clone(), n.data.clone()));
            }
            NodeRecord::Delete(a) => live.retain(|(b, _)| b != a),
        }
    }
    assert_eq!(live, vec![("b".to_string(), "2".to_string()), ("a".to_string(), "3".to_string())]);
    match read_node_record_at(&log, again, given).expect("read") {
        NodeRecord::Put(n) => assert_eq!(n.data, "3"),
        NodeRecord::Delete(_) => panic!("not a put"),
    }
}

#[test]
fn a_user_record_is_read_back() {
    let put = UserOpRecord::Put(UserRecord {
        token_hash: "h".to_string(),
        owner: "alice".to_string(),
        is_admin: true,
    });
    match UserOpRecord::decode(&put.encode()).expect("decode") {
        UserOpRecord::Put(u) => assert_eq!((u.token_hash.as_str(), u.owner.as_str(), u.is_admin), ("h", "alice", true)),
        _ => panic!("not a put"),
    }
    let revoke = UserOpRecord::Revoke("h".to_string());
    assert!(matches!(UserOpRecord::decode(&revoke.encode()), Some(UserOpRecord::Revoke(h)) if h == "h"));
    assert!(UserOpRecord::decode(b"?").is_none());
}

#[test]
fn open_segments_are_bounded() {
    assert_eq!(open_segment_capacity(None), 64);
    assert_eq!(open_segment_capacity(Some(3)), 3);
    let mut open = OpenSegments::new();
    for id in 0..5 {
        open.enter(id);
    }
    open.touch(0);
    let closed = open.evict_down_to(3, 4, &vec![1]);
    assert_eq!(closed.len(), 2);
    assert!(!closed.contains(&4) && !closed.contains(&1) && !closed.contains(&0));
    assert_eq!(open.resident().len(), 3);
    open.forget(4);
    assert!(!open.resident().contains(&4));
}

#[test]
fn a_key_gives_its_address_back() {
    let key = kind_key("Thing", "post:1");
    assert!(key.starts_with(&kind_prefix("Thing")));
    assert_eq!(address_from_key(&key, &kind_prefix("Thing")), "post:1");
    assert_eq!(address_from_key(&[0xff, 0x61], &[]), "\u{fffd}a");
}

#[test]
fn a_substring_has_its_grams() {
    let whole = grams("hello world");
    for gram in grams("lo wo") {
        assert!(whole.contains(&gram));
    }
    assert!(grams("ab").is_empty());
    assert_eq!(grams("abcabc").len(), 3);
    assert_eq!(grams("ABC"), grams("abc"));
}

#[test]
fn a_range_is_visited_wherever_it_starts() {
    let mut tree = BTree::fresh();
    for k in ["a", "b", "b1", "b2", "c"] {
        tree.put(k.as_bytes(), k.as_bytes()).expect("put");
    }
    let b = vec![b"b".to_vec(), b"b1".to_vec(), b"b2".to_vec()];
    let down: Vec<Vec<u8>> = b.iter().rev().cloned().collect();
    assert_eq!(keys_in(&tree, b"b", Some(b""), false), b);
    assert_eq!(keys_in(&tree, b"b", Some(b"a"), false), b);
    assert_eq!(keys_in(&tree, b"b", Some(b"z"), true), down);
    assert_eq!(keys_in(&tree, b"b", Some(b"b1"), false), vec![b"b2".to_vec()]);
    assert_eq!(keys_in(&tree, b"b", Some(b"b1"), true), vec![b"b".to_vec()]);
    assert_eq!(keys_in(&tree, b"b", Some(b"c"), false), Vec::<Vec<u8>>::new());
    assert_eq!(keys_in(&tree, b"b", Some(b"a"), true), Vec::<Vec<u8>>::new());
}

#[test]
fn a_visitor_ends_a_walk() {
    let mut tree = BTree::fresh();
    for i in 0..5 {
        tree.put(&key(i), &value(i)).expect("put");
    }
    let (seen, outcome) =
        tree.for_each_range(b"key:", None, false, |k: &Vec<u8>, _v: &Vec<u8>| Ok::<bool, String>(*k != key(2)));
    assert_eq!((seen.len(), outcome), (3, Ok(())));
    let (seen, outcome) = tree.for_each_range(b"key:", None, true, |k: &Vec<u8>, _v: &Vec<u8>| {
        if *k == key(3) {
            Err("stop".to_string())
        } else {
            Ok(true)
        }
    });
    assert_eq!((seen.len(), outcome), (2, Err("stop".to_string())));
}

#[test]
fn opening_a_tree_finds_what_was_committed() {
    let mut tree = BTree::fresh();
    for i in 0..300 {
        tree.put(&key(i), &value(i)).expect("put");
    }
    tree.commit().expect("commit");
    tree.put(&key(999), &value(999)).expect("put");
    tree.remove(&key(7)).expect("remove");
    let opened = BTree::open(copy(tree.pager())).expect("open");
    assert_eq!(opened.len(), 300);
    assert_eq!(opened.get(&key(7)), Some(value(7)));
    assert_eq!(opened.get(&key(999)), None);
}

#[test]
fn a_log_of_frames_reads_back_up_to_its_torn_end() {
    let mut log: Vec<u8> = Vec::new();
    let mut starts = Vec::new();
    for payload in ["one", "", "three"] {
        starts.push(append_record(&mut log, payload.as_bytes()).expect("append"));
    }
    let whole = log.len();
    append_record(&mut log, b"torn").expect("append");
    let read = |p: &Vec<u8>| String::from_utf8(p.clone()).ok();
    for end in whole..log.len() {
        let (records, tail) = read_all_records_framed(&log[..end], read).expect("read");
        let want: Vec<(u64, String)> =
            starts.iter().cloned().zip(["one", "", "three"].iter().map(|s| s.to_string())).collect();
        assert_eq!(records, want);
        if end == whole {
            assert_eq!(tail, TailState::Clean);
        } else {
            assert!(matches!(tail, TailState::Truncated { offset, .. } if offset == whole as u64));
        }
    }
    let refused = |p: &Vec<u8>| if p.is_empty() { None } else { Some(p.len()) };
    assert_eq!(read_all_records(&log, refused), Err(RecordError::Unreadable { offset: starts[1] }));
}

#[test]
fn a_damaged_tree_is_not_opened() {
    let mut tree = BTree::fresh();
    for i in 0..2000 {
        tree.put(&key(i), &value(i)).expect("put");
    }
    tree.commit().expect("commit");
    let whole = copy(tree.pager());
    assert_eq!(BTree::open(copy(&whole)).expect("open").len(), 2000);
    let mut refused = 0;
    for id in 2..whole.page_count() {
        let mut damaged = copy(&whole);
        damaged.write(id, Page::new(PageKind::Leaf));
        match BTree::open(damaged) {
            Ok(opened) => assert_eq!(opened.len(), 2000, "the page is none of the tree's"),
            Err(e) => {
                assert_eq!(e, TreeError::Damaged);
                refused += 1;
            }
        }
    }
    assert!(refused >= 2);
}

#[test]
fn a_catalog_is_written_as_plain_numbers() {
    let mut catalog = Catalog::fresh();
    catalog.set_segment(0, SegmentMeta { id: 0, pages: 258, obsolete_bytes: 77 });
    assert_eq!(catalog.roll(), Some(1));
    let file = catalog.save(&same).expect("save");
    let plain = decode_frame(&file).expect("frame");
    let mut expected: Vec<u8> = Vec::new();
    expected.extend_from_slice(&[1, 0, 0, 0, 0, 0x40, 0, 0, 2, 0, 0, 0, 1, 0, 0, 0]);
    expected.extend_from_slice(&[2, 0, 0, 0, 0, 0, 0, 0]);
    expected.extend_from_slice(&[0, 0, 0, 0, 2, 1, 0, 0, 77, 0, 0, 0, 0, 0, 0, 0]);
    expected.extend_from_slice(&[1, 0, 0, 0, 0, 0, 0, 0, 0, 0, 0, 0, 0, 0, 0, 0]);
    assert_eq!(plain, expected);

    let back = Catalog::open(Some(&encode_frame(&expected).expect("frame")), &given).expect("open");
    assert_eq!(back.segment_count(), 2);
    assert_eq!(back.segment(0), SegmentMeta { id: 0, pages: 258, obsolete_bytes: 77 });
    assert_eq!(back.segment(1), SegmentMeta { id: 1, pages: 0, obsolete_bytes: 0 });

    let mut later = expected.clone();
    later[0] = 9;
    assert!(matches!(
        Catalog::open(Some(&encode_frame(&later).expect("frame")), &given),
        Err(CatalogError::FormatVersion { found: 9 })
    ));
    let mut wide = expected.clone();
    wide[5] = 0x20;
    assert!(matches!(
        Catalog::open(Some(&encode_frame(&wide).expect("frame")), &given),
        Err(CatalogError::PageSize { found: 0x2000 })
    ));
}

#[test]
fn a_cache_keeps_the_capacity_it_is_given() {
    let at = |page: u32| RecordLocation { segment: 0, page, slot: 0, length: 1 };
    let mut unbounded = RecordCache::new(Some(usize::MAX));
    let mut default = RecordCache::new(Some(0));
    for page in 0..4097 {
        unbounded.put(at(page), node("a", "1"));
        default.put(at(page), node("a", "1"));
    }
    assert!(unbounded.get(at(0)).is_some());
    assert!(default.get(at(0)).is_none());
    assert!(default.get(at(1)).is_some());
}

#[test]
fn a_full_segment_is_followed_by_a_fresh_one() {
    let mut store = RecordStore::fresh();
    let filler = "x".repeat(16_000);
    let page = HeapRecord::Node(node("a", &filler));
    for i in 0..4096 {
        let l = store.append(&page).expect("append");
        assert_eq!((l.segment, l.page), (0, i));
    }
    let short = store.append(&HeapRecord::Node(node("b", "1"))).expect("append");
    assert_eq!((short.segment, short.page), (0, 4095), "the last page has room");
    let long = HeapRecord::Node(node("c", &"y".repeat(40_000)));
    let l = store.append(&long).expect("append");
    assert_eq!(l.segment, 1, "a record of several pages goes to a fresh segment");
    let next = store.append(&page).expect("append");
    assert_eq!(next.segment, 1);
    match store.read(l).expect("read") {
        HeapRecord::Node(n) => assert_eq!(n.data.len(), 40_000),
        _ => panic!("not a node"),
    }
}
