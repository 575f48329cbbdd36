use memtable::arena::ArenaFull;
use memtable::node::{decode_value, encode_value};
use memtable::order::{compare_bytes, compare_entries, Position};
use memtable::skiplist::{Error, SkipList, MAX_HEIGHT, MAX_VERSION};
use std::collections::{BTreeMap, BTreeSet};

const CAP: u32 = 1 << 22;

fn list() -> SkipList {
    SkipList::new(CAP).unwrap()
}

fn key(i: usize) -> Vec<u8> {
    format!("key{:06}", i).into_bytes()
}

/// What a read at a snapshot resolved to. Keeps "no visible version" and
/// "visible tombstone" apart, since the compaction path depends on that.
#[derive(Debug, PartialEq, Eq)]
enum Read {
    Missing,
    Tombstone(u64),
    Live(u64, Vec<u8>),
}

fn read(list: &SkipList, snapshot: u64, k: &[u8]) -> Read {
    match list.get(snapshot, k) {
        None => Read::Missing,
        Some(e) => {
            assert_eq!(e.key, k, "get returned an entry for a different key");
            assert!(
                e.version <= snapshot,
                "get returned version {} above snapshot {}",
                e.version,
                snapshot
            );
            match e.value {
                None => Read::Tombstone(e.version),
                Some(v) => Read::Live(e.version, v.to_vec()),
            }
        }
    }
}

/// Every entry of the list, in order.
fn scan(list: &SkipList) -> Vec<(Vec<u8>, u64, Option<Vec<u8>>)> {
    let mut out = Vec::new();
    let mut iter = list.iter_all();
    while let Some(e) = iter.next() {
        out.push((e.key.to_vec(), e.version, e.value.map(|v| v.to_vec())));
    }
    out
}

fn live(version: u64, v: &[u8]) -> Read {
    Read::Live(version, v.to_vec())
}

/// xorshift64, so the randomized tests are reproducible without a dev-dependency
struct Rng(u64);

impl Rng {
    fn new(seed: u64) -> Self {
        Rng(seed | 1)
    }
    fn next(&mut self) -> u64 {
        let mut x = self.0;
        x ^= x << 13;
        x ^= x >> 7;
        x ^= x << 17;
        self.0 = x;
        x
    }
    fn below(&mut self, n: u64) -> u64 {
        self.next() % n
    }
}

// ---------------------------------------------------------------- basics

#[test]
fn empty_list_reads_nothing() {
    let l = list();
    assert!(l.is_empty());
    assert_eq!(l.len(), 0);
    assert_eq!(read(&l, MAX_VERSION, b"anything"), Read::Missing);
    assert_eq!(scan(&l).len(), 0);
}

#[test]
fn insert_then_get() {
    let mut l = list();
    l.insert(1, b"k", b"v").unwrap();
    assert_eq!(read(&l, 1, b"k"), live(1, b"v"));
    assert_eq!(l.len(), 1);
    assert!(!l.is_empty());
}

#[test]
fn get_of_absent_key_is_missing() {
    let mut l = list();
    l.insert(1, b"b", b"vb").unwrap();
    assert_eq!(read(&l, 1, b"a"), Read::Missing);
    assert_eq!(read(&l, 1, b"c"), Read::Missing);
}

#[test]
fn get_does_not_match_on_prefix() {
    let mut l = list();
    l.insert(1, b"abc", b"v").unwrap();
    assert_eq!(read(&l, 1, b"ab"), Read::Missing);
    assert_eq!(read(&l, 1, b"abcd"), Read::Missing);
    assert_eq!(read(&l, 1, b"abc"), live(1, b"v"));
}

#[test]
fn empty_key_and_empty_value_round_trip() {
    let mut l = list();
    l.insert(1, b"", b"v").unwrap();
    l.insert(1, b"k", b"").unwrap();
    assert_eq!(read(&l, 1, b""), live(1, b"v"));
    assert_eq!(read(&l, 1, b"k"), live(1, b""));
    // an empty value is emphatically not a tombstone
    assert_ne!(read(&l, 1, b"k"), Read::Tombstone(1));
}

#[test]
fn keys_come_back_sorted_regardless_of_insert_order() {
    let mut l = list();
    let mut rng = Rng::new(7);
    let mut expected: Vec<Vec<u8>> = (0..500).map(key).collect();
    let mut order: Vec<usize> = (0..500).collect();
    for i in (1..order.len()).rev() {
        order.swap(i, rng.below(i as u64 + 1) as usize);
    }
    for i in order {
        l.insert(1, &key(i), &key(i)).unwrap();
    }
    expected.sort();
    let got: Vec<Vec<u8>> = scan(&l).into_iter().map(|(k, _, _)| k).collect();
    assert_eq!(got, expected);
    assert_eq!(l.len(), 500);
}

#[test]
fn binary_key_ordering_is_bytewise() {
    let mut l = list();
    for k in [&b"a"[..], b"ab", b"b", b"", b"\x00", b"\xff", b"a\x00"] {
        l.insert(1, k, b"v").unwrap();
    }
    let got: Vec<Vec<u8>> = scan(&l).into_iter().map(|(k, _, _)| k).collect();
    let mut want: Vec<Vec<u8>> = [&b"a"[..], b"ab", b"b", b"", b"\x00", b"\xff", b"a\x00"]
        .iter()
        .map(|k| k.to_vec())
        .collect();
    want.sort();
    assert_eq!(got, want);
}

// ---------------------------------------------------------------- MVCC

#[test]
fn snapshot_sees_newest_version_at_or_below_it() {
    let mut l = list();
    l.insert(10, b"k", b"v10").unwrap();
    l.insert(20, b"k", b"v20").unwrap();
    l.insert(30, b"k", b"v30").unwrap();

    assert_eq!(read(&l, 9, b"k"), Read::Missing);
    assert_eq!(read(&l, 10, b"k"), live(10, b"v10"));
    assert_eq!(read(&l, 19, b"k"), live(10, b"v10"));
    assert_eq!(read(&l, 20, b"k"), live(20, b"v20"));
    assert_eq!(read(&l, 29, b"k"), live(20, b"v20"));
    assert_eq!(read(&l, 30, b"k"), live(30, b"v30"));
    assert_eq!(read(&l, MAX_VERSION, b"k"), live(30, b"v30"));
    assert_eq!(l.len(), 3);
}

#[test]
fn versions_are_written_out_newest_first() {
    let mut l = list();
    // insert out of order on purpose
    l.insert(20, b"k", b"v20").unwrap();
    l.insert(30, b"k", b"v30").unwrap();
    l.insert(10, b"k", b"v10").unwrap();
    l.insert(15, b"j", b"j15").unwrap();

    let got: Vec<(Vec<u8>, u64)> = scan(&l).into_iter().map(|(k, v, _)| (k, v)).collect();
    assert_eq!(
        got,
        vec![
            (b"j".to_vec(), 15),
            (b"k".to_vec(), 30),
            (b"k".to_vec(), 20),
            (b"k".to_vec(), 10),
        ]
    );
}

#[test]
fn version_zero_is_a_usable_version() {
    let mut l = list();
    l.insert(0, b"k", b"v0").unwrap();
    assert_eq!(read(&l, 0, b"k"), live(0, b"v0"));
    assert_eq!(read(&l, MAX_VERSION, b"k"), live(0, b"v0"));
}

#[test]
fn max_version_is_a_usable_version() {
    let mut l = list();
    l.insert(MAX_VERSION, b"k", b"top").unwrap();
    l.insert(1, b"k", b"bottom").unwrap();
    assert_eq!(read(&l, MAX_VERSION, b"k"), live(MAX_VERSION, b"top"));
    assert_eq!(read(&l, MAX_VERSION - 1, b"k"), live(1, b"bottom"));
}

#[test]
fn same_version_on_same_key_upserts_in_place() {
    let mut l = list();
    l.insert(5, b"k", b"first").unwrap();
    assert_eq!(l.len(), 1);
    let allocated_after_first = l.allocated();

    l.insert(5, b"k", b"second").unwrap();
    assert_eq!(read(&l, 5, b"k"), live(5, b"second"));
    assert_eq!(l.len(), 1, "an upsert must not create a second node");
    assert_eq!(scan(&l).len(), 1);

    // only the value bytes should have been consumed, not a whole node
    let grew_by = l.allocated() - allocated_after_first;
    assert!(
        grew_by <= b"second".len() + 8,
        "upsert allocated {} bytes, expected roughly the value only",
        grew_by
    );
}

#[test]
fn upsert_reaches_a_node_found_above_level_zero() {
    // force enough entries that some node lives high in the tower, then
    // rewrite every one of them at the same version
    let mut l = list();
    for i in 0..2000 {
        l.insert(1, &key(i), b"a").unwrap();
    }
    for i in 0..2000 {
        l.insert(1, &key(i), b"b").unwrap();
    }
    assert_eq!(l.len(), 2000);
    for i in 0..2000 {
        assert_eq!(read(&l, 1, &key(i)), live(1, b"b"));
    }
}

// ---------------------------------------------------------------- tombstones

#[test]
fn tombstone_hides_older_live_version() {
    let mut l = list();
    l.insert(1, b"k", b"v1").unwrap();
    l.remove(2, b"k").unwrap();

    assert_eq!(read(&l, 1, b"k"), live(1, b"v1"));
    assert_eq!(read(&l, 2, b"k"), Read::Tombstone(2));
    assert_eq!(read(&l, MAX_VERSION, b"k"), Read::Tombstone(2));
    assert_eq!(l.len(), 2, "a tombstone is its own version");
}

#[test]
fn resurrect_after_tombstone() {
    let mut l = list();
    l.insert(1, b"k", b"v1").unwrap();
    l.remove(2, b"k").unwrap();
    l.insert(3, b"k", b"v3").unwrap();

    assert_eq!(read(&l, 1, b"k"), live(1, b"v1"));
    assert_eq!(read(&l, 2, b"k"), Read::Tombstone(2));
    assert_eq!(read(&l, 3, b"k"), live(3, b"v3"));
}

#[test]
fn tombstone_on_a_key_that_was_never_written() {
    let mut l = list();
    l.remove(1, b"ghost").unwrap();
    assert_eq!(read(&l, 1, b"ghost"), Read::Tombstone(1));
    assert_eq!(read(&l, 0, b"ghost"), Read::Missing);
    assert_eq!(l.len(), 1);
}

#[test]
fn tombstone_can_be_overwritten_by_a_live_value_at_the_same_version() {
    let mut l = list();
    l.remove(4, b"k").unwrap();
    assert_eq!(read(&l, 4, b"k"), Read::Tombstone(4));
    l.insert(4, b"k", b"back").unwrap();
    assert_eq!(read(&l, 4, b"k"), live(4, b"back"));
    l.remove(4, b"k").unwrap();
    assert_eq!(read(&l, 4, b"k"), Read::Tombstone(4));
    assert_eq!(l.len(), 1);
}

#[test]
fn tombstone_on_one_key_does_not_shadow_its_neighbours() {
    let mut l = list();
    l.insert(1, b"a", b"va").unwrap();
    l.insert(1, b"b", b"vb").unwrap();
    l.insert(1, b"c", b"vc").unwrap();
    l.remove(2, b"b").unwrap();

    assert_eq!(read(&l, 2, b"a"), live(1, b"va"));
    assert_eq!(read(&l, 2, b"b"), Read::Tombstone(2));
    assert_eq!(read(&l, 2, b"c"), live(1, b"vc"));
}

// ---------------------------------------------------------------- capacity

#[test]
fn arena_exhaustion_is_reported_not_panicked() {
    let mut l = SkipList::new(4096).unwrap();
    let mut written = Vec::new();
    let mut i = 0;
    let err = loop {
        assert!(i < 100_000, "a 4 KiB arena should have filled by now");
        match l.insert(1, &key(i), b"0123456789abcdef") {
            Ok(()) => written.push(i),
            Err(e) => break e,
        }
        i += 1;
    };
    assert_eq!(err, Error::Full);
    assert!(!written.is_empty(), "nothing fit at all");

    // everything that was accepted before the failure is still readable
    for i in &written {
        assert_eq!(read(&l, 1, &key(*i)), live(1, b"0123456789abcdef"));
    }
    assert_eq!(scan(&l).len(), written.len());
    assert!(l.remaining() < l.capacity());
}

#[test]
fn a_full_arena_stays_full() {
    let mut l = SkipList::new(4096).unwrap();
    let mut i = 0;
    while l.insert(1, &key(i), b"0123456789abcdef").is_ok() {
        i += 1;
    }
    for _ in 0..10 {
        assert_eq!(l.insert(1, b"x", b"y"), Err(Error::Full));
    }
}

#[test]
fn capacity_accounting() {
    let mut l = list();
    assert_eq!(l.capacity(), CAP as usize);
    let before = l.allocated();
    l.insert(1, b"k", b"v").unwrap();
    assert!(l.allocated() > before);
    assert_eq!(l.allocated() + l.remaining(), l.capacity());
}

// ---------------------------------------------------------------- height / RNG

#[test]
fn random_height_is_in_range() {
    let mut l = list();
    for _ in 0..10_000 {
        let h = l.random_height();
        assert!((1..=MAX_HEIGHT).contains(&h), "height {} out of range", h);
    }
}

#[test]
fn random_height_actually_varies() {
    let mut l = list();
    let mut seen = BTreeSet::new();
    for _ in 0..10_000 {
        seen.insert(l.random_height());
    }
    assert!(
        seen.len() >= 4,
        "only saw heights {:?} in 10k draws; the height RNG is not advancing",
        seen
    );
}

#[test]
fn random_height_follows_the_quarter_branching_factor() {
    let mut l = list();
    const N: usize = 100_000;
    let mut counts = [0usize; MAX_HEIGHT + 1];
    for _ in 0..N {
        counts[l.random_height()] += 1;
    }
    let p1 = counts[1] as f64 / N as f64;
    let p2 = counts[2] as f64 / N as f64;
    assert!(
        (p1 - 0.75).abs() < 0.03,
        "P(height==1) was {:.3}, expected ~0.75 (counts {:?})",
        p1,
        &counts[..6]
    );
    assert!(
        (p2 - 0.1875).abs() < 0.03,
        "P(height==2) was {:.3}, expected ~0.1875",
        p2
    );
}

#[test]
fn list_height_grows_with_the_entry_count() {
    let mut l = list();
    assert_eq!(l.height(), 1);
    for i in 0..20_000 {
        l.insert(1, &key(i), b"v").unwrap();
    }
    let h = l.height();
    // log4(20000) is about 7; anything below 4 means towers are not being built
    assert!(
        h >= 4,
        "list height is {} after 20k inserts, so the index levels are not doing any work",
        h
    );
    assert!(h as usize <= MAX_HEIGHT);
}

// ---------------------------------------------------------------- model check

#[test]
fn matches_a_btreemap_model() {
    const KEYS: u64 = 40;
    const VERSIONS: u64 = 12;

    let mut l = list();
    let mut model: BTreeMap<(Vec<u8>, u64), Option<Vec<u8>>> = BTreeMap::new();
    let mut rng = Rng::new(0xDEAD_BEEF);

    for step in 0..8_000u64 {
        let k = key(rng.below(KEYS) as usize);
        let v = rng.below(VERSIONS) + 1;
        if rng.below(4) == 0 {
            l.remove(v, &k).unwrap();
            model.insert((k, v), None);
        } else {
            let payload =
                format!("{}@{}#{}", String::from_utf8_lossy(&k), v, step).into_bytes();
            l.insert(v, &k, &payload).unwrap();
            model.insert((k, v), Some(payload));
        }
    }

    for ki in 0..KEYS {
        let k = key(ki as usize);
        for snapshot in 0..=VERSIONS + 1 {
            let want = model
                .range((k.clone(), 0)..=(k.clone(), snapshot))
                .next_back()
                .map(|((_, ver), val)| match val {
                    None => Read::Tombstone(*ver),
                    Some(v) => Read::Live(*ver, v.clone()),
                })
                .unwrap_or(Read::Missing);
            assert_eq!(
                read(&l, snapshot, &k),
                want,
                "mismatch for key {:?} at snapshot {}",
                String::from_utf8_lossy(&k),
                snapshot
            );
        }
    }

    // the full scan must agree with the model, in key ASC / version DESC order
    let scanned: Vec<(Vec<u8>, u64, Option<Vec<u8>>)> = scan(&l);
    let mut expected: Vec<(Vec<u8>, u64, Option<Vec<u8>>)> = model
        .iter()
        .map(|((k, v), val)| (k.clone(), *v, val.clone()))
        .collect();
    expected.sort_by(|a, b| a.0.cmp(&b.0).then(b.1.cmp(&a.1)));
    assert_eq!(scanned, expected);
    assert_eq!(l.len(), model.len());
}

// ---------------------------------------------------------------- exact values

#[test]
fn the_head_needs_its_room() {
    // 8 reserved bytes, then 24 bytes of fields and 20 links of 4
    assert!(matches!(SkipList::new(9), Err(Error::Full)));
    assert!(matches!(SkipList::new(111), Err(Error::Full)));
    let mut l = SkipList::new(112).unwrap();
    assert_eq!(l.allocated(), 112);
    assert_eq!(l.remaining(), 0);
    assert_eq!(l.remove(1, b""), Err(Error::Full));
    assert_eq!(read(&l, 1, b""), Read::Missing);
}

#[test]
fn drawn_heights_are_reproducible() {
    let mut l = list();
    let got: Vec<usize> = (0..30).map(|_| l.random_height()).collect();
    assert_eq!(
        got,
        [
            1, 2, 2, 1, 1, 1, 3, 1, 1, 1, 1, 2, 1, 2, 1, 2, 1, 1, 1, 1, 1, 1, 1, 1, 1, 1, 1, 1, 7,
            1
        ]
    );
}

#[test]
fn a_new_entry_takes_its_key_its_value_and_a_node() {
    let mut l = list();
    assert_eq!(l.allocated(), 112);
    // 5 bytes of text, then at 120 a node of one link
    l.insert(1, b"ab", b"xyz").unwrap();
    assert_eq!(l.allocated(), 120 + 28);
    assert_eq!(l.height(), 1);
    // a tombstone takes no value bytes; at 152 a node of two links
    l.remove(2, b"ab").unwrap();
    assert_eq!(l.allocated(), 152 + 32);
    assert_eq!(l.height(), 2);
    // rewriting takes the value bytes only, and a tombstone none
    l.insert(1, b"ab", b"rewritten").unwrap();
    assert_eq!(l.allocated(), 184 + 9);
    l.remove(1, b"ab").unwrap();
    assert_eq!(l.allocated(), 184 + 9);
    assert_eq!(l.len(), 2);
}

#[test]
fn a_refused_write_keeps_what_it_claimed_and_nothing_else_changes() {
    // the key does not fit
    let mut l = SkipList::new(120).unwrap();
    assert_eq!(l.insert(1, b"nine byte", b""), Err(Error::Full));
    assert_eq!(l.allocated(), 112);
    // the key fits, the value does not
    assert_eq!(l.insert(1, b"four", b"five5"), Err(Error::Full));
    assert_eq!(l.allocated(), 116);
    // the node does not fit
    assert_eq!(l.insert(1, b"a", b"b"), Err(Error::Full));
    assert_eq!(l.allocated(), 118);
    assert_eq!(l.len(), 0);
    assert!(l.is_empty());
    assert_eq!(scan(&l).len(), 0);
}

#[test]
fn a_refused_rewrite_leaves_the_old_value() {
    let mut l = SkipList::new(160).unwrap();
    l.insert(1, b"k", b"old").unwrap();
    let before = l.allocated();
    assert_eq!(l.insert(1, b"k", &[0u8; 40]), Err(Error::Full));
    assert_eq!(read(&l, 1, b"k"), live(1, b"old"));
    assert_eq!(l.allocated(), before);
    // a tombstone always finds room
    assert_eq!(l.remove(1, b"k"), Ok(()));
    assert_eq!(read(&l, 1, b"k"), Read::Tombstone(1));
}

#[test]
fn a_retry_may_fit_with_a_shorter_node() {
    // the second draw is a node of two links, the fourth one of one link
    let mut l = SkipList::new(112 + 28 + 4 + 30).unwrap();
    l.insert(1, b"", b"").unwrap();
    assert_eq!(l.allocated(), 140);
    assert_eq!(l.insert(2, b"", b""), Err(Error::Full));
    assert_eq!(l.insert(2, b"", b""), Err(Error::Full));
    assert_eq!(l.insert(2, b"", b""), Ok(()));
    assert_eq!(l.len(), 2);
}

#[test]
fn a_full_arena_is_the_error_full() {
    assert_eq!(Error::from(ArenaFull), Error::Full);
    assert_ne!(Error::Full, Error::TooLarge);
}

#[test]
fn value_words_round_trip() {
    assert_eq!(encode_value(0, 0), 0);
    assert_eq!(encode_value(0x1234_5678, 0x9abc_def0), 0x1234_5678_9abc_def0);
    for (off, len) in [(0, 0), (8, 1), (u32::MAX, u32::MAX), (1 << 31, 7)] {
        assert_eq!(decode_value(encode_value(off, len)), (off, len));
    }
    assert_eq!(decode_value(u64::MAX - 1), (u32::MAX, u32::MAX - 1));
    for word in [0, 1, 0xffff_ffff, 0x1_0000_0000, 0x0123_4567_89ab_cdef, u64::MAX] {
        let (off, len) = decode_value(word);
        assert_eq!(encode_value(off, len), word);
    }
}

#[test]
fn entries_are_ordered_by_key_then_by_version_downwards() {
    assert_eq!(compare_bytes(b"", b""), Position::Same);
    assert_eq!(compare_bytes(b"", b"a"), Position::Before);
    assert_eq!(compare_bytes(b"ab", b"a"), Position::After);
    assert_eq!(compare_bytes(b"a\xff", b"b"), Position::Before);
    assert_eq!(compare_entries(b"a", 1, b"b", 9), Position::Before);
    assert_eq!(compare_entries(b"a", 9, b"a", 1), Position::Before);
    assert_eq!(compare_entries(b"a", 1, b"a", 9), Position::After);
    assert_eq!(compare_entries(b"a", 4, b"a", 4), Position::Same);
}

#[test]
fn a_write_leaves_reads_below_it_and_of_other_keys_alone() {
    let mut l = list();
    l.insert(5, b"k", b"five").unwrap();
    l.insert(5, b"other", b"five").unwrap();
    l.insert(9, b"k", b"nine").unwrap();
    l.remove(7, b"k").unwrap();
    assert_eq!(read(&l, 6, b"k"), live(5, b"five"));
    assert_eq!(read(&l, 8, b"k"), Read::Tombstone(7));
    assert_eq!(read(&l, 9, b"k"), live(9, b"nine"));
    assert_eq!(read(&l, 9, b"other"), live(5, b"five"));
}

#[test]
fn an_iterator_stays_at_the_end() {
    let mut l = list();
    l.insert(1, b"k", b"v").unwrap();
    let mut iter = l.iter_all();
    let e = iter.next().unwrap();
    assert_eq!((e.key, e.version, e.value), (&b"k"[..], 1, Some(&b"v"[..])));
    assert!(iter.next().is_none());
    assert!(iter.next().is_none());
}

#[test]
fn a_stored_entry_can_be_removed_from_a_full_list() {
    let mut l = SkipList::new(4096).unwrap();
    let mut n = 0;
    while l.insert(1, &key(n), b"0123456789abcdef").is_ok() {
        n += 1;
    }
    let before = l.allocated();
    for i in 0..n {
        assert_eq!(l.remove(1, &key(i)), Ok(()));
        assert_eq!(read(&l, 1, &key(i)), Read::Tombstone(1));
    }
    assert_eq!(l.allocated(), before);
    assert_eq!(l.len(), n);
}

#[test]
fn a_height_drawn_alone_changes_no_entry() {
    let mut l = list();
    l.insert(1, b"k", b"v").unwrap();
    let before = l.allocated();
    l.random_height();
    assert_eq!(l.len(), 1);
    assert_eq!(l.allocated(), before);
    assert_eq!(read(&l, 1, b"k"), live(1, b"v"));
}
