//! Writers and readers at work on one list, their steps interleaved.

use memtable::skiplist::lookup::Lookup;
use memtable::skiplist::put::{is_too_large, Put};
use memtable::skiplist::{Error, Scan, SkipList, MAX_VERSION};
use std::collections::BTreeMap;

fn key(i: usize) -> Vec<u8> {
    format!("key{:06}", i).into_bytes()
}

/// One write to be made.
struct Job {
    version: u64,
    key: Vec<u8>,
    value: Option<Vec<u8>>,
}

fn insert(version: u64, key: &[u8], value: &[u8]) -> Job {
    Job {
        version,
        key: key.to_vec(),
        value: Some(value.to_vec()),
    }
}

fn remove(version: u64, key: &[u8]) -> Job {
    Job {
        version,
        key: key.to_vec(),
        value: None,
    }
}

/// A writer with a queue of writes, of which one is in progress.
struct Writer<'a> {
    jobs: &'a [Job],
    next: usize,
    write: Option<Put<'a>>,
    results: Vec<Result<(), Error>>,
}

impl<'a> Writer<'a> {
    fn new(jobs: &'a [Job]) -> Self {
        Writer {
            jobs,
            next: 0,
            write: None,
            results: Vec::new(),
        }
    }

    fn finished(&self) -> bool {
        self.write.is_none() && self.next == self.jobs.len()
    }

    fn step(&mut self, list: &mut SkipList) {
        match self.write.take() {
            None => {
                if self.next < self.jobs.len() {
                    let job = &self.jobs[self.next];
                    self.next += 1;
                    self.write = Some(Put::new(
                        list,
                        job.version,
                        &job.key,
                        job.value.as_deref(),
                    ));
                }
            }
            Some(mut write) => match write.step(list) {
                None => self.write = Some(write),
                Some(result) => self.results.push(result),
            },
        }
    }
}

/// xorshift64, so that every interleaving can be repeated
struct Rng(u64);

impl Rng {
    fn new(seed: u64) -> Self {
        Rng(seed | 1)
    }
    fn next(&mut self) -> u64 {
        let mut x = self.0;
        x ^= x << 13;
        x ^= x >> 7;
        x ^= x << 17;
        self.0 = x;
        x
    }
    fn below(&mut self, n: u64) -> u64 {
        self.next() % n
    }
}

/// Lets the writers take turns until all have finished.
fn interleave(list: &mut SkipList, writers: &mut [Writer], rng: &mut Rng) {
    while writers.iter().any(|w| !w.finished()) {
        let w = rng.below(writers.len() as u64) as usize;
        for _ in 0..rng.below(5) {
            writers[w].step(list);
        }
    }
}

/// Every entry of the list, in order.
fn scan(list: &SkipList) -> Vec<(Vec<u8>, u64, Option<Vec<u8>>)> {
    let mut out = Vec::new();
    let mut iter = list.iter_all();
    while let Some(e) = iter.next() {
        out.push((e.key.to_vec(), e.version, e.value.map(|v| v.to_vec())));
    }
    out
}

/// The version and the value that a read finds.
fn read(list: &SkipList, snapshot: u64, k: &[u8]) -> Option<(u64, Option<Vec<u8>>)> {
    list.get(snapshot, k).map(|e| {
        assert_eq!(e.key, k, "get returned an entry for a different key");
        assert!(e.version <= snapshot, "get went above the snapshot");
        (e.version, e.value.map(|v| v.to_vec()))
    })
}

/// A read whose steps come between those of writers.
fn finish_read(list: &SkipList, lookup: &mut Lookup) -> Option<(u64, Option<Vec<u8>>)> {
    loop {
        if let Some(found) = lookup.step(list) {
            return found.map(|e| (e.version, e.value.map(|v| v.to_vec())));
        }
    }
}

fn live(version: u64, v: &[u8]) -> Option<(u64, Option<Vec<u8>>)> {
    Some((version, Some(v.to_vec())))
}

// ---------------------------------------------------------------- many writers

#[test]
fn concurrent_inserts_of_disjoint_keys() {
    const WRITERS: usize = 8;
    const PER_WRITER: usize = 2_000;
    let mut l = SkipList::new(1 << 24).unwrap();
    let jobs: Vec<Vec<Job>> = (0..WRITERS)
        .map(|t| {
            (0..PER_WRITER)
                .map(|i| {
                    // interleave the ranges so writers collide in the same region
                    let k = key(i * WRITERS + t);
                    insert(1, &k, &k)
                })
                .collect()
        })
        .collect();
    let mut writers: Vec<Writer> = jobs.iter().map(|j| Writer::new(j)).collect();
    interleave(&mut l, &mut writers, &mut Rng::new(11));
    for w in &writers {
        assert!(w.results.iter().all(|r| r.is_ok()));
    }

    let total = WRITERS * PER_WRITER;
    assert_eq!(l.len(), total, "lost or duplicated nodes");
    for i in 0..total {
        let k = key(i);
        assert_eq!(read(&l, 1, &k), live(1, &k), "key {} went missing", i);
    }

    let keys: Vec<Vec<u8>> = scan(&l).into_iter().map(|(k, _, _)| k).collect();
    assert_eq!(keys.len(), total, "level 0 chain lost nodes");
    assert!(
        keys.windows(2).all(|w| w[0] < w[1]),
        "level 0 chain is out of order"
    );
}

#[test]
fn concurrent_versions_of_one_hot_key() {
    const WRITERS: u64 = 8;
    const PER_WRITER: u64 = 500;
    let mut l = SkipList::new(1 << 22).unwrap();
    let jobs: Vec<Vec<Job>> = (0..WRITERS)
        .map(|t| {
            (0..PER_WRITER)
                .map(|i| {
                    let v = i * WRITERS + t + 1;
                    insert(v, b"hot", format!("v{}", v).as_bytes())
                })
                .collect()
        })
        .collect();
    let mut writers: Vec<Writer> = jobs.iter().map(|j| Writer::new(j)).collect();
    interleave(&mut l, &mut writers, &mut Rng::new(12));

    let total = WRITERS * PER_WRITER;
    assert_eq!(l.len(), total as usize);
    for v in 1..=total {
        assert_eq!(
            read(&l, v, b"hot"),
            live(v, format!("v{}", v).as_bytes()),
            "version {} not visible at its own snapshot",
            v
        );
    }
    let versions: Vec<u64> = scan(&l).into_iter().map(|(_, v, _)| v).collect();
    assert_eq!(versions.len(), total as usize);
    assert!(
        versions.windows(2).all(|w| w[0] > w[1]),
        "versions of one key are not strictly descending"
    );
}

#[test]
fn concurrent_upserts_of_one_cell_never_tear() {
    const WRITERS: usize = 8;
    let mut l = SkipList::new(1 << 22).unwrap();
    l.insert(1, b"k", b"init").unwrap();
    let jobs: Vec<Vec<Job>> = (0..WRITERS)
        .map(|t| {
            (0..2_000)
                .map(|i| insert(1, b"k", format!("{:04}-{:04}", t, i).as_bytes()))
                .collect()
        })
        .collect();
    let mut writers: Vec<Writer> = jobs.iter().map(|j| Writer::new(j)).collect();
    let mut rng = Rng::new(13);
    let mut reader = Lookup::new(&l, 1, b"k");
    while writers.iter().any(|w| !w.finished()) {
        let w = rng.below(WRITERS as u64) as usize;
        writers[w].step(&mut l);
        let seen = reader
            .step(&l)
            .map(|found| found.map(|e| (e.version, e.value.map(|v| v.to_vec()))));
        match seen {
            None => {}
            Some(Some((1, Some(v)))) => {
                assert!(v == b"init" || v.len() == 9, "torn value: {:?}", v);
                reader = Lookup::new(&l, 1, b"k");
            }
            other => panic!("unexpected read {:?}", other),
        }
    }

    assert_eq!(l.len(), 1, "upserts created extra nodes");
    match read(&l, 1, b"k") {
        Some((1, Some(v))) => assert_eq!(v.len(), 9),
        other => panic!("unexpected final read {:?}", other),
    }
}

#[test]
fn readers_never_observe_a_half_linked_node() {
    // one writer appends versions of a set of keys; readers scan meanwhile and
    // every entry they see must be internally consistent
    const KEYS: usize = 200;
    const ROUNDS: u64 = 200;
    let mut l = SkipList::new(1 << 24).unwrap();
    let jobs: Vec<Job> = (1..=ROUNDS)
        .flat_map(|v| {
            (0..KEYS).map(move |i| insert(v, &key(i), format!("{}@{}", i, v).as_bytes()))
        })
        .collect();
    let mut writer = Writer::new(&jobs);
    let mut rng = Rng::new(14);

    let mut scans: Vec<(Scan, Option<(Vec<u8>, u64)>, u64)> =
        (0..4).map(|_| (Scan::new(&l), None, 0)).collect();
    while !writer.finished() || scans.iter().any(|s| s.2 < 5) {
        for _ in 0..rng.below(60) {
            writer.step(&mut l);
        }
        let r = rng.below(4) as usize;
        let (place, prev, rounds) = &mut scans[r];
        match place.next(&l) {
            Some(e) => {
                let v = e.value.expect("no tombstones were written");
                let idx: usize = std::str::from_utf8(e.key).unwrap()[3..]
                    .trim_start_matches('0')
                    .parse()
                    .unwrap_or(0);
                assert_eq!(
                    v,
                    format!("{}@{}", idx, e.version).as_bytes(),
                    "value does not belong to its own key/version"
                );
                if let Some((pk, pv)) = prev {
                    let ok = &pk[..] < e.key || (&pk[..] == e.key && *pv > e.version);
                    assert!(ok, "scan out of order at {:?}/{}", e.key, e.version);
                }
                *prev = Some((e.key.to_vec(), e.version));
            }
            None => {
                // a point read must agree with the scan
                let k = key(KEYS / 2);
                if let Some((ver, val)) = read(&l, ROUNDS, &k) {
                    assert_eq!(val, Some(format!("{}@{}", KEYS / 2, ver).into_bytes()));
                }
                *place = Scan::new(&l);
                *prev = None;
                *rounds += 1;
            }
        }
    }

    assert_eq!(l.len(), KEYS * ROUNDS as usize);
    for i in 0..KEYS {
        assert_eq!(
            read(&l, ROUNDS, &key(i)),
            live(ROUNDS, format!("{}@{}", i, ROUNDS).as_bytes())
        );
    }
}

#[test]
fn concurrent_mixed_writes_match_the_model() {
    const WRITERS: u64 = 6;
    const KEYS: u64 = 64;
    let mut l = SkipList::new(1 << 24).unwrap();

    // each writer owns a version residue class, so no two write the same
    // (key, version) and the expected final state is exact
    let jobs: Vec<Vec<Job>> = (0..WRITERS)
        .map(|t| {
            let mut rng = Rng::new(0x1234 + t);
            (0..1_000u64)
                .map(|i| {
                    let k = key(rng.below(KEYS) as usize);
                    let v = i * WRITERS + t + 1;
                    if v % 5 == 0 {
                        remove(v, &k)
                    } else {
                        insert(v, &k, format!("{}", v).as_bytes())
                    }
                })
                .collect()
        })
        .collect();
    let mut writers: Vec<Writer> = jobs.iter().map(|j| Writer::new(j)).collect();
    interleave(&mut l, &mut writers, &mut Rng::new(15));

    let entries = scan(&l);
    assert_eq!(entries.len(), WRITERS as usize * 1_000);
    assert_eq!(l.len(), entries.len());
    for w in entries.windows(2) {
        let ok = w[0].0 < w[1].0 || (w[0].0 == w[1].0 && w[0].1 > w[1].1);
        assert!(ok, "ordering broken at {:?} / {:?}", w[0], w[1]);
    }
    for (_, v, val) in &entries {
        match val {
            None => assert_eq!(v % 5, 0),
            Some(payload) => assert_eq!(payload, format!("{}", v).as_bytes()),
        }
    }

    // what was written is what is there
    let mut want: Vec<(Vec<u8>, u64, Option<Vec<u8>>)> = jobs
        .iter()
        .flatten()
        .map(|j| (j.key.clone(), j.version, j.value.clone()))
        .collect();
    want.sort_by(|a, b| a.0.cmp(&b.0).then(b.1.cmp(&a.1)));
    assert_eq!(entries, want);

    // every write is visible at a snapshot at or above its version
    let mut newest: BTreeMap<Vec<u8>, u64> = BTreeMap::new();
    for (k, v, _) in &entries {
        newest
            .entry(k.clone())
            .and_modify(|e| *e = (*e).max(*v))
            .or_insert(*v);
    }
    for (k, v) in newest {
        match l.get(MAX_VERSION, &k) {
            Some(e) => assert_eq!(e.version, v),
            None => panic!("key {:?} unreachable", k),
        }
    }
}

// ---------------------------------------------------------------- single steps

/// Steps a write until the list shows it.
fn step_until_visible(list: &mut SkipList, write: &mut Put, entries: usize) {
    while scan(list).len() == entries {
        assert_eq!(write.step(list), None);
    }
}

#[test]
fn an_entry_appears_in_one_step_and_is_counted_last() {
    let mut l = SkipList::new(1 << 16).unwrap();
    let mut write = Put::new(&l, 3, b"k", Some(b"v"));
    step_until_visible(&mut l, &mut write, 0);
    assert_eq!(read(&l, 3, b"k"), live(3, b"v"));
    assert_eq!(l.len(), 0);
    let result = loop {
        if let Some(r) = write.step(&mut l) {
            break r;
        }
        assert_eq!(read(&l, 3, b"k"), live(3, b"v"));
    };
    assert_eq!(result, Ok(()));
    assert_eq!(l.len(), 1);
    // a finished write stays finished
    assert_eq!(write.step(&mut l), Some(Ok(())));
    assert_eq!(l.len(), 1);
}

#[test]
fn two_writers_of_one_new_entry_make_one_entry() {
    // both searched before either linked a node, so both bring a node; the slower
    // one finds the other's node in its place and stores its value there
    let mut l = SkipList::new(1 << 16).unwrap();
    let mut slow = Put::new(&l, 7, b"k", Some(b"slow"));
    let mut fast = Put::new(&l, 7, b"k", Some(b"fast"));
    // the head takes 104 bytes, the slow key and value 5, its node 28 at least
    while l.allocated() < 112 + 5 + 28 {
        assert_eq!(slow.step(&mut l), None);
    }
    assert_eq!(scan(&l).len(), 0);
    while fast.step(&mut l).is_none() {}
    assert_eq!(read(&l, 7, b"k"), live(7, b"fast"));
    assert_eq!(l.len(), 1);
    let result = loop {
        if let Some(r) = slow.step(&mut l) {
            break r;
        }
    };
    assert_eq!(result, Ok(()));
    assert_eq!(read(&l, 7, b"k"), live(7, b"slow"));
    assert_eq!(scan(&l).len(), 1);
    assert_eq!(l.len(), 1);
}

#[test]
fn a_neighbour_that_lands_in_the_splice_is_found_again() {
    for other in [&b"j"[..], b"l"] {
        let mut l = SkipList::new(1 << 16).unwrap();
        l.insert(1, b"a", b"first").unwrap();
        l.insert(1, b"z", b"last").unwrap();
        let full = l.allocated();
        let mut slow = Put::new(&l, 1, b"k", None);
        while l.allocated() < full + 1 + 28 {
            assert_eq!(slow.step(&mut l), None);
        }
        l.insert(1, other, b"between").unwrap();
        while slow.step(&mut l).is_none() {}
        let keys: Vec<Vec<u8>> = scan(&l).into_iter().map(|(k, _, _)| k).collect();
        let mut want = vec![
            b"a".to_vec(),
            b"k".to_vec(),
            b"z".to_vec(),
            other.to_vec(),
        ];
        want.sort();
        assert_eq!(keys, want);
        assert_eq!(l.len(), 4);
        assert_eq!(read(&l, 1, b"k"), Some((1, None)));
    }
}

#[test]
fn a_write_gives_up_when_others_fill_the_arena() {
    let mut l = SkipList::new(256).unwrap();
    let mut late = Put::new(&l, 1, b"late", Some(&[0u8; 64]));
    let mut i = 0;
    while l.insert(1, &key(i), b"").is_ok() {
        i += 1;
    }
    let before = scan(&l);
    let result = loop {
        if let Some(r) = late.step(&mut l) {
            break r;
        }
    };
    assert_eq!(result, Err(Error::Full));
    assert_eq!(scan(&l), before);
    assert_eq!(read(&l, 1, b"late"), None);
}

#[test]
fn a_rewrite_stays_a_rewrite_whatever_others_do() {
    // a tombstone on a stored entry: others fill the arena after each of the first
    // steps of its search, and land beside the splices it has found
    for first in 0..25 {
        let mut l = SkipList::new(2048).unwrap();
        for i in [10, 20, 30] {
            l.insert(1, &key(i), b"v").unwrap();
        }
        let k = key(20);
        let mut write = Put::new(&l, 1, &k, None);
        for _ in 0..first {
            if write.step(&mut l).is_some() {
                break;
            }
        }
        let mut i = 0;
        while l.insert(2, &key(i), b"").is_ok() {
            i += 1;
        }
        let (allocated, entries) = (l.allocated(), l.len());
        let mut steps = 0;
        let result = loop {
            steps += 1;
            assert!(steps < 10_000, "the write does not finish");
            if let Some(r) = write.step(&mut l) {
                break r;
            }
        };
        assert_eq!(result, Ok(()));
        assert_eq!(l.allocated(), allocated);
        assert_eq!(l.len(), entries);
        assert_eq!(read(&l, 1, &k), Some((1, None)));
    }
}

#[test]
fn writers_that_take_turns_do_not_hold_each_other_up() {
    // strict turns, so that every claim and every link is raced for
    const WRITERS: usize = 6;
    for same in [false, true] {
        let mut l = SkipList::new(1 << 16).unwrap();
        let keys: Vec<Vec<u8>> = (0..WRITERS)
            .map(|w| if same { key(7) } else { key(w) })
            .collect();
        let mut writes: Vec<Put> = keys
            .iter()
            .map(|k| Put::new(&l, 1, k, Some(b"v")))
            .collect();
        // 24 changes of each write, after each of which all may have to search again
        let most = WRITERS * 24 * (WRITERS * 42 * (1 + WRITERS + 4) + 1);
        let mut steps = 0;
        let mut finished = [false; WRITERS];
        while finished.iter().any(|f| !*f) {
            for w in 0..WRITERS {
                if !finished[w] {
                    steps += 1;
                    match writes[w].step(&mut l) {
                        None => {}
                        Some(r) => {
                            assert_eq!(r, Ok(()));
                            finished[w] = true;
                        }
                    }
                }
            }
            assert!(steps <= most, "the writers hold each other up");
        }
        assert_eq!(l.len(), if same { 1 } else { WRITERS });
        assert_eq!(scan(&l).len(), l.len());
    }
}

#[test]
fn a_read_among_writers_finishes() {
    let mut l = SkipList::new(1 << 16).unwrap();
    let jobs: Vec<Job> = (0..100).map(|i| insert(1, &key(i * 37 % 100), b"v")).collect();
    let mut writer = Writer::new(&jobs);
    let wanted = key(50);
    let mut reads = 0;
    let mut found = 0;
    let mut reader = Lookup::new(&l, 1, &wanted);
    while !writer.finished() {
        writer.step(&mut l);
        if let Some(e) = reader.step(&l) {
            reads += 1;
            found += e.is_some() as usize;
            reader = Lookup::new(&l, 1, &wanted);
        }
    }
    assert!(reads > 0);
    assert!(found > 0);
    assert_eq!(finish_read(&l, &mut reader), live(1, b"v"));
}

#[test]
fn ordinary_keys_and_values_are_not_too_large() {
    assert!(!is_too_large(b"", None));
    assert!(!is_too_large(b"key", Some(b"")));
    assert!(!is_too_large(&[0u8; 1 << 16], Some(&[0u8; 1 << 16])));
}

#[test]
fn a_write_left_alone_finishes_after_a_disturbance() {
    for first in 0..60 {
        let mut l = SkipList::new(1 << 16).unwrap();
        for i in 0..40 {
            l.insert(1, &key(i * 10), b"v").unwrap();
        }
        let k = key(205);
        let mut write = Put::new(&l, 1, &k, Some(b"new"));
        for _ in 0..first {
            write.step(&mut l);
        }
        for i in 0..40 {
            l.insert(1, &key(i * 10 + 4), b"w").unwrap();
            l.insert(1, &key(i * 10 + 6), b"w").unwrap();
        }
        let mut steps = 0;
        while write.step(&mut l).is_none() {
            steps += 1;
            assert!(steps < 10_000, "the write does not finish");
        }
        assert_eq!(read(&l, 1, &k), live(1, b"new"));
        assert_eq!(l.len(), 121);
        assert_eq!(scan(&l).len(), 121);
    }
}

#[test]
fn a_read_sees_the_list_as_it_is_when_the_search_ends() {
    let mut l = SkipList::new(1 << 16).unwrap();
    l.insert(10, b"k", b"old").unwrap();

    // a newer version that the snapshot does not see changes nothing
    let mut reader = Lookup::new(&l, 15, b"k");
    assert!(reader.step(&l).is_none());
    l.insert(20, b"k", b"too new").unwrap();
    assert_eq!(finish_read(&l, &mut reader), live(10, b"old"));

    // one that it does see is found if it lands before the search ends
    let mut reader = Lookup::new(&l, 15, b"k");
    l.insert(12, b"k", b"newer").unwrap();
    assert_eq!(finish_read(&l, &mut reader), live(12, b"newer"));

    // and not if the search has ended; the value is the one of that moment
    let mut reader = Lookup::new(&l, 15, b"k");
    let mut ahead = Lookup::new(&l, 15, b"k");
    // loading the value is the last step
    while ahead.step(&l).is_none() {
        assert!(reader.step(&l).is_none());
    }
    l.insert(14, b"k", b"missed").unwrap();
    l.insert(12, b"k", b"rewritten").unwrap();
    assert_eq!(finish_read(&l, &mut reader), live(12, b"rewritten"));
    assert_eq!(read(&l, 15, b"k"), live(14, b"missed"));
}

#[test]
fn a_scan_keeps_its_place_while_entries_come_in() {
    let mut l = SkipList::new(1 << 16).unwrap();
    for k in [b"b", b"d", b"f"] {
        l.insert(1, k, k).unwrap();
    }
    let mut place = Scan::new(&l);
    assert_eq!(place.next(&l).unwrap().key, b"b");
    assert_eq!(place.next(&l).unwrap().key, b"d");
    // behind the place, at it, and ahead of it
    l.insert(1, b"a", b"").unwrap();
    l.insert(1, b"c", b"").unwrap();
    l.insert(1, b"e", b"").unwrap();
    l.insert(0, b"d", b"older").unwrap();
    l.remove(2, b"d").unwrap();
    let mut rest = Vec::new();
    while let Some(e) = place.next(&l) {
        rest.push((e.key.to_vec(), e.version));
    }
    assert_eq!(
        rest,
        vec![
            (b"d".to_vec(), 0),
            (b"e".to_vec(), 1),
            (b"f".to_vec(), 1),
        ]
    );
    // at the end until something is added there
    assert!(place.next(&l).is_none());
    l.insert(1, b"g", b"").unwrap();
    assert_eq!(place.next(&l).unwrap().key, b"g");
    assert!(place.next(&l).is_none());
}

#[test]
fn writes_of_different_entries_give_the_same_list_in_any_order() {
    let jobs: Vec<Vec<Job>> = (0..4u64)
        .map(|t| {
            (0..40u64)
                .map(|i| {
                    let n = i * 4 + t;
                    insert(n % 7, &key((n * 37 % 160) as usize), format!("{}", n).as_bytes())
                })
                .collect()
        })
        .collect();
    let mut lists = Vec::new();
    for seed in 1..=20u64 {
        let mut l = SkipList::new(1 << 16).unwrap();
        let mut writers: Vec<Writer> = jobs.iter().map(|j| Writer::new(j)).collect();
        interleave(&mut l, &mut writers, &mut Rng::new(seed * 7919));
        assert_eq!(l.len(), 160);
        lists.push(scan(&l));
    }
    assert!(lists.iter().all(|l| *l == lists[0]));
}
