use memtable::arena::{Arena, ArenaFull, Attempt, NULL, RESERVED};
use std::collections::BTreeSet;

const CAP: u32 = 1 << 20;

fn arena() -> Arena {
    Arena::new(CAP)
}

/// Every alloc must satisfy all of these, always.
fn check_claim(a: &mut Arena, off: u32, size: u32, align: u32) {
    assert_eq!(off % align, 0, "offset {} not {}-aligned", off, align);
    assert!(
        off >= RESERVED,
        "offset {} is inside the reserved prefix",
        off
    );
    assert_ne!(off, NULL, "alloc handed out the null offset");
    assert!(
        off as u64 + size as u64 <= a.capacity() as u64,
        "claim {}..{} runs past capacity {}",
        off,
        off + size,
        a.capacity()
    );
    // the returned offset must be addressable
    let first: u8 = *a.ptr_at(off);
    assert_eq!(a.slice(off, 1), &[first]);
    let address = format!("{:p}", a.ptr_at(off));
    let address = usize::from_str_radix(&address[2..], 16).unwrap();
    assert_eq!(
        address % align as usize,
        0,
        "offset {} is {}-aligned but the address is not; the block is under-aligned",
        off,
        align
    );
}

// ---------------------------------------------------------------- construction

#[test]
fn new_reserves_the_prefix() {
    let a = arena();
    assert_eq!(a.capacity(), CAP as usize);
    assert_eq!(a.allocated(), RESERVED as usize);
    assert_eq!(a.remaining(), (CAP - RESERVED) as usize);
}

#[test]
fn smallest_usable_arena() {
    let mut a = Arena::new(RESERVED + 1);
    let off = a.allocate(1, 1).unwrap();
    check_claim(&mut a, off, 1, 1);
    assert_eq!(a.remaining(), 0);
    assert_eq!(a.allocate(1, 1), Err(ArenaFull));
}

#[test]
fn memory_starts_zeroed() {
    // the skiplist relies on this: tower slots must read as NULL before init
    let mut a = arena();
    let off = a.allocate(4096, 8).unwrap();
    let s = a.slice(off, 4096);
    assert!(s.iter().all(|b| *b == 0), "arena handed out dirty memory");
}

// ---------------------------------------------------------------- alignment

#[test]
fn every_alignment_is_honoured() {
    let mut a = arena();
    // sizes chosen to leave the cursor at awkward values between calls
    for align in [1u32, 2, 4, 8] {
        for size in [1u32, 3, 5, 7, 9, 17, 31] {
            let off = a.allocate(size, align).unwrap();
            check_claim(&mut a, off, size, align);
        }
    }
}

#[test]
fn alignment_holds_after_unaligned_byte_runs() {
    // this is the exact sequence the skiplist's put() performs:
    // key bytes at align 1, value bytes at align 1, then a node at align 8
    let mut a = arena();
    for len in 1u32..64 {
        let key = a.allocate(len, 1).unwrap();
        let value = a.allocate(len, 1).unwrap();
        let node = a.allocate(24 + 4 * 12, 8).unwrap();
        check_claim(&mut a, key, len, 1);
        check_claim(&mut a, value, len, 1);
        check_claim(&mut a, node, 24 + 4 * 12, 8);
    }
}

#[test]
fn alignment_padding_is_not_handed_out_twice() {
    let mut a = arena();
    let one = a.allocate(1, 1).unwrap();
    let eight = a.allocate(8, 8).unwrap();
    assert!(
        eight >= one + 1,
        "aligned alloc at {} overlaps the byte at {}",
        eight,
        one
    );
}

// ---------------------------------------------------------------- bump discipline

#[test]
fn the_cursor_only_moves_forward() {
    let mut a = arena();
    let mut prev_end = RESERVED;
    let mut rng: u32 = 12345;
    for _ in 0..2000 {
        rng = rng.wrapping_mul(1664525).wrapping_add(1013904223);
        let size = (rng >> 16) % 64 + 1;
        let align = 1u32 << ((rng >> 8) % 4);
        let before = a.allocated() as u32;
        let off = a.allocate(size, align).unwrap();
        check_claim(&mut a, off, size, align);
        assert!(
            off >= prev_end,
            "alloc returned {} which overlaps the previous claim ending at {}",
            off,
            prev_end
        );
        assert!(
            a.allocated() as u32 >= before,
            "the bump cursor moved backwards: {} -> {}",
            before,
            a.allocated()
        );
        prev_end = off + size;
    }
}

#[test]
fn claims_never_overlap() {
    let mut a = arena();
    let mut claims: Vec<(u32, u32)> = Vec::new();
    for i in 0..500u32 {
        let size = i % 37 + 1;
        let align = 1u32 << (i % 4);
        let off = a.allocate(size, align).unwrap();
        claims.push((off, off + size));
    }
    claims.sort();
    for w in claims.windows(2) {
        assert!(w[0].1 <= w[1].0, "claims {:?} and {:?} overlap", w[0], w[1]);
    }
}

#[test]
fn distinct_allocations_have_distinct_offsets() {
    let mut a = arena();
    let offs: BTreeSet<u32> = (0..1000).map(|_| a.allocate(8, 8).unwrap()).collect();
    assert_eq!(offs.len(), 1000, "alloc returned a duplicate offset");
}

#[test]
fn accounting_invariant_holds_throughout() {
    let mut a = arena();
    for i in 0..500u32 {
        a.allocate(i % 31 + 1, 8).unwrap();
        assert_eq!(
            a.allocated() + a.remaining(),
            a.capacity(),
            "allocated + remaining drifted from capacity"
        );
    }
}

// ---------------------------------------------------------------- byte copies

#[test]
fn alloc_bytes_round_trips() {
    let mut a = arena();
    let payloads: Vec<Vec<u8>> = (0..200)
        .map(|i| format!("payload-{}-{}", i, "x".repeat(i % 50)).into_bytes())
        .collect();
    let offs: Vec<u32> = payloads.iter().map(|p| a.alloc_bytes(p).unwrap()).collect();
    for (off, want) in offs.iter().zip(&payloads) {
        assert_eq!(a.slice(*off, want.len() as u32), &want[..]);
    }
}

#[test]
fn alloc_bytes_does_not_disturb_its_neighbours() {
    let mut a = arena();
    let a_off = a.alloc_bytes(b"aaaa").unwrap();
    let b_off = a.alloc_bytes(b"bbbbbbbb").unwrap();
    let c_off = a.alloc_bytes(b"cc").unwrap();
    assert_eq!(a.slice(a_off, 4), b"aaaa");
    assert_eq!(a.slice(b_off, 8), b"bbbbbbbb");
    assert_eq!(a.slice(c_off, 2), b"cc");
}

#[test]
fn empty_slices_are_handled() {
    let mut a = arena();
    let off = a.alloc_bytes(b"").unwrap();
    assert_ne!(off, NULL, "an empty alloc collided with the null offset");
    assert_eq!(a.slice(off, 0), b"");
    // a zero-length read anywhere is empty, and must not touch memory
    assert_eq!(a.slice(0, 0), b"");
    // the arena is still usable afterwards
    let next = a.alloc_bytes(b"after").unwrap();
    assert_eq!(a.slice(next, 5), b"after");
}

#[test]
fn byte_content_survives_later_allocations() {
    let mut a = arena();
    let first = a.alloc_bytes(b"do not move me").unwrap();
    for i in 0..1000u32 {
        a.allocate(i % 17 + 1, 8).unwrap();
    }
    assert_eq!(a.slice(first, 14), b"do not move me");
}

// ---------------------------------------------------------------- exhaustion

#[test]
fn exhaustion_reports_full() {
    let mut a = Arena::new(1024);
    let mut total = 0u32;
    loop {
        match a.allocate(64, 8) {
            Ok(off) => {
                check_claim(&mut a, off, 64, 8);
                total += 64;
            }
            Err(e) => {
                assert_eq!(e, ArenaFull);
                break;
            }
        }
        assert!(total < 1024, "arena handed out more than its capacity");
    }
}

#[test]
fn a_failed_alloc_does_not_consume_anything() {
    let mut a = Arena::new(1024);
    a.allocate(900, 8).unwrap();
    let before = a.allocated();
    assert_eq!(a.allocate(500, 8), Err(ArenaFull));
    assert_eq!(
        a.allocated(),
        before,
        "a rejected alloc still advanced the cursor"
    );
    // a request that does fit must still succeed after the rejection
    let off = a.allocate(16, 8).unwrap();
    check_claim(&mut a, off, 16, 8);
}

#[test]
fn oversized_requests_are_rejected_not_wrapped() {
    let mut a = Arena::new(1024);
    assert_eq!(a.allocate(u32::MAX, 1), Err(ArenaFull));
    assert_eq!(a.allocate(u32::MAX, 8), Err(ArenaFull));
    assert_eq!(a.allocate(u32::MAX - 4, 8), Err(ArenaFull));
    // and the arena is unharmed
    assert_eq!(a.allocated(), RESERVED as usize);
    let off = a.allocate(8, 8).unwrap();
    check_claim(&mut a, off, 8, 8);
}

#[test]
fn a_request_that_exactly_fills_the_arena_succeeds() {
    let mut a = Arena::new(1024);
    let off = a.allocate(1024 - RESERVED, 8).unwrap();
    check_claim(&mut a, off, 1024 - RESERVED, 8);
    assert_eq!(a.remaining(), 0);
    assert_eq!(a.allocate(1, 1), Err(ArenaFull));
}

#[test]
fn alloc_bytes_reports_full_rather_than_copying() {
    let mut a = Arena::new(1024);
    a.allocate(1000, 8).unwrap();
    assert_eq!(a.alloc_bytes(&[7u8; 256]), Err(ArenaFull));
    assert_eq!(a.remaining(), (1024 - 1008) as usize);
}

// ---------------------------------------------------------------- racing claims

#[test]
fn an_attempt_at_a_stale_cursor_moves_nothing() {
    let mut a = Arena::new(1024);
    let seen = a.allocated() as u32;
    assert_eq!(a.allocate(10, 1), Ok(8));
    // the cursor has moved on since it was seen
    assert_eq!(a.try_alloc(seen, 4, 1), Ok(Attempt::Moved(18)));
    assert_eq!(a.allocated(), 18);
    assert_eq!(a.try_alloc(18, 4, 8), Ok(Attempt::Claimed(24)));
    assert_eq!(a.allocated(), 28);
    // a stale cursor is enough to tell that a request cannot fit
    assert_eq!(a.try_alloc(seen, 1017, 1), Err(ArenaFull));
    assert_eq!(a.allocated(), 28);
}

/// Writers that take turns at one arena, each with the cursor it last saw.
struct Turns {
    seen: [u32; WRITERS],
    rng: u32,
}

const WRITERS: usize = 8;

impl Turns {
    fn new(a: &Arena) -> Self {
        Turns {
            seen: [a.allocated() as u32; WRITERS],
            rng: 2463534242,
        }
    }

    /// Whose turn it is.
    fn next(&mut self) -> usize {
        self.rng ^= self.rng << 13;
        self.rng ^= self.rng >> 17;
        self.rng ^= self.rng << 5;
        (self.rng >> 8) as usize % WRITERS
    }

    /// One attempt by writer `w`: its claim, or none if another writer was faster.
    fn attempt(
        &mut self,
        a: &mut Arena,
        w: usize,
        size: u32,
        align: u32,
    ) -> Result<Option<u32>, ArenaFull> {
        match a.try_alloc(self.seen[w], size, align)? {
            Attempt::Claimed(off) => Ok(Some(off)),
            Attempt::Moved(actual) => {
                self.seen[w] = actual;
                Ok(None)
            }
        }
    }
}

#[test]
fn concurrent_allocs_never_overlap() {
    const PER_WRITER: u32 = 2_000;
    let mut a = Arena::new(1 << 22);
    let mut turns = Turns::new(&a);
    let mut made = [0u32; WRITERS];
    let mut all: Vec<(u32, u32, u8)> = Vec::new();
    let mut lost = 0usize;
    while all.len() < WRITERS * PER_WRITER as usize {
        let w = turns.next();
        if made[w] == PER_WRITER {
            continue;
        }
        let size = (made[w] % 24) + 1;
        let align = 1u32 << (made[w] % 4);
        match turns.attempt(&mut a, w, size, align).unwrap() {
            None => lost += 1,
            Some(off) => {
                assert_eq!(off % align, 0, "unaligned offset under contention");
                // stamp the claimed range with this writer's id
                for b in 0..size {
                    *a.ptr_at(off + b) = w as u8 + 1;
                }
                all.push((off, size, w as u8 + 1));
                made[w] += 1;
            }
        }
    }
    assert!(lost > 0, "the writers never got in each other's way");

    // nobody's bytes were overwritten by anybody else
    assert_eq!(all.len(), WRITERS * PER_WRITER as usize);
    for (off, size, stamp) in &all {
        let s = a.slice(*off, *size);
        assert!(
            s.iter().all(|b| b == stamp),
            "range {}..{} claimed by writer {} was written by another: {:?}",
            off,
            off + size,
            stamp,
            s
        );
    }

    // and no two claims overlapped in the first place
    all.sort();
    for w in all.windows(2) {
        assert!(
            w[0].0 + w[0].1 <= w[1].0,
            "writers {} and {} were given overlapping ranges {:?} / {:?}",
            w[0].2,
            w[1].2,
            w[0],
            w[1]
        );
    }

    let claimed: u32 = all.iter().map(|(_, size, _)| size).sum();
    assert!(
        a.allocated() as u32 >= claimed + RESERVED,
        "the cursor accounts for less than was handed out"
    );
}

#[test]
fn concurrent_alloc_bytes_round_trips() {
    let mut a = Arena::new(1 << 22);
    let mut turns = Turns::new(&a);
    let mut made = [0usize; WRITERS];
    let mut all: Vec<(u32, Vec<u8>)> = Vec::new();
    while all.len() < WRITERS * 2_000 {
        let w = turns.next();
        let i = made[w];
        if i == 2_000 {
            continue;
        }
        let payload = format!("{}:{}:{}", w, i, "z".repeat(i % 40)).into_bytes();
        let off = a.alloc_bytes(&payload).unwrap();
        all.push((off, payload));
        made[w] += 1;
    }
    for (off, want) in all {
        assert_eq!(
            a.slice(off, want.len() as u32),
            &want[..],
            "payload at {} was corrupted by another writer",
            off
        );
    }
}

#[test]
fn concurrent_exhaustion_stays_within_capacity() {
    const CAPACITY: u32 = 64 * 1024;
    let mut a = Arena::new(CAPACITY);
    let mut turns = Turns::new(&a);
    let mut all: Vec<(u32, u32)> = Vec::new();
    let mut full = [false; WRITERS];
    // every writer races to the end of the arena
    while full.iter().any(|f| !*f) {
        let w = turns.next();
        match turns.attempt(&mut a, w, 48, 8) {
            Ok(None) => {}
            Ok(Some(off)) => {
                assert!(
                    off as u64 + 48 <= CAPACITY as u64,
                    "claim {}..{} escapes the arena",
                    off,
                    off + 48
                );
                *a.ptr_at(off) = 1;
                all.push((off, 48u32));
            }
            Err(ArenaFull) => full[w] = true,
        }
    }
    all.sort();
    for w in all.windows(2) {
        assert!(w[0].0 + w[0].1 <= w[1].0, "overlap at the arena tail");
    }
    assert!(a.allocated() <= a.capacity());
    assert_eq!(a.allocated() + a.remaining(), a.capacity());
    // one more request must keep failing, not suddenly succeed
    for _ in 0..100 {
        assert_eq!(a.allocate(48, 8), Err(ArenaFull));
    }
}

#[test]
fn bytes_written_in_place_are_read_back() {
    let mut a = Arena::new(64);
    let off = a.allocate(4, 4).unwrap();
    *a.ptr_at(off + 1) = 7;
    *a.ptr_at(off + 3) = 9;
    assert_eq!(a.slice(off, 4), &[0, 7, 0, 9]);
}

#[test]
fn offsets_are_rounded_up_to_the_alignment() {
    let mut a = Arena::new(1 << 16);
    assert_eq!(a.allocate(3, 1), Ok(8));
    assert_eq!(a.allocate(1, 2), Ok(12));
    assert_eq!(a.allocate(0, 16), Ok(16));
    assert_eq!(a.allocate(1, 4096), Ok(4096));
    assert_eq!(a.allocated(), 4097);
    assert_eq!(a.allocate(0, 1 << 31), Err(ArenaFull));
}
