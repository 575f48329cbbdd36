//! What callers can rely on: how the results of calls relate to their arguments and to
//! the results of other calls.

use crate::arena::{Arena, ArenaFull, Attempt};
use crate::node::{decode_value, encode_value};
use crate::order;
use crate::order::{compare_bytes, compare_entries, Position};
use crate::skiplist::laws;
use crate::skiplist::lookup::Lookup;
use crate::skiplist::put;
use crate::skiplist::put::{is_too_large, Put};
use crate::skiplist::{Entry, Error, Iter, Scan, SkipList};
use vstd::prelude::*;

verus! {

/// Byte strings compare by the first byte in which they differ, as numbers.
pub proof fn law_comparing_goes_by_the_first_difference(
    a: &[u8],
    b: &[u8],
    p: Position,
    common: Seq<u8>,
    x: u8,
    rest: Seq<u8>,
    y: u8,
    other_rest: Seq<u8>,
)
    requires
        call_ensures(compare_bytes, (a, b), p),
        a@ == common.push(x) + rest,
        b@ == common.push(y) + other_rest,
        x != y,
    ensures
        p == (if x < y {
            Position::Before
        } else {
            Position::After
        }),
{
    if x < y {
        order::law_the_first_difference_decides(common, x, rest, y, other_rest);
    } else {
        order::law_the_first_difference_decides(common, y, other_rest, x, rest);
    }
}

/// A byte string compares as coming before what goes on after it, and as the same as
/// itself only.
pub proof fn law_comparing_puts_a_prefix_first(
    a: &[u8],
    b: &[u8],
    p: Position,
    x: u8,
    rest: Seq<u8>,
)
    requires
        call_ensures(compare_bytes, (a, b), p),
    ensures
        b@ == a@.push(x) + rest ==> p == Position::Before,
        a@ == b@.push(x) + rest ==> p == Position::After,
        p == Position::Same <==> a@ == b@,
{
    order::law_a_prefix_comes_first(a@, x, rest);
    order::law_a_prefix_comes_first(b@, x, rest);
}

/// Entries compare as their keys do, and those of one key by version, the newer first.
pub proof fn law_comparing_entries_goes_by_key_then_version(
    a: &[u8],
    v: u64,
    b: &[u8],
    w: u64,
    keys: Position,
    p: Position,
)
    requires
        call_ensures(compare_bytes, (a, b), keys),
        call_ensures(compare_entries, (a, v, b, w), p),
    ensures
        keys != Position::Same ==> p == keys,
        keys == Position::Same ==> p == (if v > w {
            Position::Before
        } else if v == w {
            Position::Same
        } else {
            Position::After
        }),
{
    order::law_keys_ascend_and_versions_descend(a@, v, b@, w);
    order::law_keys_ascend_and_versions_descend(b@, w, a@, v);
    order::law_byte_order_is_total(a@, b@);
}

/// Packing an offset and a length and taking the word apart gives both back.
pub proof fn law_what_was_packed_is_taken_apart(
    offset: u32,
    len: u32,
    word: u64,
    parts: (u32, u32),
)
    requires
        call_ensures(encode_value, (offset, len), word),
        call_ensures(decode_value, (word,), parts),
    ensures
        parts == (offset, len),
        word == offset * 0x1_0000_0000 + len,
{
    crate::node::law_value_words_round_trip(offset, len, word);
}

/// A new arena has claimed its first eight bytes and nothing else.
pub proof fn law_a_new_arena_has_all_its_room(
    cap: u32,
    a: Arena,
    allocated: usize,
    capacity: usize,
    remaining: usize,
)
    requires
        call_ensures(Arena::new, (cap,), a),
        call_ensures(Arena::allocated, (&a,), allocated),
        call_ensures(Arena::capacity, (&a,), capacity),
        call_ensures(Arena::remaining, (&a,), remaining),
    ensures
        capacity == cap,
        allocated == 8,
        allocated + remaining == capacity,
{
}

/// A claim is made wherever it fits: at the first multiple of its alignment that is not
/// below what was allocated, if it ends there within the capacity. It ends where the
/// arena is allocated up to afterwards. One that does not fit changes nothing.
pub proof fn law_a_claim_is_made_at_the_first_place(
    a: &mut Arena,
    size: u32,
    align: u32,
    r: Result<u32, ArenaFull>,
    allocated: usize,
    allocated_after: usize,
    capacity: usize,
    place: int,
)
    requires
        old(a).wf(),
        align > 0,
        call_ensures(Arena::allocated, (&*old(a),), allocated),
        call_ensures(Arena::capacity, (&*old(a),), capacity),
        call_ensures(Arena::allocate, (a, size, align), r),
        call_ensures(Arena::allocated, (&*final(a),), allocated_after),
        allocated <= place,
        place % align as int == 0,
    ensures
        place + size <= capacity ==> r is Ok && r->Ok_0 <= place,
        r matches Ok(off) ==> {
            &&& off % align == 0
            &&& allocated <= off < allocated + align
            &&& off + size == allocated_after <= capacity
        },
        r is Err ==> allocated_after == allocated && *final(a) == *old(a),
        allocated + (align - 1) + size <= capacity ==> r is Ok,
{
    old(a).lemma_bounds();
    crate::arena::lemma_align_up(allocated as int, align as int);
    if place + size <= capacity {
        crate::arena::law_a_request_fits_where_there_is_a_place(
            allocated as int,
            size as int,
            align as int,
            capacity as int,
            place,
        );
    }
    if allocated + (align - 1) + size <= capacity {
        crate::arena::law_a_request_with_room_fits(
            allocated as int,
            size as int,
            align as int,
            capacity as int,
        );
    }
}

/// Bytes copied into the arena are read back whole, and what is copied in later leaves
/// them as they are.
pub proof fn law_bytes_copied_in_are_read_back(
    a: &mut Arena,
    data: &[u8],
    r: Result<u32, ArenaFull>,
    later: &mut Arena,
    more: &[u8],
    again: Result<u32, ArenaFull>,
    off: u32,
    read: &[u8],
    read_later: &[u8],
)
    requires
        old(a).wf(),
        data@.len() <= u32::MAX,
        call_ensures(Arena::alloc_bytes, (a, data), r),
        *old(later) == *final(a),
        call_ensures(Arena::alloc_bytes, (later, more), again),
        r == Ok::<u32, ArenaFull>(off),
        call_ensures(Arena::slice, (&*final(a), off, data@.len() as u32), read),
        call_ensures(Arena::slice, (&*final(later), off, data@.len() as u32), read_later),
    ensures
        read@ == data@,
        read_later@ == data@,
{
    old(a).lemma_bounds();
    final(a).lemma_bounds();
    if data@.len() > 0 {
        assert(read@ =~= data@);
        assert(read_later@ =~= data@);
    }
}

/// An attempt by a writer that has seen the cursor where it stands is a claim; one by a
/// writer that saw it elsewhere changes nothing, and tells where it stands now, or that
/// the claim did not even fit where it was seen.
pub proof fn law_an_attempt_is_a_claim_where_the_cursor_was_seen(
    a: &mut Arena,
    seen: u32,
    size: u32,
    align: u32,
    r: Result<Attempt, ArenaFull>,
    b: &mut Arena,
    claim: Result<u32, ArenaFull>,
    allocated: usize,
)
    requires
        old(a).wf(),
        align > 0,
        seen <= allocated,
        call_ensures(Arena::allocated, (&*old(a),), allocated),
        call_ensures(Arena::try_alloc, (a, seen, size, align), r),
        *old(b) == *old(a),
        call_ensures(Arena::allocate, (b, size, align), claim),
    ensures
        seen == allocated ==> match claim {
            Ok(off) => r == Ok::<Attempt, ArenaFull>(Attempt::Claimed(off)),
            Err(full) => r is Err && *final(a) == *old(a),
        },
        seen < allocated ==> *final(a) == *old(a),
        seen < allocated && claim is Ok ==> r == Ok::<Attempt, ArenaFull>(
            Attempt::Moved(allocated as u32),
        ),
        r is Err ==> claim is Err,
        final(a).bytes() == old(a).bytes(),
{
    crate::arena::lemma_align_up(seen as int, align as int);
    crate::arena::lemma_align_up_monotonic(seen as int, allocated as int, align as int);
}

/// What is written at an offset is what is read there, and nothing else changes.
pub proof fn law_a_byte_written_in_place_is_read_there(
    a: &mut Arena,
    offset: u32,
    byte: &mut u8,
    at: u32,
    before: &[u8],
    after: &[u8],
)
    requires
        old(a).wf(),
        offset < old(a).cap(),
        at < old(a).cap(),
        call_ensures(Arena::slice, (&*old(a), at, 1u32), before),
        call_ensures(Arena::ptr_at, (a, offset), byte),
        call_ensures(Arena::slice, (&*final(a), at, 1u32), after),
    ensures
        at == offset ==> before@ == seq![*old(byte)] && after@ == seq![*final(byte)],
        at != offset ==> after@ == before@,
{
    old(a).lemma_bounds();
    assert(at == offset ==> before@ =~= seq![*old(byte)] && after@ =~= seq![*final(byte)]);
    assert(at != offset ==> after@ =~= before@);
}

/// Bytes are copied in exactly if they are no more than what remains, and then that many
/// fewer remain; otherwise nothing changes.
pub proof fn law_bytes_are_copied_in_while_they_fit(
    a: &mut Arena,
    data: &[u8],
    r: Result<u32, ArenaFull>,
    remaining: usize,
    remaining_after: usize,
)
    requires
        old(a).wf(),
        call_ensures(Arena::remaining, (&*old(a),), remaining),
        call_ensures(Arena::alloc_bytes, (a, data), r),
        call_ensures(Arena::remaining, (&*final(a),), remaining_after),
    ensures
        r is Ok <==> data@.len() <= remaining,
        r is Ok ==> remaining_after == remaining - data@.len(),
        r is Err ==> *final(a) == *old(a),
{
}

/// A new list takes 112 bytes, and has no entries.
pub proof fn law_a_new_list_is_empty(
    capacity: u32,
    r: Result<SkipList, Error>,
    list: SkipList,
    snapshot: u64,
    key: &[u8],
    found: Option<Entry>,
    len: usize,
    allocated: usize,
    has: usize,
    iter: Iter,
)
    requires
        call_ensures(SkipList::new, (capacity,), r),
        r == Ok::<SkipList, Error>(list),
        call_ensures(SkipList::get, (&list, snapshot, key), found),
        call_ensures(SkipList::len, (&list,), len),
        call_ensures(SkipList::allocated, (&list,), allocated),
        call_ensures(SkipList::capacity, (&list,), has),
        call_ensures(SkipList::iter_all, (&list,), iter),
    ensures
        found is None,
        len == 0,
        allocated == 112,
        has == capacity >= 112,
        iter.remaining().len() == 0,
{
}

/// A new list is made exactly if the capacity has room for the head.
pub proof fn law_a_list_is_made_with_room_for_its_head(
    capacity: u32,
    r: Result<SkipList, Error>,
)
    requires
        call_ensures(SkipList::new, (capacity,), r),
    ensures
        r is Ok <==> capacity >= 112,
        r is Err ==> r == Err::<SkipList, Error>(Error::Full),
{
}

/// What was inserted is what a read at its version gives, all bytes of it.
pub proof fn law_what_was_inserted_is_read(
    list: &mut SkipList,
    version: u64,
    key: &[u8],
    value: &[u8],
    found: Option<Entry>,
)
    requires
        call_ensures(SkipList::insert, (list, version, key, value), Ok(())),
        call_ensures(SkipList::get, (&*final(list), version, key), found),
    ensures
        found matches Some(e) && e.key@ == key@ && e.version == version && (e.value matches Some(
            bytes,
        ) && bytes@ == value@),
{
    assert(final(list)@.contains_key((key@, version)));
}

/// What was removed is what a read at that version gives: a tombstone.
pub proof fn law_what_was_removed_is_read_as_a_tombstone(
    list: &mut SkipList,
    version: u64,
    key: &[u8],
    found: Option<Entry>,
)
    requires
        call_ensures(SkipList::remove, (list, version, key), Ok(())),
        call_ensures(SkipList::get, (&*final(list), version, key), found),
    ensures
        found matches Some(e) && e.key@ == key@ && e.version == version && e.value is None,
{
    assert(final(list)@.contains_key((key@, version)));
}

/// Two reads have the same answer.
pub open spec fn same_answer(a: Option<Entry>, b: Option<Entry>) -> bool {
    match (a, b) {
        (None, None) => true,
        (Some(x), Some(y)) => {
            &&& x.key@ == y.key@
            &&& x.version == y.version
            &&& match (x.value, y.value) {
                (None, None) => true,
                (Some(s), Some(t)) => s@ == t@,
                _ => false,
            }
        },
        _ => false,
    }
}

/// Two reads of one list with the same arguments have the same answer.
pub proof fn law_a_read_can_be_repeated(
    list: &SkipList,
    snapshot: u64,
    key: &[u8],
    one: Option<Entry>,
    other: Option<Entry>,
)
    requires
        call_ensures(SkipList::get, (list, snapshot, key), one),
        call_ensures(SkipList::get, (list, snapshot, key), other),
    ensures
        same_answer(one, other),
{
    lemma_same_answer(list, list, snapshot, key, one, other);
}

/// Reads of two lists have the same answer if the lists hold the same of what they see.
proof fn lemma_same_answer(
    a: &SkipList,
    b: &SkipList,
    snapshot: u64,
    key: &[u8],
    one: Option<Entry>,
    other: Option<Entry>,
)
    requires
        call_ensures(SkipList::get, (a, snapshot, key), one),
        call_ensures(SkipList::get, (b, snapshot, key), other),
        forall|v: u64|
            v <= snapshot ==> (#[trigger] a@.contains_key((key@, v)) <==> b@.contains_key(
                (key@, v),
            )) && (a@.contains_key((key@, v)) ==> a@[(key@, v)] == b@[(key@, v)]),
    ensures
        same_answer(one, other),
{
    if let Some(x) = one {
        assert(a@.contains_key((key@, x.version)));
        assert(b@.contains_key((key@, x.version)));
        if let Some(y) = other {
            assert(a@.contains_key((key@, y.version)));
        }
    }
    if let Some(y) = other {
        assert(a@.contains_key((key@, y.version)));
    }
}

/// An insert changes no read of another key and none below its version; one that is
/// refused changes none at all.
pub proof fn law_an_insert_leaves_other_reads_alone(
    list: &mut SkipList,
    version: u64,
    key: &[u8],
    value: &[u8],
    r: Result<(), Error>,
    snapshot: u64,
    read_key: &[u8],
    found: Option<Entry>,
    found_after: Option<Entry>,
)
    requires
        call_ensures(SkipList::insert, (list, version, key, value), r),
        call_ensures(SkipList::get, (&*old(list), snapshot, read_key), found),
        call_ensures(SkipList::get, (&*final(list), snapshot, read_key), found_after),
        r is Err || read_key@ != key@ || snapshot < version,
    ensures
        same_answer(found, found_after),
{
    lemma_same_answer(old(list), final(list), snapshot, read_key, found, found_after);
}

/// A removal changes no read of another key and none below its version; one that is
/// refused changes none at all.
pub proof fn law_a_removal_leaves_other_reads_alone(
    list: &mut SkipList,
    version: u64,
    key: &[u8],
    r: Result<(), Error>,
    snapshot: u64,
    read_key: &[u8],
    found: Option<Entry>,
    found_after: Option<Entry>,
)
    requires
        call_ensures(SkipList::remove, (list, version, key), r),
        call_ensures(SkipList::get, (&*old(list), snapshot, read_key), found),
        call_ensures(SkipList::get, (&*final(list), snapshot, read_key), found_after),
        r is Err || read_key@ != key@ || snapshot < version,
    ensures
        same_answer(found, found_after),
{
    lemma_same_answer(old(list), final(list), snapshot, read_key, found, found_after);
}

/// An insert is seen at every snapshot from its version on, until a newer version hides
/// it: a read that found a newer version finds it still, and every other finds what was
/// inserted.
pub proof fn law_an_insert_is_seen_until_a_newer_version(
    list: &mut SkipList,
    version: u64,
    key: &[u8],
    value: &[u8],
    snapshot: u64,
    found: Option<Entry>,
    found_after: Option<Entry>,
)
    requires
        version <= snapshot,
        call_ensures(SkipList::get, (&*old(list), snapshot, key), found),
        call_ensures(SkipList::insert, (list, version, key, value), Ok(())),
        call_ensures(SkipList::get, (&*final(list), snapshot, key), found_after),
    ensures
        finds_newer(found, version) ==> same_answer(found, found_after),
        !finds_newer(found, version) ==> (found_after matches Some(e) && e.key@ == key@
            && e.version == version && (e.value matches Some(bytes) && bytes@ == value@)),
{
    lemma_seen(old(list), final(list), version, key, Some(value@), snapshot, found, found_after);
}

/// A tombstone is seen at every snapshot from its version on, and hides the older
/// versions there, until a newer version hides it.
pub proof fn law_a_removal_is_seen_until_a_newer_version(
    list: &mut SkipList,
    version: u64,
    key: &[u8],
    snapshot: u64,
    found: Option<Entry>,
    found_after: Option<Entry>,
)
    requires
        version <= snapshot,
        call_ensures(SkipList::get, (&*old(list), snapshot, key), found),
        call_ensures(SkipList::remove, (list, version, key), Ok(())),
        call_ensures(SkipList::get, (&*final(list), snapshot, key), found_after),
    ensures
        finds_newer(found, version) ==> same_answer(found, found_after),
        !finds_newer(found, version) ==> (found_after matches Some(e) && e.key@ == key@
            && e.version == version && e.value is None),
{
    lemma_seen(old(list), final(list), version, key, None, snapshot, found, found_after);
}

/// A read found a version newer than this one.
pub open spec fn finds_newer(found: Option<Entry>, version: u64) -> bool {
    found matches Some(e) && e.version > version
}

/// What a read finds before and after a version is written.
proof fn lemma_seen(
    before: &SkipList,
    after: &SkipList,
    version: u64,
    key: &[u8],
    value: Option<Seq<u8>>,
    snapshot: u64,
    found: Option<Entry>,
    found_after: Option<Entry>,
)
    requires
        version <= snapshot,
        after@ == before@.insert((key@, version), value),
        call_ensures(SkipList::get, (before, snapshot, key), found),
        call_ensures(SkipList::get, (after, snapshot, key), found_after),
    ensures
        finds_newer(found, version) ==> same_answer(found, found_after),
        !finds_newer(found, version) ==> (found_after matches Some(e) && e.key@ == key@
            && e.version == version && (e.value is None <==> value is None) && (
        e.value matches Some(bytes) ==> value == Some(bytes@))),
{
    assert(after@.contains_key((key@, version)));
    if let Some(x) = found {
        assert(before@.contains_key((key@, x.version)));
        assert(after@.contains_key((key@, x.version)));
    }
    if let Some(y) = found_after {
        assert(after@.contains_key((key@, y.version)));
        if y.version != version {
            assert(before@.contains_key((key@, y.version)));
        }
    }
}

/// Of two reads of a key the one at the later snapshot finds the same version or a newer
/// one, which the earlier snapshot does not see.
pub proof fn law_a_later_snapshot_sees_no_less(
    list: &SkipList,
    key: &[u8],
    early: u64,
    late: u64,
    found: Option<Entry>,
    found_late: Option<Entry>,
)
    requires
        early <= late,
        call_ensures(SkipList::get, (list, early, key), found),
        call_ensures(SkipList::get, (list, late, key), found_late),
    ensures
        found matches Some(e) ==> e.key@ == key@ && e.version <= early,
        found is Some ==> found_late is Some,
        same_answer(found, found_late) || (found_late matches Some(e) && e.version > early),
{
    if let Some(x) = found {
        assert(list@.contains_key((key@, x.version)));
    }
    if let Some(y) = found_late {
        assert(list@.contains_key((key@, y.version)));
        if let Some(x) = found {
            if y.version <= early {
                assert(x.version == y.version);
            }
        }
    }
}

/// The list holds a version exactly if a read at that version finds it.
pub open spec fn finds(found: Option<Entry>, version: u64) -> bool {
    found matches Some(e) && e.version == version
}

/// An insert of a version that a read finds already adds nothing to the count and takes
/// the bytes of the value only; it succeeds exactly if those remain.
pub proof fn law_an_insert_at_a_stored_version_rewrites(
    list: &mut SkipList,
    version: u64,
    key: &[u8],
    value: &[u8],
    r: Result<(), Error>,
    found: Option<Entry>,
    len: usize,
    len_after: usize,
    remaining: usize,
    remaining_after: usize,
)
    requires
        old(list).wf(),
        value@.len() < 0xffff_ffff,
        call_ensures(SkipList::get, (&*old(list), version, key), found),
        finds(found, version),
        call_ensures(SkipList::len, (&*old(list),), len),
        call_ensures(SkipList::remaining, (&*old(list),), remaining),
        call_ensures(SkipList::insert, (list, version, key, value), r),
        call_ensures(SkipList::len, (&*final(list),), len_after),
        call_ensures(SkipList::remaining, (&*final(list),), remaining_after),
    ensures
        r == (if value@.len() <= remaining {
            Ok::<(), Error>(())
        } else {
            Err(Error::Full)
        }),
        remaining_after == (if r is Ok {
            remaining - value@.len()
        } else {
            remaining as int
        }),
        len_after == len,
{
    let id = (key@, version);
    assert(old(list)@.contains_key(id));
    laws::law_entries_are_the_map_in_order(old(list));
    put::law_length_fields_have_32_bits(key@, Some(value@));
    put::law_length_fields_have_32_bits(key@, old(list)@[id]);
    laws::law_a_rewrite_takes_the_bytes_of_its_value(
        old(list),
        id,
        Some(value@),
        r,
        final(list),
    );
}

/// A removal at a version that a read finds always succeeds; it takes no bytes and adds
/// nothing to the count.
pub proof fn law_a_removal_at_a_stored_version_takes_nothing(
    list: &mut SkipList,
    version: u64,
    key: &[u8],
    r: Result<(), Error>,
    found: Option<Entry>,
    len: usize,
    len_after: usize,
    remaining: usize,
    remaining_after: usize,
)
    requires
        old(list).wf(),
        call_ensures(SkipList::get, (&*old(list), version, key), found),
        finds(found, version),
        call_ensures(SkipList::len, (&*old(list),), len),
        call_ensures(SkipList::remaining, (&*old(list),), remaining),
        call_ensures(SkipList::remove, (list, version, key), r),
        call_ensures(SkipList::len, (&*final(list),), len_after),
        call_ensures(SkipList::remaining, (&*final(list),), remaining_after),
    ensures
        r is Ok,
        remaining_after == remaining,
        len_after == len,
{
    let id = (key@, version);
    assert(old(list)@.contains_key(id));
    laws::law_a_stored_entry_can_always_be_removed(old(list), id, r, final(list));
    laws::law_a_rewrite_takes_the_bytes_of_its_value(old(list), id, None, r, final(list));
}

/// An insert of a version that no read finds adds one to the count. It takes its key,
/// its value, padding to a multiple of eight, and a node of 28 to 104 bytes; with room
/// for the most of that it succeeds, and where it is refused the count stays.
pub proof fn law_an_insert_at_a_new_version_adds_an_entry(
    list: &mut SkipList,
    version: u64,
    key: &[u8],
    value: &[u8],
    r: Result<(), Error>,
    found: Option<Entry>,
    len: usize,
    len_after: usize,
    allocated: usize,
    allocated_after: usize,
    capacity: usize,
)
    requires
        old(list).wf(),
        call_ensures(SkipList::get, (&*old(list), version, key), found),
        !finds(found, version),
        call_ensures(SkipList::len, (&*old(list),), len),
        call_ensures(SkipList::allocated, (&*old(list),), allocated),
        call_ensures(SkipList::capacity, (&*old(list),), capacity),
        call_ensures(SkipList::insert, (list, version, key, value), r),
        call_ensures(SkipList::len, (&*final(list),), len_after),
        call_ensures(SkipList::allocated, (&*final(list),), allocated_after),
    ensures
        ({
            let text = key@.len() + value@.len();
            &&& r is Ok ==> {
                &&& len_after == len + 1
                &&& allocated + text + 28 <= allocated_after <= allocated + text + 7 + 104
                &&& allocated_after <= capacity
                &&& allocated_after % 4 == 0
            }
            &&& r is Err ==> {
                &&& len_after == len
                &&& allocated <= allocated_after <= allocated + text
            }
            &&& allocated + text + 7 + 104 <= capacity ==> r is Ok
        }),
{
    let id = (key@, version);
    let value = Some(value@);
    lemma_found(old(list), version, key, found);
    old(list).lemma_cursor();
    crate::skiplist::law_drawn_heights_are_in_range(old(list).seed());
    put::law_length_fields_have_32_bits(key@, value);
    lemma_new_entry(old(list), id, value, r, final(list));
}

/// A removal at a version that no read finds adds one entry, the tombstone, as an insert
/// adds its value.
pub proof fn law_a_removal_at_a_new_version_adds_an_entry(
    list: &mut SkipList,
    version: u64,
    key: &[u8],
    r: Result<(), Error>,
    found: Option<Entry>,
    len: usize,
    len_after: usize,
    allocated: usize,
    allocated_after: usize,
    capacity: usize,
)
    requires
        old(list).wf(),
        call_ensures(SkipList::get, (&*old(list), version, key), found),
        !finds(found, version),
        call_ensures(SkipList::len, (&*old(list),), len),
        call_ensures(SkipList::allocated, (&*old(list),), allocated),
        call_ensures(SkipList::capacity, (&*old(list),), capacity),
        call_ensures(SkipList::remove, (list, version, key), r),
        call_ensures(SkipList::len, (&*final(list),), len_after),
        call_ensures(SkipList::allocated, (&*final(list),), allocated_after),
    ensures
        ({
            let text = key@.len();
            &&& r is Ok ==> {
                &&& len_after == len + 1
                &&& allocated + text + 28 <= allocated_after <= allocated + text + 7 + 104
                &&& allocated_after <= capacity
                &&& allocated_after % 4 == 0
            }
            &&& r is Err ==> {
                &&& len_after == len
                &&& allocated <= allocated_after <= allocated + text
            }
            &&& allocated + text + 7 + 104 <= capacity ==> r is Ok
        }),
{
    lemma_found(old(list), version, key, found);
    old(list).lemma_cursor();
    put::law_length_fields_have_32_bits(key@, None);
    lemma_new_entry(old(list), (key@, version), None, r, final(list));
}

/// A read at a version finds that version exactly if the list holds it.
proof fn lemma_found(list: &SkipList, version: u64, key: &[u8], found: Option<Entry>)
    requires
        call_ensures(SkipList::get, (list, version, key), found),
    ensures
        finds(found, version) <==> list@.contains_key((key@, version)),
{
    if let Some(e) = found {
        assert(list@.contains_key((key@, e.version)));
    }
}

/// The numbers of a write of a new entry.
proof fn lemma_new_entry(
    before: &SkipList,
    id: order::Id,
    value: Option<Seq<u8>>,
    r: Result<(), Error>,
    after: &SkipList,
)
    requires
        before.wf(),
        before.cursor() <= before.cap() <= u32::MAX,
        !before@.contains_key(id),
        crate::skiplist::put_did(before, id, value, r, after),
    ensures
        ({
            let text = id.0.len() + put::text_len(value);
            &&& r is Ok ==> {
                &&& after.count() == before.count() + 1
                &&& before.cursor() + text + 28 <= after.cursor() <= before.cursor() + text + 111
                &&& after.cursor() <= before.cap()
                &&& after.cursor() % 4 == 0
            }
            &&& r is Err ==> {
                &&& after.count() == before.count()
                &&& before.cursor() <= after.cursor() <= before.cursor() + text
            }
            &&& before.cursor() + text + 111 <= before.cap() ==> r is Ok
        }),
{
    crate::skiplist::law_drawn_heights_are_in_range(before.seed());
    put::law_length_fields_have_32_bits(id.0, value);
    if r is Ok {
        laws::law_a_new_entry_takes_its_texts_and_a_node(before, id, value, after);
    } else if r == Err::<(), Error>(Error::Full) {
        laws::law_a_new_entry_is_refused_only_without_room(before, id, value, after, 0);
    } else {
        laws::law_what_is_too_large_is_refused(before, id, value, r, after);
    }
    if before.cursor() + id.0.len() + put::text_len(value) + 111 <= before.cap() {
        laws::law_a_write_with_room_succeeds(before, id, value, r, after);
    }
}

/// A walk hands out entries in order: keys ascend, as byte strings do by the first byte
/// in which they differ, and the versions of one key descend.
pub proof fn law_a_walk_goes_in_order(
    iter: &mut Iter,
    after: &mut Iter,
    first: Entry,
    second: Entry,
)
    requires
        old(iter).wf(),
        call_ensures(Iter::next, (iter,), Some(first)),
        *old(after) == *final(iter),
        call_ensures(Iter::next, (after,), Some(second)),
    ensures
        first.key@ == second.key@ ==> first.version > second.version,
        first.key@ != second.key@ ==> exists|i: int|
            {
                &&& 0 <= i <= first.key@.len()
                &&& i < second.key@.len()
                &&& first.key@.take(i) == #[trigger] second.key@.take(i)
                &&& i < first.key@.len() ==> first.key@[i] < second.key@[i]
            },
{
    let items = old(iter).remaining();
    old(iter).lemma_in_order(0, 1);
    assert(items.skip(1)[0] == items[1]);
    let a = first.key@;
    let b = second.key@;
    assert(order::before((a, first.version), (b, second.version)));
    order::law_keys_ascend_and_versions_descend(a, first.version, b, second.version);
    if a != b {
        let i = choose|i: int| order::splits_at(a, b, i);
        assert(a.take(i) =~= b.take(i));
    }
}

/// Every entry that a walk hands out is what a read of its key at its version gives.
pub proof fn law_a_walk_agrees_with_reads(
    list: &SkipList,
    iter: Iter,
    walk: &mut Iter,
    e: Entry,
    found: Option<Entry>,
)
    requires
        list.wf(),
        call_ensures(SkipList::iter_all, (list,), iter),
        *old(walk) == iter,
        call_ensures(Iter::next, (walk,), Some(e)),
        call_ensures(SkipList::get, (list, e.version, e.key), found),
    ensures
        same_answer(Some(e), found),
{
    laws::law_entries_are_the_map_in_order(list);
    let item = list.entries()[0];
    crate::skiplist::law_an_entry_stands_for_itself(e);
    assert(list@.contains_key((item.key, item.version)));
    if let Some(x) = found {
        assert(list@.contains_key((e.key@, x.version)));
    }
}

/// A walk over all entries leaves nothing out: what a read finds is among them.
pub proof fn law_a_walk_leaves_nothing_out(
    list: &SkipList,
    iter: Iter,
    snapshot: u64,
    key: &[u8],
    e: Entry,
)
    requires
        list.wf(),
        call_ensures(SkipList::iter_all, (list,), iter),
        call_ensures(SkipList::get, (list, snapshot, key), Some(e)),
    ensures
        exists|i: int|
            {
                &&& 0 <= i < iter.remaining().len()
                &&& (#[trigger] iter.remaining()[i]).key == key@
                &&& iter.remaining()[i].version == e.version
                &&& iter.remaining()[i].value is None <==> e.value is None
                &&& e.value matches Some(bytes) ==> iter.remaining()[i].value == Some(bytes@)
            },
{
    laws::law_entries_are_the_map_in_order(list);
    assert(list@.contains_key((key@, e.version)));
    let i = choose|i: int|
        0 <= i < list.entries().len() && (#[trigger] list.entries()[i]).key == key@
            && list.entries()[i].version == e.version && list.entries()[i].value == list@[(
            key@,
            e.version,
        )];
    assert(iter.remaining()[i].key == key@);
}

/// Each step of a walk hands out the first of the entries still to come and leaves the
/// others, and it ends when none are left.
pub proof fn law_a_walk_hands_out_one_entry_after_the_other(
    iter: &mut Iter,
    e: Option<Entry>,
    i: int,
)
    requires
        call_ensures(Iter::next, (iter,), e),
        0 <= i < old(iter).remaining().len() - 1,
    ensures
        e matches Some(entry) && {
            &&& entry.key@ == old(iter).remaining()[0].key
            &&& entry.version == old(iter).remaining()[0].version
            &&& entry.value is None <==> old(iter).remaining()[0].value is None
            &&& entry.value matches Some(bytes) ==> old(iter).remaining()[0].value == Some(bytes@)
            &&& final(iter).remaining().len() == old(iter).remaining().len() - 1
            &&& final(iter).remaining()[i] == old(iter).remaining()[i + 1]
        },
{
    if let Some(entry) = e {
        crate::skiplist::law_an_entry_stands_for_itself(entry);
    }
}

/// A scan hands out the entry after those it has passed, and none at the end.
pub proof fn law_a_scan_hands_out_the_next_entry(
    scan: &mut Scan,
    list: &SkipList,
    e: Option<Entry>,
)
    requires
        call_ensures(Scan::next, (scan, list), e),
    ensures
        e is None <==> old(scan).passed(list) == list.entries().len(),
        e matches Some(entry) ==> {
            let item = list.entries()[old(scan).passed(list)];
            &&& entry.key@ == item.key
            &&& entry.version == item.version
            &&& entry.value is None <==> item.value is None
            &&& entry.value matches Some(bytes) ==> item.value == Some(bytes@)
            &&& final(scan).passed(list) == old(scan).passed(list) + 1
        },
{
    if let Some(entry) = e {
        crate::skiplist::law_an_entry_stands_for_itself(entry);
    }
}

/// A list is empty exactly if it counts no entries, and what is allocated and what
/// remains make up its capacity.
pub proof fn law_the_numbers_of_a_list_agree(
    list: &SkipList,
    len: usize,
    empty: bool,
    allocated: usize,
    remaining: usize,
    capacity: usize,
)
    requires
        call_ensures(SkipList::len, (list,), len),
        call_ensures(SkipList::is_empty, (list,), empty),
        call_ensures(SkipList::allocated, (list,), allocated),
        call_ensures(SkipList::remaining, (list,), remaining),
        call_ensures(SkipList::capacity, (list,), capacity),
    ensures
        empty <==> len == 0,
        allocated + remaining == capacity,
        list.settled() ==> len == list.entries().len(),
{
}

/// A height drawn is above `k` exactly if the lowest `k` base-4 digits of the scrambled
/// seed are zero. Drawing it changes the seed and no read.
pub proof fn law_a_height_is_drawn_from_the_seed(
    list: &mut SkipList,
    h: usize,
    k: nat,
    snapshot: u64,
    key: &[u8],
    found: Option<Entry>,
    found_after: Option<Entry>,
)
    requires
        k < 20,
        call_ensures(SkipList::random_height, (list,), h),
        call_ensures(SkipList::get, (&*old(list), snapshot, key), found),
        call_ensures(SkipList::get, (&*final(list), snapshot, key), found_after),
    ensures
        1 <= h <= 20,
        h > k <==> crate::skiplist::mix(old(list).seed()) as int % vstd::arithmetic::power::pow(
            4,
            k,
        ) == 0,
        final(list).seed() == old(list).seed().wrapping_add(0x9E37_79B9_7F4A_7C15),
        same_answer(found, found_after),
{
    crate::skiplist::law_one_scrambled_seed_in_four_rises(old(list).seed(), k);
    lemma_same_answer(old(list), final(list), snapshot, key, found, found_after);
}

/// Keys of 2^32 bytes or more and values of 2^32 - 1 or more are too large, and a write
/// of one is refused.
pub proof fn law_what_is_too_large_is_told(
    list: &SkipList,
    version: u64,
    key: &[u8],
    value: Option<&[u8]>,
    told: bool,
    write: Put,
)
    requires
        call_ensures(is_too_large, (key, value), told),
        call_ensures(Put::new, (list, version, key, value), write),
    ensures
        told <==> key@.len() > 0xffff_ffff || (value matches Some(v) && v@.len() >= 0xffff_ffff),
        write.result() == (if told {
            Some(Err::<(), Error>(Error::TooLarge))
        } else {
            None
        }),
        write.id() == (key@, version),
        write.new_value() is None <==> value is None,
        value matches Some(bytes) ==> write.new_value() == Some(bytes@),
        !write.applied(),
{
    crate::skiplist::law_a_value_is_its_bytes(value);
    put::law_length_fields_have_32_bits(key@, crate::skiplist::value_view(value));
}

/// A step of a write sets its entry to its value, once, or changes no entry. A write that
/// has finished has set it exactly if it succeeded.
pub proof fn law_a_step_sets_the_entry_or_nothing(
    write: &mut Put,
    list: &mut SkipList,
    r: Option<Result<(), Error>>,
)
    requires
        call_ensures(Put::step, (write, list), r),
    ensures
        final(list)@ == old(list)@ || final(list)@ == old(list)@.insert(
            old(write).id(),
            old(write).new_value(),
        ),
        !old(write).applied() && final(write).applied() ==> final(list)@.contains_key(
            old(write).id(),
        ) && final(list)@[old(write).id()] == old(write).new_value(),
        old(write).applied() || !final(write).applied() ==> final(list)@ == old(list)@,
        r == Some(Ok::<(), Error>(())) ==> final(write).applied(),
        r matches Some(Err(_)) ==> !final(write).applied(),
        final(write).id() == old(write).id(),
        final(write).new_value() == old(write).new_value(),
{
}

/// A read in steps gives what the list holds of the version located when it is loaded,
/// never one above the snapshot, and nothing only if the list held nothing to see.
pub proof fn law_a_read_in_steps_gives_what_it_located(
    read: &mut Lookup,
    list: &SkipList,
    found: Option<Entry>,
)
    requires
        old(read).wf(list),
        call_ensures(Lookup::step, (read, list), Some(found)),
    ensures
        found matches Some(e) ==> {
            &&& e.key@ == old(read).target()
            &&& e.version <= old(read).bound()
            &&& old(read).located() == Some(e.version)
            &&& list@.contains_key((e.key@, e.version))
            &&& e.value is None <==> list@[(e.key@, e.version)] is None
            &&& e.value matches Some(bytes) ==> list@[(e.key@, e.version)] == Some(bytes@)
        },
        found is None && old(read).searching() ==> forall|v: u64|
            v <= old(read).bound() ==> !#[trigger] list@.contains_key((old(read).target(), v)),
{
    if let Some(e) = found {
        crate::skiplist::law_an_entry_stands_for_itself(e);
    }
}

/// A step of a read that locates a version locates the newest that the snapshot sees.
pub proof fn law_a_read_in_steps_locates_the_newest(
    read: &mut Lookup,
    list: &SkipList,
    version: u64,
)
    requires
        call_ensures(Lookup::step, (read, list), None::<Option<Entry>>),
        old(read).searching(),
        final(read).located() == Some(version),
        !final(read).searching(),
    ensures
        version <= old(read).bound(),
        list@.contains_key((old(read).target(), version)),
        forall|v: u64|
            version < v <= old(read).bound() ==> !#[trigger] list@.contains_key(
                (old(read).target(), v),
            ),
{
}

/// A list can be made with any capacity above eight bytes. It can be read at any snapshot
/// and written at any version of 56 bits, whatever the key and the value.
pub proof fn law_lists_take_all_keys_values_and_versions(
    list: &mut SkipList,
    capacity: u32,
    snapshot: u64,
    version: u64,
    key: &[u8],
    value: &[u8],
)
    requires
        old(list).wf(),
        capacity > 8,
        version < 0x100_0000_0000_0000,
    ensures
        call_requires(SkipList::new, (capacity,)),
        call_requires(SkipList::get, (&*old(list), snapshot, key)),
        call_requires(SkipList::insert, (list, version, key, value)),
        call_requires(SkipList::remove, (list, version, key)),
        call_requires(SkipList::iter_all, (&*old(list),)),
        call_requires(SkipList::len, (&*old(list),)),
{
}

/// An arena can be made with any capacity above eight bytes, and any size can be asked of
/// it at any alignment that is a power of two.
pub proof fn law_arenas_take_all_sizes_and_alignments(
    a: &mut Arena,
    cap: u32,
    size: u32,
    align: u32,
    k: nat,
    data: &[u8],
)
    requires
        old(a).wf(),
        cap > 8,
        k < 32,
        align == vstd::arithmetic::power2::pow2(k),
    ensures
        call_requires(Arena::new, (cap,)),
        call_requires(Arena::allocate, (a, size, align)),
        call_requires(Arena::alloc_bytes, (a, data)),
{
    crate::arena::law_alignments_are_powers_of_two(align, k);
}

/// What a call leaves behind can be used for the next one.
pub proof fn law_calls_leave_what_they_take_in_order(
    a: &mut Arena,
    size: u32,
    align: u32,
    r: Result<u32, ArenaFull>,
    list: &mut SkipList,
    version: u64,
    key: &[u8],
    value: &[u8],
    s: Result<(), Error>,
)
    requires
        call_ensures(Arena::allocate, (a, size, align), r),
        call_ensures(SkipList::insert, (list, version, key, value), s),
    ensures
        final(a).wf(),
        final(list).wf(),
        old(list).settled() ==> final(list).settled(),
{
}

} // verus!
