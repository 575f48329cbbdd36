//! What holds of a list as a whole.

use crate::chain;
use crate::chain::Item;
use crate::node;
use crate::order;
use crate::order::Id;
use crate::skiplist;
use crate::skiplist::lookup::Lookup;
use crate::skiplist::put;
use crate::skiplist::put::Put;
use crate::skiplist::{Error, Scan, SkipList, MAX_HEIGHT, MAX_VERSION};
use vstd::prelude::*;

verus! {

/// The entries of a list are sorted by key ascending, then version descending,
/// without duplicates; they are exactly what the list maps; no version is above the
/// largest allowed; and keys and values are as long as their length fields can say.
pub proof fn law_entries_are_the_map_in_order(list: &SkipList)
    requires
        list.wf(),
    ensures
        chain::sorted(list.entries()),
        forall|i: int, j: int|
            #![trigger list.entries()[i], list.entries()[j]]
            0 <= i < j < list.entries().len() ==> order::before(
                (list.entries()[i].key, list.entries()[i].version),
                (list.entries()[j].key, list.entries()[j].version),
            ),
        forall|i: int|
            0 <= i < list.entries().len() ==> {
                let item = #[trigger] list.entries()[i];
                &&& list@.contains_key((item.key, item.version))
                &&& list@[(item.key, item.version)] == item.value
                &&& item.version <= MAX_VERSION
                &&& !put::too_large(item.key, item.value)
            },
        forall|id: Id| #[trigger]
            list@.contains_key(id) ==> exists|i: int|
                0 <= i < list.entries().len() && (#[trigger] list.entries()[i]).key == id.0
                    && list.entries()[i].version == id.1 && list.entries()[i].value == list@[id],
{
    list.lemma_entries();
    assert forall|i: int| 0 <= i < list.entries().len() implies {
        let item = #[trigger] list.entries()[i];
        &&& list@.contains_key((item.key, item.version))
        &&& list@[(item.key, item.version)] == item.value
        &&& item.version <= MAX_VERSION
        &&& !put::too_large(item.key, item.value)
    } by {
        chain::lemma_one_place(list.entries(), i);
        list.lemma_at(0, i + 1);
        list.lemma_node(list.chains@[0][i + 1]);
    }
    assert forall|id: Id| #[trigger] list@.contains_key(id) implies exists|i: int|
        0 <= i < list.entries().len() && (#[trigger] list.entries()[i]).key == id.0
            && list.entries()[i].version == id.1 && list.entries()[i].value == list@[id] by {
        let i = chain::place_of(list.entries(), id);
        assert(chain::item_id(list.entries()[i]) == id);
    }
}

/// What a read sees is determined by the map, the snapshot and the key.
pub proof fn law_a_read_has_one_answer(
    map: Map<Id, Option<Seq<u8>>>,
    snapshot: u64,
    key: Seq<u8>,
    one: Option<Item>,
    other: Option<Item>,
)
    requires
        chain::is_visible(map, snapshot, key, one),
        chain::is_visible(map, snapshot, key, other),
    ensures
        one == other,
{
    if let Some(a) = one {
        assert(map.contains_key((key, a.version)));
        if let Some(b) = other {
            assert(map.contains_key((key, b.version)));
        }
    }
    if let Some(b) = other {
        assert(map.contains_key((key, b.version)));
    }
}

/// After a write at a version, a read at any snapshot from that version on, up to
/// the next newer version of the key, sees that write: its value, or its
/// tombstone, which hides the older versions.
pub proof fn law_a_read_sees_the_write(
    map: Map<Id, Option<Seq<u8>>>,
    key: Seq<u8>,
    version: u64,
    value: Option<Seq<u8>>,
    snapshot: u64,
    found: Option<Item>,
)
    requires
        version <= snapshot,
        forall|v: u64| version < v <= snapshot ==> !#[trigger] map.contains_key((key, v)),
        chain::is_visible(map.insert((key, version), value), snapshot, key, found),
    ensures
        found == Some(Item { key, version, value }),
{
    let after = map.insert((key, version), value);
    assert(after.contains_key((key, version)));
    if let Some(item) = found {
        assert(after.contains_key((key, item.version)));
        if item.version > version {
            assert(map.contains_key((key, item.version)));
        }
    }
}

/// A write changes no read of another key, no read below its version, and no read
/// that already saw a newer version.
pub proof fn law_a_write_leaves_other_reads_alone(
    map: Map<Id, Option<Seq<u8>>>,
    key: Seq<u8>,
    version: u64,
    value: Option<Seq<u8>>,
    read_key: Seq<u8>,
    snapshot: u64,
    found: Option<Item>,
)
    requires
        read_key != key || snapshot < version || exists|v: u64|
            version < v <= snapshot && #[trigger] map.contains_key((read_key, v)),
    ensures
        chain::is_visible(map.insert((key, version), value), snapshot, read_key, found)
            <==> chain::is_visible(map, snapshot, read_key, found),
{
    let after = map.insert((key, version), value);
    assert forall|v: u64|
        v <= snapshot && (read_key, v) != (key, version) implies #[trigger] after.contains_key(
        (read_key, v),
    ) == map.contains_key((read_key, v)) by {}
    if read_key == key && version <= snapshot {
        let newer = choose|v: u64|
            version < v <= snapshot && #[trigger] map.contains_key((read_key, v));
        assert(after.contains_key((read_key, newer)));
        assert(map.contains_key((read_key, newer)));
        if let Some(item) = found {
            assert(map.contains_key((key, item.version)) || item.version == version
                || !after.contains_key((key, item.version)));
        }
    }
    if let Some(item) = found {
        assert forall|v: u64|
            item.version < v <= snapshot && (read_key, v) != (
                key,
                version,
            ) implies after.contains_key((read_key, v)) == #[trigger] map.contains_key(
            (read_key, v),
        ) by {}
    } else {
        assert forall|v: u64|
            v <= snapshot && (read_key, v) != (key, version) implies after.contains_key(
            (read_key, v),
        ) == #[trigger] map.contains_key((read_key, v)) by {}
    }
}

/// Writes of different entries give the same map in either order, so writers that
/// write different entries need not agree on one.
pub proof fn law_writes_of_different_entries_commute(
    map: Map<Id, Option<Seq<u8>>>,
    a: Id,
    a_value: Option<Seq<u8>>,
    b: Id,
    b_value: Option<Seq<u8>>,
)
    requires
        a != b,
    ensures
        map.insert(a, a_value).insert(b, b_value) == map.insert(b, b_value).insert(a, a_value),
{
    assert(map.insert(a, a_value).insert(b, b_value) =~= map.insert(b, b_value).insert(
        a,
        a_value,
    ));
}

/// A write that succeeds sets its own entry, to the value written, and no other; one
/// that is refused sets none.
pub proof fn law_a_write_sets_its_own_entry(
    before: &SkipList,
    id: Id,
    value: Option<Seq<u8>>,
    r: Result<(), Error>,
    after: &SkipList,
    other: Id,
)
    requires
        skiplist::put_did(before, id, value, r, after),
    ensures
        r is Ok ==> after@.contains_key(id) && after@[id] == value,
        r is Ok ==> after@ == before@.insert(id, value),
        r is Err || other != id ==> {
            &&& after@.contains_key(other) <==> before@.contains_key(other)
            &&& before@.contains_key(other) ==> after@[other] == before@[other]
        },
{
}

/// What was written is what a read gives back, at every snapshot from its version on
/// that sees no newer one, whether the entry is new or rewritten: all bytes of the
/// value, or the tombstone.
pub proof fn law_what_was_written_is_read_back(
    before: &SkipList,
    key: Seq<u8>,
    version: u64,
    value: Option<Seq<u8>>,
    after: &SkipList,
    snapshot: u64,
    found: Option<Item>,
)
    requires
        skiplist::put_did(before, (key, version), value, Ok(()), after),
        version <= snapshot,
        forall|v: u64| version < v <= snapshot ==> !#[trigger] before@.contains_key((key, v)),
        chain::is_visible(after@, snapshot, key, found),
    ensures
        found == Some(Item { key, version, value }),
{
    law_a_read_sees_the_write(before@, key, version, value, snapshot, found);
}

/// What was written is listed, in its place, with its value.
pub proof fn law_what_was_written_is_listed(
    before: &SkipList,
    key: Seq<u8>,
    version: u64,
    value: Option<Seq<u8>>,
    after: &SkipList,
)
    requires
        after.wf(),
        skiplist::put_did(before, (key, version), value, Ok(()), after),
    ensures
        exists|i: int|
            0 <= i < after.entries().len() && #[trigger] after.entries()[i] == (Item {
                key,
                version,
                value,
            }),
{
    law_entries_are_the_map_in_order(after);
    assert(after@.contains_key((key, version)));
    let i = choose|i: int|
        0 <= i < after.entries().len() && (#[trigger] after.entries()[i]).key == key
            && after.entries()[i].version == version && after.entries()[i].value == after@[(
            key,
            version,
        )];
    assert(after.entries()[i] == Item { key, version, value });
}

/// A write is refused as too large exactly if its key has 2^32 bytes or more, or its
/// value 2^32 - 1 or more, and then nothing changes.
pub proof fn law_what_is_too_large_is_refused(
    before: &SkipList,
    id: Id,
    value: Option<Seq<u8>>,
    r: Result<(), Error>,
    after: &SkipList,
)
    requires
        skiplist::put_did(before, id, value, r, after),
    ensures
        r == Err::<(), Error>(Error::TooLarge) <==> id.0.len() > 0xffff_ffff || (value is Some
            && value->0.len() >= 0xffff_ffff),
        r == Err::<(), Error>(Error::TooLarge) ==> *after == *before,
{
}

/// A write of an entry that the list holds succeeds exactly if the bytes of its value
/// fit, and claims those; a tombstone has none. It adds no entry and draws no height.
pub proof fn law_a_rewrite_takes_the_bytes_of_its_value(
    before: &SkipList,
    id: Id,
    value: Option<Seq<u8>>,
    r: Result<(), Error>,
    after: &SkipList,
)
    requires
        before@.contains_key(id),
        skiplist::put_did(before, id, value, r, after),
        r != Err::<(), Error>(Error::TooLarge),
    ensures
        value is None && before.cursor() <= before.cap() ==> r is Ok && after.cursor()
            == before.cursor(),
        value matches Some(s) ==> {
            &&& r is Ok <==> before.cursor() + s.len() <= before.cap()
            &&& r is Ok ==> after.cursor() == before.cursor() + s.len()
        },
        r is Err ==> after.cursor() == before.cursor(),
        after.cap() == before.cap(),
        after.entries().len() == before.entries().len(),
        after.count() == before.count(),
        after.seed() == before.seed(),
        after.tallest() == before.tallest(),
{
}

/// A write of a new entry that succeeds claims its key, its value and, at the next
/// multiple of eight, a node of 24 bytes and four for each level of the height drawn.
/// It adds one entry, counts it, and raises the list to the height drawn.
pub proof fn law_a_new_entry_takes_its_texts_and_a_node(
    before: &SkipList,
    id: Id,
    value: Option<Seq<u8>>,
    after: &SkipList,
)
    requires
        before.wf(),
        !before@.contains_key(id),
        skiplist::put_did(before, id, value, Ok(()), after),
    ensures
        ({
            let text = id.0.len() + (match value {
                None => 0,
                Some(s) => s.len(),
            });
            let height = skiplist::drawn_height(before.seed());
            let at = after.cursor() - (24 + 4 * height);
            &&& at % 8 == 0
            &&& before.cursor() + text <= at < before.cursor() + text + 8
            &&& after.cursor() <= before.cap() == after.cap()
            &&& after.entries().len() == before.entries().len() + 1
            &&& after.count() == before.count() + 1
            &&& after.seed() == before.seed().wrapping_add(0x9E37_79B9_7F4A_7C15)
            &&& after.tallest() >= before.tallest()
            &&& after.tallest() >= height
            &&& after.tallest() == before.tallest() || after.tallest() == height
        }),
{
    before.arena.lemma_bounds();
    let text = id.0.len() + put::text_len(value);
    crate::arena::lemma_align_up(before.cursor() + text, node::NODE_ALIGN as int);
}

/// A write of a new entry is refused only where its key, its value or its node does not
/// fit: no multiple of eight past its texts leaves room for the node. What it has
/// claimed before that stays claimed, and nothing else changes but the seed.
pub proof fn law_a_new_entry_is_refused_only_without_room(
    before: &SkipList,
    id: Id,
    value: Option<Seq<u8>>,
    after: &SkipList,
    at: int,
)
    requires
        before.wf(),
        !before@.contains_key(id),
        skiplist::put_did(before, id, value, Err(Error::Full), after),
    ensures
        ({
            let key_len = id.0.len() as int;
            let value_len = match value {
                None => 0,
                Some(s) => s.len() as int,
            };
            let height = skiplist::drawn_height(before.seed());
            let text_end = before.cursor() + key_len + value_len;
            &&& text_end <= at && at % 8 == 0 ==> at + 24 + 4 * height > before.cap()
            &&& after.cap() == before.cap()
            &&& after.cursor() == before.cursor() + (if before.cursor() + key_len > before.cap() {
                0
            } else if text_end > before.cap() {
                key_len
            } else {
                key_len + value_len
            })
            &&& after@ == before@
            &&& after.entries() == before.entries()
            &&& after.count() == before.count()
            &&& after.tallest() == before.tallest()
            &&& after.seed() == (if text_end > before.cap() {
                before.seed()
            } else {
                before.seed().wrapping_add(0x9E37_79B9_7F4A_7C15)
            })
        }),
{
    before.arena.lemma_bounds();
    skiplist::law_drawn_heights_are_in_range(before.seed());
    let text_end = before.cursor() + id.0.len() + put::text_len(value);
    let size = 24 + 4 * skiplist::drawn_height(before.seed());
    if text_end <= at && at % 8 == 0 && at + size <= before.cap() {
        crate::arena::law_a_request_fits_where_there_is_a_place(
            text_end,
            size,
            8,
            before.cap(),
            at,
        );
    }
}

/// A write that finds room even for the tallest node succeeds.
pub proof fn law_a_write_with_room_succeeds(
    before: &SkipList,
    id: Id,
    value: Option<Seq<u8>>,
    r: Result<(), Error>,
    after: &SkipList,
)
    requires
        before.wf(),
        skiplist::put_did(before, id, value, r, after),
        before.cursor() + id.0.len() + put::text_len(value) + 7 + node::node_size(MAX_HEIGHT as int)
            <= before.cap(),
    ensures
        r is Ok,
{
    before.arena.lemma_bounds();
    skiplist::law_drawn_heights_are_in_range(before.seed());
    crate::arena::lemma_align_up(
        before.cursor() + id.0.len() + put::text_len(value),
        node::NODE_ALIGN as int,
    );
}

/// A write refused for want of room is refused again, unless its retry draws a
/// shorter node than the one that did not fit: a full arena stays full.
pub proof fn law_a_full_list_stays_full(
    first: &SkipList,
    second: &SkipList,
    third: &SkipList,
    id: Id,
    value: Option<Seq<u8>>,
    again: Result<(), Error>,
)
    requires
        first.wf(),
        skiplist::put_did(first, id, value, Err(Error::Full), second),
        skiplist::put_did(second, id, value, again, third),
        first@.contains_key(id) || first.cursor() + id.0.len() + put::text_len(value)
            > first.cap() || skiplist::drawn_height(second.seed()) >= skiplist::drawn_height(
            first.seed(),
        ),
    ensures
        again == Err::<(), Error>(Error::Full),
        third@ == first@,
{
    let text = id.0.len() + put::text_len(value);
    first.arena.lemma_bounds();
    crate::arena::lemma_align_up_monotonic(
        first.cursor() + text,
        second.cursor() + text,
        node::NODE_ALIGN as int,
    );
}

/// Rewriting an entry claims the bytes of the new value and nothing else, and adds
/// no entry.
pub proof fn law_an_entry_is_rewritten_in_place(
    before: &SkipList,
    id: Id,
    value: Option<Seq<u8>>,
    after: &SkipList,
)
    requires
        before@.contains_key(id),
        skiplist::put_did(before, id, value, Ok(()), after),
    ensures
        after.cursor() == before.cursor() + put::text_len(value),
        after.entries().len() == before.entries().len(),
        after.count() == before.count(),
        after@[id] == value,
{
}

/// A tombstone on an entry that the list holds always succeeds and claims nothing.
pub proof fn law_a_stored_entry_can_always_be_removed(
    before: &SkipList,
    id: Id,
    r: Result<(), Error>,
    after: &SkipList,
)
    requires
        before.wf(),
        before@.contains_key(id),
        skiplist::put_did(before, id, None, r, after),
    ensures
        r is Ok,
        after.cursor() == before.cursor(),
        after@ == before@.insert(id, None),
{
    law_entries_are_the_map_in_order(before);
    before.arena.lemma_bounds();
    let i = chain::place_of(before.entries(), id);
    assert(chain::item_id(before.entries()[i]) == id);
}

/// A write of an entry that the list holds stays a rewrite, whatever others do between
/// its steps: it adds no entry and claims the bytes of its value only. It is refused
/// only where those do not fit; a tombstone is never refused.
pub proof fn law_a_rewrite_stays_a_rewrite(
    before: &Put,
    old_list: &SkipList,
    after: &Put,
    list: &SkipList,
)
    requires
        old_list.wf(),
        before.wf(old_list),
        before.rewrites(),
        old_list@.contains_key(before.id()),
        Put::stepped(before, old_list, after, list),
    ensures
        after.rewrites(),
        list@.contains_key(after.id()),
        after.id() == before.id(),
        after.new_value() == before.new_value(),
        after.to_claim() == before.to_claim() || after.to_claim() == 0,
        list.entries().len() == old_list.entries().len(),
        list.count() == old_list.count(),
        match after.result() {
            Some(Err(e)) => {
                &&& *list == *old_list
                &&& before.result() is None ==> {
                    &&& e == Error::Full
                    &&& before.new_value() is Some
                    &&& old_list.cursor() + put::text_len(before.new_value()) > old_list.cap()
                }
            },
            _ => list.cursor() + after.to_claim() == old_list.cursor() + before.to_claim(),
        },
{
    Put::lemma_rewrites(before, old_list, after, list);
}

/// A write that is left alone takes `steps_left` steps at most, whatever others did
/// to the list before: each step leaves fewer, and none are left when it has
/// finished.
pub proof fn law_every_step_leaves_fewer(
    before: &Put,
    old_list: &SkipList,
    after: &Put,
    list: &SkipList,
)
    requires
        old_list.wf(),
        before.wf(old_list),
        Put::stepped(before, old_list, after, list),
    ensures
        0 <= after.steps_left(list),
        before.result() is None ==> after.steps_left(list) < before.steps_left(old_list),
        after.steps_left(list) == 0 <==> after.result() is Some,
{
    Put::lemma_counts_down(before, old_list, after, list);
}

/// The states of a write and of the list while nobody else changes the list.
pub open spec fn left_alone(writes: Seq<Put>, lists: Seq<SkipList>) -> bool {
    &&& writes.len() == lists.len()
    &&& forall|k: int, next: int|
        #![trigger writes[k], writes[next]]
        0 <= k && next == k + 1 && next < writes.len() ==> Put::stepped(
            &writes[k],
            &lists[k],
            &writes[next],
            &lists[next],
        )
}

/// A write that is left alone finishes, at whatever point and in whatever state it
/// was left alone.
pub proof fn law_a_write_left_alone_finishes(writes: Seq<Put>, lists: Seq<SkipList>)
    requires
        writes.len() > 0,
        left_alone(writes, lists),
        lists[0].wf(),
        writes[0].wf(&lists[0]),
        writes.len() > writes[0].steps_left(&lists[0]),
    ensures
        writes.last().result() is Some,
{
    writes[0].lemma_steps_left(&lists[0]);
    lemma_left_alone(writes, lists, writes.len() - 1);
}

proof fn lemma_left_alone(writes: Seq<Put>, lists: Seq<SkipList>, k: int)
    requires
        left_alone(writes, lists),
        0 <= k < writes.len(),
        lists[0].wf(),
        writes[0].wf(&lists[0]),
    ensures
        lists[k].wf(),
        writes[k].wf(&lists[k]),
        writes[k].result() is Some || writes[k].steps_left(&lists[k]) <= writes[0].steps_left(
            &lists[0],
        ) - k,
        0 <= writes[k].steps_left(&lists[k]),
        writes[k].steps_left(&lists[k]) == 0 <==> writes[k].result() is Some,
    decreases k,
{
    if k == 0 {
        writes[0].lemma_steps_left(&lists[0]);
    } else {
        lemma_left_alone(writes, lists, k - 1);
        Put::lemma_stepped(&writes[k - 1], &lists[k - 1], &writes[k], &lists[k]);
        Put::lemma_counts_down(&writes[k - 1], &lists[k - 1], &writes[k], &lists[k]);
    }
}

/// No write loses an entry, takes back arena bytes, or lowers the list.
pub proof fn law_nothing_is_lost(before: &SkipList, after: &SkipList, mine: int)
    requires
        before.wf(),
        after.wf(),
        SkipList::evolves(before, after, mine),
    ensures
        forall|id: Id| #[trigger] before@.contains_key(id) ==> after@.contains_key(id),
        after.cap() == before.cap(),
        after.cursor() >= before.cursor(),
        after.tallest() >= before.tallest(),
        after.count() >= before.count(),
{
    assert forall|id: Id| #[trigger] before@.contains_key(id) implies after@.contains_key(id) by {
        lemma_entry_stays(before, after, mine, id);
    }
    vstd::set_lib::lemma_len_subset(before.counted@, after.counted@);
}

/// An entry of a list stays an entry while writers work on it.
proof fn lemma_entry_stays(before: &SkipList, after: &SkipList, mine: int, id: Id)
    requires
        before.wf(),
        after.wf(),
        SkipList::evolves(before, after, mine),
        before@.contains_key(id),
    ensures
        after@.contains_key(id),
{
    before.lemma_entries();
    after.lemma_entries();
    let i = chain::place_of(before.entries(), id);
    assert(chain::item_id(before.entries()[i]) == id);
    before.lemma_at(0, i + 1);
    let n = before.chains@[0][i + 1];
    assert(after.chains@[0].contains(n));
    let j = after.lemma_on_level(0, n);
    assert(chain::item_id(after.entries()[j - 1]) == id);
}

/// A read in progress goes on undisturbed while writers work on the list.
pub proof fn law_writers_do_not_disturb_a_read(
    read: &Lookup,
    before: &SkipList,
    after: &SkipList,
    mine: int,
)
    requires
        before.wf(),
        after.wf(),
        SkipList::evolves(before, after, mine),
        read.wf(before),
    ensures
        read.wf(after),
{
    read.lemma_lasts(before, after, mine);
}

/// A write in progress goes on undisturbed while others work on nodes that are not
/// its own.
pub proof fn law_writers_do_not_disturb_a_write(
    write: &Put,
    before: &SkipList,
    after: &SkipList,
    mine: int,
)
    requires
        before.wf(),
        after.wf(),
        SkipList::evolves(before, after, mine),
        write.wf(before),
        write.owned() == 0 || write.owned() != mine,
    ensures
        write.wf(after),
{
    write.lemma_lasts(before, after, mine);
}

/// A scan in progress keeps its place while writers work on the list: what it has
/// passed stays passed, and what was ahead stays ahead. So it hands out entries in
/// order, none twice, and none that was there from the start is left out.
pub proof fn law_writers_do_not_disturb_a_scan(
    scan: &Scan,
    before: &SkipList,
    after: &SkipList,
    mine: int,
)
    requires
        before.wf(),
        after.wf(),
        SkipList::evolves(before, after, mine),
        scan.wf(before),
    ensures
        scan.wf(after),
        scan.passed(before) <= scan.passed(after),
        scan.passed(before) == 0 <==> scan.passed(after) == 0,
        scan.passed(before) > 0 ==> chain::item_id(after.entries()[scan.passed(after) - 1])
            == chain::item_id(before.entries()[scan.passed(before) - 1]),
        forall|id: Id|
            before@.contains_key(id) ==> (#[trigger] chain::place_of(before.entries(), id)
                < scan.passed(before) <==> chain::place_of(after.entries(), id) < scan.passed(
                after,
            )),
{
    scan.lemma_lasts(before, after, mine);
    before.lemma_entries();
    after.lemma_entries();
    let p = scan.passed(before);
    let q = scan.passed(after);
    assert forall|id: Id| before@.contains_key(id) implies (#[trigger] chain::place_of(
        before.entries(),
        id,
    ) < p <==> chain::place_of(after.entries(), id) < q) by {
        lemma_entry_stays(before, after, mine, id);
        if p > 0 {
            lemma_place(before.entries(), p - 1, id);
            lemma_place(after.entries(), q - 1, id);
        }
    }
}

/// Among sorted items those at or before a place are those whose ids do not come
/// after the id there.
proof fn lemma_place(items: Seq<Item>, at: int, id: Id)
    requires
        chain::sorted(items),
        0 <= at < items.len(),
        chain::has_id(items, id),
    ensures
        chain::place_of(items, id) <= at <==> id == chain::item_id(items[at]) || order::before(
            id,
            chain::item_id(items[at]),
        ),
{
    let k = chain::place_of(items, id);
    assert(chain::item_id(items[k]) == id);
    if k > at {
        order::lemma_before_asymmetric(chain::item_id(items[at]), id);
    }
}

/// The nodes that writes in progress have made and not yet finished with.
pub open spec fn owners(writes: Seq<Put>) -> Set<int> {
    Set::new(|n: int| exists|i: int| 0 <= i < writes.len() && #[trigger] writes[i].owned() == n)
}

/// Any number of writes are in progress on a list: each of them is well-formed, no
/// two own the same node, and every entry whose node none of them owns has been
/// counted and is linked at all levels that it reaches.
pub open spec fn at_work(list: &SkipList, writes: Seq<Put>) -> bool {
    &&& list.wf()
    &&& forall|i: int| 0 <= i < writes.len() ==> (#[trigger] writes[i]).wf(list)
    &&& forall|i: int, j: int|
        #![trigger writes[i], writes[j]]
        0 <= i < j < writes.len() ==> writes[i].owned() == 0 || writes[i].owned()
            != writes[j].owned()
    &&& list.tended(owners(writes))
}

/// On a settled list no write is in progress, and writes can begin.
pub proof fn law_writes_may_begin(list: &SkipList)
    requires
        list.wf(),
        list.settled(),
    ensures
        at_work(list, Seq::empty()),
{
}

/// A write that has just begun joins those in progress.
pub proof fn law_a_write_may_join(list: &SkipList, writes: Seq<Put>, write: Put)
    requires
        at_work(list, writes),
        write.wf(list),
        write.owned() == 0,
    ensures
        at_work(list, writes.push(write)),
{
    let more = writes.push(write);
    assert forall|i: int| 0 <= i < writes.len() implies #[trigger] more[i] == writes[i] by {}
    assert forall|n: int| owners(writes).contains(n) implies #[trigger] owners(more).contains(
        n,
    ) by {
        let i = choose|i: int| 0 <= i < writes.len() && #[trigger] writes[i].owned() == n;
        assert(more[i].owned() == n);
    }
}

/// Whichever write takes the next step, all of them stay in progress as they were:
/// writers whose steps are interleaved in any order do not disturb each other.
pub proof fn law_writers_do_not_disturb_each_other(
    before: &SkipList,
    writes: Seq<Put>,
    turn: int,
    moved: Put,
    after: &SkipList,
)
    requires
        at_work(before, writes),
        0 <= turn < writes.len(),
        Put::stepped(&writes[turn], before, &moved, after),
    ensures
        at_work(after, writes.update(turn, moved)),
{
    let now = writes.update(turn, moved);
    let mine = Put::touched(&writes[turn], &moved);
    Put::lemma_stepped(&writes[turn], before, &moved, after);
    before.lemma_no_null();
    assert forall|i: int| 0 <= i < writes.len() && i != turn implies {
        &&& #[trigger] now[i] == writes[i]
        &&& now[i].wf(after)
        &&& now[i].owned() == 0 || now[i].owned() != mine && now[i].owned() != moved.owned()
    } by {
        writes[i].lemma_owned(before);
        assert(writes[i].wf(before));
        assert(writes[turn].wf(before));
        writes[i].lemma_lasts(before, after, mine);
    }
    assert(now[turn] == moved);
    let others = owners(writes).remove(writes[turn].owned());
    assert(others.insert(writes[turn].owned()) =~= owners(writes)) by {
        assert(owners(writes).contains(writes[turn].owned()));
    }
    Put::lemma_tends(&writes[turn], before, &moved, after, others);
    assert forall|n: int| others.insert(moved.owned()).contains(n) implies #[trigger] owners(
        now,
    ).contains(n) by {
        if n == moved.owned() {
            assert(now[turn].owned() == n);
        } else {
            let i = choose|i: int| 0 <= i < writes.len() && #[trigger] writes[i].owned() == n;
            assert(now[i].owned() == n);
        }
    }
}

/// A whole write may come between the steps of those in progress.
pub proof fn law_a_whole_write_may_come_between(
    before: &SkipList,
    writes: Seq<Put>,
    after: &SkipList,
)
    requires
        at_work(before, writes),
        after.wf(),
        SkipList::carries_over(before, after),
    ensures
        at_work(after, writes),
{
    assert forall|i: int| 0 <= i < writes.len() implies (#[trigger] writes[i]).wf(after) by {
        assert(writes[i].wf(before));
    }
}

/// When all writes have finished the list is settled, and has counted every entry.
pub proof fn law_finished_writes_leave_a_settled_list(list: &SkipList, writes: Seq<Put>)
    requires
        at_work(list, writes),
        forall|i: int| 0 <= i < writes.len() ==> (#[trigger] writes[i]).result() is Some,
    ensures
        list.settled(),
        list.count() == list.entries().len(),
{
    list.lemma_no_null();
    assert forall|n: int| #[trigger] owners(writes).contains(n) implies n == 0 by {
        let i = choose|i: int| 0 <= i < writes.len() && #[trigger] writes[i].owned() == n;
        writes[i].lemma_owned(list);
    }
    list.lemma_settled();
}

/// No two of these writes write the same entry.
pub open spec fn different_entries(writes: Seq<Put>) -> bool {
    forall|i: int, j: int|
        #![trigger writes[i], writes[j]]
        0 <= i < j < writes.len() ==> writes[i].id() != writes[j].id()
}

/// The map holds what each of these writes that is applied wrote, and is otherwise
/// as it was at the start.
pub open spec fn landed(
    start: Map<Id, Option<Seq<u8>>>,
    map: Map<Id, Option<Seq<u8>>>,
    writes: Seq<Put>,
) -> bool {
    &&& forall|i: int|
        0 <= i < writes.len() && (#[trigger] writes[i]).applied() ==> map.contains_key(
            writes[i].id(),
        ) && map[writes[i].id()] == writes[i].new_value()
    &&& forall|id: Id|
        (forall|i: int|
            0 <= i < writes.len() && (#[trigger] writes[i]).applied() ==> writes[i].id() != id)
            ==> (#[trigger] map.contains_key(id) <==> start.contains_key(id)) && (
        start.contains_key(id) ==> map[id] == start[id])
}

/// Writes of different entries all land, in whatever order their steps come: the
/// map holds what the applied ones wrote, and nothing else has changed.
pub proof fn law_writes_of_different_entries_all_land(
    start: Map<Id, Option<Seq<u8>>>,
    before: &SkipList,
    writes: Seq<Put>,
    turn: int,
    moved: Put,
    after: &SkipList,
)
    requires
        different_entries(writes),
        landed(start, before@, writes),
        0 <= turn < writes.len(),
        Put::stepped(&writes[turn], before, &moved, after),
    ensures
        different_entries(writes.update(turn, moved)),
        landed(start, after@, writes.update(turn, moved)),
{
    let now = writes.update(turn, moved);
    Put::lemma_stepped(&writes[turn], before, &moved, after);
    assert(now[turn] == moved);
    assert forall|i: int| 0 <= i < writes.len() && i != turn implies #[trigger] now[i] == writes[i]
        && now[i].id() != moved.id() by {
        assert(writes[i].id() != writes[turn].id());
    }
    assert forall|i: int| 0 <= i < now.len() && (#[trigger] now[i]).applied() implies {
        &&& after@.contains_key(now[i].id())
        &&& after@[now[i].id()] == now[i].new_value()
    } by {
        if i != turn {
            assert(writes[i].applied());
        } else if writes[turn].applied() {
            assert(before@.contains_key(writes[turn].id()));
        }
    }
    assert forall|id: Id|
        (forall|i: int|
            0 <= i < now.len() && (#[trigger] now[i]).applied() ==> now[i].id() != id) implies (
    #[trigger] after@.contains_key(id) <==> start.contains_key(id)) && (start.contains_key(id)
        ==> after@[id] == start[id]) by {
        assert forall|i: int|
            0 <= i < writes.len() && (#[trigger] writes[i]).applied() implies writes[i].id()
            != id by {
            assert(now[i].applied());
        }
        assert(before@.contains_key(id) <==> start.contains_key(id));
        if moved.applied() {
            assert(now[turn].id() != id);
        }
    }
}

/// Every entry of the map is one of the start, or holds what one of these writes
/// that is applied wrote.
pub open spec fn whole(
    start: Map<Id, Option<Seq<u8>>>,
    map: Map<Id, Option<Seq<u8>>>,
    writes: Seq<Put>,
) -> bool {
    forall|id: Id| #[trigger]
        map.contains_key(id) ==> {
            ||| start.contains_key(id) && map[id] == start[id]
            ||| exists|i: int|
                0 <= i < writes.len() && (#[trigger] writes[i]).applied() && writes[i].id() == id
                    && writes[i].new_value() == map[id]
        }
}

/// No entry is ever torn, also where several writes write the same one: it holds
/// what one write wrote, as a whole, in whatever order the steps come.
pub proof fn law_no_entry_is_torn(
    start: Map<Id, Option<Seq<u8>>>,
    before: &SkipList,
    writes: Seq<Put>,
    turn: int,
    moved: Put,
    after: &SkipList,
)
    requires
        whole(start, before@, writes),
        0 <= turn < writes.len(),
        Put::stepped(&writes[turn], before, &moved, after),
    ensures
        whole(start, after@, writes.update(turn, moved)),
{
    let now = writes.update(turn, moved);
    Put::lemma_stepped(&writes[turn], before, &moved, after);
    assert(now[turn] == moved);
    assert forall|id: Id| #[trigger] after@.contains_key(id) implies {
        ||| start.contains_key(id) && after@[id] == start[id]
        ||| exists|i: int|
            0 <= i < now.len() && (#[trigger] now[i]).applied() && now[i].id() == id
                && now[i].new_value() == after@[id]
    } by {
        if id == moved.id() && !writes[turn].applied() && moved.applied() {
            assert(now[turn].applied());
        } else {
            assert(before@.contains_key(id));
            if !(start.contains_key(id) && before@[id] == start[id]) {
                let i = choose|i: int|
                    0 <= i < writes.len() && (#[trigger] writes[i]).applied() && writes[i].id()
                        == id && writes[i].new_value() == before@[id];
                assert(now[i].applied());
            }
        }
    }
}

/// A step of one write delays another write, or a read, only where it makes one of the
/// changes that it has left: it claims bytes, raises the height, or links its node.
/// A write has a fixed number of them.
pub proof fn law_only_changes_delay_others(
    before: &Put,
    old_list: &SkipList,
    after: &Put,
    list: &SkipList,
    other: &Put,
    read: &Lookup,
)
    requires
        old_list.wf(),
        before.wf(old_list),
        Put::stepped(before, old_list, after, list),
        other.wf(old_list),
        read.wf(old_list),
    ensures
        0 <= after.changes_left() <= before.changes_left() <= MAX_HEIGHT + 4,
        other.steps_left(list) != other.steps_left(old_list) ==> after.changes_left()
            < before.changes_left(),
        read.steps_left(list) != read.steps_left(old_list) ==> after.changes_left()
            < before.changes_left(),
        list.cursor() != old_list.cursor() || list.tallest() != old_list.tallest()
            || list.entries().len() != old_list.entries().len() ==> after.changes_left()
            < before.changes_left(),
{
    Put::lemma_stepped(before, old_list, after, list);
    Put::lemma_changes(before, old_list, after, list);
    if after.changes_left() == before.changes_left() {
        other.lemma_undelayed(old_list, list);
        read.lemma_undelayed(old_list, list);
        old_list.lemma_entries();
        list.lemma_entries();
    }
}

/// The sum of numbers.
pub open spec fn sum(s: Seq<int>) -> int
    decreases s.len(),
{
    if s.len() == 0 {
        0
    } else {
        sum(s.drop_last()) + s.last()
    }
}

/// Another number in one place changes the sum by the difference.
proof fn lemma_sum_updates(s: Seq<int>, i: int, v: int)
    requires
        0 <= i < s.len(),
    ensures
        sum(s.update(i, v)) == sum(s) - s[i] + v,
    decreases s.len(),
{
    let t = s.update(i, v);
    if i == s.len() - 1 {
        assert(t.drop_last() =~= s.drop_last());
    } else {
        assert(t.drop_last() =~= s.drop_last().update(i, v));
        lemma_sum_updates(s.drop_last(), i, v);
    }
}

/// Numbers within bounds have a sum within bounds.
proof fn lemma_sum_bounded(s: Seq<int>, most: int)
    requires
        forall|i: int| 0 <= i < s.len() ==> 0 <= #[trigger] s[i] <= most,
    ensures
        0 <= sum(s) <= s.len() * most,
    decreases s.len(),
{
    if s.len() > 0 {
        assert forall|i: int| 0 <= i < s.len() - 1 implies 0 <= #[trigger] s.drop_last()[i]
            <= most by {
            assert(s.drop_last()[i] == s[i]);
        }
        lemma_sum_bounded(s.drop_last(), most);
        vstd::arithmetic::mul::lemma_mul_is_distributive_add_other_way(
            most,
            s.len() - 1,
            1,
        );
    }
}

/// The steps that each write has left.
pub open spec fn each_steps(list: &SkipList, writes: Seq<Put>) -> Seq<int> {
    Seq::new(writes.len(), |i: int| writes[i].steps_left(list))
}

/// The changes that each write has left.
pub open spec fn each_changes(writes: Seq<Put>) -> Seq<int> {
    Seq::new(writes.len(), |i: int| writes[i].changes_left())
}

/// The nodes that each write may still add.
pub open spec fn each_nodes(writes: Seq<Put>) -> Seq<int> {
    Seq::new(writes.len(), |i: int| writes[i].nodes_to_add())
}

/// How many steps a single write can have left at most, once the writes have added
/// all their nodes.
spec fn most_steps(list: &SkipList, writes: Seq<Put>) -> int {
    42 * (list.nodes@.dom().len() + sum(each_nodes(writes)) + 4)
}

/// How many steps writes that are in progress together still take at most, all of them
/// counted. Between two changes every step brings one write nearer to its end and
/// delays none; a change may set every write back.
pub closed spec fn steps_left_together(list: &SkipList, writes: Seq<Put>) -> int {
    sum(each_changes(writes)) * (writes.len() * most_steps(list, writes) + 1) + sum(
        each_steps(list, writes),
    )
}

/// What a step does to the numbers of all writes in progress.
proof fn lemma_numbers(
    before: &SkipList,
    writes: Seq<Put>,
    turn: int,
    moved: Put,
    after: &SkipList,
)
    requires
        at_work(before, writes),
        0 <= turn < writes.len(),
        Put::stepped(&writes[turn], before, &moved, after),
    ensures
        ({
            let now = writes.update(turn, moved);
            let less = writes[turn].changes_left() - moved.changes_left();
            &&& 0 <= less
            &&& sum(each_changes(now)) == sum(each_changes(writes)) - less
            &&& most_steps(after, now) <= most_steps(before, writes)
            &&& less == 0 ==> sum(each_steps(after, now)) == sum(each_steps(before, writes))
                - writes[turn].steps_left(before) + moved.steps_left(after)
        }),
{
    let now = writes.update(turn, moved);
    let write = writes[turn];
    Put::lemma_stepped(&write, before, &moved, after);
    Put::lemma_changes(&write, before, &moved, after);
    assert(each_changes(now) =~= each_changes(writes).update(turn, moved.changes_left()));
    lemma_sum_updates(each_changes(writes), turn, moved.changes_left());
    assert(each_nodes(now) =~= each_nodes(writes).update(turn, moved.nodes_to_add()));
    lemma_sum_updates(each_nodes(writes), turn, moved.nodes_to_add());
    if moved.changes_left() == write.changes_left() {
        assert forall|i: int|
            0 <= i < writes.len() && i != turn implies #[trigger] writes[i].steps_left(after)
            == writes[i].steps_left(before) by {
            writes[i].lemma_undelayed(before, after);
        }
        assert(each_steps(after, now) =~= each_steps(before, writes).update(
            turn,
            moved.steps_left(after),
        ));
        lemma_sum_updates(each_steps(before, writes), turn, moved.steps_left(after));
    }
}

/// The sums over writes in progress are not negative, and what is left of steps is
/// bounded by the number of writes and nodes.
proof fn lemma_sums(list: &SkipList, writes: Seq<Put>)
    requires
        at_work(list, writes),
    ensures
        0 <= sum(each_changes(writes)),
        0 <= sum(each_steps(list, writes)) <= writes.len() * most_steps(list, writes),
        0 <= most_steps(list, writes),
{
    assert forall|i: int| 0 <= i < writes.len() implies 0 <= #[trigger] each_nodes(writes)[i]
        <= 1 by {
        writes[i].lemma_numbers(list);
    }
    lemma_sum_bounded(each_nodes(writes), 1);
    assert forall|i: int| 0 <= i < writes.len() implies 0 <= #[trigger] each_changes(writes)[i]
        <= MAX_HEIGHT + 4 by {
        writes[i].lemma_numbers(list);
    }
    lemma_sum_bounded(each_changes(writes), MAX_HEIGHT + 4);
    let most = most_steps(list, writes);
    assert forall|i: int| 0 <= i < writes.len() implies 0 <= #[trigger] each_steps(list, writes)[i]
        <= most by {
        assert(writes[i].wf(list));
        writes[i].lemma_steps_left(list);
        writes[i].lemma_steps_bounded(list);
    }
    lemma_sum_bounded(each_steps(list, writes), most);
}

/// Whichever unfinished write takes the next step, fewer steps are left to all of them
/// together.
pub proof fn law_every_step_gets_the_writes_on(
    before: &SkipList,
    writes: Seq<Put>,
    turn: int,
    moved: Put,
    after: &SkipList,
)
    requires
        at_work(before, writes),
        0 <= turn < writes.len(),
        writes[turn].result() is None,
        Put::stepped(&writes[turn], before, &moved, after),
    ensures
        0 <= steps_left_together(after, writes.update(turn, moved)) < steps_left_together(
            before,
            writes,
        ),
{
    let now = writes.update(turn, moved);
    law_writers_do_not_disturb_each_other(before, writes, turn, moved, after);
    Put::lemma_counts_down(&writes[turn], before, &moved, after);
    lemma_numbers(before, writes, turn, moved, after);
    lemma_sums(before, writes);
    lemma_sums(after, now);
    let w = writes.len() as int;
    let c = sum(each_changes(writes));
    let d = sum(each_changes(now));
    let m = most_steps(before, writes);
    let q = most_steps(after, now);
    let s = sum(each_steps(before, writes));
    let t = sum(each_steps(after, now));
    assert(0 <= w * q <= w * m) by (nonlinear_arith)
        requires
            0 <= w,
            0 <= q <= m,
    ;
    assert(0 <= d * (w * q + 1) <= d * (w * m + 1)) by (nonlinear_arith)
        requires
            0 <= d,
            0 <= w * q <= w * m,
    ;
    if d < c {
        assert((d + 1) * (w * m + 1) <= c * (w * m + 1)) by (nonlinear_arith)
            requires
                d + 1 <= c,
                0 <= w * m,
        ;
        vstd::arithmetic::mul::lemma_mul_is_distributive_add_other_way(w * m + 1, d, 1);
    }
}

/// The states of a list and of the writes in progress on it while they take steps in
/// the order of `turns`. A write takes a step only while it has not finished.
pub open spec fn schedule(lists: Seq<SkipList>, writes: Seq<Seq<Put>>, turns: Seq<int>) -> bool {
    &&& lists.len() == turns.len() + 1
    &&& writes.len() == turns.len() + 1
    &&& forall|k: int, next: int|
        #![trigger writes[k], writes[next]]
        0 <= k && next == k + 1 && next < writes.len() ==> {
            &&& 0 <= turns[k] < writes[k].len()
            &&& writes[k][turns[k]].result() is None
            &&& Put::stepped(
                &writes[k][turns[k]],
                &lists[k],
                &writes[next][turns[k]],
                &lists[next],
            )
            &&& writes[next] == writes[k].update(turns[k], writes[next][turns[k]])
        }
}

/// Writes in progress together cannot hold each other up for ever: in whatever order
/// they take their steps, they take no more than a number fixed at the start. So they
/// have all finished when that many steps have been taken, or earlier.
pub proof fn law_writes_together_finish(
    lists: Seq<SkipList>,
    writes: Seq<Seq<Put>>,
    turns: Seq<int>,
)
    requires
        schedule(lists, writes, turns),
        at_work(&lists[0], writes[0]),
    ensures
        turns.len() <= steps_left_together(&lists[0], writes[0]),
        at_work(&lists.last(), writes.last()),
{
    lemma_schedule(lists, writes, turns, turns.len() as int);
    lemma_sums(&lists.last(), writes.last());
}

proof fn lemma_schedule(
    lists: Seq<SkipList>,
    writes: Seq<Seq<Put>>,
    turns: Seq<int>,
    k: int,
)
    requires
        schedule(lists, writes, turns),
        at_work(&lists[0], writes[0]),
        0 <= k <= turns.len(),
    ensures
        at_work(&lists[k], writes[k]),
        0 <= steps_left_together(&lists[k], writes[k]) <= steps_left_together(
            &lists[0],
            writes[0],
        ) - k,
    decreases k,
{
    if k == 0 {
        lemma_sums(&lists[0], writes[0]);
        let c = sum(each_changes(writes[0]));
        let m = writes[0].len() * most_steps(&lists[0], writes[0]);
        assert(0 <= c * (m + 1)) by (nonlinear_arith)
            requires
                0 <= c,
                0 <= m,
        ;
    } else {
        lemma_schedule(lists, writes, turns, k - 1);
        let turn = turns[k - 1];
        assert(writes[k] == writes[k - 1].update(turn, writes[k][turn]));
        let moved = writes[k][turn];
        law_writers_do_not_disturb_each_other(
            &lists[k - 1],
            writes[k - 1],
            turn,
            moved,
            &lists[k],
        );
        law_every_step_gets_the_writes_on(&lists[k - 1], writes[k - 1], turn, moved, &lists[k]);
    }
}

/// A read has steps left exactly while it searches.
pub proof fn law_a_read_has_steps_left_while_it_searches(read: &Lookup, list: &SkipList)
    requires
        list.wf(),
        read.wf(list),
    ensures
        0 <= read.steps_left(list),
        read.steps_left(list) == 0 <==> !read.searching(),
{
    read.lemma_steps_left(list);
}

} // verus!
