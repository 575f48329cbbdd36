//! A write to a list, taken one access to shared state at a time.
//!
//! A `Put` is one writer's work in progress. Each `step` makes at most one access
//! that other writers can see: it loads a link, or moves the arena cursor, or
//! raises the list's height, or swings a link, or stores a value. Writers whose
//! steps are interleaved in any order do not disturb each other: what a step
//! needs to know of the list stays true while others work on it.

use crate::arena;
use crate::arena::{Attempt, NULL};
use crate::chain;
use crate::node;
use crate::node::{encode_value, NodeInfo, MAX_HEIGHT, NODE_ALIGN, TOMBSTONE};
use crate::order;
use crate::order::Id;
use crate::skiplist;
use crate::skiplist::{Error, Probe, SkipList, MAX_VERSION, SEED_STEP};
use vstd::prelude::*;

verus! {

/// What arena bytes are claimed for.
#[derive(Debug, Clone, Copy)]
enum Claim {
    /// The key of a new entry.
    Key,
    /// The value of a new entry.
    Value,
    /// The node of a new entry.
    Node,
    /// The new value of the entry at this node.
    Overwrite(u32),
}

/// Where a write stands.
#[derive(Debug, Clone, Copy)]
enum Phase {
    /// Searching for the place of the entry, from the top level down.
    Descend,
    /// About to look where the arena cursor stands.
    Look(Claim),
    /// About to claim bytes at the cursor last seen.
    Take(Claim),
    /// About to draw the height of the new node.
    Draw,
    /// About to look at the list's height.
    Height,
    /// About to raise the list's height from the one last seen.
    Raise,
    /// About to link the node in at the current level.
    Link,
    /// Searching again at the current level, where another writer was faster.
    Refind,
    /// About to store the value at this node.
    Store(u32),
    /// About to count the entry.
    Count,
    /// Finished.
    Done(Result<(), Error>),
}

/// The length of a value; a tombstone has none.
pub open spec fn text_len(value: Option<Seq<u8>>) -> int {
    match value {
        None => 0,
        Some(s) => s.len() as int,
    }
}

/// A key or a value is longer than its length field can say.
pub open spec fn too_large(key: Seq<u8>, value: Option<Seq<u8>>) -> bool {
    key.len() > u32::MAX || text_len(value) >= TOMBSTONE
}

/// A key may have up to 2^32 - 1 bytes and a value one fewer; a tombstone has none.
pub proof fn law_length_fields_have_32_bits(key: Seq<u8>, value: Option<Seq<u8>>)
    ensures
        too_large(key, value) <==> key.len() > 0xffff_ffff || (value is Some && value->0.len()
            >= 0xffff_ffff),
        text_len(value) == (if value is Some {
            value->0.len() as int
        } else {
            0
        }),
{
}

/// Tells whether a key or a value is longer than its length field can say.
pub fn is_too_large(key: &[u8], value: Option<&[u8]>) -> (b: bool)
    ensures
        b == too_large(key@, skiplist::value_view(value)),
{
    let value_too_large: bool = match value {
        None => false,
        Some(v) => v.len() >= TOMBSTONE as usize,
    };
    key.len() > u32::MAX as usize || value_too_large
}

/// A write in progress.
pub struct Put<'a> {
    key: &'a [u8],
    version: u64,
    value: Option<&'a [u8]>,
    phase: Phase,
    /// The level searched or linked.
    level: usize,
    /// For each level the last node before the place of the entry.
    prev: Vec<u32>,
    /// For each level what followed that node.
    next: Vec<u32>,
    /// The arena cursor or the list's height, as last seen.
    seen: u32,
    key_off: u32,
    /// The value word to store.
    word: u64,
    height: usize,
    node: u32,
}

impl<'a> Put<'a> {
    /// The key and version written.
    pub closed spec fn id(&self) -> Id {
        (self.key@, self.version)
    }

    /// The value written; `None` is a tombstone.
    pub closed spec fn new_value(&self) -> Option<Seq<u8>> {
        skiplist::value_view(self.value)
    }

    /// The result, once there is one.
    pub closed spec fn result(&self) -> Option<Result<(), Error>> {
        match self.phase {
            Phase::Done(r) => Some(r),
            _ => None,
        }
    }

    /// The list shows the entry as this write makes it.
    pub closed spec fn applied(&self) -> bool {
        match self.phase {
            Phase::Link => self.level > 0,
            Phase::Refind => self.level > 0,
            Phase::Count => true,
            Phase::Done(r) => r is Ok,
            _ => false,
        }
    }

    /// The node that this write has made and not yet finished with; 0 if none.
    pub closed spec fn owned(&self) -> int {
        match self.phase {
            Phase::Height => self.node as int,
            Phase::Raise => self.node as int,
            Phase::Link => self.node as int,
            Phase::Refind => self.node as int,
            Phase::Count => self.node as int,
            _ => 0,
        }
    }

    /// The write is searching, or rewrites the entry that it found, or has finished.
    pub closed spec fn rewrites(&self) -> bool {
        match self.phase {
            Phase::Descend => true,
            Phase::Look(Claim::Overwrite(_)) => true,
            Phase::Take(Claim::Overwrite(_)) => true,
            Phase::Store(_) => true,
            Phase::Done(_) => true,
            _ => false,
        }
    }

    /// How many bytes a rewrite has yet to claim: those of its value, or none.
    pub closed spec fn to_claim(&self) -> int {
        match self.phase {
            Phase::Store(_) => 0,
            Phase::Done(_) => 0,
            _ => text_len(self.new_value()),
        }
    }

    /// The key and the value have lengths that their fields can hold.
    spec fn sized(&self) -> bool {
        &&& !too_large(self.key@, self.new_value())
        &&& self.version <= MAX_VERSION
    }

    /// At `level` the entry belongs after `prev`, and what followed comes later.
    spec fn spliced(&self, list: &SkipList, level: int) -> bool {
        &&& list.stands_before(level, self.prev@[level] as int, self.id())
        &&& self.next@[level] != NULL ==> {
            &&& self.next@[level] != list.head
            &&& list.chains@[level].contains(self.next@[level] as int)
            &&& order::before(self.id(), node::id_of(list.nodes@[self.next@[level] as int]))
        }
    }

    spec fn spliced_from(&self, list: &SkipList, from: int) -> bool {
        forall|l: int| from <= l < MAX_HEIGHT ==> #[trigger] self.spliced(list, l)
    }

    /// `n` is the node of this entry.
    spec fn found(&self, list: &SkipList, n: int) -> bool {
        &&& list.chains@[0].contains(n)
        &&& n != list.head
        &&& node::id_of(list.nodes@[n]) == self.id()
    }

    /// The key lies in the arena.
    spec fn key_ok(&self, list: &SkipList) -> bool {
        &&& node::holds(
            list.arena.bytes(),
            list.cursor(),
            self.key_off as int,
            self.key@.len() as int,
            self.key@,
        )
        &&& node::clear_of(list.nodes@, self.key_off as int, self.key@.len() as int)
    }

    /// The value word stands for the value.
    spec fn word_ok(&self, list: &SkipList) -> bool {
        &&& node::word_holds(
            list.arena.bytes(),
            list.cursor(),
            self.word as int,
            self.new_value(),
        )
        &&& node::word_clear(list.nodes@, self.word as int)
    }

    /// The node is written, and linked at the levels below `linked` only.
    spec fn built(&self, list: &SkipList, linked: int) -> bool {
        &&& self.node != NULL
        &&& self.node != list.head
        &&& list.nodes@.contains_key(self.node as int)
        &&& node::id_of(list.nodes@[self.node as int]) == self.id()
        &&& list.nodes@[self.node as int].height == self.height
        &&& 1 <= self.height <= MAX_HEIGHT
        &&& !list.counted@.contains(self.node as int)
        &&& forall|l: int| 0 <= l < linked ==> #[trigger] list.chains@[l].contains(self.node as int)
        &&& forall|l: int|
            linked <= l < MAX_HEIGHT ==> !#[trigger] list.chains@[l].contains(self.node as int)
        &&& linked == 0 ==> {
            &&& list.nodes@[self.node as int].value == self.new_value()
            &&& self.word_ok(list)
        }
    }

    /// What holds of a write in progress and the list it works on, at each phase.
    pub closed spec fn wf(&self, list: &SkipList) -> bool {
        &&& self.prev@.len() == MAX_HEIGHT
        &&& self.next@.len() == MAX_HEIGHT
        &&& self.phase is Done || self.sized()
        &&& match self.phase {
            Phase::Descend => {
                &&& self.level < MAX_HEIGHT
                &&& list.stands_before(
                    self.level as int,
                    self.prev@[self.level as int] as int,
                    self.id(),
                )
                &&& self.spliced_from(list, self.level + 1)
            },
            Phase::Look(claim) => self.ready_for(list, claim),
            Phase::Take(claim) => self.ready_for(list, claim) && self.seen <= list.cursor(),
            Phase::Draw => self.spliced_from(list, 0) && self.key_ok(list) && self.word_ok(list),
            Phase::Height => self.spliced_from(list, 0) && self.built(list, 0),
            Phase::Raise => {
                &&& self.spliced_from(list, 0)
                &&& self.built(list, 0)
                &&& self.seen < self.height
                &&& self.seen <= list.height
            },
            Phase::Link => {
                &&& self.level < self.height <= list.height
                &&& self.spliced_from(list, self.level as int)
                &&& self.built(list, self.level as int)
            },
            Phase::Refind => {
                &&& self.level < self.height <= list.height
                &&& list.stands_before(
                    self.level as int,
                    self.prev@[self.level as int] as int,
                    self.id(),
                )
                &&& self.spliced_from(list, self.level + 1)
                &&& self.built(list, self.level as int)
            },
            Phase::Store(n) => self.found(list, n as int) && self.word_ok(list),
            Phase::Count => self.built(list, self.height as int),
            Phase::Done(_) => true,
        }
    }

    /// What is known before bytes are claimed.
    spec fn ready_for(&self, list: &SkipList, claim: Claim) -> bool {
        match claim {
            Claim::Key => self.spliced_from(list, 0),
            Claim::Value => self.spliced_from(list, 0) && self.key_ok(list) && self.value is Some,
            Claim::Node => {
                &&& self.spliced_from(list, 0)
                &&& self.key_ok(list)
                &&& self.word_ok(list)
                &&& 1 <= self.height <= MAX_HEIGHT
            },
            Claim::Overwrite(n) => self.found(list, n as int) && self.value is Some,
        }
    }

    /// What followed `prev` at `level` still does.
    spec fn intact(&self, list: &SkipList, level: int) -> bool {
        list.link(level, self.prev@[level] as int) == self.next@[level]
    }

    /// The splices from `from` on are still what the links say.
    spec fn joined(&self, list: &SkipList, from: int) -> bool {
        forall|l: int| from <= l < MAX_HEIGHT ==> #[trigger] self.intact(list, l)
    }

    /// Nobody else has changed the list since this write last looked at it.
    spec fn undisturbed(&self, list: &SkipList) -> bool {
        match self.phase {
            Phase::Descend => self.joined(list, self.level + 1),
            Phase::Look(Claim::Overwrite(_)) => true,
            Phase::Look(_) => self.joined(list, 0),
            Phase::Take(Claim::Overwrite(_)) => self.seen == list.cursor(),
            Phase::Take(_) => self.seen == list.cursor() && self.joined(list, 0),
            Phase::Draw => self.joined(list, 0),
            Phase::Height => self.joined(list, 0),
            Phase::Raise => self.seen == list.height && self.joined(list, 0),
            Phase::Link => self.joined(list, self.level as int),
            Phase::Refind => false,
            _ => true,
        }
    }

    /// How many nodes are still ahead on this level.
    spec fn nodes_left(&self, list: &SkipList) -> int {
        let chain = list.chains@[self.level as int];
        chain.len() - chain.index_of(self.prev@[self.level as int] as int)
    }

    /// One more step is lost where what was last seen has changed since.
    spec fn stale(seen: int, actual: int) -> int {
        if seen == actual {
            0
        } else {
            1
        }
    }

    /// How many steps the write still takes at most, if nobody else changes the list
    /// from now on; 0 once it has finished.
    pub closed spec fn steps_left(&self, list: &SkipList) -> int {
        let n = list.nodes@.dom().len() as int;
        let to_link = (MAX_HEIGHT + 1) * (n + 3);
        let to_claim = (MAX_HEIGHT + 1) * (n + 4) + 3;
        match self.phase {
            Phase::Descend => to_claim + 10 + self.level * (n + 1) + self.nodes_left(list),
            Phase::Look(Claim::Key) => to_claim + 9,
            Phase::Take(Claim::Key) => to_claim + 7 + Put::stale(self.seen as int, list.cursor()),
            Phase::Look(Claim::Value) => to_claim + 6,
            Phase::Take(Claim::Value) => to_claim + 4 + Put::stale(
                self.seen as int,
                list.cursor(),
            ),
            Phase::Draw => to_claim + 3,
            Phase::Look(Claim::Node) => to_claim + 2,
            Phase::Take(Claim::Node) => to_claim + Put::stale(self.seen as int, list.cursor()),
            Phase::Height => to_link + 2,
            Phase::Raise => to_link + Put::stale(self.seen as int, list.height as int),
            Phase::Link => (MAX_HEIGHT - self.level) * (n + 3) + (if self.intact(
                list,
                self.level as int,
            ) {
                0
            } else {
                n + 2
            }),
            Phase::Refind => (MAX_HEIGHT - self.level) * (n + 3) + 1 + self.nodes_left(list),
            Phase::Look(Claim::Overwrite(_)) => 4,
            Phase::Take(Claim::Overwrite(_)) => 2 + Put::stale(self.seen as int, list.cursor()),
            Phase::Store(_) => 1,
            Phase::Count => 1,
            Phase::Done(_) => 0,
        }
    }

    /// How many changes this write makes at most, from now on, that others may trip
    /// over: claims of bytes, raising the height, and links.
    pub closed spec fn changes_left(&self) -> int {
        match self.phase {
            Phase::Descend => MAX_HEIGHT + 4,
            Phase::Look(Claim::Key) => MAX_HEIGHT + 4,
            Phase::Take(Claim::Key) => MAX_HEIGHT + 4,
            Phase::Look(Claim::Value) => MAX_HEIGHT + 3,
            Phase::Take(Claim::Value) => MAX_HEIGHT + 3,
            Phase::Draw => MAX_HEIGHT + 2,
            Phase::Look(Claim::Node) => MAX_HEIGHT + 2,
            Phase::Take(Claim::Node) => MAX_HEIGHT + 2,
            Phase::Height => MAX_HEIGHT + 1,
            Phase::Raise => MAX_HEIGHT + 1,
            Phase::Link => MAX_HEIGHT - self.level,
            Phase::Refind => MAX_HEIGHT - self.level,
            Phase::Look(Claim::Overwrite(_)) => 1,
            Phase::Take(Claim::Overwrite(_)) => 1,
            _ => 0,
        }
    }

    /// How many nodes this write may still add: one until it has made its own.
    pub closed spec fn nodes_to_add(&self) -> int {
        match self.phase {
            Phase::Descend => 1,
            Phase::Look(Claim::Overwrite(_)) => 0,
            Phase::Take(Claim::Overwrite(_)) => 0,
            Phase::Look(_) => 1,
            Phase::Take(_) => 1,
            Phase::Draw => 1,
            _ => 0,
        }
    }

    /// Same entries, seed, height and count.
    spec fn quiet(before: &SkipList, after: &SkipList) -> bool {
        &&& after.entries() == before.entries()
        &&& after.seed() == before.seed()
        &&& after.tallest() == before.tallest()
        &&& after.count() == before.count()
    }

    /// What a claim is to hold.
    spec fn claimed_len(&self, claim: Claim) -> int {
        match claim {
            Claim::Key => self.key@.len() as int,
            _ => text_len(self.new_value()),
        }
    }

    /// What the phase after a claim is.
    spec fn after_claim(&self, claim: Claim) -> Phase {
        match claim {
            Claim::Key => if self.value is Some {
                Phase::Look(Claim::Value)
            } else {
                Phase::Draw
            },
            Claim::Value => Phase::Draw,
            Claim::Node => Phase::Height,
            Claim::Overwrite(n) => Phase::Store(n),
        }
    }

    /// What one look to the right does to a write that searches for its place. The
    /// search goes on from the next node if that comes before the entry. If it is
    /// the node of the entry, the value is to be stored there, and only its bytes
    /// have to be claimed; a tombstone has none. Otherwise the place on this level
    /// is found, and the search goes on one level below, or is over.
    spec fn searched(before: &Put, list: &SkipList, after: &Put) -> bool {
        let level = before.level as int;
        let next = list.link(level, before.prev@[level] as int);
        let id = node::id_of(list.nodes@[next]);
        if next != NULL && order::before(id, before.id()) {
            &&& *after == (Put { prev: after.prev, ..*before })
            &&& after.prev@ == before.prev@.update(level, next as u32)
        } else if next != NULL && id == before.id() {
            *after == (if before.value is Some {
                Put { phase: Phase::Look(Claim::Overwrite(next as u32)), ..*before }
            } else {
                Put { phase: Phase::Store(next as u32), word: TOMBSTONE as u64, ..*before }
            })
        } else if level == 0 {
            &&& *after == (Put { phase: Phase::Look(Claim::Key), next: after.next, ..*before })
            &&& after.next@ == before.next@.update(level, next as u32)
        } else {
            &&& *after == (Put {
                level: (level - 1) as usize,
                prev: after.prev,
                next: after.next,
                ..*before
            })
            &&& after.next@ == before.next@.update(level, next as u32)
            &&& after.prev@ == before.prev@.update(level - 1, before.prev@[level])
        }
    }

    /// What one look to the right does to a write that searches again. The search
    /// goes on from the next node if that comes before the entry. If it is the node
    /// of the entry, which happens on the bottom level only, the value is to be
    /// stored there. Otherwise the node is to be linked in before it.
    spec fn searched_again(before: &Put, list: &SkipList, after: &Put) -> bool {
        let level = before.level as int;
        let next = list.link(level, before.prev@[level] as int);
        let id = node::id_of(list.nodes@[next]);
        if next != NULL && order::before(id, before.id()) {
            &&& *after == (Put { prev: after.prev, ..*before })
            &&& after.prev@ == before.prev@.update(level, next as u32)
        } else if next != NULL && id == before.id() {
            &&& *after == (Put { phase: Phase::Store(next as u32), ..*before })
            &&& before.level == 0
        } else {
            &&& *after == (Put { phase: Phase::Link, next: after.next, ..*before })
            &&& after.next@ == before.next@.update(level, next as u32)
        }
    }

    /// What one step does to the write and to the list, phase by phase.
    spec fn effect(before: &Put, old_list: &SkipList, after: &Put, list: &SkipList) -> bool {
        &&& after.key == before.key
        &&& after.version == before.version
        &&& after.value == before.value
        &&& list.cap() == old_list.cap()
        &&& match before.phase {
            Phase::Descend => *list == *old_list && Put::searched(before, list, after),
            Phase::Look(claim) => {
                &&& *list == *old_list
                &&& after.phase == Phase::Take(claim)
                &&& after.seen == old_list.cursor()
                &&& after.height == before.height
            },
            Phase::Take(Claim::Node) => if !arena::fits(
                before.seen as int,
                node::node_size(before.height as int),
                NODE_ALIGN as int,
                old_list.cap(),
            ) {
                *list == *old_list && after.phase == Phase::Done(Err(Error::Full))
            } else if before.seen != old_list.cursor() {
                &&& *list == *old_list
                &&& after.phase == before.phase
                &&& after.seen == old_list.cursor()
            } else {
                &&& Put::quiet(old_list, list)
                &&& list.cursor() == arena::align_up(before.seen as int, NODE_ALIGN as int)
                    + node::node_size(before.height as int)
                &&& after.phase == Phase::Height
                &&& after.height == before.height
                &&& after.node == arena::align_up(before.seen as int, NODE_ALIGN as int)
            },
            Phase::Take(claim) => if before.seen + before.claimed_len(claim) > old_list.cap() {
                *list == *old_list && after.phase == Phase::Done(Err(Error::Full))
            } else if before.seen != old_list.cursor() {
                &&& *list == *old_list
                &&& after.phase == before.phase
                &&& after.seen == old_list.cursor()
            } else {
                &&& Put::quiet(old_list, list)
                &&& list.cursor() == before.seen + before.claimed_len(claim)
                &&& after.phase == before.after_claim(claim)
                &&& claim is Key ==> after.key_off == before.seen
                &&& before.value is None ==> after.word == TOMBSTONE
                &&& before.value is Some && !(claim is Key) ==> after.word == before.seen
                    * 0x1_0000_0000 + before.claimed_len(claim)
            },
            Phase::Draw => {
                &&& list.entries() == old_list.entries()
                &&& list.cursor() == old_list.cursor()
                &&& list.tallest() == old_list.tallest()
                &&& list.count() == old_list.count()
                &&& list.seed() == old_list.seed().wrapping_add(SEED_STEP)
                &&& list.chains == old_list.chains
                &&& after.phase == Phase::Look(Claim::Node)
                &&& after.height == skiplist::drawn_height(old_list.seed())
            },
            Phase::Height => {
                &&& *list == *old_list
                &&& after.height == before.height
                &&& after.seen == old_list.tallest()
                &&& after.phase == (if before.height > old_list.tallest() {
                    Phase::Raise
                } else {
                    Phase::Link
                })
                &&& after.phase is Link ==> after.level == 0
            },
            Phase::Raise => {
                &&& list.entries() == old_list.entries()
                &&& list.cursor() == old_list.cursor()
                &&& list.count() == old_list.count()
                &&& list.seed() == old_list.seed()
                &&& after.height == before.height
                &&& before.seen == old_list.tallest() ==> list.tallest() == before.height
                    && after.phase is Link
                &&& before.seen != old_list.tallest() ==> {
                    &&& *list == *old_list
                    &&& after.seen == old_list.tallest()
                    &&& after.phase == (if before.height > old_list.tallest() {
                        Phase::Raise
                    } else {
                        Phase::Link
                    })
                }
                &&& after.phase is Link ==> after.level == 0
            },
            Phase::Link => {
                &&& list.cursor() == old_list.cursor()
                &&& list.seed() == old_list.seed()
                &&& list.tallest() == old_list.tallest()
                &&& list.count() == old_list.count()
                &&& after.height == before.height
                &&& if old_list.link(before.level as int, before.prev@[before.level as int] as int)
                    == before.next@[before.level as int] {
                    &&& after.level == before.level + 1
                    &&& after.phase == (if before.level + 1 < before.height {
                        Phase::Link
                    } else {
                        Phase::Count
                    })
                    &&& before.level == 0 ==> {
                        &&& !old_list@.contains_key(before.id())
                        &&& list@ == old_list@.insert(before.id(), before.new_value())
                        &&& list.entries().len() == old_list.entries().len() + 1
                    }
                    &&& before.level > 0 ==> list.entries() == old_list.entries()
                } else {
                    &&& after.level == before.level
                    &&& after.phase == Phase::Refind
                    &&& list.entries() == old_list.entries()
                    &&& list.chains == old_list.chains
                }
            },
            Phase::Refind => *list == *old_list && Put::searched_again(before, list, after),
            Phase::Store(_) => {
                &&& list.cursor() == old_list.cursor()
                &&& list.seed() == old_list.seed()
                &&& list.tallest() == old_list.tallest()
                &&& list.count() == old_list.count()
                &&& old_list@.contains_key(before.id())
                &&& list@ == old_list@.insert(before.id(), before.new_value())
                &&& list.entries().len() == old_list.entries().len()
                &&& list.chains == old_list.chains
                &&& after.phase == Phase::Done(Ok(()))
            },
            Phase::Count => {
                &&& list.entries() == old_list.entries()
                &&& list.cursor() == old_list.cursor()
                &&& list.seed() == old_list.seed()
                &&& list.tallest() == old_list.tallest()
                &&& list.count() == old_list.count() + 1
                &&& list.counted@.contains(before.node as int)
                &&& list.chains == old_list.chains
                &&& after.phase == Phase::Done(Ok(()))
            },
            Phase::Done(_) => *list == *old_list && *after == *before,
        }
    }

    /// The node that a step may add, link or count.
    pub open spec fn touched(before: &Put, after: &Put) -> int {
        if before.owned() != 0 {
            before.owned()
        } else {
            after.owned()
        }
    }

    /// What every step guarantees.
    pub closed spec fn stepped(
        before: &Put,
        old_list: &SkipList,
        after: &Put,
        list: &SkipList,
    ) -> bool {
        &&& list.wf()
        &&& after.wf(list)
        &&& SkipList::evolves(old_list, list, Put::touched(before, after))
        &&& Put::effect(before, old_list, after, list)
        &&& after.owned() == 0 || after.owned() == before.owned() || (before.owned() == 0
            && !old_list.nodes@.contains_key(after.owned()))
        &&& before.undisturbed(old_list) ==> after.undisturbed(list)
    }

    /// A node that stands before the entry keeps standing before it.
    proof fn lemma_stands_still(
        &self,
        old_list: &SkipList,
        list: &SkipList,
        mine: int,
        level: int,
        n: int,
    )
        requires
            old_list.wf(),
            SkipList::evolves(old_list, list, mine),
            old_list.stands_before(level, n, self.id()),
        ensures
            list.stands_before(level, n, self.id()),
    {
        let i = old_list.lemma_on_level(level, n);
    }

    /// Splices stay splices while writers work on the list.
    proof fn lemma_splices_last(&self, old_list: &SkipList, list: &SkipList, mine: int, from: int)
        requires
            old_list.wf(),
            0 <= from,
            SkipList::evolves(old_list, list, mine),
            self.spliced_from(old_list, from),
        ensures
            self.spliced_from(list, from),
    {
        assert forall|l: int| from <= l < MAX_HEIGHT implies #[trigger] self.spliced(list, l) by {
            assert(self.spliced(old_list, l));
            self.lemma_stands_still(old_list, list, mine, l, self.prev@[l] as int);
            if self.next@[l] != NULL {
                let i = old_list.lemma_on_level(l, self.next@[l] as int);
            }
        }
    }

    /// The node of the entry stays that node.
    proof fn lemma_found_lasts(&self, old_list: &SkipList, list: &SkipList, mine: int, n: int)
        requires
            old_list.wf(),
            SkipList::evolves(old_list, list, mine),
            self.found(old_list, n),
        ensures
            self.found(list, n),
    {
        let i = old_list.lemma_on_level(0, n);
    }

    /// Claimed texts stay as they were written, and no node is put over them.
    proof fn lemma_texts_last(&self, old_list: &SkipList, list: &SkipList, mine: int)
        requires
            old_list.wf(),
            list.wf(),
            SkipList::evolves(old_list, list, mine),
        ensures
            self.key_ok(old_list) ==> self.key_ok(list),
            self.word_ok(old_list) ==> self.word_ok(list),
    {
        SkipList::lemma_texts_kept(old_list, list);
        assert forall|off: int, len: int|
            0 <= len && #[trigger] node::clear_of(old_list.nodes@, off, len) && (len > 0 ==> off
                + len <= old_list.cursor()) implies node::clear_of(list.nodes@, off, len) by {
            assert forall|n: int| #[trigger] list.nodes@.contains_key(n) implies len == 0 || off
                + len <= n || n + node::node_size(list.nodes@[n].height) <= off by {
                if old_list.nodes@.contains_key(n) {
                    assert(list.nodes@[n].height == old_list.nodes@[n].height);
                }
            }
        }
        if self.key_ok(old_list) {
            assert(node::clear_of(
                old_list.nodes@,
                self.key_off as int,
                self.key@.len() as int,
            ));
        }
        if self.word_ok(old_list) {
            let off = node::word_off(self.word as int);
            let len = node::word_len(self.word as int);
            if let Some(s) = self.new_value() {
                assert(node::clear_of(old_list.nodes@, off, len));
                assert(node::holds(old_list.arena.bytes(), old_list.cursor(), off, len, s));
            }
        }
    }

    /// A node that other writers do not own stays as its writer left it.
    proof fn lemma_build_lasts(&self, old_list: &SkipList, list: &SkipList, mine: int, linked: int)
        requires
            old_list.wf(),
            list.wf(),
            SkipList::evolves(old_list, list, mine),
            self.node != mine,
            0 <= linked <= MAX_HEIGHT,
            self.built(old_list, linked),
        ensures
            self.built(list, linked),
    {
        self.lemma_texts_last(old_list, list, mine);
        assert forall|l: int| 0 <= l < linked implies #[trigger] list.chains@[l].contains(
            self.node as int,
        ) by {
            assert(old_list.chains@[l].contains(self.node as int));
        }
        assert forall|l: int| linked <= l < MAX_HEIGHT implies !#[trigger] list.chains@[l].contains(
            self.node as int,
        ) by {
            assert(!old_list.chains@[l].contains(self.node as int));
        }
        if linked == 0 {
            assert(!old_list.chains@[0].contains(self.node as int));
        }
    }

    /// A write in progress stays well-formed while others work on the list.
    pub(super) proof fn lemma_lasts(&self, old_list: &SkipList, list: &SkipList, mine: int)
        requires
            old_list.wf(),
            list.wf(),
            self.wf(old_list),
            SkipList::evolves(old_list, list, mine),
            self.owned() == 0 || self.owned() != mine,
        ensures
            self.wf(list),
    {
        self.lemma_texts_last(old_list, list, mine);
        let here = self.prev@[self.level as int] as int;
        match self.phase {
            Phase::Descend => {
                self.lemma_stands_still(old_list, list, mine, self.level as int, here);
                self.lemma_splices_last(old_list, list, mine, self.level + 1);
            },
            Phase::Look(Claim::Overwrite(n)) => {
                self.lemma_found_lasts(old_list, list, mine, n as int);
            },
            Phase::Take(Claim::Overwrite(n)) => {
                self.lemma_found_lasts(old_list, list, mine, n as int);
            },
            Phase::Look(_) => {
                self.lemma_splices_last(old_list, list, mine, 0);
            },
            Phase::Take(_) => {
                self.lemma_splices_last(old_list, list, mine, 0);
            },
            Phase::Draw => {
                self.lemma_splices_last(old_list, list, mine, 0);
            },
            Phase::Height => {
                self.lemma_splices_last(old_list, list, mine, 0);
                self.lemma_build_lasts(old_list, list, mine, 0);
            },
            Phase::Raise => {
                self.lemma_splices_last(old_list, list, mine, 0);
                self.lemma_build_lasts(old_list, list, mine, 0);
            },
            Phase::Link => {
                self.lemma_splices_last(old_list, list, mine, self.level as int);
                self.lemma_build_lasts(old_list, list, mine, self.level as int);
            },
            Phase::Refind => {
                self.lemma_stands_still(old_list, list, mine, self.level as int, here);
                self.lemma_splices_last(old_list, list, mine, self.level + 1);
                self.lemma_build_lasts(old_list, list, mine, self.level as int);
            },
            Phase::Store(n) => {
                self.lemma_found_lasts(old_list, list, mine, n as int);
            },
            Phase::Count => {
                self.lemma_build_lasts(old_list, list, mine, self.height as int);
            },
            Phase::Done(_) => {},
        }
    }

    /// One look to the right while searching for the place of the entry.
    fn descend(&mut self, list: &SkipList)
        requires
            list.wf(),
            old(self).wf(list),
            old(self).phase is Descend,
        ensures
            Put::stepped(old(self), list, final(self), list),
    {
        let level: usize = self.level;
        let here: u32 = self.prev[level];
        proof {
            SkipList::lemma_evolves_same(list);
            list.lemma_no_null();
            list.lemma_link_on_level(level as int, here as int);
        }
        match list.probe(self.key, self.version, here, level) {
            Probe::Right(n) => {
                self.prev[level] = n;
                proof {
                    self.lemma_splices_above(old(self), list, level + 1);
                }
            },
            Probe::Hit(n) => {
                proof {
                    assert(list.chains@[0].contains(n as int));
                    order::lemma_before_irreflexive(self.id());
                }
                match self.value {
                    None => {
                        self.word = encode_value(0, TOMBSTONE);
                        self.phase = Phase::Store(n);
                    },
                    Some(_) => {
                        self.phase = Phase::Look(Claim::Overwrite(n));
                    },
                }
            },
            Probe::Gap(n) => {
                self.next[level] = n;
                if level == 0 {
                    self.phase = Phase::Look(Claim::Key);
                } else {
                    self.level = level - 1;
                    self.prev[level - 1] = here;
                    proof {
                        assert(list.chains@[level - 1].contains(here as int));
                    }
                }
                proof {
                    if n != NULL {
                        order::lemma_before_asymmetric(
                            self.id(),
                            node::id_of(list.nodes@[n as int]),
                        );
                    }
                    self.lemma_splices_above(old(self), list, level + 1);
                    assert(self.spliced(list, level as int));
                    assert(self.intact(list, level as int));
                    assert forall|l: int| level <= l < MAX_HEIGHT implies #[trigger] self.spliced(
                        list,
                        l,
                    ) by {}
                    if old(self).undisturbed(list) {
                        assert forall|l: int| level <= l < MAX_HEIGHT implies #[trigger] self.intact(
                            list,
                            l,
                        ) by {}
                    }
                }
            },
        }
    }

    /// A node on a level has at least one node ahead, itself included, and no level
    /// holds more nodes than there are.
    proof fn lemma_nodes_left(&self, list: &SkipList)
        requires
            list.wf(),
            self.level < MAX_HEIGHT,
            list.chains@[self.level as int].contains(self.prev@[self.level as int] as int),
        ensures
            1 <= self.nodes_left(list) <= list.nodes@.dom().len(),
    {
        list.lemma_level_len(self.level as int);
    }

    /// A step to the right brings a search nearer to the end of the level.
    proof fn lemma_nearer_right(&self, before: &Put, list: &SkipList)
        requires
            list.wf(),
            before.level < MAX_HEIGHT,
            self.level == before.level,
            list.chains@[self.level as int].contains(before.prev@[self.level as int] as int),
            list.link(self.level as int, before.prev@[self.level as int] as int)
                == self.prev@[self.level as int],
            self.prev@[self.level as int] != NULL,
        ensures
            self.nodes_left(list) < before.nodes_left(list),
    {
        let level = self.level as int;
        let chain = list.chains@[level];
        let here = before.prev@[level] as int;
        let n = self.prev@[level] as int;
        let i = list.lemma_on_level(level, here);
        assert(list.chain_ok(level));
        chain::lemma_chain_distinct(
            list.arena.bytes(),
            list.nodes@,
            list.head as int,
            chain,
            level,
            i,
            chain.index_of(here),
        );
        assert(chain[i + 1] == n);
        assert(chain.contains(n));
        chain::lemma_chain_distinct(
            list.arena.bytes(),
            list.nodes@,
            list.head as int,
            chain,
            level,
            i + 1,
            chain.index_of(n),
        );
    }

    /// A step adds at most the node that it touches, and none if that is an old one.
    proof fn lemma_nodes_counted(old_list: &SkipList, list: &SkipList, mine: int)
        requires
            old_list.wf(),
            list.wf(),
            SkipList::evolves(old_list, list, mine),
        ensures
            list.nodes@.dom().len() <= old_list.nodes@.dom().len() + 1,
            mine == 0 || old_list.nodes@.contains_key(mine) ==> list.nodes@.dom()
                == old_list.nodes@.dom(),
    {
        list.lemma_no_null();
        assert(list.nodes@.dom().subset_of(old_list.nodes@.dom().insert(mine)));
        vstd::set_lib::lemma_len_subset(list.nodes@.dom(), old_list.nodes@.dom().insert(mine));
        if mine == 0 || old_list.nodes@.contains_key(mine) {
            assert(list.nodes@.dom() =~= old_list.nodes@.dom());
        }
    }

    /// Some steps are left until the write has finished.
    pub(super) proof fn lemma_steps_left(&self, list: &SkipList)
        requires
            list.wf(),
            self.wf(list),
        ensures
            0 <= self.steps_left(list),
            self.steps_left(list) == 0 <==> self.result() is Some,
    {
        self.lemma_levels(list);
        if self.phase is Descend || self.phase is Refind {
            self.lemma_nodes_left(list);
        }
    }

    /// Every step of a write brings it nearer to its end, whatever others did to the
    /// list before.
    pub(super) proof fn lemma_counts_down(
        before: &Put,
        old_list: &SkipList,
        after: &Put,
        list: &SkipList,
    )
        requires
            old_list.wf(),
            before.wf(old_list),
            Put::stepped(before, old_list, after, list),
        ensures
            0 <= after.steps_left(list),
            before.result() is None ==> after.steps_left(list) < before.steps_left(old_list),
            after.steps_left(list) == 0 <==> after.result() is Some,
    {
        let n = old_list.nodes@.dom().len() as int;
        let mine = Put::touched(before, after);
        before.lemma_owned(old_list);
        Put::lemma_nodes_counted(old_list, list, mine);
        before.lemma_levels(old_list);
        after.lemma_levels(list);
        if before.phase is Descend {
            let level = before.level as int;
            before.lemma_nodes_left(old_list);
            if after.phase is Descend {
                if after.level == before.level {
                    after.lemma_nearer_right(before, list);
                } else {
                    after.lemma_nodes_left(list);
                    vstd::arithmetic::mul::lemma_mul_is_distributive_add_other_way(
                        n + 1,
                        level - 1,
                        1,
                    );
                }
            }
        }
        if before.phase is Link && after.phase is Link {
            vstd::arithmetic::mul::lemma_mul_is_distributive_add_other_way(
                n + 3,
                MAX_HEIGHT - after.level,
                1,
            );
        }
        if before.phase is Refind && after.phase is Refind {
            after.lemma_nearer_right(before, list);
        }
        if after.phase is Refind {
            after.lemma_nodes_left(list);
        }
        if before.phase is Refind && after.phase is Link {
            assert(after.intact(list, after.level as int));
        }
        if before.phase is Height || before.phase is Raise {
            assert((MAX_HEIGHT + 1) * (n + 3) == MAX_HEIGHT * (n + 3) + (n + 3));
        }
    }

    /// A step that leaves as many changes as before has made none, and a step adds a
    /// node only where its write had one to add.
    pub(super) proof fn lemma_changes(
        before: &Put,
        old_list: &SkipList,
        after: &Put,
        list: &SkipList,
    )
        requires
            old_list.wf(),
            before.wf(old_list),
            Put::stepped(before, old_list, after, list),
        ensures
            0 <= after.changes_left() <= before.changes_left() <= MAX_HEIGHT + 4,
            after.changes_left() == before.changes_left() ==> SkipList::same_ways(old_list, list),
            0 <= after.nodes_to_add() <= 1,
            list.nodes@.dom().len() + after.nodes_to_add() <= old_list.nodes@.dom().len()
                + before.nodes_to_add(),
    {
        before.lemma_owned(old_list);
        Put::lemma_nodes_counted(old_list, list, Put::touched(before, after));
    }

    /// What a write has left of changes and of nodes to add is bounded.
    pub(super) proof fn lemma_numbers(&self, list: &SkipList)
        requires
            self.wf(list),
        ensures
            0 <= self.changes_left() <= MAX_HEIGHT + 4,
            0 <= self.nodes_to_add() <= 1,
    {
    }

    /// A write has as many steps left as before where all ways are the same.
    pub(super) proof fn lemma_undelayed(&self, old_list: &SkipList, list: &SkipList)
        requires
            old_list.wf(),
            list.wf(),
            self.wf(old_list),
            SkipList::same_ways(old_list, list),
        ensures
            self.steps_left(list) == self.steps_left(old_list),
    {
        if self.phase is Link {
            let level = self.level as int;
            assert(self.spliced(old_list, level));
            let here = self.prev@[level] as int;
            let i = old_list.lemma_on_level(level, here);
            let j = list.lemma_on_level(level, here);
            assert(list.chain_ok(level));
            chain::lemma_chain_distinct(
                list.arena.bytes(),
                list.nodes@,
                list.head as int,
                list.chains@[level],
                level,
                i,
                j,
            );
        }
    }

    /// How many steps a write has left at most, by the number of nodes alone: two passes
    /// over all levels, and what comes between.
    pub(super) proof fn lemma_steps_bounded(&self, list: &SkipList)
        requires
            list.wf(),
            self.wf(list),
        ensures
            self.steps_left(list) <= 42 * (list.nodes@.dom().len() + 4),
    {
        let n = list.nodes@.dom().len() as int;
        if self.phase is Descend || self.phase is Refind {
            self.lemma_nodes_left(list);
        }
        if self.phase is Descend {
            vstd::arithmetic::mul::lemma_mul_inequality(
                self.level as int,
                MAX_HEIGHT - 1,
                n + 1,
            );
        }
        if self.phase is Link || self.phase is Refind {
            vstd::arithmetic::mul::lemma_mul_inequality(
                MAX_HEIGHT - self.level,
                MAX_HEIGHT as int,
                n + 3,
            );
        }
    }

    /// What is ahead at a level is not negative, and one level at least is ahead of a
    /// write that links its node.
    proof fn lemma_levels(&self, list: &SkipList)
        requires
            list.wf(),
            self.wf(list),
        ensures
            0 <= self.level * (list.nodes@.dom().len() + 1),
            self.phase is Link || self.phase is Refind ==> (MAX_HEIGHT - self.level) * (
            list.nodes@.dom().len() + 3) >= list.nodes@.dom().len() + 3,
    {
        let n = list.nodes@.dom().len() as int;
        vstd::arithmetic::mul::lemma_mul_nonnegative(self.level as int, n + 1);
        if self.phase is Link || self.phase is Refind {
            vstd::arithmetic::mul::lemma_mul_inequality(1, MAX_HEIGHT - self.level, n + 3);
        }
    }

    /// A look at the arena cursor.
    fn look(&mut self, list: &SkipList, claim: Claim)
        requires
            list.wf(),
            old(self).wf(list),
            old(self).phase == Phase::Look(claim),
        ensures
            Put::stepped(old(self), list, final(self), list),
    {
        proof {
            SkipList::lemma_evolves_same(list);
            list.arena.lemma_bounds();
        }
        self.seen = list.allocated() as u32;
        self.phase = Phase::Take(claim);
        proof {
            self.lemma_splices_above(old(self), list, 0);
        }
    }

    /// Splices are read off `prev` and `next` alone.
    proof fn lemma_splices_above(&self, before: &Put, list: &SkipList, from: int)
        requires
            0 <= from,
            self.id() == before.id(),
            forall|l: int|
                from <= l < MAX_HEIGHT ==> #[trigger] self.prev@[l] == before.prev@[l]
                    && self.next@[l] == before.next@[l],
        ensures
            before.spliced_from(list, from) ==> self.spliced_from(list, from),
            before.joined(list, from) ==> self.joined(list, from),
    {
        assert forall|l: int| from <= l < MAX_HEIGHT && before.spliced_from(
            list,
            from,
        ) implies #[trigger] self.spliced(list, l) by {
            assert(before.spliced(list, l));
            assert(self.prev@[l] == before.prev@[l]);
        }
        assert forall|l: int| from <= l < MAX_HEIGHT && before.joined(
            list,
            from,
        ) implies #[trigger] self.intact(list, l) by {
            assert(before.intact(list, l));
            assert(self.prev@[l] == before.prev@[l]);
        }
    }

    /// Splices stay intact where no link changed.
    proof fn lemma_joined_lasts(&self, old_list: &SkipList, list: &SkipList, from: int)
        requires
            old_list.wf(),
            0 <= from,
            self.spliced_from(old_list, from),
            forall|l: int, n: int|
                old_list.nodes@.contains_key(n) && 0 <= l < old_list.nodes@[n].height
                    ==> #[trigger] list.link(l, n) == old_list.link(l, n),
        ensures
            self.joined(old_list, from) ==> self.joined(list, from),
    {
        assert forall|l: int| from <= l < MAX_HEIGHT && self.joined(
            old_list,
            from,
        ) implies #[trigger] self.intact(list, l) by {
            assert(self.intact(old_list, l));
            assert(self.spliced(old_list, l));
            let i = old_list.lemma_on_level(l, self.prev@[l] as int);
        }
    }

    /// One attempt to claim room for the key.
    fn take_key(&mut self, list: &mut SkipList)
        requires
            old(list).wf(),
            old(self).wf(old(list)),
            old(self).phase == Phase::Take(Claim::Key),
        ensures
            Put::stepped(old(self), old(list), final(self), final(list)),
    {
        proof {
            SkipList::lemma_evolves_same(list);
            list.arena.lemma_bounds();
        }
        match list.claim_text(self.seen, self.key) {
            Err(full) => {
                self.phase = Phase::Done(Err(Error::from(full)));
            },
            Ok(Attempt::Moved(actual)) => {
                self.seen = actual;
                proof {
                    self.lemma_splices_above(old(self), list, 0);
                }
            },
            Ok(Attempt::Claimed(off)) => {
                self.key_off = off;
                match self.value {
                    None => {
                        self.word = encode_value(0, TOMBSTONE);
                        self.phase = Phase::Draw;
                    },
                    Some(_) => {
                        self.phase = Phase::Look(Claim::Value);
                    },
                }
                proof {
                    self.lemma_splices_above(old(self), old(list), 0);
                    self.lemma_splices_last(old(list), list, 0, 0);
                    self.lemma_joined_lasts(old(list), list, 0);
                }
            },
        }
    }

    /// One attempt to claim room for the value.
    fn take_value(&mut self, list: &mut SkipList, claim: Claim)
        requires
            old(list).wf(),
            old(self).wf(old(list)),
            old(self).phase == Phase::Take(claim),
            claim is Value || claim is Overwrite,
        ensures
            Put::stepped(old(self), old(list), final(self), final(list)),
    {
        proof {
            SkipList::lemma_evolves_same(list);
            list.arena.lemma_bounds();
        }
        let value: &[u8] = self.value.unwrap();
        match list.claim_text(self.seen, value) {
            Err(full) => {
                self.phase = Phase::Done(Err(Error::from(full)));
            },
            Ok(Attempt::Moved(actual)) => {
                self.seen = actual;
                proof {
                    self.lemma_splices_above(old(self), list, 0);
                }
            },
            Ok(Attempt::Claimed(off)) => {
                self.word = encode_value(off, value.len() as u32);
                match claim {
                    Claim::Overwrite(n) => {
                        self.phase = Phase::Store(n);
                        proof {
                            self.lemma_found_lasts(old(list), list, 0, n as int);
                        }
                    },
                    _ => {
                        self.phase = Phase::Draw;
                        proof {
                            self.lemma_splices_above(old(self), old(list), 0);
                            self.lemma_splices_last(old(list), list, 0, 0);
                            self.lemma_joined_lasts(old(list), list, 0);
                            self.lemma_texts_last(old(list), list, 0);
                        }
                    },
                }
            },
        }
    }

    /// Draws the height of the new node.
    fn draw(&mut self, list: &mut SkipList)
        requires
            old(list).wf(),
            old(self).wf(old(list)),
            old(self).phase is Draw,
        ensures
            Put::stepped(old(self), old(list), final(self), final(list)),
    {
        self.height = list.random_height();
        self.phase = Phase::Look(Claim::Node);
        proof {
            SkipList::lemma_evolves_same(list);
            self.lemma_splices_above(old(self), old(list), 0);
            self.lemma_splices_last(old(list), list, 0, 0);
            assert forall|l: int, n: int| #[trigger] list.link(l, n) == old(list).link(l, n) by {}
            self.lemma_joined_lasts(old(list), list, 0);
            self.lemma_texts_last(old(list), list, 0);
        }
    }

    /// One attempt to claim and write the node.
    fn take_node(&mut self, list: &mut SkipList)
        requires
            old(list).wf(),
            old(self).wf(old(list)),
            old(self).phase == Phase::Take(Claim::Node),
        ensures
            Put::stepped(old(self), old(list), final(self), final(list)),
    {
        proof {
            SkipList::lemma_evolves_same(list);
            list.arena.lemma_bounds();
            list.lemma_no_null();
        }
        let ghost info = NodeInfo {
            key: self.key@,
            version: self.version,
            value: self.new_value(),
            height: self.height as int,
        };
        match list.claim_node(
            self.seen,
            self.height,
            self.version,
            self.key_off,
            self.key.len() as u32,
            self.word,
            Ghost(info),
        ) {
            Err(full) => {
                self.phase = Phase::Done(Err(Error::from(full)));
            },
            Ok(Attempt::Moved(actual)) => {
                self.seen = actual;
                proof {
                    self.lemma_splices_above(old(self), list, 0);
                }
            },
            Ok(Attempt::Claimed(node)) => {
                self.node = node;
                self.phase = Phase::Height;
                proof {
                    let n = node as int;
                    self.lemma_splices_above(old(self), old(list), 0);
                    self.lemma_splices_last(old(list), list, n, 0);
                    self.lemma_joined_lasts(old(list), list, 0);
                    assert(self.built(list, 0)) by {
                        if list.counted@.contains(n) {
                            assert(old(list).chains@[0].contains(n));
                        }
                    }
                }
            },
        }
    }

    /// A look at the list's height.
    fn look_height(&mut self, list: &SkipList)
        requires
            list.wf(),
            old(self).wf(list),
            old(self).phase is Height,
        ensures
            Put::stepped(old(self), list, final(self), list),
    {
        self.seen = list.height();
        self.aim_for_height();
        proof {
            SkipList::lemma_evolves_same(list);
            self.lemma_splices_above(old(self), list, 0);
        }
    }

    /// Decides by the height last seen whether the list has to be raised.
    fn aim_for_height(&mut self)
        requires
            old(self).height <= MAX_HEIGHT,
        ensures
            *final(self) == (Put {
                level: 0,
                phase: (if old(self).height > old(self).seen {
                    Phase::Raise
                } else {
                    Phase::Link
                }),
                ..*old(self)
            }),
    {
        self.level = 0;
        if self.height as u32 > self.seen {
            self.phase = Phase::Raise;
        } else {
            self.phase = Phase::Link;
        }
    }

    /// One attempt to raise the list's height, so that searches start high enough
    /// to find the node.
    fn raise(&mut self, list: &mut SkipList)
        requires
            old(list).wf(),
            old(self).wf(old(list)),
            old(self).phase is Raise,
        ensures
            Put::stepped(old(self), old(list), final(self), final(list)),
    {
        match list.raise_height(self.seen, self.height as u32) {
            Ok(()) => {
                self.level = 0;
                self.phase = Phase::Link;
            },
            Err(actual) => {
                self.seen = actual;
                self.aim_for_height();
            },
        }
        proof {
            assert(list.entries() == old(list).entries());
            self.lemma_splices_above(old(self), old(list), 0);
            self.lemma_splices_last(old(list), list, 0, 0);
            assert forall|l: int, n: int| #[trigger] list.link(l, n) == old(list).link(l, n) by {}
            self.lemma_joined_lasts(old(list), list, 0);
            self.lemma_texts_last(old(list), list, 0);
        }
    }

    /// One attempt to link the node in at the current level.
    fn link(&mut self, list: &mut SkipList)
        requires
            old(list).wf(),
            old(self).wf(old(list)),
            old(self).phase is Link,
        ensures
            Put::stepped(old(self), old(list), final(self), final(list)),
    {
        let level: usize = self.level;
        let prev: u32 = self.prev[level];
        let next: u32 = self.next[level];
        proof {
            assert(self.spliced(list, level as int));
            let i = list.lemma_on_level(level as int, prev as int);
            if next != NULL {
                let j = list.lemma_on_level(level as int, next as int);
            }
        }
        list.aim(self.node, level, next);
        let ghost aimed = *list;
        proof {
            self.lemma_aimed(old(list), &aimed);
        }
        if list.link_after(prev, level, next, self.node) {
            self.level = level + 1;
            if level + 1 < self.height {
                self.phase = Phase::Link;
            } else {
                self.phase = Phase::Count;
            }
            proof {
                self.lemma_linked_on(old(self), old(list), &aimed, list);
            }
        } else {
            self.phase = Phase::Refind;
            proof {
                assert(!old(self).intact(&aimed, level as int));
                assert(!old(self).intact(old(list), level as int));
                self.lemma_splices_above(old(self), list, level + 1);
            }
        }
    }

    /// Pointing the node's own link keeps everything that linking it relies on.
    proof fn lemma_aimed(&self, old_list: &SkipList, list: &SkipList)
        requires
            old_list.wf(),
            list.wf(),
            self.wf(old_list),
            self.phase is Link,
            SkipList::same_shape(old_list, list),
            SkipList::evolves(old_list, list, 0),
            forall|l: int, n: int|
                old_list.nodes@.contains_key(n) && 0 <= l < old_list.nodes@[n].height && !(n
                    == self.node && l == self.level) ==> #[trigger] list.link(l, n)
                    == old_list.link(l, n),
        ensures
            self.wf(list),
            forall|l: int|
                self.level <= l < MAX_HEIGHT ==> #[trigger] self.intact(list, l) == self.intact(
                    old_list,
                    l,
                ),
    {
        self.lemma_lasts(old_list, list, 0);
        assert forall|l: int| self.level <= l < MAX_HEIGHT implies #[trigger] self.intact(list, l)
            == self.intact(old_list, l) by {
            assert(self.spliced(old_list, l));
            let i = old_list.lemma_on_level(l, self.prev@[l] as int);
            assert(!old_list.chains@[l].contains(self.node as int));
        }
    }

    /// What linking the node at one level leaves for the levels above.
    proof fn lemma_linked_on(
        &self,
        before: &Put,
        old_list: &SkipList,
        aimed: &SkipList,
        list: &SkipList,
    )
        requires
            old_list.wf(),
            aimed.wf(),
            list.wf(),
            before.phase is Link,
            before.wf(aimed),
            SkipList::evolves(old_list, aimed, 0),
            SkipList::same_shape(old_list, aimed),
            SkipList::evolves(aimed, list, before.node as int),
            list.head == aimed.head,
            list.nodes == aimed.nodes,
            list.counted == aimed.counted,
            list.height == aimed.height,
            list.chains@[before.level as int].contains(before.node as int),
            forall|l: int|
                0 <= l < MAX_HEIGHT && l != before.level ==> #[trigger] list.chains@[l]
                    == aimed.chains@[l],
            forall|l: int, n: int|
                aimed.nodes@.contains_key(n) && 0 <= l < aimed.nodes@[n].height && !(n
                    == before.prev@[before.level as int] && l == before.level)
                    ==> #[trigger] list.link(l, n) == aimed.link(l, n),
            *self == (Put { level: self.level, phase: self.phase, ..*before }),
            self.level == before.level + 1,
            self.phase == (if self.level < self.height {
                Phase::Link
            } else {
                Phase::Count
            }),
        ensures
            self.wf(list),
            SkipList::evolves(old_list, list, before.node as int),
            before.joined(aimed, before.level as int) ==> self.joined(list, self.level as int),
    {
        let node = before.node as int;
        self.lemma_splices_above(before, aimed, self.level as int);
        assert forall|l: int| self.level <= l < MAX_HEIGHT implies #[trigger] self.spliced(
            aimed,
            l,
        ) by {
            assert(before.spliced(aimed, l));
        }
        self.lemma_splices_last(aimed, list, node, self.level as int);
        assert forall|l: int| 0 <= l < self.level implies #[trigger] list.chains@[l].contains(
            node,
        ) by {
            if l < before.level {
                assert(aimed.chains@[l].contains(node));
            }
        }
        assert forall|l: int|
            self.level <= l < MAX_HEIGHT implies !#[trigger] list.chains@[l].contains(node) by {
            assert(!aimed.chains@[l].contains(node));
        }
        assert forall|l: int| self.level <= l < MAX_HEIGHT && before.joined(
            aimed,
            before.level as int,
        ) implies #[trigger] self.intact(list, l) by {
            assert(before.intact(aimed, l));
            assert(before.spliced(aimed, l));
            let i = aimed.lemma_on_level(l, self.prev@[l] as int);
        }
    }

    /// One look to the right while searching again at the current level, from the
    /// node that the search had reached before.
    fn refind(&mut self, list: &SkipList)
        requires
            list.wf(),
            old(self).wf(list),
            old(self).phase is Refind,
        ensures
            Put::stepped(old(self), list, final(self), list),
    {
        let level: usize = self.level;
        let here: u32 = self.prev[level];
        proof {
            SkipList::lemma_evolves_same(list);
            list.lemma_no_null();
            list.lemma_link_on_level(level as int, here as int);
        }
        match list.probe(self.key, self.version, here, level) {
            Probe::Right(n) => {
                self.prev[level] = n;
                proof {
                    self.lemma_splices_above(old(self), list, level + 1);
                }
            },
            Probe::Hit(n) => {
                proof {
                    assert(list.chains@[0].contains(n as int));
                    self.lemma_hit_only_at_bottom(list, n as int);
                    order::lemma_before_irreflexive(self.id());
                }
                self.phase = Phase::Store(n);
            },
            Probe::Gap(n) => {
                self.next[level] = n;
                self.phase = Phase::Link;
                proof {
                    if n != NULL {
                        order::lemma_before_asymmetric(
                            self.id(),
                            node::id_of(list.nodes@[n as int]),
                        );
                    }
                    self.lemma_splices_above(old(self), list, level + 1);
                    assert(self.spliced(list, level as int));
                    assert forall|l: int| level <= l < MAX_HEIGHT implies #[trigger] self.spliced(
                        list,
                        l,
                    ) by {}
                }
            },
        }
    }

    /// Once the node is on the bottom level no other node has its key and version.
    proof fn lemma_hit_only_at_bottom(&self, list: &SkipList, n: int)
        requires
            list.wf(),
            self.built(list, self.level as int),
            self.level < MAX_HEIGHT,
            list.chains@[self.level as int].contains(n),
            n != list.head,
            node::id_of(list.nodes@[n]) == self.id(),
        ensures
            self.level == 0,
    {
        let node = self.node as int;
        if self.level > 0 {
            assert(list.chains@[0].contains(n));
            assert(list.chains@[0].contains(node));
            assert(!list.chains@[self.level as int].contains(node));
            let i = list.lemma_on_level(0, n);
            let j = list.lemma_on_level(0, node);
            list.lemma_entries();
            chain::lemma_one_place(list.entries(), i - 1);
            chain::lemma_one_place(list.entries(), j - 1);
        }
    }

    /// Stores the value at the node of the entry.
    fn store(&mut self, list: &mut SkipList, n: u32)
        requires
            old(list).wf(),
            old(self).wf(old(list)),
            old(self).phase == Phase::Store(n),
        ensures
            Put::stepped(old(self), old(list), final(self), final(list)),
    {
        list.store_value(n, self.word, Ghost(self.new_value()));
        self.phase = Phase::Done(Ok(()));
    }

    /// Counts the entry.
    fn count(&mut self, list: &mut SkipList)
        requires
            old(list).wf(),
            old(self).wf(old(list)),
            old(self).phase is Count,
        ensures
            Put::stepped(old(self), old(list), final(self), final(list)),
    {
        proof {
            assert(list.chains@[0].contains(self.node as int));
        }
        list.count_node(Ghost(self.node as int));
        self.phase = Phase::Done(Ok(()));
        assert(list.entries() == old(list).entries());
    }

    /// What a write that nobody disturbs has done when it stands at its current
    /// phase, if it began on `start`.
    spec fn on_course(&self, list: &SkipList, start: &SkipList) -> bool {
        let id = self.id();
        let key_end = start.cursor() + self.key@.len();
        let value_end = key_end + text_len(self.new_value());
        let h = skiplist::drawn_height(start.seed());
        let node_end = arena::align_up(value_end, NODE_ALIGN as int) + node::node_size(h);
        let fresh = !start@.contains_key(id);
        let drawn = list.seed() == start.seed().wrapping_add(SEED_STEP) && self.height == h;
        &&& list.cap() == start.cap()
        &&& self.phase is Done || self.sized()
        &&& match self.phase {
            Phase::Descend => *list == *start,
            Phase::Look(Claim::Key) => fresh && *list == *start,
            Phase::Take(Claim::Key) => fresh && *list == *start,
            Phase::Look(Claim::Overwrite(_)) => !fresh && self.value is Some && *list == *start,
            Phase::Take(Claim::Overwrite(_)) => !fresh && self.value is Some && *list == *start,
            Phase::Look(Claim::Value) => {
                fresh && self.value is Some && Put::quiet(start, list) && list.cursor() == key_end
                    <= start.cap()
            },
            Phase::Take(Claim::Value) => {
                fresh && self.value is Some && Put::quiet(start, list) && list.cursor() == key_end
                    <= start.cap()
            },
            Phase::Draw => {
                fresh && Put::quiet(start, list) && list.cursor() == value_end <= start.cap()
            },
            Phase::Look(Claim::Node) => {
                &&& fresh && drawn
                &&& list.entries() == start.entries()
                &&& list.tallest() == start.tallest()
                &&& list.count() == start.count()
                &&& list.cursor() == value_end <= start.cap()
            },
            Phase::Take(Claim::Node) => {
                &&& fresh && drawn
                &&& list.entries() == start.entries()
                &&& list.tallest() == start.tallest()
                &&& list.count() == start.count()
                &&& list.cursor() == value_end <= start.cap()
            },
            Phase::Height => {
                &&& fresh && drawn
                &&& list.entries() == start.entries()
                &&& list.tallest() == start.tallest()
                &&& list.count() == start.count()
                &&& value_end <= start.cap()
                &&& list.cursor() == node_end <= start.cap()
            },
            Phase::Raise => {
                &&& fresh && drawn
                &&& h > start.tallest()
                &&& list.entries() == start.entries()
                &&& list.tallest() == start.tallest()
                &&& list.count() == start.count()
                &&& value_end <= start.cap()
                &&& list.cursor() == node_end <= start.cap()
            },
            Phase::Link => {
                &&& fresh && drawn
                &&& self.level == 0 ==> list.entries() == start.entries()
                &&& self.level > 0 ==> {
                    &&& list@ == start@.insert(id, self.new_value())
                    &&& list.entries().len() == start.entries().len() + 1
                }
                &&& list.tallest() == skiplist::higher(start.tallest(), h)
                &&& list.count() == start.count()
                &&& value_end <= start.cap()
                &&& list.cursor() == node_end <= start.cap()
            },
            Phase::Count => {
                &&& fresh && drawn
                &&& list@ == start@.insert(id, self.new_value())
                &&& list.entries().len() == start.entries().len() + 1
                &&& list.tallest() == skiplist::higher(start.tallest(), h)
                &&& list.count() == start.count()
                &&& value_end <= start.cap()
                &&& list.cursor() == node_end <= start.cap()
            },
            Phase::Store(_) => {
                &&& !fresh
                &&& Put::quiet(start, list)
                &&& list.cursor() == start.cursor() + text_len(self.new_value()) <= start.cap()
            },
            Phase::Refind => false,
            Phase::Done(r) => skiplist::put_did(start, id, self.new_value(), r, list),
        }
    }

    /// Where the splice at the bottom level is intact the entry is not in the list.
    proof fn lemma_absent(&self, list: &SkipList)
        requires
            list.wf(),
            self.spliced(list, 0),
            self.intact(list, 0),
        ensures
            !list@.contains_key(self.id()),
    {
        let i = list.lemma_on_level(0, self.prev@[0] as int);
        list.lemma_entries();
        if i + 1 < list.chains@[0].len() {
            list.lemma_at(0, i + 1);
        }
        let item = chain::Item {
            key: self.key@,
            version: self.version,
            value: self.new_value(),
        };
        chain::lemma_model_inserts(list.entries(), i, item);
    }

    /// The node found for the entry shows that the entry is in the list.
    proof fn lemma_present(&self, list: &SkipList, n: int)
        requires
            list.wf(),
            self.found(list, n),
        ensures
            list@.contains_key(self.id()),
    {
        let i = list.lemma_on_level(0, n);
        list.lemma_entries();
        chain::lemma_one_place(list.entries(), i - 1);
    }

    /// A step that nobody disturbs keeps a write on its course.
    proof fn lemma_stays_on_course(
        before: &Put,
        old_list: &SkipList,
        after: &Put,
        list: &SkipList,
        start: &SkipList,
    )
        requires
            old_list.wf(),
            before.wf(old_list),
            before.undisturbed(old_list),
            before.on_course(old_list, start),
            Put::stepped(before, old_list, after, list),
        ensures
            after.on_course(list, start),
    {
        list.arena.lemma_bounds();
        match after.phase {
            Phase::Look(Claim::Key) => {
                assert(after.spliced(list, 0));
                assert(after.intact(list, 0));
                after.lemma_absent(list);
            },
            Phase::Look(Claim::Overwrite(n)) => {
                after.lemma_present(list, n as int);
            },
            Phase::Store(n) => {
                if before.phase is Descend {
                    after.lemma_present(list, n as int);
                }
            },
            _ => {},
        }
        if before.phase is Link {
            assert(before.intact(old_list, before.level as int));
        }
    }

    /// A step leaves only the node that its write owns afterwards unfinished.
    pub(super) proof fn lemma_tends(
        before: &Put,
        old_list: &SkipList,
        after: &Put,
        list: &SkipList,
        others: Set<int>,
    )
        requires
            old_list.wf(),
            before.wf(old_list),
            Put::stepped(before, old_list, after, list),
            old_list.tended(others.insert(before.owned())),
        ensures
            list.tended(others.insert(after.owned())),
    {
        old_list.lemma_no_null();
        list.lemma_no_null();
        assert forall|n: int| #[trigger]
            list.chains@[0].contains(n) && n != list.head && !others.insert(
                after.owned(),
            ).contains(n) implies list.counted@.contains(n) && list.fully_linked(n) by {
            if n == before.owned() {
                if before.phase is Count {
                    assert(before.built(old_list, before.height as int));
                    assert forall|l: int|
                        0 <= l < list.nodes@[n].height implies #[trigger] list.chains@[l].contains(
                        n,
                    ) by {
                        assert(old_list.chains@[l].contains(n));
                    }
                }
            } else {
                assert(old_list.chains@[0].contains(n));
                let i = old_list.lemma_on_level(0, n);
                old_list.lemma_node(n);
                assert(old_list.fully_linked(n));
                assert forall|l: int|
                    0 <= l < list.nodes@[n].height implies #[trigger] list.chains@[l].contains(
                    n,
                ) by {
                    assert(old_list.chains@[l].contains(n));
                }
            }
        }
    }

    /// What the other writers and the readers can rely on in every step.
    pub(super) proof fn lemma_stepped(
        before: &Put,
        old_list: &SkipList,
        after: &Put,
        list: &SkipList,
    )
        requires
            Put::stepped(before, old_list, after, list),
        ensures
            list.wf(),
            after.wf(list),
            SkipList::evolves(old_list, list, Put::touched(before, after)),
            after.id() == before.id(),
            after.new_value() == before.new_value(),
            before.applied() ==> after.applied(),
            !before.applied() && after.applied() ==> list@ == old_list@.insert(
                before.id(),
                before.new_value(),
            ),
            before.applied() || !after.applied() ==> list@ == old_list@,
            before.result() is Some ==> after.result() == before.result(),
            after.owned() == 0 || after.owned() == before.owned() || (before.owned() == 0
                && !old_list.nodes@.contains_key(after.owned())),
    {
    }

    /// A node that a write owns is a node of the list, and a write that has
    /// finished owns none.
    pub(super) proof fn lemma_owned(&self, list: &SkipList)
        requires
            self.wf(list),
        ensures
            self.owned() == 0 || list.nodes@.contains_key(self.owned()),
            self.result() is Some ==> self.owned() == 0,
    {
    }

    /// The write of an entry that the list holds finds it, whatever others do, and
    /// claims the bytes of the value only.
    pub(super) proof fn lemma_rewrites(
        before: &Put,
        old_list: &SkipList,
        after: &Put,
        list: &SkipList,
    )
        requires
            old_list.wf(),
            before.wf(old_list),
            before.rewrites(),
            old_list@.contains_key(before.id()),
            Put::stepped(before, old_list, after, list),
        ensures
            after.rewrites(),
            list@.contains_key(after.id()),
            after.id() == before.id(),
            after.new_value() == before.new_value(),
            after.to_claim() == before.to_claim() || after.to_claim() == 0,
            list.entries().len() == old_list.entries().len(),
            list.count() == old_list.count(),
            match after.result() {
                Some(Err(e)) => {
                    &&& *list == *old_list
                    &&& before.result() is None ==> {
                        &&& e == Error::Full
                        &&& before.new_value() is Some
                        &&& old_list.cursor() + text_len(before.new_value()) > old_list.cap()
                    }
                },
                _ => list.cursor() + after.to_claim() == old_list.cursor() + before.to_claim(),
            },
    {
        old_list.arena.lemma_bounds();
        if before.phase is Descend {
            let level = before.level as int;
            old_list.lemma_link_on_level(level, before.prev@[level] as int);
            let next = old_list.link(level, before.prev@[level] as int);
            if next != NULL {
                old_list.lemma_node(next);
            }
            if after.phase == Phase::Look(Claim::Key) {
                assert(after.spliced(list, 0));
                assert(after.intact(list, 0));
                after.lemma_absent(list);
            }
        }
    }

    /// Runs the write to its end, with nobody else at work on the list.
    pub(super) fn run(self, list: &mut SkipList) -> (r: Result<(), Error>)
        requires
            old(list).wf(),
            self.wf(old(list)),
            self.starts(old(list)),
            self.result() is Some ==> self.result() == Some(Err::<(), Error>(Error::TooLarge)),
            self.result() is Some <==> too_large(self.id().0, self.new_value()),
        ensures
            final(list).wf(),
            skiplist::put_did(old(list), self.id(), self.new_value(), r, final(list)),
            old(list).settled() ==> final(list).settled(),
            SkipList::carries_over(old(list), final(list)),
    {
        let mut write = self;
        proof {
            SkipList::lemma_evolves_same(list);
            list.lemma_no_null();
            assert forall|owners: Set<int>| #[trigger] old(list).tended(owners) implies list.tended(
                owners.insert(0),
            ) by {}
        }
        loop
            invariant
                old(list).wf(),
                list.wf(),
                write.wf(list),
                write.undisturbed(list),
                write.on_course(list, old(list)),
                write.id() == self.id(),
                write.new_value() == self.new_value(),
                SkipList::evolves(old(list), list, write.owned()),
                !old(list).nodes@.contains_key(write.owned()),
                forall|owners: Set<int>| #[trigger]
                    old(list).tended(owners) ==> list.tended(owners.insert(write.owned())),
            decreases write.steps_left(list),
        {
            let ghost before = write;
            let ghost old_list = *list;
            let r = write.step(list);
            proof {
                let mine = Put::touched(&before, &write);
                Put::lemma_stays_on_course(&before, &old_list, &write, list, old(list));
                if before.owned() == 0 {
                    SkipList::lemma_evolves_any(old(list), &old_list, mine);
                }
                SkipList::lemma_evolves_on(old(list), &old_list, list, mine);
                assert forall|owners: Set<int>| #[trigger]
                    old(list).tended(owners) implies list.tended(owners.insert(write.owned())) by {
                    Put::lemma_tends(&before, &old_list, &write, list, owners);
                }
                if r is Some {
                    list.lemma_no_null();
                    assert forall|owners: Set<int>| #[trigger]
                        old(list).tended(owners) implies list.tended(owners) by {
                        assert(list.tended(owners.insert(write.owned())));
                    }
                    SkipList::lemma_carries_over(old(list), list, mine);
                }
            }
            match r {
                Some(result) => {
                    return result;
                },
                None => {},
            }
        }
    }

    /// Begins a write. Keys and values whose lengths do not fit their fields are
    /// refused at once.
    pub fn new(list: &SkipList, version: u64, key: &'a [u8], value: Option<&'a [u8]>) -> (put: Self)
        requires
            list.wf(),
            version <= MAX_VERSION || too_large(key@, skiplist::value_view(value)),
        ensures
            put.wf(list),
            put.starts(list),
            put.id() == (key@, version),
            put.new_value() == skiplist::value_view(value),
            put.owned() == 0,
            !put.applied(),
            put.rewrites(),
            put.to_claim() == (if put.result() is Some {
                0
            } else {
                text_len(skiplist::value_view(value))
            }),
            put.result() == (if too_large(key@, skiplist::value_view(value)) {
                Some(Err::<(), Error>(Error::TooLarge))
            } else {
                None
            }),
    {
        let phase: Phase = if is_too_large(key, value) {
            Phase::Done(Err(Error::TooLarge))
        } else {
            Phase::Descend
        };
        proof {
            list.lemma_head(MAX_HEIGHT - 1);
        }
        let prev: Vec<u32> = vec![list.head; MAX_HEIGHT];
        let next: Vec<u32> = vec![NULL; MAX_HEIGHT];
        Put {
            key,
            version,
            value,
            phase,
            level: MAX_HEIGHT - 1,
            prev,
            next,
            seen: 0,
            key_off: NULL,
            word: 0,
            height: 0,
            node: NULL,
        }
    }

    /// The write has just begun: its search starts at the head of the top level.
    pub closed spec fn starts(&self, list: &SkipList) -> bool {
        &&& self.phase is Descend || self.phase is Done
        &&& self.level == MAX_HEIGHT - 1
        &&& self.prev@[MAX_HEIGHT - 1] == list.head
        &&& self.undisturbed(list)
    }

    /// Takes the next step; the result, once the write has finished.
    pub fn step(&mut self, list: &mut SkipList) -> (r: Option<Result<(), Error>>)
        requires
            old(list).wf(),
            old(self).wf(old(list)),
        ensures
            Put::stepped(old(self), old(list), final(self), final(list)),
            final(list).wf(),
            final(self).wf(final(list)),
            r == final(self).result(),
            final(self).id() == old(self).id(),
            final(self).new_value() == old(self).new_value(),
            old(self).applied() ==> final(self).applied(),
            !old(self).applied() && final(self).applied() ==> final(list)@ == old(list)@.insert(
                old(self).id(),
                old(self).new_value(),
            ),
            old(self).applied() || !final(self).applied() ==> final(list)@ == old(list)@,
            r matches Some(result) ==> (result is Ok <==> final(self).applied()),
            old(self).result() is Some ==> {
                &&& r == old(self).result()
                &&& *final(self) == *old(self)
                &&& *final(list) == *old(list)
            },
            old(self).result() is None ==> r != Some(Err::<(), Error>(Error::TooLarge)),
            old(self).result() is None && r == Some(Err::<(), Error>(Error::Full)) ==> old(
                list,
            ).cursor() + old(self).id().0.len() + text_len(old(self).new_value()) + 7
                + node::node_size(MAX_HEIGHT as int) > old(list).cap(),
            SkipList::evolves(old(list), final(list), Put::touched(old(self), final(self))),
            0 <= final(self).steps_left(final(list)),
            old(self).result() is None ==> final(self).steps_left(final(list)) < old(
                self,
            ).steps_left(old(list)),
    {
        match self.phase {
            Phase::Descend => self.descend(list),
            Phase::Look(claim) => self.look(list, claim),
            Phase::Take(Claim::Key) => self.take_key(list),
            Phase::Take(Claim::Node) => self.take_node(list),
            Phase::Take(claim) => self.take_value(list, claim),
            Phase::Draw => self.draw(list),
            Phase::Height => self.look_height(list),
            Phase::Raise => self.raise(list),
            Phase::Link => self.link(list),
            Phase::Refind => self.refind(list),
            Phase::Store(n) => self.store(list, n),
            Phase::Count => self.count(list),
            Phase::Done(_) => {
                proof {
                    SkipList::lemma_evolves_same(list);
                }
            },
        }
        proof {
            Put::lemma_counts_down(old(self), old(list), self, list);
        }
        match self.phase {
            Phase::Done(r) => Some(r),
            _ => None,
        }
    }
}

} // verus!
