//! A read of one key, taken one access to shared state at a time.
//!
//! A `Lookup` is one reader's work in progress. Each `step` loads one link, or
//! the value of the entry found. Writers may change the list between two steps.

use crate::arena::NULL;
use crate::chain;
use crate::chain::Item;
use crate::node;
use crate::node::MAX_HEIGHT;
use crate::order;
use crate::order::{compare_bytes, Id, Position};
use crate::skiplist;
use crate::skiplist::{Entry, Probe, SkipList};
use vstd::prelude::*;

verus! {

/// Where a read stands.
#[derive(Debug, Clone, Copy)]
enum Phase {
    /// Searching for the newest version that the snapshot sees.
    Descend,
    /// About to load the value of the entry at this node.
    Read(u32),
    /// The snapshot sees no version of the key.
    Missing,
}

/// A read in progress.
pub struct Lookup<'k> {
    key: &'k [u8],
    snapshot: u64,
    phase: Phase,
    /// The level searched.
    level: usize,
    /// The last node known to come before (key, snapshot).
    prev: u32,
    /// The version at the node found.
    version: u64,
}

impl<'k> Lookup<'k> {
    /// The key read.
    pub closed spec fn target(&self) -> Seq<u8> {
        self.key@
    }

    /// The snapshot read at.
    pub closed spec fn bound(&self) -> u64 {
        self.snapshot
    }

    /// The entry has not been located yet.
    pub closed spec fn searching(&self) -> bool {
        self.phase is Descend
    }

    /// The version located, if the search found one.
    pub closed spec fn located(&self) -> Option<u64> {
        match self.phase {
            Phase::Read(_) => Some(self.version),
            _ => None,
        }
    }

    /// What holds of a read in progress and the list it reads.
    pub closed spec fn wf(&self, list: &SkipList) -> bool {
        match self.phase {
            Phase::Descend => list.stands_before(
                self.level as int,
                self.prev as int,
                (self.key@, self.snapshot),
            ),
            Phase::Read(n) => {
                &&& list.chains@[0].contains(n as int)
                &&& n != list.head
                &&& node::id_of(list.nodes@[n as int]) == (self.key@, self.version)
                &&& self.version <= self.snapshot
            },
            Phase::Missing => true,
        }
    }

    /// The read has just begun: its search starts at the head of the highest level in
    /// use.
    pub closed spec fn starts(&self, list: &SkipList) -> bool {
        &&& self.phase is Descend
        &&& self.level == list.height - 1
        &&& self.prev == list.head
    }

    /// How many nodes are still ahead on this level.
    spec fn nodes_left(&self, list: &SkipList) -> int {
        let chain = list.chains@[self.level as int];
        chain.len() - chain.index_of(self.prev as int)
    }

    /// How many steps, but for the one that gives the result, the read still takes at
    /// most, if nobody changes the list from now on.
    pub closed spec fn steps_left(&self, list: &SkipList) -> int {
        match self.phase {
            Phase::Descend => self.level * (list.nodes@.dom().len() + 1) + self.nodes_left(list),
            _ => 0,
        }
    }

    /// A read in progress stays well-formed while writers work on the list.
    pub(super) proof fn lemma_lasts(&self, before: &SkipList, after: &SkipList, mine: int)
        requires
            before.wf(),
            after.wf(),
            SkipList::evolves(before, after, mine),
            self.wf(before),
        ensures
            self.wf(after),
    {
        match self.phase {
            Phase::Descend => {
                let i = before.lemma_on_level(self.level as int, self.prev as int);
            },
            Phase::Read(n) => {
                let i = before.lemma_on_level(0, n as int);
            },
            Phase::Missing => {},
        }
    }

    /// Begins a read: a look at the list's height.
    pub fn new(list: &SkipList, snapshot: u64, key: &'k [u8]) -> (lookup: Self)
        requires
            list.wf(),
        ensures
            lookup.wf(list),
            lookup.searching(),
            lookup.starts(list),
            lookup.target() == key@,
            lookup.bound() == snapshot,
    {
        let top: usize = list.height() as usize;
        proof {
            list.lemma_head(top - 1);
        }
        Lookup {
            key,
            snapshot,
            phase: Phase::Descend,
            level: top - 1,
            prev: list.head,
            version: 0,
        }
    }

    /// Takes the next step; what was read, once the read has finished.
    ///
    /// The read sees the list as it is when the search ends: from then on it is
    /// bound to the version located, and hands out the value which that version
    /// has when it is loaded.
    pub fn step<'l>(&mut self, list: &'l SkipList) -> (r: Option<Option<Entry<'l>>>)
        requires
            list.wf(),
            old(self).wf(list),
        ensures
            final(self).wf(list),
            final(self).target() == old(self).target(),
            final(self).bound() == old(self).bound(),
            final(self).searching() ==> old(self).searching() && r is None,
            old(self).searching() && !final(self).searching() ==> match final(self).located() {
                None => {
                    &&& r == Some(None::<Entry<'l>>)
                    &&& chain::is_visible(list@, old(self).bound(), old(self).target(), None)
                },
                Some(version) => {
                    &&& r is None
                    &&& chain::is_visible(
                        list@,
                        old(self).bound(),
                        old(self).target(),
                        Some(
                            Item {
                                key: old(self).target(),
                                version,
                                value: list@[(old(self).target(), version)],
                            },
                        ),
                    )
                },
            },
            !old(self).searching() ==> *final(self) == *old(self) && match old(self).located() {
                None => r == Some(None::<Entry<'l>>),
                Some(version) => {
                    &&& version <= old(self).bound()
                    &&& list@.contains_key((old(self).target(), version))
                    &&& r matches Some(Some(e))
                    &&& e.item() == (Item {
                        key: old(self).target(),
                        version,
                        value: list@[(old(self).target(), version)],
                    })
                },
            },
            r is None ==> 0 <= final(self).steps_left(list) < old(self).steps_left(list),
    {
        match self.phase {
            Phase::Descend => {
                let here: u32 = self.prev;
                let level: usize = self.level;
                match list.probe(self.key, self.snapshot, here, level) {
                    Probe::Right(n) => {
                        self.prev = n;
                        proof {
                            self.lemma_nearer_right(old(self), list);
                            self.lemma_nodes_left(list);
                        }
                        None
                    },
                    Probe::Hit(n) => {
                        proof {
                            order::lemma_before_irreflexive((self.key@, self.snapshot));
                        }
                        self.stop_before(list, n)
                    },
                    Probe::Gap(n) => {
                        proof {
                            if n != NULL {
                                order::lemma_before_asymmetric(
                                    (self.key@, self.snapshot),
                                    node::id_of(list.nodes@[n as int]),
                                );
                            }
                        }
                        self.stop_before(list, n)
                    },
                }
            },
            Phase::Read(n) => {
                proof {
                    let i = list.lemma_on_level(0, n as int);
                    list.lemma_entries();
                    chain::lemma_one_place(list.entries(), i - 1);
                }
                Some(Some(list.entry(n)))
            },
            Phase::Missing => Some(None),
        }
    }

    /// A search on a level has at least one node ahead, the one it stands at included,
    /// and no more than there are.
    proof fn lemma_nodes_left(&self, list: &SkipList)
        requires
            list.wf(),
            self.wf(list),
            self.phase is Descend,
        ensures
            1 <= self.nodes_left(list) <= list.nodes@.dom().len(),
            0 <= self.level * (list.nodes@.dom().len() + 1),
    {
        list.lemma_level_len(self.level as int);
        vstd::arithmetic::mul::lemma_mul_nonnegative(
            self.level as int,
            (list.nodes@.dom().len() + 1) as int,
        );
    }

    /// Some steps are left until the version is located.
    pub(super) proof fn lemma_steps_left(&self, list: &SkipList)
        requires
            list.wf(),
            self.wf(list),
        ensures
            0 <= self.steps_left(list),
            self.steps_left(list) == 0 <==> !self.searching(),
    {
        if self.phase is Descend {
            self.lemma_nodes_left(list);
        }
    }

    /// A read has as many steps left as before where all ways are the same.
    pub(super) proof fn lemma_undelayed(&self, old_list: &SkipList, list: &SkipList)
        requires
            SkipList::same_ways(old_list, list),
        ensures
            self.steps_left(list) == self.steps_left(old_list),
    {
    }

    /// A step to the right brings the search nearer to the end of the level.
    proof fn lemma_nearer_right(&self, before: &Lookup, list: &SkipList)
        requires
            list.wf(),
            self.level == before.level,
            before.level < MAX_HEIGHT,
            list.chains@[self.level as int].contains(before.prev as int),
            list.link(self.level as int, before.prev as int) == self.prev,
            self.prev != NULL,
        ensures
            self.nodes_left(list) < before.nodes_left(list),
    {
        let level = self.level as int;
        let chain = list.chains@[level];
        let i = list.lemma_on_level(level, before.prev as int);
        assert(list.chain_ok(level));
        chain::lemma_chain_distinct(
            list.arena.bytes(),
            list.nodes@,
            list.head as int,
            chain,
            level,
            i,
            chain.index_of(before.prev as int),
        );
        list.lemma_at(level, i + 1);
        chain::lemma_chain_distinct(
            list.arena.bytes(),
            list.nodes@,
            list.head as int,
            chain,
            level,
            i + 1,
            chain.index_of(self.prev as int),
        );
    }

    /// A step down brings the search nearer to its end.
    proof fn lemma_nearer_down(&self, before: &Lookup, list: &SkipList)
        requires
            list.wf(),
            before.wf(list),
            before.phase is Descend,
            self.wf(list),
            self.phase is Descend,
            self.level == before.level - 1,
        ensures
            0 <= self.steps_left(list) < before.steps_left(list),
    {
        before.lemma_nodes_left(list);
        self.lemma_nodes_left(list);
        vstd::arithmetic::mul::lemma_mul_is_distributive_add_other_way(
            (list.nodes@.dom().len() + 1) as int,
            self.level as int,
            1,
        );
    }

    /// The search on this level ends before `next`: it goes on one level below, or
    /// is over.
    fn stop_before<'l>(&mut self, list: &'l SkipList, next: u32) -> (r: Option<Option<Entry<'l>>>)
        requires
            list.wf(),
            old(self).wf(list),
            old(self).phase is Descend,
            next == list.link(old(self).level as int, old(self).prev as int),
            next != NULL ==> !order::before(
                node::id_of(list.nodes@[next as int]),
                (old(self).key@, old(self).snapshot),
            ),
        ensures
            final(self).wf(list),
            final(self).key == old(self).key,
            final(self).snapshot == old(self).snapshot,
            final(self).phase is Descend ==> {
                &&& r is None
                &&& final(self).level == old(self).level - 1
            },
            0 <= final(self).steps_left(list) < old(self).steps_left(list),
            final(self).phase is Missing ==> {
                &&& r == Some(None::<Entry<'l>>)
                &&& chain::is_visible(list@, old(self).snapshot, old(self).key@, None)
            },
            final(self).phase is Read ==> {
                &&& r is None
                &&& chain::is_visible(
                    list@,
                    old(self).snapshot,
                    old(self).key@,
                    Some(
                        Item {
                            key: old(self).key@,
                            version: final(self).version,
                            value: list@[(old(self).key@, final(self).version)],
                        },
                    ),
                )
            },
    {
        proof {
            list.lemma_link_on_level(self.level as int, self.prev as int);
            self.lemma_nodes_left(list);
        }
        if self.level > 0 {
            proof {
                assert(list.chains@[self.level - 1].contains(self.prev as int));
            }
            self.level = self.level - 1;
            proof {
                self.lemma_nearer_down(old(self), list);
            }
            return None;
        }
        proof {
            list.lemma_splice_is_visible(self.prev as int, next as int, self.key@, self.snapshot);
        }
        if next == NULL {
            self.phase = Phase::Missing;
            return Some(None);
        }
        match compare_bytes(list.key_of(next), self.key) {
            Position::Same => {
                self.version = list.version_of(next);
                self.phase = Phase::Read(next);
                None
            },
            _ => {
                self.phase = Phase::Missing;
                Some(None)
            },
        }
    }

    /// Runs the read to its end, with nobody writing to the list.
    pub(super) fn run<'l>(self, list: &'l SkipList) -> (found: Option<Entry<'l>>)
        requires
            list.wf(),
            self.wf(list),
            self.searching(),
        ensures
            match found {
                None => chain::is_visible(list@, self.bound(), self.target(), None),
                Some(e) => chain::is_visible(list@, self.bound(), self.target(), Some(e.item())),
            },
    {
        let mut read = self;
        loop
            invariant
                list.wf(),
                read.wf(list),
                read.target() == self.target(),
                read.bound() == self.bound(),
                !read.searching() ==> {
                    &&& read.located() is Some
                    &&& chain::is_visible(
                        list@,
                        self.bound(),
                        self.target(),
                        Some(
                            Item {
                                key: self.target(),
                                version: read.located()->0,
                                value: list@[(self.target(), read.located()->0)],
                            },
                        ),
                    )
                },
            decreases read.steps_left(list),
        {
            match read.step(list) {
                Some(found) => {
                    return found;
                },
                None => {},
            }
        }
    }
}

} // verus!
