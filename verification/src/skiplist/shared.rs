//! The changes that a writer makes to the shared state of a list, one access at
//! a time, and what each of them leaves alone.
//!
//! Between two accesses of one writer any number of accesses of others may come.
//! `evolves` says what all of them keep, so a writer can rely on it.

use crate::arena;
use crate::arena::{ArenaFull, Attempt, NULL, RESERVED};
use crate::chain;
use crate::node;
use crate::node::{init_node, NodeInfo, MAX_HEIGHT, NODE_ALIGN, OFF_TOWER, OFF_VALUE, TOMBSTONE};
use crate::order;
use crate::order::Id;
use crate::skiplist::lookup::Lookup;
use crate::skiplist::put::Put;
use crate::skiplist::{Scan, SkipList, MAX_VERSION};
use vstd::prelude::*;

verus! {

impl SkipList {
    /// Whatever stays as it is has evolved.
    pub(super) proof fn lemma_evolves_same(list: &SkipList)
        requires
            list.wf(),
        ensures
            SkipList::evolves(list, list, 0),
    {
    }

    /// A change that touches no node is one that touches any node at most.
    pub(super) proof fn lemma_evolves_any(before: &SkipList, after: &SkipList, mine: int)
        requires
            after.wf(),
            SkipList::evolves(before, after, 0),
        ensures
            SkipList::evolves(before, after, mine),
    {
        after.lemma_no_null();
        assert forall|n: int| #[trigger] after.counted@.contains(n) implies before.counted@.contains(
            n,
        ) by {
            assert(after.chains@[0].contains(n));
        }
        assert forall|n: int| #[trigger] before.nodes@.contains_key(n) implies n != 0 by {
            assert(after.nodes@.contains_key(n));
        }
    }

    /// Two changes by one writer are one change by that writer.
    pub(super) proof fn lemma_evolves_on(
        first: &SkipList,
        second: &SkipList,
        third: &SkipList,
        mine: int,
    )
        requires
            SkipList::evolves(first, second, mine),
            SkipList::evolves(second, third, mine),
        ensures
            SkipList::evolves(first, third, mine),
    {
        assert forall|n: int| #[trigger] first.nodes@.contains_key(n) implies {
            &&& third.nodes@.contains_key(n)
            &&& node::id_of(third.nodes@[n]) == node::id_of(first.nodes@[n])
            &&& third.nodes@[n].height == first.nodes@[n].height
            &&& first.chains@[0].contains(n) || n == mine || third.nodes@[n].value
                == first.nodes@[n].value
        } by {
            assert(second.nodes@.contains_key(n));
            assert(second.chains@[0].contains(n) ==> first.chains@[0].contains(n) || n == mine);
        }
        assert forall|n: int| #[trigger] third.nodes@.contains_key(n) implies first.nodes@.contains_key(
            n,
        ) || (n == mine && n >= first.cursor()) by {
            assert(second.nodes@.contains_key(n) || n == mine);
        }
        assert forall|l: int, n: int|
            0 <= l < MAX_HEIGHT && #[trigger] first.chains@[l].contains(
                n,
            ) implies third.chains@[l].contains(n) by {
            assert(second.chains@[l].contains(n));
        }
        assert forall|l: int, n: int|
            0 <= l < MAX_HEIGHT && #[trigger] third.chains@[l].contains(
                n,
            ) implies first.chains@[l].contains(n) || n == mine by {
            assert(second.chains@[l].contains(n) || n == mine);
        }
        assert forall|i: int|
            RESERVED <= i < first.cursor() && node::clear_of(
                first.nodes@,
                i,
                1,
            ) implies #[trigger] third.arena.bytes()[i] == first.arena.bytes()[i] by {
            assert forall|n: int| #[trigger] second.nodes@.contains_key(n) implies i + 1 <= n || n
                + node::node_size(second.nodes@[n].height) <= i by {
                if first.nodes@.contains_key(n) {
                    assert(second.nodes@[n].height == first.nodes@[n].height);
                }
            }
            assert(node::clear_of(second.nodes@, i, 1));
            assert(second.arena.bytes()[i] == first.arena.bytes()[i]);
        }
    }

    /// A change that touches no node in progress disturbs nothing in progress.
    pub(super) proof fn lemma_carries_over(before: &SkipList, after: &SkipList, mine: int)
        requires
            before.wf(),
            after.wf(),
            SkipList::evolves(before, after, mine),
            !before.nodes@.contains_key(mine),
            forall|owners: Set<int>| #[trigger] before.tended(owners) ==> after.tended(owners),
        ensures
            SkipList::carries_over(before, after),
    {
        assert forall|scan: Scan| #[trigger] scan.wf(before) implies scan.wf(after) by {
            scan.lemma_lasts(before, after, mine);
        }
        assert forall|read: Lookup| #[trigger] read.wf(before) implies read.wf(after) by {
            read.lemma_lasts(before, after, mine);
        }
        assert forall|write: Put| #[trigger] write.wf(before) implies write.wf(after) by {
            write.lemma_owned(before);
            write.lemma_lasts(before, after, mine);
        }
        assert(!before.holds_node(mine));
    }

    /// Claiming bytes, and writing only to them, keeps the list.
    pub(super) proof fn lemma_grows(before: &SkipList, after: &SkipList)
        requires
            before.wf(),
            SkipList::same_shape(before, after),
            after.arena.wf(),
            after.arena.cap() == before.arena.cap(),
            before.arena.cursor() <= after.arena.cursor(),
            arena::same_bytes(before.arena.bytes(), after.arena.bytes(), 0, before.arena.cursor()),
        ensures
            after.wf(),
            after.entries() == before.entries(),
            SkipList::evolves(before, after, 0),
            forall|l: int, n: int|
                before.nodes@.contains_key(n) && 0 <= l < before.nodes@[n].height
                    ==> #[trigger] after.link(l, n) == before.link(l, n),
    {
        before.arena.lemma_bounds();
        after.arena.lemma_bounds();
        node::lemma_store_grows(
            before.arena.bytes(),
            before.arena.cursor(),
            after.arena.bytes(),
            after.arena.cursor(),
            before.nodes@,
        );
        assert forall|l: int, n: int|
            before.nodes@.contains_key(n) && 0 <= l
                < before.nodes@[n].height implies #[trigger] after.link(l, n) == before.link(
            l,
            n,
        ) by {
            assert(node::link_at(after.arena.bytes(), n, l) == node::link_at(
                before.arena.bytes(),
                n,
                l,
            ));
        }
        assert forall|l: int| 0 <= l < MAX_HEIGHT implies #[trigger] after.chain_ok(l) by {
            assert(before.chain_ok(l));
            SkipList::lemma_chain_in_place(before, after, l);
        }
        assert forall|i: int|
            RESERVED <= i < before.cursor() && node::clear_of(
                before.nodes@,
                i,
                1,
            ) implies #[trigger] after.arena.bytes()[i] == before.arena.bytes()[i] by {
            assert(before.arena.bytes()[i] == after.arena.bytes()[i]);
        }
    }

    /// A level none of whose links changed is still the same chain.
    pub(super) proof fn lemma_chain_in_place(before: &SkipList, after: &SkipList, level: int)
        requires
            0 <= level < MAX_HEIGHT,
            before.chain_ok(level),
            after.head == before.head,
            after.chains@[level] == before.chains@[level],
            forall|n: int| #[trigger]
                before.nodes@.contains_key(n) ==> {
                    &&& after.nodes@.contains_key(n)
                    &&& node::id_of(after.nodes@[n]) == node::id_of(before.nodes@[n])
                    &&& after.nodes@[n].height == before.nodes@[n].height
                },
            forall|n: int|
                before.chains@[level].contains(n) && before.nodes@.contains_key(n) && level
                    < before.nodes@[n].height ==> #[trigger] after.link(level, n) == before.link(
                    level,
                    n,
                ),
        ensures
            after.chain_ok(level),
    {
        reveal(chain::chain_ok);
        let chain = before.chains@[level];
        assert forall|n: int| #[trigger] chain.contains(n) implies {
            &&& after.nodes@.contains_key(n)
            &&& node::id_of(after.nodes@[n]) == node::id_of(before.nodes@[n])
            &&& after.nodes@[n].height == before.nodes@[n].height
            &&& node::link_at(after.arena.bytes(), n, level) == node::link_at(
                before.arena.bytes(),
                n,
                level,
            )
        } by {
            let i = choose|i: int| 0 <= i < chain.len() && chain[i] == n;
            assert(before.nodes@.contains_key(chain[i]) && level < before.nodes@[chain[i]].height);
            assert(after.link(level, n) == before.link(level, n));
        }
        chain::lemma_chain_kept(
            before.arena.bytes(),
            before.nodes@,
            after.arena.bytes(),
            after.nodes@,
            before.head as int,
            chain,
            level,
        );
    }

    /// One attempt to claim room for `data`, by a writer that last saw the cursor
    /// at `seen`; the bytes are copied in where it succeeds.
    pub(super) fn claim_text(&mut self, seen: u32, data: &[u8]) -> (r: Result<Attempt, ArenaFull>)
        requires
            old(self).wf(),
            seen <= old(self).cursor(),
            data@.len() <= u32::MAX,
        ensures
            final(self).wf(),
            SkipList::same_shape(old(self), final(self)),
            SkipList::evolves(old(self), final(self), 0),
            final(self).cap() == old(self).cap(),
            final(self).entries() == old(self).entries(),
            r is Err <==> seen + data@.len() > old(self).cap(),
            r is Ok && seen == old(self).cursor() ==> {
                &&& r == Ok::<Attempt, ArenaFull>(Attempt::Claimed(seen))
                &&& final(self).cursor() == seen + data@.len()
                &&& node::holds(
                    final(self).arena.bytes(),
                    final(self).cursor(),
                    seen as int,
                    data@.len() as int,
                    data@,
                )
                &&& node::clear_of(final(self).nodes@, seen as int, data@.len() as int)
                &&& forall|l: int, n: int|
                    old(self).nodes@.contains_key(n) && 0 <= l < old(self).nodes@[n].height
                        ==> #[trigger] final(self).link(l, n) == old(self).link(l, n)
            },
            r is Ok && seen != old(self).cursor() ==> r == Ok::<Attempt, ArenaFull>(
                Attempt::Moved(old(self).cursor() as u32),
            ),
            !(r is Ok && seen == old(self).cursor()) ==> *final(self) == *old(self),
    {
        proof {
            self.arena.lemma_bounds();
            arena::lemma_align_up_one(seen as int);
            SkipList::lemma_evolves_same(self);
        }
        match self.arena.try_alloc(seen, data.len() as u32, 1) {
            Err(full) => Err(full),
            Ok(Attempt::Moved(actual)) => Ok(Attempt::Moved(actual)),
            Ok(Attempt::Claimed(off)) => {
                self.arena.fill(off, data);
                proof {
                    self.arena.lemma_bounds();
                    SkipList::lemma_grows(old(self), self);
                    assert(self.arena.bytes().subrange(off as int, off + data@.len()) =~= data@);
                    assert forall|n: int| #[trigger] self.nodes@.contains_key(n) implies data@.len()
                        == 0 || off + data@.len() <= n || n + node::node_size(
                        self.nodes@[n].height,
                    ) <= off by {
                        old(self).lemma_node(n);
                    }
                }
                Ok(Attempt::Claimed(off))
            },
        }
    }

    /// One attempt to claim and write a node, by a writer that last saw the cursor
    /// at `seen`. The node is not linked yet.
    pub(super) fn claim_node(
        &mut self,
        seen: u32,
        height: usize,
        version: u64,
        key_off: u32,
        key_len: u32,
        word: u64,
        Ghost(info): Ghost<NodeInfo>,
    ) -> (r: Result<Attempt, ArenaFull>)
        requires
            old(self).wf(),
            seen <= old(self).cursor(),
            1 <= height <= MAX_HEIGHT,
            version <= MAX_VERSION,
            info.height == height,
            info.version == version,
            node::holds(
                old(self).arena.bytes(),
                old(self).cursor(),
                key_off as int,
                key_len as int,
                info.key,
            ),
            node::clear_of(old(self).nodes@, key_off as int, key_len as int),
            node::word_holds(
                old(self).arena.bytes(),
                old(self).cursor(),
                word as int,
                info.value,
            ),
            node::word_clear(old(self).nodes@, word as int),
        ensures
            final(self).wf(),
            r is Err <==> !arena::fits(
                seen as int,
                node::node_size(height as int),
                NODE_ALIGN as int,
                old(self).cap(),
            ),
            r is Ok && seen == old(self).cursor() ==> {
                let n = arena::align_up(seen as int, NODE_ALIGN as int);
                &&& r == Ok::<Attempt, ArenaFull>(Attempt::Claimed(n as u32))
                &&& n == n as u32
                &&& n != NULL
                &&& final(self).cursor() == n + node::node_size(height as int)
                &&& final(self).cap() == old(self).cap()
                &&& !old(self).nodes@.contains_key(n)
                &&& final(self).nodes@ == old(self).nodes@.insert(n, info)
                &&& final(self).head == old(self).head
                &&& final(self).height == old(self).height
                &&& final(self).len == old(self).len
                &&& final(self).seed == old(self).seed
                &&& final(self).chains == old(self).chains
                &&& final(self).counted == old(self).counted
                &&& final(self).entries() == old(self).entries()
                &&& SkipList::evolves(old(self), final(self), n)
                &&& forall|l: int| 0 <= l < MAX_HEIGHT ==> !#[trigger] old(
                    self,
                ).chains@[l].contains(n)
                &&& forall|l: int, m: int|
                    old(self).nodes@.contains_key(m) && 0 <= l < old(self).nodes@[m].height
                        ==> #[trigger] final(self).link(l, m) == old(self).link(l, m)
                &&& node::word_holds(
                    final(self).arena.bytes(),
                    final(self).cursor(),
                    word as int,
                    info.value,
                )
                &&& node::word_clear(final(self).nodes@, word as int)
            },
            r is Ok && seen != old(self).cursor() ==> r == Ok::<Attempt, ArenaFull>(
                Attempt::Moved(old(self).cursor() as u32),
            ),
            !(r is Ok && seen == old(self).cursor()) ==> *final(self) == *old(self),
    {
        let size: u32 = OFF_TOWER + (height as u32) * 4;
        proof {
            self.arena.lemma_bounds();
            arena::lemma_align_up(seen as int, NODE_ALIGN as int);
        }
        match self.arena.try_alloc(seen, size, NODE_ALIGN) {
            Err(full) => Err(full),
            Ok(Attempt::Moved(actual)) => Ok(Attempt::Moved(actual)),
            Ok(Attempt::Claimed(node)) => {
                init_node(&mut self.arena, node, height, version, key_off, key_len, word);
                proof {
                    let n = node as int;
                    let a = old(self).arena.bytes();
                    let b = self.arena.bytes();
                    let c = old(self).cursor();
                    let nodes = old(self).nodes@;
                    self.arena.lemma_bounds();
                    node::lemma_same_text(
                        a,
                        c,
                        b,
                        self.cursor(),
                        key_off as int,
                        key_len as int,
                        info.key,
                    );
                    if let Some(s) = info.value {
                        let off = node::word_off(word as int);
                        let len = node::word_len(word as int);
                        node::lemma_same_text(a, c, b, self.cursor(), off, len, s);
                    }
                    node::lemma_store_adds(a, c, b, self.cursor(), nodes, n, info);
                    self.nodes = Ghost(nodes.insert(n, info));
                    assert(self.nodes@.dom() =~= nodes.dom().insert(n));
                    SkipList::lemma_node_added(old(self), self, n, info);
                    SkipList::lemma_node_evolves(old(self), self, n, info);
                    assert(node::texts_clear(b, self.nodes@, n));
                }
                Ok(Attempt::Claimed(node))
            },
        }
    }

    /// A node was written past the cursor, and nothing else has changed.
    spec fn node_written(before: &SkipList, after: &SkipList, n: int, info: NodeInfo) -> bool {
        &&& after.arena.wf()
        &&& after.arena.cap() == before.arena.cap()
        &&& before.cursor() <= n
        &&& n + node::node_size(info.height) <= after.cursor()
        &&& 1 <= info.height
        &&& info.version <= MAX_VERSION
        &&& arena::same_bytes(before.arena.bytes(), after.arena.bytes(), 0, before.cursor())
        &&& !before.nodes@.contains_key(n)
        &&& after.nodes@ == before.nodes@.insert(n, info)
        &&& after.head == before.head
        &&& after.height == before.height
        &&& after.len == before.len
        &&& after.chains == before.chains
        &&& after.counted == before.counted
        &&& node::store_ok(after.arena.bytes(), after.arena.cursor(), after.nodes@)
        &&& forall|m: int, l: int|
            before.nodes@.contains_key(m) && 0 <= l < before.nodes@[m].height
                ==> #[trigger] node::link_at(after.arena.bytes(), m, l) == node::link_at(
                before.arena.bytes(),
                m,
                l,
            )
    }

    /// A node written past the cursor joins the nodes and changes no chain.
    proof fn lemma_node_added(
        before: &SkipList,
        after: &SkipList,
        n: int,
        info: NodeInfo,
    )
        requires
            before.wf(),
            SkipList::node_written(before, after, n, info),
        ensures
            after.wf(),
            forall|l: int| 0 <= l < MAX_HEIGHT ==> !#[trigger] before.chains@[l].contains(n),
            forall|l: int, m: int|
                before.nodes@.contains_key(m) && 0 <= l < before.nodes@[m].height
                    ==> #[trigger] after.link(l, m) == before.link(l, m),
    {
        before.arena.lemma_bounds();
        after.arena.lemma_bounds();
        assert(after.nodes@.dom() =~= before.nodes@.dom().insert(n));
        assert forall|l: int, m: int|
            before.nodes@.contains_key(m) && 0 <= l
                < before.nodes@[m].height implies #[trigger] after.link(l, m) == before.link(
            l,
            m,
        ) by {
            assert(node::link_at(after.arena.bytes(), m, l) == node::link_at(
                before.arena.bytes(),
                m,
                l,
            ));
        }
        assert forall|l: int| 0 <= l < MAX_HEIGHT implies #[trigger] after.chain_ok(l) by {
            assert(before.chain_ok(l));
            SkipList::lemma_chain_in_place(before, after, l);
        }
        assert forall|l: int| 0 <= l < MAX_HEIGHT implies !#[trigger] before.chains@[l].contains(
            n,
        ) by {
            if before.chains@[l].contains(n) {
                let i = before.lemma_on_level(l, n);
            }
        }
    }

    /// A node written past the cursor changes no entry.
    proof fn lemma_node_evolves(
        before: &SkipList,
        after: &SkipList,
        n: int,
        info: NodeInfo,
    )
        requires
            before.wf(),
            SkipList::node_written(before, after, n, info),
        ensures
            after.entries() == before.entries(),
            SkipList::evolves(before, after, n),
    {
        before.arena.lemma_bounds();
        before.lemma_head(0);
        assert forall|i: int| 0 <= i < before.entries().len() implies #[trigger] before.entries()[i]
            == after.entries()[i] by {
            before.lemma_at(0, i + 1);
        }
        assert(after.entries() =~= before.entries());
        assert forall|i: int|
            RESERVED <= i < before.cursor() && node::clear_of(
                before.nodes@,
                i,
                1,
            ) implies #[trigger] after.arena.bytes()[i] == before.arena.bytes()[i] by {
            assert(before.arena.bytes()[i] == after.arena.bytes()[i]);
        }
    }

    /// One attempt to raise the list's height from `seen` to `height`: the height
    /// that stands afterwards, if another writer was faster.
    pub(super) fn raise_height(&mut self, seen: u32, height: u32) -> (r: Result<(), u32>)
        requires
            old(self).wf(),
            seen <= old(self).height,
            seen < height <= MAX_HEIGHT,
        ensures
            final(self).wf(),
            final(self).arena == old(self).arena,
            final(self).head == old(self).head,
            final(self).len == old(self).len,
            final(self).seed == old(self).seed,
            final(self).nodes == old(self).nodes,
            final(self).chains == old(self).chains,
            final(self).counted == old(self).counted,
            SkipList::evolves(old(self), final(self), 0),
            r is Ok <==> seen == old(self).height,
            r is Ok ==> final(self).height == height,
            r is Err ==> *final(self) == *old(self) && r == Err::<(), u32>(old(self).height),
    {
        if self.height == seen {
            self.height = height;
            proof {
                assert forall|l: int| 0 <= l < MAX_HEIGHT implies #[trigger] self.chain_ok(l) by {
                    assert(old(self).chain_ok(l));
                }
            }
            Ok(())
        } else {
            Err(self.height)
        }
    }

    /// Writing one link keeps every node and every chain but possibly the one at
    /// that level.
    proof fn lemma_relinked(before: &SkipList, after: &SkipList, node: int, level: int)
        requires
            before.wf(),
            after.arena.wf(),
            after.arena.cap() == before.arena.cap(),
            after.arena.cursor() == before.arena.cursor(),
            before.nodes@.contains_key(node),
            0 <= level < before.nodes@[node].height,
            arena::same_bytes(
                before.arena.bytes(),
                after.arena.bytes(),
                0,
                node::slot(node, level),
            ),
            arena::same_bytes(
                before.arena.bytes(),
                after.arena.bytes(),
                node::slot(node, level) + 4,
                before.arena.cap(),
            ),
            after.head == before.head,
            after.nodes == before.nodes,
            forall|l: int|
                0 <= l < MAX_HEIGHT && l != level ==> #[trigger] after.chains@[l]
                    == before.chains@[l],
        ensures
            node::store_ok(after.arena.bytes(), after.arena.cursor(), after.nodes@),
            forall|l: int, n: int|
                before.nodes@.contains_key(n) && 0 <= l < before.nodes@[n].height && !(n == node
                    && l == level) ==> #[trigger] after.link(l, n) == before.link(l, n),
            forall|l: int| 0 <= l < MAX_HEIGHT && l != level ==> #[trigger] after.chain_ok(l),
            forall|i: int|
                RESERVED <= i < before.cursor() && node::clear_of(before.nodes@, i, 1)
                    ==> #[trigger] after.arena.bytes()[i] == before.arena.bytes()[i],
    {
        before.arena.lemma_bounds();
        after.arena.lemma_bounds();
        node::lemma_store_relinks(
            before.arena.bytes(),
            after.arena.bytes(),
            before.arena.cursor(),
            before.nodes@,
            node,
            level,
        );
        assert forall|l: int, n: int|
            before.nodes@.contains_key(n) && 0 <= l < before.nodes@[n].height && !(n == node && l
                == level) implies #[trigger] after.link(l, n) == before.link(l, n) by {
            assert(node::link_at(after.arena.bytes(), n, l) == node::link_at(
                before.arena.bytes(),
                n,
                l,
            ));
        }
        assert forall|l: int| 0 <= l < MAX_HEIGHT && l != level implies #[trigger] after.chain_ok(
            l,
        ) by {
            assert(before.chain_ok(l));
            assert(after.chains@[l] == before.chains@[l]);
            SkipList::lemma_chain_in_place(before, after, l);
        }
        assert forall|i: int|
            RESERVED <= i < before.cursor() && node::clear_of(
                before.nodes@,
                i,
                1,
            ) implies #[trigger] after.arena.bytes()[i] == before.arena.bytes()[i] by {
            before.lemma_node(node);
            assert(before.nodes@.contains_key(node));
            assert(before.arena.bytes()[i] == after.arena.bytes()[i]);
        }
    }

    /// Points the link of a node that is not on `level` yet. No other writer and no
    /// reader sees that link before the node is linked there.
    pub(super) fn aim(&mut self, node: u32, level: usize, next: u32)
        requires
            old(self).wf(),
            level < MAX_HEIGHT,
            old(self).nodes@.contains_key(node as int),
            level < old(self).nodes@[node as int].height,
            !old(self).chains@[level as int].contains(node as int),
        ensures
            final(self).wf(),
            SkipList::same_shape(old(self), final(self)),
            final(self).cursor() == old(self).cursor(),
            final(self).cap() == old(self).cap(),
            final(self).entries() == old(self).entries(),
            SkipList::evolves(old(self), final(self), 0),
            final(self).link(level as int, node as int) == next,
            forall|l: int, n: int|
                old(self).nodes@.contains_key(n) && 0 <= l < old(self).nodes@[n].height && !(n
                    == node && l == level) ==> #[trigger] final(self).link(l, n) == old(self).link(
                    l,
                    n,
                ),
            forall|off: int, len: int, s: Seq<u8>|
                node::clear_of(old(self).nodes@, off, len) && #[trigger] node::holds(
                    old(self).arena.bytes(),
                    old(self).cursor(),
                    off,
                    len,
                    s,
                ) ==> node::holds(final(self).arena.bytes(), final(self).cursor(), off, len, s),
    {
        proof {
            self.lemma_node(node as int);
        }
        self.arena.write_u32(node + OFF_TOWER + (level as u32) * 4, next);
        proof {
            SkipList::lemma_relinked(old(self), self, node as int, level as int);
            assert(old(self).chain_ok(level as int));
            SkipList::lemma_chain_in_place(old(self), self, level as int);
            assert(self.chain_ok(level as int));
            SkipList::lemma_texts_kept(old(self), self);
        }
    }

    /// Bytes that overlap no node still hold what they held.
    pub(super) proof fn lemma_texts_kept(before: &SkipList, after: &SkipList)
        requires
            before.arena.wf(),
            after.arena.wf(),
            after.cap() == before.cap(),
            before.cursor() <= after.cursor(),
            forall|i: int|
                RESERVED <= i < before.cursor() && node::clear_of(before.nodes@, i, 1)
                    ==> #[trigger] after.arena.bytes()[i] == before.arena.bytes()[i],
        ensures
            forall|off: int, len: int, s: Seq<u8>|
                node::clear_of(before.nodes@, off, len) && #[trigger] node::holds(
                    before.arena.bytes(),
                    before.cursor(),
                    off,
                    len,
                    s,
                ) ==> node::holds(after.arena.bytes(), after.cursor(), off, len, s),
    {
        before.arena.lemma_bounds();
        after.arena.lemma_bounds();
        assert forall|off: int, len: int, s: Seq<u8>|
            node::clear_of(before.nodes@, off, len) && #[trigger] node::holds(
                before.arena.bytes(),
                before.cursor(),
                off,
                len,
                s,
            ) implies node::holds(after.arena.bytes(), after.cursor(), off, len, s) by {
            if len > 0 {
                assert forall|i: int| off <= i < off + len implies #[trigger] before.arena.bytes()[i]
                    == after.arena.bytes()[i] by {
                    assert(node::clear_of(before.nodes@, i, 1));
                }
                node::lemma_same_text(
                    before.arena.bytes(),
                    before.cursor(),
                    after.arena.bytes(),
                    after.cursor(),
                    off,
                    len,
                    s,
                );
            }
        }
    }

    /// One attempt to link `node` in after `prev` on `level`: it succeeds only if
    /// `prev` still leads to `next`, to which `node` already points.
    pub(super) fn link_after(&mut self, prev: u32, level: usize, next: u32, node: u32) -> (linked:
        bool)
        requires
            old(self).wf(),
            level < old(self).height,
            old(self).nodes@.contains_key(node as int),
            node != old(self).head,
            level < old(self).nodes@[node as int].height,
            old(self).link(level as int, node as int) == next,
            forall|l: int|
                0 <= l < level ==> #[trigger] old(self).chains@[l].contains(node as int),
            forall|l: int|
                level <= l < MAX_HEIGHT ==> !#[trigger] old(self).chains@[l].contains(node as int),
            old(self).stands_before(
                level as int,
                prev as int,
                node::id_of(old(self).nodes@[node as int]),
            ),
            next != NULL ==> order::before(
                node::id_of(old(self).nodes@[node as int]),
                node::id_of(old(self).nodes@[next as int]),
            ),
        ensures
            final(self).wf(),
            linked <==> old(self).link(level as int, prev as int) == next,
            !linked ==> *final(self) == *old(self),
            linked ==> {
                let info = old(self).nodes@[node as int];
                &&& SkipList::evolves(old(self), final(self), node as int)
                &&& final(self).head == old(self).head
                &&& final(self).height == old(self).height
                &&& final(self).len == old(self).len
                &&& final(self).seed == old(self).seed
                &&& final(self).nodes == old(self).nodes
                &&& final(self).counted == old(self).counted
                &&& final(self).cap() == old(self).cap()
                &&& final(self).cursor() == old(self).cursor()
                &&& final(self).chains@[level as int].contains(node as int)
                &&& forall|l: int|
                    0 <= l < MAX_HEIGHT && l != level ==> #[trigger] final(self).chains@[l] == old(
                        self,
                    ).chains@[l]
                &&& forall|l: int, n: int|
                    old(self).nodes@.contains_key(n) && 0 <= l < old(self).nodes@[n].height && !(n
                        == prev && l == level) ==> #[trigger] final(self).link(l, n) == old(
                        self,
                    ).link(l, n)
                &&& level == 0 ==> {
                    &&& !old(self)@.contains_key(node::id_of(info))
                    &&& final(self)@ == old(self)@.insert(node::id_of(info), info.value)
                    &&& final(self).entries().len() == old(self).entries().len() + 1
                }
                &&& level > 0 ==> final(self).entries() == old(self).entries()
            },
    {
        proof {
            let i = self.lemma_on_level(level as int, prev as int);
            self.lemma_node(prev as int);
        }
        if self.tower(prev, level) != next {
            return false;
        }
        let ghost i = self.lemma_on_level(level as int, prev as int);
        let ghost chain = self.chains@[level as int].insert(i + 1, node as int);
        self.arena.write_u32(prev + OFF_TOWER + (level as u32) * 4, node);
        self.chains = Ghost(self.chains@.update(level as int, chain));
        proof {
            SkipList::lemma_relinked(old(self), self, prev as int, level as int);
            if i + 1 < old(self).chains@[level as int].len() {
                old(self).lemma_at(level as int, i + 1);
            }
            SkipList::lemma_linked(old(self), self, i, level as int, node as int);
        }
        true
    }

    /// A node linked in where it belongs makes its level one longer.
    proof fn lemma_linked(before: &SkipList, after: &SkipList, i: int, level: int, node: int)
        requires
            before.wf(),
            0 <= level < before.height,
            0 <= i < before.chains@[level].len(),
            before.nodes@.contains_key(node),
            node != before.head,
            level < before.nodes@[node].height,
            forall|l: int| 0 <= l < level ==> #[trigger] before.chains@[l].contains(node),
            forall|l: int| level <= l < MAX_HEIGHT ==> !#[trigger] before.chains@[l].contains(node),
            i > 0 ==> order::before(
                node::id_of(before.nodes@[before.chains@[level][i]]),
                node::id_of(before.nodes@[node]),
            ),
            before.link(level, node) == chain::follower(before.chains@[level], i),
            i + 1 < before.chains@[level].len() ==> order::before(
                node::id_of(before.nodes@[node]),
                node::id_of(before.nodes@[before.chains@[level][i + 1]]),
            ),
            after.arena.wf(),
            after.arena.cap() == before.arena.cap(),
            after.arena.cursor() == before.arena.cursor(),
            after.head == before.head,
            after.height == before.height,
            after.len == before.len,
            after.nodes == before.nodes,
            after.counted == before.counted,
            after.chains@ == before.chains@.update(
                level,
                before.chains@[level].insert(i + 1, node),
            ),
            node::store_ok(after.arena.bytes(), after.arena.cursor(), after.nodes@),
            after.link(level, before.chains@[level][i]) == node,
            forall|l: int, n: int|
                before.nodes@.contains_key(n) && 0 <= l < before.nodes@[n].height && !(n
                    == before.chains@[level][i] && l == level) ==> #[trigger] after.link(l, n)
                    == before.link(l, n),
            forall|l: int| 0 <= l < MAX_HEIGHT && l != level ==> #[trigger] after.chain_ok(l),
            forall|k: int|
                RESERVED <= k < before.cursor() && node::clear_of(before.nodes@, k, 1)
                    ==> #[trigger] after.arena.bytes()[k] == before.arena.bytes()[k],
        ensures
            after.wf(),
            SkipList::evolves(before, after, node),
            after.chains@[level].contains(node),
            level == 0 ==> {
                &&& !before@.contains_key(node::id_of(before.nodes@[node]))
                &&& after@ == before@.insert(
                    node::id_of(before.nodes@[node]),
                    before.nodes@[node].value,
                )
                &&& after.entries().len() == before.entries().len() + 1
            },
            level > 0 ==> after.entries() == before.entries(),
    {
        let chain = before.chains@[level];
        let longer = chain.insert(i + 1, node);
        assert(before.chain_ok(level));
        chain::lemma_chain_members(chain, i + 1, node);
        assert forall|n: int| #[trigger] chain.contains(n) && n != chain[i] implies node::link_at(
            after.arena.bytes(),
            n,
            level,
        ) == node::link_at(before.arena.bytes(), n, level) by {
            let k = before.lemma_on_level(level, n);
            assert(after.link(level, n) == before.link(level, n));
        }
        assert(chain.contains(chain[i]));
        assert(after.link(level, node) == before.link(level, node));
        chain::lemma_chain_linked(
            before.arena.bytes(),
            after.arena.bytes(),
            before.nodes@,
            before.head as int,
            chain,
            level,
            i,
            node,
        );
        assert(after.chains@[level] == longer);
        assert(after.chain_ok(level));
        assert forall|l: int| 0 <= l < MAX_HEIGHT implies #[trigger] after.chain_ok(l) by {}
        assert forall|a: int, b: int, n: int|
            #![trigger after.chains@[a].contains(n), after.chains@[b].contains(n)]
            0 <= a <= b < MAX_HEIGHT && after.chains@[b].contains(
                n,
            ) implies after.chains@[a].contains(n) by {
            if b == level && n == node {
                if a < level {
                    assert(before.chains@[a].contains(node));
                }
            } else {
                assert(before.chains@[b].contains(n));
                assert(before.chains@[a].contains(n));
            }
        }
        assert(after.wf());
        if level == 0 {
            before.lemma_entries();
            let info = before.nodes@[node];
            let item = chain::Item { key: info.key, version: info.version, value: info.value };
            assert(after.entries() =~= before.entries().insert(i, item));
            chain::lemma_model_inserts(before.entries(), i, item);
        }
    }

    /// Gives a linked node another value: one store to its value word.
    pub(super) fn store_value(&mut self, node: u32, word: u64, Ghost(value): Ghost<Option<Seq<u8>>>)
        requires
            old(self).wf(),
            old(self).chains@[0].contains(node as int),
            node != old(self).head,
            node::word_holds(old(self).arena.bytes(), old(self).cursor(), word as int, value),
            node::word_clear(old(self).nodes@, word as int),
        ensures
            final(self).wf(),
            SkipList::evolves(old(self), final(self), 0),
            final(self).cap() == old(self).cap(),
            final(self).cursor() == old(self).cursor(),
            final(self).head == old(self).head,
            final(self).height == old(self).height,
            final(self).len == old(self).len,
            final(self).seed == old(self).seed,
            final(self).chains == old(self).chains,
            final(self).counted == old(self).counted,
            old(self)@.contains_key(node::id_of(old(self).nodes@[node as int])),
            final(self)@ == old(self)@.insert(
                node::id_of(old(self).nodes@[node as int]),
                value,
            ),
            final(self).entries().len() == old(self).entries().len(),
    {
        let ghost i = self.lemma_on_level(0, node as int);
        proof {
            self.lemma_node(node as int);
        }
        self.arena.write_u64(node + OFF_VALUE, word);
        self.nodes = Ghost(node::with_value(self.nodes@, node as int, value));
        proof {
            let n = node as int;
            self.arena.lemma_bounds();
            node::lemma_store_revalues(
                old(self).arena.bytes(),
                self.arena.bytes(),
                self.cursor(),
                old(self).nodes@,
                n,
                value,
            );
            SkipList::lemma_revalued(old(self), self, i, n, value);
        }
    }

    /// Another value at a linked node is another value of that entry.
    proof fn lemma_revalued(
        before: &SkipList,
        after: &SkipList,
        i: int,
        node: int,
        value: Option<Seq<u8>>,
    )
        requires
            before.wf(),
            0 < i < before.chains@[0].len(),
            before.chains@[0][i] == node,
            after.arena.wf(),
            after.arena.cap() == before.arena.cap(),
            after.arena.cursor() == before.arena.cursor(),
            arena::same_bytes(before.arena.bytes(), after.arena.bytes(), 0, node + OFF_VALUE),
            arena::same_bytes(
                before.arena.bytes(),
                after.arena.bytes(),
                node + OFF_VALUE + 8,
                before.arena.cap(),
            ),
            node::store_ok(after.arena.bytes(), after.arena.cursor(), after.nodes@),
            forall|n: int, l: int|
                before.nodes@.contains_key(n) && 0 <= l < before.nodes@[n].height
                    ==> #[trigger] node::link_at(after.arena.bytes(), n, l) == node::link_at(
                    before.arena.bytes(),
                    n,
                    l,
                ),
            after.head == before.head,
            after.height == before.height,
            after.len == before.len,
            after.chains == before.chains,
            after.counted == before.counted,
            after.nodes@ == node::with_value(before.nodes@, node, value),
        ensures
            after.wf(),
            SkipList::evolves(before, after, 0),
            before@.contains_key(node::id_of(before.nodes@[node])),
            after@ == before@.insert(node::id_of(before.nodes@[node]), value),
            after.entries().len() == before.entries().len(),
    {
        before.arena.lemma_bounds();
        before.lemma_at(0, i);
        before.lemma_entries();
        assert(after.nodes@.dom() =~= before.nodes@.dom());
        assert forall|n: int| #[trigger] before.nodes@.contains_key(n) implies {
            &&& after.nodes@.contains_key(n)
            &&& node::id_of(after.nodes@[n]) == node::id_of(before.nodes@[n])
            &&& after.nodes@[n].height == before.nodes@[n].height
        } by {}
        assert forall|l: int| 0 <= l < MAX_HEIGHT implies #[trigger] after.chain_ok(l) by {
            assert(before.chain_ok(l));
            assert forall|n: int|
                before.chains@[l].contains(n) && before.nodes@.contains_key(n) && l
                    < before.nodes@[n].height implies #[trigger] after.link(l, n) == before.link(
                l,
                n,
            ) by {
                assert(node::link_at(after.arena.bytes(), n, l) == node::link_at(
                    before.arena.bytes(),
                    n,
                    l,
                ));
            }
            SkipList::lemma_chain_in_place(before, after, l);
        }
        assert(after.wf());
        assert forall|k: int|
            RESERVED <= k < before.cursor() && node::clear_of(
                before.nodes@,
                k,
                1,
            ) implies #[trigger] after.arena.bytes()[k] == before.arena.bytes()[k] by {
            before.lemma_node(node);
            assert(before.nodes@.contains_key(node));
            assert(before.arena.bytes()[k] == after.arena.bytes()[k]);
        }
        assert(before.chain_ok(0));
        let items = before.entries();
        let item = chain::Item { value, ..items[i - 1] };
        assert forall|k: int| 0 <= k < items.len() && k != i - 1 implies #[trigger] items[k]
            == after.entries()[k] by {
            before.lemma_at(0, k + 1);
            chain::lemma_chain_apart(
                before.arena.bytes(),
                before.nodes@,
                before.head as int,
                before.chains@[0],
                0,
                k + 1,
                i,
            );
        }
        assert(after.entries() =~= items.update(i - 1, item));
        chain::lemma_model_updates(items, i - 1, value);
    }

    /// Counts a linked node.
    pub(super) fn count_node(&mut self, Ghost(node): Ghost<int>)
        requires
            old(self).wf(),
            old(self).chains@[0].contains(node),
            node != old(self).head,
            !old(self).counted@.contains(node),
        ensures
            final(self).wf(),
            SkipList::evolves(old(self), final(self), node),
            final(self).arena == old(self).arena,
            final(self).head == old(self).head,
            final(self).height == old(self).height,
            final(self).len == old(self).len + 1,
            final(self).seed == old(self).seed,
            final(self).nodes == old(self).nodes,
            final(self).chains == old(self).chains,
            final(self).counted@ == old(self).counted@.insert(node),
    {
        proof {
            self.arena.lemma_bounds();
            let more = self.counted@.insert(node);
            assert forall|n: int| #[trigger] more.contains(n) implies self.nodes@.dom().contains(
                n,
            ) by {
                let i = self.lemma_on_level(0, n);
            }
            vstd::set_lib::lemma_len_subset(more, self.nodes@.dom());
        }
        self.len = self.len + 1;
        self.counted = Ghost(self.counted@.insert(node));
        proof {
            assert forall|l: int| 0 <= l < MAX_HEIGHT implies #[trigger] self.chain_ok(l) by {
                assert(old(self).chain_ok(l));
            }
        }
    }
}

} // verus!
