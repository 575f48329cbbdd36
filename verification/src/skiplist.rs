//! Arena-backed MVCC skip list: an ordered map from (key, version) to value.
//! Entries stand in key order, the versions of one key newest first.

use crate::arena;
use crate::arena::{Arena, ArenaFull, NULL, RESERVED};
use crate::chain;
use crate::chain::Item;
use crate::node;
pub use crate::node::MAX_HEIGHT;
use crate::node::{
    alloc_node, decode_value, encode_value, NodeInfo, MIN_NODE_SIZE, NODE_ALIGN, OFF_KEY_LEN,
    OFF_KEY_OFF, OFF_TOWER, OFF_VALUE, OFF_VERSION, TOMBSTONE,
};
use crate::order;
use crate::order::{compare_entries, Id, Position};
use crate::skiplist::lookup::Lookup;
use crate::skiplist::put::Put;
use vstd::prelude::*;

pub mod laws;
pub mod lookup;
pub mod put;
mod shared;

verus! {

/// The largest version that an entry can have.
pub const MAX_VERSION: u64 = 0xff_ffff_ffff_ffff;

/// Where the height draws start.
pub const FIRST_SEED: u64 = 0x2545_F491_4F6C_DD1D;

/// What the seed advances by with each height drawn.
pub const SEED_STEP: u64 = 0x9E37_79B9_7F4A_7C15;

/// Why a write was refused.
#[derive(Debug, Clone, Copy, PartialEq, Eq, Structural)]
pub enum Error {
    /// The arena is full. The caller freezes this list and retries on a new one.
    Full,
    /// Keys and values are length-prefixed with u32.
    TooLarge,
}

impl From<ArenaFull> for Error {
    fn from(full: ArenaFull) -> (e: Self) {
        Error::Full
    }
}

impl vstd::std_specs::convert::FromSpecImpl<ArenaFull> for Error {
    open spec fn obeys_from_spec() -> bool {
        true
    }

    open spec fn from_spec(full: ArenaFull) -> Self {
        Error::Full
    }
}

/// One entry as a read hands it out.
#[derive(Debug, Clone, Copy)]
pub struct Entry<'a> {
    pub key: &'a [u8],
    pub version: u64,
    /// `None` is a tombstone, which is distinct from the key being absent: a read
    /// path over several lists must stop descending when it sees one.
    pub value: Option<&'a [u8]>,
}

/// The bytes behind an optional value.
pub open spec fn value_view(value: Option<&[u8]>) -> Option<Seq<u8>> {
    match value {
        None => None,
        Some(v) => Some(v@),
    }
}

impl<'a> Entry<'a> {
    /// The item that this entry stands for.
    pub open spec fn item(&self) -> Item {
        Item { key: self.key@, version: self.version, value: value_view(self.value) }
    }
}

/// A value is the bytes handed over, all of them; no value is a tombstone, and an empty
/// one is not.
pub proof fn law_a_value_is_its_bytes(value: Option<&[u8]>)
    ensures
        value_view(value) is None <==> value is None,
        value matches Some(bytes) ==> value_view(value) == Some(bytes@),
{
}

/// An entry stands for its own key, version and value.
pub proof fn law_an_entry_stands_for_itself(e: Entry)
    ensures
        e.item().key == e.key@,
        e.item().version == e.version,
        e.item().value is None <==> e.value is None,
        e.value matches Some(bytes) ==> e.item().value == Some(bytes@),
{
}

/// The scrambled seed that a height is read off.
pub open spec fn mix(seed: u64) -> u64 {
    let a = seed ^ (seed >> 30u64);
    let b = a.wrapping_mul(0xBF58_476D_1CE4_E5B9u64);
    let c = b ^ (b >> 27u64);
    let d = c.wrapping_mul(0x94D0_49BB_1331_11EBu64);
    d ^ (d >> 31u64)
}

/// How many of the low base-4 digits of `x` are zero, at most `room`.
pub open spec fn low_zero_digits(x: u64, room: nat) -> nat
    decreases room,
{
    if room == 0 || x % 4 != 0 {
        0
    } else {
        1 + low_zero_digits((x / 4) as u64, (room - 1) as nat)
    }
}

/// The height drawn from a seed: one, and one more for each low base-4 digit of
/// the scrambled seed that is zero.
pub open spec fn drawn_height(seed: u64) -> int {
    1 + low_zero_digits(mix(seed), (MAX_HEIGHT - 1) as nat) as int
}

/// A drawn height is a height that a node can have.
pub proof fn law_drawn_heights_are_in_range(seed: u64)
    ensures
        1 <= drawn_height(seed) <= MAX_HEIGHT,
{
    lemma_low_zero_digits_bound(mix(seed), (MAX_HEIGHT - 1) as nat);
}

proof fn lemma_low_zero_digits_bound(x: u64, room: nat)
    ensures
        low_zero_digits(x, room) <= room,
    decreases room,
{
    if room > 0 && x % 4 == 0 {
        lemma_low_zero_digits_bound((x / 4) as u64, (room - 1) as nat);
    }
}

/// A height is above `k` exactly if the lowest `k` base-4 digits of the scrambled
/// seed are zero: of all scrambled seeds one in four rises each further level.
pub proof fn law_one_scrambled_seed_in_four_rises(seed: u64, k: nat)
    requires
        k < MAX_HEIGHT,
    ensures
        drawn_height(seed) > k <==> mix(seed) as int % vstd::arithmetic::power::pow(4, k) == 0,
{
    lemma_low_zero_digits(mix(seed), (MAX_HEIGHT - 1) as nat, k);
}

proof fn lemma_low_zero_digits(x: u64, room: nat, k: nat)
    requires
        k <= room,
    ensures
        low_zero_digits(x, room) >= k <==> x as int % vstd::arithmetic::power::pow(4, k) == 0,
    decreases k,
{
    vstd::arithmetic::power::lemma_pow0(4);
    if k > 0 {
        let p = vstd::arithmetic::power::pow(4, (k - 1) as nat);
        vstd::arithmetic::power::lemma_pow_positive(4, (k - 1) as nat);
        vstd::arithmetic::power::lemma_pow_adds(4, 1, (k - 1) as nat);
        vstd::arithmetic::power::lemma_pow1(4);
        vstd::arithmetic::div_mod::lemma_mod_breakdown(x as int, 4, p);
        lemma_low_zero_digits((x / 4) as u64, (room - 1) as nat, (k - 1) as nat);
    }
}

/// No two seeds are scrambled to the same value, so what holds of one scrambled seed
/// in four holds of one seed in four.
pub proof fn law_scrambling_is_one_to_one(a: u64, b: u64)
    requires
        mix(a) == mix(b),
    ensures
        a == b,
{
    let a1 = a ^ (a >> 30u64);
    let a2 = a1.wrapping_mul(0xBF58_476D_1CE4_E5B9u64);
    let a3 = a2 ^ (a2 >> 27u64);
    let a4 = a3.wrapping_mul(0x94D0_49BB_1331_11EBu64);
    let b1 = b ^ (b >> 30u64);
    let b2 = b1.wrapping_mul(0xBF58_476D_1CE4_E5B9u64);
    let b3 = b2 ^ (b2 >> 27u64);
    let b4 = b3.wrapping_mul(0x94D0_49BB_1331_11EBu64);
    assert(a4 ^ (a4 >> 31u64) == b4 ^ (b4 >> 31u64) ==> a4 == b4) by (bit_vector);
    lemma_multiplied_apart(a3, b3, 0x94D0_49BB_1331_11EB, 0x3196_42B2_D24D_8EC3);
    assert(a2 ^ (a2 >> 27u64) == b2 ^ (b2 >> 27u64) ==> a2 == b2) by (bit_vector);
    lemma_multiplied_apart(a1, b1, 0xBF58_476D_1CE4_E5B9, 0x96DE_1B17_3F11_9089);
    assert(a ^ (a >> 30u64) == b ^ (b >> 30u64) ==> a == b) by (bit_vector);
}

/// The seed can be had back from its scrambled value.
pub proof fn law_scrambling_can_be_undone(seed: u64)
    ensures
        ({
            let e = mix(seed);
            let d = e ^ (e >> 31u64) ^ (e >> 62u64);
            let c = d.wrapping_mul(0x3196_42B2_D24D_8EC3u64);
            let b = c ^ (c >> 27u64) ^ (c >> 54u64);
            let a = b.wrapping_mul(0x96DE_1B17_3F11_9089u64);
            seed == a ^ (a >> 30u64) ^ (a >> 60u64)
        }),
{
    let a = seed ^ (seed >> 30u64);
    let b = a.wrapping_mul(0xBF58_476D_1CE4_E5B9u64);
    let c = b ^ (b >> 27u64);
    let d = c.wrapping_mul(0x94D0_49BB_1331_11EBu64);
    let e = d ^ (d >> 31u64);
    assert((d ^ (d >> 31u64)) ^ ((d ^ (d >> 31u64)) >> 31u64) ^ ((d ^ (d >> 31u64)) >> 62u64)
        == d) by (bit_vector);
    lemma_multiplied_back(c, 0x94D0_49BB_1331_11EB, 0x3196_42B2_D24D_8EC3);
    assert(d.wrapping_mul(0x3196_42B2_D24D_8EC3u64) == c);
    assert((b ^ (b >> 27u64)) ^ ((b ^ (b >> 27u64)) >> 27u64) ^ ((b ^ (b >> 27u64)) >> 54u64)
        == b) by (bit_vector);
    lemma_multiplied_back(a, 0xBF58_476D_1CE4_E5B9, 0x96DE_1B17_3F11_9089);
    assert(b.wrapping_mul(0x96DE_1B17_3F11_9089u64) == a);
    assert((seed ^ (seed >> 30u64)) ^ ((seed ^ (seed >> 30u64)) >> 30u64) ^ ((seed ^ (seed
        >> 30u64)) >> 60u64) == seed) by (bit_vector);
}

/// Multiplying by a number that has an inverse keeps different numbers apart.
proof fn lemma_multiplied_apart(a: u64, b: u64, by: u64, inverse: u64)
    requires
        (by * inverse) % 0x1_0000_0000_0000_0000 == 1,
        a.wrapping_mul(by) == b.wrapping_mul(by),
    ensures
        a == b,
{
    lemma_multiplied_back(a, by, inverse);
    lemma_multiplied_back(b, by, inverse);
}

proof fn lemma_multiplied_back(x: u64, by: u64, inverse: u64)
    requires
        (by * inverse) % 0x1_0000_0000_0000_0000 == 1,
    ensures
        (x.wrapping_mul(by) * inverse) % 0x1_0000_0000_0000_0000 == x,
{
    let m: int = 0x1_0000_0000_0000_0000;
    assert(x.wrapping_mul(by) == (x * by) % m);
    vstd::arithmetic::div_mod::lemma_mul_mod_noop_left(x * by, inverse as int, m);
    vstd::arithmetic::mul::lemma_mul_is_associative(x as int, by as int, inverse as int);
    vstd::arithmetic::div_mod::lemma_mul_mod_noop_right(x as int, by * inverse, m);
}

/// The greater of two numbers.
pub open spec fn higher(a: int, b: int) -> int {
    if a >= b {
        a
    } else {
        b
    }
}

/// What a write of `value` at `id` to the list `before` comes to when no other
/// write is under way: the result, and the list afterwards.
///
/// A key or a value too long for its length field is refused and changes nothing.
/// Where the entry exists only its value changes, and only the value's bytes are
/// claimed. Otherwise the key, the value and a node of the height drawn are
/// claimed in turn; where one of them does not fit the arena is full, and what
/// was claimed before it stays claimed.
pub open spec fn put_did(
    before: &SkipList,
    id: Id,
    value: Option<Seq<u8>>,
    r: Result<(), Error>,
    after: &SkipList,
) -> bool {
    let exists_already = before@.contains_key(id);
    let key_end = before.cursor() + id.0.len();
    let value_end = key_end + put::text_len(value);
    let new_value_end = before.cursor() + put::text_len(value);
    let height = drawn_height(before.seed());
    let node_end = arena::align_up(value_end, NODE_ALIGN as int) + node::node_size(height);
    &&& after.cap() == before.cap()
    &&& r is Ok ==> after@ == before@.insert(id, value)
    &&& r is Err ==> after.entries() == before.entries()
    &&& if put::too_large(id.0, value) {
        r == Err::<(), Error>(Error::TooLarge) && *after == *before
    } else if exists_already {
        &&& r == (if new_value_end <= before.cap() {
            Ok::<(), Error>(())
        } else {
            Err(Error::Full)
        })
        &&& after.cursor() == (if r is Ok {
            new_value_end
        } else {
            before.cursor()
        })
        &&& after.entries().len() == before.entries().len()
        &&& after.count() == before.count()
        &&& after.seed() == before.seed()
        &&& after.tallest() == before.tallest()
    } else {
        &&& r == (if key_end <= before.cap() && value_end <= before.cap() && node_end
            <= before.cap() {
            Ok::<(), Error>(())
        } else {
            Err(Error::Full)
        })
        &&& after.cursor() == (if key_end > before.cap() {
            before.cursor()
        } else if value_end > before.cap() {
            key_end
        } else if node_end > before.cap() {
            value_end
        } else {
            node_end
        })
        &&& after.seed() == (if value_end > before.cap() {
            before.seed()
        } else {
            before.seed().wrapping_add(SEED_STEP)
        })
        &&& after.tallest() == (if r is Ok {
            higher(before.tallest(), height)
        } else {
            before.tallest()
        })
        &&& after.count() == before.count() + (if r is Ok {
            1int
        } else {
            0
        })
        &&& after.entries().len() == before.entries().len() + (if r is Ok {
            1int
        } else {
            0
        })
    }
}

/// What one look to the right of a node found.
enum Probe {
    /// The next node comes before the target.
    Right(u32),
    /// The next node is the target.
    Hit(u32),
    /// The target belongs between the node and this next one, or at the end.
    Gap(u32),
}

/// The list.
pub struct SkipList {
    arena: Arena,
    head: u32,
    /// The highest tower in use. Lets a read skip the empty upper levels.
    height: u32,
    len: u32,
    /// State of the height draws.
    seed: u64,
    /// Every node written, linked or not.
    nodes: Ghost<Map<int, NodeInfo>>,
    /// For each level the nodes along it, the head first.
    chains: Ghost<Seq<Seq<int>>>,
    /// The nodes that `len` has counted.
    counted: Ghost<Set<int>>,
}

impl SkipList {
    /// The size of the arena.
    pub closed spec fn cap(&self) -> int {
        self.arena.cap()
    }

    /// Arena bytes claimed so far.
    pub closed spec fn cursor(&self) -> int {
        self.arena.cursor()
    }

    /// The seed of the next height draw.
    pub closed spec fn seed(&self) -> u64 {
        self.seed
    }

    /// The highest tower in use.
    pub closed spec fn tallest(&self) -> int {
        self.height as int
    }

    /// The number of entries counted.
    pub closed spec fn count(&self) -> int {
        self.len as int
    }

    /// The entries, in order.
    pub closed spec fn entries(&self) -> Seq<Item> {
        chain::items_of(self.nodes@, self.chains@[0])
    }

    /// Every entry but those of the nodes in `owners` has been counted, and its node
    /// is linked at all levels that it reaches.
    pub closed spec fn tended(&self, owners: Set<int>) -> bool {
        forall|n: int| #[trigger]
            self.chains@[0].contains(n) && n != self.head && !owners.contains(n) ==> {
                &&& self.counted@.contains(n)
                &&& self.fully_linked(n)
            }
    }

    /// `n` is linked at all levels that it reaches.
    spec fn fully_linked(&self, n: int) -> bool {
        forall|l: int|
            0 <= l < self.nodes@[n].height ==> #[trigger] self.chains@[l].contains(n)
    }

    /// No write is under way: every entry has been counted, and its node is linked
    /// at all levels that it reaches.
    pub closed spec fn settled(&self) -> bool {
        self.tended(Set::empty())
    }

    /// The cursor stays within the arena.
    pub proof fn lemma_cursor(&self)
        requires
            self.wf(),
        ensures
            RESERVED <= self.cursor() <= self.cap() <= u32::MAX,
    {
        self.arena.lemma_bounds();
    }

    /// A list with no write under way has counted all its entries.
    pub proof fn lemma_settled(&self)
        requires
            self.wf(),
            self.settled(),
        ensures
            self.count() == self.entries().len(),
    {
        let chain = self.chains@[0];
        let tail = chain.skip(1);
        self.lemma_entries();
        assert(self.chain_ok(0));
        assert forall|i: int, j: int| 0 <= i < j < tail.len() implies tail[i] != tail[j] by {
            chain::lemma_chain_apart(
                self.arena.bytes(),
                self.nodes@,
                self.head as int,
                chain,
                0,
                i + 1,
                j + 1,
            );
        }
        tail.unique_seq_to_set();
        assert forall|n: int| #[trigger] tail.to_set().contains(n) <==> self.counted@.contains(
            n,
        ) by {
            if tail.to_set().contains(n) {
                let i = choose|i: int| 0 <= i < tail.len() && tail[i] == n;
                self.lemma_at(0, i + 1);
            }
            if self.counted@.contains(n) {
                let i = self.lemma_on_level(0, n);
                assert(tail[i - 1] == n);
            }
        }
        assert(tail.to_set() =~= self.counted@);
    }

    spec fn chain_ok(&self, level: int) -> bool {
        chain::chain_ok(
            self.arena.bytes(),
            self.nodes@,
            self.head as int,
            self.chains@[level],
            level,
        )
    }

    /// The nodes lie in the arena as their layout says; each level is an ordered
    /// chain of links from the head; every node on a level is on all levels below;
    /// and nothing is linked at or above the list's height.
    pub closed spec fn wf(&self) -> bool {
        &&& self.arena.wf()
        &&& node::store_ok(self.arena.bytes(), self.arena.cursor(), self.nodes@)
        &&& self.nodes@.dom().finite()
        &&& MIN_NODE_SIZE * self.nodes@.dom().len() <= self.arena.cursor()
        &&& self.nodes@.contains_key(self.head as int)
        &&& self.nodes@[self.head as int].height == MAX_HEIGHT
        &&& self.chains@.len() == MAX_HEIGHT
        &&& forall|l: int| 0 <= l < MAX_HEIGHT ==> #[trigger] self.chain_ok(l)
        &&& forall|a: int, b: int, n: int|
            #![trigger self.chains@[a].contains(n), self.chains@[b].contains(n)]
            0 <= a <= b < MAX_HEIGHT && self.chains@[b].contains(n) ==> self.chains@[a].contains(n)
        &&& 1 <= self.height <= MAX_HEIGHT
        &&& forall|l: int| self.height <= l < MAX_HEIGHT ==> (#[trigger] self.chains@[l]).len() == 1
        &&& forall|n: int| #[trigger]
            self.nodes@.contains_key(n) ==> self.nodes@[n].version <= MAX_VERSION
        &&& self.counted@.finite()
        &&& self.len == self.counted@.len()
        &&& forall|n: int| #[trigger]
            self.counted@.contains(n) ==> self.chains@[0].contains(n) && n != self.head
    }

    /// `n` is on `level` and comes before the target.
    spec fn stands_before(&self, level: int, n: int, target: Id) -> bool {
        &&& 0 <= level < MAX_HEIGHT
        &&& self.chains@[level].contains(n)
        &&& n == self.head || order::before(node::id_of(self.nodes@[n]), target)
    }

    /// The link of `n` at `level`.
    spec fn link(&self, level: int, n: int) -> int {
        node::link_at(self.arena.bytes(), n, level)
    }

    /// An empty list in an arena of `capacity` bytes.
    pub fn new(capacity: u32) -> (r: Result<Self, Error>)
        requires
            capacity > RESERVED,
        ensures
            r is Ok <==> arena::fits(
                RESERVED as int,
                node::node_size(MAX_HEIGHT as int),
                NODE_ALIGN as int,
                capacity as int,
            ),
            r is Ok <==> capacity >= 112,
            r is Err ==> r == Err::<Self, Error>(Error::Full),
            r matches Ok(list) ==> {
                &&& list.wf()
                &&& list.settled()
                &&& list@ == Map::<Id, Option<Seq<u8>>>::empty()
                &&& list.entries() == Seq::<Item>::empty()
                &&& list.cap() == capacity
                &&& list.cursor() == RESERVED + node::node_size(MAX_HEIGHT as int) == 112
                &&& list.seed() == FIRST_SEED
                &&& list.tallest() == 1
                &&& list.count() == 0
            },
    {
        let mut arena = Arena::new(capacity);
        match alloc_node(&mut arena, MAX_HEIGHT, 0, NULL, 0, encode_value(0, 0)) {
            Err(full) => Err(Error::from(full)),
            Ok(head) => {
                let ghost info = NodeInfo {
                    key: Seq::empty(),
                    version: 0,
                    value: Some(Seq::empty()),
                    height: MAX_HEIGHT as int,
                };
                let ghost none = Map::<int, NodeInfo>::empty();
                let ghost chains = Seq::new(MAX_HEIGHT as nat, |l: int| seq![head as int]);
                proof {
                    arena.lemma_bounds();
                    reveal(node::store_ok);
                    node::lemma_store_adds(
                        arena.bytes(),
                        RESERVED as int,
                        arena.bytes(),
                        arena.cursor(),
                        none,
                        head as int,
                        info,
                    );
                }
                let list = SkipList {
                    arena,
                    head,
                    height: 1,
                    len: 0,
                    seed: FIRST_SEED,
                    nodes: Ghost(none.insert(head as int, info)),
                    chains: Ghost(chains),
                    counted: Ghost(Set::empty()),
                };
                proof {
                    assert forall|l: int| 0 <= l < MAX_HEIGHT implies #[trigger] list.chain_ok(l) by {
                        reveal(chain::chain_ok);
                        assert(list.chains@[l] == seq![head as int]);
                    }
                    assert(list.nodes@.dom() =~= Set::empty().insert(head as int));
                    assert(list.entries() =~= Seq::<Item>::empty());
                    assert(list@ =~= Map::<Id, Option<Seq<u8>>>::empty());
                }
                Ok(list)
            },
        }
    }
}

impl SkipList {
    /// A node of the list lies in claimed bytes.
    proof fn lemma_node(&self, n: int)
        requires
            self.wf(),
            self.nodes@.contains_key(n),
        ensures
            node::node_ok(self.arena.bytes(), self.arena.cursor(), n, self.nodes@[n]),
            self.arena.cursor() <= self.arena.cap() <= u32::MAX,
            self.arena.bytes().len() == self.arena.cap(),
            RESERVED <= n,
    {
        reveal(node::store_ok);
        self.arena.lemma_bounds();
    }

    /// Every level starts at the head.
    proof fn lemma_head(&self, level: int)
        requires
            self.wf(),
            0 <= level < MAX_HEIGHT,
        ensures
            self.chains@[level].len() > 0,
            self.chains@[level][0] == self.head,
            self.chains@[level].contains(self.head as int),
    {
        reveal(chain::chain_ok);
        assert(self.chain_ok(level));
    }

    /// No node lies at the null offset.
    proof fn lemma_no_null(&self)
        requires
            self.wf(),
        ensures
            !self.nodes@.contains_key(0),
            forall|l: int| 0 <= l < MAX_HEIGHT ==> !#[trigger] self.chains@[l].contains(0),
    {
        if self.nodes@.contains_key(0) {
            self.lemma_node(0);
        }
        assert forall|l: int| 0 <= l < MAX_HEIGHT implies !#[trigger] self.chains@[l].contains(
            0,
        ) by {
            if self.chains@[l].contains(0) {
                let i = self.lemma_on_level(l, 0);
            }
        }
    }

    /// Every place of a level holds a node that reaches it.
    proof fn lemma_at(&self, level: int, i: int)
        requires
            self.wf(),
            0 <= level < MAX_HEIGHT,
            0 <= i < self.chains@[level].len(),
        ensures
            self.chains@[level].contains(self.chains@[level][i]),
            self.nodes@.contains_key(self.chains@[level][i]),
            level < self.nodes@[self.chains@[level][i]].height,
            RESERVED <= self.chains@[level][i] <= u32::MAX,
            i == 0 <==> self.chains@[level][i] == self.head,
    {
        reveal(chain::chain_ok);
        assert(self.chain_ok(level));
        self.lemma_node(self.chains@[level][i]);
    }

    /// A node on a level reaches that level, and its link there leads to its
    /// follower in the chain.
    proof fn lemma_on_level(&self, level: int, n: int) -> (i: int)
        requires
            self.wf(),
            0 <= level < MAX_HEIGHT,
            self.chains@[level].contains(n),
        ensures
            0 <= i < self.chains@[level].len(),
            self.chains@[level][i] == n,
            self.nodes@.contains_key(n),
            level < self.nodes@[n].height,
            self.link(level, n) == chain::follower(self.chains@[level], i),
            i == 0 <==> n == self.head,
    {
        reveal(chain::chain_ok);
        assert(self.chain_ok(level));
        let i = choose|i: int|
            0 <= i < self.chains@[level].len() && self.chains@[level][i] == n;
        i
    }

    /// A link of a node on a level is null or leads to a node on that level.
    proof fn lemma_link_on_level(&self, level: int, n: int)
        requires
            self.wf(),
            0 <= level < MAX_HEIGHT,
            self.chains@[level].contains(n),
        ensures
            self.link(level, n) == NULL || {
                &&& self.chains@[level].contains(self.link(level, n))
                &&& self.nodes@.contains_key(self.link(level, n))
                &&& self.link(level, n) != self.head
            },
    {
        reveal(chain::chain_ok);
        let i = self.lemma_on_level(level, n);
        assert(self.chain_ok(level));
        if i + 1 < self.chains@[level].len() {
            assert(self.chains@[level].contains(self.chains@[level][i + 1]));
        }
    }

    /// No level holds more nodes than there are.
    proof fn lemma_level_len(&self, level: int)
        requires
            self.wf(),
            0 <= level < MAX_HEIGHT,
        ensures
            self.chains@[level].len() <= self.nodes@.dom().len(),
    {
        let chain = self.chains@[level];
        assert(self.chain_ok(level));
        assert forall|i: int, j: int| 0 <= i < j < chain.len() implies chain[i] != chain[j] by {
            chain::lemma_chain_apart(
                self.arena.bytes(),
                self.nodes@,
                self.head as int,
                chain,
                level,
                i,
                j,
            );
        }
        chain.unique_seq_to_set();
        assert forall|n: int| #[trigger] chain.to_set().contains(n) implies self.nodes@.dom().contains(
            n,
        ) by {
            let i = self.lemma_on_level(level, n);
        }
        vstd::set_lib::lemma_len_subset(chain.to_set(), self.nodes@.dom());
    }

    fn version_of(&self, node: u32) -> (version: u64)
        requires
            self.wf(),
            self.nodes@.contains_key(node as int),
        ensures
            version == self.nodes@[node as int].version,
    {
        proof {
            self.lemma_node(node as int);
        }
        self.arena.read_u64(node + OFF_VERSION)
    }

    fn value_cell(&self, node: u32) -> (word: u64)
        requires
            self.wf(),
            self.nodes@.contains_key(node as int),
        ensures
            word == arena::u64_at(self.arena.bytes(), node + OFF_VALUE),
    {
        proof {
            self.lemma_node(node as int);
        }
        self.arena.read_u64(node + OFF_VALUE)
    }

    fn tower(&self, node: u32, level: usize) -> (next: u32)
        requires
            self.wf(),
            self.nodes@.contains_key(node as int),
            level < self.nodes@[node as int].height,
        ensures
            next == self.link(level as int, node as int),
    {
        proof {
            self.lemma_node(node as int);
        }
        self.arena.read_u32(node + OFF_TOWER + (level as u32) * 4)
    }

    fn key_of(&self, node: u32) -> (key: &[u8])
        requires
            self.wf(),
            self.nodes@.contains_key(node as int),
        ensures
            key@ == self.nodes@[node as int].key,
    {
        proof {
            self.lemma_node(node as int);
        }
        let off: u32 = self.arena.read_u32(node + OFF_KEY_OFF);
        let len: u32 = self.arena.read_u32(node + OFF_KEY_LEN);
        let key = self.arena.slice(off, len);
        assert(key@ =~= self.nodes@[node as int].key);
        key
    }

    /// Orders a node against a target key and version.
    fn compare_node(&self, node: u32, key: &[u8], version: u64) -> (p: Position)
        requires
            self.wf(),
            self.nodes@.contains_key(node as int),
        ensures
            p == Position::Before <==> order::before(
                node::id_of(self.nodes@[node as int]),
                (key@, version),
            ),
            p == Position::Same <==> node::id_of(self.nodes@[node as int]) == (key@, version),
            p == Position::After <==> order::before(
                (key@, version),
                node::id_of(self.nodes@[node as int]),
            ),
    {
        compare_entries(self.key_of(node), self.version_of(node), key, version)
    }

    /// Looks at what follows `prev` on `level`: one load of one link.
    fn probe(&self, key: &[u8], version: u64, prev: u32, level: usize) -> (p: Probe)
        requires
            self.wf(),
            self.stands_before(level as int, prev as int, (key@, version)),
        ensures
            match p {
                Probe::Right(n) => {
                    &&& n == self.link(level as int, prev as int)
                    &&& n != NULL
                    &&& self.stands_before(level as int, n as int, (key@, version))
                },
                Probe::Hit(n) => {
                    &&& n == self.link(level as int, prev as int)
                    &&& n != NULL
                    &&& n != self.head
                    &&& self.chains@[level as int].contains(n as int)
                    &&& node::id_of(self.nodes@[n as int]) == (key@, version)
                },
                Probe::Gap(n) => {
                    &&& n == self.link(level as int, prev as int)
                    &&& n != NULL ==> {
                        &&& n != self.head
                        &&& self.chains@[level as int].contains(n as int)
                        &&& order::before((key@, version), node::id_of(self.nodes@[n as int]))
                    }
                },
            },
    {
        proof {
            let i = self.lemma_on_level(level as int, prev as int);
            self.lemma_link_on_level(level as int, prev as int);
        }
        let next: u32 = self.tower(prev, level);
        if next == NULL {
            return Probe::Gap(NULL);
        }
        match self.compare_node(next, key, version) {
            Position::Before => Probe::Right(next),
            Position::Same => Probe::Hit(next),
            Position::After => Probe::Gap(next),
        }
    }

    /// What a list becomes while a writer is at work. Nothing is unlinked or
    /// rewritten but the value of a linked node; the only node that is added,
    /// linked further or counted is `mine`.
    pub closed spec fn evolves(before: &SkipList, after: &SkipList, mine: int) -> bool {
        &&& after.cap() == before.cap()
        &&& after.head == before.head
        &&& before.cursor() <= after.cursor()
        &&& before.height <= after.height
        &&& forall|n: int| #[trigger]
            before.nodes@.contains_key(n) ==> {
                &&& after.nodes@.contains_key(n)
                &&& node::id_of(after.nodes@[n]) == node::id_of(before.nodes@[n])
                &&& after.nodes@[n].height == before.nodes@[n].height
                &&& before.chains@[0].contains(n) || n == mine || after.nodes@[n].value
                    == before.nodes@[n].value
            }
        &&& forall|n: int| #[trigger]
            after.nodes@.contains_key(n) ==> before.nodes@.contains_key(n) || (n == mine && n
                >= before.cursor())
        &&& forall|l: int, n: int|
            0 <= l < MAX_HEIGHT && #[trigger] before.chains@[l].contains(n)
                ==> after.chains@[l].contains(n)
        &&& forall|l: int, n: int|
            0 <= l < MAX_HEIGHT && #[trigger] after.chains@[l].contains(n)
                ==> before.chains@[l].contains(n) || n == mine
        &&& forall|n: int| #[trigger] before.counted@.contains(n) ==> after.counted@.contains(n)
        &&& forall|n: int| #[trigger]
            after.counted@.contains(n) ==> before.counted@.contains(n) || n == mine
        &&& forall|i: int|
            RESERVED <= i < before.cursor() && node::clear_of(before.nodes@, i, 1)
                ==> #[trigger] after.arena.bytes()[i] == before.arena.bytes()[i]
    }

    /// A node has been written at `n`.
    pub closed spec fn holds_node(&self, n: int) -> bool {
        self.nodes@.contains_key(n)
    }

    /// What was in progress on a list goes on after a change: scans, reads and writes
    /// can take their next steps, and no write has more left to finish.
    pub open spec fn carries_over(before: &SkipList, after: &SkipList) -> bool {
        &&& exists|mine: int| #[trigger]
            SkipList::evolves(before, after, mine) && !before.holds_node(mine)
        &&& forall|scan: Scan| #[trigger] scan.wf(before) ==> scan.wf(after)
        &&& forall|read: Lookup| #[trigger] read.wf(before) ==> read.wf(after)
        &&& forall|write: Put| #[trigger] write.wf(before) ==> write.wf(after)
        &&& forall|owners: Set<int>| #[trigger] before.tended(owners) ==> after.tended(owners)
    }

    /// All ways through the list are the same, and so are the cursor and the height:
    /// nothing has changed that a step of another writer or of a reader may trip over.
    pub closed spec fn same_ways(before: &SkipList, after: &SkipList) -> bool {
        &&& after.cursor() == before.cursor()
        &&& after.height == before.height
        &&& after.chains == before.chains
        &&& after.nodes@.dom() == before.nodes@.dom()
    }

    /// Everything but the arena is the same.
    spec fn same_shape(before: &SkipList, after: &SkipList) -> bool {
        &&& after.head == before.head
        &&& after.height == before.height
        &&& after.len == before.len
        &&& after.seed == before.seed
        &&& after.nodes == before.nodes
        &&& after.chains == before.chains
        &&& after.counted == before.counted
    }

    /// Nothing but the seed differs.
    pub closed spec fn same_but_seed(before: &SkipList, after: &SkipList) -> bool {
        &&& after.arena == before.arena
        &&& after.head == before.head
        &&& after.height == before.height
        &&& after.len == before.len
        &&& after.nodes == before.nodes
        &&& after.chains == before.chains
        &&& after.counted == before.counted
    }

    /// Draws the height of a new node and advances the seed.
    pub fn random_height(&mut self) -> (h: usize)
        requires
            old(self).wf(),
        ensures
            final(self).wf(),
            h == drawn_height(old(self).seed()),
            1 <= h <= MAX_HEIGHT,
            final(self).seed() == old(self).seed().wrapping_add(SEED_STEP),
            SkipList::same_but_seed(old(self), final(self)),
            final(self)@ == old(self)@,
            final(self).entries() == old(self).entries(),
            final(self).cap() == old(self).cap(),
            final(self).cursor() == old(self).cursor(),
            final(self).tallest() == old(self).tallest(),
            final(self).count() == old(self).count(),
            old(self).settled() ==> final(self).settled(),
            SkipList::evolves(old(self), final(self), 0),
            SkipList::carries_over(old(self), final(self)),
    {
        let mut x: u64 = self.seed;
        self.seed = self.seed.wrapping_add(SEED_STEP);
        assert forall|l: int| 0 <= l < MAX_HEIGHT implies #[trigger] self.chain_ok(l) by {
            assert(old(self).chain_ok(l));
        }
        proof {
            old(self).lemma_no_null();
            assert forall|owners: Set<int>| #[trigger] old(self).tended(owners) implies self.tended(
                owners,
            ) by {
                assert forall|n: int| #[trigger]
                    self.chains@[0].contains(n) && n != self.head && !owners.contains(
                        n,
                    ) implies self.counted@.contains(n) && self.fully_linked(n) by {
                    assert(old(self).chains@[0].contains(n));
                    assert(old(self).fully_linked(n));
                }
            }
            SkipList::lemma_carries_over(old(self), self, 0);
        }
        x = x ^ (x >> 30u64);
        x = x.wrapping_mul(0xBF58_476D_1CE4_E5B9u64);
        x = x ^ (x >> 27u64);
        x = x.wrapping_mul(0x94D0_49BB_1331_11EBu64);
        x = x ^ (x >> 31u64);
        let mut h: usize = 1;
        let ghost total = low_zero_digits(x, (MAX_HEIGHT - 1) as nat);
        assert((x & 3u64) == x % 4) by (bit_vector);
        while h < MAX_HEIGHT && (x & 3u64) == 0
            invariant
                1 <= h <= MAX_HEIGHT,
                (x & 3u64) == x % 4,
                total == h - 1 + low_zero_digits(x, (MAX_HEIGHT - h) as nat),
            decreases MAX_HEIGHT - h,
        {
            h += 1;
            assert(x >> 2u64 == x / 4) by (bit_vector);
            x = x >> 2u64;
            assert((x & 3u64) == x % 4) by (bit_vector);
        }
        h
    }

    /// The entry at a node: its key, its version and the value it has now.
    fn entry(&self, node: u32) -> (e: Entry<'_>)
        requires
            self.wf(),
            self.nodes@.contains_key(node as int),
        ensures
            e.key@ == self.nodes@[node as int].key,
            e.version == self.nodes@[node as int].version,
            value_view(e.value) == self.nodes@[node as int].value,
    {
        proof {
            self.lemma_node(node as int);
        }
        let (voff, vlen) = decode_value(self.value_cell(node));
        let value: Option<&[u8]> = if vlen == TOMBSTONE {
            None
        } else {
            let v = self.arena.slice(voff, vlen);
            assert(v@ =~= self.nodes@[node as int].value->0);
            Some(v)
        };
        Entry { key: self.key_of(node), version: self.version_of(node), value }
    }

    /// The entries of the list are sorted, and the one at place `i` belongs to the
    /// node at place `i + 1` of the bottom chain.
    proof fn lemma_entries(&self)
        requires
            self.wf(),
        ensures
            chain::sorted(self.entries()),
            self.entries().len() == self.chains@[0].len() - 1,
            forall|i: int|
                0 <= i < self.entries().len() ==> chain::item_id(#[trigger] self.entries()[i])
                    == node::id_of(self.nodes@[self.chains@[0][i + 1]]),
    {
        self.lemma_head(0);
        assert(self.chain_ok(0));
        chain::lemma_items_sorted(
            self.arena.bytes(),
            self.nodes@,
            self.head as int,
            self.chains@[0],
            0,
        );
    }

    /// What follows the last entry before (key, snapshot) is the newest version of
    /// the key that the snapshot sees, if it is a version of that key at all.
    proof fn lemma_splice_is_visible(&self, prev: int, next: int, key: Seq<u8>, snapshot: u64)
        requires
            self.wf(),
            self.stands_before(0, prev, (key, snapshot)),
            next == self.link(0, prev),
            next != NULL ==> !order::before(node::id_of(self.nodes@[next]), (key, snapshot)),
        ensures
            next == NULL || self.nodes@[next].key != key ==> chain::is_visible(
                self@,
                snapshot,
                key,
                None,
            ),
            next != NULL && self.nodes@[next].key == key ==> chain::is_visible(
                self@,
                snapshot,
                key,
                Some(
                    Item {
                        key,
                        version: self.nodes@[next].version,
                        value: self.nodes@[next].value,
                    },
                ),
            ),
    {
        let i = self.lemma_on_level(0, prev);
        self.lemma_entries();
        assert(self.chain_ok(0));
        if i + 1 < self.chains@[0].len() {
            self.lemma_at(0, i + 1);
        }
        chain::lemma_first_not_before(self.entries(), i, key, snapshot);
    }

    /// The newest version of `key` that is not above `snapshot`.
    pub fn get(&self, snapshot: u64, key: &[u8]) -> (found: Option<Entry<'_>>)
        requires
            self.wf(),
        ensures
            match found {
                None => chain::is_visible(self@, snapshot, key@, None),
                Some(e) => chain::is_visible(self@, snapshot, key@, Some(e.item())),
            },
            found is None <==> forall|v: u64|
                v <= snapshot ==> !#[trigger] self@.contains_key((key@, v)),
            found matches Some(e) ==> {
                &&& e.key@ == key@
                &&& e.version <= snapshot
                &&& self@.contains_key((key@, e.version))
                &&& e.value is None <==> self@[(key@, e.version)] is None
                &&& e.value matches Some(bytes) ==> self@[(key@, e.version)] == Some(bytes@)
                &&& forall|v: u64|
                    e.version < v <= snapshot ==> !#[trigger] self@.contains_key((key@, v))
            },
    {
        let found = Lookup::new(self, snapshot, key).run(self);
        proof {
            if let Some(e) = found {
                assert(self@.contains_key((key@, e.item().version)));
            }
        }
        found
    }

    /// All entries in order, tombstones and every version included.
    pub fn iter_all(&self) -> (iter: Iter<'_>)
        requires
            self.wf(),
        ensures
            iter.wf(),
            iter.remaining() == self.entries(),
    {
        let iter = Iter { list: self, scan: Scan::new(self) };
        assert(iter.remaining() =~= self.entries());
        iter
    }

    /// Writes `value` at (key, version).
    pub fn insert(&mut self, version: u64, key: &[u8], value: &[u8]) -> (r: Result<(), Error>)
        requires
            old(self).wf(),
            version <= MAX_VERSION || put::too_large(key@, Some(value@)),
        ensures
            final(self).wf(),
            put_did(old(self), (key@, version), Some(value@), r, final(self)),
            r is Ok ==> final(self)@ == old(self)@.insert((key@, version), Some(value@)),
            r is Err ==> final(self)@ == old(self)@,
            old(self).settled() ==> final(self).settled(),
            SkipList::carries_over(old(self), final(self)),
    {
        self.put(version, key, Some(value))
    }

    /// Writes a tombstone at (key, version).
    pub fn remove(&mut self, version: u64, key: &[u8]) -> (r: Result<(), Error>)
        requires
            old(self).wf(),
            version <= MAX_VERSION || put::too_large(key@, None),
        ensures
            final(self).wf(),
            put_did(old(self), (key@, version), None, r, final(self)),
            r is Ok ==> final(self)@ == old(self)@.insert((key@, version), None),
            r is Err ==> final(self)@ == old(self)@,
            old(self).settled() ==> final(self).settled(),
            SkipList::carries_over(old(self), final(self)),
    {
        self.put(version, key, None)
    }

    fn put(&mut self, version: u64, key: &[u8], value: Option<&[u8]>) -> (r: Result<(), Error>)
        requires
            old(self).wf(),
            version <= MAX_VERSION || put::too_large(key@, value_view(value)),
        ensures
            final(self).wf(),
            put_did(old(self), (key@, version), value_view(value), r, final(self)),
            r is Ok ==> final(self)@ == old(self)@.insert((key@, version), value_view(value)),
            r is Err ==> final(self)@ == old(self)@,
            old(self).settled() ==> final(self).settled(),
            SkipList::carries_over(old(self), final(self)),
    {
        Put::new(self, version, key, value).run(self)
    }

    /// Arena bytes claimed so far.
    pub fn allocated(&self) -> (n: usize)
        ensures
            n == self.cursor(),
    {
        self.arena.allocated()
    }

    /// The size of the arena.
    pub fn capacity(&self) -> (n: usize)
        ensures
            n == self.cap(),
    {
        self.arena.capacity()
    }

    /// Arena bytes not claimed yet.
    pub fn remaining(&self) -> (n: usize)
        requires
            self.wf(),
        ensures
            n == self.cap() - self.cursor(),
    {
        self.arena.remaining()
    }

    /// The number of entries, tombstones included.
    pub fn len(&self) -> (n: usize)
        requires
            self.wf(),
        ensures
            n == self.count(),
            self.settled() ==> n == self.entries().len(),
    {
        proof {
            if self.settled() {
                self.lemma_settled();
            }
        }
        self.len as usize
    }

    /// The list has no entries.
    pub fn is_empty(&self) -> (empty: bool)
        requires
            self.wf(),
        ensures
            empty == (self.count() == 0),
            self.settled() ==> empty == (self.entries().len() == 0),
    {
        self.len() == 0
    }

    /// The highest tower in use.
    pub fn height(&self) -> (h: u32)
        ensures
            h == self.tallest(),
    {
        self.height
    }
}

/// Entries may come in before an entry while writers work on a list; none goes.
proof fn lemma_places_grow(before: &SkipList, after: &SkipList, mine: int, i: int, j: int)
    requires
        before.wf(),
        after.wf(),
        SkipList::evolves(before, after, mine),
        0 <= i < before.chains@[0].len(),
        0 <= j < after.chains@[0].len(),
        after.chains@[0][j] == before.chains@[0][i],
    ensures
        i <= j,
    decreases i,
{
    if i > 0 {
        before.lemma_at(0, i - 1);
        before.lemma_at(0, i);
        after.lemma_at(0, j);
        let n = before.chains@[0][i - 1];
        assert(after.chains@[0].contains(n));
        let k = after.lemma_on_level(0, n);
        lemma_places_grow(before, after, mine, i - 1, k);
        if k > 0 {
            before.lemma_entries();
            after.lemma_entries();
            let a = chain::item_id(before.entries()[i - 2]);
            let b = chain::item_id(before.entries()[i - 1]);
            assert(order::before(a, b));
            order::lemma_before_asymmetric(a, b);
            assert(chain::item_id(after.entries()[k - 1]) == a);
            assert(chain::item_id(after.entries()[j - 1]) == b);
        }
    }
}

/// A place in the order of a list's entries. It stays a place in that order while
/// writers add entries to the list.
pub struct Scan {
    node: u32,
}

impl Scan {
    /// The place is a node of the bottom chain, or the head before all entries.
    pub closed spec fn wf(&self, list: &SkipList) -> bool {
        list.chains@[0].contains(self.node as int)
    }

    /// How many entries of the list stand at or before the place.
    pub closed spec fn passed(&self, list: &SkipList) -> int {
        list.chains@[0].index_of(self.node as int)
    }

    /// The number of entries passed is the place of the node in the bottom chain.
    proof fn lemma_passed(&self, list: &SkipList, i: int)
        requires
            list.wf(),
            0 <= i < list.chains@[0].len(),
            list.chains@[0][i] == self.node,
        ensures
            self.wf(list),
            self.passed(list) == i,
    {
        assert(list.chain_ok(0));
        assert(list.chains@[0].contains(list.chains@[0][i]));
        chain::lemma_chain_distinct(
            list.arena.bytes(),
            list.nodes@,
            list.head as int,
            list.chains@[0],
            0,
            i,
            self.passed(list),
        );
    }

    /// The place stays one while writers work on the list, and what was passed last
    /// stays the entry passed last.
    proof fn lemma_lasts(&self, before: &SkipList, after: &SkipList, mine: int)
        requires
            before.wf(),
            after.wf(),
            SkipList::evolves(before, after, mine),
            self.wf(before),
        ensures
            self.wf(after),
            0 <= self.passed(before) <= self.passed(after),
            self.passed(before) <= before.entries().len(),
            self.passed(after) <= after.entries().len(),
            self.passed(before) == 0 <==> self.passed(after) == 0,
            self.passed(before) > 0 ==> chain::item_id(after.entries()[self.passed(after) - 1])
                == chain::item_id(before.entries()[self.passed(before) - 1]),
    {
        let i = before.lemma_on_level(0, self.node as int);
        self.lemma_passed(before, i);
        assert(after.chains@[0].contains(self.node as int));
        let j = after.lemma_on_level(0, self.node as int);
        self.lemma_passed(after, j);
        before.lemma_entries();
        after.lemma_entries();
        lemma_places_grow(before, after, mine, i, j);
    }

    /// The place before all entries.
    pub fn new(list: &SkipList) -> (scan: Self)
        requires
            list.wf(),
        ensures
            scan.wf(list),
            scan.passed(list) == 0,
    {
        let scan = Scan { node: list.head };
        proof {
            list.lemma_head(0);
            scan.lemma_passed(list, 0);
        }
        scan
    }

    /// Moves to the next entry and hands it out; stays at the end.
    pub fn next<'l>(&mut self, list: &'l SkipList) -> (e: Option<Entry<'l>>)
        requires
            list.wf(),
            old(self).wf(list),
        ensures
            final(self).wf(list),
            0 <= old(self).passed(list) <= list.entries().len(),
            e is None <==> old(self).passed(list) == list.entries().len(),
            e is None ==> *final(self) == *old(self),
            e matches Some(entry) ==> {
                &&& entry.item() == list.entries()[old(self).passed(list)]
                &&& final(self).passed(list) == old(self).passed(list) + 1
            },
    {
        let ghost i = list.lemma_on_level(0, self.node as int);
        proof {
            self.lemma_passed(list, i);
            list.lemma_entries();
            list.lemma_link_on_level(0, self.node as int);
            if i + 1 < list.chains@[0].len() {
                list.lemma_at(0, i + 1);
            }
        }
        let next: u32 = list.tower(self.node, 0);
        if next == NULL {
            return None;
        }
        self.node = next;
        proof {
            self.lemma_passed(list, i + 1);
        }
        Some(list.entry(next))
    }
}

/// A walk over the entries of a list.
pub struct Iter<'a> {
    list: &'a SkipList,
    scan: Scan,
}

impl<'a> Iter<'a> {
    /// The walk stands at a place of its list.
    pub closed spec fn wf(&self) -> bool {
        self.list.wf() && self.scan.wf(self.list) && 0 <= self.scan.passed(self.list)
            <= self.list.entries().len()
    }

    /// The entries still to come.
    pub closed spec fn remaining(&self) -> Seq<Item> {
        self.list.entries().skip(self.scan.passed(self.list))
    }

    /// The entries still to come are in order.
    pub proof fn lemma_in_order(&self, i: int, j: int)
        requires
            self.wf(),
            0 <= i < j < self.remaining().len(),
        ensures
            order::before(
                (self.remaining()[i].key, self.remaining()[i].version),
                (self.remaining()[j].key, self.remaining()[j].version),
            ),
    {
        let at = self.scan.passed(self.list);
        self.list.lemma_entries();
        assert(self.remaining()[i] == self.list.entries()[at + i]);
        assert(self.remaining()[j] == self.list.entries()[at + j]);
    }

    /// The next entry; none at the end.
    pub fn next(&mut self) -> (e: Option<Entry<'a>>)
        requires
            old(self).wf(),
        ensures
            final(self).wf(),
            e is None <==> old(self).remaining().len() == 0,
            e is None ==> final(self).remaining() == old(self).remaining(),
            e matches Some(entry) ==> {
                &&& entry.item() == old(self).remaining()[0]
                &&& final(self).remaining() == old(self).remaining().skip(1)
            },
    {
        let list: &'a SkipList = self.list;
        let e = self.scan.next(list);
        proof {
            if e is Some {
                assert(self.remaining() =~= old(self).remaining().skip(1));
            }
        }
        e
    }
}

impl View for SkipList {
    type V = Map<Id, Option<Seq<u8>>>;

    /// The map from (key, version) to value that the list holds.
    open spec fn view(&self) -> Map<Id, Option<Seq<u8>>> {
        chain::model(self.entries())
    }
}

} // verus!
