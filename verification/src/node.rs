//! How the nodes of a list lie in the arena.
//!
//! Node layout, from the node's offset:
//! +0  version  u64, fixed once the node is written
//! +8  value    u64, (offset << 32) | length; length `u32::MAX` marks a tombstone
//! +16 key_off  u32, fixed once the node is written
//! +20 key_len  u32, fixed once the node is written
//! +24 tower    one u32 link per level; only as many as the node is high

use crate::arena;
use crate::arena::{Arena, ArenaFull, NULL, RESERVED};
use crate::order::Id;
use vstd::prelude::*;

verus! {

/// Most levels that a node can have. With one node in four rising a level this
/// serves far more entries than an arena holds.
pub const MAX_HEIGHT: usize = 20;

pub const OFF_VERSION: u32 = 0;

pub const OFF_VALUE: u32 = 8;

pub const OFF_KEY_OFF: u32 = 16;

pub const OFF_KEY_LEN: u32 = 20;

pub const OFF_TOWER: u32 = 24;

/// Bytes that a node of height one takes.
pub const MIN_NODE_SIZE: u32 = 28;

pub const NODE_ALIGN: u32 = 8;

/// The value length that marks a deleted entry.
pub const TOMBSTONE: u32 = u32::MAX;

/// Offset part of a value word.
pub open spec fn word_off(word: int) -> int {
    word / 0x1_0000_0000
}

/// Length part of a value word.
pub open spec fn word_len(word: int) -> int {
    word % 0x1_0000_0000
}

/// Packs a value's offset and length into one word.
pub fn encode_value(offset: u32, len: u32) -> (word: u64)
    ensures
        word == offset * 0x1_0000_0000 + len,
        word_off(word as int) == offset,
        word_len(word as int) == len,
{
    assert((offset as u64) << 32u64 | (len as u64) == offset * 0x1_0000_0000 + len) by (bit_vector);
    ((offset as u64) << 32u64) | (len as u64)
}

/// Takes a value word apart.
pub fn decode_value(word: u64) -> (r: (u32, u32))
    ensures
        r.0 == word_off(word as int),
        r.1 == word_len(word as int),
{
    assert((word >> 32u64) as u32 == word / 0x1_0000_0000) by (bit_vector);
    assert(word as u32 == word % 0x1_0000_0000) by (bit_vector);
    ((word >> 32u64) as u32, word as u32)
}

/// Taking apart what was packed gives back the offset and the length, and packing
/// what was taken apart gives back the word.
pub proof fn law_value_words_round_trip(offset: u32, len: u32, word: u64)
    ensures
        word == offset * 0x1_0000_0000 + len <==> word_off(word as int) == offset && word_len(
            word as int,
        ) == len,
        word_off(word as int) * 0x1_0000_0000 + word_len(word as int) == word,
{
}

/// What a node stands for.
pub struct NodeInfo {
    pub key: Seq<u8>,
    pub version: u64,
    /// `None` is a tombstone.
    pub value: Option<Seq<u8>>,
    pub height: int,
}

/// The key and version of a node.
pub open spec fn id_of(info: NodeInfo) -> Id {
    (info.key, info.version)
}

/// Bytes that a node of height `height` takes.
pub open spec fn node_size(height: int) -> int {
    OFF_TOWER + 4 * height
}

/// A node of one level takes 28 bytes, and each further level four more.
pub proof fn law_each_level_takes_one_link(height: int)
    ensures
        node_size(1) == 28,
        node_size(height + 1) == node_size(height) + 4,
{
}

/// Where the link of `node` at `level` lies.
pub open spec fn slot(node: int, level: int) -> int {
    node + OFF_TOWER + 4 * level
}

/// The link of `node` at `level`.
pub open spec fn link_at(m: Seq<u8>, node: int, level: int) -> int {
    arena::u32_at(m, slot(node, level))
}

/// The `len` claimed bytes from `off` on are `s`.
pub open spec fn holds(m: Seq<u8>, cursor: int, off: int, len: int, s: Seq<u8>) -> bool {
    &&& s.len() == len
    &&& len > 0 ==> RESERVED <= off && off + len <= cursor && m.subrange(off, off + len) == s
}

/// A value word stands for `value`.
pub open spec fn word_holds(m: Seq<u8>, cursor: int, word: int, value: Option<Seq<u8>>) -> bool {
    match value {
        None => word_len(word) == TOMBSTONE,
        Some(s) => word_len(word) != TOMBSTONE && holds(
            m,
            cursor,
            word_off(word),
            word_len(word),
            s,
        ),
    }
}

/// The bytes of a node at `n` are those of `info`, and lie below the cursor.
pub open spec fn node_ok(m: Seq<u8>, cursor: int, n: int, info: NodeInfo) -> bool {
    &&& RESERVED <= n
    &&& n % NODE_ALIGN as int == 0
    &&& 1 <= info.height <= MAX_HEIGHT
    &&& n + node_size(info.height) <= cursor <= m.len()
    &&& arena::u64_at(m, n + OFF_VERSION) == info.version
    &&& holds(
        m,
        cursor,
        arena::u32_at(m, n + OFF_KEY_OFF),
        arena::u32_at(m, n + OFF_KEY_LEN),
        info.key,
    )
    &&& word_holds(m, cursor, arena::u64_at(m, n + OFF_VALUE), info.value)
}

/// A run of bytes overlaps no node.
pub open spec fn clear_of(nodes: Map<int, NodeInfo>, off: int, len: int) -> bool {
    forall|n: int| #[trigger]
        nodes.contains_key(n) ==> len == 0 || off + len <= n || n + node_size(nodes[n].height)
            <= off
}

/// A value word's bytes overlap no node.
pub open spec fn word_clear(nodes: Map<int, NodeInfo>, word: int) -> bool {
    word_len(word) != TOMBSTONE ==> clear_of(nodes, word_off(word), word_len(word))
}

/// The key bytes and the value bytes of the node at `n` overlap no node.
pub open spec fn texts_clear(m: Seq<u8>, nodes: Map<int, NodeInfo>, n: int) -> bool {
    &&& clear_of(nodes, arena::u32_at(m, n + OFF_KEY_OFF), arena::u32_at(m, n + OFF_KEY_LEN))
    &&& word_clear(nodes, arena::u64_at(m, n + OFF_VALUE))
}

/// The block holds exactly these nodes: each is written as its layout says, no
/// two overlap, and none overlaps the keys and values that they point to.
#[verifier::opaque]
pub open spec fn store_ok(m: Seq<u8>, cursor: int, nodes: Map<int, NodeInfo>) -> bool {
    &&& forall|n: int| #[trigger] nodes.contains_key(n) ==> node_ok(m, cursor, n, nodes[n])
    &&& forall|a: int, b: int|
        #![trigger nodes.contains_key(a), nodes.contains_key(b)]
        nodes.contains_key(a) && nodes.contains_key(b) && a < b ==> a + node_size(nodes[a].height)
            <= b
    &&& forall|n: int| #[trigger] nodes.contains_key(n) ==> texts_clear(m, nodes, n)
}

/// A 32-bit number depends on its own bytes only.
pub proof fn lemma_same_u32(a: Seq<u8>, b: Seq<u8>, at: int)
    requires
        arena::same_bytes(a, b, at, at + 4),
    ensures
        arena::u32_at(a, at) == arena::u32_at(b, at),
{
    assert(a[at] == b[at] && a[at + 1] == b[at + 1] && a[at + 2] == b[at + 2] && a[at + 3] == b[at
        + 3]);
}

/// A 64-bit number depends on its own bytes only.
pub proof fn lemma_same_u64(a: Seq<u8>, b: Seq<u8>, at: int)
    requires
        arena::same_bytes(a, b, at, at + 8),
    ensures
        arena::u64_at(a, at) == arena::u64_at(b, at),
{
    lemma_same_u32(a, b, at);
    lemma_same_u32(a, b, at + 4);
}

/// The fixed fields of a node depend on its own bytes only.
pub proof fn lemma_same_fields(a: Seq<u8>, b: Seq<u8>, n: int)
    requires
        arena::same_bytes(a, b, n, n + OFF_TOWER),
    ensures
        arena::u64_at(a, n + OFF_VERSION) == arena::u64_at(b, n + OFF_VERSION),
        arena::u64_at(a, n + OFF_VALUE) == arena::u64_at(b, n + OFF_VALUE),
        arena::u32_at(a, n + OFF_KEY_OFF) == arena::u32_at(b, n + OFF_KEY_OFF),
        arena::u32_at(a, n + OFF_KEY_LEN) == arena::u32_at(b, n + OFF_KEY_LEN),
{
    lemma_same_u64(a, b, n + OFF_VERSION);
    lemma_same_u64(a, b, n + OFF_VALUE);
    lemma_same_u32(a, b, n + OFF_KEY_OFF);
    lemma_same_u32(a, b, n + OFF_KEY_LEN);
}

/// A run of bytes that did not change still holds what it held.
pub proof fn lemma_same_text(
    a: Seq<u8>,
    a_cursor: int,
    b: Seq<u8>,
    b_cursor: int,
    off: int,
    len: int,
    s: Seq<u8>,
)
    requires
        holds(a, a_cursor, off, len, s),
        a_cursor <= b_cursor,
        a_cursor <= a.len(),
        a_cursor <= b.len(),
        len > 0 ==> arena::same_bytes(a, b, off, off + len),
    ensures
        holds(b, b_cursor, off, len, s),
{
    if len > 0 {
        assert(b.subrange(off, off + len) =~= a.subrange(off, off + len));
    }
}

/// A node whose own bytes and texts did not change is still the same node.
pub proof fn lemma_same_node(
    a: Seq<u8>,
    a_cursor: int,
    b: Seq<u8>,
    b_cursor: int,
    n: int,
    info: NodeInfo,
)
    requires
        node_ok(a, a_cursor, n, info),
        a_cursor <= b_cursor <= b.len(),
        arena::same_bytes(a, b, n, n + OFF_TOWER),
        arena::u32_at(a, n + OFF_KEY_LEN) > 0 ==> arena::same_bytes(
            a,
            b,
            arena::u32_at(a, n + OFF_KEY_OFF),
            arena::u32_at(a, n + OFF_KEY_OFF) + arena::u32_at(a, n + OFF_KEY_LEN),
        ),
        ({
            let word = arena::u64_at(a, n + OFF_VALUE);
            word_len(word) != TOMBSTONE && word_len(word) > 0 ==> arena::same_bytes(
                a,
                b,
                word_off(word),
                word_off(word) + word_len(word),
            )
        }),
    ensures
        node_ok(b, b_cursor, n, info),
{
    lemma_same_fields(a, b, n);
    lemma_same_text(
        a,
        a_cursor,
        b,
        b_cursor,
        arena::u32_at(a, n + OFF_KEY_OFF),
        arena::u32_at(a, n + OFF_KEY_LEN),
        info.key,
    );
    if let Some(s) = info.value {
        let word = arena::u64_at(a, n + OFF_VALUE);
        lemma_same_text(a, a_cursor, b, b_cursor, word_off(word), word_len(word), s);
    }
}

/// Claiming more bytes, and writing only to them, keeps every node.
pub proof fn lemma_store_grows(
    a: Seq<u8>,
    a_cursor: int,
    b: Seq<u8>,
    b_cursor: int,
    nodes: Map<int, NodeInfo>,
)
    requires
        store_ok(a, a_cursor, nodes),
        a_cursor <= b_cursor <= b.len(),
        arena::same_bytes(a, b, 0, a_cursor),
    ensures
        store_ok(b, b_cursor, nodes),
        forall|n: int, level: int|
            nodes.contains_key(n) && 0 <= level < nodes[n].height ==> #[trigger] link_at(
                b,
                n,
                level,
            ) == link_at(a, n, level),
{
    reveal(store_ok);
    assert forall|n: int| #[trigger] nodes.contains_key(n) implies node_ok(
        b,
        b_cursor,
        n,
        nodes[n],
    ) && texts_clear(b, nodes, n) by {
        lemma_same_fields(a, b, n);
        lemma_same_node(a, a_cursor, b, b_cursor, n, nodes[n]);
    }
    assert forall|n: int, level: int|
        nodes.contains_key(n) && 0 <= level < nodes[n].height implies #[trigger] link_at(
        b,
        n,
        level,
    ) == link_at(a, n, level) by {
        lemma_same_u32(a, b, slot(n, level));
    }
}

/// Writing one link keeps every node and every other link.
pub proof fn lemma_store_relinks(
    a: Seq<u8>,
    b: Seq<u8>,
    cursor: int,
    nodes: Map<int, NodeInfo>,
    node: int,
    level: int,
)
    requires
        store_ok(a, cursor, nodes),
        cursor <= b.len(),
        nodes.contains_key(node),
        0 <= level < nodes[node].height,
        arena::same_bytes(a, b, 0, slot(node, level)),
        arena::same_bytes(a, b, slot(node, level) + 4, cursor),
    ensures
        store_ok(b, cursor, nodes),
        forall|n: int, l: int|
            nodes.contains_key(n) && 0 <= l < nodes[n].height && !(n == node && l == level)
                ==> #[trigger] link_at(b, n, l) == link_at(a, n, l),
{
    reveal(store_ok);
    assert(node_ok(a, cursor, node, nodes[node]));
    assert forall|n: int| #[trigger] nodes.contains_key(n) implies node_ok(b, cursor, n, nodes[n])
        && texts_clear(b, nodes, n) by {
        assert(node_ok(a, cursor, n, nodes[n]) && texts_clear(a, nodes, n));
        assert(arena::same_bytes(a, b, n, n + OFF_TOWER));
        lemma_same_fields(a, b, n);
        lemma_same_node(a, cursor, b, cursor, n, nodes[n]);
    }
    assert forall|n: int, l: int|
        nodes.contains_key(n) && 0 <= l < nodes[n].height && !(n == node && l
            == level) implies #[trigger] link_at(b, n, l) == link_at(a, n, l) by {
        assert(node_ok(a, cursor, n, nodes[n]));
        lemma_same_u32(a, b, slot(n, l));
    }
}

/// `nodes` with another value at `node`.
pub open spec fn with_value(
    nodes: Map<int, NodeInfo>,
    node: int,
    value: Option<Seq<u8>>,
) -> Map<int, NodeInfo> {
    nodes.insert(node, NodeInfo { value, ..nodes[node] })
}

/// Writing one value word changes that node's value and nothing else.
pub proof fn lemma_store_revalues(
    a: Seq<u8>,
    b: Seq<u8>,
    cursor: int,
    nodes: Map<int, NodeInfo>,
    node: int,
    value: Option<Seq<u8>>,
)
    requires
        store_ok(a, cursor, nodes),
        cursor <= b.len(),
        nodes.contains_key(node),
        arena::same_bytes(a, b, 0, node + OFF_VALUE),
        arena::same_bytes(a, b, node + OFF_VALUE + 8, cursor),
        word_holds(a, cursor, arena::u64_at(b, node + OFF_VALUE), value),
        word_clear(nodes, arena::u64_at(b, node + OFF_VALUE)),
    ensures
        store_ok(b, cursor, with_value(nodes, node, value)),
        forall|n: int, l: int|
            nodes.contains_key(n) && 0 <= l < nodes[n].height ==> #[trigger] link_at(b, n, l)
                == link_at(a, n, l),
{
    reveal(store_ok);
    let after = with_value(nodes, node, value);
    assert(node_ok(a, cursor, node, nodes[node]));
    assert forall|off: int, len: int| #[trigger]
        clear_of(nodes, off, len) implies clear_of(after, off, len) by {
        assert forall|n: int| #[trigger] after.contains_key(n) implies len == 0 || off + len <= n
            || n + node_size(after[n].height) <= off by {
            assert(nodes.contains_key(n));
        }
    }
    assert forall|n: int| #[trigger] after.contains_key(n) implies node_ok(b, cursor, n, after[n])
        && texts_clear(b, after, n) by {
        assert(nodes.contains_key(n));
        assert(node_ok(a, cursor, n, nodes[n]) && texts_clear(a, nodes, n));
        if n == node {
            assert(arena::u64_at(a, n + OFF_VERSION) == arena::u64_at(b, n + OFF_VERSION)) by {
                assert(forall|i: int| n <= i < n + 8 ==> #[trigger] a[i] == b[i]);
            }
            assert({
                &&& arena::u32_at(a, n + OFF_KEY_OFF) == arena::u32_at(b, n + OFF_KEY_OFF)
                &&& arena::u32_at(a, n + OFF_KEY_LEN) == arena::u32_at(b, n + OFF_KEY_LEN)
            }) by {
                assert(forall|i: int| n + 16 <= i < n + 24 ==> #[trigger] a[i] == b[i]);
            }
            let off = arena::u32_at(a, n + OFF_KEY_OFF);
            let len = arena::u32_at(a, n + OFF_KEY_LEN);
            lemma_same_text(a, cursor, b, cursor, off, len, nodes[n].key);
            let word = arena::u64_at(b, n + OFF_VALUE);
            if let Some(s) = value {
                lemma_same_text(a, cursor, b, cursor, word_off(word), word_len(word), s);
            }
        } else {
            assert(arena::same_bytes(a, b, n, n + OFF_TOWER));
            lemma_same_fields(a, b, n);
            lemma_same_node(a, cursor, b, cursor, n, nodes[n]);
        }
    }
    assert forall|x: int, y: int|
        #![trigger after.contains_key(x), after.contains_key(y)]
        after.contains_key(x) && after.contains_key(y) && x < y implies x + node_size(
        after[x].height,
    ) <= y by {
        assert(nodes.contains_key(x) && nodes.contains_key(y));
    }
    assert forall|n: int, l: int|
        nodes.contains_key(n) && 0 <= l < nodes[n].height implies #[trigger] link_at(b, n, l)
        == link_at(a, n, l) by {
        assert(node_ok(a, cursor, n, nodes[n]));
        lemma_same_u32(a, b, slot(n, l));
    }
}

/// Writing a node past the cursor adds it and keeps all others.
pub proof fn lemma_store_adds(
    a: Seq<u8>,
    a_cursor: int,
    b: Seq<u8>,
    b_cursor: int,
    nodes: Map<int, NodeInfo>,
    node: int,
    info: NodeInfo,
)
    requires
        store_ok(a, a_cursor, nodes),
        a_cursor <= b_cursor <= b.len(),
        arena::same_bytes(a, b, 0, a_cursor),
        a_cursor <= node,
        node_ok(b, b_cursor, node, info),
        texts_clear(b, nodes, node),
        ({
            let off = arena::u32_at(b, node + OFF_KEY_OFF);
            let len = arena::u32_at(b, node + OFF_KEY_LEN);
            len > 0 ==> off + len <= a_cursor
        }),
        ({
            let word = arena::u64_at(b, node + OFF_VALUE);
            word_len(word) != TOMBSTONE && word_len(word) > 0 ==> word_off(word) + word_len(word)
                <= a_cursor
        }),
    ensures
        !nodes.contains_key(node),
        store_ok(b, b_cursor, nodes.insert(node, info)),
        forall|n: int, level: int|
            nodes.contains_key(n) && 0 <= level < nodes[n].height ==> #[trigger] link_at(
                b,
                n,
                level,
            ) == link_at(a, n, level),
{
    reveal(store_ok);
    let after = nodes.insert(node, info);
    lemma_store_grows(a, a_cursor, b, b_cursor, nodes);
    if nodes.contains_key(node) {
        assert(node_ok(a, a_cursor, node, nodes[node]));
    }
    assert forall|off: int, len: int|
        0 <= len && #[trigger] clear_of(nodes, off, len) && (len > 0 ==> off + len
            <= a_cursor) implies clear_of(after, off, len) by {
        assert forall|n: int| #[trigger] after.contains_key(n) implies len == 0 || off + len <= n
            || n + node_size(after[n].height) <= off by {
            assert(n == node || nodes.contains_key(n));
        }
    }
    assert forall|n: int| #[trigger] after.contains_key(n) implies node_ok(b, b_cursor, n, after[n])
        && texts_clear(b, after, n) by {
        if n != node {
            assert(nodes.contains_key(n));
            lemma_same_fields(a, b, n);
            assert(node_ok(a, a_cursor, n, nodes[n]) && texts_clear(a, nodes, n));
        }
    }
    assert forall|x: int, y: int|
        #![trigger after.contains_key(x), after.contains_key(y)]
        after.contains_key(x) && after.contains_key(y) && x < y implies x + node_size(
        after[x].height,
    ) <= y by {
        assert(x == node || nodes.contains_key(x));
        assert(y == node || nodes.contains_key(y));
        if x != node {
            assert(node_ok(a, a_cursor, x, nodes[x]));
        }
        if y != node {
            assert(node_ok(a, a_cursor, y, nodes[y]));
        }
    }
}

/// Writes a node into claimed bytes: its fields, and a tower of null links.
pub(crate) fn init_node(
    arena: &mut Arena,
    node: u32,
    height: usize,
    version: u64,
    key_off: u32,
    key_len: u32,
    value: u64,
)
    requires
        old(arena).wf(),
        1 <= height <= MAX_HEIGHT,
        RESERVED <= node,
        node + node_size(height as int) <= old(arena).cursor(),
    ensures
        final(arena).wf(),
        final(arena).cap() == old(arena).cap(),
        final(arena).cursor() == old(arena).cursor(),
        arena::same_bytes(old(arena).bytes(), final(arena).bytes(), 0, node as int),
        arena::same_bytes(
            old(arena).bytes(),
            final(arena).bytes(),
            node + node_size(height as int),
            old(arena).cap(),
        ),
        arena::u64_at(final(arena).bytes(), node + OFF_VERSION) == version,
        arena::u64_at(final(arena).bytes(), node + OFF_VALUE) == value,
        arena::u32_at(final(arena).bytes(), node + OFF_KEY_OFF) == key_off,
        arena::u32_at(final(arena).bytes(), node + OFF_KEY_LEN) == key_len,
        forall|l: int|
            0 <= l < height ==> #[trigger] link_at(final(arena).bytes(), node as int, l) == NULL,
{
    proof {
        arena.lemma_bounds();
    }
    let ghost m0 = arena.bytes();
    arena.write_u64(node + OFF_VERSION, version);
    let ghost m1 = arena.bytes();
    arena.write_u64(node + OFF_VALUE, value);
    let ghost m2 = arena.bytes();
    arena.write_u32(node + OFF_KEY_OFF, key_off);
    let ghost m3 = arena.bytes();
    arena.write_u32(node + OFF_KEY_LEN, key_len);
    proof {
        lemma_same_u64(m1, m2, node + OFF_VERSION);
        lemma_same_u64(m2, m3, node + OFF_VERSION);
        lemma_same_u64(m2, m3, node + OFF_VALUE);
        lemma_same_u64(m3, arena.bytes(), node + OFF_VERSION);
        lemma_same_u64(m3, arena.bytes(), node + OFF_VALUE);
        lemma_same_u32(m3, arena.bytes(), node + OFF_KEY_OFF);
    }
    let mut level: usize = 0;
    while level < height
        invariant
            arena.wf(),
            arena.cap() == old(arena).cap(),
            arena.cursor() == old(arena).cursor(),
            old(arena).cursor() <= old(arena).cap() <= u32::MAX,
            old(arena).bytes().len() == old(arena).cap(),
            1 <= height <= MAX_HEIGHT,
            level <= height,
            RESERVED <= node,
            node + node_size(height as int) <= old(arena).cursor(),
            arena::same_bytes(old(arena).bytes(), arena.bytes(), 0, node as int),
            arena::same_bytes(
                old(arena).bytes(),
                arena.bytes(),
                node + node_size(height as int),
                old(arena).cap(),
            ),
            arena::u64_at(arena.bytes(), node + OFF_VERSION) == version,
            arena::u64_at(arena.bytes(), node + OFF_VALUE) == value,
            arena::u32_at(arena.bytes(), node + OFF_KEY_OFF) == key_off,
            arena::u32_at(arena.bytes(), node + OFF_KEY_LEN) == key_len,
            forall|l: int|
                0 <= l < level ==> #[trigger] link_at(arena.bytes(), node as int, l) == NULL,
        decreases height - level,
    {
        let ghost before = arena.bytes();
        arena.write_u32(node + OFF_TOWER + (level as u32) * 4, NULL);
        proof {
            lemma_same_fields(before, arena.bytes(), node as int);
            assert forall|l: int| 0 <= l < level implies #[trigger] link_at(
                arena.bytes(),
                node as int,
                l,
            ) == NULL by {
                assert(link_at(before, node as int, l) == NULL);
                lemma_same_u32(before, arena.bytes(), slot(node as int, l));
            }
        }
        level += 1;
    }
}

/// Claims room for a node and writes it.
pub(crate) fn alloc_node(
    arena: &mut Arena,
    height: usize,
    version: u64,
    key_off: u32,
    key_len: u32,
    value: u64,
) -> (r: Result<u32, ArenaFull>)
    requires
        old(arena).wf(),
        1 <= height <= MAX_HEIGHT,
    ensures
        final(arena).wf(),
        final(arena).cap() == old(arena).cap(),
        r is Ok <==> arena::fits(
            old(arena).cursor(),
            node_size(height as int),
            NODE_ALIGN as int,
            old(arena).cap(),
        ),
        r is Err ==> *final(arena) == *old(arena),
        r matches Ok(node) ==> {
            &&& node == arena::align_up(old(arena).cursor(), NODE_ALIGN as int)
            &&& final(arena).cursor() == node + node_size(height as int)
            &&& arena::same_bytes(old(arena).bytes(), final(arena).bytes(), 0, node as int)
            &&& arena::u64_at(final(arena).bytes(), node + OFF_VERSION) == version
            &&& arena::u64_at(final(arena).bytes(), node + OFF_VALUE) == value
            &&& arena::u32_at(final(arena).bytes(), node + OFF_KEY_OFF) == key_off
            &&& arena::u32_at(final(arena).bytes(), node + OFF_KEY_LEN) == key_len
            &&& forall|l: int|
                0 <= l < height ==> #[trigger] link_at(final(arena).bytes(), node as int, l) == NULL
        },
{
    let size: u32 = OFF_TOWER + (height as u32) * 4;
    proof {
        arena.lemma_bounds();
        arena::lemma_align_up(arena.cursor(), NODE_ALIGN as int);
    }
    match arena.allocate(size, NODE_ALIGN) {
        Err(full) => Err(full),
        Ok(node) => {
            init_node(arena, node, height, version, key_off, key_len, value);
            Ok(node)
        },
    }
}

} // verus!
