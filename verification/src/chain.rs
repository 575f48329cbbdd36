//! The mathematical side of a list: ordered sequences of items, the map that
//! they stand for, and the chains of links that spell them out in the arena.

use crate::node;
use crate::node::NodeInfo;
use crate::order;
use crate::order::Id;
use vstd::prelude::*;

verus! {

/// One entry of a list.
pub struct Item {
    pub key: Seq<u8>,
    pub version: u64,
    /// `None` is a tombstone, which is distinct from the entry being absent.
    pub value: Option<Seq<u8>>,
}

/// The key and version of an item.
pub open spec fn item_id(item: Item) -> Id {
    (item.key, item.version)
}

/// Items stand in entry order, and no two have the same key and version.
pub open spec fn sorted(items: Seq<Item>) -> bool {
    forall|i: int, j: int|
        #![trigger items[i], items[j]]
        0 <= i < j < items.len() ==> order::before(item_id(items[i]), item_id(items[j]))
}

/// Some item has this key and version.
pub open spec fn has_id(items: Seq<Item>, id: Id) -> bool {
    exists|i: int| 0 <= i < items.len() && item_id(#[trigger] items[i]) == id
}

/// Where the item with this key and version stands.
pub open spec fn place_of(items: Seq<Item>, id: Id) -> int {
    choose|i: int| 0 <= i < items.len() && item_id(#[trigger] items[i]) == id
}

/// The map that a sequence of items stands for.
pub open spec fn model(items: Seq<Item>) -> Map<Id, Option<Seq<u8>>> {
    Map::new(|id: Id| has_id(items, id), |id: Id| items[place_of(items, id)].value)
}

/// In sorted items a key and version occur in one place only.
pub proof fn lemma_one_place(items: Seq<Item>, i: int)
    requires
        sorted(items),
        0 <= i < items.len(),
    ensures
        has_id(items, item_id(items[i])),
        place_of(items, item_id(items[i])) == i,
        model(items).contains_key(item_id(items[i])),
        model(items)[item_id(items[i])] == items[i].value,
{
    let id = item_id(items[i]);
    let j = place_of(items, id);
    if i < j {
        order::lemma_before_irreflexive(id);
    } else if j < i {
        order::lemma_before_irreflexive(id);
    }
}

/// Putting an item where it belongs adds it to the map.
pub proof fn lemma_model_inserts(items: Seq<Item>, at: int, item: Item)
    requires
        sorted(items),
        0 <= at <= items.len(),
        at > 0 ==> order::before(item_id(items[at - 1]), item_id(item)),
        at < items.len() ==> order::before(item_id(item), item_id(items[at])),
    ensures
        sorted(items.insert(at, item)),
        !has_id(items, item_id(item)),
        !model(items).contains_key(item_id(item)),
        model(items.insert(at, item)) == model(items).insert(item_id(item), item.value),
{
    let id = item_id(item);
    let after = items.insert(at, item);
    assert forall|i: int| 0 <= i < at implies order::before(item_id(#[trigger] items[i]), id) by {
        if i < at - 1 {
            order::lemma_before_transitive(item_id(items[i]), item_id(items[at - 1]), id);
        }
    }
    assert forall|i: int| at <= i < items.len() implies order::before(
        id,
        item_id(#[trigger] items[i]),
    ) by {
        if at < i {
            order::lemma_before_transitive(id, item_id(items[at]), item_id(items[i]));
        }
    }
    order::lemma_before_irreflexive(id);
    assert forall|i: int, j: int|
        #![trigger after[i], after[j]]
        0 <= i < j < after.len() implies order::before(item_id(after[i]), item_id(after[j])) by {
        let a = if i < at { i } else { i - 1 };
        let b = if j < at { j } else { j - 1 };
        if i != at {
            assert(after[i] == items[a]);
        }
        if j != at {
            assert(after[j] == items[b]);
        }
    }
    assert(after[at] == item);
    lemma_one_place(after, at);
    assert forall|other: Id| #[trigger]
        has_id(after, other) == (other == id || has_id(items, other)) by {
        if has_id(after, other) {
            let i = place_of(after, other);
            if i < at {
                assert(after[i] == items[i]);
            } else if i > at {
                assert(after[i] == items[i - 1]);
            }
        }
        if has_id(items, other) {
            let i = place_of(items, other);
            if i < at {
                assert(after[i] == items[i]);
            } else {
                assert(after[i + 1] == items[i]);
            }
        }
    }
    assert forall|other: Id| other != id && has_id(items, other) implies model(after)[other]
        == #[trigger] model(items)[other] by {
        let i = place_of(items, other);
        if i < at {
            assert(after[i] == items[i]);
            lemma_one_place(after, i);
        } else {
            assert(after[i + 1] == items[i]);
            lemma_one_place(after, i + 1);
        }
    }
    assert(model(after) =~= model(items).insert(id, item.value));
}

/// Giving an item another value changes the map at that place only.
pub proof fn lemma_model_updates(items: Seq<Item>, at: int, value: Option<Seq<u8>>)
    requires
        sorted(items),
        0 <= at < items.len(),
    ensures
        sorted(items.update(at, Item { value, ..items[at] })),
        model(items).contains_key(item_id(items[at])),
        model(items.update(at, Item { value, ..items[at] })) == model(items).insert(
            item_id(items[at]),
            value,
        ),
{
    let id = item_id(items[at]);
    let after = items.update(at, Item { value, ..items[at] });
    assert forall|i: int| 0 <= i < items.len() implies item_id(#[trigger] after[i]) == item_id(
        items[i],
    ) by {}
    assert(sorted(after));
    lemma_one_place(items, at);
    assert forall|other: Id| #[trigger] has_id(after, other) == has_id(items, other) by {
        if has_id(after, other) {
            let i = place_of(after, other);
            assert(item_id(items[i]) == other);
        }
        if has_id(items, other) {
            let i = place_of(items, other);
            assert(item_id(after[i]) == other);
        }
    }
    assert forall|other: Id| has_id(items, other) implies #[trigger] model(after)[other] == (if other
        == id {
        value
    } else {
        model(items)[other]
    }) by {
        let i = place_of(items, other);
        assert(item_id(after[i]) == other);
        lemma_one_place(after, i);
        lemma_one_place(items, i);
    }
    assert(model(after) =~= model(items).insert(id, value));
}

/// What a read of `key` at `snapshot` must give: the newest version that is not
/// above the snapshot, and nothing only where there is none.
pub open spec fn is_visible(
    map: Map<Id, Option<Seq<u8>>>,
    snapshot: u64,
    key: Seq<u8>,
    found: Option<Item>,
) -> bool {
    match found {
        None => forall|v: u64| v <= snapshot ==> !#[trigger] map.contains_key((key, v)),
        Some(item) => {
            &&& item.key == key
            &&& item.version <= snapshot
            &&& map.contains_key((key, item.version))
            &&& map[(key, item.version)] == item.value
            &&& forall|v: u64|
                item.version < v <= snapshot ==> !#[trigger] map.contains_key((key, v))
        },
    }
}

/// A read sees nothing exactly if the snapshot sees no version of the key.
pub proof fn law_a_read_of_nothing_finds_nothing(
    map: Map<Id, Option<Seq<u8>>>,
    snapshot: u64,
    key: Seq<u8>,
    found: Option<Item>,
)
    requires
        is_visible(map, snapshot, key, found),
    ensures
        found is None <==> forall|v: u64| v <= snapshot ==> !#[trigger] map.contains_key((key, v)),
{
    if let Some(item) = found {
        assert(map.contains_key((key, item.version)));
    }
}

/// The first item that does not come before (key, snapshot) is what a read sees,
/// if it is a version of that key at all.
pub proof fn lemma_first_not_before(items: Seq<Item>, at: int, key: Seq<u8>, snapshot: u64)
    requires
        sorted(items),
        0 <= at <= items.len(),
        at > 0 ==> order::before(item_id(items[at - 1]), (key, snapshot)),
        at < items.len() ==> !order::before(item_id(items[at]), (key, snapshot)),
    ensures
        at < items.len() && items[at].key == key ==> is_visible(
            model(items),
            snapshot,
            key,
            Some(items[at]),
        ),
        !(at < items.len() && items[at].key == key) ==> is_visible(
            model(items),
            snapshot,
            key,
            None,
        ),
{
    let target: Id = (key, snapshot);
    order::lemma_bytes_irreflexive(key);
    assert forall|v: u64| v <= snapshot && #[trigger] model(items).contains_key((key, v)) implies at
        < items.len() && items[at].key == key && v <= items[at].version by {
        let k = place_of(items, (key, v));
        assert(item_id(items[k]) == (key, v));
        assert(!order::before((key, v), target));
        if k < at {
            if k < at - 1 {
                order::lemma_before_transitive((key, v), item_id(items[at - 1]), target);
            }
            assert(false);
        }
        if k > at {
            assert(order::before(item_id(items[at]), (key, v)));
        }
    }
    if at < items.len() && items[at].key == key {
        lemma_one_place(items, at);
    }
}

/// What follows the `i`-th node of a chain; 0 at its end.
pub open spec fn follower(chain: Seq<int>, i: int) -> int {
    if i + 1 < chain.len() {
        chain[i + 1]
    } else {
        0
    }
}

/// A chain starts at the head, runs through nodes that reach its level, in entry
/// order, and is spelt out by their links at that level.
#[verifier::opaque]
pub open spec fn chain_ok(
    m: Seq<u8>,
    nodes: Map<int, NodeInfo>,
    head: int,
    chain: Seq<int>,
    level: int,
) -> bool {
    &&& chain.len() > 0
    &&& chain[0] == head
    &&& forall|i: int|
        0 <= i < chain.len() ==> nodes.contains_key(#[trigger] chain[i]) && level
            < nodes[chain[i]].height
    &&& forall|i: int| 0 < i < chain.len() ==> #[trigger] chain[i] != head
    &&& forall|i: int, j: int|
        #![trigger chain[i], chain[j]]
        0 < i < j < chain.len() ==> order::before(
            node::id_of(nodes[chain[i]]),
            node::id_of(nodes[chain[j]]),
        )
    &&& forall|i: int|
        0 <= i < chain.len() ==> node::link_at(m, #[trigger] chain[i], level) == follower(chain, i)
}

/// No node stands twice in a chain.
pub proof fn lemma_chain_distinct(
    m: Seq<u8>,
    nodes: Map<int, NodeInfo>,
    head: int,
    chain: Seq<int>,
    level: int,
    i: int,
    j: int,
)
    requires
        chain_ok(m, nodes, head, chain, level),
        0 <= i < chain.len(),
        0 <= j < chain.len(),
        chain[i] == chain[j],
    ensures
        i == j,
{
    reveal(chain_ok);
    if 0 < i && 0 < j && i != j {
        order::lemma_before_irreflexive(node::id_of(nodes[chain[i]]));
    }
}

/// A chain whose links did not change is still that chain, also among more nodes.
pub proof fn lemma_chain_kept(
    a: Seq<u8>,
    a_nodes: Map<int, NodeInfo>,
    b: Seq<u8>,
    b_nodes: Map<int, NodeInfo>,
    head: int,
    chain: Seq<int>,
    level: int,
)
    requires
        chain_ok(a, a_nodes, head, chain, level),
        forall|n: int| #[trigger]
            chain.contains(n) ==> {
                &&& b_nodes.contains_key(n)
                &&& node::id_of(b_nodes[n]) == node::id_of(a_nodes[n])
                &&& b_nodes[n].height == a_nodes[n].height
                &&& node::link_at(b, n, level) == node::link_at(a, n, level)
            },
    ensures
        chain_ok(b, b_nodes, head, chain, level),
{
    reveal(chain_ok);
    assert forall|i: int| 0 <= i < chain.len() implies chain.contains(#[trigger] chain[i]) by {}
}

/// Linking a node in where it belongs gives the longer chain.
pub proof fn lemma_chain_linked(
    a: Seq<u8>,
    b: Seq<u8>,
    nodes: Map<int, NodeInfo>,
    head: int,
    chain: Seq<int>,
    level: int,
    at: int,
    node: int,
)
    requires
        chain_ok(a, nodes, head, chain, level),
        0 <= at < chain.len(),
        nodes.contains_key(node),
        node != head,
        !chain.contains(node),
        level < nodes[node].height,
        at > 0 ==> order::before(node::id_of(nodes[chain[at]]), node::id_of(nodes[node])),
        at + 1 < chain.len() ==> order::before(
            node::id_of(nodes[node]),
            node::id_of(nodes[chain[at + 1]]),
        ),
        node::link_at(b, chain[at], level) == node,
        node::link_at(b, node, level) == follower(chain, at),
        forall|n: int| #[trigger]
            chain.contains(n) && n != chain[at] ==> node::link_at(b, n, level) == node::link_at(
                a,
                n,
                level,
            ),
    ensures
        chain_ok(b, nodes, head, chain.insert(at + 1, node), level),
{
    reveal(chain_ok);
    let after = chain.insert(at + 1, node);
    let id = node::id_of(nodes[node]);
    assert forall|i: int| 0 <= i < chain.len() implies chain.contains(#[trigger] chain[i]) by {}
    assert forall|i: int| 0 < i <= at implies order::before(
        node::id_of(nodes[#[trigger] chain[i]]),
        id,
    ) by {
        if i < at {
            order::lemma_before_transitive(
                node::id_of(nodes[chain[i]]),
                node::id_of(nodes[chain[at]]),
                id,
            );
        }
    }
    assert forall|i: int| at < i < chain.len() implies order::before(
        id,
        node::id_of(nodes[#[trigger] chain[i]]),
    ) by {
        if at + 1 < i {
            order::lemma_before_transitive(
                id,
                node::id_of(nodes[chain[at + 1]]),
                node::id_of(nodes[chain[i]]),
            );
        }
    }
    assert forall|i: int|
        0 <= i < after.len() implies #[trigger] after[i] == (if i <= at {
        chain[i]
    } else if i == at + 1 {
        node
    } else {
        chain[i - 1]
    }) by {}
    assert forall|i: int, j: int|
        #![trigger after[i], after[j]]
        0 < i < j < after.len() implies order::before(
        node::id_of(nodes[after[i]]),
        node::id_of(nodes[after[j]]),
    ) by {}
    assert forall|i: int| 0 <= i < after.len() implies node::link_at(b, #[trigger] after[i], level)
        == follower(after, i) by {
        if i < at {
            lemma_chain_apart(a, nodes, head, chain, level, i, at);
            assert(follower(after, i) == follower(chain, i));
        } else if i > at + 1 {
            lemma_chain_apart(a, nodes, head, chain, level, i - 1, at);
            assert(follower(after, i) == follower(chain, i - 1));
        }
    }
}

/// Different places of a chain hold different nodes.
pub proof fn lemma_chain_apart(
    m: Seq<u8>,
    nodes: Map<int, NodeInfo>,
    head: int,
    chain: Seq<int>,
    level: int,
    i: int,
    j: int,
)
    requires
        chain_ok(m, nodes, head, chain, level),
        0 <= i < chain.len(),
        0 <= j < chain.len(),
        i != j,
    ensures
        chain[i] != chain[j],
{
    if chain[i] == chain[j] {
        lemma_chain_distinct(m, nodes, head, chain, level, i, j);
    }
}

/// A chain with one node more holds that node and those it held before.
pub proof fn lemma_chain_members(chain: Seq<int>, at: int, node: int)
    requires
        0 <= at <= chain.len(),
    ensures
        forall|n: int| #[trigger]
            chain.insert(at, node).contains(n) <==> n == node || chain.contains(n),
{
    let after = chain.insert(at, node);
    assert forall|n: int| #[trigger] after.contains(n) <==> n == node || chain.contains(n) by {
        if after.contains(n) {
            let i = choose|i: int| 0 <= i < after.len() && after[i] == n;
            if i < at {
                assert(chain[i] == n);
            } else if i > at {
                assert(chain[i - 1] == n);
            }
        }
        if n == node {
            assert(after[at] == n);
        }
        if chain.contains(n) {
            let i = choose|i: int| 0 <= i < chain.len() && chain[i] == n;
            if i < at {
                assert(after[i] == n);
            } else {
                assert(after[i + 1] == n);
            }
        }
    }
}

/// The items along a chain, the head left out.
pub open spec fn items_of(nodes: Map<int, NodeInfo>, chain: Seq<int>) -> Seq<Item> {
    Seq::new(
        (chain.len() - 1) as nat,
        |i: int| Item {
            key: nodes[chain[i + 1]].key,
            version: nodes[chain[i + 1]].version,
            value: nodes[chain[i + 1]].value,
        },
    )
}

/// The items along a chain are sorted.
pub proof fn lemma_items_sorted(
    m: Seq<u8>,
    nodes: Map<int, NodeInfo>,
    head: int,
    chain: Seq<int>,
    level: int,
)
    requires
        chain_ok(m, nodes, head, chain, level),
    ensures
        sorted(items_of(nodes, chain)),
{
    reveal(chain_ok);
    let items = items_of(nodes, chain);
    assert forall|i: int, j: int|
        #![trigger items[i], items[j]]
        0 <= i < j < items.len() implies order::before(item_id(items[i]), item_id(items[j])) by {
        assert(order::before(
            node::id_of(nodes[chain[i + 1]]),
            node::id_of(nodes[chain[j + 1]]),
        ));
    }
}

} // verus!
