# memtable

An in-memory ordered map from (key, version) to value, as the write buffer of a
log-structured store keeps it, verified with Verus. Keys ascend, and the versions
of one key descend, so the version that a snapshot sees is the first one at or
after (key, snapshot).

All of it lies in one fixed block of bytes. Space is claimed by moving a cursor
forward and is never given back; when a write no longer fits, it is refused, and
the owner freezes the list and starts another.

- `src/arena.rs`: the block and its cursor.
- `src/order.rs`: byte-string order and entry order.
- `src/node.rs`: how nodes lie in the block, byte by byte.
- `src/chain.rs`: ordered sequences of entries, the maps they stand for, and the
  chains of links that spell them out.
- `src/skiplist.rs`: the list, its reads and its writes.
- `src/skiplist/put.rs`, `lookup.rs`: a write and a read, one access to shared
  state at a time.
- `src/skiplist/shared.rs`: the accesses themselves, and what each leaves alone.
- `src/skiplist/laws.rs`: what holds of a list as a whole.
- `app/`: the list behind a lock, for use by several threads.

A list is at any time a map, `list@`. `insert` and `remove` say exactly when they
succeed, what the map is afterwards, and how many bytes were claimed. `get` gives
the newest version that is not above the snapshot. Writers and readers may also
take their steps one by one, interleaved in any order: the laws say that they do
not disturb each other, that each write changes the map in one step, that a write
of a stored entry stays a rewrite whatever others do, that writes in progress
together all finish within a number of steps fixed at the start, and that the list
has counted and linked every entry when they have.
