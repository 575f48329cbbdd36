//! Byte-string order, and the order of the entries of a list: keys ascend,
//! and the versions of one key descend.

use vstd::prelude::*;

verus! {

/// What identifies an entry: its key and its version.
pub type Id = (Seq<u8>, u64);

/// `a` and `b` hold the same bytes up to `i`, and the first difference, at `i`,
/// puts `a` first: either `a` ends there or its byte is the smaller one.
pub open spec fn splits_at(a: Seq<u8>, b: Seq<u8>, i: int) -> bool {
    &&& 0 <= i <= a.len()
    &&& i < b.len()
    &&& forall|j: int| 0 <= j < i ==> a[j] == b[j]
    &&& i < a.len() ==> a[i] < b[i]
}

/// Lexicographic order of byte strings; a proper prefix comes first.
pub open spec fn bytes_before(a: Seq<u8>, b: Seq<u8>) -> bool {
    exists|i: int| splits_at(a, b, i)
}

/// Entry order: key ascending, then version descending.
pub open spec fn before(a: Id, b: Id) -> bool {
    bytes_before(a.0, b.0) || (a.0 == b.0 && a.1 > b.1)
}

/// Where one entry stands against another in entry order.
#[derive(Debug, Clone, Copy, PartialEq, Eq, Structural)]
pub enum Position {
    Before,
    Same,
    After,
}

/// No byte string comes before itself.
pub proof fn lemma_bytes_irreflexive(a: Seq<u8>)
    ensures
        !bytes_before(a, a),
{
}

/// Byte-string order is transitive.
pub proof fn lemma_bytes_transitive(a: Seq<u8>, b: Seq<u8>, c: Seq<u8>)
    requires
        bytes_before(a, b),
        bytes_before(b, c),
    ensures
        bytes_before(a, c),
{
    let i = choose|i: int| splits_at(a, b, i);
    let j = choose|j: int| splits_at(b, c, j);
    let k = if i < j { i } else { j };
    assert(splits_at(a, c, k));
}

/// The first position from `i` on at which two strings that agree up to `i`
/// differ, or the end of the shorter one.
proof fn lemma_bytes_total_from(a: Seq<u8>, b: Seq<u8>, i: int)
    requires
        0 <= i <= a.len(),
        i <= b.len(),
        forall|j: int| 0 <= j < i ==> a[j] == b[j],
    ensures
        a == b || bytes_before(a, b) || bytes_before(b, a),
    decreases a.len() - i,
{
    if i == a.len() && i == b.len() {
        assert(a =~= b);
    } else if i == a.len() {
        assert(splits_at(a, b, i));
    } else if i == b.len() {
        assert(splits_at(b, a, i));
    } else if a[i] < b[i] {
        assert(splits_at(a, b, i));
    } else if b[i] < a[i] {
        assert(splits_at(b, a, i));
    } else {
        lemma_bytes_total_from(a, b, i + 1);
    }
}

/// Entry order is irreflexive.
pub proof fn lemma_before_irreflexive(a: Id)
    ensures
        !before(a, a),
{
    lemma_bytes_irreflexive(a.0);
}

/// Entry order is transitive.
pub proof fn lemma_before_transitive(a: Id, b: Id, c: Id)
    requires
        before(a, b),
        before(b, c),
    ensures
        before(a, c),
{
    if bytes_before(a.0, b.0) && bytes_before(b.0, c.0) {
        lemma_bytes_transitive(a.0, b.0, c.0);
    }
}

/// No two entries come before each other.
pub proof fn lemma_before_asymmetric(a: Id, b: Id)
    requires
        before(a, b),
    ensures
        !before(b, a),
        a != b,
{
    if before(b, a) {
        lemma_before_transitive(a, b, a);
    }
    lemma_before_irreflexive(a);
}

/// Entry order is total: of two entries one comes before the other, never both,
/// unless they are the same.
pub proof fn law_entry_order_is_total(a: Id, b: Id)
    ensures
        a == b || before(a, b) || before(b, a),
        !(before(a, b) && before(b, a)),
        before(a, b) || before(b, a) ==> a != b,
{
    lemma_bytes_total_from(a.0, b.0, 0);
    if before(a, b) {
        lemma_before_asymmetric(a, b);
    } else if before(b, a) {
        lemma_before_asymmetric(b, a);
    }
}

/// Byte strings are ordered by the first byte in which they differ, as numbers.
pub proof fn law_the_first_difference_decides(
    common: Seq<u8>,
    x: u8,
    rest: Seq<u8>,
    y: u8,
    other_rest: Seq<u8>,
)
    requires
        x < y,
    ensures
        bytes_before(common.push(x) + rest, common.push(y) + other_rest),
        !bytes_before(common.push(y) + other_rest, common.push(x) + rest),
{
    let a = common.push(x) + rest;
    let b = common.push(y) + other_rest;
    assert(splits_at(a, b, common.len() as int));
    lemma_before_asymmetric((a, 0), (b, 0));
}

/// A byte string comes before everything that goes on after it.
pub proof fn law_a_prefix_comes_first(prefix: Seq<u8>, x: u8, rest: Seq<u8>)
    ensures
        bytes_before(prefix, prefix.push(x) + rest),
        !bytes_before(prefix.push(x) + rest, prefix),
{
    let longer = prefix.push(x) + rest;
    assert(splits_at(prefix, longer, prefix.len() as int));
    lemma_before_asymmetric((prefix, 0), (longer, 0));
}

/// Byte-string order is total: of two byte strings one comes before the other, never
/// both, unless they are the same.
pub proof fn law_byte_order_is_total(a: Seq<u8>, b: Seq<u8>)
    ensures
        a == b || bytes_before(a, b) || bytes_before(b, a),
        !(bytes_before(a, b) && bytes_before(b, a)),
        bytes_before(a, b) ==> a != b,
{
    law_entry_order_is_total((a, 0), (b, 0));
}

/// Entries of different keys stand as their keys do, and of two versions of a key the
/// newer stands first.
pub proof fn law_keys_ascend_and_versions_descend(a: Seq<u8>, v: u64, b: Seq<u8>, w: u64)
    ensures
        a != b ==> (before((a, v), (b, w)) <==> bytes_before(a, b)),
        a == b ==> (before((a, v), (b, w)) <==> v > w),
{
    lemma_bytes_irreflexive(a);
}

/// Compares two byte strings.
pub fn compare_bytes(a: &[u8], b: &[u8]) -> (p: Position)
    ensures
        p == Position::Before <==> bytes_before(a@, b@),
        p == Position::Same <==> a@ == b@,
        p == Position::After <==> bytes_before(b@, a@),
{
    let mut i: usize = 0;
    while i < a.len() && i < b.len() && a[i] == b[i]
        invariant
            0 <= i <= a@.len(),
            i <= b@.len(),
            forall|j: int| 0 <= j < i ==> a@[j] == b@[j],
        decreases a@.len() - i,
    {
        i += 1;
    }
    proof {
        lemma_before_irreflexive((a@, 0));
        if bytes_before(a@, b@) {
            lemma_before_asymmetric((a@, 0), (b@, 0));
        }
        if bytes_before(b@, a@) {
            lemma_before_asymmetric((b@, 0), (a@, 0));
        }
    }
    if i == a.len() && i == b.len() {
        assert(a@ =~= b@);
        Position::Same
    } else if i == a.len() || (i < b.len() && a[i] < b[i]) {
        assert(splits_at(a@, b@, i as int));
        Position::Before
    } else {
        assert(splits_at(b@, a@, i as int));
        Position::After
    }
}

/// Compares two entries in entry order.
pub fn compare_entries(
    key: &[u8],
    version: u64,
    other_key: &[u8],
    other_version: u64,
) -> (p: Position)
    ensures
        p == Position::Before <==> before((key@, version), (other_key@, other_version)),
        p == Position::Same <==> (key@ == other_key@ && version == other_version),
        p == Position::After <==> before((other_key@, other_version), (key@, version)),
{
    match compare_bytes(key, other_key) {
        Position::Same => {
            proof {
                lemma_bytes_irreflexive(key@);
            }
            if version > other_version {
                Position::Before
            } else if version == other_version {
                Position::Same
            } else {
                Position::After
            }
        },
        Position::Before => Position::Before,
        Position::After => Position::After,
    }
}

} // verus!
