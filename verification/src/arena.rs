//! Append-only memory arena: one zeroed block of bytes and a bump cursor.
//!
//! Space is claimed by moving the cursor forward and is never given back.
//! Offsets into the block stand in for pointers; offset 0 is never handed out.

use vstd::prelude::*;

verus! {

/// The offset that stands for "no value".
pub const NULL: u32 = 0;

/// Bytes at the front of the block that are never handed out. They keep offset
/// 0 unusable and leave the first claim 8-byte aligned.
pub const RESERVED: u32 = 8;

/// The arena has no room for a request.
#[derive(Debug, Clone, Copy, PartialEq, Eq, Structural)]
pub struct ArenaFull;

/// The powers of two that a `u32` can hold.
pub open spec fn is_power_of_two(a: u32) -> bool {
    ||| a == 0x1 || a == 0x2 || a == 0x4 || a == 0x8
    ||| a == 0x10 || a == 0x20 || a == 0x40 || a == 0x80
    ||| a == 0x100 || a == 0x200 || a == 0x400 || a == 0x800
    ||| a == 0x1000 || a == 0x2000 || a == 0x4000 || a == 0x8000
    ||| a == 0x1_0000 || a == 0x2_0000 || a == 0x4_0000 || a == 0x8_0000
    ||| a == 0x10_0000 || a == 0x20_0000 || a == 0x40_0000 || a == 0x80_0000
    ||| a == 0x100_0000 || a == 0x200_0000 || a == 0x400_0000 || a == 0x800_0000
    ||| a == 0x1000_0000 || a == 0x2000_0000 || a == 0x4000_0000 || a == 0x8000_0000
}

/// The smallest multiple of `align` that is not below `at`.
pub open spec fn align_up(at: int, align: int) -> int {
    ((at + align - 1) / align) * align
}

/// A claim of `size` bytes at a multiple of `align`, made while the cursor stands
/// at `at`, ends within `cap`.
pub open spec fn fits(at: int, size: int, align: int, cap: int) -> bool {
    align_up(at, align) + size <= cap
}

/// `m` with `data` written over it from `at` on.
pub open spec fn overwrite(m: Seq<u8>, at: int, data: Seq<u8>) -> Seq<u8> {
    Seq::new(
        m.len(),
        |i: int|
            if at <= i < at + data.len() {
                data[i - at]
            } else {
                m[i]
            },
    )
}

/// The little-endian 32-bit number at `at`.
pub open spec fn u32_at(m: Seq<u8>, at: int) -> int {
    m[at] + 0x100 * m[at + 1] + 0x1_0000 * m[at + 2] + 0x100_0000 * m[at + 3]
}

/// The little-endian 64-bit number at `at`.
pub open spec fn u64_at(m: Seq<u8>, at: int) -> int {
    u32_at(m, at) + 0x1_0000_0000 * u32_at(m, at + 4)
}

/// Two blocks hold the same bytes from `from` up to, not including, `to`.
pub open spec fn same_bytes(a: Seq<u8>, b: Seq<u8>, from: int, to: int) -> bool {
    forall|i: int| from <= i < to ==> #[trigger] a[i] == b[i]
}

/// The exponent of a power of two.
proof fn lemma_exponent(a: u32) -> (k: nat)
    requires
        is_power_of_two(a),
    ensures
        vstd::arithmetic::power2::pow2(k) == a,
        k < 32,
    decreases a,
{
    vstd::arithmetic::power2::lemma2_to64();
    let k = if a == 1 {
        0
    } else {
        let k = lemma_exponent((a / 2) as u32) + 1;
        vstd::arithmetic::power2::lemma_pow2_unfold(k);
        k
    };
    if k > 32 {
        vstd::arithmetic::power2::lemma_pow2_strictly_increases(32, k);
    }
    k
}

/// Masking off the low bits rounds down to a multiple of a power of two.
proof fn lemma_mask_rounds_down(x: u32, a: u32)
    requires
        is_power_of_two(a),
    ensures
        x & !((a - 1) as u32) == (x as int / a as int) * a,
{
    let k = lemma_exponent(a);
    vstd::bits::lemma_u32_low_bits_mask_is_mod(x, k);
    let m = (a - 1) as u32;
    assert(x & !m == x - (x & m)) by (bit_vector);
    vstd::arithmetic::div_mod::lemma_fundamental_div_mod(x as int, a as int);
    vstd::arithmetic::mul::lemma_mul_is_commutative(a as int, x as int / a as int);
}

/// `align_up` gives a multiple of `align` that is not below `at` and less than
/// `align` above it.
pub proof fn lemma_align_up(at: int, align: int)
    requires
        align > 0,
        at >= 0,
    ensures
        at <= align_up(at, align) < at + align,
        align_up(at, align) % align == 0,
{
    let q = (at + align - 1) / align;
    vstd::arithmetic::div_mod::lemma_fundamental_div_mod(at + align - 1, align);
    vstd::arithmetic::mul::lemma_mul_is_commutative(align, q);
    vstd::arithmetic::div_mod::lemma_mod_multiples_basic(q, align);
}

/// A later cursor never aligns to an earlier place.
pub proof fn lemma_align_up_monotonic(at: int, later: int, align: int)
    requires
        align > 0,
        0 <= at <= later,
    ensures
        align_up(at, align) <= align_up(later, align),
{
    vstd::arithmetic::div_mod::lemma_div_is_ordered(at + align - 1, later + align - 1, align);
    vstd::arithmetic::mul::lemma_mul_inequality(
        (at + align - 1) / align,
        (later + align - 1) / align,
        align,
    );
}

/// Aligning to one byte changes nothing.
pub proof fn lemma_align_up_one(at: int)
    ensures
        align_up(at, 1) == at,
{
}

/// What one attempt to move the cursor came to.
#[derive(Debug, Clone, Copy, PartialEq, Eq, Structural)]
pub enum Attempt {
    /// The cursor moved; the claim starts at this offset.
    Claimed(u32),
    /// The cursor no longer stood where it was seen; it stands here now.
    Moved(u32),
}

/// A fixed block of bytes and the bump cursor into it.
pub struct Arena {
    mem: Vec<u8>,
    cap: u32,
    /// The bump cursor: everything below it has been claimed.
    len: u32,
}

impl Arena {
    /// The size of the block.
    pub closed spec fn cap(&self) -> int {
        self.cap as int
    }

    /// Where the next claim starts, before alignment.
    pub closed spec fn cursor(&self) -> int {
        self.len as int
    }

    /// The block itself.
    pub closed spec fn bytes(&self) -> Seq<u8> {
        self.mem@
    }

    /// The cursor is past the reserved prefix and within the block; the prefix
    /// and everything not claimed yet is zero.
    pub closed spec fn wf(&self) -> bool {
        &&& self.mem@.len() == self.cap
        &&& RESERVED <= self.len <= self.cap
        &&& RESERVED < self.cap
        &&& forall|i: int| 0 <= i < RESERVED ==> #[trigger] self.mem@[i] == 0
        &&& forall|i: int| self.len <= i < self.cap ==> #[trigger] self.mem@[i] == 0
    }

    /// The cursor stays between the reserved prefix and the capacity, and what
    /// lies outside the claimed bytes is zero.
    pub proof fn lemma_bounds(&self)
        requires
            self.wf(),
        ensures
            RESERVED <= self.cursor() <= self.cap(),
            RESERVED < self.cap() <= u32::MAX,
            self.bytes().len() == self.cap(),
            forall|i: int| 0 <= i < RESERVED ==> #[trigger] self.bytes()[i] == 0,
            forall|i: int| self.cursor() <= i < self.cap() ==> #[trigger] self.bytes()[i] == 0,
    {
    }

    /// An empty arena over `cap` zeroed bytes.
    pub fn new(cap: u32) -> (arena: Self)
        requires
            cap > RESERVED,
        ensures
            arena.wf(),
            arena.cap() == cap,
            arena.cursor() == RESERVED,
            arena.bytes() == Seq::new(cap as nat, |i: int| 0u8),
    {
        let mem: Vec<u8> = vec![0u8; cap as usize];
        assert(mem@ =~= Seq::new(cap as nat, |i: int| 0u8));
        Arena { mem, cap, len: RESERVED }
    }

    /// One attempt at a claim by a writer that last saw the cursor at `seen`:
    /// the cursor moves only if it still stands there.
    pub fn try_alloc(&mut self, seen: u32, size: u32, align: u32) -> (r: Result<
        Attempt,
        ArenaFull,
    >)
        requires
            old(self).wf(),
            is_power_of_two(align),
            seen <= old(self).cursor(),
        ensures
            final(self).wf(),
            final(self).cap() == old(self).cap(),
            final(self).bytes() == old(self).bytes(),
            r is Err <==> !fits(seen as int, size as int, align as int, old(self).cap()),
            r is Ok && seen == old(self).cursor() ==> {
                &&& r == Ok::<Attempt, ArenaFull>(
                    Attempt::Claimed(align_up(seen as int, align as int) as u32),
                )
                &&& final(self).cursor() == align_up(seen as int, align as int) + size
            },
            r is Ok && seen != old(self).cursor() ==> r == Ok::<Attempt, ArenaFull>(
                Attempt::Moved(old(self).cursor() as u32),
            ),
            !(r is Ok && seen == old(self).cursor()) ==> *final(self) == *old(self),
    {
        proof {
            lemma_align_up(seen as int, align as int);
        }
        if align - 1 > u32::MAX - seen {
            proof {
                lemma_no_aligned_place(seen, align);
            }
            return Err(ArenaFull);
        }
        proof {
            lemma_mask_rounds_down((seen + (align - 1)) as u32, align);
        }
        let start: u32 = (seen + (align - 1)) & !(align - 1);
        if size > u32::MAX - start {
            return Err(ArenaFull);
        }
        let end: u32 = start + size;
        if end > self.cap {
            return Err(ArenaFull);
        }
        if self.len == seen {
            self.len = end;
            Ok(Attempt::Claimed(start))
        } else {
            Ok(Attempt::Moved(self.len))
        }
    }

    /// Claims `size` bytes at a multiple of `align`.
    pub fn allocate(&mut self, size: u32, align: u32) -> (r: Result<u32, ArenaFull>)
        requires
            old(self).wf(),
            is_power_of_two(align),
        ensures
            final(self).wf(),
            final(self).cap() == old(self).cap(),
            final(self).bytes() == old(self).bytes(),
            r is Ok <==> fits(old(self).cursor(), size as int, align as int, old(self).cap()),
            r matches Ok(start) ==> {
                &&& start == align_up(old(self).cursor(), align as int)
                &&& final(self).cursor() == start + size
                &&& forall|i: int|
                    start <= i < start + size ==> #[trigger] final(self).bytes()[i] == 0
            },
            r is Err ==> *final(self) == *old(self),
    {
        let mut cur: u32 = self.len;
        loop
            invariant
                *self == *old(self),
                self.wf(),
                cur == self.cursor(),
                is_power_of_two(align),
            decreases 0nat,
        {
            match self.try_alloc(cur, size, align) {
                Err(full) => {
                    return Err(full);
                },
                Ok(Attempt::Claimed(start)) => {
                    proof {
                        lemma_align_up(cur as int, align as int);
                    }
                    return Ok(start);
                },
                Ok(Attempt::Moved(actual)) => {
                    cur = actual;
                },
            }
        }
    }

    /// Claims room for `data` and copies it in.
    pub fn alloc_bytes(&mut self, data: &[u8]) -> (r: Result<u32, ArenaFull>)
        requires
            old(self).wf(),
        ensures
            final(self).wf(),
            final(self).cap() == old(self).cap(),
            r is Ok <==> old(self).cursor() + data@.len() <= old(self).cap(),
            r matches Ok(off) ==> {
                &&& off == old(self).cursor()
                &&& final(self).cursor() == off + data@.len()
                &&& final(self).bytes() == overwrite(old(self).bytes(), off as int, data@)
            },
            r is Err ==> *final(self) == *old(self),
    {
        if data.len() > u32::MAX as usize {
            return Err(ArenaFull);
        }
        proof {
            lemma_align_up_one(self.cursor());
        }
        match self.allocate(data.len() as u32, 1) {
            Err(full) => Err(full),
            Ok(off) => {
                self.fill(off, data);
                Ok(off)
            },
        }
    }

    /// Copies `data` into claimed bytes.
    pub(crate) fn fill(&mut self, off: u32, data: &[u8])
        requires
            old(self).wf(),
            RESERVED <= off,
            off + data@.len() <= old(self).cursor(),
        ensures
            final(self).wf(),
            final(self).cap() == old(self).cap(),
            final(self).cursor() == old(self).cursor(),
            final(self).bytes() == overwrite(old(self).bytes(), off as int, data@),
    {
        let mut i: usize = 0;
        while i < data.len()
            invariant
                old(self).wf(),
                RESERVED <= off,
                off + data@.len() <= old(self).cursor(),
                i <= data@.len(),
                self.cap == old(self).cap,
                self.len == old(self).len,
                self.mem@ == overwrite(old(self).mem@, off as int, data@.take(i as int)),
            decreases data@.len() - i,
        {
            self.mem[off as usize + i] = data[i];
            i += 1;
            assert(self.mem@ =~= overwrite(old(self).mem@, off as int, data@.take(i as int)));
        }
        assert(data@.take(data@.len() as int) =~= data@);
        assert(self.mem@ =~= overwrite(old(self).mem@, off as int, data@));
    }

    /// The byte at a claimed offset, for reading and writing.
    pub fn ptr_at(&mut self, offset: u32) -> (byte: &mut u8)
        requires
            old(self).wf(),
            RESERVED <= offset < old(self).cursor(),
        ensures
            final(self).wf(),
            final(self).cap() == old(self).cap(),
            final(self).cursor() == old(self).cursor(),
            *byte == old(self).bytes()[offset as int],
            final(self).bytes() == old(self).bytes().update(offset as int, *final(byte)),
    {
        &mut self.mem[offset as usize]
    }

    /// The `len` bytes from `offset` on. An empty read touches no memory, whatever
    /// the offset.
    pub fn slice(&self, offset: u32, len: u32) -> (s: &[u8])
        requires
            self.wf(),
            len > 0 ==> offset + len <= self.cap(),
        ensures
            len == 0 ==> s@ == Seq::<u8>::empty(),
            len > 0 ==> s@ == self.bytes().subrange(offset as int, offset + len),
    {
        if len == 0 {
            let none: &[u8] = &[];
            assert(none@ =~= Seq::<u8>::empty());
            return none;
        }
        vstd::slice::slice_subrange(
            self.mem.as_slice(),
            offset as usize,
            offset as usize + len as usize,
        )
    }

    /// Bytes claimed so far, the reserved prefix included.
    pub fn allocated(&self) -> (n: usize)
        ensures
            n == self.cursor(),
    {
        self.len as usize
    }

    /// The size of the block.
    pub fn capacity(&self) -> (n: usize)
        ensures
            n == self.cap(),
    {
        self.cap as usize
    }

    /// Bytes not claimed yet.
    pub fn remaining(&self) -> (n: usize)
        requires
            self.wf(),
        ensures
            n == self.cap() - self.cursor(),
    {
        self.capacity() - self.allocated()
    }

    /// Reads the 32-bit number at `off`.
    pub(crate) fn read_u32(&self, off: u32) -> (v: u32)
        requires
            self.wf(),
            off + 4 <= self.cap(),
        ensures
            v == u32_at(self.bytes(), off as int),
    {
        let i: usize = off as usize;
        self.mem[i] as u32 + 0x100 * (self.mem[i + 1] as u32) + 0x1_0000 * (self.mem[i + 2] as u32)
            + 0x100_0000 * (self.mem[i + 3] as u32)
    }

    /// Reads the 64-bit number at `off`.
    pub(crate) fn read_u64(&self, off: u32) -> (v: u64)
        requires
            self.wf(),
            off + 8 <= self.cap(),
        ensures
            v == u64_at(self.bytes(), off as int),
    {
        self.read_u32(off) as u64 + 0x1_0000_0000 * (self.read_u32(off + 4) as u64)
    }

    /// Writes the 32-bit number `v` into claimed bytes.
    pub(crate) fn write_u32(&mut self, off: u32, v: u32)
        requires
            old(self).wf(),
            RESERVED <= off,
            off + 4 <= old(self).cursor(),
        ensures
            final(self).wf(),
            final(self).cap() == old(self).cap(),
            final(self).cursor() == old(self).cursor(),
            u32_at(final(self).bytes(), off as int) == v,
            same_bytes(old(self).bytes(), final(self).bytes(), 0, off as int),
            same_bytes(old(self).bytes(), final(self).bytes(), off + 4, old(self).cap()),
    {
        let i: usize = off as usize;
        self.mem[i] = (v % 0x100) as u8;
        self.mem[i + 1] = (v / 0x100 % 0x100) as u8;
        self.mem[i + 2] = (v / 0x1_0000 % 0x100) as u8;
        self.mem[i + 3] = (v / 0x100_0000) as u8;
    }

    /// Writes the 64-bit number `v` into claimed bytes.
    pub(crate) fn write_u64(&mut self, off: u32, v: u64)
        requires
            old(self).wf(),
            RESERVED <= off,
            off + 8 <= old(self).cursor(),
        ensures
            final(self).wf(),
            final(self).cap() == old(self).cap(),
            final(self).cursor() == old(self).cursor(),
            u64_at(final(self).bytes(), off as int) == v,
            same_bytes(old(self).bytes(), final(self).bytes(), 0, off as int),
            same_bytes(old(self).bytes(), final(self).bytes(), off + 8, old(self).cap()),
    {
        self.write_u32(off, (v % 0x1_0000_0000) as u32);
        self.write_u32(off + 4, (v / 0x1_0000_0000) as u32);
    }
}

/// Above the last multiple of `align` that a `u32` holds there is none to align to.
proof fn lemma_no_aligned_place(seen: u32, align: u32)
    requires
        is_power_of_two(align),
        seen + align - 1 > u32::MAX,
    ensures
        align_up(seen as int, align as int) > u32::MAX,
{
    lemma_align_up(seen as int, align as int);
}

/// The alignments that can be asked for are the powers of two below 2^32.
pub proof fn law_alignments_are_powers_of_two(align: u32, k: nat)
    requires
        k < 32,
    ensures
        vstd::arithmetic::power2::pow2(k) == align ==> is_power_of_two(align),
        is_power_of_two(align) ==> exists|j: nat|
            j < 32 && #[trigger] vstd::arithmetic::power2::pow2(j) == align,
{
    vstd::arithmetic::power2::lemma2_to64();
    if is_power_of_two(align) {
        let j = lemma_exponent(align);
    }
}

/// Every claim is aligned as asked, lies past the reserved prefix, is not the
/// null offset, and ends within the capacity.
pub proof fn law_claims_are_in_place(cursor: int, size: int, align: int, cap: int)
    requires
        cursor >= RESERVED,
        align > 0,
        fits(cursor, size, align, cap),
    ensures
        align_up(cursor, align) % align == 0,
        align_up(cursor, align) >= cursor,
        align_up(cursor, align) >= RESERVED,
        align_up(cursor, align) != NULL,
        align_up(cursor, align) + size <= cap,
{
    lemma_align_up(cursor, align);
}

/// A request fits wherever there is a place for it: any multiple of the alignment, not
/// below the cursor, from which it ends within the capacity. The claim is made at the
/// first such place.
pub proof fn law_a_request_fits_where_there_is_a_place(
    cursor: int,
    size: int,
    align: int,
    cap: int,
    place: int,
)
    requires
        0 <= cursor <= place,
        align > 0,
        place % align == 0,
        place + size <= cap,
    ensures
        fits(cursor, size, align, cap),
        align_up(cursor, align) <= place,
{
    let up = align_up(place, align);
    lemma_align_up(place, align);
    lemma_align_up_monotonic(cursor, place, align);
    vstd::arithmetic::div_mod::lemma_sub_mod_noop(up, place, align);
    vstd::arithmetic::div_mod::lemma_small_mod((up - place) as nat, align as nat);
    vstd::arithmetic::div_mod::lemma_small_mod(0, align as nat);
}

/// A request with room for the most padding that its alignment can take fits.
pub proof fn law_a_request_with_room_fits(cursor: int, size: int, align: int, cap: int)
    requires
        0 <= cursor,
        align > 0,
        cursor + (align - 1) + size <= cap,
    ensures
        fits(cursor, size, align, cap),
{
    lemma_align_up(cursor, align);
}

/// A claim moves the cursor to its own end, so the cursor never moves back, and
/// every later claim starts at or after the end of every earlier one: no two
/// overlap, padding included.
pub proof fn law_claims_do_not_overlap(
    cursor: int,
    size: int,
    align: int,
    later_cursor: int,
    later_align: int,
)
    requires
        cursor >= RESERVED,
        size >= 0,
        align > 0,
        later_align > 0,
        later_cursor >= align_up(cursor, align) + size,
    ensures
        align_up(cursor, align) + size >= cursor,
        align_up(later_cursor, later_align) >= align_up(cursor, align) + size,
{
    lemma_align_up(cursor, align);
    lemma_align_up(later_cursor, later_align);
}

/// A request that does not fit never fits later, whatever is claimed meanwhile,
/// nor does a larger one. So a writer that judges by a cursor it saw earlier is
/// right to give up.
pub proof fn law_full_stays_full(
    cursor: int,
    later_cursor: int,
    size: int,
    later_size: int,
    align: int,
    cap: int,
)
    requires
        0 <= cursor <= later_cursor,
        size <= later_size,
        align > 0,
        !fits(cursor, size, align, cap),
    ensures
        !fits(later_cursor, later_size, align, cap),
{
    lemma_align_up_monotonic(cursor, later_cursor, align);
}

/// What was written at one place is read back from it, and a write elsewhere
/// leaves it alone.
pub proof fn law_writes_are_read_back(
    m: Seq<u8>,
    at: int,
    data: Seq<u8>,
    other_at: int,
    other: Seq<u8>,
)
    requires
        0 <= at,
        at + data.len() <= m.len(),
        0 <= other_at,
        other_at + other.len() <= m.len(),
        other_at + other.len() <= at || at + data.len() <= other_at,
    ensures
        overwrite(m, at, data).len() == m.len(),
        overwrite(m, at, data).subrange(at, at + data.len()) == data,
        overwrite(m, other_at, other).subrange(at, at + data.len()) == m.subrange(
            at,
            at + data.len(),
        ),
{
    assert(overwrite(m, at, data).subrange(at, at + data.len()) =~= data);
    assert(overwrite(m, other_at, other).subrange(at, at + data.len()) =~= m.subrange(
        at,
        at + data.len(),
    ));
}

} // verus!
