//! Page arithmetic, page-table entries and the checks of the `mmap` and
//! `munmap` system calls.
//!
//! Walking the page table is the memory manager's work: a caller translates
//! each page of the range and hands the entries found here, in page order.
use vstd::prelude::*;

verus! {

/// Bytes in a page.
pub const PAGE_SIZE: usize = 4096;

/// Bits of the offset within a page.
pub const PAGE_SIZE_BITS: usize = 12;

/// A page-table entry, by its raw bits: flags in the low 8 bits (valid,
/// readable, writable, executable, user, ...), the physical page number in
/// the 44 bits from bit 10 up.
#[derive(Clone, Copy, Debug, PartialEq, Eq, Structural)]
pub struct PageTableEntry {
    pub bits: u64,
}

impl PageTableEntry {
    /// The valid flag is set.
    pub open spec fn spec_is_valid(&self) -> bool {
        self.bits & 1 == 1
    }

    /// The physical page number the entry maps to.
    pub open spec fn spec_ppn(&self) -> u64 {
        (self.bits >> 10u64) & 0xfff_ffff_ffffu64
    }

    /// Whether the valid flag is set.
    #[verifier::when_used_as_spec(spec_is_valid)]
    pub fn is_valid(&self) -> (v: bool)
        ensures
            v == self.spec_is_valid(),
    {
        self.bits & 1 == 1
    }

    /// The physical page number the entry maps to.
    #[verifier::when_used_as_spec(spec_ppn)]
    pub fn ppn(&self) -> (p: u64)
        ensures
            p == self.spec_ppn(),
    {
        (self.bits >> 10u64) & 0xfff_ffff_ffffu64
    }
}

/// Permissions of a mapped area, by their bits: readable (bit 1), writable
/// (bit 2), executable (bit 3), user-accessible (bit 4).
#[derive(Clone, Copy, Debug, PartialEq, Eq, Structural)]
pub struct MapPermission {
    pub bits: u8,
}

/// The page that holds address `va`.
pub open spec fn floor_page(va: int) -> int {
    va / PAGE_SIZE as int
}

/// The first page at or above address `va`.
pub open spec fn ceil_page(va: int) -> int {
    (va + PAGE_SIZE - 1) / PAGE_SIZE as int
}

/// The page that holds address `va`.
pub fn page_floor(va: usize) -> (vpn: usize)
    ensures
        vpn == floor_page(va as int),
{
    va / PAGE_SIZE
}

/// The first page at or above address `va`.
pub fn page_ceil(va: usize) -> (vpn: usize)
    ensures
        vpn == ceil_page(va as int),
{
    if va % PAGE_SIZE == 0 {
        va / PAGE_SIZE
    } else {
        va / PAGE_SIZE + 1
    }
}

/// The offset of address `va` within its page.
pub fn page_offset(va: usize) -> (off: usize)
    ensures
        off == va % PAGE_SIZE,
{
    assert(va & 4095usize == va % 4096) by (bit_vector);
    va & (PAGE_SIZE - 1)
}

/// The arguments of `mmap` are acceptable: the start is page-aligned and
/// the protection asks for some of read (1), write (2), execute (4) and
/// nothing else.
pub open spec fn mmap_args_ok(start: usize, port: usize) -> bool {
    start % PAGE_SIZE == 0 && 1 <= port <= 7
}

/// Whether address `va` is the start of a page.
pub fn page_aligned(va: usize) -> (r: bool)
    ensures
        r == (va % PAGE_SIZE == 0),
{
    va % PAGE_SIZE == 0
}

/// Whether `mmap` accepts a start at `start` with protection `port`: the
/// start is page-aligned, and `port` sets some of its low three bits and no
/// other bit.
pub fn mmap_args_valid(start: usize, port: usize) -> (r: bool)
    ensures
        r == mmap_args_ok(start, port),
{
    assert((port & 7 == 0 || port & !7usize != 0) <==> !(1 <= port <= 7)) by (bit_vector);
    !(start % PAGE_SIZE != 0 || (port & 0x07) == 0 || (port & (!0x07)) != 0)
}

/// The pages `[floor(start), ceil(start + len))` an `mmap` or `munmap` of
/// `len` bytes at `start` covers.
pub open spec fn page_count(start: usize, len: usize) -> int {
    ceil_page(start + len) - floor_page(start as int)
}

/// The page has a valid entry.
pub open spec fn entry_valid(p: Option<PageTableEntry>) -> bool {
    match p {
        Some(e) => e.spec_is_valid(),
        None => false,
    }
}

/// The page has an entry that is not valid.
pub open spec fn entry_invalid(p: Option<PageTableEntry>) -> bool {
    match p {
        Some(e) => !e.spec_is_valid(),
        None => false,
    }
}

/// Some page of the range is already mapped.
pub open spec fn any_valid(ptes: Seq<Option<PageTableEntry>>) -> bool {
    exists|i: int| 0 <= i < ptes.len() && entry_valid(#[trigger] ptes[i])
}

/// Some page of the range has an entry that is not valid.
pub open spec fn any_invalid(ptes: Seq<Option<PageTableEntry>>) -> bool {
    exists|i: int| 0 <= i < ptes.len() && entry_invalid(#[trigger] ptes[i])
}

/// The permissions `mmap` gives for protection `port`: user-accessible, and
/// readable, writable, executable as bits 0, 1, 2 of `port` ask.
pub open spec fn mmap_permission(port: usize) -> MapPermission {
    MapPermission { bits: (16 + 2 * port) as u8 }
}

/// A page with a valid entry, wherever it stands in the range, makes the
/// range count as already mapped.
pub proof fn lemma_valid_entry_is_seen(ptes: Seq<Option<PageTableEntry>>, i: int)
    requires
        0 <= i < ptes.len(),
        ptes[i] is Some,
        ptes[i].unwrap().bits & 1 == 1,
    ensures
        any_valid(ptes),
{
    assert(entry_valid(ptes[i]));
}

/// A page whose entry lacks the valid bit, wherever it stands in the range,
/// makes the range count as holding an invalid entry.
pub proof fn lemma_invalid_entry_is_seen(ptes: Seq<Option<PageTableEntry>>, i: int)
    requires
        0 <= i < ptes.len(),
        ptes[i] is Some,
        ptes[i].unwrap().bits & 1 != 1,
    ensures
        any_invalid(ptes),
{
    assert(entry_invalid(ptes[i]));
}

/// The permissions `mmap` gives are, bit by bit: readable exactly when bit 0
/// of the protection is set, writable exactly when bit 1 is, executable
/// exactly when bit 2 is, always user-accessible, and nothing else.
pub proof fn lemma_mmap_permission_bits(port: usize)
    requires
        1 <= port <= 7,
    ensures
        mmap_permission(port).bits & 16 == 16,
        (mmap_permission(port).bits & 2 == 2) == (port & 1 == 1),
        (mmap_permission(port).bits & 4 == 4) == (port & 2 == 2),
        (mmap_permission(port).bits & 8 == 8) == (port & 4 == 4),
        mmap_permission(port).bits & 0xe1 == 0,
{
    let b = mmap_permission(port).bits;
    assert({
        &&& b & 16 == 16
        &&& (b & 2 == 2) == (port & 1 == 1)
        &&& (b & 4 == 4) == (port & 2 == 2)
        &&& (b & 8 == 8) == (port & 4 == 4)
        &&& b & 0xe1 == 0
    }) by (bit_vector)
        requires
            1 <= port <= 7,
            b == (16 + 2 * port) as u8,
    ;
}

/// Decides `mmap(start, len, port)`. `ptes` holds, page by page, what the
/// page table holds for the pages the area covers. Returns `None` (the call
/// returns -1) when the arguments are unacceptable or some page is already
/// mapped; otherwise the permissions to map `[start, start + len)` with
/// (the call then maps it and returns 0).
pub fn sys_mmap(start: usize, len: usize, port: usize, ptes: &[Option<PageTableEntry>]) -> (r: Option<MapPermission>)
    requires
        mmap_args_ok(start, port) ==> start + len <= usize::MAX,
        mmap_args_ok(start, port) ==> ptes@.len() == page_count(start, len),
    ensures
        r is None <==> (!mmap_args_ok(start, port) || any_valid(ptes@)),
        r matches Some(perm) ==> perm == mmap_permission(port),
        r is None <==> (start % 4096 != 0 || port == 0 || port > 7 || exists|i: int|
            0 <= i < ptes@.len() && #[trigger] ptes@[i] is Some && ptes@[i].unwrap().bits & 1 == 1),
        r matches Some(perm) ==> {
            &&& perm.bits & 16 == 16
            &&& (perm.bits & 2 == 2) == (port & 1 == 1)
            &&& (perm.bits & 4 == 4) == (port & 2 == 2)
            &&& (perm.bits & 8 == 8) == (port & 4 == 4)
            &&& perm.bits & 0xe1 == 0
        },
{
    if !mmap_args_valid(start, port) {
        return None;
    }
    let mut i: usize = 0;
    while i < ptes.len()
        invariant
            i <= ptes@.len(),
            forall|j: int| 0 <= j < i ==> !entry_valid(#[trigger] ptes@[j]),
        decreases ptes@.len() - i,
    {
        if let Some(pte) = &ptes[i] {
            if pte.is_valid() {
                return None;
            }
        }
        i = i + 1;
    }
    let readable: u8 = if port >> 0usize & 1 == 1 { 2 } else { 0 };
    let writable: u8 = if port >> 1usize & 1 == 1 { 4 } else { 0 };
    let executable: u8 = if port >> 2usize & 1 == 1 { 8 } else { 0 };
    let bits: u8 = 16u8 | readable | writable | executable;
    assert(bits as int == 16 + 2 * port) by (bit_vector)
        requires
            1 <= port <= 7,
            readable == (if port >> 0usize & 1 == 1 { 2u8 } else { 0u8 }),
            writable == (if port >> 1usize & 1 == 1 { 4u8 } else { 0u8 }),
            executable == (if port >> 2usize & 1 == 1 { 8u8 } else { 0u8 }),
            bits == 16u8 | readable | writable | executable,
    ;
    proof {
        lemma_mmap_permission_bits(port);
    }
    Some(MapPermission { bits })
}

/// Decides `munmap(start, len)`. `ptes` holds, page by page, what the page
/// table holds for the pages the range covers. Returns `None` (the call
/// returns -1) when `start` is not page-aligned or some page has an entry
/// that is not valid; otherwise the page whose area is removed (the call
/// then removes it and returns 0).
pub fn sys_munmap(start: usize, len: usize, ptes: &[Option<PageTableEntry>]) -> (r: Option<usize>)
    requires
        start % PAGE_SIZE == 0 ==> start + len <= usize::MAX,
        start % PAGE_SIZE == 0 ==> ptes@.len() == page_count(start, len),
    ensures
        r is None <==> (start % PAGE_SIZE != 0 || any_invalid(ptes@)),
        r matches Some(vpn) ==> vpn == floor_page(start as int),
        r is None <==> (start % 4096 != 0 || exists|i: int|
            0 <= i < ptes@.len() && #[trigger] ptes@[i] is Some && ptes@[i].unwrap().bits & 1 != 1),
        r matches Some(vpn) ==> vpn == start / 4096,
{
    if !page_aligned(start) {
        return None;
    }
    let mut i: usize = 0;
    while i < ptes.len()
        invariant
            i <= ptes@.len(),
            forall|j: int| 0 <= j < i ==> !entry_invalid(#[trigger] ptes@[j]),
        decreases ptes@.len() - i,
    {
        if let Some(pte) = &ptes[i] {
            if !pte.is_valid() {
                return None;
            }
        }
        i = i + 1;
    }
    Some(page_floor(start))
}

/// The physical address of virtual address `va` in the page that `pte`
/// maps it to.
pub fn physical_address(pte: PageTableEntry, va: usize) -> (pa: u64)
    ensures
        pa == pte.spec_ppn() * PAGE_SIZE + va % PAGE_SIZE,
{
    let ppn = pte.ppn();
    let bits = pte.bits;
    assert(((bits >> 10u64) & 0xfff_ffff_ffffu64) <= 0xfff_ffff_ffffu64) by (bit_vector);
    assert(ppn << 12u64 == ppn * 4096) by (bit_vector)
        requires ppn <= 0xfff_ffff_ffffu64;
    let off = page_offset(va);
    (ppn << 12u64) + off as u64
}

} // verus!
