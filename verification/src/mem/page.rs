use vstd::prelude::*;
use crate::mem::{PhysAddr, VirtAddr, MemoryAddress};
use crate::mem::page::pagealloc::{MemoryArea, AVAILABLE_MEMORY, is_available_area};
use crate::mem::page::pagemapper::KERNEL_VMA;

pub mod pagealloc;
pub mod pagemapper;

verus! {

/// The bits of a page-table entry that hold the frame address.
pub const ADDR_MASK: u64 = 0x000F_FFFF_FFFF_F000;
/// The flag bits this kernel uses.
pub const KNOWN_FLAGS: u64 = 0x8000_0000_0000_0187;

/// Flags of a page-table entry.
#[derive(Debug, Clone, Copy, PartialEq, Eq, Structural)]
pub struct EntryFlags(pub u64);

impl EntryFlags {
    /// The entry maps something.
    pub fn present() -> (f: Self)
        ensures
            f.bits() == 1,
    {
        EntryFlags(1)
    }

    /// Writes are allowed.
    pub fn writable() -> (f: Self)
        ensures
            f.bits() == 2,
    {
        EntryFlags(2)
    }

    /// User mode may access the page.
    pub fn user() -> (f: Self)
        ensures
            f.bits() == 4,
    {
        EntryFlags(4)
    }

    /// The entry maps a large page.
    pub fn huge() -> (f: Self)
        ensures
            f.bits() == 0x80,
    {
        EntryFlags(0x80)
    }

    /// The mapping survives address-space switches.
    pub fn global() -> (f: Self)
        ensures
            f.bits() == 0x100,
    {
        EntryFlags(0x100)
    }

    /// Instructions may not be fetched from the page.
    pub fn nx() -> (f: Self)
        ensures
            f.bits() == 0x8000_0000_0000_0000,
    {
        EntryFlags(0x8000_0000_0000_0000)
    }

    /// No flag.
    pub fn empty() -> (f: Self)
        ensures
            f.bits() == 0,
    {
        EntryFlags(0)
    }

    /// The flag bits.
    pub open spec fn bits_spec(self) -> u64 {
        self.0
    }

    /// The flag bits.
    #[verifier::when_used_as_spec(bits_spec)]
    pub fn bits(self) -> (b: u64)
        ensures
            b == self.bits_spec(),
    {
        self.0
    }

    /// The flags among `bits` that this kernel knows; other bits are dropped.
    pub fn from_bits_truncate(bits: u64) -> (f: Self)
        ensures
            f.bits() == bits & KNOWN_FLAGS,
    {
        EntryFlags(bits & KNOWN_FLAGS)
    }

    /// Both sets of flags.
    pub fn union(self, other: Self) -> (f: Self)
        ensures
            f.bits() == self.bits() | other.bits(),
    {
        EntryFlags(self.0 | other.0)
    }

    /// Whether every flag of `other` is set.
    pub fn contains(self, other: Self) -> (r: bool)
        ensures
            r == (self.bits() & other.bits() == other.bits()),
    {
        self.0 & other.0 == other.0
    }
}

/// One entry of a page table: a frame address and flags in one word.
#[derive(Debug, Clone, Copy, PartialEq, Eq, Structural)]
pub struct PageTableEntry(u64);

impl PageTableEntry {
    /// The raw word.
    pub closed spec fn word(self) -> u64 {
        self.0
    }

    /// An entry that maps nothing.
    pub fn new() -> (e: Self)
        ensures
            e.word() == 0,
    {
        PageTableEntry(0)
    }

    /// The raw word of the entry.
    pub fn raw(&self) -> (w: u64)
        ensures
            w == self.word(),
    {
        self.0
    }

    /// Points the entry at the frame of `phys` with `flags`; the low twelve
    /// and the top twelve bits of the address are dropped.
    /// Nothing of the old entry survives; with known flags only, the
    /// address and the flags read back as given.
    pub fn set_addr(&mut self, phys: PhysAddr, flags: EntryFlags)
        ensures
            final(self).word() == (phys.value() as u64 & ADDR_MASK) | flags.bits(),
            flags.bits() & !KNOWN_FLAGS == 0 ==> final(self).word() & ADDR_MASK == phys.value() as u64 & ADDR_MASK,
            flags.bits() & !KNOWN_FLAGS == 0 ==> final(self).word() & KNOWN_FLAGS == flags.bits(),
            flags.bits() & !KNOWN_FLAGS == 0 ==> (final(self).word() & 1 != 0) == (flags.bits() & 1 != 0),
            flags.bits() & !KNOWN_FLAGS == 0 ==> (final(self).word() & 0x80 != 0) == (flags.bits() & 0x80 != 0),
    {
        let a = phys.as_u64();
        let f = flags.bits();
        let w = (a & 0x000F_FFFF_FFFF_F000) | f;
        proof {
            assert(f & !0x8000_0000_0000_0187u64 == 0 ==> {
                &&& w & 0x000F_FFFF_FFFF_F000u64 == a & 0x000F_FFFF_FFFF_F000u64
                &&& w & 0x8000_0000_0000_0187u64 == f
                &&& (w & 1 != 0) == (f & 1 != 0)
                &&& (w & 0x80 != 0) == (f & 0x80 != 0)
            }) by (bit_vector)
                requires
                    w == (a & 0x000F_FFFF_FFFF_F000u64) | f,
            ;
        }
        self.0 = w;
    }

    /// Makes this the last-level entry that maps the page at `phys` with
    /// `flags`; the entry is always present.
    pub fn map_leaf(&mut self, phys: PhysAddr, flags: EntryFlags)
        ensures
            final(self).word() == (phys.value() as u64 & ADDR_MASK) | flags.bits() | 1,
            final(self).word() & 1 != 0,
            flags.bits() & !KNOWN_FLAGS == 0 ==> final(self).word() & ADDR_MASK == phys.value() as u64 & ADDR_MASK,
            flags.bits() & !KNOWN_FLAGS == 0 ==> final(self).word() & KNOWN_FLAGS == flags.bits() | 1,
    {
        self.set_addr(phys, flags.union(EntryFlags::present()));
        proof {
            let x: u64 = phys.value() as u64;
            let f: u64 = flags.bits();
            assert({
                &&& (x & 0x000F_FFFF_FFFF_F000u64) | (f | 1) == ((x & 0x000F_FFFF_FFFF_F000u64) | f) | 1
                &&& (((x & 0x000F_FFFF_FFFF_F000u64) | f) | 1) & 1 != 0
                &&& f & !0x8000_0000_0000_0187u64 == 0 ==> (f | 1) & !0x8000_0000_0000_0187u64 == 0
            }) by (bit_vector);
        }
    }

    /// The frame address the entry holds.
    pub fn addr(&self) -> (a: PhysAddr)
        ensures
            a.value() == (self.word() & ADDR_MASK) as usize,
    {
        PhysAddr::from(self.0 & 0x000F_FFFF_FFFF_F000)
    }

    /// The known flags of the entry.
    pub fn flags(&self) -> (f: EntryFlags)
        ensures
            f.bits() == self.word() & KNOWN_FLAGS,
    {
        EntryFlags::from_bits_truncate(self.0)
    }

    /// Sets `flags` in addition to those already set.
    pub fn add_flags(&mut self, flags: EntryFlags)
        ensures
            final(self).word() == old(self).word() | flags.bits(),
    {
        self.0 = self.0 | flags.bits();
    }

    /// Whether the entry maps something.
    pub fn is_present(&self) -> (r: bool)
        ensures
            r == (self.word() & 1 != 0),
    {
        self.0 & 1 != 0
    }

    /// Whether the entry maps a large page.
    pub fn is_huge(&self) -> (r: bool)
        ensures
            r == (self.word() & 0x80 != 0),
    {
        self.0 & 0x80 != 0
    }
}

/// A frame address written into an entry reads back unchanged when it is
/// page aligned and below 2^52, and the flags read back are the known ones given.
pub proof fn law_entry_round_trip(phys: u64, flags: u64)
    requires
        phys & !ADDR_MASK == 0,
        flags & ADDR_MASK == 0,
    ensures
        ((phys & ADDR_MASK) | flags) & ADDR_MASK == phys,
        ((phys & ADDR_MASK) | flags) & KNOWN_FLAGS == flags & KNOWN_FLAGS,
{
    assert(((phys & 0x000F_FFFF_FFFF_F000u64) | flags) & 0x000F_FFFF_FFFF_F000u64 == phys) by (bit_vector)
        requires
            phys & !0x000F_FFFF_FFFF_F000u64 == 0,
            flags & 0x000F_FFFF_FFFF_F000u64 == 0,
    ;
    assert(((phys & 0x000F_FFFF_FFFF_F000u64) | flags) & 0x8000_0000_0000_0187u64 == flags & 0x8000_0000_0000_0187u64)
        by (bit_vector)
        requires
            phys & !0x000F_FFFF_FFFF_F000u64 == 0,
            flags & 0x000F_FFFF_FFFF_F000u64 == 0,
    ;
}

/// The bits an entry on the way down to a leaf with `leaf` flags holds
/// besides the address of the next table: present and writable, and user
/// when the leaf is, since user mode reaches a page only through entries
/// that all allow it.
pub open spec fn walk_bits(leaf: EntryFlags) -> u64 {
    3u64 | (leaf.bits() & 4u64)
}

/// The index into the table of `level` (0 for the top level, 3 for the last)
/// that the virtual address `virt` selects.
pub open spec fn walk_index(virt: u64, level: nat) -> u64 {
    (virt >> ((39 - 9 * level) as u64)) % 512
}

/// Facts on the words a page walk writes.
proof fn lemma_walk_words(x: u64, w: u64, f: u64)
    by (bit_vector)
    ensures
        ((x & 0x000F_FFFF_FFFF_F000u64) | (3u64 | (f & 4u64))) & 0x000F_FFFF_FFFF_F000u64 == x & 0x000F_FFFF_FFFF_F000u64,
        ((x & 0x000F_FFFF_FFFF_F000u64) | (3u64 | (f & 4u64))) & 1u64 != 0,
        f & 4u64 != 0 ==> ((x & 0x000F_FFFF_FFFF_F000u64) | (3u64 | (f & 4u64))) & 4u64 != 0,
        (w | (f & 4u64)) & 0x000F_FFFF_FFFF_F000u64 == w & 0x000F_FFFF_FFFF_F000u64,
        (w | (f & 4u64)) & 1u64 == w & 1u64,
        f & 4u64 != 0 ==> (w | (f & 4u64)) & 4u64 != 0,
        f & 4u64 == 0 ==> w | (f & 4u64) == w,
{
}

/// What a page walk does at the entry it is given.
#[derive(Debug, Clone, Copy)]
pub enum WalkStep {
    /// The entry points to the next table, at this address: go on there.
    Next(PhysAddr),
    /// The entry is empty: link a fresh zeroed table with `PageWalk::link`.
    NeedTable,
    /// The leaf entry now maps the page: the walk is over.
    Done,
}

/// A walk down the four levels of page tables that maps the page at a
/// virtual address to a frame. At each level the caller hands it the entry
/// of the current table at `index`; every entry on the way down ends present
/// and writable, pointing at the next table, and user-accessible when the
/// leaf flags ask for user access; the last entry maps the frame with the
/// leaf flags, present.
pub struct PageWalk {
    virt: u64,
    phys: PhysAddr,
    flags: EntryFlags,
    level: usize,
}

impl PageWalk {
    /// The virtual address being mapped.
    pub closed spec fn virt(&self) -> u64 {
        self.virt
    }

    /// The frame it is mapped to.
    pub closed spec fn phys(&self) -> PhysAddr {
        self.phys
    }

    /// The flags of the leaf entry.
    pub closed spec fn flags(&self) -> EntryFlags {
        self.flags
    }

    /// The level of the table whose entry comes next: 0 for the top level,
    /// 3 for the last, 4 once the walk is over.
    pub closed spec fn level(&self) -> nat {
        self.level as nat
    }

    /// A walk from the top-level table that maps `virt` to `phys` with `flags`.
    pub fn new(virt: VirtAddr, phys: PhysAddr, flags: EntryFlags) -> (w: Self)
        ensures
            w.virt() == virt.value() as u64,
            w.phys() == phys,
            w.flags() == flags,
            w.level() == 0,
    {
        PageWalk { virt: virt.as_u64(), phys, flags, level: 0 }
    }

    /// Whether the walk is over.
    pub fn is_done(&self) -> (r: bool)
        ensures
            r == (self.level() >= 4),
    {
        self.level >= 4
    }

    /// The index of the entry that the walk needs next in the current table.
    pub fn index(&self) -> (i: usize)
        requires
            self.level() < 4,
        ensures
            i == walk_index(self.virt(), self.level()),
            i < 512,
    {
        let shift: u64 = 39 - 9 * self.level as u64;
        ((self.virt >> shift) % 512) as usize
    }

    /// One step at the entry `entry` of the current table: the last level
    /// maps the frame; above it, a present entry is made user-accessible when
    /// the leaf is and the walk goes on to the table it points to, and an
    /// empty entry is left for `link`.
    pub fn step(&mut self, entry: &mut PageTableEntry) -> (s: WalkStep)
        requires
            old(self).level() < 4,
        ensures
            final(self).virt() == old(self).virt(),
            final(self).phys() == old(self).phys(),
            final(self).flags() == old(self).flags(),
            old(self).level() == 3 ==> {
                &&& s is Done
                &&& final(self).level() == 4
                &&& final(entry).word() == (old(self).phys().value() as u64 & ADDR_MASK) | old(self).flags().bits() | 1
            },
            old(self).level() < 3 && old(entry).word() & 1 != 0 ==> {
                &&& s matches WalkStep::Next(a) && a.value() == (old(entry).word() & ADDR_MASK) as usize
                &&& final(self).level() == old(self).level() + 1
                &&& final(entry).word() == old(entry).word() | (old(self).flags().bits() & 4)
            },
            old(self).level() < 3 && old(entry).word() & 1 == 0 ==> {
                &&& s is NeedTable
                &&& final(self).level() == old(self).level()
                &&& *final(entry) == *old(entry)
            },
    {
        if self.level == 3 {
            entry.map_leaf(self.phys, self.flags);
            self.level = 4;
            WalkStep::Done
        } else if entry.is_present() {
            let next = entry.addr();
            entry.add_flags(EntryFlags(self.flags.bits() & 4));
            self.level = self.level + 1;
            WalkStep::Next(next)
        } else {
            WalkStep::NeedTable
        }
    }

    /// Links the empty entry `entry` of the current table to a fresh zeroed
    /// table in the frame `frame`, present and writable, and user-accessible
    /// when the leaf is; the walk goes on to that table.
    pub fn link(&mut self, entry: &mut PageTableEntry, frame: PhysAddr)
        requires
            old(self).level() < 3,
        ensures
            final(self).virt() == old(self).virt(),
            final(self).phys() == old(self).phys(),
            final(self).flags() == old(self).flags(),
            final(self).level() == old(self).level() + 1,
            final(entry).word() == (frame.value() as u64 & ADDR_MASK) | walk_bits(old(self).flags()),
    {
        entry.set_addr(frame, EntryFlags(3 | (self.flags.bits() & 4)));
        self.level = self.level + 1;
    }
}

/// A walk visits, level by level, the entries that `page_table_indices`
/// gives for its virtual address.
pub proof fn law_walk_visits_table_indices(v: u64)
    ensures
        walk_index(v, 0) == table_indices(v).0 as u64,
        walk_index(v, 1) == table_indices(v).1 as u64,
        walk_index(v, 2) == table_indices(v).2 as u64,
        walk_index(v, 3) == table_indices(v).3 as u64,
{
    assert({
        &&& (v >> 39u64) % 512 == (v >> 39u64) & 0x1FF && (v >> 39u64) & 0x1FF < 512
        &&& (v >> 30u64) % 512 == (v >> 30u64) & 0x1FF && (v >> 30u64) & 0x1FF < 512
        &&& (v >> 21u64) % 512 == (v >> 21u64) & 0x1FF && (v >> 21u64) & 0x1FF < 512
        &&& (v >> 12u64) % 512 == (v >> 12u64) & 0x1FF && (v >> 12u64) & 0x1FF < 512
    }) by (bit_vector);
    assert((39 - 9 * 0) as u64 == 39u64);
    assert((39 - 9 * 1) as u64 == 30u64);
    assert((39 - 9 * 2) as u64 == 21u64);
    assert((39 - 9 * 3) as u64 == 12u64);
}

/// Every entry a walk leaves on the way down, whether it linked it or found
/// it present, points where it did or at the new table, stays present, and
/// allows user access when the leaf flags do.
pub proof fn law_walk_entries(found: u64, frame: u64, leaf: EntryFlags)
    ensures
        ((frame & ADDR_MASK) | walk_bits(leaf)) & ADDR_MASK == frame & ADDR_MASK,
        ((frame & ADDR_MASK) | walk_bits(leaf)) & 1 != 0,
        leaf.bits() & 4 != 0 ==> ((frame & ADDR_MASK) | walk_bits(leaf)) & 4 != 0,
        (found | (leaf.bits() & 4)) & ADDR_MASK == found & ADDR_MASK,
        (found | (leaf.bits() & 4)) & 1 == found & 1,
        leaf.bits() & 4 != 0 ==> (found | (leaf.bits() & 4)) & 4 != 0,
{
    lemma_walk_words(frame, found, leaf.bits());
}

/// A page table: 512 entries, one page.
pub struct PageTable {
    entries: [PageTableEntry; 512],
}

impl PageTable {
    /// The entries.
    pub closed spec fn view(&self) -> Seq<PageTableEntry> {
        self.entries@
    }

    /// A table whose entries map nothing.
    pub fn new() -> (t: Self)
        ensures
            t.view().len() == 512,
            forall|i: int| 0 <= i < 512 ==> (#[trigger] t.view()[i]).word() == 0,
    {
        PageTable { entries: [PageTableEntry(0); 512] }
    }

    /// Replaces entry `index`.
    pub fn set_entry(&mut self, index: usize, entry: PageTableEntry)
        requires
            index < 512,
        ensures
            final(self).view() == old(self).view().update(index as int, entry),
    {
        self.entries[index] = entry;
    }

    /// The top-level table of a new user address space: the lower half,
    /// where user mappings go, maps nothing, and the upper half shares the
    /// kernel's entries with `self`.
    pub fn user_copy(&self) -> (t: Self)
        ensures
            t.view().len() == 512,
            forall|i: int| 0 <= i < 256 ==> (#[trigger] t.view()[i]).word() == 0,
            forall|i: int| 256 <= i < 512 ==> #[trigger] t.view()[i] == self.view()[i],
    {
        let mut t = PageTable::new();
        let mut index: usize = 256;
        while index < 512
            invariant
                256 <= index <= 512,
                t.view().len() == 512,
                self.view().len() == 512,
                forall|i: int| 0 <= i < 256 ==> (#[trigger] t.view()[i]).word() == 0,
                forall|i: int| 256 <= i < index ==> #[trigger] t.view()[i] == self.view()[i],
            decreases 512 - index,
        {
            t.entries[index] = self.entries[index];
            index = index + 1;
        }
        t
    }

    /// Entry `index`, to change in place.
    pub fn entry_mut(&mut self, index: usize) -> (e: &mut PageTableEntry)
        requires
            index < 512,
        ensures
            *e == old(self).view()[index as int],
            final(self).view() == old(self).view().update(index as int, *final(e)),
    {
        &mut self.entries[index]
    }

    /// Entry `index`.
    pub fn entry(&self, index: usize) -> (e: &PageTableEntry)
        requires
            index < 512,
        ensures
            *e == self.view()[index as int],
    {
        &self.entries[index]
    }
}

/// The four table indices of a virtual address, from the top level down:
/// nine bits each, above the twelve bits of the page offset.
pub open spec fn table_indices(v: u64) -> (usize, usize, usize, usize) {
    (((v >> 39u64) & 0x1FF) as usize, ((v >> 30u64) & 0x1FF) as usize, ((v >> 21u64) & 0x1FF) as usize, ((v >> 12u64)
        & 0x1FF) as usize)
}

/// The indices into the four levels of page tables that translate `v`.
pub fn page_table_indices(v: u64) -> (r: (usize, usize, usize, usize))
    ensures
        r == table_indices(v),
        r.0 < 512 && r.1 < 512 && r.2 < 512 && r.3 < 512,
{
    proof {
        assert((v >> 39u64) & 0x1FF < 512 && (v >> 30u64) & 0x1FF < 512 && (v >> 21u64) & 0x1FF < 512 && (v >> 12u64)
            & 0x1FF < 512) by (bit_vector);
    }
    (((v >> 39) & 0x1FF) as usize, ((v >> 30) & 0x1FF) as usize, ((v >> 21) & 0x1FF) as usize, ((v >> 12) & 0x1FF) as usize)
}

/// `pages` consecutive pages mapped from `virt` to `phys` with `flags`.
#[derive(Debug, Clone, Copy, PartialEq, Eq, Structural)]
pub struct MapRange {
    pub virt: u64,
    pub phys: u64,
    pub pages: u64,
    pub flags: EntryFlags,
}

/// Size of a page, as an address offset.
pub const PAGE_BYTES: u64 = 4096;

/// `addr` rounded down to a page boundary.
pub open spec fn page_floor(addr: u64) -> u64 {
    (addr - addr % 4096) as u64
}

/// `addr` rounded up to a page boundary.
pub open spec fn page_ceil(addr: u64) -> int {
    page_floor(addr) + if addr % 4096 == 0 { 0int } else { 4096 }
}

/// The number of pages that `start..end` visits in steps of a page.
pub open spec fn steps(start: int, end: int) -> int {
    if start >= end {
        0
    } else {
        (end - start + 4095) / 4096
    }
}

fn floor_page(addr: u64) -> (r: u64)
    ensures
        r == page_floor(addr),
{
    proof {
        assert(addr & !4095u64 == addr - addr % 4096) by (bit_vector);
    }
    addr & !4095
}

fn ceil_page(addr: u64) -> (r: u64)
    requires
        addr + 4095 <= u64::MAX,
    ensures
        r == page_ceil(addr),
{
    let bumped: u64 = addr + 4095;
    proof {
        assert(bumped & !4095u64 == (addr - addr % 4096) + if addr % 4096 == 0 { 0u64 } else { 4096u64 }) by (bit_vector)
            requires
                bumped == addr + 4095,
        ;
    }
    bumped & !4095
}

fn step_count(start: u64, end: u64) -> (n: u64)
    ensures
        n == steps(start as int, end as int),
{
    if start >= end {
        0
    } else {
        let span = end - start;
        span / 4096 + if span % 4096 == 0 { 0 } else { 1 }
    }
}

/// The mapping of an available memory area into the higher half.
pub open spec fn area_range(a: MemoryArea) -> MapRange {
    MapRange {
        virt: (a.start + KERNEL_VMA) as u64,
        phys: a.start,
        pages: steps(a.start as int, a.end as int) as u64,
        flags: EntryFlags(1u64 | 2u64 | 0x8000_0000_0000_0000u64),
    }
}

/// The mappings of the available areas among `areas`, in order.
pub open spec fn available_ranges(areas: Seq<MemoryArea>) -> Seq<MapRange>
    decreases areas.len(),
{
    if areas.len() == 0 {
        Seq::empty()
    } else {
        let rest = available_ranges(areas.drop_last());
        if areas.last().typ == AVAILABLE_MEMORY {
            rest.push(area_range(areas.last()))
        } else {
            rest
        }
    }
}

/// The pages from `start` to `end`, widened to page boundaries, mapped in
/// the higher half onto the physical addresses below it.
pub open spec fn high_range(start: u64, end: u64, flags: EntryFlags) -> MapRange {
    MapRange {
        virt: page_floor(start),
        phys: page_floor(start).wrapping_sub(KERNEL_VMA),
        pages: steps(page_floor(start) as int, page_ceil(end)) as u64,
        flags,
    }
}

/// The pages from `start` to `end`, widened to page boundaries, mapped onto themselves.
pub open spec fn identity_range(start: u64, end: u64, flags: EntryFlags) -> MapRange {
    MapRange { virt: page_floor(start), phys: page_floor(start), pages: steps(page_floor(start) as int, page_ceil(end)) as u64, flags }
}

/// Where the kernel image and its boot data lie.
#[derive(Debug, Clone, Copy, PartialEq, Eq, Structural)]
pub struct KernelRegions {
    pub kernel_start: u64,
    pub kernel_end: u64,
    pub bootdata_start: u64,
    pub bootdata_end: u64,
    pub mbi_start: u64,
    pub mbi_end: u64,
    pub text_start: u64,
    pub text_end: u64,
    pub rodata_start: u64,
    pub rodata_end: u64,
    pub data_start: u64,
    pub data_end: u64,
    pub bss_start: u64,
    pub bss_end: u64,
}

/// Whether a range mapped into the higher half starts there and its ends round without overflow.
pub open spec fn high_ok(start: u64, end: u64) -> bool {
    end + 4095 <= u64::MAX && (page_floor(start) >= KERNEL_VMA || steps(page_floor(start) as int, page_ceil(end)) == 0)
}

/// Whether the addresses of the kernel image and boot data can be rounded and mapped.
pub open spec fn regions_ok(r: KernelRegions) -> bool {
    &&& r.kernel_start + KERNEL_VMA <= u64::MAX && r.kernel_end + KERNEL_VMA + 4095 <= u64::MAX
    &&& high_ok((r.kernel_start + KERNEL_VMA) as u64, (r.kernel_end + KERNEL_VMA) as u64)
    &&& r.bootdata_end + 4095 <= u64::MAX && r.mbi_end + 4095 <= u64::MAX
    &&& high_ok(r.text_start, r.text_end) && high_ok(r.rodata_start, r.rodata_end)
    &&& high_ok(r.data_start, r.data_end) && high_ok(r.bss_start, r.bss_end)
}

/// The mappings of the kernel page table, in the order they are made: every
/// available area into the higher half; the kernel image, global; the boot
/// data and the boot information onto themselves; and then the kernel's
/// sections with their own rights (code executable and read-only, read-only
/// data, writable data and bss).
pub open spec fn kernel_plan(areas: Seq<MemoryArea>, r: KernelRegions) -> Seq<MapRange> {
    let pw_nx = EntryFlags(1u64 | 2u64 | 0x8000_0000_0000_0000u64);
    available_ranges(areas) + seq![
        high_range((r.kernel_start + KERNEL_VMA) as u64, (r.kernel_end + KERNEL_VMA) as u64, EntryFlags(1u64 | 2u64 | 0x8000_0000_0000_0000u64 | 0x100u64)),
        identity_range(r.bootdata_start, r.bootdata_end, pw_nx),
        identity_range(r.mbi_start, r.mbi_end, pw_nx),
        high_range(r.text_start, r.text_end, EntryFlags(1u64 | 0x100u64)),
        high_range(r.rodata_start, r.rodata_end, EntryFlags(1u64 | 0x8000_0000_0000_0000u64 | 0x100u64)),
        high_range(r.data_start, r.data_end, EntryFlags(1u64 | 2u64 | 0x8000_0000_0000_0000u64 | 0x100u64)),
        high_range(r.bss_start, r.bss_end, EntryFlags(1u64 | 2u64 | 0x8000_0000_0000_0000u64 | 0x100u64)),
    ]
}

fn high_map_range(start: u64, end: u64, flags: EntryFlags) -> (m: MapRange)
    requires
        high_ok(start, end),
    ensures
        m == high_range(start, end, flags),
{
    let s = floor_page(start);
    let e = ceil_page(end);
    let pages = step_count(s, e as u64);
    MapRange { virt: s, phys: s.wrapping_sub(KERNEL_VMA), pages, flags }
}

pub(crate) fn identity_map_range(start: u64, end: u64, flags: EntryFlags) -> (m: MapRange)
    requires
        end + 4095 <= u64::MAX,
    ensures
        m == identity_range(start, end, flags),
{
    let s = floor_page(start);
    let e = ceil_page(end);
    let pages = step_count(s, e as u64);
    MapRange { virt: s, phys: s, pages, flags }
}

/// Whether a section from `start` to `end` can be mapped in the higher half.
fn high_fits(start: u64, end: u64) -> (b: bool)
    ensures
        b == high_ok(start, end),
{
    if end > u64::MAX - 4095 {
        return false;
    }
    let s = floor_page(start);
    let e = ceil_page(end);
    s >= KERNEL_VMA || step_count(s, e) == 0
}

/// Whether the kernel's addresses can be rounded and mapped; see `regions_ok`.
pub fn regions_fit(r: KernelRegions) -> (b: bool)
    ensures
        b == regions_ok(r),
{
    if r.kernel_start > u64::MAX - KERNEL_VMA || r.kernel_end > u64::MAX - KERNEL_VMA - 4095 {
        return false;
    }
    if r.bootdata_end > u64::MAX - 4095 || r.mbi_end > u64::MAX - 4095 {
        return false;
    }
    high_fits(r.kernel_start + KERNEL_VMA, r.kernel_end + KERNEL_VMA) && high_fits(r.text_start, r.text_end) && high_fits(
        r.rodata_start,
        r.rodata_end,
    ) && high_fits(r.data_start, r.data_end) && high_fits(r.bss_start, r.bss_end)
}

/// Whether every area can be addressed through the higher half.
pub fn areas_fit(areas: &[MemoryArea]) -> (b: bool)
    ensures
        b == forall|i: int| 0 <= i < areas@.len() ==> (#[trigger] areas@[i]).start + KERNEL_VMA <= u64::MAX,
{
    let mut i: usize = 0;
    while i < areas.len()
        invariant
            i <= areas@.len(),
            forall|k: int| 0 <= k < i ==> (#[trigger] areas@[k]).start + KERNEL_VMA <= u64::MAX,
        decreases areas@.len() - i,
    {
        if areas[i].start > u64::MAX - KERNEL_VMA {
            return false;
        }
        i = i + 1;
    }
    true
}

/// The mappings of the kernel page table; see `kernel_plan`.
pub fn kernel_map_plan(areas: &[MemoryArea], regions: KernelRegions) -> (plan: Vec<MapRange>)
    requires
        regions_ok(regions),
        forall|i: int| 0 <= i < areas@.len() ==> (#[trigger] areas@[i]).start + KERNEL_VMA <= u64::MAX,
    ensures
        plan@ == kernel_plan(areas@, regions),
{
    let mut plan: Vec<MapRange> = Vec::new();
    let pw_nx = EntryFlags::present().union(EntryFlags::writable()).union(EntryFlags::nx());
    assert(pw_nx == EntryFlags(1u64 | 2u64 | 0x8000_0000_0000_0000u64));
    let mut i: usize = 0;
    while i < areas.len()
        invariant
            i <= areas@.len(),
            forall|k: int| 0 <= k < areas@.len() ==> (#[trigger] areas@[k]).start + KERNEL_VMA <= u64::MAX,
            plan@ == available_ranges(areas@.take(i as int)),
            pw_nx == EntryFlags(1u64 | 2u64 | 0x8000_0000_0000_0000u64),
        decreases areas@.len() - i,
    {
        let area = areas[i];
        proof {
            assert(areas@.take(i + 1).drop_last() =~= areas@.take(i as int));
            assert(areas@.take(i + 1).last() == area);
        }
        if is_available_area(area.typ) {
            plan.push(MapRange { virt: area.start + KERNEL_VMA, phys: area.start, pages: step_count(area.start, area.end), flags: pw_nx });
        }
        i = i + 1;
    }
    assert(areas@.take(i as int) =~= areas@);
    let global = EntryFlags::global();
    let kernel_flags = pw_nx.union(global);
    plan.push(high_map_range(regions.kernel_start + KERNEL_VMA, regions.kernel_end + KERNEL_VMA, kernel_flags));
    plan.push(identity_map_range(regions.bootdata_start, regions.bootdata_end, pw_nx));
    plan.push(identity_map_range(regions.mbi_start, regions.mbi_end, pw_nx));
    let text_flags = EntryFlags::present().union(global);
    plan.push(high_map_range(regions.text_start, regions.text_end, text_flags));
    let rodata_flags = EntryFlags::present().union(EntryFlags::nx()).union(global);
    plan.push(high_map_range(regions.rodata_start, regions.rodata_end, rodata_flags));
    plan.push(high_map_range(regions.data_start, regions.data_end, kernel_flags));
    plan.push(high_map_range(regions.bss_start, regions.bss_end, kernel_flags));
    proof {
        assert(kernel_flags == EntryFlags(1u64 | 2u64 | 0x8000_0000_0000_0000u64 | 0x100u64));
        assert(text_flags == EntryFlags(1u64 | 0x100u64));
        assert(rodata_flags == EntryFlags(1u64 | 0x8000_0000_0000_0000u64 | 0x100u64));
    }
    assert(plan@ =~= kernel_plan(areas@, regions));
    plan
}

} // verus!
