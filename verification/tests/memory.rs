use zeronix::alloc_layout::Layout;
use zeronix::mem::heap::{blocks_are_adjacent, FreeBlock, FreeList, CHUNK_SIZE, MIN_FREE_BLOCK_SIZE};
use zeronix::mem::page::pagealloc::{
    allocator_inputs_fit, frame_count, BuddyAllocator, MemoryArea, PageInfo, MAX_SUPPORTED_PAGES, PAGE_SIZE,
};
use zeronix::mem::page::pagemapper::KERNEL_VMA;
use zeronix::mem::page::{
    areas_fit, kernel_map_plan, page_table_indices, regions_fit, EntryFlags, KernelRegions, MapRange, PageTable,
    PageTableEntry, PageWalk, WalkStep,
};
use zeronix::mem::{MemoryAddress, PhysAddr, VirtAddr};
use zeronix::task::proc::{bootdata_mapping, user_layout, user_mappings};

fn fb(start: usize, size: usize) -> FreeBlock {
    FreeBlock { start, size }
}

#[test]
fn free_list_coalesces_neighbours() {
    let mut l = FreeList::new();
    l.insert_and_coalesce(0x1000, 0x100);
    l.insert_and_coalesce(0x3000, 0x100);
    assert_eq!(l.blocks().clone(), vec![fb(0x1000, 0x100), fb(0x3000, 0x100)]);
    l.insert_and_coalesce(0x1100, 0x1f00);
    assert_eq!(l.blocks().clone(), vec![fb(0x1000, 0x2100)]);
    l.insert_and_coalesce(0x800, 0x800);
    assert_eq!(l.blocks().clone(), vec![fb(0x800, 0x2900)]);
}

#[test]
fn adjacency() {
    assert!(blocks_are_adjacent(fb(0x1000, 0x10), 0x1010));
    assert!(!blocks_are_adjacent(fb(0x1000, 0x10), 0x1011));
    assert!(blocks_are_adjacent(fb(usize::MAX - 1, 10), usize::MAX));
}

#[test]
fn first_fit_allocation_splits_the_block() {
    let mut l = FreeList::new();
    l.insert_and_coalesce(0x10000, 0x1000);
    let layout = Layout::from_size_align(100, 8).unwrap();
    let a = l.allocate_from_free_list(layout).unwrap();
    assert_eq!(a.block_start, 0x10000);
    assert_eq!(a.user_ptr % 8, 0);
    assert!(a.user_ptr >= a.block_start + 24);
    assert!(a.used_size >= 24 + 8 + 100);
    let rest = l.blocks().clone();
    assert_eq!(rest.len(), 1);
    assert_eq!(rest[0].start, 0x10000 + a.used_size);
    assert_eq!(rest[0].start + rest[0].size, 0x11000);
    let big = Layout::from_size_align(0x2000, 8).unwrap();
    assert!(l.allocate_from_free_list(big).is_none());
    assert!(MIN_FREE_BLOCK_SIZE > 24 + 8);
}

fn buddy() -> BuddyAllocator {
    let metadata = vec![PageInfo::default(); 1024];
    let areas = [
        MemoryArea { start: 0x10_0000, end: 0x40_0000, typ: 1 },
        MemoryArea { start: 0x40_0000, end: 0x40_1000, typ: 2 },
    ];
    let reserved = [(0x10_0000usize, 0x10_2000usize)];
    BuddyAllocator::new(metadata, &areas, &reserved)
}

#[test]
fn buddy_allocations_are_fresh_and_aligned() {
    let mut b = buddy();
    let x = b.allocate(0).unwrap();
    let y = b.allocate(0).unwrap();
    let z = b.allocate(2).unwrap();
    for a in [x, y, z] {
        assert_eq!(a % PAGE_SIZE, 0);
        assert!(a >= 0x10_2000 && a < 0x40_0000);
    }
    assert_ne!(x, y);
    assert_eq!(z % (4 * PAGE_SIZE), 0);
    assert!(z + 4 * PAGE_SIZE <= x || x + PAGE_SIZE <= z);
    assert!(b.can_deallocate(x));
    assert!(!b.can_deallocate(0x10_0000));
    b.deallocate(x);
    assert!(!b.can_deallocate(x));
    assert!(b.allocate(11).is_none());
}

#[test]
fn buddy_allocation_below_a_limit() {
    let mut b = buddy();
    let a = b.allocate_below(0, 0x20_0000).unwrap();
    assert!(a + PAGE_SIZE <= 0x20_0000);
    assert!(b.allocate_below(0, 0x10_1000).is_none());
}

#[test]
fn heap_grows_from_the_buddy_allocator() {
    let metadata = vec![PageInfo::default(); 4096];
    let areas = [MemoryArea { start: 0, end: 0x100_0000, typ: 1 }];
    let mut b = BuddyAllocator::new(metadata, &areas, &[]);
    let mut heap = FreeList::new();
    assert!(heap.grow_heap(&mut b));
    let blocks = heap.blocks().clone();
    assert_eq!(blocks.len(), 1);
    assert_eq!(blocks[0].size, CHUNK_SIZE);
    assert!(blocks[0].start >= KERNEL_VMA as usize);
}

#[test]
fn entry_flags_and_addresses() {
    let mut e = PageTableEntry::new();
    assert!(!e.is_present());
    e.set_addr(PhysAddr::from(0x1234_5678u64), EntryFlags::present().union(EntryFlags::writable()));
    assert_eq!(e.addr().as_u64(), 0x1234_5000);
    assert!(e.is_present());
    assert!(e.flags().contains(EntryFlags::writable()));
    assert!(!e.flags().contains(EntryFlags::user()));
    e.add_flags(EntryFlags::huge());
    assert!(e.is_huge());
    assert_eq!(e.raw(), 0x1234_5000 | 0x83);
    assert_eq!(EntryFlags::from_bits_truncate(0x7000_0000_0000_0201).bits(), 0x1);
}

#[test]
fn indices_of_an_address() {
    assert_eq!(page_table_indices(0xffff_8000_0010_0000), (256, 0, 0, 256));
    assert_eq!(page_table_indices(0x0000_7fff_ffff_f000), (255, 511, 511, 511));
}

#[test]
fn user_table_shares_the_kernel_half() {
    let mut k = PageTable::new();
    let mut e = PageTableEntry::new();
    e.set_addr(PhysAddr::from(0x5000u64), EntryFlags::present());
    k.set_entry(3, e);
    k.set_entry(300, e);
    let u = k.user_copy();
    assert_eq!(u.entry(3).raw(), 0);
    assert_eq!(u.entry(300).raw(), e.raw());
}

#[test]
fn kernel_plan_maps_areas_and_sections() {
    let areas = [
        MemoryArea { start: 0, end: 0x9_f000, typ: 1 },
        MemoryArea { start: 0xf_0000, end: 0x10_0000, typ: 2 },
    ];
    let vma = KERNEL_VMA;
    let regions = KernelRegions {
        kernel_start: 0x10_0000,
        kernel_end: 0x18_0800,
        bootdata_start: 0x20_0000,
        bootdata_end: 0x20_3000,
        mbi_start: 0x30_0010,
        mbi_end: 0x30_0100,
        text_start: vma + 0x10_0000,
        text_end: vma + 0x12_0000,
        rodata_start: vma + 0x12_0000,
        rodata_end: vma + 0x13_0000,
        data_start: vma + 0x13_0000,
        data_end: vma + 0x14_0000,
        bss_start: vma + 0x14_0000,
        bss_end: vma + 0x18_0800,
    };
    let plan = kernel_map_plan(&areas, regions);
    assert_eq!(plan.len(), 8);
    let pw_nx = EntryFlags::present().union(EntryFlags::writable()).union(EntryFlags::nx());
    assert_eq!(plan[0], MapRange { virt: vma, phys: 0, pages: 0x9f, flags: pw_nx });
    assert_eq!(plan[1].virt, vma + 0x10_0000);
    assert_eq!(plan[1].phys, 0x10_0000);
    assert_eq!(plan[1].pages, 0x81);
    assert_eq!(plan[1].flags, pw_nx.union(EntryFlags::global()));
    assert_eq!(plan[3], MapRange { virt: 0x30_0000, phys: 0x30_0000, pages: 1, flags: pw_nx });
    assert_eq!(plan[4].flags, EntryFlags::present().union(EntryFlags::global()));
    assert_eq!(plan[4].pages, 0x20);
}

#[test]
fn user_address_space_plan() {
    let layout = user_layout(1, None, 0x30_0000, 0x40_0000);
    let plan = user_mappings(layout, 0x50_0000, 0x20_0000, 0x20_3000);
    assert_eq!(plan.len(), 3);
    assert_eq!(plan[0].virt, 0x20_0000);
    assert_eq!(plan[0].pages, 3);
    assert_eq!(plan[1], MapRange {
        virt: layout.code_base,
        phys: 0x50_0000,
        pages: 1,
        flags: EntryFlags::present().union(EntryFlags::user()),
    });
    assert_eq!(plan[2].virt, layout.stack_top - 8192);
    assert_eq!(plan[2].phys, 0x40_0000);
    assert_eq!(plan[2].pages, 2);
    assert!(plan[2].flags.contains(EntryFlags::nx()));
    assert_eq!(bootdata_mapping(0x20_0000, 0x20_3000), plan[0]);
    assert_eq!(bootdata_mapping(0x20_0010, 0x20_1001).pages, 2);
}

#[test]
fn address_conversions() {
    let p = PhysAddr::from(0x1000usize);
    assert_eq!(p.as_u64(), 0x1000);
    let v = VirtAddr::from(0xffff_8000_0000_0000u64);
    assert_eq!(u64::from(v), 0xffff_8000_0000_0000);
    assert_eq!(usize::from(p), 0x1000);
}

#[test]
fn metadata_covers_the_highest_area() {
    let areas = [
        MemoryArea { start: 0, end: 0x9_f000, typ: 1 },
        MemoryArea { start: 0x10_0000, end: 0x7fe_0001, typ: 1 },
        MemoryArea { start: 0xf_0000, end: 0x10_0000, typ: 2 },
    ];
    assert_eq!(frame_count(&areas, MAX_SUPPORTED_PAGES), 0x7fe1);
    assert_eq!(frame_count(&areas, 100), 100);
    assert_eq!(frame_count(&[], MAX_SUPPORTED_PAGES), 0);
}

#[test]
fn entries_change_in_place() {
    let mut t = PageTable::new();
    t.entry_mut(7).set_addr(PhysAddr::from(0x9000u64), EntryFlags::present());
    assert_eq!(t.entry(7).raw(), 0x9001);
    assert_eq!(t.entry(6).raw(), 0);
}

#[test]
fn a_fresh_allocator_lists_large_blocks() {
    let metadata = vec![PageInfo::default(); 4096];
    let areas = [MemoryArea { start: 0, end: 0x100_0000, typ: 1 }];
    let mut b = BuddyAllocator::new(metadata, &areas, &[]);
    let big = b.allocate(10).unwrap();
    assert_eq!(big % (1024 * PAGE_SIZE), 0);
    assert!(big + 1024 * PAGE_SIZE <= 0x100_0000);

    let mut r = buddy();
    assert_eq!(r.allocate(9), Some(0x20_0000));
    assert_eq!(r.allocate(9), None);
}

#[test]
fn freeing_a_block_makes_it_allocatable_again() {
    let mut b = buddy();
    let z = b.allocate(9).unwrap();
    assert_eq!(b.allocate(9), None);
    b.deallocate(z);
    assert_eq!(b.allocate(9), Some(z));
}

#[test]
fn page_walk_steps() {
    let virt = VirtAddr::from(0x0000_0040_2060_3000u64);
    let (i0, i1, i2, i3) = page_table_indices(0x0000_0040_2060_3000);
    let user = EntryFlags::present().union(EntryFlags::user());
    let mut walk = PageWalk::new(virt, PhysAddr::from(0x7000u64), user);
    assert_eq!(walk.index(), i0);

    let mut top = PageTableEntry::new();
    assert!(matches!(walk.step(&mut top), WalkStep::NeedTable));
    assert_eq!(walk.index(), i0);
    walk.link(&mut top, PhysAddr::from(0x5_3210u64));
    assert_eq!(top.raw(), 0x5_3000 | 7);
    assert_eq!(walk.index(), i1);

    let mut found = PageTableEntry::new();
    found.set_addr(PhysAddr::from(0x9000u64), EntryFlags::present().union(EntryFlags::writable()));
    match walk.step(&mut found) {
        WalkStep::Next(a) => assert_eq!(a.as_u64(), 0x9000),
        _ => panic!("a present entry leads on"),
    }
    assert_eq!(found.raw(), 0x9000 | 7);
    assert_eq!(walk.index(), i2);

    let mut mid = PageTableEntry::new();
    walk.link(&mut mid, PhysAddr::from(0xa000u64));
    assert_eq!(walk.index(), i3);
    let mut leaf = PageTableEntry::new();
    assert!(matches!(walk.step(&mut leaf), WalkStep::Done));
    assert!(walk.is_done());
    assert_eq!(leaf.raw(), 0x7000 | 5);

    let kernel = EntryFlags::writable().union(EntryFlags::nx());
    let mut kwalk = PageWalk::new(virt, PhysAddr::from(0x7000u64), kernel);
    let mut ktop = PageTableEntry::new();
    kwalk.link(&mut ktop, PhysAddr::from(0x5_3000u64));
    assert_eq!(ktop.raw(), 0x5_3000 | 3);
    let mut kfound = PageTableEntry::new();
    kfound.set_addr(PhysAddr::from(0x9000u64), EntryFlags::present());
    assert!(matches!(kwalk.step(&mut kfound), WalkStep::Next(_)));
    assert_eq!(kfound.raw(), 0x9001);

    let mut plain = PageTableEntry::new();
    plain.map_leaf(PhysAddr::from(0x7000u64), kernel);
    assert_eq!(plain.raw(), 0x8000_0000_0000_7003);
}

#[test]
fn set_addr_reads_back_address_and_flags() {
    let mut e = PageTableEntry::new();
    e.add_flags(EntryFlags::user());
    let flags = EntryFlags::present().union(EntryFlags::huge());
    e.set_addr(PhysAddr::from(0xFFF0_0000_1234_5FFFu64), flags);
    assert_eq!(e.addr().as_u64(), 0x0000_0000_1234_5000);
    assert_eq!(e.flags().bits(), flags.bits());
    assert!(e.is_present());
    assert!(e.is_huge());
}

fn sample_regions() -> KernelRegions {
    let vma = KERNEL_VMA;
    KernelRegions {
        kernel_start: 0x10_0000,
        kernel_end: 0x18_0800,
        bootdata_start: 0x20_0000,
        bootdata_end: 0x20_3000,
        mbi_start: 0x30_0010,
        mbi_end: 0x30_0100,
        text_start: vma + 0x10_0000,
        text_end: vma + 0x12_0000,
        rodata_start: vma + 0x12_0000,
        rodata_end: vma + 0x13_0000,
        data_start: vma + 0x13_0000,
        data_end: vma + 0x14_0000,
        bss_start: vma + 0x14_0000,
        bss_end: vma + 0x18_0800,
    }
}

#[test]
fn kernel_regions_are_checked_before_mapping() {
    assert!(regions_fit(sample_regions()));
    let mut low_text = sample_regions();
    low_text.text_start = 0x1000;
    low_text.text_end = 0x2000;
    assert!(!regions_fit(low_text));
    let mut empty_low = sample_regions();
    empty_low.data_start = 0x1000;
    empty_low.data_end = 0x1000;
    assert!(regions_fit(empty_low));
    let mut top = sample_regions();
    top.mbi_end = u64::MAX;
    assert!(!regions_fit(top));
}

#[test]
fn areas_are_checked_before_use() {
    let ok = [
        MemoryArea { start: 0, end: 0x9_f000, typ: 1 },
        MemoryArea { start: 0x10_0000, end: 0x20_0000, typ: 1 },
        MemoryArea { start: 0x9_f000, end: 0x20_0000, typ: 2 },
    ];
    assert!(areas_fit(&ok));
    assert!(allocator_inputs_fit(&ok, &[(0x10_0000, 0x10_2000)]));
    assert!(!allocator_inputs_fit(&ok, &[(0x10_0000, usize::MAX)]));
    let high = [MemoryArea { start: u64::MAX - 0x1000, end: u64::MAX, typ: 1 }];
    assert!(!areas_fit(&high));
    let top = [MemoryArea { start: u64::MAX - 0x800, end: u64::MAX, typ: 1 }];
    assert!(!allocator_inputs_fit(&top, &[]));
    assert!(allocator_inputs_fit(&high, &[]));
}

#[test]
fn overlapping_areas_list_each_frame_once() {
    let metadata = vec![PageInfo::default(); 512];
    let areas = [
        MemoryArea { start: 0, end: 0x10_0000, typ: 1 },
        MemoryArea { start: 0x8_0000, end: 0x20_0000, typ: 1 },
    ];
    let mut b = BuddyAllocator::new(metadata, &areas, &[]);
    let mut seen = Vec::new();
    while let Some(a) = b.allocate(0) {
        assert!(!seen.contains(&a));
        seen.push(a);
    }
    assert_eq!(seen.len(), 512);
}

#[test]
fn only_unfree_ranges_can_be_returned() {
    let mut l = FreeList::new();
    l.insert_and_coalesce(0x1000, 0x100);
    assert!(l.can_return(0x1100, 0x100));
    assert!(l.can_return(0x800, 0x800));
    assert!(!l.can_return(0x10ff, 0x10));
    assert!(!l.can_return(0x800, 0x801));
    assert!(!l.can_return(0x2000, 0));
    assert!(!l.can_return(usize::MAX - 4, 0x10));
}

#[test]
fn allocator_reports_its_frames() {
    assert_eq!(buddy().total_pages(), 1024);
}
