use knightos::backend::memory::pmm::{
    parse_memory_map, AllocError, BitMapPages, MemoryMapEntry, MultibootInfo, FRAME_COUNT,
};
use knightos::backend::memory::vmm::MemMapper;
use knightos::backend::paging::{init_paging, PageEntry, PageTable};

fn all_free_except(used: &[usize]) -> BitMapPages {
    let mut b = BitMapPages::new();
    for f in 0..FRAME_COUNT {
        b.set_free(f);
    }
    for &f in used {
        b.set_used(f);
    }
    b
}

#[test]
fn new_bitmap_marks_every_frame_used() {
    let b = BitMapPages::new();
    assert!(b.is_used(0));
    assert!(b.is_used(12345));
    assert!(b.is_used(FRAME_COUNT - 1));
}

#[test]
fn set_free_then_set_used_round_trip() {
    let mut b = BitMapPages::new();
    b.set_free(33);
    assert!(!b.is_used(33));
    assert!(b.is_used(32));
    assert!(b.is_used(34));
    b.set_used(33);
    assert!(b.is_used(33));
}

#[test]
fn frames_beyond_the_bitmap_are_ignored() {
    let mut b = BitMapPages::new();
    b.set_free(FRAME_COUNT);
    b.set_free(FRAME_COUNT + 100);
    assert!(b.is_used(FRAME_COUNT - 1));
    b.set_free(FRAME_COUNT - 1);
    b.set_used(FRAME_COUNT + 7);
    assert!(!b.is_used(FRAME_COUNT - 1));
}

#[test]
fn alloc_on_full_bitmap_fails() {
    let mut b = BitMapPages::new();
    assert_eq!(b.alloc_frame(), None);
}

#[test]
fn alloc_takes_lowest_free_frame_in_order() {
    let mut b = BitMapPages::new();
    b.set_free(70);
    b.set_free(3);
    assert_eq!(b.alloc_frame(), Some(3 * 4096));
    assert!(b.is_used(3));
    assert_eq!(b.alloc_frame(), Some(70 * 4096));
    assert_eq!(b.alloc_frame(), None);
}

#[test]
fn alloc_then_free_restores_frame() {
    let mut b = all_free_except(&[0, 1, 2]);
    let addr = b.alloc_frame().unwrap();
    assert_eq!(addr, 3 * 4096);
    assert!(b.is_used(3));
    assert_eq!(b.free_frame(addr), Ok(()));
    assert!(!b.is_used(3));
    assert_eq!(b.alloc_frame(), Some(3 * 4096));
}

#[test]
fn free_frame_rounds_address_down_and_highest_frame_works() {
    let mut b = BitMapPages::new();
    assert_eq!(b.free_frame(5 * 4096 + 123), Ok(()));
    assert!(!b.is_used(5));
    assert_eq!(b.free_frame(u32::MAX), Ok(()));
    assert!(!b.is_used(FRAME_COUNT - 1));
    let _unused: Option<AllocError> = None;
}

fn entry_bytes(size: u32, base: u64, len: u64, kind: u32, pad: usize) -> Vec<u8> {
    let mut v = Vec::new();
    v.extend_from_slice(&size.to_le_bytes());
    v.extend_from_slice(&base.to_le_bytes());
    v.extend_from_slice(&len.to_le_bytes());
    v.extend_from_slice(&kind.to_le_bytes());
    v.extend(std::iter::repeat(0u8).take(pad));
    v
}

#[test]
fn parse_memory_map_walks_entries_by_size_field() {
    let mut map = entry_bytes(20, 0, 0x9FC00, 1, 0);
    map.extend(entry_bytes(24, 0x100000, 0x7EE0000, 1, 4));
    map.extend(entry_bytes(20, 0xFFFC0000, 0x40000, 2, 0));
    let length = map.len();
    map.extend([0u8; 23]);
    let entries = parse_memory_map(&map, length);
    assert_eq!(entries.len(), 3);
    assert_eq!(
        entries[0],
        MemoryMapEntry { size: 20, base_addr: 0, length: 0x9FC00, available: 1 }
    );
    assert_eq!(entries[1].base_addr, 0x100000);
    assert_eq!(entries[1].length, 0x7EE0000);
    assert_eq!(entries[2].available, 2);
    assert_eq!(entries[2].base_addr, 0xFFFC0000);
}

#[test]
fn parse_memory_map_reads_last_entry_past_the_map_end() {
    let mut map = entry_bytes(20, 0, 0x1000, 1, 0);
    map.extend(entry_bytes(20, 0x200000, 0x3000, 1, 0));
    map.extend([0u8; 23]);
    // the map ends four bytes into the second entry
    let entries = parse_memory_map(&map, 28);
    assert_eq!(entries.len(), 2);
    assert_eq!(entries[1].base_addr, 0x200000);
    assert_eq!(entries[1].length, 0x3000);
    // a map that ends right after the first entry stops there
    assert_eq!(parse_memory_map(&map, 24).len(), 1);
}

#[test]
fn parse_memory_map_of_empty_map_is_empty() {
    assert!(parse_memory_map(&[0u8; 23], 0).is_empty());
}

fn boot_info(flags: u32, mmap_length: u32) -> MultibootInfo {
    MultibootInfo {
        flags,
        mem_lower: 0,
        mem_upper: 0,
        boot_device: 0,
        cmdline: 0,
        mods_count: 0,
        mods_addr: 0,
        syms: [0; 4],
        mmap_length,
        mmap_addr: 0,
        drives_length: 0,
        drives_addr: 0,
        config_table: 0,
        boot_loader_name: 0,
        apm_table: 0,
        vbe_control_info: 0,
        vbe_mode_info: 0,
        vbe_mode: 0,
        vbe_interface_seg: 0,
        vbe_interface_off: 0,
        vbe_interface_len: 0,
        framebuffer_addr: 0,
        framebuffer_pitch: 0,
        framebuffer_width: 0,
        framebuffer_height: 0,
        framebuffer_bpp: 0,
        framebuffer_type: 0,
        color_info: [0; 6],
    }
}

#[test]
fn init_frees_available_ram_and_reserves_kernel() {
    let mut map = entry_bytes(20, 0, 0x9FC00, 1, 0);
    map.extend(entry_bytes(20, 0x100000, 0x1000000, 1, 0));
    map.extend(entry_bytes(20, 0x2000000, 0x10000, 2, 0));
    let length = map.len() as u32;
    map.extend([0u8; 23]);
    let mut b = BitMapPages::new();
    b.init(&boot_info(0x40, length), &map, 0x100000, 0x180001, 0x300000);
    // first megabyte stays reserved
    assert!(b.is_used(0));
    assert!(b.is_used(100));
    assert!(b.is_used(255));
    // kernel image, rounded up to whole frames
    assert!(b.is_used(256));
    assert!(b.is_used(0x180));
    assert!(!b.is_used(0x181));
    // page directory
    assert!(b.is_used(0x300));
    // available RAM
    assert!(!b.is_used(0x182));
    assert!(!b.is_used(0x1000));
    assert!(!b.is_used(0x10FF));
    // past the region and in the reserved region
    assert!(b.is_used(0x1100));
    assert!(b.is_used(0x2000));
}

#[test]
fn page_entry_fields_read_back() {
    let e = PageEntry::new().with_present(true).with_rw(true).with_us(false).with_frame_index(0x12345);
    assert!(e.present());
    assert!(e.rw());
    assert!(!e.us());
    assert!(!e.dirty());
    assert_eq!(e.frame_index(), 0x12345);
    assert_eq!(e.into_bits(), 0x12345003);
    let e = e.with_present(false).with_empty(0xA).with_accessed(true);
    assert_eq!(e.into_bits(), 0x12345A22);
    assert_eq!(e.empty(), 0xA);
    assert!(e.accessed());
    assert_eq!(PageEntry::from_bits(0x80).page_size(), true);
    assert_eq!(PageEntry::default().into_bits(), 0);
}

#[test]
fn init_paging_builds_identity_map() {
    let mut directory = PageTable { entries: [PageEntry::new(); 1024] };
    let mut tables = [PageTable { entries: [PageEntry::new(); 1024] }; 32];
    init_paging(&mut directory, &mut tables, 0x200000);
    assert_eq!(tables[0].entries[0].into_bits(), 0x3);
    assert_eq!(tables[0].entries[5].into_bits(), 0x5003);
    assert_eq!(tables[31].entries[1023].into_bits(), ((31 * 1024 + 1023) << 12) | 3);
    assert_eq!(directory.entries[0].into_bits(), 0x200003);
    assert_eq!(directory.entries[31].into_bits(), 0x21F003);
    assert_eq!(directory.entries[32].into_bits(), 0x2);
    assert_eq!(directory.entries[1023].into_bits(), 0x2);
}

#[test]
fn mem_mapper_indices() {
    assert_eq!(MemMapper::directory_index(0x40000000), 256);
    assert_eq!(MemMapper::table_index(0x40000000), 0);
    assert_eq!(MemMapper::directory_index(0xFFFFF000), 1023);
    assert_eq!(MemMapper::table_index(0xFFFFF000), 1023);
    assert_eq!(MemMapper::table_index(0x10003123), 3);
}

#[test]
fn ensure_table_allocates_once() {
    let mut directory = PageTable { entries: [PageEntry::new(); 1024] };
    let mut frames = BitMapPages::new();
    frames.set_free(40);
    assert_eq!(MemMapper::ensure_table(&mut directory, &mut frames, 0x10000000), Some(true));
    assert_eq!(directory.entries[64].into_bits(), (40 << 12) | 3);
    assert!(frames.is_used(40));
    assert_eq!(MemMapper::ensure_table(&mut directory, &mut frames, 0x10001000), Some(false));
    assert_eq!(MemMapper::ensure_table(&mut directory, &mut frames, 0x20000000), None);
    assert_eq!(directory.entries[128].into_bits(), 0);
}

#[test]
fn set_entry_writes_leaf_and_clears_new_table() {
    let mut table = PageTable { entries: [PageEntry::from_bits(0xFFFF_FFFF); 1024] };
    MemMapper::set_entry(&mut table, 0x10003000, 0x00ABC123, 3, true);
    assert_eq!(table.entries[3].into_bits(), 0x00ABC003);
    assert_eq!(table.entries[2].into_bits(), 0);
    let mut table = PageTable { entries: [PageEntry::from_bits(7); 1024] };
    MemMapper::set_entry(&mut table, 0x10005000, 0x1000, 1, false);
    assert_eq!(table.entries[5].into_bits(), 0x1001);
    assert_eq!(table.entries[4].into_bits(), 7);
}

#[test]
fn map_range_rounds_down_and_steps_by_page() {
    let pages = MemMapper::map_range(0x40000123, 0xFD000456, 0x2001);
    assert_eq!(pages, vec![(0x40000000, 0xFD000000), (0x40001000, 0xFD001000), (0x40002000, 0xFD002000)]);
    assert!(MemMapper::map_range(0x1000, 0x2000, 0).is_empty());
    assert_eq!(MemMapper::map_range(0, 0, 4096), vec![(0, 0)]);
}

#[test]
fn mapped_page_translates_to_physical_frame() {
    let mut directory = PageTable { entries: [PageEntry::new(); 1024] };
    let mut frames = BitMapPages::new();
    frames.set_free(0x321);
    let vaddr = 0x4012_3ABC;
    let created = MemMapper::ensure_table(&mut directory, &mut frames, vaddr).unwrap();
    let dir = directory.entries[MemMapper::directory_index(vaddr)];
    assert!(dir.present() && dir.rw());
    assert_eq!(dir.frame_index(), 0x321);
    let mut table = PageTable { entries: [PageEntry::new(); 1024] };
    MemMapper::set_entry(&mut table, vaddr, 0x00FE_D000, 3, created);
    let leaf = table.entries[MemMapper::table_index(vaddr)];
    assert!(leaf.present() && leaf.rw());
    assert_eq!(leaf.frame_index() * 4096 + (vaddr as usize % 4096), 0x00FE_DABC);
    MemMapper::set_entry(&mut table, vaddr, 0x00FE_D000, 2, false);
    assert!(!table.entries[MemMapper::table_index(vaddr)].present());
}
