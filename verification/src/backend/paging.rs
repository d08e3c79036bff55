//! 32-bit x86 paging structures: page directory / page table entries and
//! the identity mapping that the kernel installs at boot.

use vstd::prelude::*;

verus! {

/// Bit `i` of an entry.
pub open spec fn flag_of(bits: u32, i: u32) -> bool {
    (bits >> i) & 1u32 == 1u32
}

/// `bits` with bit `i` set to `v`.
pub open spec fn with_flag(bits: u32, i: u32, v: bool) -> u32 {
    if v {
        bits | (1u32 << i)
    } else {
        bits & !(1u32 << i)
    }
}

/// The 4-bit field at bits 8..12.
pub open spec fn empty_of(bits: u32) -> u32 {
    (bits >> 8u32) & 0xFu32
}

/// The 20-bit frame number at bits 12..32.
pub open spec fn frame_of(bits: u32) -> u32 {
    (bits >> 12u32) & 0xFFFFFu32
}

/// `bits` with the 4-bit field at bits 8..12 replaced by `v`.
pub open spec fn with_empty(bits: u32, v: u32) -> u32 {
    (bits & !(0xFu32 << 8u32)) | ((v & 0xFu32) << 8u32)
}

/// `bits` with the frame number replaced by `v`.
pub open spec fn with_frame(bits: u32, v: u32) -> u32 {
    (bits & !(0xFFFFFu32 << 12u32)) | ((v & 0xFFFFFu32) << 12u32)
}

/// Bit positions of the one-bit fields.
pub const PRESENT: u32 = 0;
pub const RW: u32 = 1;
pub const US: u32 = 2;
pub const PWT: u32 = 3;
pub const PCD: u32 = 4;
pub const ACCESSED: u32 = 5;
pub const DIRTY: u32 = 6;
pub const PAGE_SIZE_BIT: u32 = 7;

/// A page directory or page table entry: present, read/write,
/// user/supervisor, write-through, cache-disable, accessed, dirty and page
/// size flags in bits 0..8, four free bits, then a 20-bit frame number.
#[derive(Clone, Copy, Debug, PartialEq, Eq)]
pub struct PageEntry(u32);

impl View for PageEntry {
    type V = u32;

    closed spec fn view(&self) -> u32 {
        self.0
    }
}

impl PageEntry {
    /// The entry with every field cleared.
    pub fn new() -> (e: Self)
        ensures
            e@ == 0,
    {
        PageEntry(0)
    }

    /// The entry whose raw bits are `bits`.
    pub fn from_bits(bits: u32) -> (e: Self)
        ensures
            e@ == bits,
    {
        PageEntry(bits)
    }

    /// The raw bits of the entry.
    pub fn into_bits(self) -> (bits: u32)
        ensures
            bits == self@,
    {
        self.0
    }

    fn flag(&self, i: u32) -> (b: bool)
        requires
            i < 8,
        ensures
            b == flag_of(self@, i),
    {
        proof {
            let bits = self.0;
            assert(((bits >> i) & 1u32 == 1u32) == ((bits & (1u32 << i)) != 0u32)) by (bit_vector)
                requires
                    i < 8,
            ;
        }
        (self.0 & (1u32 << i)) != 0
    }

    fn with_flag(self, i: u32, v: bool) -> (e: Self)
        requires
            i < 8,
        ensures
            e@ == with_flag(self@, i, v),
    {
        if v {
            PageEntry(self.0 | (1u32 << i))
        } else {
            PageEntry(self.0 & !(1u32 << i))
        }
    }

    /// Whether the entry maps something.
    pub fn present(&self) -> (b: bool)
        ensures
            b == flag_of(self@, PRESENT),
    {
        self.flag(PRESENT)
    }

    /// Whether the mapping is writable.
    pub fn rw(&self) -> (b: bool)
        ensures
            b == flag_of(self@, RW),
    {
        self.flag(RW)
    }

    /// Whether user mode may use the mapping.
    pub fn us(&self) -> (b: bool)
        ensures
            b == flag_of(self@, US),
    {
        self.flag(US)
    }

    /// Whether the mapping uses write-through caching.
    pub fn pwt(&self) -> (b: bool)
        ensures
            b == flag_of(self@, PWT),
    {
        self.flag(PWT)
    }

    /// Whether caching is disabled for the mapping.
    pub fn pcd(&self) -> (b: bool)
        ensures
            b == flag_of(self@, PCD),
    {
        self.flag(PCD)
    }

    /// Whether the processor has used the mapping.
    pub fn accessed(&self) -> (b: bool)
        ensures
            b == flag_of(self@, ACCESSED),
    {
        self.flag(ACCESSED)
    }

    /// Whether the processor has written through the mapping.
    pub fn dirty(&self) -> (b: bool)
        ensures
            b == flag_of(self@, DIRTY),
    {
        self.flag(DIRTY)
    }

    /// Whether a directory entry maps a 4 MiB page.
    pub fn page_size(&self) -> (b: bool)
        ensures
            b == flag_of(self@, PAGE_SIZE_BIT),
    {
        self.flag(PAGE_SIZE_BIT)
    }

    /// The four free bits.
    pub fn empty(&self) -> (v: usize)
        ensures
            v == empty_of(self@),
    {
        ((self.0 >> 8u32) & 0xFu32) as usize
    }

    /// The number of the frame the entry points at.
    pub fn frame_index(&self) -> (v: usize)
        ensures
            v == frame_of(self@),
    {
        ((self.0 >> 12u32) & 0xFFFFFu32) as usize
    }

    /// The entry with its present flag set to `v`.
    pub fn with_present(self, v: bool) -> (e: Self)
        ensures
            e@ == with_flag(self@, PRESENT, v),
    {
        self.with_flag(PRESENT, v)
    }

    /// The entry with its read/write flag set to `v`.
    pub fn with_rw(self, v: bool) -> (e: Self)
        ensures
            e@ == with_flag(self@, RW, v),
    {
        self.with_flag(RW, v)
    }

    /// The entry with its user/supervisor flag set to `v`.
    pub fn with_us(self, v: bool) -> (e: Self)
        ensures
            e@ == with_flag(self@, US, v),
    {
        self.with_flag(US, v)
    }

    /// The entry with its write-through flag set to `v`.
    pub fn with_pwt(self, v: bool) -> (e: Self)
        ensures
            e@ == with_flag(self@, PWT, v),
    {
        self.with_flag(PWT, v)
    }

    /// The entry with its cache-disable flag set to `v`.
    pub fn with_pcd(self, v: bool) -> (e: Self)
        ensures
            e@ == with_flag(self@, PCD, v),
    {
        self.with_flag(PCD, v)
    }

    /// The entry with its accessed flag set to `v`.
    pub fn with_accessed(self, v: bool) -> (e: Self)
        ensures
            e@ == with_flag(self@, ACCESSED, v),
    {
        self.with_flag(ACCESSED, v)
    }

    /// The entry with its dirty flag set to `v`.
    pub fn with_dirty(self, v: bool) -> (e: Self)
        ensures
            e@ == with_flag(self@, DIRTY, v),
    {
        self.with_flag(DIRTY, v)
    }

    /// The entry with its page size flag set to `v`.
    pub fn with_page_size(self, v: bool) -> (e: Self)
        ensures
            e@ == with_flag(self@, PAGE_SIZE_BIT, v),
    {
        self.with_flag(PAGE_SIZE_BIT, v)
    }

    /// Replaces the four free bits; the value is read as a `u32` first and
    /// must fit in four bits.
    pub fn with_empty(self, v: usize) -> (e: Self)
        requires
            (v as u32) <= 0xF,
        ensures
            e@ == with_empty(self@, v as u32),
    {
        let value = v as u32;
        PageEntry((self.0 & !(0xFu32 << 8u32)) | ((value & 0xFu32) << 8u32))
    }

    /// Replaces the frame number; the value is read as a `u32` first and
    /// must fit in twenty bits.
    pub fn with_frame_index(self, v: usize) -> (e: Self)
        requires
            (v as u32) <= 0xFFFFF,
        ensures
            e@ == with_frame(self@, v as u32),
    {
        let value = v as u32;
        PageEntry((self.0 & !(0xFFFFFu32 << 12u32)) | ((value & 0xFFFFFu32) << 12u32))
    }
}

impl Default for PageEntry {
    fn default() -> (e: Self)
        ensures
            e@ == 0,
    {
        PageEntry(0)
    }
}

/// Reading a one-bit field after writing it gives the written value; the
/// other fields are left as they were.
pub proof fn flag_write_then_read(bits: u32, i: u32, v: bool, j: u32)
    by (bit_vector)
    requires
        i < 8,
        j < 8,
    ensures
        flag_of(with_flag(bits, i, v), j) == if i == j { v } else { flag_of(bits, j) },
        frame_of(with_flag(bits, i, v)) == frame_of(bits),
        empty_of(with_flag(bits, i, v)) == empty_of(bits),
{
}

/// Reading the frame number after writing a value that fits gives that
/// value; the flags and free bits are left as they were.
pub proof fn frame_write_then_read(bits: u32, v: u32, j: u32)
    by (bit_vector)
    requires
        v <= 0xFFFFF,
        j < 8,
    ensures
        frame_of(with_frame(bits, v)) == v,
        flag_of(with_frame(bits, v), j) == flag_of(bits, j),
        empty_of(with_frame(bits, v)) == empty_of(bits),
{
}

/// Reading the free bits after writing a value that fits gives that value;
/// the flags and frame number are left as they were.
pub proof fn empty_write_then_read(bits: u32, v: u32, j: u32)
    by (bit_vector)
    requires
        v <= 0xF,
        j < 8,
    ensures
        empty_of(with_empty(bits, v)) == v,
        flag_of(with_empty(bits, v), j) == flag_of(bits, j),
        frame_of(with_empty(bits, v)) == frame_of(bits),
{
}

/// The x86 layout of an entry: present is bit 0, read/write bit 1,
/// user/supervisor bit 2, write-through bit 3, cache-disable bit 4,
/// accessed bit 5, dirty bit 6, page size bit 7, the free field bits 8..12
/// and the frame number bits 12..32.
pub proof fn entry_field_layout(bits: u32)
    ensures
        flag_of(bits, PRESENT) == (bits & 0x1 != 0),
        flag_of(bits, RW) == (bits & 0x2 != 0),
        flag_of(bits, US) == (bits & 0x4 != 0),
        flag_of(bits, PWT) == (bits & 0x8 != 0),
        flag_of(bits, PCD) == (bits & 0x10 != 0),
        flag_of(bits, ACCESSED) == (bits & 0x20 != 0),
        flag_of(bits, DIRTY) == (bits & 0x40 != 0),
        flag_of(bits, PAGE_SIZE_BIT) == (bits & 0x80 != 0),
        empty_of(bits) == (bits % 0x1000) / 0x100,
        frame_of(bits) == bits / 0x1000,
{
    assert({
        &&& ((bits >> 0u32) & 1u32 == 1u32) == (bits & 0x1 != 0)
        &&& ((bits >> 1u32) & 1u32 == 1u32) == (bits & 0x2 != 0)
        &&& ((bits >> 2u32) & 1u32 == 1u32) == (bits & 0x4 != 0)
        &&& ((bits >> 3u32) & 1u32 == 1u32) == (bits & 0x8 != 0)
        &&& ((bits >> 4u32) & 1u32 == 1u32) == (bits & 0x10 != 0)
        &&& ((bits >> 5u32) & 1u32 == 1u32) == (bits & 0x20 != 0)
        &&& ((bits >> 6u32) & 1u32 == 1u32) == (bits & 0x40 != 0)
        &&& ((bits >> 7u32) & 1u32 == 1u32) == (bits & 0x80 != 0)
        &&& (bits >> 8u32) & 0xFu32 == (bits % 0x1000) / 0x100
        &&& (bits >> 12u32) & 0xFFFFFu32 == bits / 0x1000
    }) by (bit_vector);
}

/// Entries per page table or page directory.
pub const ENTRY_COUNT: usize = 1024;

/// Page tables of the boot-time identity mapping (32 tables of 4 MiB).
pub const IDENTITY_TABLES: usize = 32;

/// Bytes taken by one page table.
pub const PAGE_TABLE_SIZE: usize = 4096;

/// A present, writable, supervisor-only entry for frame `frame`.
pub open spec fn kernel_entry(frame: u32) -> u32 {
    with_frame(with_flag(with_flag(with_flag(0, PRESENT, true), RW, true), US, false), frame)
}

/// A not-present directory entry that would allow writes.
pub open spec fn absent_writable_entry() -> u32 {
    with_flag(0, RW, true)
}

/// A kernel entry is the frame number above the present and writable bits.
pub proof fn kernel_entry_bits(frame: u32)
    requires
        frame <= 0xFFFFF,
    ensures
        kernel_entry(frame) == (frame << 12u32) | 3u32,
        absent_writable_entry() == 2u32,
{
    assert(with_frame(with_flag(with_flag(with_flag(0, PRESENT, true), RW, true), US, false), frame)
        == (frame << 12u32) | 3u32) by (bit_vector)
        requires
            frame <= 0xFFFFF,
    ;
    assert(with_flag(0, RW, true) == 2u32) by (bit_vector);
}

/// A page table or page directory.
#[derive(Clone, Copy)]
pub struct PageTable {
    pub entries: [PageEntry; 1024],
}

/// Frame number of the page table placed `p` tables after `tables_addr`.
pub open spec fn table_frame(tables_addr: usize, p: int) -> u32 {
    ((tables_addr + p * PAGE_TABLE_SIZE) / 4096) as u32
}

/// The page tables can be placed at `tables_addr`: the address of the
/// last one fits in a `usize` and every table's frame number fits in the
/// 20-bit field.
pub open spec fn tables_placeable(tables_addr: usize) -> bool {
    &&& tables_addr + IDENTITY_TABLES * PAGE_TABLE_SIZE <= usize::MAX
    &&& forall|p: int| 0 <= p < IDENTITY_TABLES ==> #[trigger] table_frame(tables_addr, p) <= 0xFFFFF
}

/// Builds the boot-time identity mapping of the first 128 MiB: table `x`
/// maps frame `1024 * x + i` at entry `i`, the directory points its first
/// 32 entries at the tables, which lie one after the other from
/// `tables_addr`, and leaves the other entries absent.
pub fn init_paging(directory: &mut PageTable, tables: &mut [PageTable; 32], tables_addr: usize)
    requires
        tables_placeable(tables_addr),
    ensures
        forall|x: int, i: int|
            0 <= x < IDENTITY_TABLES && 0 <= i < ENTRY_COUNT ==> (#[trigger] final(tables)@[x].entries@[i])@
                == kernel_entry((x * 1024 + i) as u32),
        forall|p: int|
            0 <= p < IDENTITY_TABLES ==> (#[trigger] final(directory).entries@[p])@ == kernel_entry(
                table_frame(tables_addr, p),
            ),
        forall|p: int|
            IDENTITY_TABLES <= p < ENTRY_COUNT ==> (#[trigger] final(directory).entries@[p])@
                == absent_writable_entry(),
{
    let mut x: usize = 0;
    while x < IDENTITY_TABLES
        invariant
            x <= IDENTITY_TABLES,
            forall|y: int, i: int|
                0 <= y < x && 0 <= i < ENTRY_COUNT ==> (#[trigger] tables@[y].entries@[i])@
                    == kernel_entry((y * 1024 + i) as u32),
        decreases IDENTITY_TABLES - x,
    {
        let mut table = PageTable { entries: [PageEntry::new(); 1024] };
        let mut i: usize = 0;
        while i < ENTRY_COUNT
            invariant
                x < IDENTITY_TABLES,
                i <= ENTRY_COUNT,
                forall|j: int|
                    0 <= j < i ==> (#[trigger] table.entries@[j])@ == kernel_entry((x * 1024 + j) as u32),
            decreases ENTRY_COUNT - i,
        {
            table.entries[i] = PageEntry::new().with_present(true).with_rw(true).with_us(false).with_frame_index(
                x * 1024 + i,
            );
            i += 1;
        }
        tables[x] = table;
        x += 1;
    }
    let mut i: usize = 0;
    while i < ENTRY_COUNT
        invariant
            i <= ENTRY_COUNT,
            forall|j: int| 0 <= j < i ==> (#[trigger] directory.entries@[j])@ == absent_writable_entry(),
        decreases ENTRY_COUNT - i,
    {
        directory.entries[i] = PageEntry::default().with_rw(true);
        i += 1;
    }
    let mut pt_address: usize = tables_addr;
    let mut page: usize = 0;
    while page < IDENTITY_TABLES
        invariant
            page <= IDENTITY_TABLES,
            tables_placeable(tables_addr),
            pt_address == tables_addr + page * PAGE_TABLE_SIZE,
            forall|p: int|
                0 <= p < page ==> (#[trigger] directory.entries@[p])@ == kernel_entry(
                    table_frame(tables_addr, p),
                ),
            forall|p: int|
                IDENTITY_TABLES <= p < ENTRY_COUNT ==> (#[trigger] directory.entries@[p])@
                    == absent_writable_entry(),
        decreases IDENTITY_TABLES - page,
    {
        let frame = pt_address >> 12;
        proof {
            assert(pt_address >> 12 == pt_address / 4096) by (bit_vector);
            assert(table_frame(tables_addr, page as int) <= 0xFFFFF);
        }
        directory.entries[page] = PageEntry::default().with_present(true).with_rw(true).with_us(false).with_frame_index(
            frame,
        );
        pt_address += PAGE_TABLE_SIZE;
        page += 1;
    }
}

} // verus!
