//! The virtual memory mapper. Page tables are reached through the
//! recursive slot of the page directory; the steps below decide what is
//! written to the directory and the tables, while the caller performs the
//! memory accesses and TLB maintenance between them.

use crate::backend::memory::pmm::{BitMapPages, FRAME_COUNT, FRAME_SIZE, is_first_free};
use crate::backend::paging::{
    PageEntry,
    PageTable,
    with_flag,
    with_frame,
    PRESENT,
    RW,
    flag_of,
    frame_of,
    ENTRY_COUNT,
};
use vstd::prelude::*;

verus! {

/// A fresh page table's directory entry: present, writable, pointing at
/// frame `frame`.
pub open spec fn table_entry(frame: u32) -> u32 {
    with_frame(with_flag(with_flag(0, PRESENT, true), RW, true), frame)
}

/// The entry mapping a page onto physical address `paddr`: writable when
/// bit 1 of `flags` is set, present when bit 0 is.
pub open spec fn leaf_entry(paddr: u32, flags: u32) -> u32 {
    with_flag(with_flag(with_frame(0, paddr / 4096), RW, (flags / 2) % 2 == 1), PRESENT, flags % 2 == 1)
}

/// The page-aligned address at or below `a`.
pub open spec fn page_floor(a: u32) -> int {
    (a / 4096) * 4096
}

/// Mapping `size` bytes from `vaddr_start` onto `paddr_start` stays within
/// 32-bit addresses.
pub open spec fn range_fits(vaddr_start: u32, paddr_start: u32, size: u32) -> bool {
    size > 0 ==> {
        &&& page_floor(vaddr_start) + ((size - 1) / 4096) * 4096 <= u32::MAX
        &&& page_floor(paddr_start) + ((size - 1) / 4096) * 4096 <= u32::MAX
    }
}

proof fn lemma_page_floor(a: u32)
    by (bit_vector)
    ensures
        a & !0xFFFu32 == (a / 4096) * 4096,
{
}

/// Installs page mappings in the current address space.
pub struct MemMapper {}

impl MemMapper {
    /// Slot of the page directory that covers `vaddr`.
    pub fn directory_index(vaddr: u32) -> (i: usize)
        ensures
            i == vaddr / 0x40_0000,
            i < ENTRY_COUNT,
    {
        proof {
            assert(vaddr >> 22u32 == vaddr / 0x40_0000) by (bit_vector);
        }
        (vaddr >> 22u32) as usize
    }

    /// Slot of the page table that covers `vaddr`.
    pub fn table_index(vaddr: u32) -> (i: usize)
        ensures
            i == (vaddr / 4096) % 1024,
    {
        proof {
            assert((vaddr >> 12u32) & 0x3FFu32 == (vaddr / 4096) % 1024) by (bit_vector);
        }
        ((vaddr >> 12u32) & 0x3FFu32) as usize
    }

    /// First step of mapping `vaddr`: the directory slot covering it must
    /// point at a page table. When it does not, the lowest free frame is
    /// taken for a new table and a present, writable entry for it is put
    /// in the slot. Returns `Some(true)` when a table was created (the
    /// caller then flushes the TLB and must clear the new table),
    /// `Some(false)` when one was already there, and `None` when no frame
    /// is free.
    pub fn ensure_table(directory: &mut PageTable, frames: &mut BitMapPages, vaddr: u32) -> (r: Option<bool>)
        ensures
            ({
                let d = (vaddr / 0x40_0000) as int;
                if flag_of(old(directory).entries@[d]@, PRESENT) {
                    &&& r == Some(false)
                    &&& *final(directory) == *old(directory)
                    &&& final(frames)@ == old(frames)@
                } else {
                    match r {
                        Some(created) => {
                            &&& created
                            &&& exists|f: int|
                                #![trigger is_first_free(old(frames)@, f)]
                                is_first_free(old(frames)@, f) && final(frames)@ == old(frames)@.update(
                                    f,
                                    true,
                                ) && final(directory).entries@[d]@ == table_entry(f as u32)
                                && forall|i: int|
                                    0 <= i < ENTRY_COUNT && i != d ==> #[trigger] final(directory).entries@[i]
                                        == old(directory).entries@[i]
                        },
                        None => {
                            &&& forall|f: int| 0 <= f < FRAME_COUNT ==> #[trigger] old(frames)@[f]
                            &&& *final(directory) == *old(directory)
                            &&& final(frames)@ == old(frames)@
                        },
                    }
                }
            }),
    {
        let dir_idx = Self::directory_index(vaddr);
        if directory.entries[dir_idx].present() {
            return Some(false);
        }
        match frames.alloc_frame() {
            Some(phys_frame) => {
                let frame = phys_frame >> 12u32;
                proof {
                    assert(phys_frame >> 12u32 == phys_frame / 4096) by (bit_vector);
                }
                let entry = PageEntry::new().with_present(true).with_rw(true).with_frame_index(
                    frame as usize,
                );
                directory.entries[dir_idx] = entry;
                proof {
                    let f = (phys_frame / FRAME_SIZE) as int;
                    assert(is_first_free(old(frames)@, f));
                    assert(frame as usize as u32 == f as u32);
                    assert(directory.entries@[dir_idx as int]@ == table_entry(f as u32));
                }
                Some(true)
            },
            None => None,
        }
    }

    /// Second step of mapping `vaddr` onto `paddr`: writes the page's entry
    /// in `table`, the page table that covers `vaddr`; a table that was
    /// just created is cleared first.
    pub fn set_entry(table: &mut PageTable, vaddr: u32, paddr: u32, flags: u32, new_table: bool)
        ensures
            forall|i: int|
                0 <= i < ENTRY_COUNT ==> (#[trigger] final(table).entries@[i])@ == if i == (vaddr / 4096) % 1024 {
                    leaf_entry(paddr, flags)
                } else if new_table {
                    0
                } else {
                    old(table).entries@[i]@
                },
    {
        if new_table {
            let mut i: usize = 0;
            while i < ENTRY_COUNT
                invariant
                    i <= ENTRY_COUNT,
                    forall|j: int| 0 <= j < i ==> (#[trigger] table.entries@[j])@ == 0,
                decreases ENTRY_COUNT - i,
            {
                table.entries[i] = PageEntry::new();
                i += 1;
            }
        }
        let ghost cleared = table.entries@;
        let table_idx = Self::table_index(vaddr);
        proof {
            assert(paddr >> 12u32 == paddr / 4096) by (bit_vector);
            assert(((flags >> 1u32) & 1u32 == 1u32) == ((flags / 2) % 2 == 1)) by (bit_vector);
            assert((flags & 1u32 == 1u32) == (flags % 2 == 1)) by (bit_vector);
        }
        let entry = PageEntry::new().with_frame_index((paddr >> 12u32) as usize).with_rw(
            (flags >> 1u32) & 1u32 == 1,
        ).with_present(flags & 1u32 == 1);
        table.entries[table_idx] = entry;
    }

    /// The pages that mapping `size` bytes from `vaddr_start` onto
    /// `paddr_start` installs: both starts are rounded down to a page, and
    /// one (virtual, physical) pair is produced per 4 KiB step below
    /// `size`.
    pub fn map_range(vaddr_start: u32, paddr_start: u32, size: u32) -> (pages: Vec<(u32, u32)>)
        requires
            range_fits(vaddr_start, paddr_start, size),
        ensures
            pages@.len() == (size + 4095) / 4096,
            forall|k: int|
                0 <= k < pages@.len() ==> #[trigger] pages@[k] == (
                    (page_floor(vaddr_start) + k * 4096) as u32,
                    (page_floor(paddr_start) + k * 4096) as u32,
                ),
    {
        let start = vaddr_start & !0xFFFu32;
        let p_start = paddr_start & !0xFFFu32;
        proof {
            lemma_page_floor(vaddr_start);
            lemma_page_floor(paddr_start);
        }
        let mut pages: Vec<(u32, u32)> = Vec::new();
        let mut offset: u32 = 0;
        let mut k: usize = 0;
        while offset < size
            invariant_except_break
                offset == k * 4096,
                offset < size ==> k * 4096 < size,
                pages@.len() == k,
                k > 0 ==> offset < size,
            invariant
                start == page_floor(vaddr_start),
                p_start == page_floor(paddr_start),
                range_fits(vaddr_start, paddr_start, size),
                forall|j: int|
                    0 <= j < pages@.len() ==> #[trigger] pages@[j] == (
                        (page_floor(vaddr_start) + j * 4096) as u32,
                        (page_floor(paddr_start) + j * 4096) as u32,
                    ),
            ensures
                pages@.len() == (size + 4095) / 4096,
            decreases size - offset,
        {
            pages.push((start + offset, p_start + offset));
            k += 1;
            if size - offset <= 4096 {
                break;
            }
            offset += 4096;
        }
        pages
    }
}

/// Every page that a range mapping installs starts on a page boundary, both
/// virtually and physically.
pub proof fn mapped_pages_aligned(vaddr_start: u32, paddr_start: u32, k: int)
    requires
        0 <= k,
    ensures
        (page_floor(vaddr_start) + k * 4096) % 4096 == 0,
        (page_floor(paddr_start) + k * 4096) % 4096 == 0,
{
    assert((((vaddr_start / 4096) + k) * 4096) % 4096 == 0) by (nonlinear_arith);
    assert((((paddr_start / 4096) + k) * 4096) % 4096 == 0) by (nonlinear_arith);
    assert(page_floor(vaddr_start) + k * 4096 == ((vaddr_start / 4096) + k) * 4096) by (nonlinear_arith);
    assert(page_floor(paddr_start) + k * 4096 == ((paddr_start / 4096) + k) * 4096) by (nonlinear_arith);
}

/// The physical address that `vaddr` translates to through a directory
/// entry `dir` and a page table entry `leaf`: none unless both are present.
pub open spec fn translation(dir: u32, leaf: u32, vaddr: u32) -> Option<int> {
    if flag_of(dir, PRESENT) && flag_of(leaf, PRESENT) {
        Some(frame_of(leaf) * 4096 + vaddr % 4096)
    } else {
        None
    }
}

/// After mapping, the page translates as asked: a new table's directory
/// entry is present and writable and points at the table's frame, and the
/// page's entry translates `vaddr` onto the frame of `paddr`, at the same
/// offset, when bit 0 of `flags` asks for a present page, and not at all
/// otherwise; it is writable exactly when bit 1 of `flags` is set.
pub proof fn mapping_translates(frame: u32, paddr: u32, flags: u32, vaddr: u32)
    requires
        frame <= 0xFFFFF,
    ensures
        flag_of(table_entry(frame), PRESENT),
        flag_of(table_entry(frame), RW),
        frame_of(table_entry(frame)) == frame,
        flag_of(leaf_entry(paddr, flags), RW) == ((flags / 2) % 2 == 1),
        translation(table_entry(frame), leaf_entry(paddr, flags), vaddr) == if flags % 2 == 1 {
            Some((paddr / 4096) * 4096 + vaddr % 4096)
        } else {
            None::<int>
        },
{
    assert(flag_of(with_frame(with_flag(with_flag(0, PRESENT, true), RW, true), frame), PRESENT)
        && flag_of(with_frame(with_flag(with_flag(0, PRESENT, true), RW, true), frame), RW)
        && frame_of(with_frame(with_flag(with_flag(0, PRESENT, true), RW, true), frame)) == frame)
        by (bit_vector)
        requires
            frame <= 0xFFFFF,
    ;
    let rw = (flags / 2) % 2 == 1;
    let p = flags % 2 == 1;
    let f = paddr / 4096;
    assert(f <= 0xFFFFF);
    assert(flag_of(with_flag(with_flag(with_frame(0, f), RW, rw), PRESENT, p), RW) == rw
        && flag_of(with_flag(with_flag(with_frame(0, f), RW, rw), PRESENT, p), PRESENT) == p
        && frame_of(with_flag(with_flag(with_frame(0, f), RW, rw), PRESENT, p)) == f)
        by (bit_vector)
        requires
            f <= 0xFFFFF,
    ;
}

/// The raw bits of the entries that mapping writes: a new table's directory
/// entry is the table's frame number above the present and writable bits
/// (nothing else set), and a page's entry is the page-aligned physical
/// address with the low two bits of `flags` as its present and writable
/// bits (nothing else set).
pub proof fn mapping_entry_bits(frame: u32, paddr: u32, flags: u32)
    requires
        frame <= 0xFFFFF,
    ensures
        table_entry(frame) == frame * 0x1000 + 3,
        leaf_entry(paddr, flags) == (paddr / 0x1000) * 0x1000 + flags % 4,
{
    let f = paddr / 4096;
    let rw = (flags / 2) % 2 == 1;
    let p = flags % 2 == 1;
    assert(f <= 0xFFFFF);
    assert(with_frame(with_flag(with_flag(0, PRESENT, true), RW, true), frame) == frame * 0x1000 + 3
        && with_flag(with_flag(with_frame(0, f), RW, rw), PRESENT, p) == f * 0x1000 + flags % 4) by (bit_vector)
        requires
            frame <= 0xFFFFF,
            f <= 0xFFFFF,
            rw == ((flags / 2) % 2 == 1),
            p == (flags % 2 == 1),
    ;
}

} // verus!
