//! The physical memory manager: one bit per 4 KiB frame, set when the frame
//! is in use.

use vstd::prelude::*;
use vstd::bytes::{
    lemma_auto_spec_u32_to_from_le_bytes, lemma_auto_spec_u64_to_from_le_bytes, spec_u32_from_le_bytes,
    spec_u32_to_le_bytes, spec_u64_from_le_bytes, spec_u64_to_le_bytes, u32_from_le_bytes, u64_from_le_bytes,
};
use vstd::slice::slice_subrange;

verus! {

/// Number of 32-bit words in the frame bitmap.
pub const MAX_FRAME: usize = 32768;

/// Number of frames the bitmap tracks: one per bit of the bitmap.
pub const FRAME_COUNT: usize = 1048576;

/// Size of a physical frame in bytes.
pub const FRAME_SIZE: u32 = 4096;

/// Whether bit `b` of `w` is set.
pub open spec fn bit_of(w: u32, b: u32) -> bool {
    (w >> b) & 1u32 == 1u32
}

/// `f` is the lowest free frame of `frames`.
pub open spec fn is_first_free(frames: Seq<bool>, f: int) -> bool {
    &&& 0 <= f < frames.len()
    &&& !frames[f]
    &&& forall|g: int| 0 <= g < f ==> #[trigger] frames[g]
}

proof fn lemma_bit_set(w: u32, b: u32, j: u32)
    by (bit_vector)
    requires
        b < 32,
        j < 32,
    ensures
        bit_of(w | (1u32 << b), j) == (j == b || bit_of(w, j)),
{
}

proof fn lemma_bit_clear(w: u32, b: u32, j: u32)
    by (bit_vector)
    requires
        b < 32,
        j < 32,
    ensures
        bit_of(w & !(1u32 << b), j) == (j != b && bit_of(w, j)),
{
}

proof fn lemma_bit_test(w: u32, b: u32)
    by (bit_vector)
    requires
        b < 32,
    ensures
        ((w & (1u32 << b)) != 0u32) == bit_of(w, b),
{
}

proof fn lemma_full_word(b: u32)
    by (bit_vector)
    requires
        b < 32,
    ensures
        bit_of(0xFFFF_FFFFu32, b),
{
}

/// Error of a frame release that the bitmap cannot honour.
#[derive(Debug, Clone, Copy, PartialEq, Eq)]
pub struct AllocError;

/// The frame bitmap: bit `f % 32` of word `f / 32` is set when frame `f`
/// is in use.
pub struct BitMapPages {
    frame_map: [u32; 32768],
}

impl View for BitMapPages {
    type V = Seq<bool>;

    /// Frame `f` is in use exactly when `self@[f]` holds.
    closed spec fn view(&self) -> Seq<bool> {
        Seq::new(FRAME_COUNT as nat, |f: int| bit_of(self.frame_map@[f / 32], (f % 32) as u32))
    }
}

impl BitMapPages {
    /// The bitmap tracks `FRAME_COUNT` frames.
    pub proof fn lemma_view_len(&self)
        ensures
            self@.len() == FRAME_COUNT,
    {
    }

    /// A bitmap in which every frame is marked as used.
    pub fn new() -> (r: Self)
        ensures
            r@.len() == FRAME_COUNT,
            forall|f: int| 0 <= f < FRAME_COUNT ==> #[trigger] r@[f],
    {
        let frame_map = [0xFFFF_FFFFu32; 32768];
        let r = BitMapPages { frame_map };
        assert forall|f: int| 0 <= f < FRAME_COUNT implies #[trigger] r@[f] by {
            lemma_full_word((f % 32) as u32);
        }
        r
    }

    /// Marks a frame as used; frames beyond the bitmap are ignored.
    pub fn set_used(&mut self, frame_index: usize)
        ensures
            final(self)@ == if frame_index < FRAME_COUNT {
                old(self)@.update(frame_index as int, true)
            } else {
                old(self)@
            },
    {
        if frame_index < FRAME_COUNT {
            let index = frame_index / 32;
            let bit_pos = (frame_index % 32) as u32;
            let word = self.frame_map[index];
            self.frame_map[index] = word | (1u32 << bit_pos);
            proof {
                assert forall|f: int| 0 <= f < FRAME_COUNT implies #[trigger] self@[f]
                    == old(self)@.update(frame_index as int, true)[f] by {
                    if f / 32 == index as int {
                        lemma_bit_set(word, bit_pos, (f % 32) as u32);
                    }
                }
                assert(self@ =~= old(self)@.update(frame_index as int, true));
            }
        }
    }

    /// Marks a frame as free; frames beyond the bitmap are ignored.
    pub fn set_free(&mut self, frame_index: usize)
        ensures
            final(self)@ == if frame_index < FRAME_COUNT {
                old(self)@.update(frame_index as int, false)
            } else {
                old(self)@
            },
    {
        if frame_index < FRAME_COUNT {
            let index = frame_index / 32;
            let bit_pos = (frame_index % 32) as u32;
            let word = self.frame_map[index];
            self.frame_map[index] = word & !(1u32 << bit_pos);
            proof {
                assert forall|f: int| 0 <= f < FRAME_COUNT implies #[trigger] self@[f]
                    == old(self)@.update(frame_index as int, false)[f] by {
                    if f / 32 == index as int {
                        lemma_bit_clear(word, bit_pos, (f % 32) as u32);
                    }
                }
                assert(self@ =~= old(self)@.update(frame_index as int, false));
            }
        }
    }

    /// Whether a frame is in use.
    pub fn is_used(&self, frame_index: usize) -> (r: bool)
        requires
            frame_index < FRAME_COUNT,
        ensures
            r == self@[frame_index as int],
    {
        let array_idx = frame_index / 32;
        let bit_pos = (frame_index % 32) as u32;
        proof {
            lemma_bit_test(self.frame_map@[array_idx as int], bit_pos);
        }
        (self.frame_map[array_idx] & (1u32 << bit_pos)) != 0
    }
}

impl BitMapPages {
    /// Takes the lowest free frame, marks it used and returns its physical
    /// address; `None` when every frame is in use.
    pub fn alloc_frame(&mut self) -> (r: Option<u32>)
        ensures
            match r {
                Some(addr) => {
                    &&& addr % FRAME_SIZE == 0
                    &&& is_first_free(old(self)@, (addr / FRAME_SIZE) as int)
                    &&& final(self)@ == old(self)@.update((addr / FRAME_SIZE) as int, true)
                },
                None => {
                    &&& forall|f: int| 0 <= f < FRAME_COUNT ==> #[trigger] old(self)@[f]
                    &&& final(self)@ == old(self)@
                },
            },
    {
        let mut index: usize = 0;
        while index < MAX_FRAME
            invariant
                index <= MAX_FRAME,
                self.frame_map@.len() == MAX_FRAME,
                self@ == old(self)@,
                self.frame_map@ == old(self).frame_map@,
                forall|g: int| 0 <= g < index * 32 ==> #[trigger] old(self)@[g],
            decreases MAX_FRAME - index,
        {
            let entry = self.frame_map[index];
            if entry != 0xFFFF_FFFFu32 {
                let mut bit: u32 = 0;
                while bit < 32
                    invariant
                        index < MAX_FRAME,
                        bit <= 32,
                        self.frame_map@.len() == MAX_FRAME,
                        self@ == old(self)@,
                        self.frame_map@ == old(self).frame_map@,
                        entry == self.frame_map@[index as int],
                        forall|g: int| 0 <= g < index * 32 ==> #[trigger] old(self)@[g],
                        forall|b: u32| b < bit ==> #[trigger] bit_of(entry, b),
                    decreases 32 - bit,
                {
                    proof {
                        lemma_bit_test(entry, bit);
                    }
                    if entry & (1u32 << bit) == 0 {
                        let page_index = index * 32 + bit as usize;
                        let ghost before = self@;
                        self.set_used(page_index);
                        let addr = (page_index as u32) * FRAME_SIZE;
                        proof {
                            assert(addr / FRAME_SIZE == page_index);
                            assert(!before[page_index as int]);
                            assert forall|g: int| 0 <= g < page_index implies #[trigger] before[g] by {
                                if g >= index * 32 {
                                    assert(bit_of(entry, (g - index * 32) as u32));
                                }
                            }
                        }
                        return Some(addr);
                    }
                    bit += 1;
                }
                proof {
                    assert forall|g: int| 0 <= g < (index + 1) * 32 implies #[trigger] old(self)@[g] by {
                        if g >= index * 32 {
                            assert(bit_of(entry, (g - index * 32) as u32));
                        }
                    }
                }
            } else {
                proof {
                    assert forall|g: int| 0 <= g < (index + 1) * 32 implies #[trigger] old(self)@[g] by {
                        if g >= index * 32 {
                            lemma_full_word((g - index * 32) as u32);
                        }
                    }
                }
            }
            index += 1;
        }
        None
    }

    /// Releases the frame holding physical address `address`.
    pub fn free_frame(&mut self, address: u32) -> (r: Result<(), AllocError>)
        ensures
            r is Ok <==> address / FRAME_SIZE <= FRAME_COUNT,
            r is Ok ==> final(self)@ == if address / FRAME_SIZE < FRAME_COUNT {
                old(self)@.update((address / FRAME_SIZE) as int, false)
            } else {
                old(self)@
            },
            r is Err ==> final(self)@ == old(self)@,
    {
        let index = address / FRAME_SIZE;
        if index > FRAME_COUNT as u32 {
            return Err(AllocError);
        }
        self.set_free(index as usize);
        Ok(())
    }
}

/// The boot information block that a multiboot loader hands to the kernel.
#[derive(Clone, Copy)]
pub struct MultibootInfo {
    pub flags: u32,
    pub mem_lower: u32,
    pub mem_upper: u32,
    pub boot_device: u32,
    pub cmdline: u32,
    pub mods_count: u32,
    pub mods_addr: u32,
    pub syms: [u32; 4],
    pub mmap_length: u32,
    pub mmap_addr: u32,
    pub drives_length: u32,
    pub drives_addr: u32,
    pub config_table: u32,
    pub boot_loader_name: u32,
    pub apm_table: u32,
    pub vbe_control_info: u32,
    pub vbe_mode_info: u32,
    pub vbe_mode: u16,
    pub vbe_interface_seg: u16,
    pub vbe_interface_off: u16,
    pub vbe_interface_len: u16,
    pub framebuffer_addr: u64,
    pub framebuffer_pitch: u32,
    pub framebuffer_width: u32,
    pub framebuffer_height: u32,
    pub framebuffer_bpp: u8,
    pub framebuffer_type: u8,
    pub color_info: [u8; 6],
}

/// Bit of `MultibootInfo::flags` that announces a memory map.
pub const MULTIBOOT_MEMORY_MAP_FLAG: u32 = 0x40;

/// One entry of the multiboot memory map.
#[derive(Clone, Copy, Debug, PartialEq, Eq)]
pub struct MemoryMapEntry {
    pub size: u32,
    pub base_addr: u64,
    pub length: u64,
    pub available: u32,
}

/// Bytes that one memory map entry occupies before its trailing padding.
pub const MEMORY_MAP_ENTRY_LEN: usize = 24;

/// The entry whose packed little-endian fields start at byte `o` of `map`.
pub open spec fn entry_at(map: Seq<u8>, o: int) -> MemoryMapEntry {
    MemoryMapEntry {
        size: spec_u32_from_le_bytes(map.subrange(o, o + 4)),
        base_addr: spec_u64_from_le_bytes(map.subrange(o + 4, o + 12)),
        length: spec_u64_from_le_bytes(map.subrange(o + 12, o + 20)),
        available: spec_u32_from_le_bytes(map.subrange(o + 20, o + 24)),
    }
}

/// The entries met when walking a memory map of `length` bytes held at the
/// start of `map`, from byte `o`: an entry starts `size + 4` bytes after the
/// start of the previous one, and the walk goes on while the entry's start
/// lies inside the map. An entry that starts inside the map is read whole,
/// even where it runs past the map's end.
pub open spec fn entries_from(map: Seq<u8>, length: int, o: int) -> Seq<MemoryMapEntry>
    decreases (if 0 <= o <= length { length - o } else { 0 }),
{
    if o < 0 || o >= length {
        Seq::empty()
    } else {
        let e = entry_at(map, o);
        seq![e] + entries_from(map, length, o + e.size + 4)
    }
}

/// The entries of a memory map of `length` bytes held at the start of `map`.
pub open spec fn memory_map_entries(map: Seq<u8>, length: int) -> Seq<MemoryMapEntry> {
    entries_from(map, length, 0)
}

/// Decodes the entries of a multiboot memory map of `length` bytes. `map`
/// holds the memory from the map's start on, including the bytes just past
/// its end that a last entry starting inside the map runs into.
pub fn parse_memory_map(map: &[u8], length: usize) -> (r: Vec<MemoryMapEntry>)
    requires
        length + MEMORY_MAP_ENTRY_LEN - 1 <= map@.len(),
    ensures
        r@ == memory_map_entries(map@, length as int),
{
    let mut out: Vec<MemoryMapEntry> = Vec::new();
    let mut o: usize = 0;
    let total = map.len();
    while o < length
        invariant
            o <= length,
            total == map@.len(),
            length + MEMORY_MAP_ENTRY_LEN - 1 <= map@.len(),
            memory_map_entries(map@, length as int) == out@ + entries_from(map@, length as int, o as int),
        decreases length - o,
    {
        let size = u32_from_le_bytes(slice_subrange(map, o, o + 4));
        let base_addr = u64_from_le_bytes(slice_subrange(map, o + 4, o + 12));
        let length_field = u64_from_le_bytes(slice_subrange(map, o + 12, o + 20));
        let available = u32_from_le_bytes(slice_subrange(map, o + 20, o + 24));
        let e = MemoryMapEntry { size, base_addr, length: length_field, available };
        proof {
            assert(e == entry_at(map@, o as int));
            assert(entries_from(map@, length as int, o as int) == seq![e] + entries_from(
                map@,
                length as int,
                o + e.size + 4,
            ));
        }
        out.push(e);
        let step: u64 = size as u64 + 4;
        let ghost next: int = o + e.size + 4;
        proof {
            assert(out@ + entries_from(map@, length as int, next) =~= (out@.drop_last() + seq![e])
                + entries_from(map@, length as int, next));
        }
        if step >= (length - o) as u64 {
            o = length;
            proof {
                assert(entries_from(map@, length as int, next) == Seq::<MemoryMapEntry>::empty());
                assert(entries_from(map@, length as int, o as int) == Seq::<MemoryMapEntry>::empty());
            }
        } else {
            o = o + step as usize;
        }
    }
    proof {
        assert(out@ + Seq::<MemoryMapEntry>::empty() =~= out@);
    }
    out
}

/// Frame `f` lies in the region that entry `e` announces as available RAM.
pub open spec fn frame_in_region(e: MemoryMapEntry, f: int) -> bool {
    &&& e.available == 1
    &&& e.base_addr / 4096 <= f < e.base_addr / 4096 + e.length / 4096
}

/// Frame `f` lies in an available region of one of the first `n` entries.
pub open spec fn freed_by(entries: Seq<MemoryMapEntry>, n: int, f: int) -> bool {
    exists|j: int| 0 <= j < n && #[trigger] frame_in_region(entries[j], f)
}

/// Frame `f` stays reserved whatever the memory map says: it holds the
/// kernel image, the page directory, or lies in the first megabyte.
pub open spec fn reserved_frame(
    f: int,
    kernel_start: usize,
    kernel_end: usize,
    page_directory_addr: usize,
) -> bool {
    ||| kernel_start / 4096 <= f < (kernel_end + 4095) / 4096
    ||| f == page_directory_addr / 4096
    ||| f < 256
}

/// The bitmap that boot-time initialisation leaves behind.
pub open spec fn initialized_frames(
    frames: Seq<bool>,
    entries: Seq<MemoryMapEntry>,
    kernel_start: usize,
    kernel_end: usize,
    page_directory_addr: usize,
) -> Seq<bool> {
    Seq::new(
        frames.len(),
        |f: int|
            if reserved_frame(f, kernel_start, kernel_end, page_directory_addr) {
                true
            } else if freed_by(entries, entries.len() as int, f) {
                false
            } else {
                frames[f]
            },
    )
}

impl BitMapPages {
    /// Frees every frame in `[start, end)` that the bitmap tracks.
    fn mark_free_range(&mut self, start: u64, end: u64)
        ensures
            final(self)@ == Seq::new(
                FRAME_COUNT as nat,
                |f: int| if start <= f < end { false } else { old(self)@[f] },
            ),
    {
        let hi: usize = if end < FRAME_COUNT as u64 { end as usize } else { FRAME_COUNT };
        let mut f: usize = if start < FRAME_COUNT as u64 { start as usize } else { FRAME_COUNT };
        let ghost lo = f;
        while f < hi
            invariant
                lo <= f,
                hi <= FRAME_COUNT,
                lo == (if start < FRAME_COUNT as u64 { start as usize } else { FRAME_COUNT }),
                hi == (if end < FRAME_COUNT as u64 { end as usize } else { FRAME_COUNT }),
                self@.len() == FRAME_COUNT,
                forall|g: int|
                    0 <= g < FRAME_COUNT ==> #[trigger] self@[g] == if lo <= g < f && g < hi {
                        false
                    } else {
                        old(self)@[g]
                    },
            decreases hi - f,
        {
            self.set_free(f);
            f += 1;
        }
        assert(self@ =~= Seq::new(
            FRAME_COUNT as nat,
            |g: int| if start <= g < end { false } else { old(self)@[g] },
        ));
    }

    /// Marks every frame in `[start, end)` that the bitmap tracks as used.
    fn mark_used_range(&mut self, start: usize, end: usize)
        ensures
            final(self)@ == Seq::new(
                FRAME_COUNT as nat,
                |f: int| if start <= f < end { true } else { old(self)@[f] },
            ),
    {
        let hi: usize = if end < FRAME_COUNT { end } else { FRAME_COUNT };
        let mut f: usize = if start < FRAME_COUNT { start } else { FRAME_COUNT };
        let ghost lo = f;
        while f < hi
            invariant
                lo <= f,
                hi <= FRAME_COUNT,
                lo == (if start < FRAME_COUNT { start } else { FRAME_COUNT }),
                hi == (if end < FRAME_COUNT { end } else { FRAME_COUNT }),
                self@.len() == FRAME_COUNT,
                forall|g: int|
                    0 <= g < FRAME_COUNT ==> #[trigger] self@[g] == if lo <= g < f && g < hi {
                        true
                    } else {
                        old(self)@[g]
                    },
            decreases hi - f,
        {
            self.set_used(f);
            f += 1;
        }
        assert(self@ =~= Seq::new(
            FRAME_COUNT as nat,
            |g: int| if start <= g < end { true } else { old(self)@[g] },
        ));
    }

    /// Boot-time set-up: frees the frames of the regions that the memory map
    /// (its `info.mmap_length` bytes at the start of `memory_map`, which
    /// also holds the bytes a last entry runs into past the map's end)
    /// announces as available RAM, then reserves the frames of the kernel
    /// image `[kernel_start, kernel_end)`, the frame of the page directory
    /// and the frames of the first megabyte.
    pub fn init(
        &mut self,
        info: &MultibootInfo,
        memory_map: &[u8],
        kernel_start: usize,
        kernel_end: usize,
        page_directory_addr: usize,
    )
        requires
            info.flags & MULTIBOOT_MEMORY_MAP_FLAG != 0,
            info.mmap_length + MEMORY_MAP_ENTRY_LEN - 1 <= memory_map@.len(),
            kernel_end + 4095 <= usize::MAX,
        ensures
            final(self)@ == initialized_frames(
                old(self)@,
                memory_map_entries(memory_map@, info.mmap_length as int),
                kernel_start,
                kernel_end,
                page_directory_addr,
            ),
    {
        let entries = parse_memory_map(memory_map, info.mmap_length as usize);
        let mut i: usize = 0;
        while i < entries.len()
            invariant
                i <= entries@.len(),
                entries@ == memory_map_entries(memory_map@, info.mmap_length as int),
                self@.len() == FRAME_COUNT,
                old(self)@.len() == FRAME_COUNT,
                forall|f: int|
                    0 <= f < FRAME_COUNT ==> #[trigger] self@[f] == if freed_by(
                        entries@,
                        i as int,
                        f,
                    ) {
                        false
                    } else {
                        old(self)@[f]
                    },
            decreases entries@.len() - i,
        {
            let e = entries[i];
            let ghost before = self@;
            if e.available == 1 {
                let start = e.base_addr / 4096;
                self.mark_free_range(start, start + e.length / 4096);
            }
            proof {
                assert forall|f: int| 0 <= f < FRAME_COUNT implies #[trigger] self@[f] == if freed_by(
                    entries@,
                    i + 1,
                    f,
                ) {
                    false
                } else {
                    old(self)@[f]
                } by {
                    if frame_in_region(entries@[i as int], f) {
                        assert(freed_by(entries@, i + 1, f));
                    } else if freed_by(entries@, i + 1, f) {
                        let j = choose|j: int| 0 <= j < i + 1 && #[trigger] frame_in_region(entries@[j], f);
                        assert(freed_by(entries@, i as int, f));
                    } else {
                        assert(!freed_by(entries@, i as int, f)) by {
                            if freed_by(entries@, i as int, f) {
                                let j = choose|j: int| 0 <= j < i && #[trigger] frame_in_region(entries@[j], f);
                                assert(freed_by(entries@, i + 1, f));
                            }
                        }
                    }
                }
            }
            i += 1;
        }
        let ghost after_map = self@;
        self.mark_used_range(kernel_start / 4096, (kernel_end + 4095) / 4096);
        self.set_used(page_directory_addr / 4096);
        self.mark_used_range(0, 256);
        assert(self@ =~= initialized_frames(
            old(self)@,
            memory_map_entries(memory_map@, info.mmap_length as int),
            kernel_start,
            kernel_end,
            page_directory_addr,
        ));
    }
}

/// Frame `f` reads as used right after it is marked used, and as free
/// right after it is marked free; no other frame changes.
pub proof fn set_then_query(frames: Seq<bool>, f: int, g: int)
    requires
        0 <= f < frames.len(),
        0 <= g < frames.len(),
    ensures
        frames.update(f, true)[f],
        !frames.update(f, false)[f],
        g != f ==> frames.update(f, true)[g] == frames[g] && frames.update(f, false)[g] == frames[g],
{
}

/// Freeing the frame that an allocation just handed out gives back the
/// bitmap as it was before the allocation.
pub proof fn alloc_then_free_restores(frames: Seq<bool>, f: int)
    requires
        is_first_free(frames, f),
    ensures
        frames.update(f, true).update(f, false) == frames,
{
    assert(frames.update(f, true).update(f, false) =~= frames);
}

/// Two allocations in a row hand out two different frames, the second
/// above the first.
pub proof fn successive_allocs_increase(frames: Seq<bool>, f: int, g: int)
    requires
        is_first_free(frames, f),
        is_first_free(frames.update(f, true), g),
    ensures
        f < g,
{
    if g <= f {
        if g < f {
            assert(frames[g]);
        }
        assert(frames.update(f, true)[g]);
    }
}

/// After boot-time set-up the kernel image, the page directory and the
/// first megabyte are in use, whatever the memory map says.
pub proof fn init_reserves_kernel(
    frames: Seq<bool>,
    entries: Seq<MemoryMapEntry>,
    kernel_start: usize,
    kernel_end: usize,
    page_directory_addr: usize,
    f: int,
)
    requires
        0 <= f < frames.len(),
        reserved_frame(f, kernel_start, kernel_end, page_directory_addr),
    ensures
        initialized_frames(frames, entries, kernel_start, kernel_end, page_directory_addr)[f],
{
}

/// Boot-time set-up frees only available RAM: a frame is free afterwards
/// exactly when it is not reserved (kernel image, page directory, first
/// megabyte) and it lies in the region of some memory map entry of type 1
/// ("available RAM"); a frame that no type-1 entry covers keeps the state
/// it had before, whatever other entries (reserved, ACPI, NVS, defective)
/// say of it.
pub proof fn init_frees_only_available_ram(
    frames: Seq<bool>,
    entries: Seq<MemoryMapEntry>,
    kernel_start: usize,
    kernel_end: usize,
    page_directory_addr: usize,
    f: int,
)
    requires
        0 <= f < frames.len(),
        f >= 256,
        !(kernel_start / 4096 <= f < (kernel_end + 4095) / 4096),
        f != page_directory_addr / 4096,
    ensures
        ({
            let after = initialized_frames(frames, entries, kernel_start, kernel_end, page_directory_addr);
            let covered = exists|j: int|
                0 <= j < entries.len() && (#[trigger] entries[j]).available == 1 && entries[j].base_addr / 4096
                    <= f < entries[j].base_addr / 4096 + entries[j].length / 4096;
            &&& covered ==> !after[f]
            &&& !covered ==> after[f] == frames[f]
        }),
{
    let covered = exists|j: int|
        0 <= j < entries.len() && (#[trigger] entries[j]).available == 1 && entries[j].base_addr / 4096 <= f
            < entries[j].base_addr / 4096 + entries[j].length / 4096;
    if covered {
        let j = choose|j: int|
            0 <= j < entries.len() && (#[trigger] entries[j]).available == 1 && entries[j].base_addr / 4096 <= f
                < entries[j].base_addr / 4096 + entries[j].length / 4096;
        assert(frame_in_region(entries[j], f));
    } else if freed_by(entries, entries.len() as int, f) {
        let j = choose|j: int| 0 <= j < entries.len() && #[trigger] frame_in_region(entries[j], f);
        assert(entries[j].available == 1);
    }
}

/// Boot-time set-up leaves in use every frame that holds a byte of the
/// first megabyte (addresses below 0x100000), of the kernel image
/// `[kernel_start, kernel_end)` or of the page directory's 4 KiB page at
/// `page_directory_addr`, whatever the memory map says.
pub proof fn init_keeps_low_memory_and_kernel_in_use(
    frames: Seq<bool>,
    entries: Seq<MemoryMapEntry>,
    kernel_start: usize,
    kernel_end: usize,
    page_directory_addr: usize,
    addr: int,
)
    requires
        0 <= addr,
        addr / 4096 < frames.len(),
        kernel_end + 4095 <= usize::MAX,
        addr < 0x100000 || (kernel_start <= addr < kernel_end) || (page_directory_addr / 4096) * 4096 <= addr
            < (page_directory_addr / 4096) * 4096 + 4096,
    ensures
        initialized_frames(frames, entries, kernel_start, kernel_end, page_directory_addr)[addr / 4096],
{
    let f = addr / 4096;
    if addr < 0x100000 {
        assert(f < 256);
    } else if kernel_start <= addr < kernel_end {
        assert(kernel_start / 4096 <= f);
        assert(f < (kernel_end + 4095) / 4096);
    } else {
        assert(f == page_directory_addr / 4096);
    }
}

/// The memory map is a list of entries read from byte 0 on: the entry at
/// byte `o` holds its `size` in bytes `o..o + 4`, the region's base
/// address in `o + 4..o + 12`, its length in `o + 12..o + 20` and its type
/// in `o + 20..o + 24`, all little-endian; the next entry starts `size + 4`
/// bytes further on, and the list ends at the first start at or past the
/// map's length.
pub proof fn memory_map_walk(map: Seq<u8>, length: int, o: int)
    requires
        0 <= o,
        o < length ==> o + MEMORY_MAP_ENTRY_LEN <= map.len(),
    ensures
        o >= length ==> entries_from(map, length, o).len() == 0,
        o < length ==> {
            let es = entries_from(map, length, o);
            let e = es[0];
            &&& es.len() >= 1
            &&& spec_u32_to_le_bytes(e.size) == map.subrange(o, o + 4)
            &&& spec_u64_to_le_bytes(e.base_addr) == map.subrange(o + 4, o + 12)
            &&& spec_u64_to_le_bytes(e.length) == map.subrange(o + 12, o + 20)
            &&& spec_u32_to_le_bytes(e.available) == map.subrange(o + 20, o + 24)
            &&& es.drop_first() == entries_from(map, length, o + e.size + 4)
        },
{
    lemma_auto_spec_u32_to_from_le_bytes();
    lemma_auto_spec_u64_to_from_le_bytes();
    if o < length {
        let e = entry_at(map, o);
        let es = entries_from(map, length, o);
        assert(es == seq![e] + entries_from(map, length, o + e.size + 4));
        assert(es.drop_first() =~= entries_from(map, length, o + e.size + 4));
        assert(map.subrange(o, o + 4).len() == 4);
        assert(map.subrange(o + 4, o + 12).len() == 8);
        assert(map.subrange(o + 12, o + 20).len() == 8);
        assert(map.subrange(o + 20, o + 24).len() == 4);
    }
}

} // verus!
