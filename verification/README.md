# knightos

The decision-making core of the KnightOS x86 kernel, written in Verus and
proved against its contracts, with the hardware-facing glue around it.

- `src/` — the verified library:
  - `backend::memory::pmm` — the physical frame bitmap, boot-time set-up from
    the multiboot memory map, frame allocation and release;
  - `backend::memory::vmm` — the steps of installing a page mapping;
  - `backend::paging` — page directory / table entries and the boot-time
    identity mapping;
  - `backend::multitasking` — tasks, their initial stack frames and the
    round-robin scheduler;
  - `descriptors::idt` — interrupt descriptor table entries;
  - `display::display` — the VGA text console;
  - `user_interface::graphics` — framebuffer drawing (pixels, Bresenham lines,
    glyphs, text layout) and the typed text;
  - `user_interface::text_user_interface` — arrow-key navigation state;
  - `serial` — log levels, the serial port handle, the UART set-up writes
    and the loopback check that decides whether set-up succeeded.
- `app/` — the kernel proper: boot entry, port I/O, control registers,
  interrupt entry stubs, locks and statics, which call into the library.
- `tests/` — tests of the library on concrete values.
