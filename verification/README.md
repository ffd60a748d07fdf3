# cheesecake_kernel

A small x86_64 hobby kernel whose logic is a verified Verus library.

- `src/` — the library, every function proved against its contract:
  the buddy page-frame allocator (`mm`), the round-robin scheduler and task
  stacks (`tasks`), the framebuffer and text-mode consoles (`vga`,
  `vga_text`), the PS/2 keyboard decoder (`input`), `cpuid` decoding
  (`cpu`), the system-call table (`syscalls`) and the start-up banner
  (`kernel`). Glyph rasters come from `noto-sans-mono-bitmap` through the
  trusted wrappers in `font.rs`.
- `app/` — the boot entry point and the hardware around the library:
  serial port, heap, framebuffer copy-out, keyboard ports, `cpuid`, and the
  register switches between tasks.
- `tests/` — tests of the library on concrete values.
