//! Core logic of the Cheesecake kernel: physical page allocation, task
//! scheduling decisions, console rendering, keyboard decoding and the
//! system-call table, each with a machine-checked contract.
pub mod mm;
pub mod tasks;
pub mod font;
pub mod vga;
pub mod vga_text;
pub mod input;
pub mod syscalls;
pub mod cpu;
pub mod kernel;
