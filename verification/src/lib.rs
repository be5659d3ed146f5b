//! A hobby x86-64 kernel's core logic: physical and virtual memory
//! management, a slab allocator, an in-memory file system, the USTAR
//! initramfs reader and the interrupt-controller and descriptor-table
//! encodings, each with its contract.
#![allow(non_camel_case_types, non_snake_case, non_upper_case_globals, dead_code)]

pub mod acpi;
pub mod cpu;
pub mod drivers;
pub mod fs;
pub mod idt;
pub mod mem;
pub mod utils;

