//! Verified core of a small x86_64 kernel memory manager: physical and
//! virtual address arithmetic, page-table entry encoding, a bitmap frame
//! allocator, a coalescing free-list heap allocator, the decision logic of
//! the 4-level page-table walker (and what it reads back of its own
//! writes, over a model of page-table memory), and the descriptor
//! encodings of the interrupt subsystem.
use vstd::prelude::*;

pub mod phys_addr;
pub mod frame_allocator;
pub mod boot_info;
pub mod memory_map;
pub mod virt_addr;
pub mod page_table_entry;
pub mod linked_list_allocator;
pub mod vmm;
pub mod page_table_memory;
pub mod gdt;
pub mod idt;
pub mod serial;
pub mod exceptions;
pub mod heap;
pub mod boot_self_test;
