//! Virtual-memory core of a small kernel: typed addresses, page-table
//! entries, the huge-page mapping solver, a size-classed frame allocator
//! and address spaces built from mapped regions.
pub mod addr;
pub mod page;
pub mod frame;
pub mod solver;
pub mod frame_allocator;
pub mod page_table;
pub mod addr_space;
pub mod thread;
pub mod syscall;
