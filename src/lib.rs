//! Virtual-memory management core of a unikernel: address spaces made of
//! sorted, non-overlapping mappings and their backends, a physical frame
//! allocator, the reduction of paging failures to one error domain, and the
//! one-time construction of the kernel address space; with the boot
//! information cell, the input subsystem and framebuffer drawing that the
//! kernel's applications use.

pub mod addr;
pub mod aspace;
pub mod bits;
pub mod boot;
pub mod error;
pub mod frame;
pub mod graphic;
pub mod input;
pub mod mm;
