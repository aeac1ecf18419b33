//! The multiboot information handed over by the boot loader, kept once.

use vstd::prelude::*;

verus! {

/// Multiboot 1 information structure.
#[derive(Clone, Copy, Debug)]
pub struct MultibootInfo {
    /// Validity bits: bit 0 for `mem_lower` and `mem_upper`, bit 3 for
    /// `mods_addr` and `mods_count`.
    pub flags: u32,
    pub mem_lower: u32,
    pub mem_upper: u32,
    pub boot_device: u32,
    pub cmdline: u32,
    pub mods_count: u32,
    pub mods_addr: u32,
    pub syms: [u32; 4],
    pub mmap_length: u32,
    pub mmap_addr: u32,
    pub drives_length: u32,
    pub drives_addr: u32,
    pub config_table: u32,
    pub boot_loader_name: u32,
    pub apm_table: u32,
    pub vbe_control_info: u32,
    pub vbe_mode_info: u32,
    pub vbe_mode: u16,
    pub vbe_interface_seg: u16,
    pub vbe_interface_off: u16,
    pub vbe_interface_len: u16,
}

impl MultibootInfo {
    /// Whether `mem_lower` and `mem_upper` are valid.
    pub fn has_memory_info(&self) -> (r: bool)
        ensures
            r == (self.flags & 1 != 0),
    {
        self.flags & 1 != 0
    }

    /// Whether `mods_addr` and `mods_count` are valid.
    pub fn has_modules(&self) -> (r: bool)
        ensures
            r == (self.flags & 8 != 0),
    {
        self.flags & 8 != 0
    }
}

/// One boot module in the multiboot module list.
#[derive(Clone, Copy, Debug)]
pub struct ModuleEntry {
    /// First physical address of the module.
    pub mod_start: u32,
    /// First physical address past the module.
    pub mod_end: u32,
    pub cmdline: u32,
    pub reserved: u32,
}

impl ModuleEntry {
    /// A module entry over `[mod_start, mod_end)` with its command line at
    /// `cmdline`.
    pub fn new(mod_start: u32, mod_end: u32, cmdline: u32) -> (r: ModuleEntry)
        ensures
            r.mod_start == mod_start,
            r.mod_end == mod_end,
            r.cmdline == cmdline,
    {
        ModuleEntry { mod_start, mod_end, cmdline, reserved: 0 }
    }
}

/// A cell that the boot information is written into once.
pub struct BootInfo {
    info: Option<MultibootInfo>,
}

impl BootInfo {
    /// Whether the information has been written.
    pub closed spec fn is_set(&self) -> bool {
        self.info is Some
    }

    /// The information written.
    pub closed spec fn value(&self) -> MultibootInfo {
        self.info.unwrap()
    }

    /// An empty cell.
    pub fn new() -> (r: BootInfo)
        ensures
            !r.is_set(),
    {
        BootInfo { info: None }
    }

    /// Whether the information has been written.
    pub fn is_initialized(&self) -> (r: bool)
        ensures
            r == self.is_set(),
    {
        self.info.is_some()
    }

    /// The boot information; it must have been written.
    pub fn boot_info(&self) -> (r: &MultibootInfo)
        requires
            self.is_set(),
        ensures
            *r == self.value(),
    {
        self.info.as_ref().unwrap()
    }

    /// Writes the boot information; it can be written only once.
    pub fn set_boot_info(&mut self, info: MultibootInfo)
        requires
            !old(self).is_set(),
        ensures
            final(self).is_set(),
            final(self).value() == info,
    {
        self.info = Some(info);
    }
}

} // verus!
