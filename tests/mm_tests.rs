use axmm_core::addr::{PhysAddr, VirtAddr};
use axmm_core::aspace::MappingFlags;
use axmm_core::boot::{BootInfo, ModuleEntry, MultibootInfo};
use axmm_core::error::{mapping_err_to_ax_err, paging_err_to_ax_err, AxError, MappingError, PagingError};
use axmm_core::frame::FrameAllocator;
use axmm_core::input::{
    ax_input_device_info, ax_input_device_name, ax_input_has_events, ax_input_poll_event, InputDevice,
    InputEvent, InputSubsystem,
};
use axmm_core::mm::{
    new_kernel_aspace, new_user_aspace, phys_to_virt, virt_to_phys, KernelMemory, MemoryRegion,
    PHYS_VIRT_OFFSET, USER_ASPACE_SIZE,
};

const RWX: u64 = MappingFlags::READ | MappingFlags::WRITE | MappingFlags::EXECUTE;
const RW: u64 = MappingFlags::READ | MappingFlags::WRITE;

fn boot_regions() -> Vec<MemoryRegion> {
    vec![
        MemoryRegion { paddr: PhysAddr(0x1000_0000), size: 0x100_0000, flags: MappingFlags(RWX) },
        MemoryRegion { paddr: PhysAddr(0x4000_0000), size: 0x1000_0000, flags: MappingFlags(RW) },
    ]
}

fn frames() -> FrameAllocator {
    FrameAllocator::new(0x8000_0000, 0x8010_0000).unwrap()
}

#[test]
fn kernel_aspace_from_two_regions() {
    let mut fa = frames();
    let mut km = KernelMemory::new();
    let root = km.init_memory_management(&boot_regions(), &mut fa).unwrap();
    assert!(km.is_ready());
    let root2 = km.kernel_page_table_root();
    assert_eq!(root, root2);
    assert!(root2.0 != 0);
    assert_eq!(root2.0 % 0x1000, 0);
    let va = phys_to_virt(PhysAddr(0x1000_0000));
    assert_eq!(va, VirtAddr(0xffff_ff80_1000_0000));
    assert_eq!(km.kernel_aspace().query(va), Ok(PhysAddr(0x1000_0000)));
    assert_eq!(
        km.kernel_aspace().query(phys_to_virt(PhysAddr(0x4fff_fff8))),
        Ok(PhysAddr(0x4fff_fff8))
    );
    assert_eq!(km.kernel_aspace().query(phys_to_virt(PhysAddr(0x2000_0000))), Err(AxError::NotFound));
    assert_eq!(km.init_memory_management_secondary(), root);
}

#[test]
fn kernel_aspace_region_errors() {
    let mut fa = frames();
    let mut overlapping = boot_regions();
    overlapping.push(MemoryRegion { paddr: PhysAddr(0x1080_0000), size: 0x1000, flags: MappingFlags(RW) });
    assert!(matches!(new_kernel_aspace(&overlapping, &mut fa), Err(AxError::AlreadyExists)));
    let misaligned = vec![MemoryRegion { paddr: PhysAddr(0x1000_0800), size: 0x1000, flags: MappingFlags(RW) }];
    assert!(matches!(new_kernel_aspace(&misaligned, &mut fa), Err(AxError::InvalidInput)));
    let empty = vec![MemoryRegion { paddr: PhysAddr(0x1000_0000), size: 0, flags: MappingFlags(RW) }];
    assert!(matches!(new_kernel_aspace(&empty, &mut fa), Err(AxError::InvalidInput)));
    let mut none = FrameAllocator::new(0x8000_0000, 0x8000_0000).unwrap();
    assert!(matches!(new_kernel_aspace(&boot_regions(), &mut none), Err(AxError::NoMemory)));
    let mut km = KernelMemory::new();
    assert!(km.init_memory_management(&overlapping, &mut fa).is_err());
    assert!(!km.is_ready());
}

#[test]
fn user_aspace_shares_kernel_mappings() {
    let mut fa = frames();
    let mut km = KernelMemory::new();
    km.init_memory_management(&boot_regions(), &mut fa).unwrap();
    let u = km.new_user_aspace(&mut fa).unwrap();
    assert_eq!(u.base(), VirtAddr(0));
    assert_eq!(u.size(), USER_ASPACE_SIZE);
    assert_eq!(u.size(), 0x40_0000_0000);
    let va = phys_to_virt(PhysAddr(0x4123_4567));
    assert_eq!(u.query(va), Ok(PhysAddr(0x4123_4567)));
    assert_eq!(u.query(va), km.kernel_aspace().query(va));
    assert_ne!(u.page_table_root(), km.kernel_page_table_root());
    let mut none = FrameAllocator::new(0x9000_0000, 0x9000_0000).unwrap();
    assert!(matches!(new_user_aspace(km.kernel_aspace(), &mut none), Err(AxError::NoMemory)));
}

#[test]
fn user_lazy_region_fault_scenario() {
    let mut fa = frames();
    let mut km = KernelMemory::new();
    km.init_memory_management(&boot_regions(), &mut fa).unwrap();
    let mut u = km.new_user_aspace(&mut fa).unwrap();
    let flags = MappingFlags(MappingFlags::READ | MappingFlags::WRITE | MappingFlags::USER);
    u.map_alloc(VirtAddr(0x2000), 0x3000, flags, false, &mut fa).unwrap();
    assert_eq!(u.query(VirtAddr(0x2000)), Err(AxError::NotFound));
    assert!(u.handle_page_fault(VirtAddr(0x2FFF), MappingFlags(MappingFlags::READ), &mut fa));
    let pa = u.query(VirtAddr(0x2000)).unwrap();
    assert_eq!(pa.0 % 0x1000, 0);
    assert_eq!(u.query(VirtAddr(0x2FFF)), Ok(PhysAddr(pa.0 + 0xFFF)));
    assert_eq!(u.query(VirtAddr(0x3000)), Err(AxError::NotFound));
    assert!(!u.handle_page_fault(VirtAddr(0x10000), MappingFlags(MappingFlags::READ), &mut fa));
}

#[test]
fn offset_conversions() {
    assert_eq!(PHYS_VIRT_OFFSET, 0xffff_ff80_0000_0000);
    assert_eq!(virt_to_phys(VirtAddr(0xffff_ff80_0000_3000)), PhysAddr(0x3000));
    assert_eq!(virt_to_phys(phys_to_virt(PhysAddr(0x1234))), PhysAddr(0x1234));
}

#[test]
fn error_kinds_are_reduced() {
    assert_eq!(mapping_err_to_ax_err(MappingError::InvalidParam), AxError::InvalidInput);
    assert_eq!(mapping_err_to_ax_err(MappingError::AlreadyExists), AxError::AlreadyExists);
    assert_eq!(mapping_err_to_ax_err(MappingError::BadState), AxError::BadState);
    assert_eq!(paging_err_to_ax_err(PagingError::NoMemory), AxError::NoMemory);
    assert_eq!(paging_err_to_ax_err(PagingError::NotAligned), AxError::InvalidInput);
    assert_eq!(paging_err_to_ax_err(PagingError::NotMapped), AxError::NotFound);
    assert_eq!(paging_err_to_ax_err(PagingError::AlreadyMapped), AxError::AlreadyExists);
    assert_eq!(paging_err_to_ax_err(PagingError::MappedToHugePage), AxError::InvalidInput);
}

#[test]
fn frame_allocator_order() {
    assert!(FrameAllocator::new(0, 0x2000).is_none());
    assert!(FrameAllocator::new(0x1800, 0x3000).is_none());
    assert!(FrameAllocator::new(0x3000, 0x2000).is_none());
    let mut fa = FrameAllocator::new(0x1000, 0x3000).unwrap();
    assert!(fa.has_frames(2) && !fa.has_frames(3));
    assert_eq!(fa.alloc_frame(), Some(0x1000));
    assert_eq!(fa.alloc_frame(), Some(0x2000));
    assert_eq!(fa.alloc_frame(), None);
    fa.dealloc_frame(0x1000);
    assert_eq!(fa.alloc_frame(), Some(0x1000));
    assert_eq!(fa.alloc_frame(), None);
}

fn multiboot(flags: u32) -> MultibootInfo {
    MultibootInfo {
        flags,
        mem_lower: 640,
        mem_upper: 130048,
        boot_device: 0,
        cmdline: 0,
        mods_count: 0,
        mods_addr: 0,
        syms: [0; 4],
        mmap_length: 0,
        mmap_addr: 0,
        drives_length: 0,
        drives_addr: 0,
        config_table: 0,
        boot_loader_name: 0,
        apm_table: 0,
        vbe_control_info: 0,
        vbe_mode_info: 0,
        vbe_mode: 0,
        vbe_interface_seg: 0,
        vbe_interface_off: 0,
        vbe_interface_len: 0,
    }
}

#[test]
fn boot_info_written_once() {
    let mut cell = BootInfo::new();
    assert!(!cell.is_initialized());
    cell.set_boot_info(multiboot(0x9));
    assert!(cell.is_initialized());
    assert_eq!(cell.boot_info().mem_upper, 130048);
    assert!(cell.boot_info().has_memory_info());
    assert!(cell.boot_info().has_modules());
    assert!(!multiboot(0x2).has_memory_info());
    let m = ModuleEntry::new(0x10_0000, 0x20_0000, 0x30);
    assert_eq!(m.mod_end, 0x20_0000);
}

#[test]
fn input_queries() {
    let mut input = InputSubsystem::new();
    assert!(!ax_input_has_events(&input));
    assert_eq!(ax_input_device_name(&input), None);
    assert_eq!(ax_input_device_info(&input), None);
    assert_eq!(ax_input_poll_event(&mut input), None);
    let mut dev = InputDevice::new(String::from("virtio-input"), String::from("tablet"));
    dev.push_event(InputEvent { event_type: 3, code: 0, value: 100 });
    dev.push_event(InputEvent { event_type: 0, code: 0, value: 0 });
    let other = InputDevice::new(String::from("second"), String::from("mouse"));
    input.init_input(vec![dev, other]);
    assert_eq!(ax_input_device_name(&input), Some(String::from("virtio-input")));
    assert_eq!(ax_input_device_info(&input), Some(String::from("tablet")));
    assert!(ax_input_has_events(&input));
    assert_eq!(ax_input_poll_event(&mut input), Some(InputEvent { event_type: 3, code: 0, value: 100 }));
    assert_eq!(ax_input_poll_event(&mut input), Some(InputEvent { event_type: 0, code: 0, value: 0 }));
    assert!(!ax_input_has_events(&input));
    assert_eq!(ax_input_poll_event(&mut input), None);
}

#[test]
fn kernel_space_changes_after_boot() {
    let mut fa = frames();
    let mut km = KernelMemory::new();
    let root = km.init_memory_management(&boot_regions(), &mut fa).unwrap();
    assert!(!fa.holds(root.0));
    assert_eq!(km.kernel_aspace().num_mappings(), 2);
    let va = VirtAddr(0xffff_ff90_0000_0000);
    km.map_linear(va, PhysAddr(0x9000_0000), 0x2000, MappingFlags(RW)).unwrap();
    assert_eq!(km.kernel_aspace().query(VirtAddr(0xffff_ff90_0000_1234)), Ok(PhysAddr(0x9000_1234)));
    assert_eq!(
        km.map_linear(va, PhysAddr(0x9100_0000), 0x1000, MappingFlags(RW)),
        Err(AxError::AlreadyExists)
    );
    assert_eq!(km.map_linear(VirtAddr(0x1000), PhysAddr(0x1000), 0x1000, MappingFlags(RW)), Err(AxError::InvalidInput));
    let lazy = VirtAddr(0xffff_ffa0_0000_0000);
    km.map_alloc(lazy, 0x2000, MappingFlags(RW), false, &mut fa).unwrap();
    assert!(km.handle_page_fault(lazy, MappingFlags(MappingFlags::READ), &mut fa));
    assert!(!km.handle_page_fault(VirtAddr(0xffff_ffb0_0000_0000), MappingFlags(MappingFlags::READ), &mut fa));
    km.unmap(va, 0x2000, &mut fa).unwrap();
    assert_eq!(km.kernel_aspace().query(va), Err(AxError::NotFound));
    assert_eq!(km.kernel_page_table_root(), root);
    let u = km.new_user_aspace(&mut fa).unwrap();
    assert_eq!(u.num_mappings(), km.kernel_aspace().num_mappings());
}
