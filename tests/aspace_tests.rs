use axmm_core::addr::{align_down_4k, is_aligned_4k, PhysAddr, VirtAddr};
use axmm_core::aspace::{AddrSpace, Backend, MappingFlags};
use axmm_core::error::AxError;
use axmm_core::frame::FrameAllocator;

const RW: MappingFlags = MappingFlags(MappingFlags::READ | MappingFlags::WRITE);
const RO: MappingFlags = MappingFlags(MappingFlags::READ);

fn frames(n: u64) -> FrameAllocator {
    FrameAllocator::new(0x8000_0000, 0x8000_0000 + n * 0x1000).unwrap()
}

fn space(fa: &mut FrameAllocator) -> AddrSpace {
    AddrSpace::new_empty(VirtAddr(0), 0x40_0000_0000, fa).unwrap()
}

#[test]
fn linear_translation_is_offset() {
    let mut fa = frames(4);
    let mut a = space(&mut fa);
    a.map_linear(VirtAddr(0x1000_0000), PhysAddr(0x8000_0000), 0x4000, RW).unwrap();
    assert_eq!(a.query(VirtAddr(0x1000_0000)), Ok(PhysAddr(0x8000_0000)));
    assert_eq!(a.query(VirtAddr(0x1000_1234)), Ok(PhysAddr(0x8000_1234)));
    assert_eq!(a.query(VirtAddr(0x1000_3fff)), Ok(PhysAddr(0x8000_3fff)));
    assert_eq!(a.query(VirtAddr(0x1000_4000)), Err(AxError::NotFound));
    assert_eq!(a.query(VirtAddr(0x0fff_ffff)), Err(AxError::NotFound));
}

#[test]
fn overlapping_map_fails_and_changes_nothing() {
    let mut fa = frames(8);
    let mut a = space(&mut fa);
    a.map_linear(VirtAddr(0x10_0000), PhysAddr(0x20_0000), 0x4000, RW).unwrap();
    assert_eq!(
        a.map_linear(VirtAddr(0x10_3000), PhysAddr(0x90_0000), 0x2000, RW),
        Err(AxError::AlreadyExists)
    );
    assert_eq!(
        a.map_alloc(VirtAddr(0x0f_f000), 0x2000, RW, false, &mut fa),
        Err(AxError::AlreadyExists)
    );
    assert_eq!(a.num_mappings(), 1);
    assert_eq!(a.query(VirtAddr(0x10_3000)), Ok(PhysAddr(0x20_3000)));
    // adjacent ranges do not overlap
    a.map_linear(VirtAddr(0x10_4000), PhysAddr(0x90_0000), 0x1000, RW).unwrap();
    a.map_linear(VirtAddr(0x0f_f000), PhysAddr(0xa0_0000), 0x1000, RW).unwrap();
    assert_eq!(a.num_mappings(), 3);
    assert_eq!(a.mapping(0).start, 0x0f_f000);
    assert_eq!(a.mapping(2).start, 0x10_4000);
}

#[test]
fn bad_arguments_are_invalid_input() {
    let mut fa = frames(8);
    let mut a = space(&mut fa);
    assert_eq!(a.map_linear(VirtAddr(0x1001), PhysAddr(0x2000), 0x1000, RW), Err(AxError::InvalidInput));
    assert_eq!(a.map_linear(VirtAddr(0x1000), PhysAddr(0x2001), 0x1000, RW), Err(AxError::InvalidInput));
    assert_eq!(a.map_linear(VirtAddr(0x1000), PhysAddr(0x2000), 0x1001, RW), Err(AxError::InvalidInput));
    assert_eq!(a.map_linear(VirtAddr(0x1000), PhysAddr(0x2000), 0, RW), Err(AxError::InvalidInput));
    assert_eq!(
        a.map_linear(VirtAddr(0x40_0000_0000), PhysAddr(0x2000), 0x1000, RW),
        Err(AxError::InvalidInput)
    );
    assert_eq!(a.map_alloc(VirtAddr(0x3f_ffff_f000), 0x2000, RW, false, &mut fa), Err(AxError::InvalidInput));
    assert_eq!(a.unmap(VirtAddr(0x1000), 0x800, &mut fa), Err(AxError::InvalidInput));
    assert_eq!(a.unmap(VirtAddr(0x1000), 0, &mut fa), Err(AxError::InvalidInput));
    assert_eq!(a.num_mappings(), 0);
}

#[test]
fn new_empty_errors() {
    let mut fa = frames(1);
    assert!(matches!(AddrSpace::new_empty(VirtAddr(0), 0, &mut fa), Err(AxError::InvalidInput)));
    assert!(matches!(
        AddrSpace::new_empty(VirtAddr(0xffff_ffff_ffff_f000), 0x2000, &mut fa),
        Err(AxError::InvalidInput)
    ));
    let a = AddrSpace::new_empty(VirtAddr(0x1000), 0x1000, &mut fa).unwrap();
    assert_eq!(a.page_table_root(), PhysAddr(0x8000_0000));
    assert_eq!(a.base(), VirtAddr(0x1000));
    assert_eq!(a.size(), 0x1000);
    assert!(matches!(AddrSpace::new_empty(VirtAddr(0), 0x1000, &mut fa), Err(AxError::NoMemory)));
}

#[test]
fn unmap_then_query_not_found() {
    let mut fa = frames(8);
    let mut a = space(&mut fa);
    a.map_linear(VirtAddr(0x10_0000), PhysAddr(0x20_0000), 0x4000, RW).unwrap();
    a.unmap(VirtAddr(0x10_0000), 0x4000, &mut fa).unwrap();
    assert_eq!(a.query(VirtAddr(0x10_0000)), Err(AxError::NotFound));
    assert_eq!(a.query(VirtAddr(0x10_3fff)), Err(AxError::NotFound));
    assert_eq!(a.num_mappings(), 0);
}

#[test]
fn unmap_never_mapped_is_not_found() {
    let mut fa = frames(8);
    let mut a = space(&mut fa);
    a.map_linear(VirtAddr(0x10_0000), PhysAddr(0x20_0000), 0x1000, RW).unwrap();
    assert_eq!(a.unmap(VirtAddr(0x50_0000), 0x2000, &mut fa), Err(AxError::NotFound));
    assert_eq!(a.unmap(VirtAddr(0x10_1000), 0x1000, &mut fa), Err(AxError::NotFound));
    assert_eq!(a.num_mappings(), 1);
    assert_eq!(a.query(VirtAddr(0x10_0000)), Ok(PhysAddr(0x20_0000)));
}

#[test]
fn unmap_middle_splits_mapping() {
    let mut fa = frames(8);
    let mut a = space(&mut fa);
    a.map_linear(VirtAddr(0x10_0000), PhysAddr(0x20_0000), 0x4000, RW).unwrap();
    a.unmap(VirtAddr(0x10_1000), 0x2000, &mut fa).unwrap();
    assert_eq!(a.num_mappings(), 2);
    assert_eq!(a.query(VirtAddr(0x10_0fff)), Ok(PhysAddr(0x20_0fff)));
    assert_eq!(a.query(VirtAddr(0x10_1000)), Err(AxError::NotFound));
    assert_eq!(a.query(VirtAddr(0x10_2fff)), Err(AxError::NotFound));
    assert_eq!(a.query(VirtAddr(0x10_3000)), Ok(PhysAddr(0x20_3000)));
    assert_eq!(a.mapping(1).backend, Backend::Linear { pa_start: 0x20_3000 });
}

#[test]
fn unmap_across_several_mappings() {
    let mut fa = frames(8);
    let mut a = space(&mut fa);
    a.map_linear(VirtAddr(0x10_0000), PhysAddr(0x20_0000), 0x2000, RW).unwrap();
    a.map_linear(VirtAddr(0x10_2000), PhysAddr(0x40_0000), 0x2000, RW).unwrap();
    a.map_linear(VirtAddr(0x10_4000), PhysAddr(0x60_0000), 0x2000, RW).unwrap();
    a.unmap(VirtAddr(0x10_1000), 0x4000, &mut fa).unwrap();
    assert_eq!(a.num_mappings(), 2);
    assert_eq!(a.query(VirtAddr(0x10_0000)), Ok(PhysAddr(0x20_0000)));
    assert_eq!(a.query(VirtAddr(0x10_2000)), Err(AxError::NotFound));
    assert_eq!(a.query(VirtAddr(0x10_5000)), Ok(PhysAddr(0x60_1000)));
}

#[test]
fn eager_alloc_takes_frames_now() {
    let mut fa = frames(5);
    let mut a = space(&mut fa);
    a.map_alloc(VirtAddr(0x4000), 0x3000, RW, true, &mut fa).unwrap();
    assert!(!fa.has_frames(2));
    assert!(fa.has_frames(1));
    assert_eq!(a.query(VirtAddr(0x4000)), Ok(PhysAddr(0x8000_1000)));
    assert_eq!(a.query(VirtAddr(0x5010)), Ok(PhysAddr(0x8000_2010)));
    assert_eq!(a.query(VirtAddr(0x6fff)), Ok(PhysAddr(0x8000_3fff)));
    // an eager mapping takes no fault
    assert!(!a.handle_page_fault(VirtAddr(0x4000), RO, &mut fa));
}

#[test]
fn eager_alloc_without_frames_is_no_memory() {
    let mut fa = frames(3);
    let mut a = space(&mut fa);
    assert_eq!(a.map_alloc(VirtAddr(0x4000), 0x3000, RW, true, &mut fa), Err(AxError::NoMemory));
    assert_eq!(a.num_mappings(), 0);
    assert!(fa.has_frames(2));
    // a lazy mapping of the same size needs no frame yet
    a.map_alloc(VirtAddr(0x4000), 0x3000, RW, false, &mut fa).unwrap();
    assert!(fa.has_frames(2));
}

#[test]
fn lazy_alloc_one_frame_per_faulted_page() {
    let mut fa = frames(4);
    let mut a = space(&mut fa);
    a.map_alloc(VirtAddr(0x2000), 0x3000, RW, false, &mut fa).unwrap();
    assert!(fa.has_frames(3));
    assert_eq!(a.query(VirtAddr(0x2000)), Err(AxError::NotFound));
    assert!(a.handle_page_fault(VirtAddr(0x3004), RW, &mut fa));
    assert!(fa.has_frames(2) && !fa.has_frames(3));
    assert_eq!(a.query(VirtAddr(0x3000)), Ok(PhysAddr(0x8000_1000)));
    assert_eq!(a.query(VirtAddr(0x3ff0)), Ok(PhysAddr(0x8000_1ff0)));
    assert_eq!(a.query(VirtAddr(0x2000)), Err(AxError::NotFound));
    // a second fault in the same page is not served again
    assert!(!a.handle_page_fault(VirtAddr(0x3800), RW, &mut fa));
    assert!(fa.has_frames(2) && !fa.has_frames(3));
}

#[test]
fn fault_with_forbidden_access_is_not_served() {
    let mut fa = frames(4);
    let mut a = space(&mut fa);
    a.map_alloc(VirtAddr(0x2000), 0x1000, RO, false, &mut fa).unwrap();
    assert!(!a.handle_page_fault(VirtAddr(0x2000), MappingFlags(MappingFlags::WRITE), &mut fa));
    assert_eq!(a.query(VirtAddr(0x2000)), Err(AxError::NotFound));
    assert!(a.handle_page_fault(VirtAddr(0x2000), RO, &mut fa));
}

#[test]
fn fault_without_frames_is_not_served() {
    let mut fa = frames(1);
    let mut a = space(&mut fa);
    a.map_alloc(VirtAddr(0x2000), 0x1000, RW, false, &mut fa).unwrap();
    assert!(!a.handle_page_fault(VirtAddr(0x2000), RW, &mut fa));
}

#[test]
fn unmap_gives_frames_back() {
    let mut fa = frames(4);
    let mut a = space(&mut fa);
    a.map_alloc(VirtAddr(0x2000), 0x3000, RW, true, &mut fa).unwrap();
    assert!(!fa.has_frames(1));
    a.unmap(VirtAddr(0x3000), 0x1000, &mut fa).unwrap();
    assert!(fa.has_frames(1) && !fa.has_frames(2));
    assert_eq!(a.query(VirtAddr(0x2000)), Ok(PhysAddr(0x8000_1000)));
    assert_eq!(a.query(VirtAddr(0x4000)), Ok(PhysAddr(0x8000_3000)));
    assert_eq!(a.query(VirtAddr(0x3000)), Err(AxError::NotFound));
    assert!(a.is_mapped(VirtAddr(0x2000)));
    assert!(!a.is_mapped(VirtAddr(0x3000)));
}

#[test]
fn copy_shares_frames_and_translations() {
    let mut fa = frames(8);
    let mut k = AddrSpace::new_empty(VirtAddr(0x1000_0000), 0x1000_0000, &mut fa).unwrap();
    k.map_linear(VirtAddr(0x1000_0000), PhysAddr(0x30_0000), 0x2000, RW).unwrap();
    k.map_alloc(VirtAddr(0x1100_0000), 0x2000, RW, true, &mut fa).unwrap();
    let mut u = space(&mut fa);
    u.copy_mappings_from(&k).unwrap();
    assert_eq!(u.num_mappings(), 2);
    for va in [0x1000_0000u64, 0x1000_1abc, 0x1100_0000, 0x1100_1fff, 0x1200_0000] {
        assert_eq!(u.query(VirtAddr(va)), k.query(VirtAddr(va)));
    }
    assert!(u.mapping(0).shared);
    assert_eq!(u.mapping(0).backend, Backend::Linear { pa_start: 0x30_0000 });
    assert_eq!(u.mapping(1).backend, Backend::Alloc { populate: true });
    assert_ne!(u.page_table_root(), k.page_table_root());
    // copying again meets the copies
    assert_eq!(u.copy_mappings_from(&k), Err(AxError::BadState));
    assert_eq!(u.num_mappings(), 2);
    // unmapping a shared mapping gives no frame back
    assert!(fa.has_frames(4) && !fa.has_frames(5));
    u.unmap(VirtAddr(0x1100_0000), 0x2000, &mut fa).unwrap();
    assert!(fa.has_frames(4) && !fa.has_frames(5));
    assert_eq!(u.query(VirtAddr(0x1100_0000)), Err(AxError::NotFound));
    assert!(k.query(VirtAddr(0x1100_0000)).is_ok());
}

#[test]
fn alignment_helpers() {
    assert!(is_aligned_4k(0x3000));
    assert!(!is_aligned_4k(0x3001));
    assert_eq!(align_down_4k(0x3fff), 0x3000);
    assert_eq!(align_down_4k(0x3000), 0x3000);
    assert!(VirtAddr(0x2000).is_aligned_4k());
    assert!(!PhysAddr(0x2010).is_aligned_4k());
    assert_eq!(VirtAddr(0x1000).checked_add(0x234), Some(VirtAddr(0x1234)));
    assert_eq!(VirtAddr(u64::MAX).checked_add(1), None);
    assert_eq!(VirtAddr(7).as_u64(), 7);
    assert!(RW.contains(RO));
    assert!(!RO.contains(RW));
}

#[test]
fn eager_frames_are_distinct_and_taken() {
    let mut fa = frames(6);
    let mut a = space(&mut fa);
    a.map_alloc(VirtAddr(0x8000), 0x4000, RW, true, &mut fa).unwrap();
    let mut seen = Vec::new();
    for p in 0..4u64 {
        let f = a.query(VirtAddr(0x8000 + p * 0x1000)).unwrap().0;
        assert!(!fa.holds(f));
        assert!(!seen.contains(&f));
        seen.push(f);
    }
    assert!(fa.holds(0x8000_5000));
}

#[test]
fn unmapped_frames_become_free() {
    let mut fa = frames(4);
    let mut a = space(&mut fa);
    a.map_alloc(VirtAddr(0x2000), 0x3000, RW, true, &mut fa).unwrap();
    let f = a.query(VirtAddr(0x3000)).unwrap().0;
    assert!(!fa.holds(f));
    a.unmap(VirtAddr(0x3000), 0x1000, &mut fa).unwrap();
    assert!(fa.holds(f));
    let g = a.query(VirtAddr(0x2000)).unwrap().0;
    assert!(!fa.holds(g));
}

#[test]
fn double_free_is_counted_once() {
    let mut fa = frames(2);
    let f = fa.alloc_frame().unwrap();
    assert!(fa.has_frames(1) && !fa.has_frames(2));
    fa.dealloc_frame(f);
    fa.dealloc_frame(f);
    assert!(fa.has_frames(2) && !fa.has_frames(3));
    fa.dealloc_frame(0x8000_1000);
    assert!(fa.has_frames(2) && !fa.has_frames(3));
}

#[test]
fn fault_in_shared_lazy_mapping_is_refused() {
    let mut fa = frames(8);
    let mut k = AddrSpace::new_empty(VirtAddr(0x1000_0000), 0x1000_0000, &mut fa).unwrap();
    k.map_alloc(VirtAddr(0x1000_0000), 0x2000, RW, false, &mut fa).unwrap();
    let mut u = space(&mut fa);
    u.copy_mappings_from(&k).unwrap();
    assert!(!u.handle_page_fault(VirtAddr(0x1000_0000), RO, &mut fa));
    assert!(k.handle_page_fault(VirtAddr(0x1000_0000), RO, &mut fa));
}

#[test]
fn faulted_page_gets_the_handed_out_frame() {
    let mut fa = frames(4);
    let mut a = space(&mut fa);
    a.map_alloc(VirtAddr(0x2000), 0x2000, RW, false, &mut fa).unwrap();
    assert!(fa.holds(0x8000_1000));
    assert!(a.handle_page_fault(VirtAddr(0x2abc), RW, &mut fa));
    assert_eq!(a.query(VirtAddr(0x2000)), Ok(PhysAddr(0x8000_1000)));
    assert!(!fa.holds(0x8000_1000));
}
