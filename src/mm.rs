//! Construction of the kernel and user address spaces, and the kernel
//! address space's one-time initialisation.

use vstd::prelude::*;
use crate::addr::{aligned, PhysAddr, VirtAddr};
use crate::aspace::{page_of, pages, shared_of, AddrInfo, AddrSpace, MappingFlags};
use crate::error::AxError;
use crate::frame::FrameAllocator;

verus! {

/// Offset between a physical address and the kernel virtual address that
/// maps it.
pub const PHYS_VIRT_OFFSET: u64 = 0xffff_ff80_0000_0000;

/// First address of the kernel's virtual window.
pub const KERNEL_ASPACE_BASE: u64 = 0xffff_ff80_0000_0000;

/// Size of the kernel's virtual window, which ends one page below the top of
/// the address space.
pub const KERNEL_ASPACE_SIZE: u64 = 0x0000_007f_ffff_f000;

/// First address of a user space's virtual window.
pub const USER_ASPACE_BASE: u64 = 0x0000;

/// Size of a user space's virtual window (256 GiB).
pub const USER_ASPACE_SIZE: u64 = 0x40_0000_0000;

/// One physically contiguous region found at boot.
#[derive(Clone, Copy, Debug, PartialEq, Eq, Structural)]
pub struct MemoryRegion {
    /// Its first physical address.
    pub paddr: PhysAddr,
    /// Its size in bytes.
    pub size: u64,
    /// How it is to be mapped.
    pub flags: MappingFlags,
}

/// The kernel virtual address of the physical address `pa`.
pub open spec fn spec_phys_to_virt(pa: int) -> int {
    pa + PHYS_VIRT_OFFSET
}

/// The kernel virtual address that maps the physical address `pa`.
pub fn phys_to_virt(pa: PhysAddr) -> (r: VirtAddr)
    requires
        pa.0 + PHYS_VIRT_OFFSET <= u64::MAX,
    ensures
        r.0 == spec_phys_to_virt(pa.0 as int),
{
    VirtAddr(pa.0 + PHYS_VIRT_OFFSET)
}

/// The physical address that the kernel virtual address `va` maps, in the
/// fixed-offset convention.
pub fn virt_to_phys(va: VirtAddr) -> (r: PhysAddr)
    requires
        va.0 >= PHYS_VIRT_OFFSET,
    ensures
        spec_phys_to_virt(r.0 as int) == va.0,
{
    PhysAddr(va.0 - PHYS_VIRT_OFFSET)
}

/// A region that can be mapped into the kernel window: non-empty,
/// page-aligned, and inside the window once moved by the offset.
pub open spec fn region_ok(r: MemoryRegion) -> bool {
    &&& r.size > 0
    &&& aligned(r.paddr.0 as int)
    &&& aligned(r.size as int)
    &&& KERNEL_ASPACE_BASE <= spec_phys_to_virt(r.paddr.0 as int)
    &&& spec_phys_to_virt(r.paddr.0 as int) + r.size <= KERNEL_ASPACE_BASE + KERNEL_ASPACE_SIZE
}

/// Whether two regions share a physical address.
pub open spec fn regions_overlap(a: MemoryRegion, b: MemoryRegion) -> bool {
    a.paddr.0 < b.paddr.0 + b.size && b.paddr.0 < a.paddr.0 + a.size
}

/// Whether region `r` holds the physical address `pa`.
pub open spec fn region_holds(r: MemoryRegion, pa: int) -> bool {
    r.paddr.0 <= pa < r.paddr.0 + r.size
}

/// What the kernel space built from `rs` says of the virtual address `x`.
pub open spec fn kernel_info(rs: Seq<MemoryRegion>, x: int) -> Option<AddrInfo> {
    if exists|i: int| 0 <= i < rs.len() && region_holds(#[trigger] rs[i], x - PHYS_VIRT_OFFSET) {
        let i = choose|i: int| 0 <= i < rs.len() && region_holds(#[trigger] rs[i], x - PHYS_VIRT_OFFSET);
        Some(
            AddrInfo {
                flags: rs[i].flags,
                linear: true,
                lazy: false,
                shared: false,
                target: Some(x - PHYS_VIRT_OFFSET),
            },
        )
    } else {
        None
    }
}

/// Every region can be mapped and no two overlap.
pub open spec fn regions_mappable(rs: Seq<MemoryRegion>) -> bool {
    &&& forall|i: int| 0 <= i < rs.len() ==> region_ok(#[trigger] rs[i])
    &&& forall|i: int, j: int|
        0 <= i < j < rs.len() ==> !regions_overlap(#[trigger] rs[i], #[trigger] rs[j])
}

/// Why region `i` cannot be mapped after the regions before it, if it cannot.
pub open spec fn region_failure(rs: Seq<MemoryRegion>, i: int) -> Option<AxError> {
    if !region_ok(rs[i]) {
        Some(AxError::InvalidInput)
    } else if exists|j: int| 0 <= j < i && regions_overlap(#[trigger] rs[j], rs[i]) {
        Some(AxError::AlreadyExists)
    } else {
        None
    }
}

/// The failure of the first region of `rs` that cannot be mapped, if any.
pub open spec fn build_failure(rs: Seq<MemoryRegion>) -> Option<AxError>
    decreases rs.len(),
{
    if rs.len() == 0 {
        None
    } else {
        match build_failure(rs.drop_last()) {
            Some(e) => Some(e),
            None => region_failure(rs, rs.len() - 1),
        }
    }
}

/// A failure among the first regions is the failure of every longer list.
proof fn lemma_failure_prefix(rs: Seq<MemoryRegion>, n: int)
    requires
        0 <= n <= rs.len(),
        build_failure(rs.subrange(0, n)) is Some,
    ensures
        build_failure(rs) == build_failure(rs.subrange(0, n)),
    decreases rs.len() - n,
{
    if n < rs.len() {
        let next = rs.subrange(0, n + 1);
        assert(next.drop_last() =~= rs.subrange(0, n));
        lemma_failure_prefix(rs, n + 1);
    } else {
        assert(rs.subrange(0, n) =~= rs);
    }
}

/// Region `i` fails after its predecessors exactly as it fails in any list
/// that starts with them and it.
proof fn lemma_region_failure_prefix(rs: Seq<MemoryRegion>, i: int)
    requires
        0 <= i < rs.len(),
    ensures
        region_failure(rs.subrange(0, i + 1), i) == region_failure(rs, i),
{
    let sub = rs.subrange(0, i + 1);
    assert(sub[i] == rs[i]);
    if exists|j: int| 0 <= j < i && regions_overlap(#[trigger] rs[j], rs[i]) {
        let j = choose|j: int| 0 <= j < i && regions_overlap(#[trigger] rs[j], rs[i]);
        assert(sub[j] == rs[j]);
    }
    if exists|j: int| 0 <= j < i && regions_overlap(#[trigger] sub[j], sub[i]) {
        let j = choose|j: int| 0 <= j < i && regions_overlap(#[trigger] sub[j], sub[i]);
        assert(sub[j] == rs[j]);
    }
}

/// With no failure among them, all regions can be mapped.
proof fn lemma_no_failure_mappable(rs: Seq<MemoryRegion>)
    requires
        build_failure(rs) is None,
    ensures
        regions_mappable(rs),
    decreases rs.len(),
{
    if rs.len() > 0 {
        let init = rs.drop_last();
        lemma_no_failure_mappable(init);
        let n = rs.len() - 1;
        assert forall|i: int| 0 <= i < rs.len() implies region_ok(#[trigger] rs[i]) by {
            if i < n {
                assert(rs[i] == init[i]);
            }
        }
        assert forall|i: int, j: int| 0 <= i < j < rs.len() implies !regions_overlap(
            #[trigger] rs[i],
            #[trigger] rs[j],
        ) by {
            if j < n {
                assert(rs[i] == init[i] && rs[j] == init[j]);
            }
        }
    }
}

/// In a set of regions of which none overlap, the region that holds `x`
/// decides what the kernel space says of it.
proof fn lemma_kernel_info_at(rs: Seq<MemoryRegion>, n: int, i: int, x: int)
    requires
        0 <= i < n <= rs.len(),
        forall|a: int, b: int| 0 <= a < b < n ==> !regions_overlap(#[trigger] rs[a], #[trigger] rs[b]),
        region_holds(rs[i], x - PHYS_VIRT_OFFSET),
    ensures
        kernel_info(rs.subrange(0, n), x) == Some(
            AddrInfo {
                flags: rs[i].flags,
                linear: true,
                lazy: false,
                shared: false,
                target: Some(x - PHYS_VIRT_OFFSET),
            },
        ),
{
    let sub = rs.subrange(0, n);
    assert(sub[i] == rs[i]);
    let j = choose|j: int| 0 <= j < sub.len() && region_holds(#[trigger] sub[j], x - PHYS_VIRT_OFFSET);
    assert(sub[j] == rs[j]);
    if j < i {
        assert(!regions_overlap(rs[j], rs[i]));
    } else if i < j {
        assert(!regions_overlap(rs[i], rs[j]));
    }
}

/// Builds the kernel address space: an empty space over the kernel window,
/// then each region mapped, in order, at its fixed-offset virtual address.
///
/// Fails with `NoMemory` where no frame is left for the page-table root; with
/// `InvalidInput` where a region cannot be mapped, or `AlreadyExists` where
/// it overlaps an earlier one.
pub fn new_kernel_aspace(regions: &Vec<MemoryRegion>, frames: &mut FrameAllocator) -> (r: Result<
    AddrSpace,
    AxError,
>)
    requires
        old(frames).wf(),
    ensures
        final(frames).wf(),
        r is Ok <==> old(frames).available() > 0 && regions_mappable(regions@),
        r is Ok <==> old(frames).available() > 0 && build_failure(regions@) is None,
        r == Err::<AddrSpace, AxError>(AxError::NoMemory) <==> old(frames).available() == 0,
        old(frames).available() > 0 && build_failure(regions@) is Some ==> r == Err::<
            AddrSpace,
            AxError,
        >(build_failure(regions@).unwrap()),
        r matches Ok(a) ==> {
            &&& a.wf()
            &&& a.spec_base() == KERNEL_ASPACE_BASE
            &&& a.spec_size() == KERNEL_ASPACE_SIZE
            &&& a.mappings().len() == regions@.len()
            &&& forall|x: int| #[trigger] a.info(x) == kernel_info(regions@, x)
            &&& final(frames).available() == old(frames).available() - 1
            &&& old(frames).is_free(a.root())
            &&& forall|f: int| #[trigger] final(frames).is_free(f) <==> old(frames).is_free(f) && f
                != a.root()
        },
{
    let mut aspace = match AddrSpace::new_empty(VirtAddr(KERNEL_ASPACE_BASE), KERNEL_ASPACE_SIZE, frames) {
        Ok(a) => a,
        Err(e) => {
            return Err(e);
        },
    };
    let ghost rs = regions@;
    let mut i: usize = 0;
    while i < regions.len()
        invariant
            aspace.wf(),
            frames.wf(),
            rs == regions@,
            aspace.spec_base() == KERNEL_ASPACE_BASE,
            aspace.spec_size() == KERNEL_ASPACE_SIZE,
            old(frames).available() > 0,
            frames.available() == old(frames).available() - 1,
            old(frames).is_free(aspace.root()),
            forall|f: int| #[trigger] frames.is_free(f) <==> old(frames).is_free(f) && f != aspace.root(),
            aspace.mappings().len() == i,
            i <= rs.len(),
            forall|j: int| 0 <= j < i ==> region_ok(#[trigger] rs[j]),
            forall|a: int, b: int| 0 <= a < b < i ==> !regions_overlap(#[trigger] rs[a], #[trigger] rs[b]),
            forall|x: int| #[trigger] aspace.info(x) == kernel_info(rs.subrange(0, i as int), x),
            build_failure(rs.subrange(0, i as int)) is None,
        decreases rs.len() - i,
    {
        let r = regions[i];
        proof {
            let next = rs.subrange(0, i + 1);
            assert(next.drop_last() =~= rs.subrange(0, i as int));
            lemma_region_failure_prefix(rs, i as int);
            assert(build_failure(next) == region_failure(rs, i as int));
        }
        if r.paddr.0 > u64::MAX - PHYS_VIRT_OFFSET {
            proof {
                lemma_failure_prefix(rs, i + 1);
            }
            return Err(AxError::InvalidInput);
        }
        let va = phys_to_virt(r.paddr);
        let ghost before = aspace;
        let res = aspace.map_linear(va, r.paddr, r.size, r.flags);
        match res {
            Ok(()) => {},
            Err(e) => {
                proof {
                    if e == AxError::AlreadyExists {
                        before.lemma_meets_covered(va.0 as int, va.0 + r.size);
                        let x = choose|x: int| va.0 <= x < va.0 + r.size && #[trigger] before.covered(x);
                        let sub = rs.subrange(0, i as int);
                        let j = choose|j: int|
                            0 <= j < sub.len() && region_holds(#[trigger] sub[j], x - PHYS_VIRT_OFFSET);
                        assert(sub[j] == rs[j]);
                        assert(regions_overlap(rs[j], rs[i as int]));
                    }
                    lemma_failure_prefix(rs, i + 1);
                }
                return Err(e);
            },
        }
        proof {
            let sub = rs.subrange(0, i as int);
            let sub2 = rs.subrange(0, i + 1);
            assert forall|j: int| 0 <= j < i implies !regions_overlap(#[trigger] rs[j], rs[i as int]) by {
                if regions_overlap(rs[j], rs[i as int]) {
                    let p = if rs[j].paddr.0 < r.paddr.0 { r.paddr.0 as int } else { rs[j].paddr.0 as int };
                    let x = p + PHYS_VIRT_OFFSET;
                    assert(sub[j] == rs[j]);
                    assert(region_holds(sub[j], x - PHYS_VIRT_OFFSET));
                    assert(before.covered(x));
                    before.lemma_meets_covered(va.0 as int, va.0 + r.size);
                }
            }
            assert forall|x: int| #[trigger] aspace.info(x) == kernel_info(sub2, x) by {
                if va.0 <= x < va.0 + r.size {
                    lemma_kernel_info_at(rs, i + 1, i as int, x);
                } else if exists|j: int| 0 <= j < sub.len() && region_holds(#[trigger] sub[j], x - PHYS_VIRT_OFFSET) {
                    let j = choose|j: int| 0 <= j < sub.len() && region_holds(#[trigger] sub[j], x - PHYS_VIRT_OFFSET);
                    assert(sub[j] == rs[j]);
                    lemma_kernel_info_at(rs, i as int, j, x);
                    lemma_kernel_info_at(rs, i + 1, j, x);
                } else {
                    assert forall|j: int| 0 <= j < sub2.len() implies !region_holds(#[trigger] sub2[j], x - PHYS_VIRT_OFFSET) by {
                        if j < i {
                            assert(sub2[j] == sub[j]);
                        }
                    }
                }
            }
        }
        i = i + 1;
    }
    proof {
        assert(rs.subrange(0, rs.len() as int) =~= rs);
        lemma_no_failure_mappable(rs);
    }
    Ok(aspace)
}

/// Builds a user address space: an empty space over the user window that
/// shares every mapping of `kernel`.
///
/// Fails with `NoMemory`, and changes nothing, where no frame is left for the
/// page-table root.
pub fn new_user_aspace(kernel: &AddrSpace, frames: &mut FrameAllocator) -> (r: Result<AddrSpace, AxError>)
    requires
        kernel.wf(),
        old(frames).wf(),
        !old(frames).is_free(kernel.root()),
    ensures
        final(frames).wf(),
        r is Err <==> old(frames).available() == 0,
        r is Err ==> r == Err::<AddrSpace, AxError>(AxError::NoMemory) && *final(frames) == *old(frames),
        r matches Ok(a) ==> {
            &&& a.wf()
            &&& a.spec_base() == USER_ASPACE_BASE
            &&& a.spec_size() == USER_ASPACE_SIZE
            &&& a.root() != kernel.root()
            &&& a.mappings().len() == kernel.mappings().len()
            &&& forall|x: int| #[trigger] a.info(x) == shared_of(kernel.info(x))
            &&& final(frames).available() == old(frames).available() - 1
            &&& forall|f: int| #[trigger] final(frames).is_free(f) <==> old(frames).is_free(f) && f
                != a.root()
        },
{
    let mut aspace = match AddrSpace::new_empty(VirtAddr(USER_ASPACE_BASE), USER_ASPACE_SIZE, frames) {
        Ok(a) => a,
        Err(e) => {
            return Err(e);
        },
    };
    let ghost fresh = aspace;
    match aspace.copy_mappings_from(kernel) {
        Ok(()) => {},
        Err(e) => {
            proof {
                let j = choose|j: int|
                    0 <= j < kernel.mappings().len() && fresh.meets_any(
                        #[trigger] kernel.mappings()[j].start as int,
                        kernel.mappings()[j].end as int,
                    );
            }
            return Err(e);
        },
    }
    proof {
        assert forall|x: int| #[trigger] aspace.info(x) == shared_of(kernel.info(x)) by {
            assert(fresh.info(x) is None);
        }
    }
    Ok(aspace)
}

/// The kernel address space, built once at boot and never torn down.
pub struct KernelMemory {
    aspace: Option<AddrSpace>,
}

impl KernelMemory {
    /// Whether the kernel address space has been built.
    pub closed spec fn ready(&self) -> bool {
        self.aspace is Some
    }

    /// The kernel address space, once built.
    pub closed spec fn spec_aspace(&self) -> AddrSpace {
        self.aspace.unwrap()
    }

    /// A built kernel space is well-formed.
    pub open spec fn wf(&self) -> bool {
        self.ready() ==> self.spec_aspace().wf()
    }

    /// Not yet initialised.
    pub fn new() -> (r: KernelMemory)
        ensures
            !r.ready(),
            r.wf(),
    {
        KernelMemory { aspace: None }
    }

    /// Whether the kernel address space has been built.
    pub fn is_ready(&self) -> (r: bool)
        ensures
            r == self.ready(),
    {
        self.aspace.is_some()
    }

    /// Builds the kernel address space from the boot-time regions, publishes
    /// it, and returns its page-table root for the boot CPU to load.
    ///
    /// Runs once: a second call is a caller's error that must stop the system,
    /// and is ruled out here. Fails where `new_kernel_aspace` fails, and then
    /// stays uninitialised.
    pub fn init_memory_management(&mut self, regions: &Vec<MemoryRegion>, frames: &mut FrameAllocator) -> (r:
        Result<PhysAddr, AxError>)
        requires
            !old(self).ready(),
            old(frames).wf(),
        ensures
            final(frames).wf(),
            final(self).wf(),
            r is Ok <==> old(frames).available() > 0 && regions_mappable(regions@),
            r is Ok <==> final(self).ready(),
            r matches Ok(root) ==> {
                &&& root.0 == final(self).spec_aspace().root()
                &&& final(self).spec_aspace().spec_base() == KERNEL_ASPACE_BASE
                &&& final(self).spec_aspace().spec_size() == KERNEL_ASPACE_SIZE
                &&& final(self).spec_aspace().mappings().len() == regions@.len()
                &&& forall|x: int| #[trigger] final(self).spec_aspace().info(x) == kernel_info(regions@, x)
                &&& final(frames).available() == old(frames).available() - 1
                &&& !final(frames).is_free(root.0 as int)
            },
    {
        match new_kernel_aspace(regions, frames) {
            Ok(a) => {
                let root = a.page_table_root();
                self.aspace = Some(a);
                Ok(root)
            },
            Err(e) => Err(e),
        }
    }

    /// The page-table root for a secondary CPU to load; only after the kernel
    /// space has been built.
    pub fn init_memory_management_secondary(&self) -> (r: PhysAddr)
        requires
            self.ready(),
        ensures
            r.0 == self.spec_aspace().root(),
    {
        self.kernel_page_table_root()
    }

    /// The kernel address space.
    pub fn kernel_aspace(&self) -> (r: &AddrSpace)
        requires
            self.ready(),
        ensures
            *r == self.spec_aspace(),
    {
        self.aspace.as_ref().unwrap()
    }

    /// Physical address of the kernel page-table root.
    pub fn kernel_page_table_root(&self) -> (r: PhysAddr)
        requires
            self.ready(),
        ensures
            r.0 == self.spec_aspace().root(),
    {
        self.aspace.as_ref().unwrap().page_table_root()
    }

    /// Maps `[va, va + size)` of the kernel space at a fixed offset onto
    /// `[pa, pa + size)`, as `AddrSpace::map_linear` does.
    pub fn map_linear(&mut self, va: VirtAddr, pa: PhysAddr, size: u64, flags: MappingFlags) -> (r: Result<(), AxError>)
        requires
            old(self).wf(),
            old(self).ready(),
        ensures
            final(self).wf(),
            final(self).ready(),
            final(self).spec_aspace().spec_base() == old(self).spec_aspace().spec_base(),
            final(self).spec_aspace().spec_size() == old(self).spec_aspace().spec_size(),
            final(self).spec_aspace().root() == old(self).spec_aspace().root(),
            r is Ok <==> old(self).spec_aspace().valid_range(va.0 as int, size as int) && aligned(pa.0 as int)
                && pa.0 + size <= u64::MAX && !old(self).spec_aspace().meets_any(va.0 as int, va.0 + size),
            r == Err::<(), AxError>(AxError::InvalidInput) <==> !(old(self).spec_aspace().valid_range(va.0 as int, size as int)
                && aligned(pa.0 as int) && pa.0 + size <= u64::MAX),
            r == Err::<(), AxError>(AxError::AlreadyExists) <==> old(self).spec_aspace().valid_range(va.0 as int, size as int)
                && aligned(pa.0 as int) && pa.0 + size <= u64::MAX && old(self).spec_aspace().meets_any(
                va.0 as int,
                va.0 + size,
            ),
            r is Err ==> final(self).spec_aspace().mappings() == old(self).spec_aspace().mappings(),
            r is Ok ==> final(self).spec_aspace().mappings().len() == old(self).spec_aspace().mappings().len() + 1,
            r is Ok ==> forall|x: int| #[trigger] final(self).spec_aspace().info(x) == if va.0 <= x < va.0 + size {
                Some(
                    AddrInfo {
                        flags,
                        linear: true,
                        lazy: false,
                        shared: false,
                        target: Some(x - (va.0 - pa.0)),
                    },
                )
            } else {
                old(self).spec_aspace().info(x)
            },
    {
        match &mut self.aspace {
            Some(a) => a.map_linear(va, pa, size, flags),
            None => Err(AxError::BadState),
        }
    }

    /// Maps `[va, va + size)` of the kernel space onto frames from `frames`,
    /// as `AddrSpace::map_alloc` does.
    pub fn map_alloc(
        &mut self,
        va: VirtAddr,
        size: u64,
        flags: MappingFlags,
        populate: bool,
        frames: &mut FrameAllocator,
    ) -> (r: Result<(), AxError>)
        requires
            old(self).wf(),
            old(self).ready(),
            old(frames).wf(),
        ensures
            final(self).wf(),
            final(self).ready(),
            final(frames).wf(),
            final(self).spec_aspace().spec_base() == old(self).spec_aspace().spec_base(),
            final(self).spec_aspace().spec_size() == old(self).spec_aspace().spec_size(),
            final(self).spec_aspace().root() == old(self).spec_aspace().root(),
            r is Ok <==> old(self).spec_aspace().valid_range(va.0 as int, size as int) && !old(self).spec_aspace().meets_any(
                va.0 as int,
                va.0 + size,
            ) && !(populate && old(frames).available() < pages(size as int)),
            r == Err::<(), AxError>(AxError::InvalidInput) <==> !old(self).spec_aspace().valid_range(
                va.0 as int,
                size as int,
            ),
            r == Err::<(), AxError>(AxError::AlreadyExists) <==> old(self).spec_aspace().valid_range(
                va.0 as int,
                size as int,
            ) && old(self).spec_aspace().meets_any(va.0 as int, va.0 + size),
            r == Err::<(), AxError>(AxError::NoMemory) <==> old(self).spec_aspace().valid_range(
                va.0 as int,
                size as int,
            ) && !old(self).spec_aspace().meets_any(va.0 as int, va.0 + size) && populate && old(
                frames,
            ).available() < pages(size as int),
            r is Err ==> final(self).spec_aspace().mappings() == old(self).spec_aspace().mappings() && *final(frames) == *old(
                frames,
            ),
            r is Ok && !populate ==> *final(frames) == *old(frames),
            r is Ok && populate ==> final(frames).available() == old(frames).available() - pages(
                size as int,
            ),
            r is Ok ==> final(self).spec_aspace().mappings().len() == old(self).spec_aspace().mappings().len() + 1,
            r is Ok ==> forall|x: int| #[trigger]
                final(self).spec_aspace().info(x) == if va.0 <= x < va.0 + size {
                    Some(
                        AddrInfo {
                            flags,
                            linear: false,
                            lazy: !populate,
                            shared: false,
                            target: final(self).spec_aspace().translate(x),
                        },
                    )
                } else {
                    old(self).spec_aspace().info(x)
                },
            r is Ok ==> forall|x: int|
                va.0 <= x < va.0 + size ==> (#[trigger] final(self).spec_aspace().translate(x) is Some
                    <==> populate),
            r is Ok && populate ==> forall|x: int|
                va.0 <= x < va.0 + size ==> old(frames).is_free(#[trigger] final(self).spec_aspace().frame_of(x))
                    && !final(frames).is_free(final(self).spec_aspace().frame_of(x)),
            r is Ok && populate ==> forall|x: int, y: int|
                va.0 <= x < va.0 + size && va.0 <= y < va.0 + size && page_of(x) != page_of(y)
                    ==> #[trigger] final(self).spec_aspace().frame_of(x) != #[trigger] final(self).spec_aspace().frame_of(y),
            forall|g: int| #[trigger] final(frames).is_free(g) ==> old(frames).is_free(g),
    {
        match &mut self.aspace {
            Some(a) => a.map_alloc(va, size, flags, populate, frames),
            None => Err(AxError::BadState),
        }
    }

    /// Unmaps `[va, va + size)` of the kernel space, as `AddrSpace::unmap`
    /// does.
    pub fn unmap(&mut self, va: VirtAddr, size: u64, frames: &mut FrameAllocator) -> (r: Result<(), AxError>)
        requires
            old(self).wf(),
            old(self).ready(),
            old(frames).wf(),
        ensures
            final(self).wf(),
            final(self).ready(),
            final(frames).wf(),
            final(self).spec_aspace().spec_base() == old(self).spec_aspace().spec_base(),
            final(self).spec_aspace().spec_size() == old(self).spec_aspace().spec_size(),
            final(self).spec_aspace().root() == old(self).spec_aspace().root(),
            r is Ok <==> size > 0 && aligned(va.0 as int) && aligned(size as int) && va.0 + size
                <= u64::MAX && old(self).spec_aspace().meets_any(va.0 as int, va.0 + size),
            r == Err::<(), AxError>(AxError::InvalidInput) <==> !(size > 0 && aligned(va.0 as int)
                && aligned(size as int) && va.0 + size <= u64::MAX),
            r == Err::<(), AxError>(AxError::NotFound) <==> size > 0 && aligned(va.0 as int)
                && aligned(size as int) && va.0 + size <= u64::MAX && !old(self).spec_aspace().meets_any(
                va.0 as int,
                va.0 + size,
            ),
            r is Err ==> final(self).spec_aspace().mappings() == old(self).spec_aspace().mappings() && *final(frames) == *old(
                frames,
            ),
            r is Ok ==> final(frames).available() >= old(frames).available(),
            forall|f: int| #[trigger] old(frames).is_free(f) ==> final(frames).is_free(f),
            r is Ok ==> forall|x: int|
                va.0 <= x < va.0 + size && (old(self).spec_aspace().info(x) matches Some(i) && !i.linear && !i.shared
                    && i.target is Some) ==> #[trigger] final(frames).is_free(old(self).spec_aspace().frame_of(x)),
            r is Ok ==> forall|x: int| #[trigger]
                final(self).spec_aspace().info(x) == if va.0 <= x < va.0 + size {
                    None
                } else {
                    old(self).spec_aspace().info(x)
                },
    {
        match &mut self.aspace {
            Some(a) => a.unmap(va, size, frames),
            None => Err(AxError::BadState),
        }
    }

    /// Serves a fault at `va` of the kernel space, as
    /// `AddrSpace::handle_page_fault` does.
    pub fn handle_page_fault(&mut self, va: VirtAddr, access: MappingFlags, frames: &mut FrameAllocator) -> (r: bool)
        requires
            old(self).wf(),
            old(self).ready(),
            old(frames).wf(),
        ensures
            final(self).wf(),
            final(self).ready(),
            final(frames).wf(),
            final(self).spec_aspace().spec_base() == old(self).spec_aspace().spec_base(),
            final(self).spec_aspace().spec_size() == old(self).spec_aspace().spec_size(),
            final(self).spec_aspace().root() == old(self).spec_aspace().root(),
            r <==> (old(self).spec_aspace().info(va.0 as int) matches Some(i) && i.lazy && !i.shared
                && i.flags.spec_contains(access) && i.target is None && old(frames).available() > 0),
            !r ==> final(self).spec_aspace().mappings() == old(self).spec_aspace().mappings() && *final(frames) == *old(frames),
            r ==> final(frames).available() == old(frames).available() - 1,
            r ==> final(self).spec_aspace().translate(page_of(va.0 as int)) is Some,
            r ==> old(frames).is_free(final(self).spec_aspace().translate(page_of(va.0 as int)).unwrap()),
            r ==> forall|f: int| #[trigger] final(frames).is_free(f) <==> old(frames).is_free(f) && f
                != final(self).spec_aspace().translate(page_of(va.0 as int)).unwrap(),
            r ==> forall|x: int| #[trigger]
                final(self).spec_aspace().info(x) == if page_of(x) == page_of(va.0 as int) {
                    Some(
                        AddrInfo {
                            target: final(self).spec_aspace().translate(x),
                            ..old(self).spec_aspace().info(x).unwrap()
                        },
                    )
                } else {
                    old(self).spec_aspace().info(x)
                },
            r ==> forall|x: int|
                page_of(x) == page_of(va.0 as int) ==> #[trigger] final(self).spec_aspace().translate(x)
                    == Some(final(self).spec_aspace().translate(page_of(x)).unwrap() + (x - page_of(x))),
    {
        match &mut self.aspace {
            Some(a) => a.handle_page_fault(va, access, frames),
            None => false,
        }
    }

    /// A new user address space sharing the kernel's mappings. The kernel's
    /// page-table root must not be free in `frames`.
    pub fn new_user_aspace(&self, frames: &mut FrameAllocator) -> (r: Result<AddrSpace, AxError>)
        requires
            self.wf(),
            self.ready(),
            old(frames).wf(),
            !old(frames).is_free(self.spec_aspace().root()),
        ensures
            final(frames).wf(),
            r is Err <==> old(frames).available() == 0,
            r matches Ok(a) ==> {
                &&& a.wf()
                &&& a.spec_base() == USER_ASPACE_BASE
                &&& a.spec_size() == USER_ASPACE_SIZE
                &&& a.root() != self.spec_aspace().root()
                &&& a.mappings().len() == self.spec_aspace().mappings().len()
                &&& forall|x: int| #[trigger] a.info(x) == shared_of(self.spec_aspace().info(x))
                &&& final(frames).available() == old(frames).available() - 1
                &&& forall|f: int| #[trigger] final(frames).is_free(f) <==> old(frames).is_free(f)
                    && f != a.root()
            },
    {
        new_user_aspace(self.aspace.as_ref().unwrap(), frames)
    }
}

} // verus!
