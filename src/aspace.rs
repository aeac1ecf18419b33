//! Address spaces: a page-table root and an ordered set of non-overlapping
//! mappings, each realised by a backend.

use vstd::prelude::*;
use crate::addr::{aligned, PhysAddr, VirtAddr, PAGE_SIZE_4K};
use crate::error::{mapping_err_to_ax_err, AxError, MappingError};
use crate::frame::FrameAllocator;

verus! {

/// Access permissions and memory attributes of a mapping, as bits.
#[derive(Clone, Copy, Debug, PartialEq, Eq, Structural)]
pub struct MappingFlags(pub u64);

impl MappingFlags {
    /// Readable.
    pub const READ: u64 = 0x1;
    /// Writable.
    pub const WRITE: u64 = 0x2;
    /// Executable.
    pub const EXECUTE: u64 = 0x4;
    /// Accessible from user mode.
    pub const USER: u64 = 0x8;
    /// Device memory.
    pub const DEVICE: u64 = 0x10;
    /// Uncached memory.
    pub const UNCACHED: u64 = 0x20;

    /// Whether every bit of `other` is set in `self`.
    pub open spec fn spec_contains(self, other: MappingFlags) -> bool {
        self.0 & other.0 == other.0
    }

    /// Whether every bit of `other` is set in `self`.
    pub fn contains(self, other: MappingFlags) -> (r: bool)
        ensures
            r == self.spec_contains(other),
    {
        self.0 & other.0 == other.0
    }
}

/// How a mapping obtains physical memory.
#[derive(Clone, Copy, Debug, PartialEq, Eq, Structural)]
pub enum Backend {
    /// A fixed offset: the mapping's first page is backed by the frame at
    /// `pa_start`, and each later page by the frame as far beyond it.
    Linear { pa_start: u64 },
    /// Frames taken one by one from a frame allocator, at creation time
    /// (`populate`) or on the first fault in each page.
    Alloc { populate: bool },
}

/// One contiguous virtual range `[start, end)` of an address space.
pub struct Mapping {
    /// First address of the range.
    pub start: u64,
    /// First address past the range.
    pub end: u64,
    /// Permissions of the range.
    pub flags: MappingFlags,
    /// How the range is backed.
    pub backend: Backend,
    /// Copied from another address space, whose frames it shares.
    pub shared: bool,
    /// For an `Alloc` backend, the frame of each page in order, `0` where the
    /// page has no frame yet; empty for a `Linear` backend.
    pub frames: Vec<u64>,
}

/// What an address space says of one virtual address that a mapping covers.
pub struct AddrInfo {
    /// Permissions of the covering mapping.
    pub flags: MappingFlags,
    /// Backed at a fixed offset.
    pub linear: bool,
    /// Backed by frames taken on the first fault.
    pub lazy: bool,
    /// Copied from another address space.
    pub shared: bool,
    /// The physical address it translates to, if a frame backs it.
    pub target: Option<int>,
}

/// Number of pages in `len` bytes.
pub open spec fn pages(len: int) -> int {
    len / (PAGE_SIZE_4K as int)
}

impl Mapping {
    /// Whether the mapping covers `x`.
    pub open spec fn covers(&self, x: int) -> bool {
        self.start <= x < self.end
    }

    /// Whether the mapping meets `[s, e)`.
    pub open spec fn meets(&self, s: int, e: int) -> bool {
        self.start < e && s < self.end
    }

    /// A non-empty page-aligned range with one frame slot per page.
    pub open spec fn wf(&self) -> bool {
        &&& self.start < self.end
        &&& aligned(self.start as int)
        &&& aligned(self.end as int)
        &&& match self.backend {
            Backend::Linear { pa_start } => {
                &&& aligned(pa_start as int)
                &&& pa_start + (self.end - self.start) <= u64::MAX
                &&& self.frames@.len() == 0
            },
            Backend::Alloc { .. } => {
                &&& self.frames@.len() == pages(self.end - self.start)
                &&& forall|i: int|
                    0 <= i < self.frames@.len() ==> aligned(#[trigger] self.frames@[i] as int)
            },
        }
    }

    /// The frame slot of the page holding `x`.
    pub open spec fn slot(&self, x: int) -> int {
        pages(x - self.start)
    }

    /// What the mapping says of `x`, which it covers.
    pub open spec fn info(&self, x: int) -> AddrInfo {
        AddrInfo {
            flags: self.flags,
            linear: self.backend is Linear,
            lazy: self.backend == (Backend::Alloc { populate: false }),
            shared: self.shared,
            target: match self.backend {
                Backend::Linear { pa_start } => Some(pa_start + (x - self.start)),
                Backend::Alloc { .. } => {
                    let f = self.frames@[self.slot(x)];
                    if f == 0 {
                        None
                    } else {
                        Some(f + (x - self.start) % (PAGE_SIZE_4K as int))
                    }
                },
            },
        }
    }
}

/// The slot of an address of a page-aligned range lies within the range's
/// slots.
pub proof fn lemma_slot_in(start: int, end: int, x: int)
    requires
        start <= x < end,
        aligned(start),
        aligned(end),
    ensures
        0 <= pages(x - start) < pages(end - start),
        pages(x - start) * (PAGE_SIZE_4K as int) + (x - start) % (PAGE_SIZE_4K as int) == x - start,
{
    let a = x - start;
    let b = end - start;
    assert(b % 4096 == 0);
    assert(a / 4096 < b / 4096) by (nonlinear_arith)
        requires
            0 <= a < b,
            b % 4096 == 0,
    ;
    assert(a / 4096 * 4096 + a % 4096 == a) by (nonlinear_arith)
        requires
            0 <= a,
    ;
}

/// The first address of the page holding `x`.
pub open spec fn page_of(x: int) -> int {
    x - x % (PAGE_SIZE_4K as int)
}

/// `page_of` rounds down to a page boundary, less than a page below.
pub proof fn lemma_page_of(x: int)
    ensures
        aligned(page_of(x)),
        x >= 0 ==> 0 <= page_of(x) <= x < page_of(x) + PAGE_SIZE_4K,
        x >= 0 ==> page_of(page_of(x)) == page_of(x),
{
}

/// An address in the same page as an address of a page-aligned range lies in
/// the range too.
pub proof fn lemma_page_in(start: int, end: int, x: int, y: int)
    requires
        start <= x < end,
        aligned(start),
        aligned(end),
        y >= 0,
        page_of(x) == page_of(y),
    ensures
        start <= y < end,
{
    lemma_page_of(x);
    lemma_page_of(y);
}

/// Two addresses of one page have the same slot in a page-aligned range, and
/// the same offset in their page.
pub proof fn lemma_same_slot(start: int, x: int, y: int)
    requires
        0 <= start <= x,
        start <= y,
        aligned(start),
    ensures
        page_of(x) == page_of(y) <==> pages(x - start) == pages(y - start),
        (x - start) % (PAGE_SIZE_4K as int) == x - page_of(x),
{
    let a = x - start;
    let b = y - start;
    let q = start / 4096;
    assert(start == q * 4096);
    assert(a % 4096 == x % 4096 && b % 4096 == y % 4096) by {
        assert((a + q * 4096) % 4096 == a % 4096) by (nonlinear_arith)
            requires
                a >= 0,
                q >= 0,
        ;
        assert((b + q * 4096) % 4096 == b % 4096) by (nonlinear_arith)
            requires
                b >= 0,
                q >= 0,
        ;
    }
    assert(a / 4096 * 4096 + a % 4096 == a) by (nonlinear_arith)
        requires
            0 <= a,
    ;
    assert(b / 4096 * 4096 + b % 4096 == b) by (nonlinear_arith)
        requires
            0 <= b,
    ;
    if a / 4096 == b / 4096 {
    } else {
        if a / 4096 < b / 4096 {
            assert(a / 4096 * 4096 + 4096 <= b / 4096 * 4096) by (nonlinear_arith)
                requires
                    a / 4096 < b / 4096,
            ;
        } else {
            assert(b / 4096 * 4096 + 4096 <= a / 4096 * 4096) by (nonlinear_arith)
                requires
                    b / 4096 < a / 4096,
            ;
        }
    }
}

/// Filling the frame slot of the page holding `va` changes what the mapping
/// says of that page alone: its addresses now translate into frame `f`.
pub proof fn lemma_fill_slot(m0: Mapping, m: Mapping, slot: int, f: u64, va: int)
    requires
        m0.wf(),
        m0.backend is Alloc,
        m0.covers(va),
        slot == pages(va - m0.start),
        aligned(f as int),
        f != 0,
        m.start == m0.start && m.end == m0.end && m.flags == m0.flags && m.backend == m0.backend
            && m.shared == m0.shared,
        m.frames@ == m0.frames@.update(slot, f),
    ensures
        m.wf(),
        forall|x: int| #[trigger]
            m.covers(x) ==> m.info(x) == if page_of(x) == page_of(va) {
                AddrInfo { target: Some(f + (x - page_of(x))), ..m0.info(x) }
            } else {
                m0.info(x)
            },
{
    lemma_slot_in(m0.start as int, m0.end as int, va);
    assert forall|j: int| 0 <= j < m.frames@.len() implies aligned(#[trigger] m.frames@[j] as int) by {
        if j != slot {
            assert(m.frames@[j] == m0.frames@[j]);
            assert(m0.wf());
            assert(aligned(m0.frames@[j] as int));
        }
    }
    assert forall|x: int| #[trigger] m.covers(x) implies m.info(x) == if page_of(x) == page_of(va) {
        AddrInfo { target: Some(f + (x - page_of(x))), ..m0.info(x) }
    } else {
        m0.info(x)
    } by {
        lemma_slot_in(m0.start as int, m0.end as int, x);
        lemma_same_slot(m0.start as int, x, va);
        if page_of(x) == page_of(va) {
            assert(m.frames@[m.slot(x)] == f);
        } else {
            assert(m.frames@[m.slot(x)] == m0.frames@[m0.slot(x)]);
        }
    }
}

/// Shifting an offset by whole pages shifts its slot by as many and keeps
/// its offset in the page.
pub proof fn lemma_shift_pages(a: int, d: int)
    requires
        a >= 0,
        d >= 0,
        aligned(d),
    ensures
        pages(a + d) == pages(a) + pages(d),
        (a + d) % (PAGE_SIZE_4K as int) == a % (PAGE_SIZE_4K as int),
{
    let q = d / 4096;
    assert(d == q * 4096);
    assert((a + q * 4096) / 4096 == a / 4096 + q && (a + q * 4096) % 4096 == a % 4096) by (nonlinear_arith)
        requires
            a >= 0,
            q >= 0,
    ;
}

/// The part `[s, e)` of `m`, which says of each address what `m` says.
fn sub_mapping(m: &Mapping, s: u64, e: u64) -> (r: Mapping)
    requires
        m.wf(),
        m.start <= s < e <= m.end,
        aligned(s as int),
        aligned(e as int),
    ensures
        r.wf(),
        r.start == s,
        r.end == e,
        r.shared == m.shared,
        forall|x: int| r.covers(x) ==> #[trigger] r.info(x) == m.info(x),
{
    match m.backend {
        Backend::Linear { pa_start } => {
            let r = Mapping {
                start: s,
                end: e,
                flags: m.flags,
                backend: Backend::Linear { pa_start: pa_start + (s - m.start) },
                shared: m.shared,
                frames: Vec::new(),
            };
            r
        },
        Backend::Alloc { populate } => {
            let len = m.frames.len();
            let from64 = (s - m.start) / PAGE_SIZE_4K;
            let to64 = (e - m.start) / PAGE_SIZE_4K;
            proof {
                lemma_shift_pages((e - s) as int, (s - m.start) as int);
                lemma_shift_pages(0, (s - m.start) as int);
                lemma_slot_in(m.start as int, m.end as int, (e - 1) as int);
                lemma_shift_pages(((e - 1) - s) as int, (s - m.start) as int);
                assert(pages((e - 1 - s) as int) < pages((e - s) as int)) by {
                    lemma_slot_in(s as int, e as int, (e - 1) as int);
                }
                assert(to64 <= m.frames@.len()) by {
                    if e < m.end {
                        lemma_slot_in(m.start as int, m.end as int, e as int);
                    }
                }
            }
            let from = from64 as usize;
            let to = to64 as usize;
            let mut fs: Vec<u64> = Vec::new();
            let mut k: usize = from;
            while k < to
                invariant
                    m.wf(),
                    from <= k <= to <= m.frames@.len(),
                    fs@ == m.frames@.subrange(from as int, k as int),
                decreases to - k,
            {
                fs.push(m.frames[k]);
                k = k + 1;
            }
            let r = Mapping {
                start: s,
                end: e,
                flags: m.flags,
                backend: Backend::Alloc { populate },
                shared: m.shared,
                frames: fs,
            };
            proof {
                assert forall|i: int| 0 <= i < r.frames@.len() implies aligned(
                    #[trigger] r.frames@[i] as int,
                ) by {
                    assert(r.frames@[i] == m.frames@[from + i]);
                }
                assert forall|x: int| r.covers(x) implies #[trigger] r.info(x) == m.info(x) by {
                    lemma_shift_pages(x - s, (s - m.start) as int);
                    lemma_slot_in(s as int, e as int, x);
                }
            }
            r
        },
    }
}

/// Every frame that `m` took for a page in `[s, e)` is free in `fa`, unless
/// `m` shares its frames with another space.
pub open spec fn released(m: Mapping, s: int, e: int, fa: FrameAllocator) -> bool {
    !m.shared && m.backend is Alloc ==> forall|x: int|
        m.covers(x) && s <= x < e && m.frames@[m.slot(x)] != 0 ==> #[trigger] fa.is_free(
            m.frames@[m.slot(x)] as int,
        )
}

/// What is released stays released while frames are only given back.
proof fn lemma_released_grows(m: Mapping, s: int, e: int, fa1: FrameAllocator, fa2: FrameAllocator)
    requires
        released(m, s, e, fa1),
        forall|f: int| #[trigger] fa1.is_free(f) ==> fa2.is_free(f),
    ensures
        released(m, s, e, fa2),
{
    if !m.shared && m.backend is Alloc {
        assert forall|x: int|
            m.covers(x) && s <= x < e && m.frames@[m.slot(x)] != 0 implies #[trigger] fa2.is_free(
            m.frames@[m.slot(x)] as int,
        ) by {
            assert(fa1.is_free(m.frames@[m.slot(x)] as int));
        }
    }
}

/// Gives back to `frames` the frames that `m` took for its pages in `[s, e)`,
/// unless `m` shares them with another space.
fn release_frames(m: &Mapping, s: u64, e: u64, frames: &mut FrameAllocator)
    requires
        m.wf(),
        old(frames).wf(),
    ensures
        final(frames).wf(),
        final(frames).available() >= old(frames).available(),
        forall|f: int| #[trigger] old(frames).is_free(f) ==> final(frames).is_free(f),
        m.start <= s && e <= m.end && aligned(s as int) && aligned(e as int) ==> released(
            *m,
            s as int,
            e as int,
            *final(frames),
        ),
{
    if m.shared || matches!(m.backend, Backend::Linear { .. }) || s >= e || s < m.start || e > m.end {
        return;
    }
    let len = m.frames.len();
    let from64 = (s - m.start) / PAGE_SIZE_4K;
    let to64 = (e - m.start) / PAGE_SIZE_4K;
    proof {
        lemma_slot_in(m.start as int, m.end as int, s as int);
        assert(to64 <= len) by {
            if e < m.end {
                lemma_slot_in(m.start as int, m.end as int, e as int);
            }
        }
    }
    let from: usize = from64 as usize;
    let to: usize = to64 as usize;
    let mut k: usize = from;
    while k < to
        invariant
            m.wf(),
            m.backend is Alloc,
            from <= k <= to <= m.frames@.len(),
            frames.wf(),
            frames.available() >= old(frames).available(),
            forall|f: int| #[trigger] old(frames).is_free(f) ==> frames.is_free(f),
            forall|j: int|
                from <= j < k && m.frames@[j] != 0 ==> #[trigger] frames.is_free(m.frames@[j] as int),
        decreases to - k,
    {
        let f = m.frames[k];
        if f != 0 {
            proof {
                assert(aligned(m.frames@[k as int] as int));
            }
            frames.dealloc_frame(f);
        }
        k = k + 1;
    }
    proof {
        if aligned(s as int) && aligned(e as int) {
            assert forall|x: int|
                m.covers(x) && s <= x < e && m.frames@[m.slot(x)] != 0 implies #[trigger] frames.is_free(
                m.frames@[m.slot(x)] as int,
            ) by {
                lemma_slot_in(m.start as int, e as int, x);
                let a = s - m.start;
                let b = x - m.start;
                assert(a / 4096 <= b / 4096) by (nonlinear_arith)
                    requires
                        0 <= a <= b,
                ;
            }
        }
    }
}

/// After the run `[lo, hi)` of mappings that meet `[s, e)` was removed and
/// the parts of its two ends outside `[s, e)` put back, the set says nothing of
/// `[s, e)` and what it said before of every other address.
proof fn lemma_unmap_result(
    ms: Seq<Mapping>,
    ms_mid: Seq<Mapping>,
    ms_r: Seq<Mapping>,
    msf: Seq<Mapping>,
    lo: int,
    hi: int,
    s: int,
    e: int,
    left: Option<Mapping>,
    right: Option<Mapping>,
)
    requires
        sorted_disjoint(ms),
        forall|k: int| 0 <= k < ms.len() ==> #[trigger] ms[k].start < ms[k].end,
        0 <= lo < hi <= ms.len(),
        forall|j: int| lo <= j < hi ==> #[trigger] ms[j].meets(s, e),
        forall|j: int| 0 <= j < lo ==> #[trigger] ms[j].end <= s,
        forall|j: int| hi <= j < ms.len() ==> #[trigger] ms[j].start >= e,
        forall|x: int| #[trigger] info_in(ms_mid, x) == if exists|j: int|
            lo <= j < hi && #[trigger] ms[j].covers(x) {
            None
        } else {
            info_in(ms, x)
        },
        forall|x: int| #[trigger] info_in(ms_r, x) == if right is Some && right.unwrap().covers(x) {
            Some(right.unwrap().info(x))
        } else {
            info_in(ms_mid, x)
        },
        forall|x: int| #[trigger] info_in(msf, x) == if left is Some && left.unwrap().covers(x) {
            Some(left.unwrap().info(x))
        } else {
            info_in(ms_r, x)
        },
        left is Some <==> ms[lo].start < s,
        left matches Some(l) ==> l.start == ms[lo].start && l.end == s && forall|x: int|
            l.covers(x) ==> #[trigger] l.info(x) == ms[lo].info(x),
        right is Some <==> ms[hi - 1].end > e,
        right matches Some(q) ==> q.start == e && q.end == ms[hi - 1].end && forall|x: int|
            q.covers(x) ==> #[trigger] q.info(x) == ms[hi - 1].info(x),
    ensures
        forall|x: int| #[trigger] info_in(msf, x) == if s <= x < e {
            None
        } else {
            info_in(ms, x)
        },
{
    assert forall|x: int| #[trigger] info_in(msf, x) == if s <= x < e {
        None
    } else {
        info_in(ms, x)
    } by {
        assert(info_in(ms_r, x) == info_in(ms_r, x));
        assert(info_in(ms_mid, x) == info_in(ms_mid, x));
        let in_run = exists|j: int| lo <= j < hi && #[trigger] ms[j].covers(x);
        if s <= x < e {
            if exists|k: int| 0 <= k < ms.len() && #[trigger] ms[k].covers(x) {
                let k = choose|k: int| 0 <= k < ms.len() && #[trigger] ms[k].covers(x);
                assert(lo <= k < hi);
                assert(in_run);
            }
            assert(info_in(ms_mid, x) is None);
            assert(left is Some ==> !left.unwrap().covers(x));
            assert(right is Some ==> !right.unwrap().covers(x));
            assert(info_in(ms_r, x) is None);
            assert(info_in(msf, x) is None);
        } else if in_run {
            let j = choose|j: int| lo <= j < hi && #[trigger] ms[j].covers(x);
            lemma_info_at(ms, j, x);
            if x < s {
                if j > lo {
                    assert(ms[lo].end <= ms[j].start);
                    assert(ms[lo].meets(s, e));
                }
                assert(left is Some);
                assert(left.unwrap().covers(x));
                assert(info_in(msf, x) == Some(ms[lo].info(x)));
                assert(j == lo);
            } else {
                if j < hi - 1 {
                    assert(ms[j].end <= ms[hi - 1].start);
                    assert(ms[hi - 1].meets(s, e));
                }
                assert(right is Some);
                assert(right.unwrap().covers(x));
                assert(left is Some ==> !left.unwrap().covers(x));
                assert(info_in(ms_r, x) == Some(ms[hi - 1].info(x)));
                assert(j == hi - 1);
            }
        } else {
            assert(ms[lo].meets(s, e));
            assert(ms[hi - 1].meets(s, e));
            if left is Some {
                assert(!ms[lo].covers(x));
                assert(!left.unwrap().covers(x));
            }
            if right is Some {
                assert(!ms[hi - 1].covers(x));
                assert(!right.unwrap().covers(x));
            }
            assert(info_in(ms_mid, x) == info_in(ms, x));
            assert(info_in(ms_r, x) == info_in(ms, x));
            assert(info_in(msf, x) == info_in(ms, x));
        }
    }
}

/// What a space that shares a mapping copied from another says of an address
/// that the other says `i` of.
pub open spec fn shared_of(i: Option<AddrInfo>) -> Option<AddrInfo> {
    match i {
        Some(a) => Some(AddrInfo { shared: true, ..a }),
        None => None,
    }
}

/// A copy of `m` marked as shared, on the same frames.
fn copy_shared(m: &Mapping) -> (r: Mapping)
    requires
        m.wf(),
    ensures
        r.wf(),
        r.start == m.start,
        r.end == m.end,
        r.shared,
        forall|x: int| r.covers(x) ==> #[trigger] r.info(x) == (AddrInfo { shared: true, ..m.info(x) }),
{
    let mut fs: Vec<u64> = Vec::new();
    let mut k: usize = 0;
    while k < m.frames.len()
        invariant
            k <= m.frames@.len(),
            fs@ == m.frames@.subrange(0, k as int),
        decreases m.frames@.len() - k,
    {
        fs.push(m.frames[k]);
        k = k + 1;
    }
    proof {
        assert(fs@ =~= m.frames@);
    }
    Mapping { start: m.start, end: m.end, flags: m.flags, backend: m.backend, shared: true, frames: fs }
}

/// Mappings sorted by start, pairwise disjoint.
pub open spec fn sorted_disjoint(ms: Seq<Mapping>) -> bool {
    forall|i: int, j: int| 0 <= i < j < ms.len() ==> #[trigger] ms[i].end <= #[trigger] ms[j].start
}

/// What the mapping set `ms` says of `x`.
pub open spec fn info_in(ms: Seq<Mapping>, x: int) -> Option<AddrInfo> {
    if exists|i: int| 0 <= i < ms.len() && #[trigger] ms[i].covers(x) {
        let i = choose|i: int| 0 <= i < ms.len() && #[trigger] ms[i].covers(x);
        Some(ms[i].info(x))
    } else {
        None
    }
}

/// In a sorted disjoint set, the mapping that covers `x` is the one that
/// speaks of it.
pub proof fn lemma_info_at(ms: Seq<Mapping>, i: int, x: int)
    requires
        sorted_disjoint(ms),
        forall|k: int| 0 <= k < ms.len() ==> #[trigger] ms[k].start < ms[k].end,
        0 <= i < ms.len(),
        ms[i].covers(x),
    ensures
        info_in(ms, x) == Some(ms[i].info(x)),
{
    let j = choose|j: int| 0 <= j < ms.len() && #[trigger] ms[j].covers(x);
    if j < i {
        assert(ms[j].end <= ms[i].start);
    } else if i < j {
        assert(ms[i].end <= ms[j].start);
    }
}

/// Owns one page table and the set of mappings installed in it.
pub struct AddrSpace {
    base: u64,
    size: u64,
    root: u64,
    areas: Vec<Mapping>,
}

impl AddrSpace {
    /// First address of the window that the space's own mappings lie in.
    pub closed spec fn spec_base(&self) -> int {
        self.base as int
    }

    /// Size of that window.
    pub closed spec fn spec_size(&self) -> int {
        self.size as int
    }

    /// Physical address of the page-table root.
    pub closed spec fn root(&self) -> int {
        self.root as int
    }

    /// The mappings, sorted by start.
    pub closed spec fn mappings(&self) -> Seq<Mapping> {
        self.areas@
    }

    /// Well-formed: a non-empty window that fits the address width, a page-aligned
    /// non-zero root, and well-formed, sorted, pairwise disjoint mappings, each
    /// inside the window unless it was copied from another space.
    pub open spec fn wf(&self) -> bool {
        &&& 0 < self.spec_size()
        &&& self.spec_base() + self.spec_size() <= u64::MAX
        &&& self.root() != 0
        &&& aligned(self.root())
        &&& forall|i: int| 0 <= i < self.mappings().len() ==> #[trigger] self.mappings()[i].wf()
        &&& forall|i: int|
            0 <= i < self.mappings().len() && !#[trigger] self.mappings()[i].shared ==> self.spec_base()
                <= self.mappings()[i].start && self.mappings()[i].end <= self.spec_base()
                + self.spec_size()
        &&& sorted_disjoint(self.mappings())
    }

    /// What the space says of the virtual address `x`.
    pub open spec fn info(&self, x: int) -> Option<AddrInfo> {
        info_in(self.mappings(), x)
    }

    /// The physical address that `x` translates to, if any.
    pub open spec fn translate(&self, x: int) -> Option<int> {
        match self.info(x) {
            Some(i) => i.target,
            None => None,
        }
    }

    /// The frame that backs the page holding `x`, where `x` translates.
    pub open spec fn frame_of(&self, x: int) -> int {
        self.translate(x).unwrap() - (x - page_of(x))
    }

    /// Whether some mapping covers `x`.
    pub open spec fn covered(&self, x: int) -> bool {
        self.info(x).is_some()
    }

    /// Whether some mapping meets `[s, e)`.
    pub open spec fn meets_any(&self, s: int, e: int) -> bool {
        exists|i: int| 0 <= i < self.mappings().len() && #[trigger] self.mappings()[i].meets(s, e)
    }

    /// Whether `[va, va + size)` is a non-empty page-aligned range inside the
    /// window.
    pub open spec fn valid_range(&self, va: int, size: int) -> bool {
        &&& size > 0
        &&& aligned(va)
        &&& aligned(size)
        &&& self.spec_base() <= va
        &&& va + size <= self.spec_base() + self.spec_size()
    }

    proof fn lemma_starts_below(&self)
        requires
            self.wf(),
        ensures
            forall|k: int|
                0 <= k < self.mappings().len() ==> #[trigger] self.mappings()[k].start
                    < self.mappings()[k].end,
    {
        assert forall|k: int| 0 <= k < self.mappings().len() implies #[trigger] self.mappings()[k].start
            < self.mappings()[k].end by {
            assert(self.mappings()[k].wf());
        }
    }

    /// Number of mappings whose start is at most `x`.
    fn count_starting_at_or_below(&self, x: u64) -> (k: usize)
        requires
            self.wf(),
        ensures
            k <= self.mappings().len(),
            forall|j: int| 0 <= j < k ==> #[trigger] self.mappings()[j].start <= x,
            forall|j: int| k <= j < self.mappings().len() ==> #[trigger] self.mappings()[j].start > x,
    {
        proof {
            self.lemma_starts_below();
        }
        let mut lo: usize = 0;
        let mut hi: usize = self.areas.len();
        while lo < hi
            invariant
                self.wf(),
                forall|k: int|
                    0 <= k < self.mappings().len() ==> #[trigger] self.mappings()[k].start
                        < self.mappings()[k].end,
                lo <= hi <= self.mappings().len(),
                forall|j: int| 0 <= j < lo ==> #[trigger] self.mappings()[j].start <= x,
                forall|j: int| hi <= j < self.mappings().len() ==> #[trigger] self.mappings()[j].start > x,
            decreases hi - lo,
        {
            let mid = lo + (hi - lo) / 2;
            if self.areas[mid].start <= x {
                proof {
                    assert forall|j: int| 0 <= j < mid + 1 implies #[trigger] self.mappings()[j].start
                        <= x by {
                        if j < mid {
                            assert(self.mappings()[j].end <= self.mappings()[mid as int].start);
                        }
                    }
                }
                lo = mid + 1;
            } else {
                proof {
                    assert forall|j: int| mid <= j < self.mappings().len() implies #[trigger] self.mappings()[j].start
                        > x by {
                        if j > mid {
                            assert(self.mappings()[mid as int].end <= self.mappings()[j].start);
                        }
                    }
                }
                hi = mid;
            }
        }
        lo
    }

    /// Where a mapping of `[va, e)` would be inserted, or the failure if it
    /// meets an existing one.
    fn insert_position(&self, va: u64, e: u64) -> (r: Result<usize, MappingError>)
        requires
            self.wf(),
            va < e,
        ensures
            r is Err <==> self.meets_any(va as int, e as int),
            r is Err ==> r == Err::<usize, MappingError>(MappingError::AlreadyExists),
            r matches Ok(k) ==> k <= self.mappings().len() && (forall|j: int|
                0 <= j < k ==> #[trigger] self.mappings()[j].end <= va) && (forall|j: int|
                k <= j < self.mappings().len() ==> e <= #[trigger] self.mappings()[j].start),
    {
        proof {
            self.lemma_starts_below();
        }
        let k = self.count_starting_at_or_below(va);
        if k > 0 && self.areas[k - 1].end > va {
            proof {
                assert(self.mappings()[k - 1].meets(va as int, e as int));
            }
            return Err(MappingError::AlreadyExists);
        }
        if k < self.areas.len() && self.areas[k].start < e {
            proof {
                assert(self.mappings()[k as int].meets(va as int, e as int));
            }
            return Err(MappingError::AlreadyExists);
        }
        proof {
            assert forall|j: int| 0 <= j < k implies #[trigger] self.mappings()[j].end <= va by {
                if j < k - 1 {
                    assert(self.mappings()[j].end <= self.mappings()[k - 1].start);
                }
            }
            assert forall|j: int| k <= j < self.mappings().len() implies e
                <= #[trigger] self.mappings()[j].start by {
                if j > k {
                    assert(self.mappings()[k as int].end <= self.mappings()[j].start);
                }
            }
            assert forall|j: int| 0 <= j < self.mappings().len() implies !#[trigger] self.mappings()[j].meets(
                va as int,
                e as int,
            ) by {
                if j < k {
                } else {
                }
            }
        }
        Ok(k)
    }

    /// Inserts `m` at `k`, between the mappings that end at or before it and
    /// those that start at or after it.
    proof fn lemma_insert(&self, k: int, m: Mapping, ms2: Seq<Mapping>)
        requires
            self.wf(),
            m.wf(),
            0 <= k <= self.mappings().len(),
            forall|j: int| 0 <= j < k ==> #[trigger] self.mappings()[j].end <= m.start,
            forall|j: int| k <= j < self.mappings().len() ==> m.end <= #[trigger] self.mappings()[j].start,
            ms2 == self.mappings().insert(k, m),
        ensures
            sorted_disjoint(ms2),
            forall|i: int| 0 <= i < ms2.len() ==> #[trigger] ms2[i].wf(),
            forall|x: int| #[trigger] info_in(ms2, x) == if m.covers(x) {
                Some(m.info(x))
            } else {
                info_in(self.mappings(), x)
            },
    {
        let ms = self.mappings();
        self.lemma_starts_below();
        assert forall|i: int| 0 <= i < ms2.len() implies #[trigger] ms2[i].wf() by {
            if i < k {
                assert(ms2[i] == ms[i]);
            } else if i > k {
                assert(ms2[i] == ms[i - 1]);
            }
        }
        assert forall|i: int, j: int| 0 <= i < j < ms2.len() implies #[trigger] ms2[i].end
            <= #[trigger] ms2[j].start by {
            if j < k {
                assert(ms2[i] == ms[i] && ms2[j] == ms[j]);
            } else if j == k {
                assert(ms2[i] == ms[i]);
            } else if i < k {
                assert(ms2[i] == ms[i] && ms2[j] == ms[j - 1]);
                assert(ms[i].end <= m.start);
                assert(m.end <= ms[j - 1].start);
            } else if i == k {
                assert(ms2[j] == ms[j - 1]);
            } else {
                assert(ms2[i] == ms[i - 1] && ms2[j] == ms[j - 1]);
            }
        }
        assert forall|i: int| 0 <= i < ms2.len() implies #[trigger] ms2[i].start < ms2[i].end by {
            assert(ms2[i].wf());
        }
        assert forall|x: int| #[trigger] info_in(ms2, x) == if m.covers(x) {
            Some(m.info(x))
        } else {
            info_in(ms, x)
        } by {
            if m.covers(x) {
                assert(ms2[k] == m);
                lemma_info_at(ms2, k, x);
            } else if exists|i: int| 0 <= i < ms.len() && #[trigger] ms[i].covers(x) {
                let i = choose|i: int| 0 <= i < ms.len() && #[trigger] ms[i].covers(x);
                lemma_info_at(ms, i, x);
                if i < k {
                    assert(ms2[i] == ms[i]);
                    lemma_info_at(ms2, i, x);
                } else {
                    assert(ms2[i + 1] == ms[i]);
                    lemma_info_at(ms2, i + 1, x);
                }
            } else {
                assert forall|i: int| 0 <= i < ms2.len() implies !#[trigger] ms2[i].covers(x) by {
                    if i < k {
                        assert(ms2[i] == ms[i]);
                    } else if i > k {
                        assert(ms2[i] == ms[i - 1]);
                    }
                }
            }
        }
    }

    /// Maps `[va, va + size)` at a fixed offset onto `[pa, pa + size)`.
    ///
    /// Fails with `InvalidInput` where the range is empty, not page-aligned or
    /// outside the window, or `pa` is not page-aligned or the physical range
    /// leaves the address width; else with `AlreadyExists` where the range
    /// meets an existing mapping. A failure changes nothing.
    pub fn map_linear(&mut self, va: VirtAddr, pa: PhysAddr, size: u64, flags: MappingFlags) -> (r:
        Result<(), AxError>)
        requires
            old(self).wf(),
        ensures
            final(self).wf(),
            final(self).spec_base() == old(self).spec_base(),
            final(self).spec_size() == old(self).spec_size(),
            final(self).root() == old(self).root(),
            r is Ok <==> old(self).valid_range(va.0 as int, size as int) && aligned(pa.0 as int)
                && pa.0 + size <= u64::MAX && !old(self).meets_any(va.0 as int, va.0 + size),
            r == Err::<(), AxError>(AxError::InvalidInput) <==> !(old(self).valid_range(va.0 as int, size as int)
                && aligned(pa.0 as int) && pa.0 + size <= u64::MAX),
            r == Err::<(), AxError>(AxError::AlreadyExists) <==> old(self).valid_range(va.0 as int, size as int)
                && aligned(pa.0 as int) && pa.0 + size <= u64::MAX && old(self).meets_any(
                va.0 as int,
                va.0 + size,
            ),
            r is Err ==> final(self).mappings() == old(self).mappings(),
            r is Ok ==> final(self).mappings().len() == old(self).mappings().len() + 1,
            r is Ok ==> forall|x: int| #[trigger] final(self).info(x) == if va.0 <= x < va.0 + size {
                Some(
                    AddrInfo {
                        flags,
                        linear: true,
                        lazy: false,
                        shared: false,
                        target: Some(x - (va.0 - pa.0)),
                    },
                )
            } else {
                old(self).info(x)
            },
    {
        let va = va.0;
        let pa = pa.0;
        if !(size > 0 && va % PAGE_SIZE_4K == 0 && size % PAGE_SIZE_4K == 0 && pa % PAGE_SIZE_4K == 0
            && self.base <= va && va <= self.base + self.size && size <= self.base + self.size - va
            && size <= u64::MAX - pa) {
            return Err(mapping_err_to_ax_err(MappingError::InvalidParam));
        }
        let k = match self.insert_position(va, va + size) {
            Ok(k) => k,
            Err(e) => {
                return Err(mapping_err_to_ax_err(e));
            },
        };
        let m = Mapping {
            start: va,
            end: va + size,
            flags,
            backend: Backend::Linear { pa_start: pa },
            shared: false,
            frames: Vec::new(),
        };
        proof {
            self.lemma_insert(k as int, m, self.mappings().insert(k as int, m));
        }
        self.areas.insert(k, m);
        proof {
            let ms = old(self).mappings();
            let ms2 = self.mappings();
            assert forall|i: int| 0 <= i < ms2.len() && !#[trigger] ms2[i].shared implies self.spec_base()
                <= ms2[i].start && ms2[i].end <= self.spec_base() + self.spec_size() by {
                if i < k {
                    assert(ms2[i] == ms[i]);
                } else if i > k {
                    assert(ms2[i] == ms[i - 1]);
                }
            }
        }
        Ok(())
    }

    /// Number of mappings.
    pub fn num_mappings(&self) -> (r: usize)
        ensures
            r == self.mappings().len(),
    {
        self.areas.len()
    }

    /// The mapping at position `i` in start order.
    pub fn mapping(&self, i: usize) -> (r: &Mapping)
        requires
            i < self.mappings().len(),
        ensures
            *r == self.mappings()[i as int],
    {
        &self.areas[i]
    }

    /// An empty address space over `[base, base + size)`, with a fresh
    /// page-table root taken from `frames`.
    ///
    /// Fails with `InvalidInput` where `size` is zero or the window leaves the
    /// address width, else with `NoMemory` where no frame is left for the root.
    pub fn new_empty(base: VirtAddr, size: u64, frames: &mut FrameAllocator) -> (r: Result<
        AddrSpace,
        AxError,
    >)
        requires
            old(frames).wf(),
        ensures
            final(frames).wf(),
            r is Ok <==> size > 0 && base.0 + size <= u64::MAX && old(frames).available() > 0,
            r == Err::<AddrSpace, AxError>(AxError::InvalidInput) <==> (size == 0 || base.0 + size
                > u64::MAX),
            r == Err::<AddrSpace, AxError>(AxError::NoMemory) <==> !(size == 0 || base.0 + size
                > u64::MAX) && old(frames).available() == 0,
            r is Err ==> *final(frames) == *old(frames),
            r matches Ok(a) ==> {
                &&& a.wf()
                &&& a.spec_base() == base.0
                &&& a.spec_size() == size
                &&& a.mappings().len() == 0
                &&& final(frames).available() == old(frames).available() - 1
                &&& old(frames).is_free(a.root())
                &&& forall|f: int| #[trigger] final(frames).is_free(f) <==> old(frames).is_free(f)
                    && f != a.root()
            },
    {
        if size == 0 || size > u64::MAX - base.0 {
            return Err(mapping_err_to_ax_err(MappingError::InvalidParam));
        }
        match frames.alloc_frame() {
            Some(root) => Ok(AddrSpace { base: base.0, size, root, areas: Vec::new() }),
            None => Err(AxError::NoMemory),
        }
    }

    /// Physical address of the page-table root, to be loaded into a CPU's
    /// page-table-root register.
    pub fn page_table_root(&self) -> (r: PhysAddr)
        ensures
            r.0 == self.root(),
    {
        PhysAddr(self.root)
    }

    /// First address of the window.
    pub fn base(&self) -> (r: VirtAddr)
        ensures
            r.0 == self.spec_base(),
    {
        VirtAddr(self.base)
    }

    /// Size of the window.
    pub fn size(&self) -> (r: u64)
        ensures
            r == self.spec_size(),
    {
        self.size
    }

    /// Position of the mapping that covers `x`, if any.
    fn find_index(&self, x: u64) -> (r: Option<usize>)
        requires
            self.wf(),
        ensures
            r matches Some(i) ==> i < self.mappings().len() && self.mappings()[i as int].covers(
                x as int,
            ) && self.info(x as int) == Some(self.mappings()[i as int].info(x as int)),
            r is None ==> self.info(x as int) is None && forall|j: int|
                0 <= j < self.mappings().len() ==> !#[trigger] self.mappings()[j].covers(x as int),
    {
        proof {
            self.lemma_starts_below();
        }
        let k = self.count_starting_at_or_below(x);
        if k > 0 && self.areas[k - 1].end > x {
            proof {
                lemma_info_at(self.mappings(), k - 1, x as int);
            }
            Some(k - 1)
        } else {
            proof {
                assert forall|j: int| 0 <= j < self.mappings().len() implies !#[trigger] self.mappings()[j].covers(
                    x as int,
                ) by {
                    if j < k - 1 {
                        assert(self.mappings()[j].end <= self.mappings()[k - 1].start);
                    }
                }
            }
            None
        }
    }

    /// The physical address that `va` translates to.
    ///
    /// Fails with `NotFound` where no mapping covers `va`, or the page holding
    /// it has no frame yet.
    pub fn query(&self, va: VirtAddr) -> (r: Result<PhysAddr, AxError>)
        requires
            self.wf(),
        ensures
            r matches Ok(p) ==> self.translate(va.0 as int) == Some(p.0 as int),
            r is Err ==> r == Err::<PhysAddr, AxError>(AxError::NotFound) && self.translate(
                va.0 as int,
            ) is None,
    {
        match self.find_index(va.0) {
            None => Err(AxError::NotFound),
            Some(i) => {
                let m = &self.areas[i];
                let len = m.frames.len();
                proof {
                    assert(m.wf());
                }
                match m.backend {
                    Backend::Linear { pa_start } => Ok(PhysAddr(pa_start + (va.0 - m.start))),
                    Backend::Alloc { .. } => {
                        proof {
                            lemma_slot_in(m.start as int, m.end as int, va.0 as int);
                        }
                        let slot = ((va.0 - m.start) / PAGE_SIZE_4K) as usize;
                        let f = m.frames[slot];
                        if f == 0 {
                            Err(AxError::NotFound)
                        } else {
                            proof {
                                assert(aligned(m.frames@[slot as int] as int));
                            }
                            Ok(PhysAddr(f + (va.0 - m.start) % PAGE_SIZE_4K))
                        }
                    },
                }
            },
        }
    }

    /// Whether the space covers `va` with a mapping.
    pub fn is_mapped(&self, va: VirtAddr) -> (r: bool)
        requires
            self.wf(),
        ensures
            r == self.covered(va.0 as int),
    {
        self.find_index(va.0).is_some()
    }

    /// Replaces the mapping at `i` by `m2` over the same range.
    proof fn lemma_replace(&self, i: int, m2: Mapping, ms2: Seq<Mapping>)
        requires
            self.wf(),
            m2.wf(),
            0 <= i < self.mappings().len(),
            m2.start == self.mappings()[i].start,
            m2.end == self.mappings()[i].end,
            m2.shared == self.mappings()[i].shared,
            ms2 == self.mappings().update(i, m2),
        ensures
            sorted_disjoint(ms2),
            forall|j: int| 0 <= j < ms2.len() ==> #[trigger] ms2[j].wf(),
            forall|j: int|
                0 <= j < ms2.len() && !#[trigger] ms2[j].shared ==> self.spec_base() <= ms2[j].start
                    && ms2[j].end <= self.spec_base() + self.spec_size(),
            forall|x: int| #[trigger] info_in(ms2, x) == if m2.covers(x) {
                Some(m2.info(x))
            } else {
                info_in(self.mappings(), x)
            },
    {
        let ms = self.mappings();
        self.lemma_starts_below();
        assert forall|j: int| 0 <= j < ms2.len() implies #[trigger] ms2[j].start < ms2[j].end by {
            if j != i {
                assert(ms2[j] == ms[j]);
            }
        }
        assert forall|a: int, b: int| 0 <= a < b < ms2.len() implies #[trigger] ms2[a].end
            <= #[trigger] ms2[b].start by {
            assert(ms[a].end <= ms[b].start);
        }
        assert forall|x: int| #[trigger] info_in(ms2, x) == if m2.covers(x) {
            Some(m2.info(x))
        } else {
            info_in(ms, x)
        } by {
            if m2.covers(x) {
                lemma_info_at(ms2, i, x);
            } else if exists|j: int| 0 <= j < ms.len() && #[trigger] ms[j].covers(x) {
                let j = choose|j: int| 0 <= j < ms.len() && #[trigger] ms[j].covers(x);
                lemma_info_at(ms, j, x);
                lemma_info_at(ms2, j, x);
            } else {
                assert forall|j: int| 0 <= j < ms2.len() implies !#[trigger] ms2[j].covers(x) by {
                    if j != i {
                        assert(ms2[j] == ms[j]);
                    }
                }
            }
        }
    }

    /// Maps `[va, va + size)` onto frames from `frames`: all of them now when
    /// `populate` holds, else each on the first fault in its page.
    ///
    /// Fails with `InvalidInput` where the range is empty, not page-aligned or
    /// outside the window; else with `AlreadyExists` where it meets an existing
    /// mapping; else, when `populate` holds, with `NoMemory` where fewer frames
    /// are left than the range has pages. A failure changes nothing.
    pub fn map_alloc(
        &mut self,
        va: VirtAddr,
        size: u64,
        flags: MappingFlags,
        populate: bool,
        frames: &mut FrameAllocator,
    ) -> (r: Result<(), AxError>)
        requires
            old(self).wf(),
            old(frames).wf(),
        ensures
            final(self).wf(),
            final(frames).wf(),
            final(self).spec_base() == old(self).spec_base(),
            final(self).spec_size() == old(self).spec_size(),
            final(self).root() == old(self).root(),
            r is Ok <==> old(self).valid_range(va.0 as int, size as int) && !old(self).meets_any(
                va.0 as int,
                va.0 + size,
            ) && !(populate && old(frames).available() < pages(size as int)),
            r == Err::<(), AxError>(AxError::InvalidInput) <==> !old(self).valid_range(
                va.0 as int,
                size as int,
            ),
            r == Err::<(), AxError>(AxError::AlreadyExists) <==> old(self).valid_range(
                va.0 as int,
                size as int,
            ) && old(self).meets_any(va.0 as int, va.0 + size),
            r == Err::<(), AxError>(AxError::NoMemory) <==> old(self).valid_range(
                va.0 as int,
                size as int,
            ) && !old(self).meets_any(va.0 as int, va.0 + size) && populate && old(
                frames,
            ).available() < pages(size as int),
            r is Err ==> final(self).mappings() == old(self).mappings() && *final(frames) == *old(
                frames,
            ),
            r is Ok && !populate ==> *final(frames) == *old(frames),
            r is Ok && populate ==> final(frames).available() == old(frames).available() - pages(
                size as int,
            ),
            r is Ok ==> final(self).mappings().len() == old(self).mappings().len() + 1,
            r is Ok ==> forall|x: int| #[trigger]
                final(self).info(x) == if va.0 <= x < va.0 + size {
                    Some(
                        AddrInfo {
                            flags,
                            linear: false,
                            lazy: !populate,
                            shared: false,
                            target: final(self).translate(x),
                        },
                    )
                } else {
                    old(self).info(x)
                },
            r is Ok ==> forall|x: int|
                va.0 <= x < va.0 + size ==> (#[trigger] final(self).translate(x) is Some
                    <==> populate),
            r is Ok && populate ==> forall|x: int|
                va.0 <= x < va.0 + size ==> old(frames).is_free(#[trigger] final(self).frame_of(x))
                    && !final(frames).is_free(final(self).frame_of(x)),
            r is Ok && populate ==> forall|x: int, y: int|
                va.0 <= x < va.0 + size && va.0 <= y < va.0 + size && page_of(x) != page_of(y)
                    ==> #[trigger] final(self).frame_of(x) != #[trigger] final(self).frame_of(y),
            forall|g: int| #[trigger] final(frames).is_free(g) ==> old(frames).is_free(g),
    {
        let va = va.0;
        if !(size > 0 && va % PAGE_SIZE_4K == 0 && size % PAGE_SIZE_4K == 0 && self.base <= va
            && va <= self.base + self.size && size <= self.base + self.size - va) {
            return Err(mapping_err_to_ax_err(MappingError::InvalidParam));
        }
        let k = match self.insert_position(va, va + size) {
            Ok(k) => k,
            Err(e) => {
                return Err(mapping_err_to_ax_err(e));
            },
        };
        let n = size / PAGE_SIZE_4K;
        if populate && !frames.has_frames(n) {
            return Err(AxError::NoMemory);
        }
        let ghost avail0 = frames.available();
        let mut slots: Vec<u64> = Vec::new();
        let mut t: u64 = 0;
        while t < n
            invariant
                frames.wf(),
                t <= n,
                n == size / PAGE_SIZE_4K,
                slots@.len() == t,
                populate ==> frames.available() == avail0 - t,
                populate ==> avail0 >= n,
                !populate ==> *frames == *old(frames),
                forall|j: int| 0 <= j < t ==> aligned(#[trigger] slots@[j] as int),
                forall|j: int| 0 <= j < t ==> (#[trigger] slots@[j] != 0 <==> populate),
                populate ==> forall|j: int|
                    0 <= j < t ==> old(frames).is_free(#[trigger] slots@[j] as int) && !frames.is_free(
                        slots@[j] as int,
                    ),
                populate ==> forall|j: int, l: int| 0 <= j < l < t ==> #[trigger] slots@[j] != #[trigger] slots@[l],
                forall|g: int| #[trigger] frames.is_free(g) ==> old(frames).is_free(g),
            decreases n - t,
        {
            let f: u64 = if populate {
                match frames.alloc_frame() {
                    Some(f) => f,
                    None => 0,
                }
            } else {
                0
            };
            proof {
                if populate {
                    assert forall|j: int| 0 <= j < t implies #[trigger] slots@[j] != f by {
                        assert(!frames.is_free(slots@[j] as int));
                    }
                }
            }
            slots.push(f);
            t = t + 1;
        }
        let m = Mapping {
            start: va,
            end: va + size,
            flags,
            backend: Backend::Alloc { populate },
            shared: false,
            frames: slots,
        };
        proof {
            assert(m.wf());
            self.lemma_insert(k as int, m, self.mappings().insert(k as int, m));
        }
        self.areas.insert(k, m);
        proof {
            let ms = old(self).mappings();
            let ms2 = self.mappings();
            assert forall|i: int| 0 <= i < ms2.len() && !#[trigger] ms2[i].shared implies self.spec_base()
                <= ms2[i].start && ms2[i].end <= self.spec_base() + self.spec_size() by {
                if i < k {
                    assert(ms2[i] == ms[i]);
                } else if i > k {
                    assert(ms2[i] == ms[i - 1]);
                }
            }
            assert forall|x: int| va <= x < va + size implies (#[trigger] self.translate(x) is Some
                <==> populate) by {
                lemma_slot_in(va as int, (va + size) as int, x);
            }
            if populate {
                assert forall|x: int| va <= x < va + size implies #[trigger] self.frame_of(x) == m.frames@[m.slot(x)] by {
                    lemma_slot_in(va as int, (va + size) as int, x);
                    lemma_same_slot(va as int, x, x);
                }
                assert forall|x: int| va <= x < va + size implies old(frames).is_free(#[trigger] self.frame_of(x))
                    && !frames.is_free(self.frame_of(x)) by {
                    lemma_slot_in(va as int, (va + size) as int, x);
                    assert(self.frame_of(x) == m.frames@[m.slot(x)]);
                }
                assert forall|x: int, y: int|
                    va <= x < va + size && va <= y < va + size && page_of(x) != page_of(y) implies #[trigger] self.frame_of(x)
                    != #[trigger] self.frame_of(y) by {
                    lemma_slot_in(va as int, (va + size) as int, x);
                    lemma_slot_in(va as int, (va + size) as int, y);
                    lemma_same_slot(va as int, x, y);
                    assert(self.frame_of(x) == m.frames@[m.slot(x)]);
                    assert(self.frame_of(y) == m.frames@[m.slot(y)]);
                }
            }
        }
        Ok(())
    }

    /// Serves a fault at `va` for an access needing `access`: where a lazy
    /// mapping that permits the access covers `va` and its page has no frame
    /// yet, takes one frame from `frames`, installs it, and returns `true`.
    /// Any other fault is not recovered: it returns `false` and changes
    /// nothing.
    pub fn handle_page_fault(&mut self, va: VirtAddr, access: MappingFlags, frames: &mut FrameAllocator) -> (r:
        bool)
        requires
            old(self).wf(),
            old(frames).wf(),
        ensures
            final(self).wf(),
            final(frames).wf(),
            final(self).spec_base() == old(self).spec_base(),
            final(self).spec_size() == old(self).spec_size(),
            final(self).root() == old(self).root(),
            r <==> (old(self).info(va.0 as int) matches Some(i) && i.lazy && !i.shared
                && i.flags.spec_contains(access) && i.target is None && old(frames).available() > 0),
            !r ==> final(self).mappings() == old(self).mappings() && *final(frames) == *old(frames),
            r ==> final(frames).available() == old(frames).available() - 1,
            r ==> final(self).translate(page_of(va.0 as int)) is Some,
            r ==> old(frames).is_free(final(self).translate(page_of(va.0 as int)).unwrap()),
            r ==> forall|f: int| #[trigger] final(frames).is_free(f) <==> old(frames).is_free(f) && f
                != final(self).translate(page_of(va.0 as int)).unwrap(),
            r ==> forall|x: int| #[trigger]
                final(self).info(x) == if page_of(x) == page_of(va.0 as int) {
                    Some(
                        AddrInfo {
                            target: final(self).translate(x),
                            ..old(self).info(x).unwrap()
                        },
                    )
                } else {
                    old(self).info(x)
                },
            r ==> forall|x: int|
                page_of(x) == page_of(va.0 as int) ==> #[trigger] final(self).translate(x)
                    == Some(final(self).translate(page_of(x)).unwrap() + (x - page_of(x))),
    {
        let i = match self.find_index(va.0) {
            Some(i) => i,
            None => {
                return false;
            },
        };
        let ghost ms = self.mappings();
        proof {
            assert(ms[i as int].wf());
        }
        if !(self.areas[i].backend == (Backend::Alloc { populate: false })) {
            return false;
        }
        if self.areas[i].shared || !self.areas[i].flags.contains(access) {
            return false;
        }
        let start = self.areas[i].start;
        let len = self.areas[i].frames.len();
        proof {
            lemma_slot_in(start as int, ms[i as int].end as int, va.0 as int);
        }
        let slot = ((va.0 - start) / PAGE_SIZE_4K) as usize;
        if self.areas[i].frames[slot] != 0 {
            return false;
        }
        let f = match frames.alloc_frame() {
            Some(f) => f,
            None => {
                return false;
            },
        };
        let ghost old_m = ms[i as int];
        let mut m = self.areas.remove(i);
        m.frames.set(slot, f);
        proof {
            lemma_fill_slot(old_m, m, slot as int, f, va.0 as int);
            old(self).lemma_replace(i as int, m, ms.update(i as int, m));
        }
        self.areas.insert(i, m);
        proof {
            old(self).lemma_starts_below();
            let ms2 = self.mappings();
            assert(ms2 =~= ms.update(i as int, m));
            assert forall|x: int| #[trigger] self.info(x) == if page_of(x) == page_of(va.0 as int) {
                Some(AddrInfo { target: self.translate(x), ..old(self).info(x).unwrap() })
            } else {
                old(self).info(x)
            } by {
                if m.covers(x) {
                    lemma_info_at(ms, i as int, x);
                }
                if page_of(x) == page_of(va.0 as int) {
                    lemma_page_in(start as int, old_m.end as int, va.0 as int, x);
                }
            }
            assert forall|x: int| page_of(x) == page_of(va.0 as int) implies #[trigger] self.translate(x)
                == Some(self.translate(page_of(x)).unwrap() + (x - page_of(x))) by {
                lemma_page_in(start as int, old_m.end as int, va.0 as int, x);
                lemma_page_of(x);
                lemma_page_in(start as int, old_m.end as int, va.0 as int, page_of(x));
                lemma_page_of(page_of(x));
            }
            let pv = page_of(va.0 as int);
            lemma_page_of(va.0 as int);
            lemma_page_in(start as int, old_m.end as int, va.0 as int, pv);
            lemma_page_of(pv);
            assert(self.info(pv) == Some(m.info(pv)));
            assert(self.translate(pv) == Some(f as int));
        }
        true
    }

    /// Number of mappings whose end is at most `x`.
    fn count_ending_at_or_below(&self, x: u64) -> (k: usize)
        requires
            self.wf(),
        ensures
            k <= self.mappings().len(),
            forall|j: int| 0 <= j < k ==> #[trigger] self.mappings()[j].end <= x,
            forall|j: int| k <= j < self.mappings().len() ==> #[trigger] self.mappings()[j].end > x,
    {
        proof {
            self.lemma_starts_below();
        }
        let mut lo: usize = 0;
        let mut hi: usize = self.areas.len();
        while lo < hi
            invariant
                self.wf(),
                forall|k: int|
                    0 <= k < self.mappings().len() ==> #[trigger] self.mappings()[k].start
                        < self.mappings()[k].end,
                lo <= hi <= self.mappings().len(),
                forall|j: int| 0 <= j < lo ==> #[trigger] self.mappings()[j].end <= x,
                forall|j: int| hi <= j < self.mappings().len() ==> #[trigger] self.mappings()[j].end > x,
            decreases hi - lo,
        {
            let mid = lo + (hi - lo) / 2;
            if self.areas[mid].end <= x {
                proof {
                    assert forall|j: int| 0 <= j < mid + 1 implies #[trigger] self.mappings()[j].end
                        <= x by {
                        if j < mid {
                            assert(self.mappings()[j].end <= self.mappings()[mid as int].start);
                        }
                    }
                }
                lo = mid + 1;
            } else {
                proof {
                    assert forall|j: int| mid <= j < self.mappings().len() implies #[trigger] self.mappings()[j].end
                        > x by {
                        if j > mid {
                            assert(self.mappings()[mid as int].end <= self.mappings()[j].start);
                        }
                    }
                }
                hi = mid;
            }
        }
        lo
    }

    /// Removing the run `[lo, hi)` of mappings keeps the rest well-formed and
    /// forgets exactly the addresses that the run covered.
    proof fn lemma_remove_run(&self, lo: int, hi: int, ms2: Seq<Mapping>)
        requires
            self.wf(),
            0 <= lo <= hi <= self.mappings().len(),
            ms2 == self.mappings().subrange(0, lo) + self.mappings().subrange(
                hi,
                self.mappings().len() as int,
            ),
        ensures
            sorted_disjoint(ms2),
            forall|j: int| 0 <= j < ms2.len() ==> #[trigger] ms2[j].wf(),
            forall|j: int|
                0 <= j < ms2.len() && !#[trigger] ms2[j].shared ==> self.spec_base() <= ms2[j].start
                    && ms2[j].end <= self.spec_base() + self.spec_size(),
            forall|j: int|
                0 <= j < ms2.len() ==> (j < lo ==> #[trigger] ms2[j] == self.mappings()[j]) && (j >= lo
                    ==> ms2[j] == self.mappings()[j + hi - lo]),
            forall|x: int| #[trigger] info_in(ms2, x) == if exists|j: int|
                lo <= j < hi && #[trigger] self.mappings()[j].covers(x) {
                None
            } else {
                info_in(self.mappings(), x)
            },
    {
        let ms = self.mappings();
        let d = hi - lo;
        self.lemma_starts_below();
        assert forall|j: int|
            0 <= j < ms2.len() implies (j < lo ==> #[trigger] ms2[j] == ms[j]) && (j >= lo ==> ms2[j]
                == ms[j + d]) by {}
        assert forall|j: int| 0 <= j < ms2.len() implies #[trigger] ms2[j].wf() by {
            if j < lo {
                assert(ms2[j] == ms[j]);
            } else {
                assert(ms2[j] == ms[j + d]);
            }
        }
        assert forall|j: int| 0 <= j < ms2.len() && !#[trigger] ms2[j].shared implies self.spec_base()
            <= ms2[j].start && ms2[j].end <= self.spec_base() + self.spec_size() by {
            if j < lo {
                assert(ms2[j] == ms[j]);
            } else {
                assert(ms2[j] == ms[j + d]);
            }
        }
        assert forall|a: int, b: int| 0 <= a < b < ms2.len() implies #[trigger] ms2[a].end
            <= #[trigger] ms2[b].start by {
            let a0 = if a < lo { a } else { a + d };
            let b0 = if b < lo { b } else { b + d };
            assert(ms2[a] == ms[a0]);
            assert(ms2[b] == ms[b0]);
            assert(ms[a0].end <= ms[b0].start);
        }
        assert forall|j: int| 0 <= j < ms2.len() implies #[trigger] ms2[j].start < ms2[j].end by {
            assert(ms2[j].wf());
        }
        assert forall|x: int| #[trigger] info_in(ms2, x) == if exists|j: int|
            lo <= j < hi && #[trigger] ms[j].covers(x) {
            None
        } else {
            info_in(ms, x)
        } by {
            if exists|j: int| lo <= j < hi && #[trigger] ms[j].covers(x) {
                let j = choose|j: int| lo <= j < hi && #[trigger] ms[j].covers(x);
                assert forall|k: int| 0 <= k < ms2.len() implies !#[trigger] ms2[k].covers(x) by {
                    let k0 = if k < lo { k } else { k + d };
                    assert(ms2[k] == ms[k0]);
                    if k0 < j {
                        assert(ms[k0].end <= ms[j].start);
                    } else if k0 > j {
                        assert(ms[j].end <= ms[k0].start);
                    }
                }
            } else if exists|j: int| 0 <= j < ms.len() && #[trigger] ms[j].covers(x) {
                let j = choose|j: int| 0 <= j < ms.len() && #[trigger] ms[j].covers(x);
                lemma_info_at(ms, j, x);
                if j < lo {
                    assert(ms2[j] == ms[j]);
                    lemma_info_at(ms2, j, x);
                } else {
                    assert(j >= hi);
                    assert(ms2[j - d] == ms[j]);
                    lemma_info_at(ms2, j - d, x);
                }
            } else {
                assert forall|k: int| 0 <= k < ms2.len() implies !#[trigger] ms2[k].covers(x) by {
                    let k0 = if k < lo { k } else { k + d };
                    assert(ms2[k] == ms[k0]);
                }
            }
        }
    }


    /// Takes the run `[lo, hi)` of mappings that meet `[s, e)` out of the
    /// set, gives back the frames they took inside `[s, e)`, and returns the
    /// parts of the run's two ends that lie before and after `[s, e)`.
    #[verifier::rlimit(50)]
    fn take_run(&mut self, lo: usize, hi: usize, s: u64, e: u64, frames: &mut FrameAllocator) -> (r: (
        Option<Mapping>,
        Option<Mapping>,
    ))
        requires
            old(self).wf(),
            old(frames).wf(),
            lo < hi <= old(self).mappings().len(),
            s < e,
            aligned(s as int),
            aligned(e as int),
            forall|j: int| lo <= j < hi ==> #[trigger] old(self).mappings()[j].meets(s as int, e as int),
        ensures
            final(frames).wf(),
            final(frames).available() >= old(frames).available(),
            forall|f: int| #[trigger] old(frames).is_free(f) ==> final(frames).is_free(f),
            forall|j: int|
                lo <= j < hi ==> released(#[trigger] old(self).mappings()[j], s as int, e as int, *final(frames)),
            final(self).base == old(self).base,
            final(self).size == old(self).size,
            final(self).root == old(self).root,
            final(self).mappings() == old(self).mappings().subrange(0, lo as int) + old(self).mappings().subrange(
                hi as int,
                old(self).mappings().len() as int,
            ),
            ({
                let ms = old(self).mappings();
                let (left, right) = r;
                &&& (left is Some <==> ms[lo as int].start < s)
                &&& (left matches Some(l) ==> l.wf() && l.start == ms[lo as int].start && l.end == s
                    && l.shared == ms[lo as int].shared && forall|x: int|
                    l.covers(x) ==> #[trigger] l.info(x) == ms[lo as int].info(x))
                &&& (right is Some <==> ms[hi - 1].end > e)
                &&& (right matches Some(q) ==> q.wf() && q.start == e && q.end == ms[hi - 1].end
                    && q.shared == ms[hi - 1].shared && forall|x: int|
                    q.covers(x) ==> #[trigger] q.info(x) == ms[hi - 1].info(x))
            }),
    {
        let ghost ms = self.mappings();
        proof {
            assert forall|j: int| 0 <= j < ms.len() implies #[trigger] ms[j].wf() by {
                assert(old(self).mappings()[j].wf());
            }
        }
        let n = hi - lo;
        let mut left: Option<Mapping> = None;
        let mut right: Option<Mapping> = None;
        let mut t: usize = 0;
        while t < n
            invariant
                t <= n,
                n == hi - lo,
                self.base == old(self).base,
                self.size == old(self).size,
                self.root == old(self).root,
                lo < hi <= ms.len(),
                frames.wf(),
                frames.available() >= old(frames).available(),
                self.areas@ == ms.subrange(0, lo as int) + ms.subrange(lo + t, ms.len() as int),
                forall|j: int| 0 <= j < ms.len() ==> #[trigger] ms[j].wf(),
                s < e,
                aligned(s as int),
                aligned(e as int),
                forall|j: int| lo <= j < hi ==> #[trigger] ms[j].meets(s as int, e as int),
                t > 0 ==> (left is Some <==> ms[lo as int].start < s),
                t == 0 ==> left is None,
                left matches Some(l) ==> l.wf() && l.start == ms[lo as int].start && l.end == s
                    && l.shared == ms[lo as int].shared && forall|x: int|
                    l.covers(x) ==> #[trigger] l.info(x) == ms[lo as int].info(x),
                t == n ==> (right is Some <==> ms[hi - 1].end > e),
                t < n ==> right is None,
                right matches Some(q) ==> q.wf() && q.start == e && q.end == ms[hi - 1].end
                    && q.shared == ms[hi - 1].shared && forall|x: int|
                    q.covers(x) ==> #[trigger] q.info(x) == ms[hi - 1].info(x),
                forall|f: int| #[trigger] old(frames).is_free(f) ==> frames.is_free(f),
                forall|j: int| lo <= j < lo + t ==> released(#[trigger] ms[j], s as int, e as int, *frames),
            decreases n - t,
        {
            proof {
                assert(ms.subrange(0, lo as int) + ms.subrange(lo + t, ms.len() as int) =~= ms.subrange(
                    0,
                    lo as int,
                ).push(ms[lo + t]) + ms.subrange(lo + t + 1, ms.len() as int));
            }
            let m = self.areas.remove(lo);
            proof {
                assert(m == ms[lo + t]);
                assert(m.wf());
                assert(ms[lo + t].meets(s as int, e as int));
                assert(self.areas@ =~= ms.subrange(0, lo as int) + ms.subrange(
                    lo + t + 1,
                    ms.len() as int,
                ));
            }
            let cut_s = if m.start > s { m.start } else { s };
            let cut_e = if m.end < e { m.end } else { e };
            let ghost fa0 = *frames;
            release_frames(&m, cut_s, cut_e, frames);
            proof {
                assert forall|j: int| lo <= j < lo + t + 1 implies released(#[trigger] ms[j], s as int, e as int, *frames) by {
                    if j < lo + t {
                        lemma_released_grows(ms[j], s as int, e as int, fa0, *frames);
                    } else {
                        assert(ms[j] == m);
                        if !m.shared && m.backend is Alloc {
                            assert forall|x: int|
                                m.covers(x) && s <= x < e && m.frames@[m.slot(x)] != 0 implies #[trigger] frames.is_free(
                                m.frames@[m.slot(x)] as int,
                            ) by {
                                assert(cut_s <= x < cut_e);
                            }
                        }
                    }
                }
            }
            if t == 0 && m.start < s {
                left = Some(sub_mapping(&m, m.start, s));
            }
            if t == n - 1 && m.end > e {
                right = Some(sub_mapping(&m, e, m.end));
            }
            t = t + 1;
        }
        proof {
            assert(self.areas@ =~= ms.subrange(0, lo as int) + ms.subrange(hi as int, ms.len() as int));
        }
        (left, right)
    }

    /// Unmaps `[va, va + size)`: mappings inside it go, mappings across its
    /// ends are cut back to the parts outside it, and frames that the space
    /// took for the pages inside it go back to `frames`.
    ///
    /// Fails with `InvalidInput` where the range is empty, not page-aligned or
    /// leaves the address width; else with `NotFound` where no mapping meets
    /// it. A failure changes nothing.
    #[verifier::rlimit(50)]
    pub fn unmap(&mut self, va: VirtAddr, size: u64, frames: &mut FrameAllocator) -> (r: Result<
        (),
        AxError,
    >)
        requires
            old(self).wf(),
            old(frames).wf(),
        ensures
            final(self).wf(),
            final(frames).wf(),
            final(self).spec_base() == old(self).spec_base(),
            final(self).spec_size() == old(self).spec_size(),
            final(self).root() == old(self).root(),
            r is Ok <==> size > 0 && aligned(va.0 as int) && aligned(size as int) && va.0 + size
                <= u64::MAX && old(self).meets_any(va.0 as int, va.0 + size),
            r == Err::<(), AxError>(AxError::InvalidInput) <==> !(size > 0 && aligned(va.0 as int)
                && aligned(size as int) && va.0 + size <= u64::MAX),
            r == Err::<(), AxError>(AxError::NotFound) <==> size > 0 && aligned(va.0 as int)
                && aligned(size as int) && va.0 + size <= u64::MAX && !old(self).meets_any(
                va.0 as int,
                va.0 + size,
            ),
            r is Err ==> final(self).mappings() == old(self).mappings() && *final(frames) == *old(
                frames,
            ),
            r is Ok ==> final(frames).available() >= old(frames).available(),
            forall|f: int| #[trigger] old(frames).is_free(f) ==> final(frames).is_free(f),
            r is Ok ==> forall|x: int|
                va.0 <= x < va.0 + size && (old(self).info(x) matches Some(i) && !i.linear && !i.shared
                    && i.target is Some) ==> #[trigger] final(frames).is_free(old(self).frame_of(x)),
            r is Ok ==> forall|x: int| #[trigger]
                final(self).info(x) == if va.0 <= x < va.0 + size {
                    None
                } else {
                    old(self).info(x)
                },
    {
        let s = va.0;
        if !(size > 0 && s % PAGE_SIZE_4K == 0 && size % PAGE_SIZE_4K == 0 && size <= u64::MAX
            - s) {
            return Err(mapping_err_to_ax_err(MappingError::InvalidParam));
        }
        let e = s + size;
        let ghost ms = self.mappings();
        proof {
            self.lemma_starts_below();
        }
        let lo = self.count_ending_at_or_below(s);
        let hi = self.count_starting_at_or_below(e - 1);
        if lo >= hi {
            proof {
                assert forall|j: int| 0 <= j < ms.len() implies !#[trigger] ms[j].meets(
                    s as int,
                    e as int,
                ) by {
                    if j < lo {
                    } else {
                    }
                }
            }
            return Err(AxError::NotFound);
        }
        proof {
            assert(ms[lo as int].meets(s as int, e as int));
        }
        let (left, right) = self.take_run(lo, hi, s, e, frames);
        proof {
            old(self).lemma_remove_run(lo as int, hi as int, self.mappings());
        }
        let ghost ms_mid = self.mappings();
        if let Some(q) = right {
            proof {
                assert forall|j: int| lo <= j < self.mappings().len() implies q.end <= #[trigger] self.mappings()[j].start by {
                    assert(self.mappings()[j] == ms[j + hi - lo]);
                    assert(ms[hi - 1].end <= ms[j + hi - lo].start);
                }
                assert forall|j: int| 0 <= j < lo implies #[trigger] self.mappings()[j].end <= q.start by {
                    assert(self.mappings()[j] == ms[j]);
                }
                self.lemma_insert(lo as int, q, self.mappings().insert(lo as int, q));
            }
            self.areas.insert(lo, q);
            proof {
                let ms3 = self.mappings();
                assert(ms[hi - 1].wf());
                assert forall|j: int| 0 <= j < ms3.len() && !#[trigger] ms3[j].shared implies self.spec_base()
                    <= ms3[j].start && ms3[j].end <= self.spec_base() + self.spec_size() by {
                    if j < lo {
                        assert(ms3[j] == ms_mid[j]);
                    } else if j > lo {
                        assert(ms3[j] == ms_mid[j - 1]);
                    }
                }
            }
        }
        let ghost ms_r = self.mappings();
        if let Some(l) = left {
            proof {
                assert forall|j: int| lo <= j < self.mappings().len() implies l.end <= #[trigger] self.mappings()[j].start by {
                    if right is Some && j == lo {
                    } else {
                        let j0 = if right is Some { j - 1 } else { j };
                        assert(self.mappings()[j] == ms_mid[j0]);
                        assert(ms_mid[j0] == ms[j0 + hi - lo]);
                    }
                }
                assert forall|j: int| 0 <= j < lo implies #[trigger] self.mappings()[j].end <= l.start by {
                    assert(self.mappings()[j] == ms[j]);
                    assert(ms[j].end <= ms[lo as int].start);
                }
                self.lemma_insert(lo as int, l, self.mappings().insert(lo as int, l));
            }
            self.areas.insert(lo, l);
            proof {
                let ms3 = self.mappings();
                assert(ms[lo as int].wf());
                assert forall|j: int| 0 <= j < ms3.len() && !#[trigger] ms3[j].shared implies self.spec_base()
                    <= ms3[j].start && ms3[j].end <= self.spec_base() + self.spec_size() by {
                    if j < lo {
                        assert(ms3[j] == ms_r[j]);
                    } else if j > lo {
                        assert(ms3[j] == ms_r[j - 1]);
                    }
                }
            }
        }
        proof {
            let msf = self.mappings();
            assert forall|x: int| #[trigger] info_in(ms_r, x) == if right is Some && right.unwrap().covers(x) {
                Some(right.unwrap().info(x))
            } else {
                info_in(ms_mid, x)
            } by {
                if right is None {
                    assert(ms_r == ms_mid);
                }
            }
            assert forall|x: int| #[trigger] info_in(msf, x) == if left is Some && left.unwrap().covers(x) {
                Some(left.unwrap().info(x))
            } else {
                info_in(ms_r, x)
            } by {
                if left is None {
                    assert(msf == ms_r);
                }
            }
            old(self).lemma_starts_below();
            lemma_unmap_result(ms, ms_mid, ms_r, msf, lo as int, hi as int, s as int, e as int, left, right);
        }
        proof {
            assert forall|x: int|
                s <= x < e && (old(self).info(x) matches Some(i) && !i.linear && !i.shared && i.target is Some)
                    implies #[trigger] frames.is_free(old(self).frame_of(x)) by {
                let j = choose|j: int| 0 <= j < ms.len() && #[trigger] ms[j].covers(x);
                lemma_info_at(ms, j, x);
                assert(lo <= j < hi);
                assert(released(ms[j], s as int, e as int, *frames));
                assert(ms[j].wf());
                lemma_slot_in(ms[j].start as int, ms[j].end as int, x);
                lemma_same_slot(ms[j].start as int, x, x);
            }
        }
        Ok(())
    }

    /// A well-formed space meets `[s, e)` exactly where it covers an address
    /// of it.
    pub proof fn lemma_meets_covered(&self, s: int, e: int)
        requires
            self.wf(),
            s < e,
        ensures
            self.meets_any(s, e) <==> exists|x: int| s <= x < e && #[trigger] self.covered(x),
    {
        self.lemma_starts_below();
        if self.meets_any(s, e) {
            let k = choose|k: int| 0 <= k < self.mappings().len() && #[trigger] self.mappings()[k].meets(s, e);
            let x = if self.mappings()[k].start < s { s } else { self.mappings()[k].start as int };
            lemma_info_at(self.mappings(), k, x);
            assert(self.covered(x));
        }
        if exists|x: int| s <= x < e && #[trigger] self.covered(x) {
            let x = choose|x: int| s <= x < e && #[trigger] self.covered(x);
            let k = choose|k: int| 0 <= k < self.mappings().len() && #[trigger] self.mappings()[k].covers(x);
            assert(self.mappings()[k].meets(s, e));
        }
    }

    /// Installs in this space a copy of every mapping of `other`, on the same
    /// physical frames, marked as shared.
    ///
    /// Fails with `BadState` where a mapping of `other` meets one of this
    /// space; a failure changes nothing.
    pub fn copy_mappings_from(&mut self, other: &AddrSpace) -> (r: Result<(), AxError>)
        requires
            old(self).wf(),
            other.wf(),
        ensures
            final(self).wf(),
            final(self).spec_base() == old(self).spec_base(),
            final(self).spec_size() == old(self).spec_size(),
            final(self).root() == old(self).root(),
            r is Err <==> exists|j: int|
                0 <= j < other.mappings().len() && old(self).meets_any(
                    #[trigger] other.mappings()[j].start as int,
                    other.mappings()[j].end as int,
                ),
            r is Err ==> r == Err::<(), AxError>(AxError::BadState) && final(self).mappings() == old(
                self,
            ).mappings(),
            r is Ok ==> final(self).mappings().len() == old(self).mappings().len() + other.mappings().len(),
            r is Ok ==> forall|x: int| #[trigger]
                final(self).info(x) == if other.covered(x) {
                    shared_of(other.info(x))
                } else {
                    old(self).info(x)
                },
    {
        let n = other.areas.len();
        let ghost os = other.mappings();
        let mut i: usize = 0;
        while i < n
            invariant
                self.wf(),
                other.wf(),
                n == os.len(),
                os == other.mappings(),
                i <= n,
                forall|j: int|
                    0 <= j < i ==> !self.meets_any(#[trigger] os[j].start as int, os[j].end as int),
            decreases n - i,
        {
            proof {
                assert(os[i as int].wf());
            }
            if self.insert_position(other.areas[i].start, other.areas[i].end).is_err() {
                return Err(mapping_err_to_ax_err(MappingError::BadState));
            }
            i = i + 1;
        }
        proof {
            other.lemma_starts_below();
            assert forall|j: int, x: int|
                0 <= j < n && #[trigger] os[j].covers(x) implies !#[trigger] self.covered(x) by {
                assert(os[j].wf());
                self.lemma_meets_covered(os[j].start as int, os[j].end as int);
            }
        }
        let mut i: usize = 0;
        while i < n
            invariant
                self.wf(),
                other.wf(),
                self.base == old(self).base,
                self.size == old(self).size,
                self.root == old(self).root,
                n == os.len(),
                os == other.mappings(),
                i <= n,
                self.mappings().len() == old(self).mappings().len() + i,
                forall|k: int| 0 <= k < os.len() ==> #[trigger] os[k].start < os[k].end,
                forall|j: int, x: int|
                    0 <= j < n && #[trigger] os[j].covers(x) ==> !#[trigger] old(self).covered(x),
                forall|x: int| #[trigger]
                    self.info(x) == if exists|j: int| 0 <= j < i && #[trigger] os[j].covers(x) {
                        shared_of(other.info(x))
                    } else {
                        old(self).info(x)
                    },
            decreases n - i,
        {
            let m = copy_shared(&other.areas[i]);
            proof {
                assert(os[i as int].wf());
                assert forall|x: int| os[i as int].start <= x < os[i as int].end implies !#[trigger] self.covered(x) by {
                    assert(os[i as int].covers(x));
                    assert(!old(self).covered(x));
                    if exists|j: int| 0 <= j < i && #[trigger] os[j].covers(x) {
                        let j = choose|j: int| 0 <= j < i && #[trigger] os[j].covers(x);
                        assert(os[j].end <= os[i as int].start);
                    }
                }
                self.lemma_meets_covered(m.start as int, m.end as int);
            }
            let k = match self.insert_position(m.start, m.end) {
                Ok(k) => k,
                Err(e) => {
                    return Err(mapping_err_to_ax_err(e));
                },
            };
            let ghost before = *self;
            proof {
                self.lemma_insert(k as int, m, self.mappings().insert(k as int, m));
            }
            self.areas.insert(k, m);
            proof {
                let ms = before.mappings();
                let ms2 = self.mappings();
                assert forall|j: int| 0 <= j < ms2.len() && !#[trigger] ms2[j].shared implies self.spec_base()
                    <= ms2[j].start && ms2[j].end <= self.spec_base() + self.spec_size() by {
                    if j < k {
                        assert(ms2[j] == ms[j]);
                    } else if j > k {
                        assert(ms2[j] == ms[j - 1]);
                    }
                }
                assert forall|x: int| #[trigger]
                    self.info(x) == if exists|j: int| 0 <= j < i + 1 && #[trigger] os[j].covers(x) {
                        shared_of(other.info(x))
                    } else {
                        old(self).info(x)
                    } by {
                    assert(before.info(x) == before.info(x));
                    if m.covers(x) {
                        assert(os[i as int].covers(x));
                        lemma_info_at(os, i as int, x);
                    } else if exists|j: int| 0 <= j < i + 1 && #[trigger] os[j].covers(x) {
                        let j = choose|j: int| 0 <= j < i + 1 && #[trigger] os[j].covers(x);
                        assert(j < i);
                    }
                }
            }
            i = i + 1;
        }
        proof {
            assert forall|x: int| #[trigger] self.info(x) == if other.covered(x) {
                shared_of(other.info(x))
            } else {
                old(self).info(x)
            } by {
                assert(self.info(x) == self.info(x));
            }
        }
        Ok(())
    }
}

/// A space that covers every address of `[s1, e1)` meets every range
/// `[s2, e2)` that overlaps it, so that mapping such a range fails with
/// `AlreadyExists` and leaves the space as it was.
pub proof fn lemma_overlap_rejected(a: &AddrSpace, s1: int, e1: int, s2: int, e2: int)
    requires
        a.wf(),
        s1 < e1,
        s2 < e2,
        s1 < e2 && s2 < e1,
        forall|x: int| s1 <= x < e1 ==> #[trigger] a.covered(x),
    ensures
        a.meets_any(s2, e2),
{
    let x = if s1 < s2 { s2 } else { s1 };
    assert(a.covered(x));
    a.lemma_meets_covered(s2, e2);
}

/// A space that shares the mappings of another translates every address as
/// the other does, onto the same physical frames, and covers the same
/// addresses with the same permissions and backends.
pub proof fn lemma_shared_translation(user: &AddrSpace, kernel: &AddrSpace)
    requires
        forall|x: int| #[trigger] user.info(x) == shared_of(kernel.info(x)),
    ensures
        forall|x: int| #[trigger] user.translate(x) == kernel.translate(x),
        forall|x: int| #[trigger] user.covered(x) == kernel.covered(x),
        forall|x: int|
            #[trigger] kernel.info(x) matches Some(k) ==> user.info(x) matches Some(u) && u.flags
                == k.flags && u.linear == k.linear && u.lazy == k.lazy,
{
    assert forall|x: int| #[trigger] user.translate(x) == kernel.translate(x) by {
        assert(user.info(x) == shared_of(kernel.info(x)));
    }
    assert forall|x: int| #[trigger] user.covered(x) == kernel.covered(x) by {
        assert(user.info(x) == shared_of(kernel.info(x)));
    }
}

/// Once an address translates, a fault there is not served: a page gets at
/// most one frame, however often it faults.
pub proof fn lemma_fault_served_once(a: &AddrSpace, va: int)
    requires
        a.translate(va) is Some,
    ensures
        !(a.info(va) matches Some(i) && i.target is None),
{
}

/// After a range is unmapped, no address in it translates, and an address
/// outside it translates as before.
pub proof fn lemma_unmapped_not_found(before: &AddrSpace, after: &AddrSpace, s: int, e: int)
    requires
        forall|x: int| #[trigger] after.info(x) == if s <= x < e {
            None
        } else {
            before.info(x)
        },
    ensures
        forall|x: int| s <= x < e ==> #[trigger] after.translate(x) is None,
        forall|x: int| !(s <= x < e) ==> #[trigger] after.translate(x) == before.translate(x),
{
    assert forall|x: int| s <= x < e implies #[trigger] after.translate(x) is None by {
        assert(after.info(x) is None);
    }
    assert forall|x: int| !(s <= x < e) implies #[trigger] after.translate(x) == before.translate(x) by {
        assert(after.info(x) == before.info(x));
    }
}

/// After a linear map of `[va, va + size)` onto `pa`, every address `x` of
/// the range translates to `x - (va - pa)`.
pub proof fn lemma_linear_translation(
    before: &AddrSpace,
    after: &AddrSpace,
    va: int,
    pa: int,
    size: int,
    flags: MappingFlags,
)
    requires
        forall|x: int| #[trigger] after.info(x) == if va <= x < va + size {
            Some(AddrInfo { flags, linear: true, lazy: false, shared: false, target: Some(x - (va - pa)) })
        } else {
            before.info(x)
        },
    ensures
        forall|x: int| va <= x < va + size ==> #[trigger] after.translate(x) == Some(x - (va - pa)),
{
    assert forall|x: int| va <= x < va + size implies #[trigger] after.translate(x) == Some(x - (va - pa)) by {
        assert(after.info(x) == Some(AddrInfo { flags, linear: true, lazy: false, shared: false, target: Some(x - (va - pa)) }));
    }
}

} // verus!
