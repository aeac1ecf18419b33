//! A physical frame allocator: frames come from a free list first, then from
//! an untouched window of physical memory.

use vstd::prelude::*;
use crate::addr::{aligned, PAGE_SIZE_4K};

verus! {

/// Hands out 4 KiB physical frames and takes them back.
pub struct FrameAllocator {
    next: u64,
    end: u64,
    free: Vec<u64>,
}

impl FrameAllocator {
    /// Frames never handed out yet: `[next, end)`.
    pub closed spec fn next(&self) -> int {
        self.next as int
    }

    /// End of the untouched window.
    pub closed spec fn end(&self) -> int {
        self.end as int
    }

    /// Frames given back, the last one handed out first.
    pub closed spec fn free_list(&self) -> Seq<u64> {
        self.free@
    }

    /// Every frame held is page-aligned and non-zero, held once, and outside
    /// the untouched window.
    pub open spec fn wf(&self) -> bool {
        &&& 0 < self.next() <= self.end()
        &&& aligned(self.next())
        &&& aligned(self.end())
        &&& forall|i: int|
            0 <= i < self.free_list().len() ==> #[trigger] self.free_list()[i] != 0 && aligned(
                self.free_list()[i] as int,
            ) && (self.free_list()[i] < self.next() || self.free_list()[i] >= self.end())
        &&& forall|i: int, j: int|
            0 <= i < j < self.free_list().len() ==> #[trigger] self.free_list()[i]
                != #[trigger] self.free_list()[j]
    }

    /// Whether frame `f` can be handed out.
    pub open spec fn is_free(&self, f: int) -> bool {
        (exists|i: int| 0 <= i < self.free_list().len() && #[trigger] self.free_list()[i] == f) || (
        self.next() <= f < self.end() && aligned(f))
    }

    /// How many frames can still be handed out.
    pub open spec fn available(&self) -> int {
        self.free_list().len() + (self.end() - self.next()) / (PAGE_SIZE_4K as int)
    }

    /// An allocator over the physical window `[start, end)`; `None` unless
    /// both ends are page-aligned, `start` is not zero and `start <= end`.
    pub fn new(start: u64, end: u64) -> (r: Option<FrameAllocator>)
        ensures
            r.is_some() <==> (start != 0 && aligned(start as int) && aligned(end as int) && start
                <= end),
            r.is_some() ==> {
                let a = r.unwrap();
                &&& a.wf()
                &&& a.next() == start
                &&& a.end() == end
                &&& a.free_list().len() == 0
            },
    {
        if start != 0 && start % PAGE_SIZE_4K == 0 && end % PAGE_SIZE_4K == 0 && start <= end {
            Some(FrameAllocator { next: start, end, free: Vec::new() })
        } else {
            None
        }
    }

    /// Whether at least `n` frames can still be handed out.
    pub fn has_frames(&self, n: u64) -> (r: bool)
        requires
            self.wf(),
        ensures
            r == (self.available() >= n),
    {
        let held = self.free.len() as u64;
        if held >= n {
            true
        } else {
            (self.end - self.next) / PAGE_SIZE_4K >= n - held
        }
    }

    /// Whether frame `f` can be handed out.
    pub fn holds(&self, f: u64) -> (r: bool)
        requires
            self.wf(),
        ensures
            r == self.is_free(f as int),
    {
        if self.next <= f && f < self.end && f % PAGE_SIZE_4K == 0 {
            return true;
        }
        let mut i: usize = 0;
        while i < self.free.len()
            invariant
                i <= self.free_list().len(),
                forall|j: int| 0 <= j < i ==> #[trigger] self.free_list()[j] != f,
            decreases self.free_list().len() - i,
        {
            if self.free[i] == f {
                proof {
                    assert(self.free_list()[i as int] == f);
                }
                return true;
            }
            i = i + 1;
        }
        false
    }

    /// Hands out one free frame: the last one given back, else the lowest
    /// untouched one; `None` when none is left.
    pub fn alloc_frame(&mut self) -> (r: Option<u64>)
        requires
            old(self).wf(),
        ensures
            final(self).wf(),
            final(self).end() == old(self).end(),
            old(self).available() > 0 <==> r.is_some(),
            r.is_some() ==> final(self).available() == old(self).available() - 1,
            r.is_none() ==> *final(self) == *old(self),
            r.is_some() ==> r.unwrap() != 0 && aligned(r.unwrap() as int),
            r.is_some() ==> old(self).is_free(r.unwrap() as int),
            r.is_some() ==> forall|f: int|
                #[trigger] final(self).is_free(f) <==> old(self).is_free(f) && f != r.unwrap(),
            old(self).free_list().len() > 0 ==> r == Some(old(self).free_list().last())
                && final(self).free_list() == old(self).free_list().drop_last()
                && final(self).next() == old(self).next(),
            old(self).free_list().len() == 0 && old(self).next() < old(self).end() ==> r == Some(
                old(self).next() as u64,
            ) && final(self).next() == old(self).next() + PAGE_SIZE_4K
                && final(self).free_list() == old(self).free_list(),
    {
        if self.free.len() > 0 {
            let f = self.free.pop();
            proof {
                let s0 = old(self).free_list();
                let n = s0.len() - 1;
                assert(self.free_list() =~= s0.drop_last());
                assert(s0[n] != 0);
                assert forall|i: int| 0 <= i < n implies #[trigger] self.free_list()[i] != s0[n] by {
                    assert(self.free_list()[i] == s0[i]);
                }
                assert forall|g: int| #[trigger] self.is_free(g) <==> old(self).is_free(g) && g
                    != s0[n] by {
                    if exists|i: int| 0 <= i < self.free_list().len() && #[trigger] self.free_list()[i] == g {
                        let i = choose|i: int| 0 <= i < self.free_list().len() && #[trigger] self.free_list()[i] == g;
                        assert(s0[i] == g);
                    }
                    if old(self).is_free(g) && g != s0[n] {
                        if exists|i: int| 0 <= i < s0.len() && #[trigger] s0[i] == g {
                            let i = choose|i: int| 0 <= i < s0.len() && #[trigger] s0[i] == g;
                            assert(self.free_list()[i] == g);
                        }
                    }
                }
                assert(old(self).free_list()[n] == s0[n]);
            }
            f
        } else if self.next < self.end {
            let f = self.next;
            self.next = self.next + PAGE_SIZE_4K;
            proof {
                assert forall|g: int| #[trigger] self.is_free(g) <==> old(self).is_free(g) && g != f by {
                    if exists|i: int| 0 <= i < self.free_list().len() && #[trigger] self.free_list()[i] == g {
                        let i = choose|i: int| 0 <= i < self.free_list().len() && #[trigger] self.free_list()[i] == g;
                        assert(old(self).free_list()[i] == g);
                    }
                }
            }
            Some(f)
        } else {
            None
        }
    }

    /// Takes frame `frame` back; a frame that is free already stays so once.
    pub fn dealloc_frame(&mut self, frame: u64)
        requires
            old(self).wf(),
            frame != 0,
            aligned(frame as int),
        ensures
            final(self).wf(),
            final(self).next() == old(self).next(),
            final(self).end() == old(self).end(),
            forall|f: int| #[trigger] final(self).is_free(f) <==> old(self).is_free(f) || f == frame,
            final(self).available() == old(self).available() + if old(self).is_free(frame as int) {
                0int
            } else {
                1int
            },
    {
        if self.next <= frame && frame < self.end {
            return;
        }
        let mut i: usize = 0;
        while i < self.free.len()
            invariant
                *self == *old(self),
                self.wf(),
                !(self.next <= frame && frame < self.end),
                i <= self.free_list().len(),
                forall|j: int| 0 <= j < i ==> #[trigger] self.free_list()[j] != frame,
            decreases self.free_list().len() - i,
        {
            if self.free[i] == frame {
                proof {
                    assert(self.free_list()[i as int] == frame);
                }
                return;
            }
            i = i + 1;
        }
        self.free.push(frame);
        proof {
            let s0 = old(self).free_list();
            assert forall|k: int| 0 <= k < self.free_list().len() implies #[trigger] self.free_list()[k]
                != 0 && aligned(self.free_list()[k] as int) && (self.free_list()[k] < self.next()
                || self.free_list()[k] >= self.end()) by {
                if k < s0.len() {
                    assert(self.free_list()[k] == s0[k]);
                }
            }
            assert forall|a: int, b: int| 0 <= a < b < self.free_list().len() implies #[trigger] self.free_list()[a]
                != #[trigger] self.free_list()[b] by {
                assert(self.free_list()[a] == self.free_list()[a]);
                if b < s0.len() {
                    assert(s0[a] != s0[b]);
                } else {
                    assert(s0[a] != frame);
                }
            }
            assert forall|f: int| #[trigger] self.is_free(f) <==> old(self).is_free(f) || f == frame by {
                if exists|k: int| 0 <= k < self.free_list().len() && #[trigger] self.free_list()[k] == f {
                    let k = choose|k: int| 0 <= k < self.free_list().len() && #[trigger] self.free_list()[k] == f;
                    if k < s0.len() {
                        assert(s0[k] == f);
                    }
                }
                if exists|k: int| 0 <= k < s0.len() && #[trigger] s0[k] == f {
                    let k = choose|k: int| 0 <= k < s0.len() && #[trigger] s0[k] == f;
                    assert(self.free_list()[k] == f);
                }
                if f == frame {
                    assert(self.free_list()[s0.len() as int] == f);
                }
            }
            assert(!old(self).is_free(frame as int));
        }
    }
}

} // verus!
