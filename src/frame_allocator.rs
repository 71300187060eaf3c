//! The pool of physical page frames and the handles that own them.

use vstd::prelude::*;
use crate::address::{PhysPageNum, PPN_LIMIT};

verus! {

/// Sole owner of one physical frame. It cannot be copied; handing it back to
/// [`StackFrameAllocator::frame_dealloc`] returns the frame to the pool.
#[derive(Debug)]
pub struct FrameTracker {
    pub ppn: PhysPageNum,
}

/// The frames that a list of handles owns.
pub open spec fn ppn_set(frames: Seq<FrameTracker>) -> Set<u64> {
    Set::new(|p: u64| exists|i: int| 0 <= i < frames.len() && frames[i].ppn.0 == p)
}

/// No two handles of the list own the same frame.
pub open spec fn distinct_frames(frames: Seq<FrameTracker>) -> bool {
    forall|i: int, j: int|
        0 <= i < j < frames.len() ==> #[trigger] frames[i].ppn.0 != #[trigger] frames[j].ppn.0
}

/// Issues the frames `[start, end)`: first those released earlier (last
/// released first), then fresh ones above a high-water mark.
pub struct StackFrameAllocator {
    start: u64,
    current: u64,
    end: u64,
    recycled: Vec<u64>,
}

/// A list of distinct frames drawn from `[lo, hi)` has at most `hi - lo` of them.
proof fn lemma_distinct_in_range(s: Seq<u64>, lo: u64, hi: u64)
    requires
        lo <= hi,
        s.no_duplicates(),
        forall|i: int| 0 <= i < s.len() ==> lo <= #[trigger] s[i] < hi,
    ensures
        s.len() <= hi - lo,
{
    let range = <u64 as vstd::set_lib::FiniteRange>::range_set(lo, hi);
    <u64 as vstd::set_lib::FiniteRange>::range_properties(lo, hi);
    s.unique_seq_to_set();
    assert(s.to_set().subset_of(range)) by {
        assert forall|q: u64| s.to_set().contains(q) implies range.contains(q) by {
            let i = choose|i: int| 0 <= i < s.len() && s[i] == q;
            assert(lo <= s[i] < hi);
        };
    };
    vstd::set_lib::lemma_len_subset(s.to_set(), range);
}

impl StackFrameAllocator {
    pub closed spec fn wf(&self) -> bool {
        &&& self.start <= self.current <= self.end
        &&& self.end <= PPN_LIMIT
        &&& self.recycled@.no_duplicates()
        &&& self.recycled@.len() <= self.current - self.start
        &&& forall|i: int|
            0 <= i < self.recycled@.len() ==> self.start <= #[trigger] self.recycled@[i]
                < self.current
    }

    /// First frame of the pool.
    pub closed spec fn pool_start(&self) -> u64 {
        self.start
    }

    /// One past the last frame of the pool.
    pub closed spec fn pool_end(&self) -> u64 {
        self.end
    }

    /// The frames handed out and not yet released.
    pub closed spec fn outstanding(&self) -> Set<u64> {
        Set::new(
            |p: u64| self.start <= p < self.current && !self.recycled@.contains(p),
        )
    }

    /// An outstanding frame lies in the pool.
    pub proof fn lemma_outstanding_in_pool(&self, p: u64)
        requires
            self.wf(),
            self.outstanding().contains(p),
        ensures
            self.pool_start() <= p < self.pool_end(),
    {
    }

    /// The released frames, in the order they were released; the last one is
    /// handed out first.
    pub closed spec fn free_stack(&self) -> Seq<u64> {
        self.recycled@
    }

    /// How many more frames can be handed out.
    pub closed spec fn free_count(&self) -> nat {
        (self.recycled@.len() + (self.end - self.current)) as nat
    }

    /// A pool of the frames `[l, r)`, none of them handed out.
    pub fn new(l: PhysPageNum, r: PhysPageNum) -> (a: StackFrameAllocator)
        requires
            l.0 <= r.0,
            r.0 <= PPN_LIMIT,
        ensures
            a.wf(),
            a.pool_start() == l.0,
            a.pool_end() == r.0,
            a.outstanding() == Set::<u64>::empty(),
            a.free_count() == r.0 - l.0,
    {
        let a = StackFrameAllocator { start: l.0, current: l.0, end: r.0, recycled: Vec::new() };
        assert(a.outstanding() =~= Set::<u64>::empty());
        a
    }

    /// Number of frames that can still be handed out.
    pub fn free_frames(&self) -> (r: u64)
        requires
            self.wf(),
        ensures
            r == self.free_count(),
    {
        self.recycled.len() as u64 + (self.end - self.current)
    }

    /// Hands out a frame that is not outstanding, or `None` once the pool is
    /// used up.
    pub fn frame_alloc(&mut self) -> (r: Option<FrameTracker>)
        requires
            old(self).wf(),
        ensures
            final(self).wf(),
            final(self).pool_start() == old(self).pool_start(),
            final(self).pool_end() == old(self).pool_end(),
            r is Some <==> old(self).free_count() > 0,
            match r {
                Some(f) => {
                    &&& !old(self).outstanding().contains(f.ppn.0)
                    &&& old(self).pool_start() <= f.ppn.0 < old(self).pool_end()
                    &&& f.ppn.0 < PPN_LIMIT
                    &&& final(self).outstanding() == old(self).outstanding().insert(f.ppn.0)
                    &&& final(self).free_count() == old(self).free_count() - 1
                    &&& old(self).free_stack().len() > 0 ==> f.ppn.0 == old(self).free_stack().last()
                        && final(self).free_stack() == old(self).free_stack().drop_last()
                },
                None => *final(self) == *old(self),
            },
    {
        if self.recycled.len() > 0 {
            let p = self.recycled.pop().unwrap();
            proof {
                let rs = old(self).recycled@;
                assert(rs =~= self.recycled@.push(p));
                assert(rs[rs.len() - 1] == p);
                assert forall|i: int| 0 <= i < self.recycled@.len() implies
                    #[trigger] self.recycled@[i] != p by {
                    assert(rs[i] == self.recycled@[i]);
                };
                assert(self.outstanding() =~= old(self).outstanding().insert(p)) by {
                    assert forall|q: u64| #[trigger] self.recycled@.contains(q) implies rs.contains(q) by {
                        let i = choose|i: int| 0 <= i < self.recycled@.len() && self.recycled@[i] == q;
                        assert(rs[i] == q);
                    };
                    assert forall|q: u64| rs.contains(q) && q != p implies #[trigger] self.recycled@.contains(q) by {
                        let i = choose|i: int| 0 <= i < rs.len() && rs[i] == q;
                        assert(i != rs.len() - 1);
                        assert(self.recycled@[i] == q);
                    };
                    assert(rs.contains(p));
                };
                assert(self.recycled@.no_duplicates()) by {
                    assert forall|i: int, j: int| 0 <= i < j < self.recycled@.len() implies
                        self.recycled@[i] != self.recycled@[j] by {
                        assert(rs[i] == self.recycled@[i] && rs[j] == self.recycled@[j]);
                    };
                };
                assert forall|i: int| 0 <= i < self.recycled@.len() implies
                    self.start <= #[trigger] self.recycled@[i] < self.current by {
                    assert(rs[i] == self.recycled@[i]);
                };
            }
            Some(FrameTracker { ppn: PhysPageNum(p) })
        } else if self.current == self.end {
            None
        } else {
            let p = self.current;
            self.current = self.current + 1;
            proof {
                assert(!self.recycled@.contains(p)) by {
                    if self.recycled@.contains(p) {
                        let i = choose|i: int| 0 <= i < self.recycled@.len() && self.recycled@[i] == p;
                        assert(old(self).recycled@[i] == p);
                    }
                };
                assert(self.outstanding() =~= old(self).outstanding().insert(p));
            }
            Some(FrameTracker { ppn: PhysPageNum(p) })
        }
    }

    /// Returns an outstanding frame to the pool.
    pub fn frame_dealloc(&mut self, frame: FrameTracker)
        requires
            old(self).wf(),
            old(self).outstanding().contains(frame.ppn.0),
        ensures
            final(self).wf(),
            final(self).pool_start() == old(self).pool_start(),
            final(self).pool_end() == old(self).pool_end(),
            final(self).outstanding() == old(self).outstanding().remove(frame.ppn.0),
            final(self).free_count() == old(self).free_count() + 1,
            final(self).free_stack() == old(self).free_stack().push(frame.ppn.0),
    {
        let p = frame.ppn.0;
        self.recycled.push(p);
        proof {
            let rs = old(self).recycled@;
            assert(self.recycled@ == rs.push(p));
            assert forall|i: int| 0 <= i < self.recycled@.len() implies
                self.start <= #[trigger] self.recycled@[i] < self.current by {
                if i < rs.len() {
                    assert(self.recycled@[i] == rs[i]);
                }
            };
            assert(self.recycled@.no_duplicates()) by {
                assert forall|i: int, j: int| 0 <= i < j < self.recycled@.len() implies
                    self.recycled@[i] != self.recycled@[j] by {
                    if j == rs.len() {
                        assert(self.recycled@[i] == rs[i]);
                        assert(rs.contains(rs[i]));
                    } else {
                        assert(rs[i] == self.recycled@[i] && rs[j] == self.recycled@[j]);
                    }
                };
            };
            lemma_distinct_in_range(self.recycled@, self.start, self.current);
            assert(self.outstanding() =~= old(self).outstanding().remove(p)) by {
                assert forall|q: u64| #[trigger] self.recycled@.contains(q) <==> (rs.contains(q) || q == p) by {
                    if self.recycled@.contains(q) {
                        let i = choose|i: int| 0 <= i < self.recycled@.len() && self.recycled@[i] == q;
                        if i < rs.len() {
                            assert(rs[i] == q);
                        }
                    }
                    if rs.contains(q) {
                        let i = choose|i: int| 0 <= i < rs.len() && rs[i] == q;
                        assert(self.recycled@[i] == q);
                    }
                    assert(self.recycled@[rs.len() as int] == p);
                };
            };
        }
    }
}

impl StackFrameAllocator {
    /// Returns every frame of `frames` to the pool.
    pub fn frame_dealloc_all(&mut self, frames: Vec<FrameTracker>)
        requires
            old(self).wf(),
            distinct_frames(frames@),
            ppn_set(frames@).subset_of(old(self).outstanding()),
        ensures
            final(self).wf(),
            final(self).pool_start() == old(self).pool_start(),
            final(self).pool_end() == old(self).pool_end(),
            final(self).outstanding() == old(self).outstanding().difference(ppn_set(frames@)),
            final(self).free_count() == old(self).free_count() + frames@.len(),
            final(self).free_stack() == old(self).free_stack() + Seq::new(frames@.len(), |k: int| frames@[frames@.len() - 1 - k].ppn.0),
    {
        let ghost fs = ppn_set(frames@);
        let ghost n0 = frames@.len();
        let ghost fr0 = frames@;
        let mut frames = frames;
        assert(self.free_stack() =~= old(self).free_stack() + Seq::new(0nat, |k: int| fr0[n0 - 1 - k].ppn.0));
        assert(self.outstanding() =~= old(self).outstanding().difference(fs).union(fs));
        while frames.len() > 0
            invariant
                self.wf(),
                self.pool_start() == old(self).pool_start(),
                self.pool_end() == old(self).pool_end(),
                distinct_frames(frames@),
                ppn_set(frames@).subset_of(self.outstanding()),
                ppn_set(frames@).subset_of(fs),
                self.outstanding() == old(self).outstanding().difference(fs).union(ppn_set(frames@)),
                self.free_count() + frames@.len() == old(self).free_count() + n0,
                n0 == fr0.len(),
                frames@.len() <= n0,
                forall|k: int| 0 <= k < frames@.len() ==> #[trigger] frames@[k] == fr0[k],
                self.free_stack() == old(self).free_stack() + Seq::new((n0 - frames@.len()) as nat, |k: int| fr0[n0 - 1 - k].ppn.0),
            decreases frames.len(),
        {
            let ghost before = frames@;
            let f = frames.pop().unwrap();
            let ghost p = f.ppn.0;
            proof {
                assert(before[before.len() - 1].ppn.0 == p);
                assert(ppn_set(before).contains(p));
                assert(ppn_set(before) =~= ppn_set(frames@).insert(p)) by {
                    assert forall|q: u64| ppn_set(before).contains(q) implies ppn_set(frames@).insert(p).contains(q) by {
                        let i = choose|i: int| 0 <= i < before.len() && before[i].ppn.0 == q;
                        if i < frames@.len() {
                            assert(before[i] == frames@[i]);
                        }
                    };
                    assert forall|q: u64| ppn_set(frames@).contains(q) implies ppn_set(before).contains(q) by {
                        let i = choose|i: int| 0 <= i < frames@.len() && frames@[i].ppn.0 == q;
                        assert(before[i] == frames@[i]);
                    };
                };
                assert(!ppn_set(frames@).contains(p)) by {
                    if ppn_set(frames@).contains(p) {
                        let i = choose|i: int| 0 <= i < frames@.len() && frames@[i].ppn.0 == p;
                        assert(before[i] == frames@[i]);
                    }
                };
            }
            self.frame_dealloc(f);
            proof {
                assert(frames@ =~= before.drop_last());
                assert forall|k: int| 0 <= k < frames@.len() implies #[trigger] frames@[k] == fr0[k] by {
                    assert(frames@[k] == before[k]);
                };
                assert(before[frames@.len() as int] == fr0[frames@.len() as int]);
                assert(p == fr0[frames@.len() as int].ppn.0);
                assert(self.free_stack() =~= old(self).free_stack() + Seq::new((n0 - frames@.len()) as nat, |k: int| fr0[n0 - 1 - k].ppn.0));
                assert forall|i: int, j: int|
                    0 <= i < j < frames@.len() implies #[trigger] frames@[i].ppn.0 != #[trigger] frames@[j].ppn.0 by {
                    assert(before[i] == frames@[i] && before[j] == frames@[j]);
                };
                assert(self.outstanding() =~= old(self).outstanding().difference(fs).union(ppn_set(frames@)));
            }
        }
        assert(ppn_set(frames@) =~= Set::<u64>::empty());
        assert(self.outstanding() =~= old(self).outstanding().difference(fs));
        assert(self.free_stack() =~= old(self).free_stack() + Seq::new(fr0.len(), |k: int| fr0[fr0.len() - 1 - k].ppn.0));
    }
}

} // verus!
