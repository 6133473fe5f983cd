//! Per-thread slot recycling and the front-end state the ingestion thread
//! drives.
//!
//! A `ThreadStack` keeps one thread's open frames, its call-box store, and
//! the bookkeeping that recycles box slots once their occupant has been
//! closed for longer than the visibility window.  `TraceState` maps thread
//! ids to `ThreadStack`s and dispatches events to them.

use vstd::prelude::*;

use crate::event::{spec_event_type, spec_timestamp, RRProfTraceEvent, RRProfTraceEventType};
use crate::sync_vec::{spec_gsv_push, spec_gsv_set, spec_gsv_set_end, spec_gsv_truncate, GpuSyncVec};
use crate::trace::{spec_call_box, CallBox, CallStackEntry};
use crate::VISIBLE_DURATION;

verus! {

/// A sequence sorted in non-decreasing order.
pub open spec fn spec_sorted_asc(s: Seq<u32>) -> bool {
    forall|i: int, j: int| 0 <= i < j < s.len() ==> s[i] <= s[j]
}

/// A sequence of slot indices sorted in strictly increasing order.
pub open spec fn spec_strict_asc(s: Seq<usize>) -> bool {
    forall|i: int, j: int| 0 <= i < j < s.len() ==> s[i] < s[j]
}

/// A sequence of slot indices sorted in non-increasing order.
pub open spec fn spec_sorted_desc(s: Seq<usize>) -> bool {
    forall|i: int, j: int| 0 <= i < j < s.len() ==> s[i] >= s[j]
}

/// Where `v` belongs in a non-increasing sequence: the index of the first
/// entry not above `v`.
pub open spec fn spec_desc_position(s: Seq<usize>, v: usize) -> int
    decreases s.len(),
{
    if s.len() == 0 {
        0
    } else if s[0] <= v {
        0
    } else {
        1 + spec_desc_position(s.drop_first(), v)
    }
}

/// A multiset of depths, kept as a sorted list with duplicates.
pub struct MultiSet {
    inner: Vec<u32>,
}

/// Where `v` belongs in a non-decreasing sequence: the index of the first
/// entry not below `v`.
pub open spec fn spec_asc_position(s: Seq<u32>, v: u32) -> int
    decreases s.len(),
{
    if s.len() == 0 {
        0
    } else if s[0] >= v {
        0
    } else {
        1 + spec_asc_position(s.drop_first(), v)
    }
}

/// A multiset insertion: the value goes to its sorted position.
pub open spec fn spec_ms_insert(s: Seq<u32>, v: u32) -> Seq<u32> {
    s.insert(spec_asc_position(s, v), v)
}

/// A multiset removal: one occurrence of the value leaves, if any is there.
pub open spec fn spec_ms_remove(s: Seq<u32>, v: u32) -> Seq<u32> {
    let i = spec_asc_position(s, v);
    if i < s.len() && s[i] == v {
        s.remove(i)
    } else {
        s
    }
}

impl MultiSet {
    /// The entries, in non-decreasing order.
    pub closed spec fn view(self) -> Seq<u32> {
        self.inner@
    }

    /// The entries stay sorted, so the last is the largest.
    pub open spec fn wf(self) -> bool {
        spec_sorted_asc(self.view())
    }

    /// The empty multiset.
    pub fn new() -> (r: MultiSet)
        ensures
            r.view() == Seq::<u32>::empty(),
            r.wf(),
    {
        MultiSet { inner: Vec::new() }
    }

    /// The sorted position of `v`.
    fn position(&self, v: u32) -> (i: usize)
        ensures
            i == spec_asc_position(self.view(), v),
            i <= self.view().len(),
    {
        let ghost view = self.inner@;
        let n = self.inner.len();
        let mut i: usize = 0;
        proof {
            assert(view.skip(0) =~= view);
        }
        while i < n && self.inner[i] < v
            invariant
                i <= n,
                n == self.inner@.len(),
                view == self.inner@,
                spec_asc_position(view, v) == i + spec_asc_position(view.skip(i as int), v),
            decreases n - i,
        {
            proof {
                assert(view.skip(i as int)[0] == view[i as int]);
                assert(view.skip(i as int).drop_first() =~= view.skip(i + 1));
            }
            i = i + 1;
        }
        proof {
            if i < n {
                assert(view.skip(i as int)[0] == view[i as int]);
            } else {
                assert(view.skip(i as int).len() == 0);
            }
        }
        i
    }

    /// Adds one occurrence of `v`.
    pub fn insert(&mut self, v: u32)
        requires
            old(self).wf(),
        ensures
            final(self).view() == spec_ms_insert(old(self).view(), v),
            final(self).wf(),
    {
        let i = self.position(v);
        self.inner.insert(i, v);
        proof {
            let s0 = old(self).view();
            let p = spec_asc_position(s0, v);
            lemma_asc_position_bounds(s0, v);
            assert(spec_sorted_asc(self.inner@)) by {
                assert(forall|a: int, b: int|
                    0 <= a < b < self.inner@.len() ==> self.inner@[a] <= self.inner@[b]) by {
                    assert(forall|k: int| 0 <= k < p ==> s0[k] < v);
                    assert(forall|k: int| p <= k < s0.len() ==> s0[k] >= v);
                }
            }
        }
    }

    /// Removes one occurrence of `v`, if any is there.
    pub fn remove(&mut self, v: u32)
        requires
            old(self).wf(),
        ensures
            final(self).view() == spec_ms_remove(old(self).view(), v),
            final(self).wf(),
    {
        let i = self.position(v);
        if i < self.inner.len() && self.inner[i] == v {
            self.inner.remove(i);
        }
    }

    /// The largest entry, if the multiset is not empty.
    pub fn max(&self) -> (r: Option<u32>)
        requires
            self.wf(),
        ensures
            self.view().len() == 0 ==> r is None,
            self.view().len() > 0 ==> r == Some(self.view().last()),
    {
        if self.inner.len() == 0 {
            None
        } else {
            Some(self.inner[self.inner.len() - 1])
        }
    }
}

/// The sorted position of `v` splits the sequence into entries below `v`
/// and entries at or above it.
pub proof fn lemma_asc_position_bounds(s: Seq<u32>, v: u32)
    requires
        spec_sorted_asc(s),
    ensures
        0 <= spec_asc_position(s, v) <= s.len(),
        forall|k: int| 0 <= k < spec_asc_position(s, v) ==> s[k] < v,
        forall|k: int| spec_asc_position(s, v) <= k < s.len() ==> s[k] >= v,
    decreases s.len(),
{
    if s.len() == 0 {
    } else if s[0] >= v {
    } else {
        assert(spec_sorted_asc(s.drop_first())) by {
            assert(forall|i: int, j: int|
                0 <= i < j < s.drop_first().len() ==> s.drop_first()[i] <= s.drop_first()[j]);
        }
        lemma_asc_position_bounds(s.drop_first(), v);
        let p = spec_asc_position(s, v);
        assert(forall|k: int| 1 <= k < p ==> s[k] == s.drop_first()[k - 1]);
        assert(forall|k: int| p <= k < s.len() ==> s[k] == s.drop_first()[k - 1]);
    }
}

/// The sorted position of `v` in a non-increasing sequence splits it into
/// entries above `v` and entries at or below it.
pub proof fn lemma_desc_position_bounds(s: Seq<usize>, v: usize)
    requires
        spec_sorted_desc(s),
    ensures
        0 <= spec_desc_position(s, v) <= s.len(),
        forall|k: int| 0 <= k < spec_desc_position(s, v) ==> s[k] > v,
        forall|k: int| spec_desc_position(s, v) <= k < s.len() ==> s[k] <= v,
    decreases s.len(),
{
    if s.len() == 0 {
    } else if s[0] <= v {
    } else {
        assert(spec_sorted_desc(s.drop_first())) by {
            assert(forall|i: int, j: int|
                0 <= i < j < s.drop_first().len() ==> s.drop_first()[i] >= s.drop_first()[j]);
        }
        lemma_desc_position_bounds(s.drop_first(), v);
        let p = spec_desc_position(s, v);
        assert(forall|k: int| 1 <= k < p ==> s[k] == s.drop_first()[k - 1]);
        assert(forall|k: int| p <= k < s.len() ==> s[k] == s.drop_first()[k - 1]);
    }
}

/// The reusable slot indices, kept in non-increasing order so that the
/// smallest is popped first, as a min-heap yields them.
pub struct FreeSlots {
    inner: Vec<usize>,
}

/// A free-slot insertion: the index goes to its sorted position.
pub open spec fn spec_free_insert(s: Seq<usize>, v: usize) -> Seq<usize> {
    s.insert(spec_desc_position(s, v), v)
}

impl FreeSlots {
    /// The indices, in non-increasing order; the last is the smallest.
    pub closed spec fn view(self) -> Seq<usize> {
        self.inner@
    }

    /// The indices stay sorted, so the last is the smallest.
    pub open spec fn wf(self) -> bool {
        spec_sorted_desc(self.view())
    }

    /// The empty pool.
    pub fn new() -> (r: FreeSlots)
        ensures
            r.view() == Seq::<usize>::empty(),
            r.wf(),
    {
        FreeSlots { inner: Vec::new() }
    }

    /// The sorted position of `v`.
    fn position(&self, v: usize) -> (i: usize)
        ensures
            i == spec_desc_position(self.view(), v),
            i <= self.view().len(),
    {
        let ghost view = self.inner@;
        let n = self.inner.len();
        let mut i: usize = 0;
        proof {
            assert(view.skip(0) =~= view);
        }
        while i < n && self.inner[i] > v
            invariant
                i <= n,
                n == self.inner@.len(),
                view == self.inner@,
                spec_desc_position(view, v) == i + spec_desc_position(view.skip(i as int), v),
            decreases n - i,
        {
            proof {
                assert(view.skip(i as int)[0] == view[i as int]);
                assert(view.skip(i as int).drop_first() =~= view.skip(i + 1));
            }
            i = i + 1;
        }
        proof {
            if i < n {
                assert(view.skip(i as int)[0] == view[i as int]);
            } else {
                assert(view.skip(i as int).len() == 0);
            }
        }
        i
    }

    /// Adds a reusable index.
    pub fn push(&mut self, v: usize)
        requires
            old(self).wf(),
        ensures
            final(self).view() == spec_free_insert(old(self).view(), v),
            final(self).wf(),
    {
        let i = self.position(v);
        self.inner.insert(i, v);
        proof {
            let s0 = old(self).view();
            let p = spec_desc_position(s0, v);
            lemma_desc_position_bounds(s0, v);
            assert(spec_sorted_desc(self.inner@)) by {
                assert(forall|k: int| 0 <= k < p ==> s0[k] > v);
                assert(forall|k: int| p <= k < s0.len() ==> s0[k] <= v);
            }
        }
    }

    /// How many indices are in the pool.
    pub fn len(&self) -> (n: usize)
        ensures
            n == self.view().len(),
    {
        self.inner.len()
    }

    /// Takes the smallest index, if any is left.
    pub fn pop(&mut self) -> (r: Option<usize>)
        requires
            old(self).wf(),
        ensures
            old(self).view().len() == 0 ==> (r is None) && final(self).view() == old(self).view(),
            old(self).view().len() > 0 ==> r == Some(old(self).view().last())
                && final(self).view() == old(self).view().drop_last(),
            final(self).wf(),
    {
        let r = self.inner.pop();
        proof {
            if old(self).view().len() > 0 {
                assert(self.inner@ =~= old(self).view().drop_last());
            }
        }
        r
    }
}

/// The live slot indices, kept strictly increasing: a sorted set.
pub struct UsedSlots {
    inner: Vec<usize>,
}

/// Where `v` belongs among the used indices.
pub open spec fn spec_used_position(s: Seq<usize>, v: usize) -> int
    decreases s.len(),
{
    if s.len() == 0 {
        0
    } else if s[0] >= v {
        0
    } else {
        1 + spec_used_position(s.drop_first(), v)
    }
}

/// A set insertion: the index goes to its sorted position unless already
/// present.
pub open spec fn spec_used_insert(s: Seq<usize>, v: usize) -> Seq<usize> {
    let i = spec_used_position(s, v);
    if i < s.len() && s[i] == v {
        s
    } else {
        s.insert(i, v)
    }
}

/// A set removal: the index leaves if present.
pub open spec fn spec_used_remove(s: Seq<usize>, v: usize) -> Seq<usize> {
    let i = spec_used_position(s, v);
    if i < s.len() && s[i] == v {
        s.remove(i)
    } else {
        s
    }
}

/// The sorted position of `v` among strictly increasing indices splits
/// them into entries below `v` and entries at or above it.
pub proof fn lemma_used_position_bounds(s: Seq<usize>, v: usize)
    requires
        spec_strict_asc(s),
    ensures
        0 <= spec_used_position(s, v) <= s.len(),
        forall|k: int| 0 <= k < spec_used_position(s, v) ==> s[k] < v,
        forall|k: int| spec_used_position(s, v) <= k < s.len() ==> s[k] >= v,
    decreases s.len(),
{
    if s.len() == 0 {
    } else if s[0] >= v {
        assert(forall|k: int| 0 < k < s.len() ==> #[trigger] s[k] >= v);
    } else {
        assert(spec_strict_asc(s.drop_first())) by {
            assert(forall|i: int, j: int|
                0 <= i < j < s.drop_first().len() ==> s.drop_first()[i] < s.drop_first()[j]);
        }
        lemma_used_position_bounds(s.drop_first(), v);
        let p = spec_used_position(s, v);
        assert(forall|k: int| 1 <= k < p ==> s[k] == s.drop_first()[k - 1]);
        assert(forall|k: int| p <= k < s.len() ==> s[k] == s.drop_first()[k - 1]);
    }
}

impl UsedSlots {
    /// The indices, strictly increasing; the last is the largest.
    pub closed spec fn view(self) -> Seq<usize> {
        self.inner@
    }

    /// The indices stay strictly sorted: a set, whose last entry is the
    /// largest.
    pub open spec fn wf(self) -> bool {
        spec_strict_asc(self.view())
    }

    /// The empty set.
    pub fn new() -> (r: UsedSlots)
        ensures
            r.view() == Seq::<usize>::empty(),
            r.wf(),
    {
        UsedSlots { inner: Vec::new() }
    }

    /// The sorted position of `v`.
    fn position(&self, v: usize) -> (i: usize)
        ensures
            i == spec_used_position(self.view(), v),
            i <= self.view().len(),
    {
        let ghost view = self.inner@;
        let n = self.inner.len();
        let mut i: usize = 0;
        proof {
            assert(view.skip(0) =~= view);
        }
        while i < n && self.inner[i] < v
            invariant
                i <= n,
                n == self.inner@.len(),
                view == self.inner@,
                spec_used_position(view, v) == i + spec_used_position(view.skip(i as int), v),
            decreases n - i,
        {
            proof {
                assert(view.skip(i as int)[0] == view[i as int]);
                assert(view.skip(i as int).drop_first() =~= view.skip(i + 1));
            }
            i = i + 1;
        }
        proof {
            if i < n {
                assert(view.skip(i as int)[0] == view[i as int]);
            } else {
                assert(view.skip(i as int).len() == 0);
            }
        }
        i
    }

    /// Adds an index; a second copy of one already present changes nothing.
    pub fn insert(&mut self, v: usize)
        requires
            old(self).wf(),
        ensures
            final(self).view() == spec_used_insert(old(self).view(), v),
            final(self).wf(),
    {
        let i = self.position(v);
        if i < self.inner.len() && self.inner[i] == v {
            return ;
        }
        self.inner.insert(i, v);
        proof {
            let s0 = old(self).view();
            let p = spec_used_position(s0, v);
            lemma_used_position_bounds(s0, v);
            assert(spec_strict_asc(self.inner@)) by {
                assert(forall|k: int| 0 <= k < p ==> s0[k] < v);
                assert(forall|k: int| p <= k < s0.len() ==> s0[k] >= v);
            }
        }
    }

    /// Removes an index, if present.
    pub fn remove(&mut self, v: usize)
        requires
            old(self).wf(),
        ensures
            final(self).view() == spec_used_remove(old(self).view(), v),
            final(self).wf(),
    {
        let i = self.position(v);
        if i < self.inner.len() && self.inner[i] == v {
            self.inner.remove(i);
        }
    }

    /// The largest index, if the set is not empty.
    pub fn last(&self) -> (r: Option<usize>)
        ensures
            self.view().len() == 0 ==> r is None,
            self.view().len() > 0 ==> r == Some(self.view().last()),
    {
        if self.inner.len() == 0 {
            None
        } else {
            Some(self.inner[self.inner.len() - 1])
        }
    }

    /// How many indices are in the set.
    pub fn len(&self) -> (n: usize)
        ensures
            n == self.view().len(),
    {
        self.inner.len()
    }
}

/// One thread's whole recycling state, as the specifications see it.
pub struct StackModel {
    pub stack: Seq<CallStackEntry>,
    pub verts: (Seq<CallBox>, usize, usize),
    pub ready: Seq<(usize, u64)>,
    pub free: Seq<usize>,
    pub used: Seq<usize>,
    pub depths: Seq<u32>,
    pub free_depth: Seq<(u32, u64)>,
}

/// Draining the pending queue: as long as its head left the visibility
/// window before `at`, the head's slot moves from the used set to the free
/// pool.
pub open spec fn spec_drain(
    ready: Seq<(usize, u64)>,
    free: Seq<usize>,
    used: Seq<usize>,
    at: u64,
) -> (Seq<(usize, u64)>, Seq<usize>, Seq<usize>)
    decreases ready.len(),
{
    if ready.len() > 0 && ready[0].1 + VISIBLE_DURATION < at {
        spec_drain(
            ready.drop_first(),
            spec_free_insert(free, ready[0].0),
            spec_used_remove(used, ready[0].0),
            at,
        )
    } else {
        (ready, free, used)
    }
}

/// Slot allocation: reuse the smallest free slot if it still addresses the
/// store, else append; a stale free slot is discarded.
pub open spec fn spec_alloc(
    verts: (Seq<CallBox>, usize, usize),
    free: Seq<usize>,
    v: CallBox,
) -> ((Seq<CallBox>, usize, usize), Seq<usize>, usize) {
    if free.len() > 0 {
        let i = free.last();
        let free1 = free.drop_last();
        if (i as int) < verts.0.len() {
            (spec_gsv_set(verts, i, v), free1, i)
        } else {
            (spec_gsv_push(verts, v), free1, verts.0.len() as usize)
        }
    } else {
        (spec_gsv_push(verts, v), free, verts.0.len() as usize)
    }
}

/// A `Call` at `at`: drain, open a box in a recycled or fresh slot, push
/// the frame, and count its depth as visible.
pub open spec fn spec_enter(m: StackModel, at: u64, mid: u64) -> StackModel {
    let d = spec_drain(m.ready, m.free, m.used, at);
    let depth = m.stack.len() as u32;
    let v = spec_call_box(at, u64::MAX, mid, depth);
    let a = spec_alloc(m.verts, d.1, v);
    StackModel {
        stack: m.stack.push(CallStackEntry { vertex_index: a.2, method_id: mid }),
        verts: a.0,
        ready: d.0,
        free: a.1,
        used: spec_used_insert(d.2, a.2),
        depths: spec_ms_insert(m.depths, depth),
        free_depth: m.free_depth,
    }
}

/// The unwinding a `Return` at `at` performs: pop frames until the popped
/// method id matches, closing each popped frame's box and queueing its slot
/// for recycling.
pub open spec fn spec_exit_loop(
    stack: Seq<CallStackEntry>,
    verts: (Seq<CallBox>, usize, usize),
    ready: Seq<(usize, u64)>,
    free_depth: Seq<(u32, u64)>,
    at: u64,
    mid: u64,
) -> (Seq<CallStackEntry>, (Seq<CallBox>, usize, usize), Seq<(usize, u64)>, Seq<(u32, u64)>)
    decreases stack.len(),
{
    if stack.len() == 0 {
        (stack, verts, ready, free_depth)
    } else {
        let e = stack.last();
        let s1 = stack.drop_last();
        let fd1 = free_depth.push((s1.len() as u32, at));
        let closed = e.vertex_index != usize::MAX && (e.vertex_index as int) < verts.0.len();
        let verts1 = if closed {
            spec_gsv_set_end(verts, e.vertex_index, at)
        } else {
            verts
        };
        let ready1 = if closed {
            ready.push((e.vertex_index, at))
        } else {
            ready
        };
        if e.method_id == mid {
            (s1, verts1, ready1, fd1)
        } else {
            spec_exit_loop(s1, verts1, ready1, fd1, at, mid)
        }
    }
}

/// A `Return` at `at`.
pub open spec fn spec_exit(m: StackModel, at: u64, mid: u64) -> StackModel {
    let r = spec_exit_loop(m.stack, m.verts, m.ready, m.free_depth, at, mid);
    StackModel { stack: r.0, verts: r.1, ready: r.2, free_depth: r.3, ..m }
}

/// Closing every open frame at `at`, front to back: each frame's box ends
/// at `at`, its slot is queued for recycling, and the frame keeps only its
/// method id.
pub open spec fn spec_cut_loop(
    stack: Seq<CallStackEntry>,
    verts: (Seq<CallBox>, usize, usize),
    ready: Seq<(usize, u64)>,
    at: u64,
    pos: int,
) -> (Seq<CallStackEntry>, (Seq<CallBox>, usize, usize), Seq<(usize, u64)>)
    decreases stack.len() - pos,
{
    if pos < 0 || pos >= stack.len() {
        (stack, verts, ready)
    } else {
        let e = stack[pos];
        let s1 = stack.update(pos, CallStackEntry { vertex_index: usize::MAX, method_id: e.method_id });
        let closed = e.vertex_index != usize::MAX && (e.vertex_index as int) < verts.0.len();
        let verts1 = if closed {
            spec_gsv_set_end(verts, e.vertex_index, at)
        } else {
            verts
        };
        let ready1 = if closed {
            ready.push((e.vertex_index, at))
        } else {
            ready
        };
        spec_cut_loop(s1, verts1, ready1, at, pos + 1)
    }
}

/// A `GCStart` or a suspension at `at`: every open frame's depth is queued
/// for later un-counting, then every frame is cut.
pub open spec fn spec_cut(m: StackModel, at: u64) -> StackModel {
    let fd = m.free_depth + Seq::new(m.stack.len(), |d: int| (d as u32, at));
    let r = spec_cut_loop(m.stack, m.verts, m.ready, at, 0);
    StackModel { stack: r.0, verts: r.1, ready: r.2, free_depth: fd, ..m }
}

/// Counting the depths `lo..hi` as visible, in order.
pub open spec fn spec_ms_range_insert(s: Seq<u32>, lo: int, hi: int) -> Seq<u32>
    decreases hi - lo,
{
    if lo >= hi {
        s
    } else {
        spec_ms_range_insert(spec_ms_insert(s, lo as u32), lo + 1, hi)
    }
}

/// Reopening every frame at `at`, front to back: each frame gets a fresh
/// open box in a recycled or fresh slot.
pub open spec fn spec_resume_loop(
    stack: Seq<CallStackEntry>,
    verts: (Seq<CallBox>, usize, usize),
    free: Seq<usize>,
    used: Seq<usize>,
    at: u64,
    pos: int,
) -> (Seq<CallStackEntry>, (Seq<CallBox>, usize, usize), Seq<usize>, Seq<usize>)
    decreases stack.len() - pos,
{
    if pos < 0 || pos >= stack.len() {
        (stack, verts, free, used)
    } else {
        let e = stack[pos];
        let v = spec_call_box(at, u64::MAX, e.method_id, pos as u32);
        let a = spec_alloc(verts, free, v);
        spec_resume_loop(
            stack.update(pos, CallStackEntry { vertex_index: a.2, method_id: e.method_id }),
            a.0,
            a.1,
            spec_used_insert(used, a.2),
            at,
            pos + 1,
        )
    }
}

/// A `GCEnd` or a resumption at `at`: drain, count every depth as visible
/// again, and reopen every frame.
pub open spec fn spec_resume(m: StackModel, at: u64) -> StackModel {
    let d = spec_drain(m.ready, m.free, m.used, at);
    let depths = spec_ms_range_insert(m.depths, 0, m.stack.len() as int);
    let r = spec_resume_loop(m.stack, m.verts, d.1, d.2, at, 0);
    StackModel {
        stack: r.0,
        verts: r.1,
        ready: d.0,
        free: r.2,
        used: r.3,
        depths,
        free_depth: m.free_depth,
    }
}

/// Un-counting depths whose frames closed before `now` minus the
/// visibility window.
pub open spec fn spec_fd_drain(
    free_depth: Seq<(u32, u64)>,
    depths: Seq<u32>,
    now: u64,
) -> (Seq<(u32, u64)>, Seq<u32>)
    decreases free_depth.len(),
{
    if free_depth.len() > 0 && free_depth[0].1 + VISIBLE_DURATION < now {
        spec_fd_drain(free_depth.drop_first(), spec_ms_remove(depths, free_depth[0].0), now)
    } else {
        (free_depth, depths)
    }
}

/// The length the store is cut to at sync time: one past the largest used
/// slot (clamped to the store), or zero with no used slot.
pub open spec fn spec_required_len(used: Seq<usize>, len: nat) -> usize {
    if used.len() == 0 {
        0usize
    } else if (used.last() as int) < len {
        (used.last() + 1) as usize
    } else {
        len as usize
    }
}

/// Per thread: the open frames, the box store, and the recycling
/// bookkeeping that keeps geometry compact inside the visibility window.
pub struct ThreadStack {
    call_stack: Vec<CallStackEntry>,
    vertices: GpuSyncVec,
    ready_for_free_slot: Vec<(usize, u64)>,
    free_slot: FreeSlots,
    used_slot: UsedSlots,
    visible_call_depth: MultiSet,
    free_depth: Vec<(u32, u64)>,
}

impl ThreadStack {
    /// The whole recycling state.
    pub closed spec fn model(self) -> StackModel {
        StackModel {
            stack: self.call_stack@,
            verts: self.vertices.spec_model(),
            ready: self.ready_for_free_slot@,
            free: self.free_slot.view(),
            used: self.used_slot.view(),
            depths: self.visible_call_depth.view(),
            free_depth: self.free_depth@,
        }
    }

    /// The buffer chain of the box store, in bytes.
    pub closed spec fn spec_sizes(self) -> Seq<u64> {
        self.vertices.spec_sizes()
    }

    /// The clamped device limit of the box store.
    pub closed spec fn spec_max(self) -> u64 {
        self.vertices.spec_max()
    }

    /// Whether the box store is mirrored on a device.
    pub closed spec fn spec_gpu_backed(self) -> bool {
        self.vertices.spec_gpu_backed()
    }

    /// How many GPU buffers the store's mirror has created so far.
    pub closed spec fn spec_gpu_buffer_count(self) -> nat {
        self.vertices.spec_gpu_buffer_count()
    }

    /// Well-formedness: the components keep their orders, and every queued
    /// timestamp is a 60-bit protocol timestamp, so that adding the
    /// visibility window to one never overflows.
    pub closed spec fn wf(self) -> bool {
        &&& self.vertices.wf()
        &&& self.free_slot.wf()
        &&& self.used_slot.wf()
        &&& self.visible_call_depth.wf()
        &&& (forall|k: int|
            0 <= k < self.ready_for_free_slot@.len() ==> (
            #[trigger] self.ready_for_free_slot@[k]).1 <= crate::event::TIMESTAMP_MASK)
        &&& (forall|k: int|
            0 <= k < self.free_depth@.len() ==> (#[trigger] self.free_depth@[k]).1
                <= crate::event::TIMESTAMP_MASK)
    }

    /// A fresh stack whose box store obeys the device limit
    /// `max_buffer_size`.
    pub fn new(max_buffer_size: u64) -> (r: ThreadStack)
        ensures
            r.wf(),
            r.model() == spec_empty_stack(),
            !r.spec_gpu_backed(),
    {
        ThreadStack {
            call_stack: Vec::new(),
            vertices: GpuSyncVec::new(max_buffer_size),
            ready_for_free_slot: Vec::new(),
            free_slot: FreeSlots::new(),
            used_slot: UsedSlots::new(),
            visible_call_depth: MultiSet::new(),
            free_depth: Vec::new(),
        }
    }

    /// A fresh stack whose box store is mirrored on a device; the queue
    /// must belong to the device.
    pub fn new_gpu(device: wgpu::Device, queue: wgpu::Queue) -> (r: ThreadStack)
        requires
            crate::gpu::spec_queue_device(queue) == crate::gpu::spec_device_id(device),
        ensures
            r.wf(),
            r.model() == spec_empty_stack(),
            r.spec_gpu_backed(),
    {
        ThreadStack {
            call_stack: Vec::new(),
            vertices: GpuSyncVec::new_gpu(device, queue),
            ready_for_free_slot: Vec::new(),
            free_slot: FreeSlots::new(),
            used_slot: UsedSlots::new(),
            visible_call_depth: MultiSet::new(),
            free_depth: Vec::new(),
        }
    }

    /// One GPU buffer of the box store, for binding at draw time: some
    /// buffer exactly when the store is mirrored and the mirror has created
    /// the buffer.
    pub fn gpu_buffer(&self, i: usize) -> (r: Option<&wgpu::Buffer>)
        requires
            self.wf(),
        ensures
            (r is Some) == (self.spec_gpu_backed() && (i as nat) < self.spec_gpu_buffer_count()),
    {
        self.vertices.gpu_buffer(i)
    }

    /// Recycles every pending slot that left the visibility window before
    /// `at`.
    fn sync_free_slot(&mut self, at: u64)
        requires
            old(self).wf(),
        ensures
            final(self).wf(),
            ({
                let d = spec_drain(
                    old(self).model().ready,
                    old(self).model().free,
                    old(self).model().used,
                    at,
                );
                final(self).model() == (StackModel { ready: d.0, free: d.1, used: d.2, ..old(self).model() })
            }),
            final(self).spec_sizes() == old(self).spec_sizes(),
            final(self).spec_max() == old(self).spec_max(),
            final(self).spec_gpu_backed() == old(self).spec_gpu_backed(),
            final(self).spec_gpu_buffer_count() == old(self).spec_gpu_buffer_count(),
    {
        let ghost r0 = self.ready_for_free_slot@;
        let ghost f0 = self.free_slot.view();
        let ghost u0 = self.used_slot.view();
        loop
            invariant_except_break
                self.wf(),
                spec_drain(r0, f0, u0, at) == spec_drain(
                    self.ready_for_free_slot@,
                    self.free_slot.view(),
                    self.used_slot.view(),
                    at,
                ),
                self.call_stack@ == old(self).call_stack@,
                self.vertices == old(self).vertices,
                self.visible_call_depth.view() == old(self).visible_call_depth.view(),
                self.visible_call_depth.wf(),
                self.free_depth@ == old(self).free_depth@,
            ensures
                self.wf(),
                (self.ready_for_free_slot@, self.free_slot.view(), self.used_slot.view())
                    == spec_drain(r0, f0, u0, at),
                self.call_stack@ == old(self).call_stack@,
                self.vertices == old(self).vertices,
                self.visible_call_depth.view() == old(self).visible_call_depth.view(),
                self.free_depth@ == old(self).free_depth@,
            decreases self.ready_for_free_slot@.len(),
        {
            let ghost rpre = self.ready_for_free_slot@;
            if self.ready_for_free_slot.len() == 0 {
                break ;
            }
            let head = self.ready_for_free_slot[0];
            if !(head.1 + VISIBLE_DURATION < at) {
                break ;
            }
            self.ready_for_free_slot.remove(0);
            self.free_slot.push(head.0);
            self.used_slot.remove(head.0);
            proof {
                assert(self.ready_for_free_slot@ =~= rpre.drop_first());
            }
        }
    }

    /// A `Call` of `enter_method_id` at `at`: recycle expired slots, open a
    /// box for the new frame in the smallest free slot (or a fresh one),
    /// and count its depth as visible.
    pub fn enter(&mut self, at: u64, enter_method_id: u64)
        requires
            old(self).wf(),
        ensures
            final(self).wf(),
            final(self).model() == spec_enter(old(self).model(), at, enter_method_id),
            final(self).spec_sizes() == old(self).spec_sizes(),
            final(self).spec_max() == old(self).spec_max(),
            final(self).spec_gpu_backed() == old(self).spec_gpu_backed(),
            final(self).spec_gpu_buffer_count() == old(self).spec_gpu_buffer_count(),
    {
        self.sync_free_slot(at);
        let depth = #[verifier::truncate] (self.call_stack.len() as u32);
        let vertex = CallBox::new(at, u64::MAX, enter_method_id, depth);
        let ghost vpre = self.vertices.spec_model();
        let ghost fpre = self.free_slot.view();
        let index = match self.free_slot.pop() {
            Some(i) => {
                if i < self.vertices.len() {
                    let _ = self.vertices.set(i, vertex);
                    i
                } else {
                    let idx = self.vertices.len();
                    self.vertices.push(vertex);
                    idx
                }
            },
            None => {
                let idx = self.vertices.len();
                self.vertices.push(vertex);
                idx
            },
        };
        proof {
            assert((self.vertices.spec_model(), self.free_slot.view(), index) == spec_alloc(
                vpre,
                fpre,
                vertex,
            ));
        }
        self.call_stack.push(CallStackEntry { vertex_index: index, method_id: enter_method_id });
        self.used_slot.insert(index);
        self.visible_call_depth.insert(depth);
    }

    /// A `Return` of `exit_method_id` at `at`: pop frames until the method
    /// id matches, closing each popped frame's box and queueing its slot
    /// and depth for recycling.
    pub fn exit(&mut self, at: u64, exit_method_id: u64)
        requires
            old(self).wf(),
            at <= crate::event::TIMESTAMP_MASK,
        ensures
            final(self).wf(),
            final(self).model() == spec_exit(old(self).model(), at, exit_method_id),
            final(self).spec_sizes() == old(self).spec_sizes(),
            final(self).spec_max() == old(self).spec_max(),
            final(self).spec_gpu_backed() == old(self).spec_gpu_backed(),
            final(self).spec_gpu_buffer_count() == old(self).spec_gpu_buffer_count(),
    {
        let ghost s0 = self.call_stack@;
        let ghost v0 = self.vertices.spec_model();
        let ghost r0 = self.ready_for_free_slot@;
        let ghost fd0 = self.free_depth@;
        loop
            invariant_except_break
                spec_exit_loop(s0, v0, r0, fd0, at, exit_method_id) == spec_exit_loop(
                    self.call_stack@,
                    self.vertices.spec_model(),
                    self.ready_for_free_slot@,
                    self.free_depth@,
                    at,
                    exit_method_id,
                ),
            invariant
                self.wf(),
                at <= crate::event::TIMESTAMP_MASK,
                self.free_slot.view() == old(self).free_slot.view(),
                self.used_slot.view() == old(self).used_slot.view(),
                self.visible_call_depth.view() == old(self).visible_call_depth.view(),
                self.vertices.spec_sizes() == old(self).vertices.spec_sizes(),
                self.vertices.spec_gpu_backed() == old(self).vertices.spec_gpu_backed(),
                self.vertices.spec_gpu_buffer_count() == old(
                    self,
                ).vertices.spec_gpu_buffer_count(),
                self.vertices.spec_max() == old(self).vertices.spec_max(),
            ensures
                (
                    self.call_stack@,
                    self.vertices.spec_model(),
                    self.ready_for_free_slot@,
                    self.free_depth@,
                ) == spec_exit_loop(s0, v0, r0, fd0, at, exit_method_id),
            decreases self.call_stack@.len(),
        {
            let ghost spre = self.call_stack@;
            let popped = self.call_stack.pop();
            match popped {
                None => {
                    break ;
                },
                Some(e) => {
                    proof {
                        assert(e == spre.last());
                        assert(self.call_stack@ == spre.drop_last());
                    }
                    let depth = #[verifier::truncate] (self.call_stack.len() as u32);
                    self.free_depth.push((depth, at));
                    if e.vertex_index != usize::MAX && e.vertex_index < self.vertices.len() {
                        self.vertices.set_end_at(e.vertex_index, at);
                        self.ready_for_free_slot.push((e.vertex_index, at));
                    }
                    if e.method_id == exit_method_id {
                        break ;
                    }
                },
            }
        }
    }

    /// A cut at `at`: close every open frame's box, queue its slot and
    /// depth for recycling, and strike the frames' box indices out.
    pub fn cut_all(&mut self, at: u64)
        requires
            old(self).wf(),
            at <= crate::event::TIMESTAMP_MASK,
        ensures
            final(self).wf(),
            final(self).model() == spec_cut(old(self).model(), at),
            final(self).spec_sizes() == old(self).spec_sizes(),
            final(self).spec_max() == old(self).spec_max(),
            final(self).spec_gpu_backed() == old(self).spec_gpu_backed(),
            final(self).spec_gpu_buffer_count() == old(self).spec_gpu_buffer_count(),
    {
        let ghost fd0 = self.free_depth@;
        let ghost snap = *self;
        let n = self.call_stack.len();
        let mut d: usize = 0;
        while d < n
            invariant
                d <= n,
                self.wf(),
                at <= crate::event::TIMESTAMP_MASK,
                n == self.call_stack@.len(),
                self.call_stack@ == old(self).call_stack@,
                self.vertices == snap.vertices,
                snap.vertices == old(self).vertices,
                self.ready_for_free_slot@ == old(self).ready_for_free_slot@,
                self.free_slot.view() == old(self).free_slot.view(),
                self.used_slot.view() == old(self).used_slot.view(),
                self.visible_call_depth.view() == old(self).visible_call_depth.view(),
                self.free_depth@.len() == fd0.len() + d,
                forall|j: int| 0 <= j < fd0.len() ==> self.free_depth@[j] == fd0[j],
                forall|j: int|
                    fd0.len() <= j < self.free_depth@.len() ==> self.free_depth@[j] == ((j
                        - fd0.len()) as u32, at),
            decreases n - d,
        {
            self.free_depth.push((#[verifier::truncate] (d as u32), at));
            d = d + 1;
        }
        proof {
            assert(self.free_depth@ =~= fd0 + Seq::new(
                old(self).call_stack@.len(),
                |d: int| (d as u32, at),
            ));
        }
        let ghost s0 = self.call_stack@;
        let ghost v0 = self.vertices.spec_model();
        let ghost r0 = self.ready_for_free_slot@;
        let ghost target = spec_cut_loop(s0, v0, r0, at, 0);
        let mut i: usize = 0;
        while i < n
            invariant
                i <= n,
                self.wf(),
                at <= crate::event::TIMESTAMP_MASK,
                n == self.call_stack@.len(),
                self.free_slot.view() == old(self).free_slot.view(),
                self.used_slot.view() == old(self).used_slot.view(),
                self.visible_call_depth.view() == old(self).visible_call_depth.view(),
                self.vertices.spec_sizes() == old(self).vertices.spec_sizes(),
                self.vertices.spec_gpu_backed() == old(self).vertices.spec_gpu_backed(),
                self.vertices.spec_gpu_buffer_count() == old(
                    self,
                ).vertices.spec_gpu_buffer_count(),
                self.vertices.spec_max() == old(self).vertices.spec_max(),
                self.free_depth@ == fd0 + Seq::new(
                    old(self).call_stack@.len(),
                    |d: int| (d as u32, at),
                ),
                target == spec_cut_loop(
                    self.call_stack@,
                    self.vertices.spec_model(),
                    self.ready_for_free_slot@,
                    at,
                    i as int,
                ),
            decreases n - i,
        {
            let e = self.call_stack[i];
            self.call_stack[i] = CallStackEntry { vertex_index: usize::MAX, method_id: e.method_id };
            if e.vertex_index != usize::MAX && e.vertex_index < self.vertices.len() {
                self.vertices.set_end_at(e.vertex_index, at);
                self.ready_for_free_slot.push((e.vertex_index, at));
            }
            i = i + 1;
        }
        proof {
            assert((self.call_stack@, self.vertices.spec_model(), self.ready_for_free_slot@)
                == target);
        }
    }

    /// A resumption at `at`: recycle expired slots, count every frame's
    /// depth as visible again, and reopen every frame as a fresh box.
    pub fn resume_all(&mut self, at: u64)
        requires
            old(self).wf(),
        ensures
            final(self).wf(),
            final(self).model() == spec_resume(old(self).model(), at),
            final(self).spec_sizes() == old(self).spec_sizes(),
            final(self).spec_max() == old(self).spec_max(),
            final(self).spec_gpu_backed() == old(self).spec_gpu_backed(),
            final(self).spec_gpu_buffer_count() == old(self).spec_gpu_buffer_count(),
    {
        self.sync_free_slot(at);
        let ghost snap = *self;
        let ghost ms0 = self.visible_call_depth.view();
        let n = self.call_stack.len();
        let mut d: usize = 0;
        while d < n
            invariant
                d <= n,
                self.wf(),
                n == self.call_stack@.len(),
                self.call_stack@ == snap.call_stack@,
                self.vertices == snap.vertices,
                self.ready_for_free_slot@ == snap.ready_for_free_slot@,
                self.free_slot.view() == snap.free_slot.view(),
                self.used_slot.view() == snap.used_slot.view(),
                self.free_depth@ == snap.free_depth@,
                snap.model() == (StackModel {
                    ready: spec_drain(
                        old(self).model().ready,
                        old(self).model().free,
                        old(self).model().used,
                        at,
                    ).0,
                    free: spec_drain(
                        old(self).model().ready,
                        old(self).model().free,
                        old(self).model().used,
                        at,
                    ).1,
                    used: spec_drain(
                        old(self).model().ready,
                        old(self).model().free,
                        old(self).model().used,
                        at,
                    ).2,
                    ..old(self).model()
                }),
                snap.spec_sizes() == old(self).spec_sizes(),
                snap.spec_max() == old(self).spec_max(),
                spec_ms_range_insert(ms0, 0, n as int) == spec_ms_range_insert(
                    self.visible_call_depth.view(),
                    d as int,
                    n as int,
                ),
            decreases n - d,
        {
            self.visible_call_depth.insert(#[verifier::truncate] (d as u32));
            d = d + 1;
        }
        let ghost s0 = self.call_stack@;
        let ghost v0 = self.vertices.spec_model();
        let ghost f0 = self.free_slot.view();
        let ghost u0 = self.used_slot.view();
        let ghost target = spec_resume_loop(s0, v0, f0, u0, at, 0);
        let mut i: usize = 0;
        while i < n
            invariant
                i <= n,
                self.wf(),
                n == self.call_stack@.len(),
                self.ready_for_free_slot@ == snap.ready_for_free_slot@,
                self.visible_call_depth.view() == spec_ms_range_insert(ms0, 0, n as int),
                self.free_depth@ == snap.free_depth@,
                self.vertices.spec_sizes() == old(self).vertices.spec_sizes(),
                self.vertices.spec_gpu_backed() == old(self).vertices.spec_gpu_backed(),
                self.vertices.spec_gpu_buffer_count() == old(
                    self,
                ).vertices.spec_gpu_buffer_count(),
                self.vertices.spec_max() == old(self).vertices.spec_max(),
                snap.model() == (StackModel {
                    ready: spec_drain(
                        old(self).model().ready,
                        old(self).model().free,
                        old(self).model().used,
                        at,
                    ).0,
                    free: spec_drain(
                        old(self).model().ready,
                        old(self).model().free,
                        old(self).model().used,
                        at,
                    ).1,
                    used: spec_drain(
                        old(self).model().ready,
                        old(self).model().free,
                        old(self).model().used,
                        at,
                    ).2,
                    ..old(self).model()
                }),
                s0 == snap.call_stack@,
                v0 == snap.vertices.spec_model(),
                f0 == spec_drain(
                    old(self).model().ready,
                    old(self).model().free,
                    old(self).model().used,
                    at,
                ).1,
                u0 == spec_drain(
                    old(self).model().ready,
                    old(self).model().free,
                    old(self).model().used,
                    at,
                ).2,
                target == spec_resume_loop(
                    self.call_stack@,
                    self.vertices.spec_model(),
                    self.free_slot.view(),
                    self.used_slot.view(),
                    at,
                    i as int,
                ),
            decreases n - i,
        {
            let e = self.call_stack[i];
            let vertex = CallBox::new(at, u64::MAX, e.method_id, #[verifier::truncate] (i as u32));
            let ghost vpre = self.vertices.spec_model();
            let ghost fpre = self.free_slot.view();
            let index = match self.free_slot.pop() {
                Some(fi) => {
                    if fi < self.vertices.len() {
                        let _ = self.vertices.set(fi, vertex);
                        fi
                    } else {
                        let idx = self.vertices.len();
                        self.vertices.push(vertex);
                        idx
                    }
                },
                None => {
                    let idx = self.vertices.len();
                    self.vertices.push(vertex);
                    idx
                },
            };
            proof {
                assert((self.vertices.spec_model(), self.free_slot.view(), index) == spec_alloc(
                    vpre,
                    fpre,
                    vertex,
                ));
            }
            self.call_stack[i] = CallStackEntry { vertex_index: index, method_id: e.method_id };
            self.used_slot.insert(index);
            i = i + 1;
        }
        proof {
            assert((self.call_stack@, self.vertices.spec_model(), self.free_slot.view(),
            self.used_slot.view()) == target);
        }
    }

    /// Housekeeping at `now`: recycle every pending slot that left the
    /// visibility window, cut the box store to one past the largest slot
    /// still used, reconcile and upload its dirty region, and un-count the
    /// depths of frames whose closure left the window.
    pub fn sync(&mut self, now: u64)
        requires
            old(self).wf(),
        ensures
            final(self).wf(),
            final(self).model() == spec_stack_sync(old(self).model(), now),
            final(self).spec_max() == old(self).spec_max(),
            ({
                let m = old(self).model();
                let d = spec_drain(m.ready, m.free, m.used, now);
                let vm = spec_gsv_truncate(m.verts, spec_required_len(d.2, m.verts.0.len()));
                &&& (vm.1 >= vm.2 ==> final(self).spec_sizes() == old(self).spec_sizes())
                &&& (vm.1 < vm.2 ==> final(self).spec_sizes()
                    == crate::sync_vec::spec_reconciled_sizes(
                    old(self).spec_sizes(),
                    vm.0.len() as int,
                    old(self).spec_max(),
                ))
                &&& (vm.1 < vm.2 && old(self).spec_gpu_backed()
                    ==> final(self).spec_gpu_buffer_count() == final(self).spec_sizes().len())
            }),
            final(self).spec_gpu_backed() == old(self).spec_gpu_backed(),
    {
        self.sync_free_slot(now);
        let required_len = match self.used_slot.last() {
            None => 0,
            Some(last) => {
                if last < self.vertices.len() {
                    last + 1
                } else {
                    self.vertices.len()
                }
            },
        };
        self.vertices.truncate(required_len);
        let _ = self.vertices.sync();
        let ghost vsnap = self.vertices;
        let ghost rsnap = self.ready_for_free_slot@;
        let ghost fsnap = self.free_slot.view();
        let ghost usnap = self.used_slot.view();
        let ghost fd0 = self.free_depth@;
        let ghost ms0 = self.visible_call_depth.view();
        loop
            invariant_except_break
                spec_fd_drain(fd0, ms0, now) == spec_fd_drain(
                    self.free_depth@,
                    self.visible_call_depth.view(),
                    now,
                ),
            invariant
                self.wf(),
                self.call_stack@ == old(self).call_stack@,
                self.vertices == vsnap,
                self.ready_for_free_slot@ == rsnap,
                self.free_slot.view() == fsnap,
                self.used_slot.view() == usnap,
            ensures
                self.wf(),
                (self.free_depth@, self.visible_call_depth.view()) == spec_fd_drain(
                    fd0,
                    ms0,
                    now,
                ),
                self.call_stack@ == old(self).call_stack@,
                self.vertices == vsnap,
                self.ready_for_free_slot@ == rsnap,
                self.free_slot.view() == fsnap,
                self.used_slot.view() == usnap,
            decreases self.free_depth@.len(),
        {
            let ghost fdpre = self.free_depth@;
            if self.free_depth.len() == 0 {
                break ;
            }
            let head = self.free_depth[0];
            if !(head.1 + VISIBLE_DURATION < now) {
                break ;
            }
            self.free_depth.remove(0);
            self.visible_call_depth.remove(head.0);
            proof {
                assert(self.free_depth@ =~= fdpre.drop_first());
            }
        }
    }

    /// The largest depth currently counted as visible, if any.
    pub fn max_visible_depth(&self) -> (r: Option<u32>)
        requires
            self.wf(),
        ensures
            self.model().depths.len() == 0 ==> r is None,
            self.model().depths.len() > 0 ==> r == Some(self.model().depths.last()),
    {
        self.visible_call_depth.max()
    }

    /// How many elements of the box store each GPU buffer holds.
    pub fn fill_counts(&self) -> (r: Vec<usize>)
        requires
            self.wf(),
        ensures
            r@ == crate::sync_vec::spec_fill_counts(
                self.spec_sizes().len() as int,
                crate::sync_vec::spec_per_buf(self.spec_max()),
                self.model().verts.0.len() as int,
            ),
    {
        self.vertices.fill_counts()
    }

    /// The box at a slot, if the slot addresses the store.
    pub fn vertex(&self, index: usize) -> (r: Option<&CallBox>)
        ensures
            index < self.model().verts.0.len() ==> r == Some(&self.model().verts.0[index as int]),
            index >= self.model().verts.0.len() ==> r is None,
    {
        self.vertices.get(index)
    }

    /// How many frames are open.
    pub fn stack_len(&self) -> (n: usize)
        ensures
            n == self.model().stack.len(),
    {
        self.call_stack.len()
    }

    /// How many boxes the store holds.
    pub fn vertices_len(&self) -> (n: usize)
        ensures
            n == self.model().verts.0.len(),
    {
        self.vertices.len()
    }

    /// How many slots are live.
    pub fn used_len(&self) -> (n: usize)
        ensures
            n == self.model().used.len(),
    {
        self.used_slot.len()
    }

    /// How many slots await reuse.
    pub fn free_len(&self) -> (n: usize)
        ensures
            n == self.model().free.len(),
    {
        self.free_slot.len()
    }

    /// How many entries are queued for recycling.
    pub fn pending_len(&self) -> (n: usize)
        ensures
            n == self.model().ready.len(),
    {
        self.ready_for_free_slot.len()
    }
}

/// The whole front-end state, as the specifications see it.
pub struct StateModel {
    pub threads: Seq<(u32, StackModel)>,
    pub base: u64,
    pub last: u32,
    pub exited: Seq<(u32, u64)>,
}

/// One event's effect on one thread's stack.
#[derive(Copy, Clone)]
pub enum StackOp {
    Enter(u64, u64),
    Exit(u64, u64),
    Cut(u64),
    Resume(u64),
}

/// Applying one stack operation.
pub open spec fn spec_apply_op(m: StackModel, op: StackOp) -> StackModel {
    match op {
        StackOp::Enter(at, mid) => spec_enter(m, at, mid),
        StackOp::Exit(at, mid) => spec_exit(m, at, mid),
        StackOp::Cut(at) => spec_cut(m, at),
        StackOp::Resume(at) => spec_resume(m, at),
    }
}

/// A thread's state before its first event: everything empty, the dirty
/// interval at its empty sentinel.
pub open spec fn spec_empty_stack() -> StackModel {
    StackModel {
        stack: Seq::empty(),
        verts: (Seq::empty(), usize::MAX, 0usize),
        ready: Seq::empty(),
        free: Seq::empty(),
        used: Seq::empty(),
        depths: Seq::empty(),
        free_depth: Seq::empty(),
    }
}

/// The insertion point of `tid` in the ordered thread list.
pub open spec fn spec_ts_lower_bound(threads: Seq<(u32, StackModel)>, tid: u32) -> int
    decreases threads.len(),
{
    if threads.len() == 0 {
        0
    } else if threads[0].0 >= tid {
        0
    } else {
        1 + spec_ts_lower_bound(threads.drop_first(), tid)
    }
}

/// Applies an operation to the stack of thread `tid`, creating the thread's
/// entry on first reference.
pub open spec fn spec_with_thread(
    threads: Seq<(u32, StackModel)>,
    tid: u32,
    op: StackOp,
) -> Seq<(u32, StackModel)> {
    let i = spec_ts_lower_bound(threads, tid);
    if i < threads.len() && threads[i].0 == tid {
        threads.update(i, (tid, spec_apply_op(threads[i].1, op)))
    } else {
        threads.insert(i, (tid, spec_apply_op(spec_empty_stack(), op)))
    }
}

/// One event's effect on the front end.  `Call`, `Return`, `GCStart` and
/// `GCEnd` go to the thread of the last `ThreadResume`; the thread events
/// carry their thread id in the payload.  An event with a reserved kind
/// code changes nothing.
pub open spec fn spec_state_step(st: StateModel, ev: RRProfTraceEvent) -> StateModel {
    let ts = spec_timestamp(ev.timestamp_and_event_type);
    match spec_event_type(ev.timestamp_and_event_type) {
        Some(RRProfTraceEventType::Call) => StateModel {
            threads: spec_with_thread(st.threads, st.last, StackOp::Enter(ts, ev.data)),
            base: ts,
            ..st
        },
        Some(RRProfTraceEventType::Return) => StateModel {
            threads: spec_with_thread(st.threads, st.last, StackOp::Exit(ts, ev.data)),
            base: ts,
            ..st
        },
        Some(RRProfTraceEventType::GCStart) => StateModel {
            threads: spec_with_thread(st.threads, st.last, StackOp::Cut(ts)),
            base: ts,
            ..st
        },
        Some(RRProfTraceEventType::GCEnd) => StateModel {
            threads: spec_with_thread(st.threads, st.last, StackOp::Resume(ts)),
            base: ts,
            ..st
        },
        Some(RRProfTraceEventType::ThreadSuspended) => StateModel {
            threads: spec_with_thread(st.threads, ev.data as u32, StackOp::Cut(ts)),
            base: ts,
            ..st
        },
        Some(RRProfTraceEventType::ThreadResume) => StateModel {
            threads: spec_with_thread(st.threads, ev.data as u32, StackOp::Resume(ts)),
            base: ts,
            last: ev.data as u32,
            ..st
        },
        Some(RRProfTraceEventType::ThreadExit) => StateModel {
            exited: st.exited.push((ev.data as u32, ts)),
            base: ts,
            ..st
        },
        Some(RRProfTraceEventType::ThreadStart) => StateModel { base: ts, ..st },
        Some(RRProfTraceEventType::ThreadReady) => StateModel { base: ts, ..st },
        None => st,
    }
}

/// The front end after a whole batch, folding `spec_state_step` from the
/// front.
pub open spec fn spec_state_process(st: StateModel, events: Seq<RRProfTraceEvent>) -> StateModel
    decreases events.len(),
{
    if events.len() == 0 {
        st
    } else {
        spec_state_process(spec_state_step(st, events[0]), events.drop_first())
    }
}

/// Removing the entry of thread `tid`, if it has one.
pub open spec fn spec_remove_thread(
    threads: Seq<(u32, StackModel)>,
    tid: u32,
) -> Seq<(u32, StackModel)> {
    let i = spec_ts_lower_bound(threads, tid);
    if i < threads.len() && threads[i].0 == tid {
        threads.remove(i)
    } else {
        threads
    }
}

/// Evicting exited threads whose exit left the visibility window before
/// `base`.
pub open spec fn spec_evict(
    threads: Seq<(u32, StackModel)>,
    exited: Seq<(u32, u64)>,
    base: u64,
) -> (Seq<(u32, StackModel)>, Seq<(u32, u64)>)
    decreases exited.len(),
{
    if exited.len() > 0 && base > exited[0].1 + VISIBLE_DURATION {
        spec_evict(spec_remove_thread(threads, exited[0].0), exited.drop_first(), base)
    } else {
        (threads, exited)
    }
}

/// One stack's housekeeping at `now`, as `ThreadStack::sync` performs it:
/// recycle every pending slot that left the visibility window, cut the box
/// store to one past the largest slot still used, reset the dirty interval
/// once uploaded, and un-count expired frame closures.
pub open spec fn spec_stack_sync(m: StackModel, now: u64) -> StackModel {
    let d = spec_drain(m.ready, m.free, m.used, now);
    let vm = spec_gsv_truncate(m.verts, spec_required_len(d.2, m.verts.0.len()));
    let vm2 = if vm.1 >= vm.2 {
        vm
    } else {
        (vm.0, usize::MAX, 0usize)
    };
    let fd = spec_fd_drain(m.free_depth, m.depths, now);
    StackModel {
        ready: d.0,
        free: d.1,
        used: d.2,
        verts: vm2,
        free_depth: fd.0,
        depths: fd.1,
        ..m
    }
}

/// Every stack's housekeeping at `now`.
pub open spec fn spec_sync_all(threads: Seq<(u32, StackModel)>, now: u64) -> Seq<
    (u32, StackModel),
> {
    threads.map_values(|p: (u32, StackModel)| (p.0, spec_stack_sync(p.1, now)))
}

/// The largest visible depth over all threads, or zero.
pub open spec fn spec_max_depth(threads: Seq<(u32, StackModel)>) -> u32
    decreases threads.len(),
{
    if threads.len() == 0 {
        0u32
    } else {
        let rest = spec_max_depth(threads.drop_first(), );
        let own = threads[0].1.depths;
        if own.len() > 0 && own.last() > rest {
            own.last()
        } else {
            rest
        }
    }
}

/// The front end the ingestion thread drives: per-thread stacks ordered by
/// thread id, the newest observed timestamp, the thread of the last
/// `ThreadResume`, and the exited threads awaiting eviction.
pub struct TraceState {
    thread_stacks: Vec<(u32, ThreadStack)>,
    base_time: u64,
    last_thread_id: u32,
    exited_threads: Vec<(u32, u64)>,
    max_buffer_size: u64,
    gpu: Option<(wgpu::Device, wgpu::Queue)>,
}

impl TraceState {
    /// The whole front-end state.
    pub closed spec fn model(self) -> StateModel {
        StateModel {
            threads: self.thread_stacks@.map_values(|p: (u32, ThreadStack)| (p.0, p.1.model())),
            base: self.base_time,
            last: self.last_thread_id,
            exited: self.exited_threads@,
        }
    }

    /// Well-formedness: every stack is well-formed, every queued timestamp
    /// is a 60-bit protocol timestamp, and the device pair used for fresh
    /// stacks belongs together.
    pub closed spec fn wf(self) -> bool {
        &&& (forall|k: int|
            0 <= k < self.thread_stacks@.len() ==> (#[trigger] self.thread_stacks@[k]).1.wf())
        &&& (forall|k: int|
            0 <= k < self.exited_threads@.len() ==> (#[trigger] self.exited_threads@[k]).1
                <= crate::event::TIMESTAMP_MASK)
        &&& (match self.gpu {
            Some(dq) => crate::gpu::spec_queue_device(dq.1) == crate::gpu::spec_device_id(dq.0),
            None => true,
        })
    }

    /// A fresh front end whose box stores obey the device limit
    /// `max_buffer_size`.  Until a `ThreadResume` arrives, calls are
    /// attributed to thread 0.
    pub fn new(max_buffer_size: u64) -> (r: TraceState)
        ensures
            r.wf(),
            r.model().threads == Seq::<(u32, StackModel)>::empty(),
            r.model().base == 0,
            r.model().last == 0,
            r.model().exited == Seq::<(u32, u64)>::empty(),
    {
        let r = TraceState {
            thread_stacks: Vec::new(),
            base_time: 0,
            last_thread_id: 0,
            exited_threads: Vec::new(),
            max_buffer_size,
            gpu: None,
        };
        proof {
            assert(r.model().threads =~= Seq::<(u32, StackModel)>::empty());
        }
        r
    }

    /// A fresh front end whose box stores are mirrored on a device; the
    /// queue must belong to the device.
    pub fn new_gpu(device: wgpu::Device, queue: wgpu::Queue) -> (r: TraceState)
        requires
            crate::gpu::spec_queue_device(queue) == crate::gpu::spec_device_id(device),
        ensures
            r.wf(),
            r.model().threads == Seq::<(u32, StackModel)>::empty(),
            r.model().base == 0,
            r.model().last == 0,
            r.model().exited == Seq::<(u32, u64)>::empty(),
    {
        let max_buffer_size = crate::gpu::device_max_buffer_size(&device);
        let r = TraceState {
            thread_stacks: Vec::new(),
            base_time: 0,
            last_thread_id: 0,
            exited_threads: Vec::new(),
            max_buffer_size,
            gpu: Some((device, queue)),
        };
        proof {
            assert(r.model().threads =~= Seq::<(u32, StackModel)>::empty());
        }
        r
    }

    /// The newest observed timestamp, split-encoded for the shader.
    pub fn base_time(&self) -> (r: [u32; 2])
        ensures
            r@ == seq![
                crate::event::spec_time_lo(self.model().base),
                crate::event::spec_time_hi(self.model().base),
            ],
    {
        crate::event::encode_time(self.base_time)
    }

    /// The newest observed timestamp.
    pub fn base_time_ns(&self) -> (t: u64)
        ensures
            t == self.model().base,
    {
        self.base_time
    }

    /// How many threads have stacks.
    pub fn num_threads(&self) -> (n: u32)
        ensures
            n == self.model().threads.len() as u32,
    {
        #[verifier::truncate] (self.thread_stacks.len() as u32)
    }

    /// The index of thread `tid`, creating its entry at the ordered
    /// position on first reference.
    fn stack_index(&mut self, tid: u32) -> (i: usize)
        requires
            old(self).wf(),
        ensures
            final(self).wf(),
            i == spec_ts_lower_bound(old(self).model().threads, tid),
            i < final(self).thread_stacks@.len(),
            final(self).thread_stacks@[i as int].0 == tid,
            ({
                let threads0 = old(self).model().threads;
                let j = spec_ts_lower_bound(threads0, tid);
                if j < threads0.len() && threads0[j].0 == tid {
                    final(self).model().threads == threads0 && final(self).thread_stacks@
                        == old(self).thread_stacks@
                } else {
                    final(self).model().threads == threads0.insert(j, (tid, spec_empty_stack()))
                        && final(self).thread_stacks@.len() == old(self).thread_stacks@.len() + 1
                }
            }),
            final(self).model().base == old(self).model().base,
            final(self).model().last == old(self).model().last,
            final(self).model().exited == old(self).model().exited,
            final(self).max_buffer_size == old(self).max_buffer_size,
    {
        let ghost view = self.model().threads;
        let n = self.thread_stacks.len();
        let mut i: usize = 0;
        proof {
            assert(view.skip(0) =~= view);
        }
        while i < n && self.thread_stacks[i].0 < tid
            invariant
                i <= n,
                n == self.thread_stacks@.len(),
                view == self.model().threads,
                *self == *old(self),
                spec_ts_lower_bound(view, tid) == i + spec_ts_lower_bound(
                    view.skip(i as int),
                    tid,
                ),
            decreases n - i,
        {
            proof {
                assert(view.skip(i as int)[0] == view[i as int]);
                assert(view.skip(i as int).drop_first() =~= view.skip(i + 1));
            }
            i = i + 1;
        }
        proof {
            if i < n {
                assert(view.skip(i as int)[0] == view[i as int]);
            } else {
                assert(view.skip(i as int).len() == 0);
            }
        }
        if !(i < self.thread_stacks.len() && self.thread_stacks[i].0 == tid) {
            let fresh = match &self.gpu {
                Some(dq) => ThreadStack::new_gpu(
                    crate::gpu::clone_device(&dq.0),
                    crate::gpu::clone_queue(&dq.1),
                ),
                None => ThreadStack::new(self.max_buffer_size),
            };
            proof {
                assert(fresh.model() == spec_empty_stack());
            }
            self.thread_stacks.insert(i, (tid, fresh));
            proof {
                assert(self.model().threads =~= view.insert(i as int, (tid, spec_empty_stack())));
            }
        }
        i
    }

    /// Applies one stack operation to thread `tid`, creating its entry on
    /// first reference.
    fn apply_op(&mut self, tid: u32, op: StackOp)
        requires
            old(self).wf(),
            match op {
                StackOp::Exit(at, _) => at <= crate::event::TIMESTAMP_MASK,
                StackOp::Cut(at) => at <= crate::event::TIMESTAMP_MASK,
                _ => true,
            },
        ensures
            final(self).wf(),
            final(self).model().threads == spec_with_thread(old(self).model().threads, tid, op),
            final(self).model().base == old(self).model().base,
            final(self).model().last == old(self).model().last,
            final(self).model().exited == old(self).model().exited,
            final(self).max_buffer_size == old(self).max_buffer_size,
    {
        let ghost threads0 = self.model().threads;
        let i = self.stack_index(tid);
        let ghost mid_stacks = self.thread_stacks@;
        let ghost mid_threads = self.model().threads;
        let ghost mpre = self.thread_stacks@[i as int].1.model();
        match op {
            StackOp::Enter(at, mid) => {
                self.thread_stacks[i].1.enter(at, mid);
            },
            StackOp::Exit(at, mid) => {
                self.thread_stacks[i].1.exit(at, mid);
            },
            StackOp::Cut(at) => {
                self.thread_stacks[i].1.cut_all(at);
            },
            StackOp::Resume(at) => {
                self.thread_stacks[i].1.resume_all(at);
            },
        }
        proof {
            assert(self.thread_stacks@[i as int].1.model() == spec_apply_op(mpre, op));
            assert(self.thread_stacks@ == mid_stacks.update(
                i as int,
                (tid, self.thread_stacks@[i as int].1),
            ));
            assert(self.model().threads =~= mid_threads.update(
                i as int,
                (tid, spec_apply_op(mpre, op)),
            ));
            assert(mid_threads[i as int] == (tid, mpre));
            let j = spec_ts_lower_bound(threads0, tid);
            if j < threads0.len() && threads0[j].0 == tid {
                assert(self.model().threads =~= spec_with_thread(threads0, tid, op));
            } else {
                assert(mid_threads == threads0.insert(j, (tid, spec_empty_stack())));
                assert(mpre == spec_empty_stack());
                assert(self.model().threads =~= threads0.insert(
                    j,
                    (tid, spec_apply_op(spec_empty_stack(), op)),
                ));
            }
            assert(forall|k: int|
                0 <= k < self.thread_stacks@.len() ==> (#[trigger] self.thread_stacks@[k]).1.wf());
        }
    }

    /// Applies a batch of events, each per `spec_state_step`: stacks are
    /// created on first reference, and the newest timestamp becomes the
    /// clock reference.
    pub fn process_events(&mut self, events: &[RRProfTraceEvent])
        requires
            old(self).wf(),
        ensures
            final(self).wf(),
            final(self).model() == spec_state_process(old(self).model(), events@),
    {
        let ghost st0 = self.model();
        let n = events.len();
        let mut j: usize = 0;
        proof {
            assert(events@.skip(0) =~= events@);
        }
        while j < n
            invariant
                j <= n,
                n == events@.len(),
                self.wf(),
                spec_state_process(st0, events@) == spec_state_process(
                    self.model(),
                    events@.skip(j as int),
                ),
            decreases n - j,
        {
            let ghost stpre = self.model();
            let ev = events[j];
            let timestamp = ev.timestamp();
            proof {
                assert(events@.skip(j as int)[0] == events@[j as int]);
                assert(events@.skip(j as int).drop_first() =~= events@.skip(j + 1));
                crate::event::lemma_timestamp_bound(ev.timestamp_and_event_type);
            }
            match ev.event_type() {
                Some(RRProfTraceEventType::Call) => {
                    let tid = self.last_thread_id;
                    self.base_time = timestamp;
                    self.apply_op(tid, StackOp::Enter(timestamp, ev.data));
                },
                Some(RRProfTraceEventType::Return) => {
                    let tid = self.last_thread_id;
                    self.base_time = timestamp;
                    self.apply_op(tid, StackOp::Exit(timestamp, ev.data));
                },
                Some(RRProfTraceEventType::GCStart) => {
                    let tid = self.last_thread_id;
                    self.base_time = timestamp;
                    self.apply_op(tid, StackOp::Cut(timestamp));
                },
                Some(RRProfTraceEventType::GCEnd) => {
                    let tid = self.last_thread_id;
                    self.base_time = timestamp;
                    self.apply_op(tid, StackOp::Resume(timestamp));
                },
                Some(RRProfTraceEventType::ThreadSuspended) => {
                    let tid = #[verifier::truncate] (ev.data as u32);
                    self.base_time = timestamp;
                    self.apply_op(tid, StackOp::Cut(timestamp));
                },
                Some(RRProfTraceEventType::ThreadResume) => {
                    let tid = #[verifier::truncate] (ev.data as u32);
                    self.last_thread_id = tid;
                    self.base_time = timestamp;
                    self.apply_op(tid, StackOp::Resume(timestamp));
                },
                Some(RRProfTraceEventType::ThreadExit) => {
                    let tid = #[verifier::truncate] (ev.data as u32);
                    self.base_time = timestamp;
                    self.exited_threads.push((tid, timestamp));
                },
                Some(RRProfTraceEventType::ThreadStart) => {
                    self.base_time = timestamp;
                },
                Some(RRProfTraceEventType::ThreadReady) => {
                    self.base_time = timestamp;
                },
                None => {},
            }
            proof {
                assert(self.model() == spec_state_step(stpre, ev));
            }
            j = j + 1;
        }
        proof {
            assert(events@.skip(n as int).len() == 0);
        }
    }

    /// The largest depth any thread currently counts as visible, or zero.
    pub fn max_depth(&self) -> (r: u32)
        requires
            self.wf(),
        ensures
            r == spec_max_depth(self.model().threads),
    {
        let ghost view = self.model().threads;
        let n = self.thread_stacks.len();
        let mut best: u32 = 0;
        let mut i: usize = n;
        proof {
            assert(view.skip(n as int).len() == 0);
        }
        while i > 0
            invariant
                i <= n,
                n == self.thread_stacks@.len(),
                view == self.model().threads,
                self.wf(),
                best == spec_max_depth(view.skip(i as int)),
            decreases i,
        {
            i = i - 1;
            proof {
                assert(view.skip(i as int)[0] == view[i as int]);
                assert(view.skip(i as int).drop_first() =~= view.skip(i + 1));
            }
            proof {
                assert(view[i as int] == (
                    self.thread_stacks@[i as int].0,
                    self.thread_stacks@[i as int].1.model(),
                ));
                assert(self.thread_stacks@[i as int].1.wf());
            }
            match self.thread_stacks[i].1.max_visible_depth() {
                Some(d) => {
                    if d > best {
                        best = d;
                    }
                },
                None => {},
            }
        }
        proof {
            assert(view.skip(0) =~= view);
        }
        best
    }

    /// Housekeeping: evict threads whose exit left the visibility window,
    /// then run every stack's housekeeping at the clock reference.
    pub fn sync(&mut self)
        requires
            old(self).wf(),
        ensures
            final(self).wf(),
            ({
                let ev = spec_evict(
                    old(self).model().threads,
                    old(self).model().exited,
                    old(self).model().base,
                );
                &&& final(self).model().threads == spec_sync_all(ev.0, old(self).model().base)
                &&& final(self).model().exited == ev.1
            }),
            final(self).model().base == old(self).model().base,
            final(self).model().last == old(self).model().last,
    {
        let ghost t0 = self.model().threads;
        let ghost x0 = self.exited_threads@;
        let base = self.base_time;
        loop
            invariant_except_break
                spec_evict(t0, x0, base) == spec_evict(
                    self.model().threads,
                    self.exited_threads@,
                    base,
                ),
            invariant
                self.wf(),
                base == self.base_time,
                self.base_time == old(self).base_time,
                self.last_thread_id == old(self).last_thread_id,
                self.max_buffer_size == old(self).max_buffer_size,
            ensures
                self.wf(),
                (self.model().threads, self.exited_threads@) == spec_evict(t0, x0, base),
                self.base_time == old(self).base_time,
                self.last_thread_id == old(self).last_thread_id,
                self.max_buffer_size == old(self).max_buffer_size,
            decreases self.exited_threads@.len(),
        {
            let ghost xpre = self.exited_threads@;
            let ghost tpre = self.model().threads;
            if self.exited_threads.len() == 0 {
                break ;
            }
            let head = self.exited_threads[0];
            if !(base > head.1 + VISIBLE_DURATION) {
                break ;
            }
            self.exited_threads.remove(0);
            self.remove_stack(head.0);
            proof {
                assert(self.exited_threads@ =~= xpre.drop_first());
            }
        }
        let ghost te = self.model().threads;
        let n = self.thread_stacks.len();
        let mut i: usize = 0;
        while i < n
            invariant
                i <= n,
                n == self.thread_stacks@.len(),
                self.wf(),
                self.base_time == old(self).base_time,
                self.last_thread_id == old(self).last_thread_id,
                self.exited_threads@ == spec_evict(t0, x0, old(self).base_time).1,
                te == spec_evict(t0, x0, old(self).base_time).0,
                self.model().threads.len() == te.len(),
                forall|k: int|
                    0 <= k < i ==> self.model().threads[k] == spec_sync_all(
                        te,
                        old(self).base_time,
                    )[k],
                forall|k: int| i <= k < n ==> self.model().threads[k] == te[k],
            decreases n - i,
        {
            let now = self.base_time;
            proof {
                assert(self.model().threads[i as int] == te[i as int]);
                assert(self.model().threads[i as int] == (
                    self.thread_stacks@[i as int].0,
                    self.thread_stacks@[i as int].1.model(),
                ));
            }
            let ghost spre = self.thread_stacks@;
            self.thread_stacks[i].1.sync(now);
            proof {
                assert(self.thread_stacks@ == spre.update(
                    i as int,
                    (spre[i as int].0, self.thread_stacks@[i as int].1),
                ));
                assert(self.thread_stacks@[i as int].1.model() == spec_stack_sync(
                    te[i as int].1,
                    old(self).base_time,
                ));
                assert(spec_sync_all(te, old(self).base_time)[i as int] == (
                    te[i as int].0,
                    spec_stack_sync(te[i as int].1, old(self).base_time),
                ));
                assert(forall|k: int|
                    0 <= k < self.model().threads.len() && k != i ==> self.model().threads[k]
                        == spre.map_values(
                        |p: (u32, ThreadStack)| (p.0, p.1.model()),
                    )[k]);
            }
            i = i + 1;
        }
        proof {
            assert(self.model().threads =~= spec_sync_all(te, old(self).base_time));
        }
    }

    /// Removes the stack of thread `tid`, if it has one.
    fn remove_stack(&mut self, tid: u32)
        requires
            old(self).wf(),
        ensures
            final(self).wf(),
            final(self).model().threads == spec_remove_thread(old(self).model().threads, tid),
            final(self).base_time == old(self).base_time,
            final(self).last_thread_id == old(self).last_thread_id,
            final(self).exited_threads@ == old(self).exited_threads@,
            final(self).max_buffer_size == old(self).max_buffer_size,
    {
        let ghost view = self.model().threads;
        let n = self.thread_stacks.len();
        let mut i: usize = 0;
        proof {
            assert(view.skip(0) =~= view);
        }
        while i < n && self.thread_stacks[i].0 < tid
            invariant
                i <= n,
                n == self.thread_stacks@.len(),
                view == self.model().threads,
                *self == *old(self),
                spec_ts_lower_bound(view, tid) == i + spec_ts_lower_bound(
                    view.skip(i as int),
                    tid,
                ),
            decreases n - i,
        {
            proof {
                assert(view.skip(i as int)[0] == view[i as int]);
                assert(view.skip(i as int).drop_first() =~= view.skip(i + 1));
            }
            i = i + 1;
        }
        proof {
            if i < n {
                assert(view.skip(i as int)[0] == view[i as int]);
            } else {
                assert(view.skip(i as int).len() == 0);
            }
        }
        if i < self.thread_stacks.len() && self.thread_stacks[i].0 == tid {
            self.thread_stacks.remove(i);
            proof {
                assert(self.model().threads =~= view.remove(i as int));
            }
        }
    }

    /// The stack of thread `tid`, if it has one: the thread at the ordered
    /// position with a matching id.
    pub fn thread_stack(&self, tid: u32) -> (r: Option<&ThreadStack>)
        ensures
            ({
                let i = spec_ts_lower_bound(self.model().threads, tid);
                if i < self.model().threads.len() && self.model().threads[i].0 == tid {
                    r is Some && r.unwrap().model() == self.model().threads[i].1
                } else {
                    r is None
                }
            }),
    {
        let ghost view = self.model().threads;
        let n = self.thread_stacks.len();
        let mut i: usize = 0;
        proof {
            assert(view.skip(0) =~= view);
        }
        while i < n && self.thread_stacks[i].0 < tid
            invariant
                i <= n,
                n == self.thread_stacks@.len(),
                view == self.model().threads,
                spec_ts_lower_bound(view, tid) == i + spec_ts_lower_bound(
                    view.skip(i as int),
                    tid,
                ),
            decreases n - i,
        {
            proof {
                assert(view.skip(i as int)[0] == view[i as int]);
                assert(view.skip(i as int).drop_first() =~= view.skip(i + 1));
            }
            i = i + 1;
        }
        proof {
            if i < n {
                assert(view.skip(i as int)[0] == view[i as int]);
            } else {
                assert(view.skip(i as int).len() == 0);
            }
        }
        if i < self.thread_stacks.len() && self.thread_stacks[i].0 == tid {
            Some(&self.thread_stacks[i].1)
        } else {
            None
        }
    }

    /// The stack drawn on screen row `lane`, counting rows in thread-id
    /// order.
    pub fn lane(&self, lane: usize) -> (r: Option<&ThreadStack>)
        ensures
            lane < self.model().threads.len() ==> r is Some && r.unwrap().model() == self.model()
                .threads[lane as int].1,
            lane >= self.model().threads.len() ==> r is None,
    {
        if lane < self.thread_stacks.len() {
            Some(&self.thread_stacks[lane].1)
        } else {
            None
        }
    }
}

} // verus!
