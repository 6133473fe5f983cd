//! Call-stack reconstruction from the event stream.
//!
//! `FastTrace` is the cheap mirror the ingestion thread keeps in sync with
//! the stream: per-thread stacks of method ids only.  `SlowTrace` turns a
//! span of events plus a `FastTrace` snapshot taken at the span's start into
//! per-thread `CallBox` geometry.

use vstd::prelude::*;

use crate::event::{
    spec_event_type, spec_time_hi, spec_time_lo, spec_timestamp, RRProfTraceEvent,
    RRProfTraceEventType,
};

verus! {

/// GPU-visible record for one continuous span during which a method was on a
/// thread's stack.  Times are stored in the split `[lo31, hi32]` encoding.
#[derive(Copy, Clone, PartialEq, Eq, Structural, Debug)]
pub struct CallBox {
    pub start_lo: u32,
    pub start_hi: u32,
    pub end_lo: u32,
    pub end_hi: u32,
    pub method_id: u32,
    pub depth: u32,
}

/// The box for a call of `method_id` at `depth` spanning `start..end`, with
/// both times split-encoded.  An open box carries `end == u64::MAX`.
pub open spec fn spec_call_box(start: u64, end: u64, method_id: u64, depth: u32) -> CallBox {
    CallBox {
        start_lo: spec_time_lo(start),
        start_hi: spec_time_hi(start),
        end_lo: spec_time_lo(end),
        end_hi: spec_time_hi(end),
        method_id: method_id as u32,
        depth,
    }
}

impl CallBox {
    /// Builds the box for a call of `method_id` at `depth` spanning
    /// `start..end`; pass `u64::MAX` as `end` for a still-open box.
    pub fn new(start: u64, end: u64, method_id: u64, depth: u32) -> (r: CallBox)
        ensures
            r == spec_call_box(start, end, method_id, depth),
    {
        let s = crate::event::encode_time(start);
        let e = crate::event::encode_time(end);
        CallBox {
            start_lo: s[0],
            start_hi: s[1],
            end_lo: e[0],
            end_hi: e[1],
            method_id: #[verifier::truncate] (method_id as u32),
            depth,
        }
    }

    /// The split-encoded end time of the open sentinel, `u64::MAX`.
    pub open spec fn spec_open_end() -> (u32, u32) {
        (spec_time_lo(u64::MAX), spec_time_hi(u64::MAX))
    }

    /// Whether this box is still open: its end is the `u64::MAX` sentinel.
    pub open spec fn spec_is_open(self) -> bool {
        (self.end_lo, self.end_hi) == Self::spec_open_end()
    }

    /// Replaces the end time, closing (or re-opening) the box.
    pub fn set_end(&mut self, end: u64)
        ensures
            *final(self) == (CallBox {
                end_lo: spec_time_lo(end),
                end_hi: spec_time_hi(end),
                ..*old(self)
            }),
    {
        let e = crate::event::encode_time(end);
        self.end_lo = e[0];
        self.end_hi = e[1];
    }

    /// Whether this box is still open: its end is the `u64::MAX` sentinel.
    pub fn is_open(&self) -> (r: bool)
        ensures
            r == self.spec_is_open(),
    {
        proof {
            assert(u64::MAX & 0x7fff_ffff == 0x7fff_ffff) by (bit_vector);
            assert((u64::MAX >> 31) & 0xffff_ffff == 0xffff_ffff) by (bit_vector);
        }
        self.end_lo == 0x7fff_ffff && self.end_hi == 0xffff_ffff
    }

    /// The decoded start time.
    pub fn start(&self) -> (t: u64)
        ensures
            t == crate::event::spec_decode_time(self.start_lo, self.start_hi),
    {
        crate::event::decode_time(self.start_lo, self.start_hi)
    }

    /// The decoded end time; `u64::MAX` decodes to `2^63 - 1`.
    pub fn end(&self) -> (t: u64)
        ensures
            t == crate::event::spec_decode_time(self.end_lo, self.end_hi),
    {
        crate::event::decode_time(self.end_lo, self.end_hi)
    }
}

/// A maximally cheap mirror of the producer's call state: an ordered list of
/// `(thread id, stack of method ids)`, the index of the current thread in
/// that list (`u32::MAX` while suspended), and whether the last batch ended
/// inside a garbage-collection pause.
#[derive(Clone, Debug)]
pub struct FastTrace {
    thread_stacks: Vec<(u32, Vec<u64>)>,
    current_thread: u32,
    in_gc: bool,
}

/// Pops entries off `stack` until the popped entry equals `m` or the stack
/// runs out: the unwinding a `Return` event performs.
pub open spec fn spec_pop_until(stack: Seq<u64>, m: u64) -> Seq<u64>
    decreases stack.len(),
{
    if stack.len() == 0 {
        stack
    } else {
        let rest = stack.drop_last();
        if stack.last() == m {
            rest
        } else {
            spec_pop_until(rest, m)
        }
    }
}

/// The insertion point of `tid` in a list ordered by thread id: the index of
/// the first entry whose id is not below `tid`.
pub open spec fn spec_thread_lower_bound(threads: Seq<(u32, Seq<u64>)>, tid: u32) -> int
    decreases threads.len(),
{
    if threads.len() == 0 {
        0
    } else if threads[0].0 >= tid {
        0
    } else {
        1 + spec_thread_lower_bound(threads.drop_first(), tid)
    }
}

/// One event's effect on the mirror state `(threads, current)`.  A `Call` or
/// `Return` while no current thread is selected is dropped, as is an event
/// with a reserved kind code.
pub open spec fn spec_fast_step(
    threads: Seq<(u32, Seq<u64>)>,
    current: u32,
    ev: RRProfTraceEvent,
) -> (Seq<(u32, Seq<u64>)>, u32) {
    let c = current as int;
    match spec_event_type(ev.timestamp_and_event_type) {
        Some(RRProfTraceEventType::Call) => {
            if c < threads.len() {
                (threads.update(c, (threads[c].0, threads[c].1.push(ev.data))), current)
            } else {
                (threads, current)
            }
        },
        Some(RRProfTraceEventType::Return) => {
            if c < threads.len() {
                (threads.update(c, (threads[c].0, spec_pop_until(threads[c].1, ev.data))), current)
            } else {
                (threads, current)
            }
        },
        Some(RRProfTraceEventType::ThreadSuspended) => (threads, u32::MAX),
        Some(RRProfTraceEventType::ThreadResume) => {
            let tid = ev.data as u32;
            let i = spec_thread_lower_bound(threads, tid);
            if i < threads.len() && threads[i].0 == tid {
                (threads, i as u32)
            } else {
                (threads.insert(i, (tid, Seq::empty())), i as u32)
            }
        },
        Some(RRProfTraceEventType::ThreadExit) => {
            let tid = ev.data as u32;
            let i = spec_thread_lower_bound(threads, tid);
            if i < threads.len() && threads[i].0 == tid {
                (threads.remove(i), current)
            } else {
                (threads, current)
            }
        },
        _ => (threads, current),
    }
}

/// The mirror state after a whole batch, folding `spec_fast_step` over the
/// events from the front.
pub open spec fn spec_fast_process(
    threads: Seq<(u32, Seq<u64>)>,
    current: u32,
    events: Seq<RRProfTraceEvent>,
) -> (Seq<(u32, Seq<u64>)>, u32)
    decreases events.len(),
{
    if events.len() == 0 {
        (threads, current)
    } else {
        let stepped = spec_fast_step(threads, current, events[0]);
        spec_fast_process(stepped.0, stepped.1, events.drop_first())
    }
}

impl FastTrace {
    /// The per-thread stacks as a sequence of `(thread id, method ids)`.
    pub closed spec fn threads(self) -> Seq<(u32, Seq<u64>)> {
        self.thread_stacks@.map_values(|p: (u32, Vec<u64>)| (p.0, p.1@))
    }

    /// The index of the current thread in the list, `u32::MAX` if none.
    pub closed spec fn current(self) -> u32 {
        self.current_thread
    }

    /// Whether the last processed batch ended with `GCStart`.
    pub closed spec fn gc(self) -> bool {
        self.in_gc
    }

    /// The fresh mirror: a single thread with id 0 and an empty stack, which
    /// is where calls seen before any `ThreadResume` are attributed.
    pub fn new() -> (r: FastTrace)
        ensures
            r.threads() == seq![(0u32, Seq::<u64>::empty())],
            r.current() == 0,
            !r.gc(),
    {
        let thread_stacks: Vec<(u32, Vec<u64>)> = vec![(0u32, Vec::new())];
        let r = FastTrace { thread_stacks, current_thread: 0, in_gc: false };
        proof {
            assert(r.threads() =~= seq![(0u32, Seq::<u64>::empty())]);
        }
        r
    }

    /// How many threads the mirror tracks.
    pub fn thread_count(&self) -> (n: usize)
        ensures
            n == self.threads().len(),
    {
        self.thread_stacks.len()
    }

    /// The depth of the thread at position `i` of the ordered list.
    pub fn stack_len_of(&self, i: usize) -> (n: usize)
        requires
            i < self.threads().len(),
        ensures
            n == self.threads()[i as int].1.len(),
    {
        self.thread_stacks[i].1.len()
    }

    /// The list position of the current thread, `u32::MAX` while none.
    pub fn current_index(&self) -> (c: u32)
        ensures
            c == self.current(),
    {
        self.current_thread
    }

    /// Whether the last processed batch ended with `GCStart`.
    pub fn gc_flag(&self) -> (g: bool)
        ensures
            g == self.gc(),
    {
        self.in_gc
    }

    /// The insertion point of `tid`: the count of leading entries whose
    /// thread id is below `tid`.
    fn lower_bound(&self, tid: u32) -> (i: usize)
        ensures
            i == spec_thread_lower_bound(self.threads(), tid),
            i <= self.thread_stacks@.len(),
    {
        let ghost view = self.threads();
        let n = self.thread_stacks.len();
        let mut i: usize = 0;
        proof {
            assert(view.skip(0) =~= view);
        }
        while i < n && self.thread_stacks[i].0 < tid
            invariant
                i <= n,
                n == self.thread_stacks@.len(),
                view == self.threads(),
                spec_thread_lower_bound(view, tid) == i + spec_thread_lower_bound(
                    view.skip(i as int),
                    tid,
                ),
            decreases n - i,
        {
            proof {
                assert(view.skip(i as int)[0] == view[i as int]);
                assert(view.skip(i as int).drop_first() =~= view.skip(i + 1));
            }
            i = i + 1;
        }
        proof {
            if i < n {
                assert(view.skip(i as int)[0] == view[i as int]);
                assert(spec_thread_lower_bound(view.skip(i as int), tid) == 0);
            } else {
                assert(view.skip(i as int).len() == 0);
            }
        }
        i
    }

    /// Applies a batch of events to the mirror.  The stacks and current
    /// thread change exactly as the fold of the one-event step; the GC flag
    /// afterwards says whether the batch ended with `GCStart`.
    pub fn process_events(&mut self, events: &[RRProfTraceEvent])
        requires
            events@.len() > 0,
        ensures
            final(self).threads() == spec_fast_process(
                old(self).threads(),
                old(self).current(),
                events@,
            ).0,
            final(self).current() == spec_fast_process(
                old(self).threads(),
                old(self).current(),
                events@,
            ).1,
            final(self).gc() == (spec_event_type(events@.last().timestamp_and_event_type)
                == Some(RRProfTraceEventType::GCStart)),
    {
        let ghost t0 = self.threads();
        let ghost c0 = self.current_thread;
        let n = events.len();
        let mut j: usize = 0;
        proof {
            assert(events@.skip(0) =~= events@);
        }
        while j < n
            invariant
                j <= n,
                n == events@.len(),
                spec_fast_process(t0, c0, events@) == spec_fast_process(
                    self.threads(),
                    self.current_thread,
                    events@.skip(j as int),
                ),
            decreases n - j,
        {
            let ghost pre = self.threads();
            let ghost cpre = self.current_thread;
            let ev = events[j];
            proof {
                assert(events@.skip(j as int)[0] == events@[j as int]);
                assert(events@.skip(j as int).drop_first() =~= events@.skip(j + 1));
            }
            match ev.event_type() {
                Some(RRProfTraceEventType::Call) => {
                    let c = self.current_thread as usize;
                    if c < self.thread_stacks.len() {
                        self.thread_stacks[c].1.push(ev.data);
                        proof {
                            assert(self.threads() =~= spec_fast_step(pre, cpre, ev).0);
                        }
                    }
                },
                Some(RRProfTraceEventType::Return) => {
                    let c = self.current_thread as usize;
                    if c < self.thread_stacks.len() {
                        self.pop_until(c, ev.data);
                        proof {
                            assert(self.threads() =~= spec_fast_step(pre, cpre, ev).0);
                        }
                    }
                },
                Some(RRProfTraceEventType::ThreadSuspended) => {
                    self.current_thread = u32::MAX;
                },
                Some(RRProfTraceEventType::ThreadResume) => {
                    let tid = #[verifier::truncate] (ev.data as u32);
                    let i = self.lower_bound(tid);
                    if !(i < self.thread_stacks.len() && self.thread_stacks[i].0 == tid) {
                        self.thread_stacks.insert(i, (tid, Vec::new()));
                        proof {
                            assert(self.threads() =~= pre.insert(
                                i as int,
                                (tid, Seq::<u64>::empty()),
                            ));
                        }
                    }
                    self.current_thread = #[verifier::truncate] (i as u32);
                },
                Some(RRProfTraceEventType::ThreadExit) => {
                    let tid = #[verifier::truncate] (ev.data as u32);
                    let i = self.lower_bound(tid);
                    if i < self.thread_stacks.len() && self.thread_stacks[i].0 == tid {
                        self.thread_stacks.remove(i);
                        proof {
                            assert(self.threads() =~= pre.remove(i as int));
                        }
                    }
                },
                _ => {},
            }
            proof {
                assert((self.threads(), self.current_thread) == spec_fast_step(pre, cpre, ev));
            }
            j = j + 1;
        }
        proof {
            assert(events@.skip(n as int).len() == 0);
        }
        let last = events[n - 1];
        self.in_gc = match last.event_type() {
            Some(RRProfTraceEventType::GCStart) => true,
            _ => false,
        };
        proof {
            assert(events@.last() == events@[n - 1]);
        }
    }

    /// Pops entries off the stack of thread entry `c` until the popped
    /// method id equals `m` or the stack runs out.
    fn pop_until(&mut self, c: usize, m: u64)
        requires
            c < old(self).thread_stacks@.len(),
        ensures
            final(self).thread_stacks@ == old(self).thread_stacks@.update(
                c as int,
                (old(self).thread_stacks@[c as int].0, final(self).thread_stacks@[c as int].1),
            ),
            final(self).thread_stacks@[c as int].1@ == spec_pop_until(
                old(self).thread_stacks@[c as int].1@,
                m,
            ),
            final(self).current_thread == old(self).current_thread,
            final(self).in_gc == old(self).in_gc,
    {
        let ghost orig = self.thread_stacks@;
        proof {
            assert(orig.update(c as int, (orig[c as int].0, orig[c as int].1)) =~= orig);
        }
        loop
            invariant_except_break
                spec_pop_until(orig[c as int].1@, m) == spec_pop_until(
                    self.thread_stacks@[c as int].1@,
                    m,
                ),
            invariant
                c < self.thread_stacks@.len(),
                self.thread_stacks@.len() == orig.len(),
                self.thread_stacks@ == orig.update(
                    c as int,
                    (orig[c as int].0, self.thread_stacks@[c as int].1),
                ),
                self.current_thread == old(self).current_thread,
                self.in_gc == old(self).in_gc,
            ensures
                self.thread_stacks@[c as int].1@ == spec_pop_until(orig[c as int].1@, m),
            decreases self.thread_stacks@[c as int].1@.len(),
        {
            let ghost before = self.thread_stacks@[c as int].1@;
            let popped = self.thread_stacks[c].1.pop();
            proof {
                assert(self.thread_stacks@ =~= orig.update(
                    c as int,
                    (orig[c as int].0, self.thread_stacks@[c as int].1),
                ));
            }
            match popped {
                None => {
                    proof {
                        assert(before.len() == 0);
                    }
                    break ;
                },
                Some(x) => {
                    proof {
                        assert(x == before.last());
                        assert(self.thread_stacks@[c as int].1@ == before.drop_last());
                    }
                    if x == m {
                        break ;
                    }
                },
            }
        }
    }
}


/// One frame of a reconstructed call stack: the index of the box currently
/// drawing the frame (`usize::MAX` while the frame has no open box) and the
/// method id that was pushed.
#[derive(Copy, Clone, PartialEq, Eq, Structural, Debug)]
pub struct CallStackEntry {
    pub vertex_index: usize,
    pub method_id: u64,
}

/// One thread's share of a `SlowTrace` result: its id, its stack at the end
/// of the batch, and every box the batch produced for it.
#[derive(Clone, Debug)]
pub struct SlowThread {
    pub thread_id: u32,
    pub stack: Vec<CallStackEntry>,
    pub boxes: Vec<CallBox>,
}

/// The state the replay of a batch walks over: the per-thread results, which
/// of them the events currently apply to (`None` while no thread is
/// selected), and a scratch pair that absorbs events arriving while none is.
pub struct SlowReplay {
    pub data: Seq<(u32, Seq<CallStackEntry>, Seq<CallBox>)>,
    pub current: Option<int>,
    pub scratch_stack: Seq<CallStackEntry>,
    pub scratch_boxes: Seq<CallBox>,
}

/// The stack the next event applies to.
pub open spec fn st_stack(st: SlowReplay) -> Seq<CallStackEntry> {
    match st.current {
        Some(i) => st.data[i].1,
        None => st.scratch_stack,
    }
}

/// The box list the next event applies to.
pub open spec fn st_boxes(st: SlowReplay) -> Seq<CallBox> {
    match st.current {
        Some(i) => st.data[i].2,
        None => st.scratch_boxes,
    }
}

/// Writes a new stack and box list back to whatever the events currently
/// apply to.
pub open spec fn st_with(st: SlowReplay, stack: Seq<CallStackEntry>, boxes: Seq<CallBox>) -> SlowReplay {
    match st.current {
        Some(i) => SlowReplay { data: st.data.update(i, (st.data[i].0, stack, boxes)), ..st },
        None => SlowReplay { scratch_stack: stack, scratch_boxes: boxes, ..st },
    }
}

/// Closing one frame's box at `now`: a frame whose index is stale (the
/// `usize::MAX` sentinel, or past the list) leaves the boxes untouched.
pub open spec fn spec_close_frame(boxes: Seq<CallBox>, idx: usize, now: u64) -> Seq<CallBox> {
    if idx < boxes.len() {
        boxes.update(
            idx as int,
            CallBox { end_lo: spec_time_lo(now), end_hi: spec_time_hi(now), ..boxes[idx as int] },
        )
    } else {
        boxes
    }
}

/// The boxes after closing every frame of `stack` at `now`, front to back.
pub open spec fn spec_close_boxes(stack: Seq<CallStackEntry>, boxes: Seq<CallBox>, now: u64) -> Seq<CallBox>
    decreases stack.len(),
{
    if stack.len() == 0 {
        boxes
    } else {
        spec_close_boxes(stack.drop_first(), spec_close_frame(boxes, stack[0].vertex_index, now), now)
    }
}

/// Every frame with its box index struck out, as a cut leaves the stack.
pub open spec fn spec_invalidate(stack: Seq<CallStackEntry>) -> Seq<CallStackEntry> {
    stack.map_values(
        |e: CallStackEntry| CallStackEntry { vertex_index: usize::MAX, method_id: e.method_id },
    )
}

/// The unwinding a `Return` performs: pop frames, closing each popped
/// frame's box at `now`, until the popped method id equals `m`.
pub open spec fn spec_slow_return(
    stack: Seq<CallStackEntry>,
    boxes: Seq<CallBox>,
    m: u64,
    now: u64,
) -> (Seq<CallStackEntry>, Seq<CallBox>)
    decreases stack.len(),
{
    if stack.len() == 0 {
        (stack, boxes)
    } else {
        let e = stack.last();
        let s1 = stack.drop_last();
        let b1 = spec_close_frame(boxes, e.vertex_index, now);
        if e.method_id == m {
            (s1, b1)
        } else {
            spec_slow_return(s1, b1, m, now)
        }
    }
}

/// Reopening every frame of `stack` as a fresh box `now..end`, front to
/// back; `pos` is the depth of the first frame.
pub open spec fn spec_reopen_all(
    stack: Seq<CallStackEntry>,
    boxes: Seq<CallBox>,
    pos: int,
    now: u64,
    end: u64,
) -> (Seq<CallStackEntry>, Seq<CallBox>)
    decreases stack.len(),
{
    if stack.len() == 0 {
        (stack, boxes)
    } else {
        let e1 = CallStackEntry {
            vertex_index: boxes.len() as usize,
            method_id: stack[0].method_id,
        };
        let b1 = boxes.push(spec_call_box(now, end, stack[0].method_id, pos as u32));
        let rest = spec_reopen_all(stack.drop_first(), b1, pos + 1, now, end);
        (seq![e1] + rest.0, rest.1)
    }
}

/// The insertion point of `tid` among the per-thread results.
pub open spec fn spec_slow_lower_bound(
    data: Seq<(u32, Seq<CallStackEntry>, Seq<CallBox>)>,
    tid: u32,
) -> int
    decreases data.len(),
{
    if data.len() == 0 {
        0
    } else if data[0].0 >= tid {
        0
    } else {
        1 + spec_slow_lower_bound(data.drop_first(), tid)
    }
}

/// One event's effect on the replay state; `end` is the batch's end time,
/// which every newly opened box provisionally carries.  A resumption first
/// switches the current thread (creating its entry if needed), then
/// reopens every frame of the resumed stack, as a collection end does.
pub open spec fn spec_slow_step(st: SlowReplay, ev: RRProfTraceEvent, end: u64) -> SlowReplay {
    let now = spec_timestamp(ev.timestamp_and_event_type);
    let stack = st_stack(st);
    let boxes = st_boxes(st);
    match spec_event_type(ev.timestamp_and_event_type) {
        Some(RRProfTraceEventType::Call) => {
            let e = CallStackEntry { vertex_index: boxes.len() as usize, method_id: ev.data };
            st_with(
                st,
                stack.push(e),
                boxes.push(spec_call_box(now, end, ev.data, stack.len() as u32)),
            )
        },
        Some(RRProfTraceEventType::Return) => {
            let r = spec_slow_return(stack, boxes, ev.data, now);
            st_with(st, r.0, r.1)
        },
        Some(RRProfTraceEventType::GCStart) => {
            st_with(st, spec_invalidate(stack), spec_close_boxes(stack, boxes, now))
        },
        Some(RRProfTraceEventType::ThreadSuspended) => {
            st_with(st, spec_invalidate(stack), spec_close_boxes(stack, boxes, now))
        },
        Some(RRProfTraceEventType::GCEnd) => {
            let r = spec_reopen_all(stack, boxes, 0, now, end);
            st_with(st, r.0, r.1)
        },
        Some(RRProfTraceEventType::ThreadResume) => {
            let tid = ev.data as u32;
            let i = spec_slow_lower_bound(st.data, tid);
            let data1 = if i < st.data.len() && st.data[i].0 == tid {
                st.data
            } else {
                st.data.insert(i, (tid, Seq::empty(), Seq::empty()))
            };
            let th = data1[i];
            let r = spec_reopen_all(th.1, th.2, 0, now, end);
            SlowReplay { data: data1.update(i, (th.0, r.0, r.1)), current: Some(i), ..st }
        },
        _ => st,
    }
}

/// The replay state after a whole batch, folding `spec_slow_step` from the
/// front.
pub open spec fn spec_slow_process(st: SlowReplay, events: Seq<RRProfTraceEvent>, end: u64) -> SlowReplay
    decreases events.len(),
{
    if events.len() == 0 {
        st
    } else {
        spec_slow_process(spec_slow_step(st, events[0], end), events.drop_first(), end)
    }
}

/// A frame as the seed carries it: no box yet, only the method id.
pub open spec fn spec_seed_entry(m: u64) -> CallStackEntry {
    CallStackEntry { vertex_index: usize::MAX, method_id: m }
}

/// The seed the replay starts from: every mirrored stack as frames without
/// boxes.
pub open spec fn spec_seed_threads(threads: Seq<(u32, Seq<u64>)>) -> Seq<
    (u32, Seq<CallStackEntry>, Seq<CallBox>),
> {
    threads.map_values(
        |p: (u32, Seq<u64>)|
            (p.0, p.1.map_values(|m: u64| spec_seed_entry(m)), Seq::<CallBox>::empty()),
    )
}

/// A seed frame at depth `d` once its box is drawn.
pub open spec fn spec_mat_entry(d: int, e: CallStackEntry) -> CallStackEntry {
    CallStackEntry { vertex_index: d as usize, method_id: e.method_id }
}

/// The box drawn for a seed frame at depth `d`, spanning the whole batch.
pub open spec fn spec_mat_box(start: u64, end: u64, d: int, e: CallStackEntry) -> CallBox {
    spec_call_box(start, end, e.method_id, d as u32)
}

/// One thread's seed with each already-open frame drawn as a box spanning
/// the whole batch, as the current thread gets unless the batch starts
/// inside a garbage-collection pause.
pub open spec fn spec_materialize(
    th: (u32, Seq<CallStackEntry>, Seq<CallBox>),
    start: u64,
    end: u64,
) -> (u32, Seq<CallStackEntry>, Seq<CallBox>) {
    (
        th.0,
        th.1.map(|d: int, e: CallStackEntry| spec_mat_entry(d, e)),
        th.1.map(|d: int, e: CallStackEntry| spec_mat_box(start, end, d, e)),
    )
}

/// The per-thread geometry a batch produces: seed from the mirror snapshot,
/// draw the current thread's already-open frames, then replay the events.
pub open spec fn spec_slow_trace(
    start_time: u64,
    threads: Seq<(u32, Seq<u64>)>,
    current: u32,
    in_gc: bool,
    events: Seq<RRProfTraceEvent>,
) -> Seq<(u32, Seq<CallStackEntry>, Seq<CallBox>)> {
    let end = spec_timestamp(events.last().timestamp_and_event_type);
    let seeded = spec_seed_threads(threads);
    let c = current as int;
    let seeded2 = if !in_gc && c < seeded.len() {
        seeded.update(c, spec_materialize(seeded[c], start_time, end))
    } else {
        seeded
    };
    let st0 = SlowReplay {
        data: seeded2,
        current: if c < seeded.len() {
            Some(c)
        } else {
            None
        },
        scratch_stack: Seq::empty(),
        scratch_boxes: Seq::empty(),
    };
    spec_slow_process(st0, events, end).data
}


/// Closes every frame's box at `now` and strikes the frames' indices out,
/// as a garbage-collection start or a thread suspension does.
fn close_all(stack: &mut Vec<CallStackEntry>, boxes: &mut Vec<CallBox>, now: u64)
    ensures
        final(stack)@ == spec_invalidate(old(stack)@),
        final(boxes)@ == spec_close_boxes(old(stack)@, old(boxes)@, now),
{
    let ghost s0 = stack@;
    let ghost b0 = boxes@;
    let n = stack.len();
    let mut i: usize = 0;
    proof {
        assert(s0.skip(0) =~= s0);
        assert(spec_invalidate(s0).take(0) + s0.skip(0) =~= s0);
    }
    while i < n
        invariant
            i <= n,
            n == stack@.len(),
            s0.len() == n,
            stack@ == spec_invalidate(s0).take(i as int) + s0.skip(i as int),
            spec_close_boxes(s0, b0, now) == spec_close_boxes(s0.skip(i as int), boxes@, now),
        decreases n - i,
    {
        proof {
            assert(s0.skip(i as int)[0] == s0[i as int]);
            assert(stack@[i as int] == s0[i as int]);
            assert(s0.skip(i as int).drop_first() =~= s0.skip(i + 1));
        }
        let ghost bpre = boxes@;
        let idx = stack[i].vertex_index;
        if idx < boxes.len() {
            let e = crate::event::encode_time(now);
            boxes[idx].end_lo = e[0];
            boxes[idx].end_hi = e[1];
        }
        proof {
            assert(boxes@ =~= spec_close_frame(bpre, idx, now));
        }
        stack[i].vertex_index = usize::MAX;
        proof {
            assert(stack@ =~= spec_invalidate(s0).take(i + 1) + s0.skip(i + 1));
        }
        i = i + 1;
    }
    proof {
        assert(s0.skip(n as int).len() == 0);
        assert(stack@ =~= spec_invalidate(s0));
    }
}

/// Appends one frame and its provisionally open box for a `Call` of `m` at
/// `now`, inside a batch ending at `end`.
fn push_call(stack: &mut Vec<CallStackEntry>, boxes: &mut Vec<CallBox>, m: u64, now: u64, end: u64)
    ensures
        final(stack)@ == old(stack)@.push(
            CallStackEntry { vertex_index: old(boxes)@.len() as usize, method_id: m },
        ),
        final(boxes)@ == old(boxes)@.push(spec_call_box(now, end, m, old(stack)@.len() as u32)),
{
    let vertex_index = boxes.len();
    let depth = stack.len();
    stack.push(CallStackEntry { vertex_index, method_id: m });
    boxes.push(CallBox::new(now, end, m, #[verifier::truncate] (depth as u32)));
}

/// Pops frames for a `Return` of `m` at `now`, closing each popped frame's
/// box, until the popped method id equals `m`.
fn return_pop(stack: &mut Vec<CallStackEntry>, boxes: &mut Vec<CallBox>, m: u64, now: u64)
    ensures
        final(stack)@ == spec_slow_return(old(stack)@, old(boxes)@, m, now).0,
        final(boxes)@ == spec_slow_return(old(stack)@, old(boxes)@, m, now).1,
{
    let ghost s0 = stack@;
    let ghost b0 = boxes@;
    loop
        invariant_except_break
            spec_slow_return(s0, b0, m, now) == spec_slow_return(stack@, boxes@, m, now),
        ensures
            stack@ == spec_slow_return(s0, b0, m, now).0,
            boxes@ == spec_slow_return(s0, b0, m, now).1,
        decreases stack@.len(),
    {
        let ghost spre = stack@;
        let ghost bpre = boxes@;
        let popped = stack.pop();
        match popped {
            None => {
                proof {
                    assert(spre.len() == 0);
                }
                break ;
            },
            Some(e) => {
                proof {
                    assert(e == spre.last());
                    assert(stack@ == spre.drop_last());
                }
                if e.vertex_index < boxes.len() {
                    let enc = crate::event::encode_time(now);
                    boxes[e.vertex_index].end_lo = enc[0];
                    boxes[e.vertex_index].end_hi = enc[1];
                }
                proof {
                    assert(boxes@ =~= spec_close_frame(bpre, e.vertex_index, now));
                }
                if e.method_id == m {
                    break ;
                }
            },
        }
    }
}

/// Reopens every frame of `stack` as a fresh box spanning `now..end`, as a
/// garbage-collection end or a thread resumption does.
fn reopen_all(stack: &mut Vec<CallStackEntry>, boxes: &mut Vec<CallBox>, now: u64, end: u64)
    ensures
        final(stack)@ == spec_reopen_all(old(stack)@, old(boxes)@, 0, now, end).0,
        final(boxes)@ == spec_reopen_all(old(stack)@, old(boxes)@, 0, now, end).1,
{
    let ghost s0 = stack@;
    let ghost b0 = boxes@;
    let ghost target = spec_reopen_all(s0, b0, 0, now, end);
    let n = stack.len();
    let mut i: usize = 0;
    proof {
        assert(s0.skip(0) =~= s0);
        assert(stack@.take(0) + spec_reopen_all(s0.skip(0), b0, 0, now, end).0 =~= target.0);
    }
    while i < n
        invariant
            i <= n,
            n == stack@.len(),
            s0.len() == n,
            stack@.skip(i as int) == s0.skip(i as int),
            target.0 == stack@.take(i as int) + spec_reopen_all(
                s0.skip(i as int),
                boxes@,
                i as int,
                now,
                end,
            ).0,
            target.1 == spec_reopen_all(s0.skip(i as int), boxes@, i as int, now, end).1,
        decreases n - i,
    {
        proof {
            assert(s0.skip(i as int)[0] == s0[i as int]);
            assert(stack@[i as int] == s0[i as int]);
            assert(s0.skip(i as int).drop_first() =~= s0.skip(i + 1));
        }
        let ghost spre = stack@;
        let ghost bpre = boxes@;
        let m = stack[i].method_id;
        let new_index = boxes.len();
        boxes.push(CallBox::new(now, end, m, #[verifier::truncate] (i as u32)));
        stack[i].vertex_index = new_index;
        proof {
            let e1 = CallStackEntry { vertex_index: bpre.len() as usize, method_id: m };
            assert(stack@[i as int] == e1);
            assert(stack@.take(i + 1) =~= spre.take(i as int) + seq![e1]);
            assert(stack@.take(i + 1) + spec_reopen_all(s0.skip(i + 1), boxes@, i + 1, now, end).0
                =~= spre.take(i as int) + (seq![e1] + spec_reopen_all(
                s0.skip(i + 1),
                boxes@,
                i + 1,
                now,
                end,
            ).0));
            assert(stack@.skip(i + 1) =~= s0.skip(i + 1));
        }
        i = i + 1;
    }
    proof {
        assert(s0.skip(n as int).len() == 0);
        assert(stack@.take(n as int) =~= stack@);
    }
}

/// The mirrored stack of one thread as seed frames: every frame carries the
/// `usize::MAX` sentinel until some event gives it a box.
fn seed_stack(src: &Vec<u64>) -> (r: Vec<CallStackEntry>)
    ensures
        r@ == src@.map_values(|m: u64| spec_seed_entry(m)),
{
    let mut r: Vec<CallStackEntry> = Vec::new();
    let n = src.len();
    let mut i: usize = 0;
    while i < n
        invariant
            i <= n,
            n == src@.len(),
            r@.len() == i,
            forall|j: int| 0 <= j < i ==> r@[j] == spec_seed_entry(src@[j]),
        decreases n - i,
    {
        r.push(CallStackEntry { vertex_index: usize::MAX, method_id: src[i] });
        i = i + 1;
    }
    proof {
        assert(r@ =~= src@.map_values(|m: u64| spec_seed_entry(m)));
    }
    r
}

/// Draws every seed frame of one thread as a box spanning the whole batch,
/// as the current thread gets when the batch does not start inside a
/// garbage-collection pause.
fn materialize(th: &mut SlowThread, start: u64, end: u64)
    requires
        old(th).boxes@.len() == 0,
    ensures
        final(th).thread_id == old(th).thread_id,
        final(th).stack@ == spec_materialize(
            (old(th).thread_id, old(th).stack@, old(th).boxes@),
            start,
            end,
        ).1,
        final(th).boxes@ == spec_materialize(
            (old(th).thread_id, old(th).stack@, old(th).boxes@),
            start,
            end,
        ).2,
{
    let ghost s0 = th.stack@;
    let n = th.stack.len();
    let mut d: usize = 0;
    while d < n
        invariant
            d <= n,
            n == th.stack@.len(),
            s0.len() == n,
            th.thread_id == old(th).thread_id,
            th.boxes@.len() == d,
            forall|j: int| 0 <= j < d ==> th.stack@[j] == spec_mat_entry(j, s0[j]),
            forall|j: int| d <= j < n ==> th.stack@[j] == s0[j],
            forall|j: int| 0 <= j < d ==> th.boxes@[j] == spec_mat_box(start, end, j, s0[j]),
        decreases n - d,
    {
        let m = th.stack[d].method_id;
        th.stack[d].vertex_index = d;
        th.boxes.push(CallBox::new(start, end, m, #[verifier::truncate] (d as u32)));
        d = d + 1;
    }
    proof {
        assert(th.stack@ =~= spec_materialize((old(th).thread_id, s0, old(th).boxes@), start, end).1);
        assert(th.boxes@ =~= spec_materialize((old(th).thread_id, s0, old(th).boxes@), start, end).2);
    }
}

/// The per-thread results of a replay, as the replay state sees them.
pub open spec fn spec_slow_view(data: Seq<SlowThread>) -> Seq<
    (u32, Seq<CallStackEntry>, Seq<CallBox>),
> {
    data.map_values(|t: SlowThread| (t.thread_id, t.stack@, t.boxes@))
}

/// The insertion point of `tid` among the per-thread results: the count of
/// leading entries whose thread id is below `tid`.
fn slow_lower_bound(data: &Vec<SlowThread>, tid: u32) -> (i: usize)
    ensures
        i == spec_slow_lower_bound(spec_slow_view(data@), tid),
        i <= data@.len(),
{
    let ghost view = spec_slow_view(data@);
    let n = data.len();
    let mut i: usize = 0;
    proof {
        assert(view.skip(0) =~= view);
    }
    while i < n && data[i].thread_id < tid
        invariant
            i <= n,
            n == data@.len(),
            view == spec_slow_view(data@),
            spec_slow_lower_bound(view, tid) == i + spec_slow_lower_bound(view.skip(i as int), tid),
        decreases n - i,
    {
        proof {
            assert(view.skip(i as int)[0] == view[i as int]);
            assert(view.skip(i as int).drop_first() =~= view.skip(i + 1));
        }
        i = i + 1;
    }
    proof {
        if i < n {
            assert(view.skip(i as int)[0] == view[i as int]);
        } else {
            assert(view.skip(i as int).len() == 0);
        }
    }
    i
}

/// The replay state assembled from the working values of `SlowTrace::trace`.
pub open spec fn st_of(
    data: Seq<SlowThread>,
    current: Option<usize>,
    scratch_stack: Seq<CallStackEntry>,
    scratch_boxes: Seq<CallBox>,
) -> SlowReplay {
    SlowReplay {
        data: spec_slow_view(data),
        current: match current {
            Some(c) => Some(c as int),
            None => None,
        },
        scratch_stack,
        scratch_boxes,
    }
}

/// A batch's worth of per-thread `CallBox` geometry, relative to the shared
/// clock.
pub struct SlowTrace {
    data: Vec<SlowThread>,
    end_time: u64,
}

impl SlowTrace {
    /// The per-thread results: `(thread id, final stack, boxes)`.
    pub closed spec fn spec_data(self) -> Seq<(u32, Seq<CallStackEntry>, Seq<CallBox>)> {
        spec_slow_view(self.data@)
    }

    /// The timestamp of the batch's last event.
    pub closed spec fn spec_end_time(self) -> u64 {
        self.end_time
    }

    /// Converts a span of events plus the mirror snapshot taken at the
    /// span's start into per-thread call-box geometry: exactly the seed,
    /// materialize, replay pipeline of `spec_slow_trace`.
    pub fn trace(start_time: u64, fast_trace: FastTrace, events: &[RRProfTraceEvent]) -> (r:
        SlowTrace)
        requires
            events@.len() > 0,
        ensures
            r.spec_data() == spec_slow_trace(
                start_time,
                fast_trace.threads(),
                fast_trace.current(),
                fast_trace.gc(),
                events@,
            ),
            r.spec_end_time() == spec_timestamp(events@.last().timestamp_and_event_type),
    {
        let ghost t0 = fast_trace.threads();
        let ghost seeded = spec_seed_threads(t0);
        let end_time = events[events.len() - 1].timestamp();
        let ghost end = end_time;
        let FastTrace { thread_stacks, current_thread, in_gc } = fast_trace;
        let nt = thread_stacks.len();
        let mut data: Vec<SlowThread> = Vec::new();
        let mut k: usize = 0;
        proof {
            assert(spec_slow_view(data@) =~= seeded.take(0));
        }
        while k < nt
            invariant
                k <= nt,
                nt == thread_stacks@.len(),
                t0 == thread_stacks@.map_values(|p: (u32, Vec<u64>)| (p.0, p.1@)),
                seeded == spec_seed_threads(t0),
                data@.len() == k,
                spec_slow_view(data@) == seeded.take(k as int),
            decreases nt - k,
        {
            let entry_stack = seed_stack(&thread_stacks[k].1);
            data.push(
                SlowThread { thread_id: thread_stacks[k].0, stack: entry_stack, boxes: Vec::new() },
            );
            proof {
                assert(t0[k as int] == (thread_stacks@[k as int].0, thread_stacks@[k as int].1@));
                assert(seeded[k as int] == (
                    t0[k as int].0,
                    t0[k as int].1.map_values(
                        |m: u64| CallStackEntry { vertex_index: usize::MAX, method_id: m },
                    ),
                    Seq::<CallBox>::empty(),
                ));
                assert(spec_slow_view(data@) =~= seeded.take(k + 1));
            }
            k = k + 1;
        }
        proof {
            assert(seeded.take(nt as int) =~= seeded);
        }
        let c = current_thread as usize;
        let current: Option<usize> = if c < data.len() {
            Some(c)
        } else {
            None
        };
        if !in_gc && c < data.len() {
            proof {
                assert(spec_slow_view(data@)[c as int] == (
                    data@[c as int].thread_id,
                    data@[c as int].stack@,
                    data@[c as int].boxes@,
                ));
                assert(seeded[c as int].2.len() == 0);
            }
            let th = &mut data[c];
            materialize(th, start_time, end_time);
            proof {
                assert(spec_slow_view(data@) =~= seeded.update(
                    c as int,
                    spec_materialize(seeded[c as int], start_time, end),
                ));
            }
        }
        let mut scratch_s: Vec<CallStackEntry> = Vec::new();
        let mut scratch_b: Vec<CallBox> = Vec::new();
        let ghost st0 = SlowReplay {
            data: spec_slow_view(data@),
            current: if (current_thread as int) < seeded.len() {
                Some(current_thread as int)
            } else {
                None
            },
            scratch_stack: Seq::empty(),
            scratch_boxes: Seq::empty(),
        };
        let ghost target = spec_slow_process(st0, events@, end);
        let mut current = current;
        proof {
            assert(st_of(data@, current, scratch_s@, scratch_b@) == st0);
            assert(events@.skip(0) =~= events@);
        }
        let ne = events.len();
        let mut j: usize = 0;
        while j < ne
            invariant
                j <= ne,
                ne == events@.len(),
                end == end_time,
                match current {
                    Some(cc) => cc < data@.len(),
                    None => true,
                },
                spec_slow_process(
                    st_of(data@, current, scratch_s@, scratch_b@),
                    events@.skip(j as int),
                    end,
                ) == target,
            decreases ne - j,
        {
            let ghost stpre = st_of(data@, current, scratch_s@, scratch_b@);
            let ev = events[j];
            let now = ev.timestamp();
            proof {
                assert(events@.skip(j as int)[0] == events@[j as int]);
                assert(events@.skip(j as int).drop_first() =~= events@.skip(j + 1));
            }
            match ev.event_type() {
                Some(RRProfTraceEventType::Call) => {
                    match current {
                        Some(cc) => {
                            let th = &mut data[cc];
                            push_call(&mut th.stack, &mut th.boxes, ev.data, now, end_time);
                            proof {
                                assert(spec_slow_view(data@) =~= spec_slow_step(
                                    stpre,
                                    ev,
                                    end,
                                ).data);
                            }
                        },
                        None => {
                            push_call(&mut scratch_s, &mut scratch_b, ev.data, now, end_time);
                        },
                    }
                },
                Some(RRProfTraceEventType::Return) => {
                    match current {
                        Some(cc) => {
                            let th = &mut data[cc];
                            return_pop(&mut th.stack, &mut th.boxes, ev.data, now);
                            proof {
                                assert(spec_slow_view(data@) =~= spec_slow_step(
                                    stpre,
                                    ev,
                                    end,
                                ).data);
                            }
                        },
                        None => {
                            return_pop(&mut scratch_s, &mut scratch_b, ev.data, now);
                        },
                    }
                },
                Some(RRProfTraceEventType::GCStart) | Some(
                    RRProfTraceEventType::ThreadSuspended,
                ) => {
                    match current {
                        Some(cc) => {
                            let th = &mut data[cc];
                            close_all(&mut th.stack, &mut th.boxes, now);
                            proof {
                                assert(spec_slow_view(data@) =~= spec_slow_step(
                                    stpre,
                                    ev,
                                    end,
                                ).data);
                            }
                        },
                        None => {
                            close_all(&mut scratch_s, &mut scratch_b, now);
                        },
                    }
                },
                Some(RRProfTraceEventType::GCEnd) => {
                    match current {
                        Some(cc) => {
                            let th = &mut data[cc];
                            reopen_all(&mut th.stack, &mut th.boxes, now, end_time);
                            proof {
                                assert(spec_slow_view(data@) =~= spec_slow_step(
                                    stpre,
                                    ev,
                                    end,
                                ).data);
                            }
                        },
                        None => {
                            reopen_all(&mut scratch_s, &mut scratch_b, now, end_time);
                        },
                    }
                },
                Some(RRProfTraceEventType::ThreadResume) => {
                    let tid = #[verifier::truncate] (ev.data as u32);
                    let i = slow_lower_bound(&data, tid);
                    if !(i < data.len() && data[i].thread_id == tid) {
                        data.insert(
                            i,
                            SlowThread { thread_id: tid, stack: Vec::new(), boxes: Vec::new() },
                        );
                        proof {
                            assert(spec_slow_view(data@) =~= stpre.data.insert(
                                i as int,
                                (tid, Seq::empty(), Seq::empty()),
                            ));
                        }
                    }
                    current = Some(i);
                    let ghost mid_view = spec_slow_view(data@);
                    let th = &mut data[i];
                    reopen_all(&mut th.stack, &mut th.boxes, now, end_time);
                    proof {
                        assert(spec_slow_view(data@) =~= mid_view.update(
                            i as int,
                            (
                                mid_view[i as int].0,
                                spec_reopen_all(
                                    mid_view[i as int].1,
                                    mid_view[i as int].2,
                                    0,
                                    now,
                                    end,
                                ).0,
                                spec_reopen_all(
                                    mid_view[i as int].1,
                                    mid_view[i as int].2,
                                    0,
                                    now,
                                    end,
                                ).1,
                            ),
                        ));
                        assert(spec_slow_view(data@) =~= spec_slow_step(stpre, ev, end).data);
                    }
                },
                _ => {},
            }
            proof {
                assert(st_of(data@, current, scratch_s@, scratch_b@) == spec_slow_step(
                    stpre,
                    ev,
                    end,
                ));
            }
            j = j + 1;
        }
        proof {
            assert(events@.skip(ne as int).len() == 0);
            assert(spec_slow_view(data@) == target.data);
            assert(events@.last() == events@[ne - 1]);
        }
        SlowTrace { data, end_time }
    }

    /// The timestamp of the batch's last event.
    pub fn end_time(&self) -> (t: u64)
        ensures
            t == self.spec_end_time(),
    {
        self.end_time
    }

    /// How many threads the batch produced geometry for.
    pub fn thread_count(&self) -> (n: usize)
        ensures
            n == self.spec_data().len(),
    {
        self.data.len()
    }

    /// One thread's share of the result.
    pub fn thread_at(&self, i: usize) -> (th: &SlowThread)
        requires
            i < self.spec_data().len(),
        ensures
            (th.thread_id, th.stack@, th.boxes@) == self.spec_data()[i as int],
    {
        &self.data[i]
    }
}

} // verus!
