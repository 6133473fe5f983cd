//! Properties of the recycling state machine, stated and proved over the
//! specification-level operations that the executable methods are verified
//! against.

use vstd::multiset::Multiset;
use vstd::prelude::*;

use crate::event::{spec_decode_time, TIMESTAMP_MASK};
use crate::state::{
    spec_cut, spec_cut_loop, spec_drain, spec_enter, spec_exit, spec_exit_loop, spec_fd_drain,
    spec_resume, spec_resume_loop, spec_stack_sync, StackModel,
};
use crate::sync_vec::{spec_gsv_set_end, spec_gsv_truncate};
use crate::trace::CallBox;

verus! {

/// A box is sound at time `t`: it started no later than `t`, and if it has
/// been closed — its end is not the `u64::MAX` sentinel — it spans forward,
/// its decoded start at most its decoded end.
pub open spec fn spec_box_ok(b: CallBox, t: u64) -> bool {
    &&& spec_decode_time(b.start_lo, b.start_hi) <= t
    &&& (b.spec_is_open() || spec_decode_time(b.start_lo, b.start_hi) <= spec_decode_time(
        b.end_lo,
        b.end_hi,
    ))
}

/// Every box of a store is sound at time `t`.
pub open spec fn spec_boxes_ok(verts: Seq<CallBox>, t: u64) -> bool {
    forall|i: int| 0 <= i < verts.len() ==> spec_box_ok(#[trigger] verts[i], t)
}

/// Soundness is monotone in the reference time.
pub proof fn lemma_boxes_ok_mono(verts: Seq<CallBox>, t1: u64, t2: u64)
    requires
        spec_boxes_ok(verts, t1),
        t1 <= t2,
    ensures
        spec_boxes_ok(verts, t2),
{
}

/// A freshly opened box at `at` is sound at `at`: it carries the open
/// sentinel, and its start decodes to `at` itself.
pub proof fn lemma_fresh_box_ok(at: u64, mid: u64, depth: u32)
    requires
        at <= TIMESTAMP_MASK,
    ensures
        spec_box_ok(crate::trace::spec_call_box(at, u64::MAX, mid, depth), at),
        crate::trace::spec_call_box(at, u64::MAX, mid, depth).spec_is_open(),
{
    crate::event::lemma_time_codec_lossless(at);
}

/// Closing a sound box at `at` keeps it sound: its start was at most `at`,
/// which becomes its end.
pub proof fn lemma_set_end_ok(verts: (Seq<CallBox>, usize, usize), i: usize, at: u64, t: u64)
    requires
        spec_boxes_ok(verts.0, t),
        t <= at,
        at <= TIMESTAMP_MASK,
        i < verts.0.len(),
    ensures
        spec_boxes_ok(spec_gsv_set_end(verts, i, at).0, at),
{
    crate::event::lemma_time_codec_lossless(at);
    let after = spec_gsv_set_end(verts, i, at).0;
    assert forall|k: int| 0 <= k < after.len() implies spec_box_ok(#[trigger] after[k], at) by {
        assert(spec_box_ok(verts.0[k], t));
        if k == i {
            assert(after[k] == (CallBox {
                end_lo: crate::event::spec_time_lo(at),
                end_hi: crate::event::spec_time_hi(at),
                ..verts.0[k]
            }));
        }
    }
}

/// The unwinding of a `Return` keeps every box sound.
pub proof fn lemma_exit_loop_boxes_ok(
    stack: Seq<crate::trace::CallStackEntry>,
    verts: (Seq<CallBox>, usize, usize),
    ready: Seq<(usize, u64)>,
    free_depth: Seq<(u32, u64)>,
    at: u64,
    mid: u64,
    t: u64,
)
    requires
        spec_boxes_ok(verts.0, t),
        t <= at,
        at <= TIMESTAMP_MASK,
    ensures
        spec_boxes_ok(spec_exit_loop(stack, verts, ready, free_depth, at, mid).1.0, at),
    decreases stack.len(),
{
    if stack.len() == 0 {
        lemma_boxes_ok_mono(verts.0, t, at);
    } else {
        let e = stack.last();
        let closed = e.vertex_index != usize::MAX && (e.vertex_index as int) < verts.0.len();
        let verts1 = if closed {
            spec_gsv_set_end(verts, e.vertex_index, at)
        } else {
            verts
        };
        if closed {
            lemma_set_end_ok(verts, e.vertex_index, at, t);
        } else {
            lemma_boxes_ok_mono(verts.0, t, at);
        }
        if e.method_id == mid {
        } else {
            lemma_exit_loop_boxes_ok(
                stack.drop_last(),
                verts1,
                if closed {
                    ready.push((e.vertex_index, at))
                } else {
                    ready
                },
                free_depth.push((stack.drop_last().len() as u32, at)),
                at,
                mid,
                at,
            );
        }
    }
}

/// A cut keeps every box sound.
pub proof fn lemma_cut_loop_boxes_ok(
    stack: Seq<crate::trace::CallStackEntry>,
    verts: (Seq<CallBox>, usize, usize),
    ready: Seq<(usize, u64)>,
    at: u64,
    pos: int,
    t: u64,
)
    requires
        spec_boxes_ok(verts.0, t),
        t <= at,
        at <= TIMESTAMP_MASK,
    ensures
        spec_boxes_ok(spec_cut_loop(stack, verts, ready, at, pos).1.0, at),
    decreases stack.len() - pos,
{
    if pos < 0 || pos >= stack.len() {
        lemma_boxes_ok_mono(verts.0, t, at);
    } else {
        let e = stack[pos];
        let closed = e.vertex_index != usize::MAX && (e.vertex_index as int) < verts.0.len();
        let verts1 = if closed {
            spec_gsv_set_end(verts, e.vertex_index, at)
        } else {
            verts
        };
        if closed {
            lemma_set_end_ok(verts, e.vertex_index, at, t);
        } else {
            lemma_boxes_ok_mono(verts.0, t, at);
        }
        lemma_cut_loop_boxes_ok(
            stack.update(
                pos,
                crate::trace::CallStackEntry { vertex_index: usize::MAX, method_id: e.method_id },
            ),
            verts1,
            if closed {
                ready.push((e.vertex_index, at))
            } else {
                ready
            },
            at,
            pos + 1,
            at,
        );
    }
}

/// Slot allocation keeps every box sound: the fresh box starts at `at` and
/// is open.
pub proof fn lemma_alloc_boxes_ok(
    verts: (Seq<CallBox>, usize, usize),
    free: Seq<usize>,
    at: u64,
    mid: u64,
    depth: u32,
    t: u64,
)
    requires
        spec_boxes_ok(verts.0, t),
        t <= at,
        at <= TIMESTAMP_MASK,
    ensures
        spec_boxes_ok(
            crate::state::spec_alloc(
                verts,
                free,
                crate::trace::spec_call_box(at, u64::MAX, mid, depth),
            ).0.0,
            at,
        ),
{
    lemma_fresh_box_ok(at, mid, depth);
    lemma_boxes_ok_mono(verts.0, t, at);
    let v = crate::trace::spec_call_box(at, u64::MAX, mid, depth);
    let a = crate::state::spec_alloc(verts, free, v);
    assert forall|k: int| 0 <= k < a.0.0.len() implies spec_box_ok(#[trigger] a.0.0[k], at) by {
        if k < verts.0.len() {
            assert(spec_box_ok(verts.0[k], at));
        }
    }
}

/// The reopening of every frame keeps every box sound.
pub proof fn lemma_resume_loop_boxes_ok(
    stack: Seq<crate::trace::CallStackEntry>,
    verts: (Seq<CallBox>, usize, usize),
    free: Seq<usize>,
    used: Seq<usize>,
    at: u64,
    pos: int,
    t: u64,
)
    requires
        spec_boxes_ok(verts.0, t),
        t <= at,
        at <= TIMESTAMP_MASK,
    ensures
        spec_boxes_ok(spec_resume_loop(stack, verts, free, used, at, pos).1.0, at),
    decreases stack.len() - pos,
{
    if pos < 0 || pos >= stack.len() {
        lemma_boxes_ok_mono(verts.0, t, at);
    } else {
        let e = stack[pos];
        let v = crate::trace::spec_call_box(at, u64::MAX, e.method_id, pos as u32);
        let a = crate::state::spec_alloc(verts, free, v);
        lemma_alloc_boxes_ok(verts, free, at, e.method_id, pos as u32, t);
        lemma_resume_loop_boxes_ok(
            stack.update(
                pos,
                crate::trace::CallStackEntry { vertex_index: a.2, method_id: e.method_id },
            ),
            a.0,
            a.1,
            crate::state::spec_used_insert(used, a.2),
            at,
            pos + 1,
            at,
        );
    }
}

/// Every call box is sound after any stack operation at a time the state
/// has already reached: a box is open — its end the `u64::MAX` sentinel —
/// or else its decoded start is at most its decoded end.  This is the box
/// half of the recycling state machine's safety argument; the operations
/// only ever open fresh boxes at the current time or close existing ones at
/// it.
pub proof fn lemma_op_boxes_ok(m: StackModel, op: crate::state::StackOp, t: u64)
    requires
        spec_boxes_ok(m.verts.0, t),
        match op {
            crate::state::StackOp::Enter(at, _) => t <= at && at <= TIMESTAMP_MASK,
            crate::state::StackOp::Exit(at, _) => t <= at && at <= TIMESTAMP_MASK,
            crate::state::StackOp::Cut(at) => t <= at && at <= TIMESTAMP_MASK,
            crate::state::StackOp::Resume(at) => t <= at && at <= TIMESTAMP_MASK,
        },
    ensures
        ({
            let at = match op {
                crate::state::StackOp::Enter(at, _) => at,
                crate::state::StackOp::Exit(at, _) => at,
                crate::state::StackOp::Cut(at) => at,
                crate::state::StackOp::Resume(at) => at,
            };
            spec_boxes_ok(crate::state::spec_apply_op(m, op).verts.0, at)
        }),
{
    match op {
        crate::state::StackOp::Enter(at, mid) => {
            let d = spec_drain(m.ready, m.free, m.used, at);
            lemma_alloc_boxes_ok(m.verts, d.1, at, mid, m.stack.len() as u32, t);
        },
        crate::state::StackOp::Exit(at, mid) => {
            lemma_exit_loop_boxes_ok(m.stack, m.verts, m.ready, m.free_depth, at, mid, t);
        },
        crate::state::StackOp::Cut(at) => {
            lemma_cut_loop_boxes_ok(m.stack, m.verts, m.ready, at, 0, t);
        },
        crate::state::StackOp::Resume(at) => {
            let d = spec_drain(m.ready, m.free, m.used, at);
            lemma_resume_loop_boxes_ok(m.stack, m.verts, d.1, d.2, at, 0, t);
        },
    }
}

/// Housekeeping keeps every box sound: it only ever discards boxes from
/// the tail of the store.
pub proof fn lemma_sync_boxes_ok(m: StackModel, now: u64, t: u64)
    requires
        spec_boxes_ok(m.verts.0, t),
    ensures
        spec_boxes_ok(spec_stack_sync(m, now).verts.0, t),
{
    let vm = spec_gsv_truncate(
        m.verts,
        crate::state::spec_required_len(m.used, m.verts.0.len()),
    );
    assert forall|k: int| 0 <= k < vm.0.len() implies spec_box_ok(#[trigger] vm.0[k], t) by {
        assert(vm.0[k] == m.verts.0[k]);
    }
}


/// Queued frame closures in time order.
pub open spec fn spec_fd_sorted(fd: Seq<(u32, u64)>) -> bool {
    forall|i: int, j: int| 0 <= i < j < fd.len() ==> (fd[i].1 <= fd[j].1)
}

/// Every queued closure happened by time `t`.
pub open spec fn spec_fd_le(fd: Seq<(u32, u64)>, t: u64) -> bool {
    forall|i: int| 0 <= i < fd.len() ==> (#[trigger] fd[i]).1 <= t
}

/// Draining expired closures leaves only those whose close is still inside
/// the visibility window, and keeps the queue in time order.
pub proof fn lemma_fd_drain_window(fd: Seq<(u32, u64)>, depths: Seq<u32>, now: u64)
    requires
        spec_fd_sorted(fd),
    ensures
        ({
            let r = spec_fd_drain(fd, depths, now);
            &&& spec_fd_sorted(r.0)
            &&& forall|i: int|
                0 <= i < r.0.len() ==> (#[trigger] r.0[i]).1 + crate::VISIBLE_DURATION >= now
        }),
    decreases fd.len(),
{
    if fd.len() > 0 && fd[0].1 + crate::VISIBLE_DURATION < now {
        assert(spec_fd_sorted(fd.drop_first())) by {
            assert(forall|i: int, j: int|
                0 <= i < j < fd.drop_first().len() ==> (fd.drop_first()[i].1
                    <= fd.drop_first()[j].1));
        }
        lemma_fd_drain_window(fd.drop_first(), crate::state::spec_ms_remove(depths, fd[0].0), now);
    } else {
        if fd.len() > 0 {
            assert(forall|i: int|
                0 <= i < fd.len() ==> (#[trigger] fd[i]).1 >= fd[0].1);
        }
    }
}

/// Extending the queue with closures at the current time keeps it in time
/// order.
pub proof fn lemma_fd_append_sorted(fd: Seq<(u32, u64)>, tail: Seq<(u32, u64)>, t: u64, at: u64)
    requires
        spec_fd_sorted(fd),
        spec_fd_le(fd, t),
        t <= at,
        forall|i: int| 0 <= i < tail.len() ==> (#[trigger] tail[i]).1 == at,
    ensures
        spec_fd_sorted(fd + tail),
        spec_fd_le(fd + tail, at),
{
    let whole = fd + tail;
    assert forall|i: int, j: int| 0 <= i < j < whole.len() implies (whole[i].1 <= whole[j].1) by {
        if i < fd.len() {
            assert(whole[i] == fd[i]);
        } else {
            assert(whole[i] == tail[i - fd.len()]);
        }
        if j < fd.len() {
            assert(whole[j] == fd[j]);
        } else {
            assert(whole[j] == tail[j - fd.len()]);
        }
    }
    assert forall|i: int| 0 <= i < whole.len() implies (#[trigger] whole[i]).1 <= at by {
        if i < fd.len() {
            assert(whole[i] == fd[i]);
        } else {
            assert(whole[i] == tail[i - fd.len()]);
        }
    }
}

/// The unwinding of a `Return` keeps the closure queue in time order.
pub proof fn lemma_exit_loop_fd_sorted(
    stack: Seq<crate::trace::CallStackEntry>,
    verts: (Seq<CallBox>, usize, usize),
    ready: Seq<(usize, u64)>,
    free_depth: Seq<(u32, u64)>,
    at: u64,
    mid: u64,
    t: u64,
)
    requires
        spec_fd_sorted(free_depth),
        spec_fd_le(free_depth, t),
        t <= at,
    ensures
        spec_fd_sorted(spec_exit_loop(stack, verts, ready, free_depth, at, mid).3),
        spec_fd_le(spec_exit_loop(stack, verts, ready, free_depth, at, mid).3, at),
    decreases stack.len(),
{
    if stack.len() == 0 {
        assert(spec_fd_le(free_depth, at));
    } else {
        let e = stack.last();
        let s1 = stack.drop_last();
        let fd1 = free_depth.push((s1.len() as u32, at));
        assert(fd1 =~= free_depth + seq![(s1.len() as u32, at)]);
        lemma_fd_append_sorted(free_depth, seq![(s1.len() as u32, at)], t, at);
        if e.method_id == mid {
        } else {
            let closed = e.vertex_index != usize::MAX && (e.vertex_index as int) < verts.0.len();
            let verts1 = if closed {
                spec_gsv_set_end(verts, e.vertex_index, at)
            } else {
                verts
            };
            let ready1 = if closed {
                ready.push((e.vertex_index, at))
            } else {
                ready
            };
            lemma_exit_loop_fd_sorted(s1, verts1, ready1, fd1, at, mid, at);
        }
    }
}

/// Any stack operation at a time the queue has already reached keeps the
/// closure queue in time order: closures are only ever appended at the
/// current time.
pub proof fn lemma_op_fd_sorted(m: StackModel, op: crate::state::StackOp, t: u64)
    requires
        spec_fd_sorted(m.free_depth),
        spec_fd_le(m.free_depth, t),
        match op {
            crate::state::StackOp::Enter(at, _) => t <= at,
            crate::state::StackOp::Exit(at, _) => t <= at,
            crate::state::StackOp::Cut(at) => t <= at,
            crate::state::StackOp::Resume(at) => t <= at,
        },
    ensures
        ({
            let at = match op {
                crate::state::StackOp::Enter(at, _) => at,
                crate::state::StackOp::Exit(at, _) => at,
                crate::state::StackOp::Cut(at) => at,
                crate::state::StackOp::Resume(at) => at,
            };
            let fd = crate::state::spec_apply_op(m, op).free_depth;
            spec_fd_sorted(fd) && spec_fd_le(fd, at)
        }),
{
    match op {
        crate::state::StackOp::Enter(at, mid) => {
        },
        crate::state::StackOp::Exit(at, mid) => {
            lemma_exit_loop_fd_sorted(m.stack, m.verts, m.ready, m.free_depth, at, mid, t);
        },
        crate::state::StackOp::Cut(at) => {
            let tail = Seq::new(m.stack.len(), |d: int| (d as u32, at));
            lemma_fd_append_sorted(m.free_depth, tail, t, at);
        },
        crate::state::StackOp::Resume(at) => {
        },
    }
}

/// After housekeeping at `now`, no entry in the visible-depth bookkeeping
/// corresponds to a frame whose close left the visibility window: every
/// closure still queued for un-counting happened within `VISIBLE_DURATION`
/// of `now`.
pub proof fn lemma_sync_respects_window(m: StackModel, now: u64)
    requires
        spec_fd_sorted(m.free_depth),
    ensures
        spec_fd_sorted(spec_stack_sync(m, now).free_depth),
        forall|i: int|
            0 <= i < spec_stack_sync(m, now).free_depth.len() ==> (#[trigger] spec_stack_sync(
                m,
                now,
            ).free_depth[i]).1 + crate::VISIBLE_DURATION >= now,
{
    lemma_fd_drain_window(m.free_depth, m.depths, now);
}

/// The slot half of the recycling state machine's safety argument: the
/// used set is strictly ordered and addresses the store; the free pool is
/// ordered, duplicate-free and disjoint from the used set; pending slots
/// are distinct, still used, and not referenced by any open frame; and
/// open frames reference distinct used slots inside the store.
pub open spec fn slots_wf(m: StackModel) -> bool {
    &&& m.verts.0.len() <= usize::MAX
    &&& crate::state::spec_strict_asc(m.used)
    &&& (forall|i: int| 0 <= i < m.used.len() ==> (#[trigger] m.used[i]) < m.verts.0.len())
    &&& crate::state::spec_sorted_desc(m.free)
    &&& (forall|i: int, j: int| 0 <= i < j < m.free.len() ==> m.free[i] != m.free[j])
    &&& (forall|i: int| 0 <= i < m.free.len() ==> !m.used.contains(#[trigger] m.free[i]))
    &&& (forall|i: int, j: int| 0 <= i < j < m.ready.len() ==> (m.ready[i]).0 != (m.ready[j]).0)
    &&& (forall|i: int| 0 <= i < m.ready.len() ==> m.used.contains((#[trigger] m.ready[i]).0))
    &&& (forall|i: int, j: int|
        0 <= i < j < m.stack.len() && m.stack[i].vertex_index != usize::MAX
            && m.stack[j].vertex_index != usize::MAX ==> m.stack[i].vertex_index
            != m.stack[j].vertex_index)
    &&& (forall|i: int|
        0 <= i < m.stack.len() && (#[trigger] m.stack[i]).vertex_index != usize::MAX
            ==> m.used.contains(m.stack[i].vertex_index))
    &&& (forall|i: int, j: int|
        0 <= i < m.stack.len() && 0 <= j < m.ready.len() && (#[trigger] m.stack[i]).vertex_index
            != usize::MAX ==> m.stack[i].vertex_index != (#[trigger] m.ready[j]).0)
}

/// Membership through a sorted-set insertion.
pub proof fn lemma_used_insert_facts(s: Seq<usize>, v: usize)
    requires
        crate::state::spec_strict_asc(s),
    ensures
        crate::state::spec_strict_asc(crate::state::spec_used_insert(s, v)),
        forall|x: usize|
            #[trigger] crate::state::spec_used_insert(s, v).contains(x) <==> (s.contains(x) || x
                == v),
{
    crate::state::lemma_used_position_bounds(s, v);
    let p = crate::state::spec_used_position(s, v);
    let t = crate::state::spec_used_insert(s, v);
    if p < s.len() && s[p] == v {
        assert forall|x: usize| #[trigger] t.contains(x) implies (s.contains(x) || x == v) by {}
        assert forall|x: usize| (s.contains(x) || x == v) implies #[trigger] t.contains(x) by {
            if x == v {
                assert(s[p] == x);
            }
        }
    } else {
        assert(t == s.insert(p, v));
        assert(crate::state::spec_strict_asc(t)) by {
            assert(forall|k: int| 0 <= k < p ==> s[k] < v);
            assert(forall|k: int| p <= k < s.len() ==> s[k] >= v && s[k] != v);
        }
        assert forall|x: usize| #[trigger] t.contains(x) implies (s.contains(x) || x == v) by {
            let j = choose|j: int| 0 <= j < t.len() && t[j] == x;
            if j < p {
                assert(s[j] == x);
            } else if j == p {
            } else {
                assert(s[j - 1] == x);
            }
        }
        assert forall|x: usize| (s.contains(x) || x == v) implies #[trigger] t.contains(x) by {
            if x == v {
                assert(t[p] == x);
            } else {
                let j = choose|j: int| 0 <= j < s.len() && s[j] == x;
                if j < p {
                    assert(t[j] == x);
                } else {
                    assert(t[j + 1] == x);
                }
            }
        }
    }
}

/// Membership through a sorted-set removal.
pub proof fn lemma_used_remove_facts(s: Seq<usize>, v: usize)
    requires
        crate::state::spec_strict_asc(s),
    ensures
        crate::state::spec_strict_asc(crate::state::spec_used_remove(s, v)),
        forall|x: usize|
            #[trigger] crate::state::spec_used_remove(s, v).contains(x) <==> (s.contains(x) && x
                != v),
{
    crate::state::lemma_used_position_bounds(s, v);
    let p = crate::state::spec_used_position(s, v);
    let t = crate::state::spec_used_remove(s, v);
    if p < s.len() && s[p] == v {
        assert(t == s.remove(p));
        assert(crate::state::spec_strict_asc(t)) by {
            assert(forall|i: int, j: int|
                0 <= i < j < t.len() ==> t[i] == (if i < p {
                    s[i]
                } else {
                    s[i + 1]
                }) && t[j] == (if j < p {
                    s[j]
                } else {
                    s[j + 1]
                }));
        }
        assert forall|x: usize| #[trigger] t.contains(x) implies (s.contains(x) && x != v) by {
            let j = choose|j: int| 0 <= j < t.len() && t[j] == x;
            if j < p {
                assert(s[j] == x);
                assert(s[j] < s[p]);
            } else {
                assert(s[j + 1] == x);
                assert(s[j + 1] > s[p]);
            }
        }
        assert forall|x: usize| (s.contains(x) && x != v) implies #[trigger] t.contains(x) by {
            let j = choose|j: int| 0 <= j < s.len() && s[j] == x;
            if j < p {
                assert(t[j] == x);
            } else {
                assert(j != p);
                assert(t[j - 1] == x);
            }
        }
    } else {
        assert forall|x: usize| (s.contains(x) && x != v) implies #[trigger] t.contains(x) by {}
        assert forall|x: usize| #[trigger] t.contains(x) implies (s.contains(x) && x != v) by {
            if x == v {
                let j = choose|j: int| 0 <= j < s.len() && s[j] == x;
                assert(forall|k: int| 0 <= k < p ==> s[k] < v);
                assert(forall|k: int| p <= k < s.len() ==> s[k] >= v);
                assert(s[j] == v);
                assert(j >= p);
                assert(j == p);
            }
        }
    }
}

/// Membership through a free-pool insertion, and the orders it keeps.
pub proof fn lemma_free_insert_facts(s: Seq<usize>, v: usize)
    requires
        crate::state::spec_sorted_desc(s),
        forall|i: int, j: int| 0 <= i < j < s.len() ==> s[i] != s[j],
        !s.contains(v),
    ensures
        crate::state::spec_sorted_desc(crate::state::spec_free_insert(s, v)),
        forall|i: int, j: int|
            0 <= i < j < crate::state::spec_free_insert(s, v).len()
                ==> crate::state::spec_free_insert(s, v)[i] != crate::state::spec_free_insert(
                s,
                v,
            )[j],
        forall|x: usize|
            #[trigger] crate::state::spec_free_insert(s, v).contains(x) <==> (s.contains(x) || x
                == v),
{
    crate::state::lemma_desc_position_bounds(s, v);
    let p = crate::state::spec_desc_position(s, v);
    let t = crate::state::spec_free_insert(s, v);
    assert(forall|k: int| 0 <= k < p ==> s[k] > v);
    assert forall|k: int| p <= k < s.len() implies s[k] < v by {
        assert(s[k] <= v);
        assert(s[k] == v ==> s.contains(v));
    }
    assert(crate::state::spec_sorted_desc(t));
    assert forall|i: int, j: int| 0 <= i < j < t.len() implies t[i] != t[j] by {
        assert(t[i] == (if i < p {
            s[i]
        } else if i == p {
            v
        } else {
            s[i - 1]
        }));
        assert(t[j] == (if j < p {
            s[j]
        } else if j == p {
            v
        } else {
            s[j - 1]
        }));
    }
    assert forall|x: usize| #[trigger] t.contains(x) implies (s.contains(x) || x == v) by {
        let j = choose|j: int| 0 <= j < t.len() && t[j] == x;
        if j < p {
            assert(s[j] == x);
        } else if j == p {
        } else {
            assert(s[j - 1] == x);
        }
    }
    assert forall|x: usize| (s.contains(x) || x == v) implies #[trigger] t.contains(x) by {
        if x == v {
            assert(t[p] == x);
        } else {
            let j = choose|j: int| 0 <= j < s.len() && s[j] == x;
            if j < p {
                assert(t[j] == x);
            } else {
                assert(t[j + 1] == x);
            }
        }
    }
}

/// Draining the pending queue preserves the slot invariant: each drained
/// slot moves from the used set to the free pool.
pub proof fn lemma_drain_slots_wf(m: StackModel, at: u64)
    requires
        slots_wf(m),
    ensures
        ({
            let d = spec_drain(m.ready, m.free, m.used, at);
            slots_wf(StackModel { ready: d.0, free: d.1, used: d.2, ..m })
        }),
    decreases m.ready.len(),
{
    if m.ready.len() > 0 && m.ready[0].1 + crate::VISIBLE_DURATION < at {
        let idx = m.ready[0].0;
        let used1 = crate::state::spec_used_remove(m.used, idx);
        let free1 = crate::state::spec_free_insert(m.free, idx);
        let ready1 = m.ready.drop_first();
        assert(m.used.contains(idx));
        assert(!m.free.contains(idx)) by {
            if m.free.contains(idx) {
                let j = choose|j: int| 0 <= j < m.free.len() && m.free[j] == idx;
                assert(!m.used.contains(m.free[j]));
            }
        }
        lemma_used_remove_facts(m.used, idx);
        lemma_free_insert_facts(m.free, idx);
        let m1 = StackModel { ready: ready1, free: free1, used: used1, ..m };
        assert(slots_wf(m1)) by {
            assert(forall|i: int|
                0 <= i < ready1.len() ==> (#[trigger] ready1[i]) == m.ready[i + 1]);
            assert forall|i: int| 0 <= i < used1.len() implies (#[trigger] used1[i])
                < m1.verts.0.len() by {
                assert(used1.contains(used1[i]));
                assert(m.used.contains(used1[i]));
                let j = choose|j: int| 0 <= j < m.used.len() && m.used[j] == used1[i];
                assert(m.used[j] < m.verts.0.len());
            }
            assert forall|i: int| 0 <= i < free1.len() implies !used1.contains(
                #[trigger] free1[i],
            ) by {
                assert(free1.contains(free1[i]));
                if used1.contains(free1[i]) {
                    assert(m.used.contains(free1[i]) && free1[i] != idx);
                    assert(m.free.contains(free1[i]) || free1[i] == idx);
                    if m.free.contains(free1[i]) {
                        let j = choose|j: int| 0 <= j < m.free.len() && m.free[j] == free1[i];
                        assert(!m.used.contains(m.free[j]));
                    }
                }
            }
            assert forall|i: int| 0 <= i < ready1.len() implies used1.contains(
                (#[trigger] ready1[i]).0,
            ) by {
                assert(ready1[i] == m.ready[i + 1]);
                assert(m.used.contains(m.ready[i + 1].0));
                assert(m.ready[i + 1].0 != idx);
            }
            assert forall|i: int|
                0 <= i < m1.stack.len() && (#[trigger] m1.stack[i]).vertex_index
                    != usize::MAX implies used1.contains(m1.stack[i].vertex_index) by {
                assert(m.used.contains(m.stack[i].vertex_index));
                assert(m.stack[i].vertex_index != m.ready[0].0);
            }
        }
        lemma_drain_slots_wf(m1, at);
        assert(spec_drain(m.ready, m.free, m.used, at) == spec_drain(ready1, free1, used1, at));
    }
}

/// Slot allocation gives out a slot no open frame, pending entry, or used
/// entry holds, and keeps the free pool sound.
pub proof fn lemma_alloc_slots(m: StackModel, v: CallBox)
    requires
        slots_wf(m),
        m.verts.0.len() < usize::MAX,
    ensures
        ({
            let a = crate::state::spec_alloc(m.verts, m.free, v);
            let used1 = crate::state::spec_used_insert(m.used, a.2);
            &&& !m.used.contains(a.2)
            &&& a.0.0.len() >= m.verts.0.len()
            &&& a.0.0.len() <= m.verts.0.len() + 1
            &&& (a.2 as int) < a.0.0.len()
            &&& crate::state::spec_strict_asc(used1)
            &&& (forall|x: usize| used1.contains(x) <==> (m.used.contains(x) || x == a.2))
            &&& crate::state::spec_sorted_desc(a.1)
            &&& (forall|i: int, j: int| 0 <= i < j < a.1.len() ==> a.1[i] != a.1[j])
            &&& (forall|i: int| 0 <= i < a.1.len() ==> !used1.contains(#[trigger] a.1[i]))
        }),
{
    let a = crate::state::spec_alloc(m.verts, m.free, v);
    let idx = a.2;
    let len = m.verts.0.len();
    if m.free.len() > 0 {
        let last = m.free.last();
        assert(m.free.contains(last));
        assert(!m.used.contains(last));
        assert(forall|i: int| 0 <= i < m.free.len() - 1 ==> m.free[i] >= m.free.last());
        assert forall|i: int| 0 <= i < m.free.len() - 1 implies m.free[i] > m.free.last() by {
            assert(m.free[i] != m.free[m.free.len() - 1]);
        }
        if (last as int) < len {
            assert(idx == last);
            assert(!m.used.contains(idx));
        } else {
            assert(idx == len as usize);
            assert forall|k: int| 0 <= k < m.used.len() implies m.used[k] != idx by {
                assert(m.used[k] < len);
            }
            assert(!m.used.contains(idx)) by {
                if m.used.contains(idx) {
                    let k = choose|k: int| 0 <= k < m.used.len() && m.used[k] == idx;
                }
            }
        }
        let free1 = a.1;
        assert(free1 == m.free.drop_last());
        lemma_used_insert_facts(m.used, idx);
        let used1 = crate::state::spec_used_insert(m.used, idx);
        assert forall|i: int| 0 <= i < free1.len() implies !used1.contains(
            #[trigger] free1[i],
        ) by {
            assert(free1[i] == m.free[i]);
            assert(!m.used.contains(m.free[i]));
            if (last as int) < len {
                assert(m.free[i] != idx);
            } else {
                assert(m.free[i] > last >= len);
                assert(m.free[i] != idx);
            }
        }
    } else {
        assert(idx == len as usize);
        assert forall|k: int| 0 <= k < m.used.len() implies m.used[k] != idx by {
            assert(m.used[k] < len);
        }
        assert(!m.used.contains(idx)) by {
            if m.used.contains(idx) {
                let k = choose|k: int| 0 <= k < m.used.len() && m.used[k] == idx;
            }
        }
        lemma_used_insert_facts(m.used, idx);
    }
    lemma_used_insert_facts(m.used, idx);
}

/// A `Call` preserves the slot invariant.
pub proof fn lemma_enter_slots_wf(m: StackModel, at: u64, mid: u64)
    requires
        slots_wf(m),
        m.verts.0.len() < usize::MAX,
    ensures
        slots_wf(spec_enter(m, at, mid)),
{
    lemma_drain_slots_wf(m, at);
    let d = spec_drain(m.ready, m.free, m.used, at);
    let m1 = StackModel { ready: d.0, free: d.1, used: d.2, ..m };
    let v = crate::trace::spec_call_box(at, u64::MAX, mid, m.stack.len() as u32);
    lemma_alloc_slots(m1, v);
    let a = crate::state::spec_alloc(m1.verts, m1.free, v);
    let idx = a.2;
    let used1 = crate::state::spec_used_insert(m1.used, idx);
    let m2 = spec_enter(m, at, mid);
    assert(m2.stack == m1.stack.push(
        crate::trace::CallStackEntry { vertex_index: idx, method_id: mid },
    ));
    assert(m2.used == used1);
    assert(m2.verts == a.0);
    assert(m2.free == a.1);
    assert(m2.ready == m1.ready);
    assert(slots_wf(m2)) by {
        assert forall|i: int| 0 <= i < m2.used.len() implies (#[trigger] m2.used[i])
            < m2.verts.0.len() by {
            assert(used1.contains(used1[i]));
            if used1[i] == idx {
            } else {
                assert(m1.used.contains(used1[i]));
                let j = choose|j: int| 0 <= j < m1.used.len() && m1.used[j] == used1[i];
            }
        }
        assert forall|i: int|
            0 <= i < m2.stack.len() && (#[trigger] m2.stack[i]).vertex_index
                != usize::MAX implies m2.used.contains(m2.stack[i].vertex_index) by {
            if i < m1.stack.len() {
                assert(m2.stack[i] == m1.stack[i]);
                assert(m1.used.contains(m1.stack[i].vertex_index));
            } else {
                assert(m2.stack[i].vertex_index == idx);
            }
        }
        assert forall|i: int, j: int|
            0 <= i < j < m2.stack.len() && m2.stack[i].vertex_index != usize::MAX
                && m2.stack[j].vertex_index != usize::MAX implies m2.stack[i].vertex_index
            != m2.stack[j].vertex_index by {
            if j < m1.stack.len() {
            } else {
                assert(m2.stack[j].vertex_index == idx);
                assert(m2.stack[i] == m1.stack[i]);
                assert(m1.used.contains(m1.stack[i].vertex_index));
                assert(!m1.used.contains(idx));
            }
        }
        assert forall|i: int, j: int|
            0 <= i < m2.stack.len() && 0 <= j < m2.ready.len() && (
            #[trigger] m2.stack[i]).vertex_index != usize::MAX implies m2.stack[i].vertex_index
            != (#[trigger] m2.ready[j]).0 by {
            if i < m1.stack.len() {
                assert(m2.stack[i] == m1.stack[i]);
            } else {
                assert(m2.stack[i].vertex_index == idx);
                assert(m1.used.contains(m1.ready[j].0));
                assert(!m1.used.contains(idx));
            }
        }
    }
}

/// The unwinding of a `Return` preserves the slot invariant: each popped
/// frame's slot stays used but moves to the pending queue.
pub proof fn lemma_exit_loop_slots_wf(m: StackModel, at: u64, mid: u64)
    requires
        slots_wf(m),
    ensures
        ({
            let r = spec_exit_loop(m.stack, m.verts, m.ready, m.free_depth, at, mid);
            slots_wf(StackModel { stack: r.0, verts: r.1, ready: r.2, free_depth: r.3, ..m })
        }),
    decreases m.stack.len(),
{
    if m.stack.len() == 0 {
    } else {
        let e = m.stack.last();
        let s1 = m.stack.drop_last();
        let fd1 = m.free_depth.push((s1.len() as u32, at));
        let closed = e.vertex_index != usize::MAX && (e.vertex_index as int) < m.verts.0.len();
        let verts1 = if closed {
            spec_gsv_set_end(m.verts, e.vertex_index, at)
        } else {
            m.verts
        };
        let ready1 = if closed {
            m.ready.push((e.vertex_index, at))
        } else {
            m.ready
        };
        let m1 = StackModel { stack: s1, verts: verts1, ready: ready1, free_depth: fd1, ..m };
        assert(verts1.0.len() == m.verts.0.len());
        assert(forall|i: int| 0 <= i < s1.len() ==> s1[i] == m.stack[i]);
        assert(slots_wf(m1)) by {
            if closed {
                assert(m.stack[m.stack.len() - 1].vertex_index == e.vertex_index);
                assert forall|i: int, j: int|
                    0 <= i < j < ready1.len() implies (ready1[i]).0 != (ready1[j]).0 by {
                    if j == ready1.len() - 1 {
                        assert(ready1[j].0 == e.vertex_index);
                        assert(ready1[i] == m.ready[i]);
                    } else {
                        assert(ready1[i] == m.ready[i] && ready1[j] == m.ready[j]);
                    }
                }
                assert forall|i: int| 0 <= i < ready1.len() implies m.used.contains(
                    (#[trigger] ready1[i]).0,
                ) by {
                    if i == ready1.len() - 1 {
                        assert(ready1[i].0 == e.vertex_index);
                        assert(m.used.contains(e.vertex_index));
                    } else {
                        assert(ready1[i] == m.ready[i]);
                    }
                }
                assert forall|i: int, j: int|
                    0 <= i < s1.len() && 0 <= j < ready1.len() && (
                    #[trigger] s1[i]).vertex_index != usize::MAX implies s1[i].vertex_index != (
                #[trigger] ready1[j]).0 by {
                    assert(s1[i] == m.stack[i]);
                    if j == ready1.len() - 1 {
                        assert(ready1[j].0 == e.vertex_index);
                    } else {
                        assert(ready1[j] == m.ready[j]);
                    }
                }
            }
        }
        if e.method_id == mid {
        } else {
            lemma_exit_loop_slots_wf(m1, at, mid);
            assert(spec_exit_loop(m.stack, m.verts, m.ready, m.free_depth, at, mid)
                == spec_exit_loop(s1, verts1, ready1, fd1, at, mid));
        }
    }
}

/// A `Return` preserves the slot invariant.
pub proof fn lemma_exit_slots_wf(m: StackModel, at: u64, mid: u64)
    requires
        slots_wf(m),
    ensures
        slots_wf(spec_exit(m, at, mid)),
{
    lemma_exit_loop_slots_wf(m, at, mid);
}

/// A cut preserves the slot invariant: each closed frame's slot stays used
/// but moves to the pending queue, and the frame releases its reference.
pub proof fn lemma_cut_loop_slots_wf(m: StackModel, at: u64, pos: int)
    requires
        slots_wf(m),
    ensures
        ({
            let r = spec_cut_loop(m.stack, m.verts, m.ready, at, pos);
            slots_wf(StackModel { stack: r.0, verts: r.1, ready: r.2, ..m })
        }),
    decreases m.stack.len() - pos,
{
    if pos < 0 || pos >= m.stack.len() {
    } else {
        let e = m.stack[pos];
        let s1 = m.stack.update(
            pos,
            crate::trace::CallStackEntry { vertex_index: usize::MAX, method_id: e.method_id },
        );
        let closed = e.vertex_index != usize::MAX && (e.vertex_index as int) < m.verts.0.len();
        let verts1 = if closed {
            spec_gsv_set_end(m.verts, e.vertex_index, at)
        } else {
            m.verts
        };
        let ready1 = if closed {
            m.ready.push((e.vertex_index, at))
        } else {
            m.ready
        };
        let m1 = StackModel { stack: s1, verts: verts1, ready: ready1, ..m };
        assert(verts1.0.len() == m.verts.0.len());
        assert(slots_wf(m1)) by {
            if closed {
                assert(m.stack[pos].vertex_index == e.vertex_index);
                assert forall|i: int, j: int|
                    0 <= i < j < ready1.len() implies (ready1[i]).0 != (ready1[j]).0 by {
                    if j == ready1.len() - 1 {
                        assert(ready1[j].0 == e.vertex_index);
                        assert(ready1[i] == m.ready[i]);
                    } else {
                        assert(ready1[i] == m.ready[i] && ready1[j] == m.ready[j]);
                    }
                }
                assert forall|i: int| 0 <= i < ready1.len() implies m.used.contains(
                    (#[trigger] ready1[i]).0,
                ) by {
                    if i == ready1.len() - 1 {
                        assert(ready1[i].0 == e.vertex_index);
                        assert(m.used.contains(e.vertex_index));
                    } else {
                        assert(ready1[i] == m.ready[i]);
                    }
                }
                assert forall|i: int, j: int|
                    0 <= i < s1.len() && 0 <= j < ready1.len() && (#[trigger] s1[i]).vertex_index
                        != usize::MAX implies s1[i].vertex_index != (#[trigger] ready1[j]).0 by {
                    assert(i != pos);
                    assert(s1[i] == m.stack[i]);
                    if j == ready1.len() - 1 {
                        assert(ready1[j].0 == e.vertex_index);
                    } else {
                        assert(ready1[j] == m.ready[j]);
                    }
                }
            }
        }
        lemma_cut_loop_slots_wf(m1, at, pos + 1);
        assert(spec_cut_loop(m.stack, m.verts, m.ready, at, pos) == spec_cut_loop(
            s1,
            verts1,
            ready1,
            at,
            pos + 1,
        ));
    }
}

/// A `GCStart` or a suspension preserves the slot invariant.
pub proof fn lemma_cut_slots_wf(m: StackModel, at: u64)
    requires
        slots_wf(m),
    ensures
        slots_wf(spec_cut(m, at)),
{
    lemma_cut_loop_slots_wf(m, at, 0);
    let r = spec_cut_loop(m.stack, m.verts, m.ready, at, 0);
    let c = spec_cut(m, at);
    assert(c.stack == r.0 && c.verts == r.1 && c.ready == r.2 && c.free == m.free && c.used
        == m.used);
    let w = StackModel { stack: r.0, verts: r.1, ready: r.2, ..m };
    assert(w.stack == c.stack && w.verts == c.verts && w.ready == c.ready && w.free == c.free
        && w.used == c.used);
}

/// Reopening every frame preserves the slot invariant: each frame gets a
/// slot nothing else references.
pub proof fn lemma_resume_loop_slots_wf(m: StackModel, at: u64, pos: int)
    requires
        slots_wf(m),
        m.verts.0.len() + m.stack.len() - pos <= usize::MAX,
    ensures
        ({
            let r = spec_resume_loop(m.stack, m.verts, m.free, m.used, at, pos);
            slots_wf(StackModel { stack: r.0, verts: r.1, free: r.2, used: r.3, ..m })
        }),
    decreases m.stack.len() - pos,
{
    if pos < 0 || pos >= m.stack.len() {
    } else {
        let e = m.stack[pos];
        let v = crate::trace::spec_call_box(at, u64::MAX, e.method_id, pos as u32);
        lemma_alloc_slots(m, v);
        let a = crate::state::spec_alloc(m.verts, m.free, v);
        let idx = a.2;
        let s1 = m.stack.update(
            pos,
            crate::trace::CallStackEntry { vertex_index: idx, method_id: e.method_id },
        );
        let used1 = crate::state::spec_used_insert(m.used, idx);
        let m1 = StackModel { stack: s1, verts: a.0, free: a.1, used: used1, ..m };
        assert(slots_wf(m1)) by {
            assert forall|i: int| 0 <= i < used1.len() implies (#[trigger] used1[i])
                < m1.verts.0.len() by {
                assert(used1.contains(used1[i]));
                if used1[i] == idx {
                } else {
                    assert(m.used.contains(used1[i]));
                    let j = choose|j: int| 0 <= j < m.used.len() && m.used[j] == used1[i];
                }
            }
            assert forall|i: int|
                0 <= i < s1.len() && (#[trigger] s1[i]).vertex_index
                    != usize::MAX implies used1.contains(s1[i].vertex_index) by {
                if i == pos {
                    assert(s1[i].vertex_index == idx);
                } else {
                    assert(s1[i] == m.stack[i]);
                    assert(m.used.contains(m.stack[i].vertex_index));
                }
            }
            assert forall|i: int, j: int|
                0 <= i < j < s1.len() && s1[i].vertex_index != usize::MAX && s1[j].vertex_index
                    != usize::MAX implies s1[i].vertex_index != s1[j].vertex_index by {
                if i != pos && j != pos {
                    assert(s1[i] == m.stack[i] && s1[j] == m.stack[j]);
                } else if i == pos {
                    assert(s1[i].vertex_index == idx);
                    assert(s1[j] == m.stack[j]);
                    assert(m.used.contains(m.stack[j].vertex_index));
                    assert(!m.used.contains(idx));
                } else {
                    assert(s1[j].vertex_index == idx);
                    assert(s1[i] == m.stack[i]);
                    assert(m.used.contains(m.stack[i].vertex_index));
                    assert(!m.used.contains(idx));
                }
            }
            assert forall|i: int, j: int|
                0 <= i < s1.len() && 0 <= j < m1.ready.len() && (#[trigger] s1[i]).vertex_index
                    != usize::MAX implies s1[i].vertex_index != (#[trigger] m1.ready[j]).0 by {
                if i == pos {
                    assert(s1[i].vertex_index == idx);
                    assert(m.used.contains(m.ready[j].0));
                    assert(!m.used.contains(idx));
                } else {
                    assert(s1[i] == m.stack[i]);
                }
            }
        }
        lemma_resume_loop_slots_wf(m1, at, pos + 1);
        assert(spec_resume_loop(m.stack, m.verts, m.free, m.used, at, pos) == spec_resume_loop(
            s1,
            a.0,
            a.1,
            used1,
            at,
            pos + 1,
        ));
    }
}

/// A `GCEnd` or a resumption preserves the slot invariant.
pub proof fn lemma_resume_slots_wf(m: StackModel, at: u64)
    requires
        slots_wf(m),
        m.verts.0.len() + m.stack.len() <= usize::MAX,
    ensures
        slots_wf(spec_resume(m, at)),
{
    lemma_drain_slots_wf(m, at);
    let d = spec_drain(m.ready, m.free, m.used, at);
    let m1 = StackModel { ready: d.0, free: d.1, used: d.2, ..m };
    lemma_resume_loop_slots_wf(m1, at, 0);
    let r = spec_resume_loop(m1.stack, m1.verts, m1.free, m1.used, at, 0);
    let c = spec_resume(m, at);
    assert(c.stack == r.0 && c.verts == r.1 && c.ready == d.0 && c.free == r.2 && c.used == r.3);
    let w = StackModel { stack: r.0, verts: r.1, free: r.2, used: r.3, ..m1 };
    assert(w.stack == c.stack && w.verts == c.verts && w.ready == c.ready && w.free == c.free
        && w.used == c.used);
}

/// Housekeeping preserves the slot invariant: expired pending slots move
/// to the free pool, and the store is cut just past the largest slot still
/// used, so every used slot still addresses it.
pub proof fn lemma_sync_slots_wf(m: StackModel, now: u64)
    requires
        slots_wf(m),
    ensures
        slots_wf(spec_stack_sync(m, now)),
{
    lemma_drain_slots_wf(m, now);
    let d = spec_drain(m.ready, m.free, m.used, now);
    let md = StackModel { ready: d.0, free: d.1, used: d.2, ..m };
    assert(slots_wf(md));
    let required = crate::state::spec_required_len(d.2, m.verts.0.len());
    let vm = spec_gsv_truncate(m.verts, required);
    assert(vm.0.len() <= m.verts.0.len());
    if d.2.len() > 0 {
        assert(d.2[d.2.len() - 1] < m.verts.0.len());
        assert(vm.0.len() >= required);
    }
    assert forall|i: int| 0 <= i < d.2.len() implies (#[trigger] d.2[i]) < vm.0.len() by {
        assert(d.2[i] <= d.2[d.2.len() - 1]);
        assert(d.2[i] < required);
    }
    let m2 = spec_stack_sync(m, now);
    assert(m2.stack == md.stack && m2.ready == md.ready && m2.free == md.free && m2.used
        == md.used);
    assert(m2.verts.0.len() == vm.0.len());
}

/// A strictly ascending sequence grows at least as fast as its indices.
proof fn lemma_strict_asc_lower(s: Seq<usize>, i: int)
    requires
        crate::state::spec_strict_asc(s),
        0 <= i < s.len(),
    ensures
        s[i] >= i,
    decreases i,
{
    if i > 0 {
        lemma_strict_asc_lower(s, i - 1);
        assert(s[i] > s[i - 1]);
    }
}

/// The slot accounting the recycling state machine maintains: the used set
/// never outgrows the store, the used set and the free pool are disjoint,
/// and — whenever no frame is cut — the open frames never outnumber the
/// used slots.
pub proof fn lemma_slot_accounting(m: StackModel)
    requires
        slots_wf(m),
    ensures
        m.used.len() <= m.verts.0.len(),
        forall|x: usize| m.used.contains(x) ==> !m.free.contains(x),
        (forall|i: int|
            0 <= i < m.stack.len() ==> (#[trigger] m.stack[i]).vertex_index != usize::MAX)
            ==> m.stack.len() <= m.used.len(),
{
    broadcast use vstd::set_lib::group_set_lib_default, vstd::set::group_set_axioms;

    assert forall|x: usize| m.used.contains(x) implies !m.free.contains(x) by {
        if m.free.contains(x) {
            let j = choose|j: int| 0 <= j < m.free.len() && m.free[j] == x;
            assert(!m.used.contains(m.free[j]));
        }
    }
    if m.used.len() > 0 {
        lemma_strict_asc_lower(m.used, m.used.len() - 1);
        assert(m.used[m.used.len() - 1] < m.verts.0.len());
    }
    if forall|i: int|
        0 <= i < m.stack.len() ==> (#[trigger] m.stack[i]).vertex_index != usize::MAX {
        let ids = m.stack.map_values(|e: crate::trace::CallStackEntry| e.vertex_index);
        assert(ids.no_duplicates()) by {
            assert(forall|i: int, j: int|
                0 <= i < j < ids.len() ==> ids[i] == m.stack[i].vertex_index && ids[j]
                    == m.stack[j].vertex_index);
        }
        ids.unique_seq_to_set();
        m.used.unique_seq_to_set();
        assert forall|x: usize| ids.to_set().contains(x) implies m.used.to_set().contains(x) by {
            let j = choose|j: int| 0 <= j < ids.len() && ids[j] == x;
            assert(m.used.contains(m.stack[j].vertex_index));
        }
        vstd::set_lib::lemma_len_subset(ids.to_set(), m.used.to_set());
    }
}

/// What a cut does to the store, box by box: every box keeps its start and
/// method and is at most re-ended at `at`, and every frame's own box is
/// exactly its old content closed at `at`.
pub proof fn lemma_cut_loop_effect(
    stack: Seq<crate::trace::CallStackEntry>,
    verts: (Seq<CallBox>, usize, usize),
    ready: Seq<(usize, u64)>,
    at: u64,
    pos: int,
)
    requires
        0 <= pos,
    ensures
        ({
            let r = spec_cut_loop(stack, verts, ready, at, pos);
            &&& r.1.0.len() == verts.0.len()
            &&& r.0.len() == stack.len()
            &&& (forall|k: int| 0 <= k < pos && k < stack.len() ==> (#[trigger] r.0[k]) == stack[k])
            &&& (forall|k: int|
                pos <= k < stack.len() ==> (#[trigger] r.0[k])
                    == (crate::trace::CallStackEntry {
                    vertex_index: usize::MAX,
                    method_id: stack[k].method_id,
                }))
            &&& (forall|i: int|
                0 <= i < verts.0.len() ==> (#[trigger] r.1.0[i]) == verts.0[i] || r.1.0[i]
                    == (CallBox {
                    end_lo: crate::event::spec_time_lo(at),
                    end_hi: crate::event::spec_time_hi(at),
                    ..verts.0[i]
                }))
            &&& (forall|k: int|
                pos <= k < stack.len() && (#[trigger] stack[k]).vertex_index != usize::MAX && (
                stack[k].vertex_index as int) < verts.0.len() ==> r.1.0[stack[k].vertex_index as int]
                    == (CallBox {
                    end_lo: crate::event::spec_time_lo(at),
                    end_hi: crate::event::spec_time_hi(at),
                    ..verts.0[stack[k].vertex_index as int]
                }))
        }),
    decreases stack.len() - pos,
{
    if pos < 0 || pos >= stack.len() {
    } else {
        let e = stack[pos];
        let s1 = stack.update(
            pos,
            crate::trace::CallStackEntry { vertex_index: usize::MAX, method_id: e.method_id },
        );
        let closed = e.vertex_index != usize::MAX && (e.vertex_index as int) < verts.0.len();
        let verts1 = if closed {
            spec_gsv_set_end(verts, e.vertex_index, at)
        } else {
            verts
        };
        let ready1 = if closed {
            ready.push((e.vertex_index, at))
        } else {
            ready
        };
        lemma_cut_loop_effect(s1, verts1, ready1, at, pos + 1);
        let r = spec_cut_loop(stack, verts, ready, at, pos);
        assert(r == spec_cut_loop(s1, verts1, ready1, at, pos + 1));
        assert forall|k: int| pos <= k < stack.len() implies (#[trigger] r.0[k])
            == (crate::trace::CallStackEntry {
            vertex_index: usize::MAX,
            method_id: stack[k].method_id,
        }) by {
            if k == pos {
                assert(r.0[k] == s1[pos]);
            } else {
                assert(s1[k] == stack[k]);
            }
        }
        let cl = |i: int|
            CallBox {
                end_lo: crate::event::spec_time_lo(at),
                end_hi: crate::event::spec_time_hi(at),
                ..verts.0[i]
            };
        assert forall|i: int| 0 <= i < verts.0.len() implies (#[trigger] r.1.0[i]) == verts.0[i]
            || r.1.0[i] == (CallBox {
            end_lo: crate::event::spec_time_lo(at),
            end_hi: crate::event::spec_time_hi(at),
            ..verts.0[i]
        }) by {
            if closed && i == e.vertex_index {
                assert(verts1.0[i] == cl(i));
                assert(r.1.0[i] == verts1.0[i] || r.1.0[i] == (CallBox {
                    end_lo: crate::event::spec_time_lo(at),
                    end_hi: crate::event::spec_time_hi(at),
                    ..verts1.0[i]
                }));
            } else {
                assert(verts1.0[i] == verts.0[i]);
            }
        }
        assert forall|k: int|
            pos <= k < stack.len() && (#[trigger] stack[k]).vertex_index != usize::MAX && (
            stack[k].vertex_index as int) < verts.0.len() implies r.1.0[stack[k].vertex_index as int]
            == (CallBox {
            end_lo: crate::event::spec_time_lo(at),
            end_hi: crate::event::spec_time_hi(at),
            ..verts.0[stack[k].vertex_index as int]
        }) by {
            let idx = stack[k].vertex_index as int;
            if k == pos {
                assert(closed);
                assert(verts1.0[idx] == cl(idx));
                assert(r.1.0[idx] == verts1.0[idx] || r.1.0[idx] == (CallBox {
                    end_lo: crate::event::spec_time_lo(at),
                    end_hi: crate::event::spec_time_hi(at),
                    ..verts1.0[idx]
                }));
            } else {
                assert(s1[k] == stack[k]);
                assert(r.1.0[idx] == (CallBox {
                    end_lo: crate::event::spec_time_lo(at),
                    end_hi: crate::event::spec_time_hi(at),
                    ..verts1.0[idx]
                }));
                if closed && idx == e.vertex_index {
                    assert(verts1.0[idx] == cl(idx));
                } else {
                    assert(verts1.0[idx] == verts.0[idx]);
                }
            }
        }
    }
}

/// A used slot keeps its box through a drain: draining only moves indices
/// between the bookkeeping orders.
pub proof fn lemma_drain_keeps_slot(m: StackModel, at: u64, s: usize)
    requires
        slots_wf(m),
        m.used.contains(s),
        forall|i: int|
            0 <= i < m.ready.len() && (#[trigger] m.ready[i]).0 == s ==> m.ready[i].1
                + crate::VISIBLE_DURATION >= at,
    ensures
        spec_drain(m.ready, m.free, m.used, at).2.contains(s),
    decreases m.ready.len(),
{
    if m.ready.len() > 0 && m.ready[0].1 + crate::VISIBLE_DURATION < at {
        let idx = m.ready[0].0;
        assert(idx != s);
        lemma_used_remove_facts(m.used, idx);
        lemma_free_insert_facts(m.free, idx);
        assert(!m.free.contains(idx)) by {
            if m.free.contains(idx) {
                let j = choose|j: int| 0 <= j < m.free.len() && m.free[j] == idx;
                assert(!m.used.contains(m.free[j]));
            }
        }
        lemma_drain_slots_wf_once(m, at);
        let m1 = StackModel {
            ready: m.ready.drop_first(),
            free: crate::state::spec_free_insert(m.free, idx),
            used: crate::state::spec_used_remove(m.used, idx),
            ..m
        };
        assert(m1.used.contains(s));
        assert(forall|i: int|
            0 <= i < m1.ready.len() ==> (#[trigger] m1.ready[i]) == m.ready[i + 1]);
        lemma_drain_keeps_slot(m1, at, s);
        assert(spec_drain(m.ready, m.free, m.used, at) == spec_drain(
            m1.ready,
            m1.free,
            m1.used,
            at,
        ));
    }
}

/// One drain step preserves the slot invariant.
proof fn lemma_drain_slots_wf_once(m: StackModel, at: u64)
    requires
        slots_wf(m),
        m.ready.len() > 0,
        m.ready[0].1 + crate::VISIBLE_DURATION < at,
    ensures
        slots_wf(
            StackModel {
                ready: m.ready.drop_first(),
                free: crate::state::spec_free_insert(m.free, m.ready[0].0),
                used: crate::state::spec_used_remove(m.used, m.ready[0].0),
                ..m
            },
        ),
{
    let idx = m.ready[0].0;
    assert(m.used.contains(idx));
    assert(!m.free.contains(idx)) by {
        if m.free.contains(idx) {
            let j = choose|j: int| 0 <= j < m.free.len() && m.free[j] == idx;
            assert(!m.used.contains(m.free[j]));
        }
    }
    lemma_used_remove_facts(m.used, idx);
    lemma_free_insert_facts(m.free, idx);
    let used1 = crate::state::spec_used_remove(m.used, idx);
    let free1 = crate::state::spec_free_insert(m.free, idx);
    let ready1 = m.ready.drop_first();
    assert(forall|i: int| 0 <= i < ready1.len() ==> (#[trigger] ready1[i]) == m.ready[i + 1]);
    assert forall|i: int| 0 <= i < used1.len() implies (#[trigger] used1[i])
        < m.verts.0.len() by {
        assert(used1.contains(used1[i]));
        assert(m.used.contains(used1[i]));
        let j = choose|j: int| 0 <= j < m.used.len() && m.used[j] == used1[i];
    }
    assert forall|i: int| 0 <= i < free1.len() implies !used1.contains(#[trigger] free1[i]) by {
        assert(free1.contains(free1[i]));
        if used1.contains(free1[i]) {
            assert(m.used.contains(free1[i]) && free1[i] != idx);
            if m.free.contains(free1[i]) {
                let j = choose|j: int| 0 <= j < m.free.len() && m.free[j] == free1[i];
                assert(!m.used.contains(m.free[j]));
            }
        }
    }
    assert forall|i: int| 0 <= i < ready1.len() implies used1.contains(
        (#[trigger] ready1[i]).0,
    ) by {
        assert(ready1[i] == m.ready[i + 1]);
        assert(m.used.contains(m.ready[i + 1].0));
        assert(m.ready[i + 1].0 != idx);
    }
    assert forall|i: int|
        0 <= i < m.stack.len() && (#[trigger] m.stack[i]).vertex_index
            != usize::MAX implies used1.contains(m.stack[i].vertex_index) by {
        assert(m.used.contains(m.stack[i].vertex_index));
        assert(m.stack[i].vertex_index != m.ready[0].0);
    }
}

/// What reopening does, slot by slot: every used slot keeps its box, and
/// every frame ends up referencing a fresh open box of its method at its
/// depth.
pub proof fn lemma_resume_loop_effect(m: StackModel, at: u64, pos: int)
    requires
        slots_wf(m),
        at <= TIMESTAMP_MASK,
        0 <= pos,
        m.verts.0.len() + m.stack.len() - pos <= usize::MAX,
    ensures
        ({
            let r = spec_resume_loop(m.stack, m.verts, m.free, m.used, at, pos);
            &&& r.0.len() == m.stack.len()
            &&& (forall|s: usize|
                m.used.contains(s) ==> (s as int) < r.1.0.len() && r.1.0[s as int] == m.verts.0[
                s as int])
            &&& (forall|k: int|
                0 <= k < pos ==> (#[trigger] r.0[k]) == m.stack[k])
            &&& (forall|k: int|
                pos <= k < m.stack.len() ==> (#[trigger] r.0[k]).method_id == m.stack[k].method_id
                    && (r.0[k].vertex_index as int) < r.1.0.len() && r.1.0[r.0[k].vertex_index as int]
                    == crate::trace::spec_call_box(at, u64::MAX, m.stack[k].method_id, k as u32))
        }),
    decreases m.stack.len() - pos,
{
    if pos < 0 || pos >= m.stack.len() {
        assert forall|s: usize| m.used.contains(s) implies (s as int) < m.verts.0.len()
            && m.verts.0[s as int] == m.verts.0[s as int] by {
            let j = choose|j: int| 0 <= j < m.used.len() && m.used[j] == s;
        }
    } else {
        let e = m.stack[pos];
        let v = crate::trace::spec_call_box(at, u64::MAX, e.method_id, pos as u32);
        lemma_alloc_slots(m, v);
        let a = crate::state::spec_alloc(m.verts, m.free, v);
        let idx = a.2;
        let s1 = m.stack.update(
            pos,
            crate::trace::CallStackEntry { vertex_index: idx, method_id: e.method_id },
        );
        let used1 = crate::state::spec_used_insert(m.used, idx);
        let m1 = StackModel { stack: s1, verts: a.0, free: a.1, used: used1, ..m };
        assert(slots_wf(m1)) by {
            lemma_resume_step_wf(m, at, pos);
        }
        lemma_resume_loop_effect(m1, at, pos + 1);
        let r = spec_resume_loop(m.stack, m.verts, m.free, m.used, at, pos);
        assert(r == spec_resume_loop(s1, a.0, a.1, used1, at, pos + 1));
        assert(a.0.0[idx as int] == v);
        assert forall|s: usize| m.used.contains(s) implies (s as int) < r.1.0.len() && r.1.0[
        s as int] == m.verts.0[s as int] by {
            assert(used1.contains(s));
            assert(r.1.0[s as int] == m1.verts.0[s as int]);
            let j = choose|j: int| 0 <= j < m.used.len() && m.used[j] == s;
            assert(s != idx);
            assert(m1.verts.0[s as int] == m.verts.0[s as int]);
        }
        assert forall|k: int|
            pos <= k < m.stack.len() implies (#[trigger] r.0[k]).method_id == m.stack[k].method_id
            && (r.0[k].vertex_index as int) < r.1.0.len() && r.1.0[r.0[k].vertex_index as int]
            == crate::trace::spec_call_box(at, u64::MAX, m.stack[k].method_id, k as u32) by {
            if k == pos {
                assert(r.0[k] == s1[pos]);
                assert(used1.contains(idx));
                assert(r.1.0[idx as int] == m1.verts.0[idx as int]);
            } else {
                assert(s1[k] == m.stack[k]);
            }
        }
    }
}

/// One reopening step preserves the slot invariant.
proof fn lemma_resume_step_wf(m: StackModel, at: u64, pos: int)
    requires
        slots_wf(m),
        0 <= pos < m.stack.len(),
        m.verts.0.len() < usize::MAX,
    ensures
        ({
            let e = m.stack[pos];
            let v = crate::trace::spec_call_box(at, u64::MAX, e.method_id, pos as u32);
            let a = crate::state::spec_alloc(m.verts, m.free, v);
            slots_wf(
                StackModel {
                    stack: m.stack.update(
                        pos,
                        crate::trace::CallStackEntry {
                            vertex_index: a.2,
                            method_id: e.method_id,
                        },
                    ),
                    verts: a.0,
                    free: a.1,
                    used: crate::state::spec_used_insert(m.used, a.2),
                    ..m
                },
            )
        }),
{
    let e = m.stack[pos];
    let v = crate::trace::spec_call_box(at, u64::MAX, e.method_id, pos as u32);
    lemma_alloc_slots(m, v);
    let a = crate::state::spec_alloc(m.verts, m.free, v);
    let idx = a.2;
    let s1 = m.stack.update(
        pos,
        crate::trace::CallStackEntry { vertex_index: idx, method_id: e.method_id },
    );
    let used1 = crate::state::spec_used_insert(m.used, idx);
    assert forall|i: int| 0 <= i < used1.len() implies (#[trigger] used1[i]) < a.0.0.len() by {
        assert(used1.contains(used1[i]));
        if used1[i] == idx {
        } else {
            assert(m.used.contains(used1[i]));
            let j = choose|j: int| 0 <= j < m.used.len() && m.used[j] == used1[i];
        }
    }
    assert forall|i: int|
        0 <= i < s1.len() && (#[trigger] s1[i]).vertex_index != usize::MAX implies used1.contains(
        s1[i].vertex_index) by {
        if i == pos {
        } else {
            assert(s1[i] == m.stack[i]);
            assert(m.used.contains(m.stack[i].vertex_index));
        }
    }
    assert forall|i: int, j: int|
        0 <= i < j < s1.len() && s1[i].vertex_index != usize::MAX && s1[j].vertex_index
            != usize::MAX implies s1[i].vertex_index != s1[j].vertex_index by {
        if i != pos && j != pos {
            assert(s1[i] == m.stack[i] && s1[j] == m.stack[j]);
        } else if i == pos {
            assert(s1[j] == m.stack[j]);
            assert(m.used.contains(m.stack[j].vertex_index));
        } else {
            assert(s1[i] == m.stack[i]);
            assert(m.used.contains(m.stack[i].vertex_index));
        }
    }
    assert forall|i: int, j: int|
        0 <= i < s1.len() && 0 <= j < m.ready.len() && (#[trigger] s1[i]).vertex_index
            != usize::MAX implies s1[i].vertex_index != (#[trigger] m.ready[j]).0 by {
        if i == pos {
            assert(m.used.contains(m.ready[j].0));
        } else {
            assert(s1[i] == m.stack[i]);
        }
    }
}

/// A garbage-collection pause splits every open call into exactly two
/// adjacent boxes: `GCStart` at `t1` closes each open frame's box at `t1`,
/// and the immediately following `GCEnd` at `t2` gives the frame a fresh
/// open box of the same method starting at `t2`.  The pause must lie
/// inside the visibility window, or the closed slot could be recycled in
/// between.
pub proof fn lemma_gc_pause_two_boxes(m: StackModel, t1: u64, t2: u64)
    requires
        slots_wf(m),
        t1 <= t2,
        t2 <= TIMESTAMP_MASK,
        t2 < t1 + crate::VISIBLE_DURATION,
        m.verts.0.len() + m.stack.len() <= usize::MAX,
        forall|k: int| 0 <= k < m.stack.len() ==> (#[trigger] m.stack[k]).vertex_index != usize::MAX,
        forall|k: int|
            0 <= k < m.ready.len() ==> (#[trigger] m.ready[k]).1 <= t1,
    ensures
        ({
            let m2 = spec_resume(spec_cut(m, t1), t2);
            &&& m2.stack.len() == m.stack.len()
            &&& forall|k: int|
                0 <= k < m.stack.len() ==> {
                    let old_idx = (#[trigger] m.stack[k]).vertex_index as int;
                    let new_idx = m2.stack[k].vertex_index as int;
                    &&& m2.verts.0[old_idx] == (CallBox {
                        end_lo: crate::event::spec_time_lo(t1),
                        end_hi: crate::event::spec_time_hi(t1),
                        ..m.verts.0[old_idx]
                    })
                    &&& m2.verts.0[new_idx] == crate::trace::spec_call_box(
                        t2,
                        u64::MAX,
                        m.stack[k].method_id,
                        k as u32,
                    )
                    &&& new_idx != old_idx
                }
        }),
{
    lemma_cut_loop_effect(m.stack, m.verts, m.ready, t1, 0);
    lemma_cut_slots_wf(m, t1);
    let mc = spec_cut(m, t1);
    let r = spec_cut_loop(m.stack, m.verts, m.ready, t1, 0);
    assert(mc.stack == r.0 && mc.verts == r.1 && mc.ready == r.2 && mc.free == m.free && mc.used
        == m.used);
    // the cut appended one pending entry per frame, each stamped t1
    lemma_cut_loop_ready_times(m.stack, m.verts, m.ready, t1, 0);
    lemma_drain_slots_wf(mc, t2);
    let d = spec_drain(mc.ready, mc.free, mc.used, t2);
    let md = StackModel { ready: d.0, free: d.1, used: d.2, ..mc };
    assert(slots_wf(StackModel { ready: d.0, free: d.1, used: d.2, ..mc }));
    // every old frame's slot survives the drain: its only pending entries
    // are stamped t1, inside the window
    assert forall|k: int| 0 <= k < m.stack.len() implies d.2.contains(
        (#[trigger] m.stack[k]).vertex_index,
    ) by {
        let s = m.stack[k].vertex_index;
        assert(m.used.contains(s));
        assert forall|i: int|
            0 <= i < mc.ready.len() && (#[trigger] mc.ready[i]).0 == s implies mc.ready[i].1
            + crate::VISIBLE_DURATION >= t2 by {
            if i < m.ready.len() {
                assert(mc.ready[i] == m.ready[i]);
                assert(m.stack[k].vertex_index != m.ready[i].0);
            } else {
                assert(mc.ready[i].1 == t1);
            }
        }
        lemma_drain_keeps_slot(mc, t2, s);
    }
    assert(md.verts.0.len() == m.verts.0.len());
    assert(md.stack.len() == m.stack.len());
    assert(md.verts.0.len() + md.stack.len() - 0 <= usize::MAX);
    lemma_resume_loop_effect(md, t2, 0);
    let rr = spec_resume_loop(md.stack, md.verts, md.free, md.used, t2, 0);
    let m2 = spec_resume(mc, t2);
    assert(m2.stack == rr.0 && m2.verts == rr.1);
    assert forall|k: int| 0 <= k < m.stack.len() implies ({
        let old_idx = (#[trigger] m.stack[k]).vertex_index as int;
        let new_idx = m2.stack[k].vertex_index as int;
        &&& m2.verts.0[old_idx] == (CallBox {
            end_lo: crate::event::spec_time_lo(t1),
            end_hi: crate::event::spec_time_hi(t1),
            ..m.verts.0[old_idx]
        })
        &&& m2.verts.0[new_idx] == crate::trace::spec_call_box(
            t2,
            u64::MAX,
            m.stack[k].method_id,
            k as u32,
        )
        &&& new_idx != old_idx
    }) by {
        let s = m.stack[k].vertex_index;
        assert(m.used.contains(s));
        let j = choose|j: int| 0 <= j < m.used.len() && m.used[j] == s;
        assert((s as int) < m.verts.0.len());
        assert(mc.verts.0[s as int] == (CallBox {
            end_lo: crate::event::spec_time_lo(t1),
            end_hi: crate::event::spec_time_hi(t1),
            ..m.verts.0[s as int]
        }));
        assert(d.2.contains(s));
        assert(m2.verts.0[s as int] == md.verts.0[s as int]);
        assert(md.stack[k].method_id == m.stack[k].method_id) by {
            assert(mc.stack[k] == crate::trace::CallStackEntry {
                vertex_index: usize::MAX,
                method_id: m.stack[k].method_id,
            });
        }
        assert(m2.verts.0[m2.stack[k].vertex_index as int] == crate::trace::spec_call_box(
            t2,
            u64::MAX,
            m.stack[k].method_id,
            k as u32,
        ));
        assert(m2.stack[k].vertex_index != s) by {
            assert(md.used.contains(s));
            lemma_resume_fresh_slots(md, t2, 0, k, s);
        }
    }
}

/// Every pending entry a cut appends is stamped with the cut time, and the
/// entries before it keep their stamps.
pub proof fn lemma_cut_loop_ready_times(
    stack: Seq<crate::trace::CallStackEntry>,
    verts: (Seq<CallBox>, usize, usize),
    ready: Seq<(usize, u64)>,
    at: u64,
    pos: int,
)
    ensures
        ({
            let r = spec_cut_loop(stack, verts, ready, at, pos);
            &&& r.2.len() >= ready.len()
            &&& (forall|i: int| 0 <= i < ready.len() ==> (#[trigger] r.2[i]) == ready[i])
            &&& (forall|i: int| ready.len() <= i < r.2.len() ==> (#[trigger] r.2[i]).1 == at)
        }),
    decreases stack.len() - pos,
{
    if pos < 0 || pos >= stack.len() {
    } else {
        let e = stack[pos];
        let s1 = stack.update(
            pos,
            crate::trace::CallStackEntry { vertex_index: usize::MAX, method_id: e.method_id },
        );
        let closed = e.vertex_index != usize::MAX && (e.vertex_index as int) < verts.0.len();
        let verts1 = if closed {
            spec_gsv_set_end(verts, e.vertex_index, at)
        } else {
            verts
        };
        let ready1 = if closed {
            ready.push((e.vertex_index, at))
        } else {
            ready
        };
        lemma_cut_loop_ready_times(s1, verts1, ready1, at, pos + 1);
    }
}

/// Frames before the reopening position are left alone.
proof fn lemma_resume_loop_keeps_prefix(m: StackModel, at: u64, pos: int, k: int)
    requires
        0 <= k < pos,
        k < m.stack.len(),
    ensures
        spec_resume_loop(m.stack, m.verts, m.free, m.used, at, pos).0[k] == m.stack[k],
    decreases m.stack.len() - pos,
{
    if pos < 0 || pos >= m.stack.len() {
    } else {
        let e = m.stack[pos];
        let v = crate::trace::spec_call_box(at, u64::MAX, e.method_id, pos as u32);
        let a = crate::state::spec_alloc(m.verts, m.free, v);
        let s1 = m.stack.update(
            pos,
            crate::trace::CallStackEntry { vertex_index: a.2, method_id: e.method_id },
        );
        let used1 = crate::state::spec_used_insert(m.used, a.2);
        let m1 = StackModel { stack: s1, verts: a.0, free: a.1, used: used1, ..m };
        lemma_resume_loop_keeps_prefix(m1, at, pos + 1, k);
        assert(s1[k] == m.stack[k]);
    }
}

/// A reopened frame never reuses a slot that is still used when the
/// reopening starts.
pub proof fn lemma_resume_fresh_slots(m: StackModel, at: u64, pos: int, k: int, s: usize)
    requires
        slots_wf(m),
        m.verts.0.len() + m.stack.len() - pos <= usize::MAX,
        pos <= k < m.stack.len(),
        0 <= pos,
        m.used.contains(s),
    ensures
        spec_resume_loop(m.stack, m.verts, m.free, m.used, at, pos).0[k].vertex_index != s,
    decreases m.stack.len() - pos,
{
    let e = m.stack[pos];
    let v = crate::trace::spec_call_box(at, u64::MAX, e.method_id, pos as u32);
    assert(m.verts.0.len() < usize::MAX);
    lemma_alloc_slots(m, v);
    let a = crate::state::spec_alloc(m.verts, m.free, v);
    let idx = a.2;
    let s1 = m.stack.update(
        pos,
        crate::trace::CallStackEntry { vertex_index: idx, method_id: e.method_id },
    );
    let used1 = crate::state::spec_used_insert(m.used, idx);
    let m1 = StackModel { stack: s1, verts: a.0, free: a.1, used: used1, ..m };
    lemma_resume_step_wf(m, at, pos);
    assert(m1.verts.0.len() + m1.stack.len() - (pos + 1) <= usize::MAX);
    let r = spec_resume_loop(m.stack, m.verts, m.free, m.used, at, pos);
    assert(r == spec_resume_loop(s1, a.0, a.1, used1, at, pos + 1));
    if k == pos {
        assert(idx != s);
        assert(r.0[k] == s1[pos]) by {
            lemma_resume_loop_keeps_prefix(m1, at, pos + 1, k);
        }
    } else {
        assert(used1.contains(s));
        lemma_resume_fresh_slots(m1, at, pos + 1, k, s);
    }
}

/// One balanced call: a `Call` of `method` at `at_call`, a balanced run of
/// nested calls, and the matching `Return` at `at_return`.
pub struct CallSpan {
    pub method: u64,
    pub at_call: u64,
    pub at_return: u64,
    pub inner: Seq<CallSpan>,
}

/// The state after one balanced call.
pub open spec fn spec_run_span(m: StackModel, s: CallSpan) -> StackModel
    decreases s, 0nat,
{
    spec_exit(spec_run_forest(spec_enter(m, s.at_call, s.method), s.inner), s.at_return, s.method)
}

/// The state after a balanced run of calls, in order.
pub open spec fn spec_run_forest(m: StackModel, f: Seq<CallSpan>) -> StackModel
    decreases f, 1nat, f.len(),
{
    if f.len() == 0 {
        m
    } else {
        spec_run_forest(spec_run_span(m, f[0]), f.drop_first())
    }
}

/// Every open box belongs to an open frame: the store has no open box that
/// no frame on the stack references.
pub open spec fn spec_open_owned(m: StackModel) -> bool {
    forall|i: int|
        0 <= i < m.verts.0.len() && (#[trigger] m.verts.0[i]).spec_is_open() ==> exists|k: int|
            0 <= k < m.stack.len() && (#[trigger] m.stack[k]).vertex_index == i
}

/// The well-formedness a balanced run maintains: the slot invariant, every
/// frame open (none cut), room to grow, and every open box owned by a
/// frame.
pub open spec fn spec_balanced_wf(m: StackModel) -> bool {
    &&& slots_wf(m)
    &&& spec_open_owned(m)
    &&& (forall|k: int|
        0 <= k < m.stack.len() ==> (#[trigger] m.stack[k]).vertex_index != usize::MAX)
}

/// A `Call` keeps the balanced well-formedness and pushes exactly one open
/// frame.
pub proof fn lemma_enter_balanced(m: StackModel, at: u64, mid: u64)
    requires
        spec_balanced_wf(m),
        m.verts.0.len() < usize::MAX,
    ensures
        spec_balanced_wf(spec_enter(m, at, mid)),
        spec_enter(m, at, mid).stack.len() == m.stack.len() + 1,
        spec_enter(m, at, mid).stack.drop_last() == m.stack,
        spec_enter(m, at, mid).stack.last().method_id == mid,
        spec_enter(m, at, mid).verts.0.len() <= m.verts.0.len() + 1,
        spec_enter(m, at, mid).verts.0.len() >= m.verts.0.len(),
        forall|i: int|
            0 <= i < m.verts.0.len() && i != spec_enter(m, at, mid).stack.last().vertex_index
                ==> spec_enter(m, at, mid).verts.0[i] == m.verts.0[i],
{
    lemma_enter_slots_wf(m, at, mid);
    lemma_drain_slots_wf(m, at);
    let d = spec_drain(m.ready, m.free, m.used, at);
    let m1 = StackModel { ready: d.0, free: d.1, used: d.2, ..m };
    let v = crate::trace::spec_call_box(at, u64::MAX, mid, m.stack.len() as u32);
    lemma_alloc_slots(m1, v);
    let a = crate::state::spec_alloc(m1.verts, m1.free, v);
    let m2 = spec_enter(m, at, mid);
    assert(m2.stack =~= m.stack.push(
        crate::trace::CallStackEntry { vertex_index: a.2, method_id: mid },
    ));
    assert(m2.stack.drop_last() =~= m.stack);
    assert((a.2 as int) < a.0.0.len());
    assert(a.2 != usize::MAX) by {
        assert(a.0.0.len() <= m.verts.0.len() + 1);
        assert((a.2 as int) < m.verts.0.len() + 1);
    }
    assert(spec_open_owned(m2)) by {
        assert forall|i: int|
            0 <= i < m2.verts.0.len() && (#[trigger] m2.verts.0[i]).spec_is_open() implies exists|
        k: int| 0 <= k < m2.stack.len() && (#[trigger] m2.stack[k]).vertex_index == i by {
            if i == a.2 {
                assert(m2.stack[m2.stack.len() - 1].vertex_index == a.2);
            } else {
                assert(i < m.verts.0.len());
                assert(m2.verts.0[i] == m.verts.0[i]);
                let k = choose|k: int|
                    0 <= k < m.stack.len() && (#[trigger] m.stack[k]).vertex_index == i;
                assert(m2.stack[k].vertex_index == i);
            }
        }
    }
}

/// A `Return` whose method matches the top frame pops exactly that frame
/// and closes its box, keeping the balanced well-formedness.
pub proof fn lemma_exit_matched_balanced(m: StackModel, at: u64)
    requires
        spec_balanced_wf(m),
        m.stack.len() > 0,
        at <= TIMESTAMP_MASK,
    ensures
        ({
            let mid = m.stack.last().method_id;
            let m2 = spec_exit(m, at, mid);
            &&& spec_balanced_wf(m2)
            &&& m2.stack == m.stack.drop_last()
            &&& m2.verts.0.len() == m.verts.0.len()
            &&& !m2.verts.0[m.stack.last().vertex_index as int].spec_is_open()
            &&& (forall|i: int|
                0 <= i < m.verts.0.len() && !(#[trigger] m.verts.0[i]).spec_is_open()
                    ==> !m2.verts.0[i].spec_is_open())
        }),
{
    let mid = m.stack.last().method_id;
    lemma_exit_slots_wf(m, at, mid);
    let e = m.stack.last();
    let idx = e.vertex_index;
    assert(m.used.contains(idx));
    let j = choose|j: int| 0 <= j < m.used.len() && m.used[j] == idx;
    assert((idx as int) < m.verts.0.len());
    let m2 = spec_exit(m, at, mid);
    let verts1 = spec_gsv_set_end(m.verts, idx, at);
    assert(m2.stack == m.stack.drop_last());
    assert(m2.verts == verts1);
    assert(!verts1.0[idx as int].spec_is_open()) by {
        lemma_closed_end_not_sentinel(at);
    }
    assert forall|i: int|
        0 <= i < m.verts.0.len() && !(#[trigger] m.verts.0[i]).spec_is_open() implies !verts1.0[
    i].spec_is_open() by {
        if i == idx {
        } else {
            assert(verts1.0[i] == m.verts.0[i]);
        }
    }
    assert(spec_open_owned(m2)) by {
        assert forall|i: int|
            0 <= i < m2.verts.0.len() && (#[trigger] m2.verts.0[i]).spec_is_open() implies exists|
        k: int| 0 <= k < m2.stack.len() && (#[trigger] m2.stack[k]).vertex_index == i by {
            assert(i != idx);
            assert(m2.verts.0[i] == m.verts.0[i]);
            let k = choose|k: int|
                0 <= k < m.stack.len() && (#[trigger] m.stack[k]).vertex_index == i;
            assert(k != m.stack.len() - 1);
            assert(m2.stack[k].vertex_index == i);
        }
    }
}

/// A timestamp inside the protocol range never encodes to the open
/// sentinel.
proof fn lemma_closed_end_not_sentinel(at: u64)
    requires
        at <= TIMESTAMP_MASK,
    ensures
        (crate::event::spec_time_lo(at), crate::event::spec_time_hi(at))
            != CallBox::spec_open_end(),
{
    let hi = (at >> 31) & 0xffff_ffff;
    assert((at >> 31) & 0xffff_ffff != 0xffff_ffff && (at >> 31) & 0xffff_ffff < 0x1_0000_0000)
        by (bit_vector)
        requires
            at <= 0x0fff_ffff_ffff_ffffu64,
    ;
    assert(u64::MAX & 0x7fff_ffff == 0x7fff_ffff) by (bit_vector);
    assert((u64::MAX >> 31) & 0xffff_ffff == 0xffff_ffff) by (bit_vector);
    assert((hi as u32) as u64 == hi);
    assert(crate::event::spec_time_hi(at) == hi as u32);
    assert(crate::event::spec_time_hi(u64::MAX) == 0xffff_ffffu32);
    assert(hi as u32 != 0xffff_ffffu32);
}

/// A balanced run leaves the stack exactly as it found it and never leaves
/// a box open that it opened: the whole-sequence half of the balanced
/// round-trip law.
pub proof fn lemma_run_forest_balanced(m: StackModel, f: Seq<CallSpan>)
    requires
        spec_balanced_wf(m),
        spec_spans_wf(f),
        m.verts.0.len() + 2 * spec_forest_size(f) <= usize::MAX,
    ensures
        ({
            let m2 = spec_run_forest(m, f);
            &&& spec_balanced_wf(m2)
            &&& m2.stack == m.stack
            &&& m2.verts.0.len() <= m.verts.0.len() + spec_forest_size(f)
            &&& m2.verts.0.len() >= m.verts.0.len()
            &&& (forall|i: int|
                0 <= i < m.verts.0.len() && !(#[trigger] m.verts.0[i]).spec_is_open()
                    ==> !m2.verts.0[i].spec_is_open())
        }),
    decreases f, 1nat, f.len(),
{
    if f.len() == 0 {
    } else {
        lemma_run_span_balanced(m, f[0]);
        let m1 = spec_run_span(m, f[0]);
        assert(spec_spans_wf(f.drop_first())) by {
            assert(forall|i: int|
                0 <= i < f.drop_first().len() ==> #[trigger] f.drop_first()[i] == f[i + 1]);
        }
        assert(spec_forest_size(f) == spec_span_size(f[0]) + spec_forest_size(f.drop_first()));
        lemma_run_forest_balanced(m1, f.drop_first());
    }
}

/// One balanced call leaves the stack as it found it, with its own box —
/// and every box already closed — closed.
pub proof fn lemma_run_span_balanced(m: StackModel, s: CallSpan)
    requires
        spec_balanced_wf(m),
        spec_span_wf(s),
        m.verts.0.len() + 2 * spec_span_size(s) <= usize::MAX,
    ensures
        ({
            let m2 = spec_run_span(m, s);
            &&& spec_balanced_wf(m2)
            &&& m2.stack == m.stack
            &&& m2.verts.0.len() <= m.verts.0.len() + spec_span_size(s)
            &&& m2.verts.0.len() >= m.verts.0.len()
            &&& (forall|i: int|
                0 <= i < m.verts.0.len() && !(#[trigger] m.verts.0[i]).spec_is_open()
                    ==> !m2.verts.0[i].spec_is_open())
        }),
    decreases s, 2nat,
{
    lemma_enter_balanced(m, s.at_call, s.method);
    let ma = spec_enter(m, s.at_call, s.method);
    assert(spec_span_size(s) == 1 + spec_forest_size(s.inner));
    lemma_run_forest_balanced(ma, s.inner);
    let mb = spec_run_forest(ma, s.inner);
    assert(mb.stack == ma.stack);
    assert(mb.stack.len() > 0);
    assert(mb.stack.last().method_id == s.method);
    lemma_exit_matched_balanced(mb, s.at_return);
    let m2 = spec_exit(mb, s.at_return, s.method);
    assert(m2.stack =~= m.stack);
    let own = ma.stack.last().vertex_index;
    assert(mb.stack.last().vertex_index == own);
    assert forall|i: int|
        0 <= i < m.verts.0.len() && !(#[trigger] m.verts.0[i]).spec_is_open() implies !m2.verts.0[
    i].spec_is_open() by {
        if i == own {
            assert(!m2.verts.0[own as int].spec_is_open());
        } else {
            assert(ma.verts.0[i] == m.verts.0[i]);
            assert(!mb.verts.0[i].spec_is_open());
        }
    }
}

/// Timestamps inside a balanced run stay in the protocol range.
pub open spec fn spec_span_wf(s: CallSpan) -> bool
    decreases s, 0nat,
{
    &&& s.at_return <= TIMESTAMP_MASK
    &&& spec_spans_wf(s.inner)
}

/// Timestamps of a balanced forest stay in the protocol range.
pub open spec fn spec_spans_wf(f: Seq<CallSpan>) -> bool
    decreases f, 1nat, f.len(),
{
    if f.len() == 0 {
        true
    } else {
        spec_span_wf(f[0]) && spec_spans_wf(f.drop_first())
    }
}

/// How many calls a balanced call nests, itself included.
pub open spec fn spec_span_size(s: CallSpan) -> nat
    decreases s, 0nat,
{
    1 + spec_forest_size(s.inner)
}

/// How many calls a balanced forest holds.
pub open spec fn spec_forest_size(f: Seq<CallSpan>) -> nat
    decreases f, 1nat, f.len(),
{
    if f.len() == 0 {
        0nat
    } else {
        spec_span_size(f[0]) + spec_forest_size(f.drop_first())
    }
}

/// A balanced run of calls from an empty stack ends with the stack empty
/// and every box closed: no box carries the `u64::MAX` sentinel.
pub proof fn lemma_balanced_leaves_nothing_open(m: StackModel, f: Seq<CallSpan>)
    requires
        spec_balanced_wf(m),
        spec_spans_wf(f),
        m.stack.len() == 0,
        forall|i: int| 0 <= i < m.verts.0.len() ==> !(#[trigger] m.verts.0[i]).spec_is_open(),
        m.verts.0.len() + 2 * spec_forest_size(f) <= usize::MAX,
    ensures
        spec_run_forest(m, f).stack.len() == 0,
        forall|i: int|
            0 <= i < spec_run_forest(m, f).verts.0.len() ==> !(#[trigger] spec_run_forest(
                m,
                f,
            ).verts.0[i]).spec_is_open(),
{
    lemma_run_forest_balanced(m, f);
    let m2 = spec_run_forest(m, f);
    assert forall|i: int| 0 <= i < m2.verts.0.len() implies !(
    #[trigger] m2.verts.0[i]).spec_is_open() by {
        if m2.verts.0[i].spec_is_open() {
            let k = choose|k: int|
                0 <= k < m2.stack.len() && (#[trigger] m2.stack[k]).vertex_index == i;
        }
    }
}

/// The sorted position is always inside the sequence bounds.
proof fn lemma_asc_position_total(s: Seq<u32>, v: u32)
    ensures
        0 <= crate::state::spec_asc_position(s, v) <= s.len(),
    decreases s.len(),
{
    if s.len() == 0 {
    } else if s[0] >= v {
    } else {
        lemma_asc_position_total(s.drop_first(), v);
    }
}

/// Counting one more occurrence: the sorted insertion adds exactly one of
/// the value to the multiset of entries.
pub proof fn lemma_ms_insert_counts(s: Seq<u32>, v: u32)
    ensures
        crate::state::spec_ms_insert(s, v).to_multiset() =~= s.to_multiset().insert(v),
{
    broadcast use vstd::seq_lib::group_to_multiset_ensures;

    lemma_asc_position_total(s, v);
    let p = crate::state::spec_asc_position(s, v);
    let t = crate::state::spec_ms_insert(s, v);
    assert(t == s.insert(p, v));
    assert(t.remove(p) =~= s);
    assert(t[p] == v);
    assert(t.remove(p).to_multiset() =~= t.to_multiset().remove(t[p]));
    assert(t.to_multiset().count(v) > 0) by {
        assert(t.contains(v)) by {
            assert(t[p] == v);
        }
    }
    assert forall|x: u32| #[trigger] t.to_multiset().count(x) == s.to_multiset().insert(v).count(
        x,
    ) by {
        assert(s.to_multiset().count(x) == t.to_multiset().remove(v).count(x));
    }
}

/// Counting one fewer: on a sorted multiset holding the value, the sorted
/// removal takes exactly one of it out.
pub proof fn lemma_ms_remove_counts(s: Seq<u32>, v: u32)
    requires
        crate::state::spec_sorted_asc(s),
        s.to_multiset().count(v) > 0,
    ensures
        crate::state::spec_ms_remove(s, v).to_multiset() =~= s.to_multiset().remove(v),
{
    broadcast use vstd::seq_lib::group_to_multiset_ensures;

    crate::state::lemma_asc_position_bounds(s, v);
    let p = crate::state::spec_asc_position(s, v);
    assert(s.contains(v));
    let j = choose|j: int| 0 <= j < s.len() && s[j] == v;
    assert(j >= p);
    assert(p < s.len());
    assert(s[p] == v) by {
        if j > p {
            assert(s[p] <= s[j]);
            assert(s[p] >= v);
        }
    }
    assert(crate::state::spec_ms_remove(s, v) == s.remove(p));
    assert(s.remove(p).to_multiset() =~= s.to_multiset().remove(s[p]));
}

/// The depths of the open frames from position `pos` on, one entry per
/// frame at its own position.
pub open spec fn spec_frame_depths(stack: Seq<crate::trace::CallStackEntry>, pos: int) -> Multiset<
    u32,
>
    decreases stack.len() - pos,
{
    if pos < 0 || pos >= stack.len() {
        Multiset::empty()
    } else {
        let rest = spec_frame_depths(stack, pos + 1);
        if stack[pos].vertex_index != usize::MAX {
            rest.insert(pos as u32)
        } else {
            rest
        }
    }
}

/// The depths of the queued frame closures.
pub open spec fn spec_fd_depths(fd: Seq<(u32, u64)>) -> Multiset<u32> {
    fd.map_values(|p: (u32, u64)| p.0).to_multiset()
}

/// The depth accounting the visible-depth multiset maintains: it counts
/// exactly the open frames plus the closures still queued for
/// un-counting.
pub open spec fn spec_depth_inv(m: StackModel) -> bool {
    m.depths.to_multiset() =~= spec_frame_depths(m.stack, 0).add(spec_fd_depths(m.free_depth))
}

/// Frames beyond the end contribute nothing; pushing an open frame adds
/// its position.
proof fn lemma_frame_depths_push(
    stack: Seq<crate::trace::CallStackEntry>,
    e: crate::trace::CallStackEntry,
    pos: int,
)
    requires
        0 <= pos <= stack.len(),
        e.vertex_index != usize::MAX,
    ensures
        spec_frame_depths(stack.push(e), pos) =~= spec_frame_depths(stack, pos).insert(
            stack.len() as u32,
        ),
    decreases stack.len() - pos,
{
    let t = stack.push(e);
    if pos == stack.len() {
        assert(t[pos] == e);
        assert(spec_frame_depths(t, pos + 1) =~= Multiset::empty());
        assert(spec_frame_depths(stack, pos) =~= Multiset::empty());
    } else {
        lemma_frame_depths_push(stack, e, pos + 1);
        assert(t[pos] == stack[pos]);
    }
}

/// Dropping the last frame, when it is open, takes its position out.
proof fn lemma_frame_depths_drop_last(stack: Seq<crate::trace::CallStackEntry>)
    requires
        stack.len() > 0,
        stack.last().vertex_index != usize::MAX,
    ensures
        spec_frame_depths(stack, 0) =~= spec_frame_depths(stack.drop_last(), 0).insert(
            (stack.len() - 1) as u32,
        ),
{
    lemma_frame_depths_push(stack.drop_last(), stack.last(), 0);
    assert(stack.drop_last().push(stack.last()) =~= stack);
}

/// Striking one open frame's index out takes its position out of the
/// count.
proof fn lemma_frame_depths_invalidate(
    stack: Seq<crate::trace::CallStackEntry>,
    at: int,
    pos: int,
)
    requires
        0 <= pos <= at < stack.len(),
        stack[at].vertex_index != usize::MAX,
    ensures
        spec_frame_depths(stack, pos) =~= spec_frame_depths(
            stack.update(
                at,
                crate::trace::CallStackEntry {
                    vertex_index: usize::MAX,
                    method_id: stack[at].method_id,
                },
            ),
            pos,
        ).insert(at as u32),
    decreases stack.len() - pos,
{
    let t = stack.update(
        at,
        crate::trace::CallStackEntry { vertex_index: usize::MAX, method_id: stack[at].method_id },
    );
    if pos == at {
        assert(t[pos].vertex_index == usize::MAX);
        assert(spec_frame_depths(t, pos + 1) =~= spec_frame_depths(stack, pos + 1)) by {
            lemma_frame_depths_same(stack, t, pos + 1);
        }
    } else {
        lemma_frame_depths_invalidate(stack, at, pos + 1);
        assert(t[pos] == stack[pos]);
    }
}

/// Giving one cut frame an index again adds its position to the count.
proof fn lemma_frame_depths_validate(
    stack: Seq<crate::trace::CallStackEntry>,
    at: int,
    e: crate::trace::CallStackEntry,
    pos: int,
)
    requires
        0 <= pos <= at < stack.len(),
        stack[at].vertex_index == usize::MAX,
        e.vertex_index != usize::MAX,
    ensures
        spec_frame_depths(stack.update(at, e), pos) =~= spec_frame_depths(stack, pos).insert(
            at as u32,
        ),
    decreases stack.len() - pos,
{
    let t = stack.update(at, e);
    if pos == at {
        assert(spec_frame_depths(t, pos + 1) =~= spec_frame_depths(stack, pos + 1)) by {
            lemma_frame_depths_same(stack, t, pos + 1);
        }
    } else {
        lemma_frame_depths_validate(stack, at, e, pos + 1);
        assert(t[pos] == stack[pos]);
    }
}

/// Two stacks that agree from `pos` on count the same depths there.
proof fn lemma_frame_depths_same(
    a: Seq<crate::trace::CallStackEntry>,
    b: Seq<crate::trace::CallStackEntry>,
    pos: int,
)
    requires
        a.len() == b.len(),
        forall|k: int| pos <= k < a.len() ==> a[k] == b[k],
    ensures
        spec_frame_depths(a, pos) =~= spec_frame_depths(b, pos),
    decreases a.len() - pos,
{
    if pos < 0 || pos >= a.len() {
    } else {
        lemma_frame_depths_same(a, b, pos + 1);
    }
}

/// Queueing one closure adds its depth to the queued count.
proof fn lemma_fd_depths_push(fd: Seq<(u32, u64)>, d: u32, at: u64)
    ensures
        spec_fd_depths(fd.push((d, at))) =~= spec_fd_depths(fd).insert(d),
{
    broadcast use vstd::seq_lib::group_to_multiset_ensures;

    assert(fd.push((d, at)).map_values(|p: (u32, u64)| p.0) =~= fd.map_values(
        |p: (u32, u64)| p.0,
    ).push(d));
}

/// A `Call` preserves the depth accounting: the new frame's depth is
/// counted once.
pub proof fn lemma_enter_depth_inv(m: StackModel, at: u64, mid: u64)
    requires
        spec_depth_inv(m),
        slots_wf(m),
        m.verts.0.len() < usize::MAX,
    ensures
        spec_depth_inv(spec_enter(m, at, mid)),
{
    let d = spec_drain(m.ready, m.free, m.used, at);
    let m1 = StackModel { ready: d.0, free: d.1, used: d.2, ..m };
    lemma_drain_slots_wf(m, at);
    let v = crate::trace::spec_call_box(at, u64::MAX, mid, m.stack.len() as u32);
    lemma_alloc_slots(m1, v);
    let a = crate::state::spec_alloc(m1.verts, m1.free, v);
    let m2 = spec_enter(m, at, mid);
    let e = crate::trace::CallStackEntry { vertex_index: a.2, method_id: mid };
    assert(e.vertex_index != usize::MAX) by {
        assert((a.2 as int) < a.0.0.len());
        assert(a.0.0.len() <= m.verts.0.len() + 1);
    }
    assert(m2.stack == m.stack.push(e));
    assert(m2.depths == crate::state::spec_ms_insert(m.depths, m.stack.len() as u32));
    lemma_ms_insert_counts(m.depths, m.stack.len() as u32);
    lemma_frame_depths_push(m.stack, e, 0);
    assert(m2.depths.to_multiset() =~= spec_frame_depths(m2.stack, 0).add(
        spec_fd_depths(m2.free_depth),
    ));
}

/// The unwinding of a `Return` over open frames preserves the depth
/// accounting: each popped frame's depth moves to the closure queue.
pub proof fn lemma_exit_loop_depth_inv(
    stack: Seq<crate::trace::CallStackEntry>,
    verts: (Seq<CallBox>, usize, usize),
    ready: Seq<(usize, u64)>,
    free_depth: Seq<(u32, u64)>,
    depths: Seq<u32>,
    at: u64,
    mid: u64,
)
    requires
        depths.to_multiset() =~= spec_frame_depths(stack, 0).add(spec_fd_depths(free_depth)),
        forall|k: int| 0 <= k < stack.len() ==> (#[trigger] stack[k]).vertex_index != usize::MAX,
        forall|k: int|
            0 <= k < stack.len() ==> ((#[trigger] stack[k]).vertex_index as int) < verts.0.len(),
    ensures
        ({
            let r = spec_exit_loop(stack, verts, ready, free_depth, at, mid);
            depths.to_multiset() =~= spec_frame_depths(r.0, 0).add(spec_fd_depths(r.3))
        }),
    decreases stack.len(),
{
    if stack.len() == 0 {
    } else {
        let e = stack.last();
        let s1 = stack.drop_last();
        let fd1 = free_depth.push((s1.len() as u32, at));
        lemma_frame_depths_drop_last(stack);
        lemma_fd_depths_push(free_depth, s1.len() as u32, at);
        assert(spec_frame_depths(stack, 0).add(spec_fd_depths(free_depth))
            =~= spec_frame_depths(s1, 0).add(spec_fd_depths(fd1)));
        let closed = e.vertex_index != usize::MAX && (e.vertex_index as int) < verts.0.len();
        assert(closed);
        let verts1 = spec_gsv_set_end(verts, e.vertex_index, at);
        let ready1 = ready.push((e.vertex_index, at));
        if e.method_id == mid {
        } else {
            assert(forall|k: int| 0 <= k < s1.len() ==> s1[k] == stack[k]);
            lemma_exit_loop_depth_inv(s1, verts1, ready1, fd1, depths, at, mid);
        }
    }
}

/// A cut over open frames preserves the depth accounting: every frame's
/// depth moves to the closure queue.
pub proof fn lemma_cut_depth_inv(m: StackModel, at: u64)
    requires
        spec_depth_inv(m),
        slots_wf(m),
        forall|k: int| 0 <= k < m.stack.len() ==> (#[trigger] m.stack[k]).vertex_index != usize::MAX,
    ensures
        spec_depth_inv(spec_cut(m, at)),
{
    let n = m.stack.len() as int;
    lemma_cut_loop_effect(m.stack, m.verts, m.ready, at, 0);
    let r = spec_cut_loop(m.stack, m.verts, m.ready, at, 0);
    let m2 = spec_cut(m, at);
    assert(m2.stack == r.0);
    assert(m2.depths == m.depths);
    assert(spec_frame_depths(m.stack, 0) =~= spec_range_depths(0, n)) by {
        lemma_frame_depths_all_valid(m.stack, 0);
    }
    assert(spec_frame_depths(r.0, 0) =~= Multiset::empty()) by {
        lemma_frame_depths_all_cut(r.0, 0);
    }
    let tail = m2.free_depth.skip(m.free_depth.len() as int);
    assert(m2.free_depth =~= m.free_depth + tail);
    assert(tail.len() == n);
    assert forall|i: int| 0 <= i < tail.len() implies (#[trigger] tail[i]).0 == (i + 0) as u32 by {
        assert(tail[i] == m2.free_depth[m.free_depth.len() + i]);
        assert(m2.free_depth == m.free_depth + Seq::new(m.stack.len(), |d: int| (d as u32, at)));
        assert((m.free_depth + Seq::new(m.stack.len(), |d: int| (d as u32, at)))[m.free_depth.len()
            + i] == Seq::new(m.stack.len(), |d: int| (d as u32, at))[i]);
    }
    lemma_fd_append_range(m.free_depth, tail, 0);
    assert(spec_fd_depths(m2.free_depth) =~= spec_fd_depths(m.free_depth).add(
        spec_range_depths(0, n),
    ));
}

/// Frames with no index count nothing.
proof fn lemma_frame_depths_all_cut(stack: Seq<crate::trace::CallStackEntry>, pos: int)
    requires
        forall|k: int| 0 <= k < stack.len() ==> (#[trigger] stack[k]).vertex_index == usize::MAX,
    ensures
        spec_frame_depths(stack, pos) =~= Multiset::empty(),
    decreases stack.len() - pos,
{
    if pos < 0 || pos >= stack.len() {
    } else {
        lemma_frame_depths_all_cut(stack, pos + 1);
    }
}

/// An all-open run of frames counts exactly the range of its positions.
proof fn lemma_frame_depths_all_valid(stack: Seq<crate::trace::CallStackEntry>, pos: int)
    requires
        forall|k: int| 0 <= k < stack.len() ==> (#[trigger] stack[k]).vertex_index != usize::MAX,
        0 <= pos,
    ensures
        spec_frame_depths(stack, pos) =~= spec_range_depths(pos, stack.len() as int),
    decreases stack.len() - pos,
{
    if pos >= stack.len() {
    } else {
        lemma_frame_depths_all_valid(stack, pos + 1);
    }
}

/// The range of depths grows at its upper end.
proof fn lemma_range_depths_snoc(lo: int, hi: int)
    requires
        lo < hi,
    ensures
        spec_range_depths(lo, hi) =~= spec_range_depths(lo, hi - 1).insert((hi - 1) as u32),
    decreases hi - lo,
{
    if lo == hi - 1 {
        assert(spec_range_depths(lo + 1, hi) =~= Multiset::<u32>::empty());
        assert(spec_range_depths(lo, hi) =~= Multiset::<u32>::empty().insert(lo as u32));
        assert(spec_range_depths(lo, hi - 1) =~= Multiset::<u32>::empty());
    } else {
        lemma_range_depths_snoc(lo + 1, hi);
        assert(spec_range_depths(lo, hi) =~= spec_range_depths(lo + 1, hi).insert(lo as u32));
        assert(spec_range_depths(lo, hi - 1) =~= spec_range_depths(lo + 1, hi - 1).insert(
            lo as u32,
        ));
        assert(spec_range_depths(lo + 1, hi).insert(lo as u32) =~= spec_range_depths(
            lo + 1,
            hi - 1,
        ).insert((hi - 1) as u32).insert(lo as u32));
    }
}

/// Appending closures whose depths run `lo..lo + t.len()` adds exactly
/// that range to the queued count.
proof fn lemma_fd_append_range(fd: Seq<(u32, u64)>, t: Seq<(u32, u64)>, lo: int)
    requires
        0 <= lo,
        forall|i: int| 0 <= i < t.len() ==> (#[trigger] t[i]).0 == (i + lo) as u32,
    ensures
        spec_fd_depths(fd + t) =~= spec_fd_depths(fd).add(
            spec_range_depths(lo, lo + t.len()),
        ),
    decreases t.len(),
{
    broadcast use vstd::seq_lib::group_to_multiset_ensures;

    if t.len() == 0 {
        assert(fd + t =~= fd);
    } else {
        let t0 = t.drop_last();
        lemma_fd_append_range(fd, t0, lo);
        assert(fd + t =~= (fd + t0).push(t.last()));
        assert((fd + t).map_values(|p: (u32, u64)| p.0) =~= (fd + t0).map_values(
            |p: (u32, u64)| p.0,
        ).push(t.last().0));
        assert(spec_fd_depths(fd + t) =~= spec_fd_depths(fd + t0).insert(t.last().0));
        lemma_range_depths_snoc(lo, lo + t.len());
        assert(t.last().0 == (lo + t.len() - 1) as u32);
    }
}

/// A resumption over cut frames preserves the depth accounting: every
/// frame's depth is counted again exactly once.
pub proof fn lemma_resume_depth_inv(m: StackModel, at: u64)
    requires
        spec_depth_inv(m),
        slots_wf(m),
        forall|k: int| 0 <= k < m.stack.len() ==> (#[trigger] m.stack[k]).vertex_index == usize::MAX,
        m.verts.0.len() + m.stack.len() <= usize::MAX,
    ensures
        spec_depth_inv(spec_resume(m, at)),
{
    let d = spec_drain(m.ready, m.free, m.used, at);
    let m1 = StackModel { ready: d.0, free: d.1, used: d.2, ..m };
    lemma_drain_slots_wf(m, at);
    let r = spec_resume_loop(m1.stack, m1.verts, m1.free, m1.used, at, 0);
    let m2 = spec_resume(m, at);
    lemma_resume_loop_frames(m1, at, 0);
    lemma_ms_range_insert_counts(m.depths, 0, m.stack.len() as int);
    assert(spec_frame_depths(m.stack, 0) =~= Multiset::empty()) by {
        lemma_frame_depths_all_cut(m.stack, 0);
    }
    assert(m2.depths.to_multiset() =~= m.depths.to_multiset().add(
        spec_range_depths(0, m.stack.len() as int),
    ));
    assert(spec_frame_depths(m2.stack, 0) =~= spec_range_depths(0, m.stack.len() as int));
    assert(m2.depths.to_multiset() =~= spec_frame_depths(m2.stack, 0).add(
        spec_fd_depths(m2.free_depth),
    ));
}

/// The depths `lo..hi`, one of each.
pub open spec fn spec_range_depths(lo: int, hi: int) -> Multiset<u32>
    decreases hi - lo,
{
    if lo >= hi {
        Multiset::empty()
    } else {
        spec_range_depths(lo + 1, hi).insert(lo as u32)
    }
}

/// Counting the depths `lo..hi` in order adds one of each.
proof fn lemma_ms_range_insert_counts(s: Seq<u32>, lo: int, hi: int)
    ensures
        crate::state::spec_ms_range_insert(s, lo, hi).to_multiset() =~= s.to_multiset().add(
            spec_range_depths(lo, hi),
        ),
    decreases hi - lo,
{
    if lo >= hi {
    } else {
        lemma_ms_insert_counts(s, lo as u32);
        lemma_ms_range_insert_counts(crate::state::spec_ms_insert(s, lo as u32), lo + 1, hi);
        assert(spec_range_depths(lo, hi) =~= spec_range_depths(lo + 1, hi).insert(lo as u32));
    }
}

/// Reopening gives every frame from `pos` on an index, so they count their
/// positions.
proof fn lemma_resume_loop_frames(m: StackModel, at: u64, pos: int)
    requires
        slots_wf(m),
        0 <= pos,
        m.verts.0.len() + m.stack.len() - pos <= usize::MAX,
    ensures
        ({
            let r = spec_resume_loop(m.stack, m.verts, m.free, m.used, at, pos);
            &&& r.0.len() == m.stack.len()
            &&& spec_frame_depths(r.0, pos) =~= spec_range_depths(pos, m.stack.len() as int)
            &&& (forall|k: int| 0 <= k < pos ==> (#[trigger] r.0[k]) == m.stack[k])
        }),
    decreases m.stack.len() - pos,
{
    if pos >= m.stack.len() {
        let r = spec_resume_loop(m.stack, m.verts, m.free, m.used, at, pos);
        lemma_frame_depths_empty(r.0, pos);
    } else {
        let e = m.stack[pos];
        let v = crate::trace::spec_call_box(at, u64::MAX, e.method_id, pos as u32);
        lemma_alloc_slots(m, v);
        let a = crate::state::spec_alloc(m.verts, m.free, v);
        let idx = a.2;
        assert(idx != usize::MAX) by {
            assert((idx as int) < a.0.0.len());
            assert(a.0.0.len() <= m.verts.0.len() + 1);
        }
        let s1 = m.stack.update(
            pos,
            crate::trace::CallStackEntry { vertex_index: idx, method_id: e.method_id },
        );
        let used1 = crate::state::spec_used_insert(m.used, idx);
        let m1 = StackModel { stack: s1, verts: a.0, free: a.1, used: used1, ..m };
        lemma_resume_step_wf(m, at, pos);
        lemma_resume_loop_frames(m1, at, pos + 1);
        let r = spec_resume_loop(m.stack, m.verts, m.free, m.used, at, pos);
        assert(r == spec_resume_loop(s1, a.0, a.1, used1, at, pos + 1));
        assert(r.0[pos].vertex_index == idx) by {
            lemma_resume_loop_keeps_prefix(m1, at, pos + 1, pos);
        }
        assert(spec_frame_depths(r.0, pos) =~= spec_frame_depths(r.0, pos + 1).insert(
            pos as u32,
        ));
        assert(spec_frame_depths(r.0, pos + 1) =~= spec_range_depths(pos + 1, m.stack.len() as int));
    }
}

/// Beyond the end there is nothing to count.
proof fn lemma_frame_depths_empty(stack: Seq<crate::trace::CallStackEntry>, pos: int)
    requires
        pos >= stack.len(),
    ensures
        spec_frame_depths(stack, pos) =~= Multiset::empty(),
{
}

/// Housekeeping preserves the depth accounting, and afterwards every
/// counted depth is an open frame's or a closure inside the visibility
/// window: the exact sense in which no evicted frame stays counted.
pub proof fn lemma_sync_depth_inv(m: StackModel, now: u64)
    requires
        spec_depth_inv(m),
        crate::state::spec_sorted_asc(m.depths),
        spec_fd_sorted(m.free_depth),
    ensures
        spec_depth_inv(spec_stack_sync(m, now)),
        forall|i: int|
            0 <= i < spec_stack_sync(m, now).free_depth.len() ==> (#[trigger] spec_stack_sync(
                m,
                now,
            ).free_depth[i]).1 + crate::VISIBLE_DURATION >= now,
{
    lemma_fd_drain_window(m.free_depth, m.depths, now);
    lemma_fd_drain_depth_inv(m.free_depth, m.depths, spec_frame_depths(m.stack, 0), now);
    let fd = spec_fd_drain(m.free_depth, m.depths, now);
    let m2 = spec_stack_sync(m, now);
    assert(m2.stack == m.stack && m2.free_depth == fd.0 && m2.depths == fd.1);
}

/// Draining expired closures keeps the counts matched: each drained entry
/// takes exactly one count with it.
proof fn lemma_fd_drain_depth_inv(
    fd: Seq<(u32, u64)>,
    depths: Seq<u32>,
    frames: Multiset<u32>,
    now: u64,
)
    requires
        crate::state::spec_sorted_asc(depths),
        depths.to_multiset() =~= frames.add(spec_fd_depths(fd)),
    ensures
        ({
            let r = spec_fd_drain(fd, depths, now);
            &&& r.1.to_multiset() =~= frames.add(spec_fd_depths(r.0))
            &&& crate::state::spec_sorted_asc(r.1)
        }),
    decreases fd.len(),
{
    broadcast use vstd::seq_lib::group_to_multiset_ensures;

    if fd.len() > 0 && fd[0].1 + crate::VISIBLE_DURATION < now {
        let d0 = fd[0].0;
        let ids = fd.map_values(|p: (u32, u64)| p.0);
        assert(ids[0] == d0);
        assert(spec_fd_depths(fd).count(d0) > 0) by {
            assert(ids.contains(d0));
        }
        assert(depths.to_multiset().count(d0) > 0);
        lemma_ms_remove_counts(depths, d0);
        let depths1 = crate::state::spec_ms_remove(depths, d0);
        assert(crate::state::spec_sorted_asc(depths1)) by {
            lemma_used_remove_like_sorted(depths, d0);
        }
        assert(spec_fd_depths(fd.drop_first()) =~= spec_fd_depths(fd).remove(d0)) by {
            assert(ids.drop_first() =~= fd.drop_first().map_values(|p: (u32, u64)| p.0));
            assert(ids.drop_first() =~= ids.remove(0));
            assert(ids.remove(0).to_multiset() =~= ids.to_multiset().remove(ids[0]));
        }
        assert(depths1.to_multiset() =~= frames.add(spec_fd_depths(fd.drop_first())));
        lemma_fd_drain_depth_inv(fd.drop_first(), depths1, frames, now);
        assert(spec_fd_drain(fd, depths, now) == spec_fd_drain(fd.drop_first(), depths1, now));
    }
}

/// The sorted removal keeps the order.
proof fn lemma_used_remove_like_sorted(s: Seq<u32>, v: u32)
    requires
        crate::state::spec_sorted_asc(s),
    ensures
        crate::state::spec_sorted_asc(crate::state::spec_ms_remove(s, v)),
{
    crate::state::lemma_asc_position_bounds(s, v);
    let p = crate::state::spec_asc_position(s, v);
    if p < s.len() && s[p] == v {
        let t = s.remove(p);
        assert forall|i: int, j: int| 0 <= i < j < t.len() implies t[i] <= t[j] by {
            assert(t[i] == (if i < p {
                s[i]
            } else {
                s[i + 1]
            }));
            assert(t[j] == (if j < p {
                s[j]
            } else {
                s[j + 1]
            }));
        }
    }
}

/// Applying one stack operation, whatever it is, preserves the slot
/// invariant, given room for at most one more box and one more frame.
pub proof fn lemma_apply_op_slots_wf(m: StackModel, op: crate::state::StackOp)
    requires
        slots_wf(m),
        m.verts.0.len() + m.stack.len() + 1 <= usize::MAX,
    ensures
        slots_wf(crate::state::spec_apply_op(m, op)),
{
    match op {
        crate::state::StackOp::Enter(at, mid) => {
            lemma_enter_slots_wf(m, at, mid);
        },
        crate::state::StackOp::Exit(at, mid) => {
            lemma_exit_slots_wf(m, at, mid);
        },
        crate::state::StackOp::Cut(at) => {
            lemma_cut_slots_wf(m, at);
        },
        crate::state::StackOp::Resume(at) => {
            lemma_resume_slots_wf(m, at);
        },
    }
}

/// Whether every thread's stack satisfies the slot invariant.
pub open spec fn spec_all_slots_wf(threads: Seq<(u32, StackModel)>) -> bool {
    forall|k: int| 0 <= k < threads.len() ==> slots_wf((#[trigger] threads[k]).1)
}

/// One event preserves the slot invariant of every thread's stack — the
/// "after any event sequence" form of the slot accounting: each step
/// touches at most one stack, with an operation the per-stack lemmas
/// cover, or creates a fresh stack, which is trivially sound.
pub proof fn lemma_state_step_slots_wf(st: crate::state::StateModel, ev: crate::event::RRProfTraceEvent)
    requires
        spec_all_slots_wf(st.threads),
        forall|k: int|
            0 <= k < st.threads.len() ==> ((#[trigger] st.threads[k]).1.verts.0.len()
                + st.threads[k].1.stack.len() + 1) <= usize::MAX,
    ensures
        spec_all_slots_wf(crate::state::spec_state_step(st, ev).threads),
{
    let ts = crate::event::spec_timestamp(ev.timestamp_and_event_type);
    match crate::event::spec_event_type(ev.timestamp_and_event_type) {
        Some(crate::event::RRProfTraceEventType::Call) => {
            lemma_with_thread_slots_wf(st.threads, st.last, crate::state::StackOp::Enter(ts, ev.data));
        },
        Some(crate::event::RRProfTraceEventType::Return) => {
            lemma_with_thread_slots_wf(st.threads, st.last, crate::state::StackOp::Exit(ts, ev.data));
        },
        Some(crate::event::RRProfTraceEventType::GCStart) => {
            lemma_with_thread_slots_wf(st.threads, st.last, crate::state::StackOp::Cut(ts));
        },
        Some(crate::event::RRProfTraceEventType::GCEnd) => {
            lemma_with_thread_slots_wf(st.threads, st.last, crate::state::StackOp::Resume(ts));
        },
        Some(crate::event::RRProfTraceEventType::ThreadSuspended) => {
            lemma_with_thread_slots_wf(st.threads, ev.data as u32, crate::state::StackOp::Cut(ts));
        },
        Some(crate::event::RRProfTraceEventType::ThreadResume) => {
            lemma_with_thread_slots_wf(st.threads, ev.data as u32, crate::state::StackOp::Resume(ts));
        },
        _ => {},
    }
}

/// Dispatching an operation to one thread — creating its entry on first
/// reference — preserves the slot invariant of every thread's stack.
proof fn lemma_with_thread_slots_wf(
    threads: Seq<(u32, StackModel)>,
    tid: u32,
    op: crate::state::StackOp,
)
    requires
        spec_all_slots_wf(threads),
        forall|k: int|
            0 <= k < threads.len() ==> ((#[trigger] threads[k]).1.verts.0.len()
                + threads[k].1.stack.len() + 1) <= usize::MAX,
    ensures
        spec_all_slots_wf(crate::state::spec_with_thread(threads, tid, op)),
{
    let i = crate::state::spec_ts_lower_bound(threads, tid);
    lemma_ts_lower_bound_total(threads, tid);
    let t2 = crate::state::spec_with_thread(threads, tid, op);
    if i < threads.len() && threads[i].0 == tid {
        lemma_apply_op_slots_wf(threads[i].1, op);
        assert forall|k: int| 0 <= k < t2.len() implies slots_wf((#[trigger] t2[k]).1) by {
            if k == i {
            } else {
                assert(t2[k] == threads[k]);
            }
        }
    } else {
        assert(slots_wf(crate::state::spec_empty_stack()));
        lemma_apply_op_slots_wf(crate::state::spec_empty_stack(), op);
        assert forall|k: int| 0 <= k < t2.len() implies slots_wf((#[trigger] t2[k]).1) by {
            if k < i {
                assert(t2[k] == threads[k]);
            } else if k == i {
            } else {
                assert(t2[k] == threads[k - 1]);
            }
        }
    }
}

/// The ordered position of a thread id is always inside the list bounds.
proof fn lemma_ts_lower_bound_total(threads: Seq<(u32, StackModel)>, tid: u32)
    ensures
        0 <= crate::state::spec_ts_lower_bound(threads, tid) <= threads.len(),
    decreases threads.len(),
{
    if threads.len() == 0 {
    } else if threads[0].0 >= tid {
    } else {
        lemma_ts_lower_bound_total(threads.drop_first(), tid);
    }
}

/// A replayed box is sound at time `t` inside a batch ending at `end`: it
/// started by `t`, it spans forward, and it ends by the batch's end.
pub open spec fn spec_slow_box_ok(b: CallBox, t: u64, end: u64) -> bool {
    &&& spec_decode_time(b.start_lo, b.start_hi) <= t
    &&& spec_decode_time(b.start_lo, b.start_hi) <= spec_decode_time(b.end_lo, b.end_hi)
    &&& spec_decode_time(b.end_lo, b.end_hi) <= end
}

/// Every box of a list is sound.
pub open spec fn spec_slow_boxes_ok(boxes: Seq<CallBox>, t: u64, end: u64) -> bool {
    forall|i: int| 0 <= i < boxes.len() ==> spec_slow_box_ok(#[trigger] boxes[i], t, end)
}

/// Every box of a replay state is sound, and the current-thread index is
/// inside the per-thread results.
pub open spec fn spec_replay_ok(st: crate::trace::SlowReplay, t: u64, end: u64) -> bool {
    &&& (forall|k: int|
        0 <= k < st.data.len() ==> spec_slow_boxes_ok((#[trigger] st.data[k]).2, t, end))
    &&& spec_slow_boxes_ok(st.scratch_boxes, t, end)
    &&& (match st.current {
        Some(i) => 0 <= i < st.data.len(),
        None => true,
    })
}

/// Soundness is monotone in the time reached so far.
proof fn lemma_slow_boxes_ok_mono(boxes: Seq<CallBox>, t1: u64, t2: u64, end: u64)
    requires
        spec_slow_boxes_ok(boxes, t1, end),
        t1 <= t2,
    ensures
        spec_slow_boxes_ok(boxes, t2, end),
{
}

/// Closing one frame's box at `now` keeps the list sound.
proof fn lemma_slow_close_frame_ok(boxes: Seq<CallBox>, idx: usize, now: u64, t: u64, end: u64)
    requires
        spec_slow_boxes_ok(boxes, t, end),
        t <= now <= end,
        end <= TIMESTAMP_MASK,
    ensures
        spec_slow_boxes_ok(crate::trace::spec_close_frame(boxes, idx, now), now, end),
{
    crate::event::lemma_time_codec_lossless(now);
    let after = crate::trace::spec_close_frame(boxes, idx, now);
    assert forall|i: int| 0 <= i < after.len() implies spec_slow_box_ok(
        #[trigger] after[i],
        now,
        end,
    ) by {
        assert(spec_slow_box_ok(boxes[i], t, end));
        if (idx as int) < boxes.len() && i == idx {
            assert(after[i] == (CallBox {
                end_lo: crate::event::spec_time_lo(now),
                end_hi: crate::event::spec_time_hi(now),
                ..boxes[i]
            }));
        }
    }
}

/// Closing every frame at `now` keeps the list sound.
proof fn lemma_slow_close_boxes_ok(
    stack: Seq<crate::trace::CallStackEntry>,
    boxes: Seq<CallBox>,
    now: u64,
    t: u64,
    end: u64,
)
    requires
        spec_slow_boxes_ok(boxes, t, end),
        t <= now <= end,
        end <= TIMESTAMP_MASK,
    ensures
        spec_slow_boxes_ok(crate::trace::spec_close_boxes(stack, boxes, now), now, end),
    decreases stack.len(),
{
    if stack.len() == 0 {
        lemma_slow_boxes_ok_mono(boxes, t, now, end);
    } else {
        lemma_slow_close_frame_ok(boxes, stack[0].vertex_index, now, t, end);
        lemma_slow_close_boxes_ok(
            stack.drop_first(),
            crate::trace::spec_close_frame(boxes, stack[0].vertex_index, now),
            now,
            now,
            end,
        );
    }
}

/// The unwinding of a `Return` keeps the list sound.
proof fn lemma_slow_return_ok(
    stack: Seq<crate::trace::CallStackEntry>,
    boxes: Seq<CallBox>,
    m: u64,
    now: u64,
    t: u64,
    end: u64,
)
    requires
        spec_slow_boxes_ok(boxes, t, end),
        t <= now <= end,
        end <= TIMESTAMP_MASK,
    ensures
        spec_slow_boxes_ok(crate::trace::spec_slow_return(stack, boxes, m, now).1, now, end),
    decreases stack.len(),
{
    if stack.len() == 0 {
        lemma_slow_boxes_ok_mono(boxes, t, now, end);
    } else {
        let e = stack.last();
        let b1 = crate::trace::spec_close_frame(boxes, e.vertex_index, now);
        lemma_slow_close_frame_ok(boxes, e.vertex_index, now, t, end);
        if e.method_id == m {
        } else {
            lemma_slow_return_ok(stack.drop_last(), b1, m, now, now, end);
        }
    }
}

/// Reopening every frame at `now` keeps the list sound: each fresh box
/// spans `now..end`.
proof fn lemma_slow_reopen_ok(
    stack: Seq<crate::trace::CallStackEntry>,
    boxes: Seq<CallBox>,
    pos: int,
    now: u64,
    t: u64,
    end: u64,
)
    requires
        spec_slow_boxes_ok(boxes, t, end),
        t <= now <= end,
        end <= TIMESTAMP_MASK,
    ensures
        spec_slow_boxes_ok(
            crate::trace::spec_reopen_all(stack, boxes, pos, now, end).1,
            now,
            end,
        ),
    decreases stack.len(),
{
    if stack.len() == 0 {
        lemma_slow_boxes_ok_mono(boxes, t, now, end);
    } else {
        let b1 = boxes.push(crate::trace::spec_call_box(now, end, stack[0].method_id, pos as u32));
        assert(spec_slow_boxes_ok(b1, now, end)) by {
            crate::event::lemma_time_codec_lossless(now);
            crate::event::lemma_time_codec_lossless(end);
            assert forall|i: int| 0 <= i < b1.len() implies spec_slow_box_ok(
                #[trigger] b1[i],
                now,
                end,
            ) by {
                if i < boxes.len() {
                    assert(spec_slow_box_ok(boxes[i], t, end));
                }
            }
        }
        lemma_slow_reopen_ok(stack.drop_first(), b1, pos + 1, now, now, end);
    }
}

/// One replay step at its event's own time keeps every box sound.
proof fn lemma_slow_step_ok(
    st: crate::trace::SlowReplay,
    ev: crate::event::RRProfTraceEvent,
    t: u64,
    end: u64,
)
    requires
        spec_replay_ok(st, t, end),
        t <= crate::event::spec_timestamp(ev.timestamp_and_event_type),
        crate::event::spec_timestamp(ev.timestamp_and_event_type) <= end,
        end <= TIMESTAMP_MASK,
    ensures
        spec_replay_ok(
            crate::trace::spec_slow_step(st, ev, end),
            crate::event::spec_timestamp(ev.timestamp_and_event_type),
            end,
        ),
{
    let now = crate::event::spec_timestamp(ev.timestamp_and_event_type);
    let st2 = crate::trace::spec_slow_step(st, ev, end);
    let stack = crate::trace::st_stack(st);
    let boxes = crate::trace::st_boxes(st);
    assert(spec_slow_boxes_ok(boxes, t, end)) by {
        match st.current {
            Some(i) => {
                assert(spec_slow_boxes_ok(st.data[i].2, t, end));
            },
            None => {},
        }
    }
    match crate::event::spec_event_type(ev.timestamp_and_event_type) {
        Some(crate::event::RRProfTraceEventType::Call) => {
            let nb = boxes.push(
                crate::trace::spec_call_box(now, end, ev.data, stack.len() as u32),
            );
            assert(spec_slow_boxes_ok(nb, now, end)) by {
                crate::event::lemma_time_codec_lossless(now);
                crate::event::lemma_time_codec_lossless(end);
                assert forall|i: int| 0 <= i < nb.len() implies spec_slow_box_ok(
                    #[trigger] nb[i],
                    now,
                    end,
                ) by {
                    if i < boxes.len() {
                        assert(spec_slow_box_ok(boxes[i], t, end));
                    }
                }
            }
            lemma_st_with_ok(st, st_push_stack(st, ev, end), nb, now, end, t);
        },
        Some(crate::event::RRProfTraceEventType::Return) => {
            lemma_slow_return_ok(stack, boxes, ev.data, now, t, end);
            lemma_st_with_ok(
                st,
                crate::trace::spec_slow_return(stack, boxes, ev.data, now).0,
                crate::trace::spec_slow_return(stack, boxes, ev.data, now).1,
                now,
                end,
                t,
            );
        },
        Some(crate::event::RRProfTraceEventType::GCStart) => {
            lemma_slow_close_boxes_ok(stack, boxes, now, t, end);
            lemma_st_with_ok(
                st,
                crate::trace::spec_invalidate(stack),
                crate::trace::spec_close_boxes(stack, boxes, now),
                now,
                end,
                t,
            );
        },
        Some(crate::event::RRProfTraceEventType::ThreadSuspended) => {
            lemma_slow_close_boxes_ok(stack, boxes, now, t, end);
            lemma_st_with_ok(
                st,
                crate::trace::spec_invalidate(stack),
                crate::trace::spec_close_boxes(stack, boxes, now),
                now,
                end,
                t,
            );
        },
        Some(crate::event::RRProfTraceEventType::GCEnd) => {
            lemma_slow_reopen_ok(stack, boxes, 0, now, t, end);
            lemma_st_with_ok(
                st,
                crate::trace::spec_reopen_all(stack, boxes, 0, now, end).0,
                crate::trace::spec_reopen_all(stack, boxes, 0, now, end).1,
                now,
                end,
                t,
            );
        },
        Some(crate::event::RRProfTraceEventType::ThreadResume) => {
            let tid = ev.data as u32;
            let i = crate::trace::spec_slow_lower_bound(st.data, tid);
            lemma_slow_lower_bound_total(st.data, tid);
            let data1 = if i < st.data.len() && st.data[i].0 == tid {
                st.data
            } else {
                st.data.insert(i, (tid, Seq::empty(), Seq::empty()))
            };
            assert forall|k: int| 0 <= k < data1.len() implies spec_slow_boxes_ok(
                (#[trigger] data1[k]).2,
                t,
                end,
            ) by {
                if i < st.data.len() && st.data[i].0 == tid {
                } else {
                    if k < i {
                        assert(data1[k] == st.data[k]);
                    } else if k == i {
                        assert(data1[k].2 =~= Seq::<CallBox>::empty());
                    } else {
                        assert(data1[k] == st.data[k - 1]);
                    }
                }
            }
            let th = data1[i];
            lemma_slow_reopen_ok(th.1, th.2, 0, now, t, end);
            let r = crate::trace::spec_reopen_all(th.1, th.2, 0, now, end);
            assert forall|k: int| 0 <= k < st2.data.len() implies spec_slow_boxes_ok(
                (#[trigger] st2.data[k]).2,
                now,
                end,
            ) by {
                if k == i {
                    assert(st2.data[k].2 == r.1);
                } else {
                    assert(st2.data[k] == data1[k]);
                    lemma_slow_boxes_ok_mono(data1[k].2, t, now, end);
                }
            }
            lemma_slow_boxes_ok_mono(st.scratch_boxes, t, now, end);
        },
        _ => {
            assert forall|k: int| 0 <= k < st2.data.len() implies spec_slow_boxes_ok(
                (#[trigger] st2.data[k]).2,
                now,
                end,
            ) by {
                lemma_slow_boxes_ok_mono(st.data[k].2, t, now, end);
            }
            lemma_slow_boxes_ok_mono(st.scratch_boxes, t, now, end);
        },
    }
}

/// The stack a `Call` writes back.
spec fn st_push_stack(
    st: crate::trace::SlowReplay,
    ev: crate::event::RRProfTraceEvent,
    end: u64,
) -> Seq<crate::trace::CallStackEntry> {
    crate::trace::st_stack(st).push(
        crate::trace::CallStackEntry {
            vertex_index: crate::trace::st_boxes(st).len() as usize,
            method_id: ev.data,
        },
    )
}

/// Writing a sound stack-and-box pair back to the current slot keeps the
/// whole state sound.
proof fn lemma_st_with_ok(
    st: crate::trace::SlowReplay,
    stack: Seq<crate::trace::CallStackEntry>,
    boxes: Seq<CallBox>,
    now: u64,
    end: u64,
    t: u64,
)
    requires
        spec_replay_ok(st, t, end),
        spec_slow_boxes_ok(boxes, now, end),
        t <= now,
    ensures
        spec_replay_ok(crate::trace::st_with(st, stack, boxes), now, end),
{
    let st2 = crate::trace::st_with(st, stack, boxes);
    match st.current {
        Some(i) => {
            assert forall|k: int| 0 <= k < st2.data.len() implies spec_slow_boxes_ok(
                (#[trigger] st2.data[k]).2,
                now,
                end,
            ) by {
                if k == i {
                    assert(st2.data[k].2 == boxes);
                } else {
                    assert(st2.data[k] == st.data[k]);
                    lemma_slow_boxes_ok_mono(st.data[k].2, t, now, end);
                }
            }
            lemma_slow_boxes_ok_mono(st.scratch_boxes, t, now, end);
        },
        None => {
            assert forall|k: int| 0 <= k < st2.data.len() implies spec_slow_boxes_ok(
                (#[trigger] st2.data[k]).2,
                now,
                end,
            ) by {
                lemma_slow_boxes_ok_mono(st.data[k].2, t, now, end);
            }
        },
    }
}

/// The ordered position of a thread id among the replay results is inside
/// the list bounds.
proof fn lemma_slow_lower_bound_total(
    data: Seq<(u32, Seq<crate::trace::CallStackEntry>, Seq<CallBox>)>,
    tid: u32,
)
    ensures
        0 <= crate::trace::spec_slow_lower_bound(data, tid) <= data.len(),
    decreases data.len(),
{
    if data.len() == 0 {
    } else if data[0].0 >= tid {
    } else {
        lemma_slow_lower_bound_total(data.drop_first(), tid);
    }
}

/// Folding sorted events keeps every box sound, landing at the batch end.
proof fn lemma_slow_process_ok(
    st: crate::trace::SlowReplay,
    events: Seq<crate::event::RRProfTraceEvent>,
    t: u64,
    end: u64,
)
    requires
        spec_replay_ok(st, t, end),
        t <= end,
        end <= TIMESTAMP_MASK,
        forall|i: int, j: int|
            0 <= i <= j < events.len() ==> crate::event::spec_timestamp(
                (#[trigger] events[i]).timestamp_and_event_type,
            ) <= crate::event::spec_timestamp((#[trigger] events[j]).timestamp_and_event_type),
        forall|i: int|
            0 <= i < events.len() ==> crate::event::spec_timestamp(
                (#[trigger] events[i]).timestamp_and_event_type,
            ) <= end,
        events.len() > 0 ==> t <= crate::event::spec_timestamp(
            events[0].timestamp_and_event_type,
        ),
    ensures
        spec_replay_ok(crate::trace::spec_slow_process(st, events, end), end, end),
    decreases events.len(),
{
    if events.len() == 0 {
        assert forall|k: int|
            0 <= k < st.data.len() implies spec_slow_boxes_ok(
            (#[trigger] st.data[k]).2,
            end,
            end,
        ) by {
            lemma_slow_boxes_ok_mono(st.data[k].2, t, end, end);
        }
        lemma_slow_boxes_ok_mono(st.scratch_boxes, t, end, end);
    } else {
        let ts0 = crate::event::spec_timestamp(events[0].timestamp_and_event_type);
        lemma_slow_step_ok(st, events[0], t, end);
        let st1 = crate::trace::spec_slow_step(st, events[0], end);
        assert(forall|i: int|
            0 <= i < events.drop_first().len() ==> #[trigger] events.drop_first()[i] == events[i
                + 1]);
        lemma_slow_process_ok(st1, events.drop_first(), ts0, end);
    }
}

/// Every box a batch replay produces is sound: it starts no earlier than
/// it ends, ends no later than the batch, and is never left carrying the
/// `u64::MAX` open sentinel — the box half of the reconstruction's safety
/// argument, at the whole-batch level.
pub proof fn lemma_slow_trace_boxes_sound(
    start_time: u64,
    threads: Seq<(u32, Seq<u64>)>,
    current: u32,
    in_gc: bool,
    events: Seq<crate::event::RRProfTraceEvent>,
)
    requires
        events.len() > 0,
        forall|i: int, j: int|
            0 <= i <= j < events.len() ==> crate::event::spec_timestamp(
                (#[trigger] events[i]).timestamp_and_event_type,
            ) <= crate::event::spec_timestamp((#[trigger] events[j]).timestamp_and_event_type),
        start_time <= crate::event::spec_timestamp(events[0].timestamp_and_event_type),
    ensures
        ({
            let end = crate::event::spec_timestamp(events.last().timestamp_and_event_type);
            let out = crate::trace::spec_slow_trace(start_time, threads, current, in_gc, events);
            forall|k: int, i: int|
                0 <= k < out.len() && 0 <= i < out[k].2.len() ==> {
                    let b = #[trigger] out[k].2[i];
                    &&& spec_decode_time(b.start_lo, b.start_hi) <= spec_decode_time(
                        b.end_lo,
                        b.end_hi,
                    )
                    &&& spec_decode_time(b.end_lo, b.end_hi) <= end
                    &&& !b.spec_is_open()
                }
        }),
{
    let end = crate::event::spec_timestamp(events.last().timestamp_and_event_type);
    let t0 = crate::event::spec_timestamp(events[0].timestamp_and_event_type);
    crate::event::lemma_timestamp_bound(events.last().timestamp_and_event_type);
    assert(t0 <= end) by {
        assert(events.last() == events[events.len() - 1]);
    }
    let seeded = crate::trace::spec_seed_threads(threads);
    let c = current as int;
    let seeded2 = if !in_gc && c < seeded.len() {
        seeded.update(c, crate::trace::spec_materialize(seeded[c], start_time, end))
    } else {
        seeded
    };
    let st0 = crate::trace::SlowReplay {
        data: seeded2,
        current: if c < seeded.len() {
            Some(c)
        } else {
            None
        },
        scratch_stack: Seq::empty(),
        scratch_boxes: Seq::empty(),
    };
    assert(spec_replay_ok(st0, t0, end)) by {
        crate::event::lemma_time_codec_lossless(start_time);
        crate::event::lemma_time_codec_lossless(end);
        assert forall|k: int| 0 <= k < seeded2.len() implies spec_slow_boxes_ok(
            (#[trigger] seeded2[k]).2,
            t0,
            end,
        ) by {
            if !in_gc && c < seeded.len() && k == c {
                let mat = crate::trace::spec_materialize(seeded[c], start_time, end);
                assert forall|i: int| 0 <= i < mat.2.len() implies spec_slow_box_ok(
                    #[trigger] mat.2[i],
                    t0,
                    end,
                ) by {
                    assert(mat.2[i] == crate::trace::spec_mat_box(
                        start_time,
                        end,
                        i,
                        seeded[c].1[i],
                    ));
                }
            } else {
                assert(seeded2[k].2 =~= Seq::<CallBox>::empty());
            }
        }
    }
    lemma_slow_process_ok(st0, events, t0, end);
    let out = crate::trace::spec_slow_trace(start_time, threads, current, in_gc, events);
    assert(out == crate::trace::spec_slow_process(st0, events, end).data);
    assert forall|k: int, i: int|
        0 <= k < out.len() && 0 <= i < out[k].2.len() implies {
        let b = #[trigger] out[k].2[i];
        &&& spec_decode_time(b.start_lo, b.start_hi) <= spec_decode_time(b.end_lo, b.end_hi)
        &&& spec_decode_time(b.end_lo, b.end_hi) <= end
        &&& !b.spec_is_open()
    } by {
        let b = out[k].2[i];
        assert(spec_slow_box_ok(b, end, end));
        assert(!b.spec_is_open()) by {
            assert(spec_decode_time(
                crate::event::spec_time_lo(u64::MAX),
                crate::event::spec_time_hi(u64::MAX),
            ) == 0x7fff_ffff_ffff_ffffu64) by {
                assert(u64::MAX & 0x7fff_ffff == 0x7fff_ffff) by (bit_vector);
                assert((u64::MAX >> 31) & 0xffff_ffff == 0xffff_ffff) by (bit_vector);
                assert(((0xffff_ffffu64) << 31) | 0x7fff_ffffu64 == 0x7fff_ffff_ffff_ffffu64)
                    by (bit_vector);
            }
            assert(end <= TIMESTAMP_MASK);
            assert(TIMESTAMP_MASK < 0x7fff_ffff_ffff_ffffu64);
        }
    }
}

/// Every open frame references an in-range box that still carries the
/// `u64::MAX` open sentinel.
pub open spec fn spec_frames_open(m: StackModel) -> bool {
    forall|k: int|
        0 <= k < m.stack.len() && (#[trigger] m.stack[k]).vertex_index != usize::MAX ==> (
        m.stack[k].vertex_index as int) < m.verts.0.len() && m.verts.0[m.stack[k].vertex_index as int].spec_is_open()
}

/// The box store soundness the front end maintains for one stack.
pub open spec fn spec_stack_sound(m: StackModel, t: u64) -> bool {
    &&& slots_wf(m)
    &&& spec_frames_open(m)
    &&& spec_boxes_ok(m.verts.0, t)
}

/// Slot allocation leaves the boxes of all used slots alone.
proof fn lemma_alloc_keeps_used(m: StackModel, v: CallBox, s: usize)
    requires
        slots_wf(m),
        m.verts.0.len() < usize::MAX,
        m.used.contains(s),
    ensures
        ({
            let a = crate::state::spec_alloc(m.verts, m.free, v);
            (s as int) < a.0.0.len() && a.0.0[s as int] == m.verts.0[s as int]
        }),
{
    lemma_alloc_slots(m, v);
    let a = crate::state::spec_alloc(m.verts, m.free, v);
    let j = choose|j: int| 0 <= j < m.used.len() && m.used[j] == s;
    assert(s != a.2);
}

/// A `Call` keeps every open frame's box open: the fresh frame gets a
/// fresh open box, and the other frames' slots are used, so untouched.
proof fn lemma_enter_frames_open(m: StackModel, at: u64, mid: u64)
    requires
        slots_wf(m),
        spec_frames_open(m),
        at <= TIMESTAMP_MASK,
        m.verts.0.len() < usize::MAX,
    ensures
        spec_frames_open(spec_enter(m, at, mid)),
{
    lemma_drain_slots_wf(m, at);
    let d = spec_drain(m.ready, m.free, m.used, at);
    let m1 = StackModel { ready: d.0, free: d.1, used: d.2, ..m };
    let v = crate::trace::spec_call_box(at, u64::MAX, mid, m.stack.len() as u32);
    lemma_fresh_box_ok(at, mid, m.stack.len() as u32);
    lemma_alloc_slots(m1, v);
    let a = crate::state::spec_alloc(m1.verts, m1.free, v);
    let m2 = spec_enter(m, at, mid);
    assert(a.0.0[a.2 as int] == v);
    assert forall|k: int|
        0 <= k < m2.stack.len() && (#[trigger] m2.stack[k]).vertex_index
            != usize::MAX implies (m2.stack[k].vertex_index as int) < m2.verts.0.len()
        && m2.verts.0[m2.stack[k].vertex_index as int].spec_is_open() by {
        if k < m.stack.len() {
            assert(m2.stack[k] == m.stack[k]);
            let s = m.stack[k].vertex_index;
            assert(d.2.contains(s)) by {
                assert(m.used.contains(s));
                assert forall|j: int|
                    0 <= j < m.ready.len() && (#[trigger] m.ready[j]).0 == s implies m.ready[j].1
                    + crate::VISIBLE_DURATION >= at by {
                    assert(m.stack[k].vertex_index != m.ready[j].0);
                }
                lemma_drain_keeps_slot(m, at, s);
            }
            lemma_alloc_keeps_used(m1, v, s);
        } else {
            assert(m2.stack[k].vertex_index == a.2);
        }
    }
}

/// The unwinding of a `Return` keeps every remaining frame's box open: the
/// frames' slots are distinct, so only popped frames' boxes are closed.
proof fn lemma_exit_loop_frames_open(
    stack: Seq<crate::trace::CallStackEntry>,
    verts: (Seq<CallBox>, usize, usize),
    ready: Seq<(usize, u64)>,
    free_depth: Seq<(u32, u64)>,
    at: u64,
    mid: u64,
)
    requires
        forall|i: int, j: int|
            0 <= i < j < stack.len() && stack[i].vertex_index != usize::MAX
                && stack[j].vertex_index != usize::MAX ==> stack[i].vertex_index
                != stack[j].vertex_index,
        forall|k: int|
            0 <= k < stack.len() && (#[trigger] stack[k]).vertex_index != usize::MAX ==> (
            stack[k].vertex_index as int) < verts.0.len()
                && verts.0[stack[k].vertex_index as int].spec_is_open(),
    ensures
        ({
            let r = spec_exit_loop(stack, verts, ready, free_depth, at, mid);
            forall|k: int|
                0 <= k < r.0.len() && (#[trigger] r.0[k]).vertex_index != usize::MAX ==> (
                r.0[k].vertex_index as int) < r.1.0.len()
                    && r.1.0[r.0[k].vertex_index as int].spec_is_open()
        }),
    decreases stack.len(),
{
    if stack.len() == 0 {
    } else {
        let e = stack.last();
        let s1 = stack.drop_last();
        let closed = e.vertex_index != usize::MAX && (e.vertex_index as int) < verts.0.len();
        let verts1 = if closed {
            spec_gsv_set_end(verts, e.vertex_index, at)
        } else {
            verts
        };
        assert(verts1.0.len() == verts.0.len());
        assert forall|k: int|
            0 <= k < s1.len() && (#[trigger] s1[k]).vertex_index != usize::MAX implies (
            s1[k].vertex_index as int) < verts1.0.len()
            && verts1.0[s1[k].vertex_index as int].spec_is_open() by {
            assert(s1[k] == stack[k]);
            if closed {
                assert(stack[k].vertex_index != e.vertex_index);
            }
        }
        let ready1 = if closed {
            ready.push((e.vertex_index, at))
        } else {
            ready
        };
        let fd1 = free_depth.push((s1.len() as u32, at));
        let r = spec_exit_loop(stack, verts, ready, free_depth, at, mid);
        if e.method_id == mid {
            assert(r.0 == s1 && r.1 == verts1);
        } else {
            lemma_exit_loop_frames_open(s1, verts1, ready1, fd1, at, mid);
            assert(r == spec_exit_loop(s1, verts1, ready1, fd1, at, mid));
        }
    }
}

/// A cut strikes every frame's reference out, so no open frame is left to
/// constrain.
proof fn lemma_cut_frames_open(m: StackModel, at: u64)
    ensures
        spec_frames_open(spec_cut(m, at)),
{
    lemma_cut_loop_effect(m.stack, m.verts, m.ready, at, 0);
    let m2 = spec_cut(m, at);
    assert forall|k: int|
        0 <= k < m2.stack.len() && (#[trigger] m2.stack[k]).vertex_index
            != usize::MAX implies (m2.stack[k].vertex_index as int) < m2.verts.0.len()
        && m2.verts.0[m2.stack[k].vertex_index as int].spec_is_open() by {
        assert(m2.stack[k].vertex_index == usize::MAX);
    }
}

/// A resumption gives every frame a fresh open box.
proof fn lemma_resume_frames_open(m: StackModel, at: u64)
    requires
        slots_wf(m),
        at <= TIMESTAMP_MASK,
        m.verts.0.len() + m.stack.len() <= usize::MAX,
    ensures
        spec_frames_open(spec_resume(m, at)),
{
    lemma_drain_slots_wf(m, at);
    let d = spec_drain(m.ready, m.free, m.used, at);
    let m1 = StackModel { ready: d.0, free: d.1, used: d.2, ..m };
    lemma_resume_loop_effect(m1, at, 0);
    let r = spec_resume_loop(m1.stack, m1.verts, m1.free, m1.used, at, 0);
    let m2 = spec_resume(m, at);
    assert(m2.stack == r.0 && m2.verts == r.1);
    crate::event::lemma_time_codec_lossless(at);
    assert forall|k: int|
        0 <= k < m2.stack.len() && (#[trigger] m2.stack[k]).vertex_index
            != usize::MAX implies (m2.stack[k].vertex_index as int) < m2.verts.0.len()
        && m2.verts.0[m2.stack[k].vertex_index as int].spec_is_open() by {
        assert(r.1.0[r.0[k].vertex_index as int] == crate::trace::spec_call_box(
            at,
            u64::MAX,
            m1.stack[k].method_id,
            k as u32,
        ));
        lemma_fresh_box_ok(at, m1.stack[k].method_id, k as u32);
    }
}

/// Housekeeping keeps every open frame's box open: frames' slots survive
/// both the drain and the cut to one past the largest used slot.
proof fn lemma_sync_frames_open(m: StackModel, now: u64)
    requires
        slots_wf(m),
        spec_frames_open(m),
    ensures
        spec_frames_open(spec_stack_sync(m, now)),
{
    lemma_drain_slots_wf(m, now);
    let d = spec_drain(m.ready, m.free, m.used, now);
    let required = crate::state::spec_required_len(d.2, m.verts.0.len());
    let vm = spec_gsv_truncate(m.verts, required);
    let m2 = spec_stack_sync(m, now);
    assert forall|k: int|
        0 <= k < m2.stack.len() && (#[trigger] m2.stack[k]).vertex_index
            != usize::MAX implies (m2.stack[k].vertex_index as int) < m2.verts.0.len()
        && m2.verts.0[m2.stack[k].vertex_index as int].spec_is_open() by {
        assert(m2.stack[k] == m.stack[k]);
        let s = m.stack[k].vertex_index;
        assert(d.2.contains(s)) by {
            assert(m.used.contains(s));
            assert forall|j: int|
                0 <= j < m.ready.len() && (#[trigger] m.ready[j]).0 == s implies m.ready[j].1
                + crate::VISIBLE_DURATION >= now by {
                assert(m.stack[k].vertex_index != m.ready[j].0);
            }
            lemma_drain_keeps_slot(m, now, s);
        }
        let j = choose|j: int| 0 <= j < d.2.len() && d.2[j] == s;
        assert(d.2[j] <= d.2[d.2.len() - 1]);
        assert((s as int) < required);
        assert(m2.verts.0[s as int] == m.verts.0[s as int]);
    }
}

/// Any stack operation at a time the state has reached keeps the stack
/// sound: the slot invariant, the open-frame/open-box correspondence, and
/// every box open or forward-spanning.
pub proof fn lemma_apply_op_sound(m: StackModel, op: crate::state::StackOp, t: u64)
    requires
        spec_stack_sound(m, t),
        m.verts.0.len() + m.stack.len() + 1 <= usize::MAX,
        match op {
            crate::state::StackOp::Enter(at, _) => t <= at && at <= TIMESTAMP_MASK,
            crate::state::StackOp::Exit(at, _) => t <= at && at <= TIMESTAMP_MASK,
            crate::state::StackOp::Cut(at) => t <= at && at <= TIMESTAMP_MASK,
            crate::state::StackOp::Resume(at) => t <= at && at <= TIMESTAMP_MASK,
        },
    ensures
        ({
            let at = match op {
                crate::state::StackOp::Enter(at, _) => at,
                crate::state::StackOp::Exit(at, _) => at,
                crate::state::StackOp::Cut(at) => at,
                crate::state::StackOp::Resume(at) => at,
            };
            spec_stack_sound(crate::state::spec_apply_op(m, op), at)
        }),
{
    lemma_apply_op_slots_wf(m, op);
    lemma_op_boxes_ok(m, op, t);
    match op {
        crate::state::StackOp::Enter(at, mid) => {
            lemma_enter_frames_open(m, at, mid);
        },
        crate::state::StackOp::Exit(at, mid) => {
            lemma_exit_loop_frames_open(m.stack, m.verts, m.ready, m.free_depth, at, mid);
        },
        crate::state::StackOp::Cut(at) => {
            lemma_cut_frames_open(m, at);
        },
        crate::state::StackOp::Resume(at) => {
            lemma_resume_frames_open(m, at);
        },
    }
}

/// Whether every thread's stack is sound at time `t`.
pub open spec fn spec_all_sound(threads: Seq<(u32, StackModel)>, t: u64) -> bool {
    forall|k: int| 0 <= k < threads.len() ==> spec_stack_sound((#[trigger] threads[k]).1, t)
}

/// One event keeps every thread's stack sound, at the event's own time.
pub proof fn lemma_state_step_sound(
    st: crate::state::StateModel,
    ev: crate::event::RRProfTraceEvent,
    t: u64,
)
    requires
        spec_all_sound(st.threads, t),
        t <= crate::event::spec_timestamp(ev.timestamp_and_event_type),
        forall|k: int|
            0 <= k < st.threads.len() ==> ((#[trigger] st.threads[k]).1.verts.0.len()
                + st.threads[k].1.stack.len() + 1) <= usize::MAX,
    ensures
        spec_all_sound(
            crate::state::spec_state_step(st, ev).threads,
            crate::event::spec_timestamp(ev.timestamp_and_event_type),
        ),
{
    let ts = crate::event::spec_timestamp(ev.timestamp_and_event_type);
    crate::event::lemma_timestamp_bound(ev.timestamp_and_event_type);
    match crate::event::spec_event_type(ev.timestamp_and_event_type) {
        Some(crate::event::RRProfTraceEventType::Call) => {
            lemma_with_thread_sound(st.threads, st.last, crate::state::StackOp::Enter(ts, ev.data), t);
        },
        Some(crate::event::RRProfTraceEventType::Return) => {
            lemma_with_thread_sound(st.threads, st.last, crate::state::StackOp::Exit(ts, ev.data), t);
        },
        Some(crate::event::RRProfTraceEventType::GCStart) => {
            lemma_with_thread_sound(st.threads, st.last, crate::state::StackOp::Cut(ts), t);
        },
        Some(crate::event::RRProfTraceEventType::GCEnd) => {
            lemma_with_thread_sound(st.threads, st.last, crate::state::StackOp::Resume(ts), t);
        },
        Some(crate::event::RRProfTraceEventType::ThreadSuspended) => {
            lemma_with_thread_sound(st.threads, ev.data as u32, crate::state::StackOp::Cut(ts), t);
        },
        Some(crate::event::RRProfTraceEventType::ThreadResume) => {
            lemma_with_thread_sound(st.threads, ev.data as u32, crate::state::StackOp::Resume(ts), t);
        },
        Some(crate::event::RRProfTraceEventType::ThreadExit) => {
            lemma_all_sound_mono(st.threads, t, ts);
        },
        Some(crate::event::RRProfTraceEventType::ThreadStart) => {
            lemma_all_sound_mono(st.threads, t, ts);
        },
        Some(crate::event::RRProfTraceEventType::ThreadReady) => {
            lemma_all_sound_mono(st.threads, t, ts);
        },
        None => {
            lemma_all_sound_mono(st.threads, t, ts);
        },
    }
}

/// Soundness of every thread is monotone in the time reached.
proof fn lemma_all_sound_mono(threads: Seq<(u32, StackModel)>, t1: u64, t2: u64)
    requires
        spec_all_sound(threads, t1),
        t1 <= t2,
    ensures
        spec_all_sound(threads, t2),
{
    assert forall|k: int| 0 <= k < threads.len() implies spec_stack_sound(
        (#[trigger] threads[k]).1,
        t2,
    ) by {
        lemma_boxes_ok_mono(threads[k].1.verts.0, t1, t2);
    }
}

/// Dispatching an operation to one thread keeps every thread's stack
/// sound.
proof fn lemma_with_thread_sound(
    threads: Seq<(u32, StackModel)>,
    tid: u32,
    op: crate::state::StackOp,
    t: u64,
)
    requires
        spec_all_sound(threads, t),
        forall|k: int|
            0 <= k < threads.len() ==> ((#[trigger] threads[k]).1.verts.0.len()
                + threads[k].1.stack.len() + 1) <= usize::MAX,
        match op {
            crate::state::StackOp::Enter(at, _) => t <= at && at <= TIMESTAMP_MASK,
            crate::state::StackOp::Exit(at, _) => t <= at && at <= TIMESTAMP_MASK,
            crate::state::StackOp::Cut(at) => t <= at && at <= TIMESTAMP_MASK,
            crate::state::StackOp::Resume(at) => t <= at && at <= TIMESTAMP_MASK,
        },
    ensures
        ({
            let at = match op {
                crate::state::StackOp::Enter(at, _) => at,
                crate::state::StackOp::Exit(at, _) => at,
                crate::state::StackOp::Cut(at) => at,
                crate::state::StackOp::Resume(at) => at,
            };
            spec_all_sound(crate::state::spec_with_thread(threads, tid, op), at)
        }),
{
    let at = match op {
        crate::state::StackOp::Enter(at0, _) => at0,
        crate::state::StackOp::Exit(at0, _) => at0,
        crate::state::StackOp::Cut(at0) => at0,
        crate::state::StackOp::Resume(at0) => at0,
    };
    let i = crate::state::spec_ts_lower_bound(threads, tid);
    lemma_ts_lower_bound_total(threads, tid);
    let t2 = crate::state::spec_with_thread(threads, tid, op);
    if i < threads.len() && threads[i].0 == tid {
        lemma_apply_op_sound(threads[i].1, op, t);
        assert forall|k: int| 0 <= k < t2.len() implies spec_stack_sound(
            (#[trigger] t2[k]).1,
            at,
        ) by {
            if k == i {
            } else {
                assert(t2[k] == threads[k]);
                lemma_boxes_ok_mono(threads[k].1.verts.0, t, at);
            }
        }
    } else {
        assert(spec_stack_sound(crate::state::spec_empty_stack(), t));
        lemma_apply_op_sound(crate::state::spec_empty_stack(), op, t);
        assert forall|k: int| 0 <= k < t2.len() implies spec_stack_sound(
            (#[trigger] t2[k]).1,
            at,
        ) by {
            if k < i {
                assert(t2[k] == threads[k]);
                lemma_boxes_ok_mono(threads[k].1.verts.0, t, at);
            } else if k == i {
            } else {
                assert(t2[k] == threads[k - 1]);
                lemma_boxes_ok_mono(threads[k - 1].1.verts.0, t, at);
            }
        }
    }
}

/// Whether every thread's store has room for one more box and frame — a
/// machine bound every reachable in-memory state satisfies.
pub open spec fn spec_threads_room(threads: Seq<(u32, StackModel)>) -> bool {
    forall|k: int|
        0 <= k < threads.len() ==> ((#[trigger] threads[k]).1.verts.0.len()
            + threads[k].1.stack.len() + 1) <= usize::MAX
}

/// A whole batch keeps every thread's stack sound — the front-end form of
/// the box-soundness law: after any event sequence with non-decreasing
/// timestamps, every box referenced by an open frame carries the `u64::MAX`
/// open sentinel, and every closed box spans forward.
pub proof fn lemma_state_process_sound(
    st: crate::state::StateModel,
    events: Seq<crate::event::RRProfTraceEvent>,
    t: u64,
)
    requires
        spec_all_sound(st.threads, t),
        forall|i: int, j: int|
            0 <= i <= j < events.len() ==> crate::event::spec_timestamp(
                (#[trigger] events[i]).timestamp_and_event_type,
            ) <= crate::event::spec_timestamp((#[trigger] events[j]).timestamp_and_event_type),
        events.len() > 0 ==> t <= crate::event::spec_timestamp(
            events[0].timestamp_and_event_type,
        ),
        forall|j: int|
            0 <= j < events.len() ==> spec_threads_room(
                #[trigger] crate::state::spec_state_process(st, events.take(j)).threads,
            ),
    ensures
        spec_all_sound(
            crate::state::spec_state_process(st, events).threads,
            if events.len() == 0 {
                t
            } else {
                crate::event::spec_timestamp(events.last().timestamp_and_event_type)
            },
        ),
    decreases events.len(),
{
    if events.len() == 0 {
    } else {
        let ev = events[0];
        let ts0 = crate::event::spec_timestamp(ev.timestamp_and_event_type);
        assert(spec_threads_room(st.threads)) by {
            assert(events.take(0) =~= Seq::<crate::event::RRProfTraceEvent>::empty());
            assert(crate::state::spec_state_process(st, events.take(0)) == st);
        }
        lemma_state_step_sound(st, ev, t);
        let st1 = crate::state::spec_state_step(st, ev);
        let rest = events.drop_first();
        assert(forall|i: int| 0 <= i < rest.len() ==> #[trigger] rest[i] == events[i + 1]);
        assert forall|j: int| 0 <= j < rest.len() implies spec_threads_room(
            #[trigger] crate::state::spec_state_process(st1, rest.take(j)).threads,
        ) by {
            assert(events.take(j + 1)[0] == ev);
            assert(events.take(j + 1).drop_first() =~= rest.take(j));
            assert(crate::state::spec_state_process(st, events.take(j + 1))
                == crate::state::spec_state_process(st1, rest.take(j)));
        }
        lemma_state_process_sound(st1, rest, ts0);
        assert(crate::state::spec_state_process(st, events) == crate::state::spec_state_process(
            st1,
            rest,
        ));
        if rest.len() == 0 {
            assert(events.last() == events[0]);
        } else {
            assert(rest.last() == events.last());
        }
    }
}

/// What closing every frame does to the box list, box by box: every box
/// keeps its start and method and is at most re-ended at `now`, and every
/// frame's own box is exactly its old content closed at `now`.
proof fn lemma_close_boxes_effect(
    stack: Seq<crate::trace::CallStackEntry>,
    boxes: Seq<CallBox>,
    now: u64,
)
    requires
        boxes.len() <= usize::MAX,
    ensures
        ({
            let r = crate::trace::spec_close_boxes(stack, boxes, now);
            &&& r.len() == boxes.len()
            &&& (forall|i: int|
                0 <= i < boxes.len() ==> (#[trigger] r[i]) == boxes[i] || r[i] == (CallBox {
                    end_lo: crate::event::spec_time_lo(now),
                    end_hi: crate::event::spec_time_hi(now),
                    ..boxes[i]
                }))
            &&& (forall|k: int|
                0 <= k < stack.len() && (#[trigger] stack[k]).vertex_index != usize::MAX && (
                stack[k].vertex_index as int) < boxes.len() ==> r[stack[k].vertex_index as int]
                    == (CallBox {
                    end_lo: crate::event::spec_time_lo(now),
                    end_hi: crate::event::spec_time_hi(now),
                    ..boxes[stack[k].vertex_index as int]
                }))
        }),
    decreases stack.len(),
{
    if stack.len() == 0 {
    } else {
        let b1 = crate::trace::spec_close_frame(boxes, stack[0].vertex_index, now);
        lemma_close_boxes_effect(stack.drop_first(), b1, now);
        let r = crate::trace::spec_close_boxes(stack, boxes, now);
        assert(r == crate::trace::spec_close_boxes(stack.drop_first(), b1, now));
        assert forall|i: int| 0 <= i < boxes.len() implies (#[trigger] r[i]) == boxes[i] || r[i]
            == (CallBox {
            end_lo: crate::event::spec_time_lo(now),
            end_hi: crate::event::spec_time_hi(now),
            ..boxes[i]
        }) by {
            if stack[0].vertex_index != usize::MAX && (stack[0].vertex_index as int)
                < boxes.len() && i == stack[0].vertex_index {
                assert(b1[i] == (CallBox {
                    end_lo: crate::event::spec_time_lo(now),
                    end_hi: crate::event::spec_time_hi(now),
                    ..boxes[i]
                }));
            } else {
                assert(b1[i] == boxes[i]);
            }
        }
        assert forall|k: int|
            0 <= k < stack.len() && (#[trigger] stack[k]).vertex_index != usize::MAX && (
            stack[k].vertex_index as int) < boxes.len() implies r[stack[k].vertex_index as int]
            == (CallBox {
            end_lo: crate::event::spec_time_lo(now),
            end_hi: crate::event::spec_time_hi(now),
            ..boxes[stack[k].vertex_index as int]
        }) by {
            let idx = stack[k].vertex_index as int;
            if stack[0].vertex_index != usize::MAX && (stack[0].vertex_index as int)
                < boxes.len() && idx == stack[0].vertex_index {
                assert(b1[idx] == (CallBox {
                    end_lo: crate::event::spec_time_lo(now),
                    end_hi: crate::event::spec_time_hi(now),
                    ..boxes[idx]
                }));
            } else {
                assert(b1[idx] == boxes[idx]);
            }
            if k == 0 {
                assert(r[idx] == b1[idx] || r[idx] == (CallBox {
                    end_lo: crate::event::spec_time_lo(now),
                    end_hi: crate::event::spec_time_hi(now),
                    ..b1[idx]
                }));
            } else {
                assert(stack.drop_first()[k - 1] == stack[k]);
                assert(r[idx] == (CallBox {
                    end_lo: crate::event::spec_time_lo(now),
                    end_hi: crate::event::spec_time_hi(now),
                    ..b1[idx]
                }));
            }
        }
    }
}

/// What reopening does to the box list: the old boxes stay, and one fresh
/// open-until-batch-end box is appended per frame, in frame order, with
/// the frame pointing at it.
proof fn lemma_reopen_all_effect(
    stack: Seq<crate::trace::CallStackEntry>,
    boxes: Seq<CallBox>,
    pos: int,
    now: u64,
    end: u64,
)
    requires
        boxes.len() + stack.len() <= usize::MAX,
    ensures
        ({
            let r = crate::trace::spec_reopen_all(stack, boxes, pos, now, end);
            &&& r.0.len() == stack.len()
            &&& r.1.len() == boxes.len() + stack.len()
            &&& (forall|i: int| 0 <= i < boxes.len() ==> (#[trigger] r.1[i]) == boxes[i])
            &&& (forall|k: int|
                0 <= k < stack.len() ==> (#[trigger] r.1[boxes.len() + k])
                    == crate::trace::spec_call_box(now, end, stack[k].method_id, (pos + k) as u32))
            &&& (forall|k: int|
                0 <= k < stack.len() ==> (#[trigger] r.0[k]).vertex_index as int == boxes.len() + k
                    && r.0[k].method_id == stack[k].method_id)
        }),
    decreases stack.len(),
{
    if stack.len() == 0 {
    } else {
        let e1 = crate::trace::CallStackEntry {
            vertex_index: boxes.len() as usize,
            method_id: stack[0].method_id,
        };
        let b1 = boxes.push(crate::trace::spec_call_box(now, end, stack[0].method_id, pos as u32));
        lemma_reopen_all_effect(stack.drop_first(), b1, pos + 1, now, end);
        let rest = crate::trace::spec_reopen_all(stack.drop_first(), b1, pos + 1, now, end);
        let r = crate::trace::spec_reopen_all(stack, boxes, pos, now, end);
        assert(r.0 == seq![e1] + rest.0 && r.1 == rest.1);
        assert(forall|i: int|
            0 <= i < stack.drop_first().len() ==> #[trigger] stack.drop_first()[i] == stack[i
                + 1]);
        assert forall|k: int| 0 <= k < stack.len() implies (#[trigger] r.1[boxes.len() + k])
            == crate::trace::spec_call_box(now, end, stack[k].method_id, (pos + k) as u32) by {
            if k == 0 {
                assert(r.1[boxes.len() as int] == b1[boxes.len() as int]);
            } else {
                assert(r.1[b1.len() + (k - 1)] == crate::trace::spec_call_box(
                    now,
                    end,
                    stack.drop_first()[k - 1].method_id,
                    (pos + 1 + (k - 1)) as u32,
                ));
            }
        }
        assert forall|k: int|
            0 <= k < stack.len() implies (#[trigger] r.0[k]).vertex_index as int == boxes.len()
            + k && r.0[k].method_id == stack[k].method_id by {
            if k == 0 {
                assert(r.0[0] == e1);
            } else {
                assert(r.0[k] == rest.0[k - 1]);
                assert(rest.0[k - 1].vertex_index as int == b1.len() + (k - 1));
            }
        }
    }
}

/// In the replay, a `GCStart` immediately followed by a `GCEnd` gives
/// every frame open at the pause exactly two adjacent boxes of its method:
/// its own box closed at the pause's start, and a fresh box of the same
/// method and depth opened at the pause's end — item by item, with nothing
/// else in the box list disturbed.
pub proof fn lemma_slow_gc_pause_two_boxes(
    st: crate::trace::SlowReplay,
    gc_start: crate::event::RRProfTraceEvent,
    gc_end: crate::event::RRProfTraceEvent,
    end: u64,
)
    requires
        crate::event::spec_event_type(gc_start.timestamp_and_event_type) == Some(
            crate::event::RRProfTraceEventType::GCStart,
        ),
        crate::event::spec_event_type(gc_end.timestamp_and_event_type) == Some(
            crate::event::RRProfTraceEventType::GCEnd,
        ),
        st.current is Some,
        0 <= st.current.unwrap() < st.data.len(),
        crate::trace::st_boxes(st).len() + crate::trace::st_stack(st).len() <= usize::MAX,
        forall|k: int|
            0 <= k < crate::trace::st_stack(st).len() ==> (#[trigger] crate::trace::st_stack(
                st,
            )[k]).vertex_index != usize::MAX && (crate::trace::st_stack(st)[k].vertex_index as int)
                < crate::trace::st_boxes(st).len(),
    ensures
        ({
            let g1 = crate::event::spec_timestamp(gc_start.timestamp_and_event_type);
            let g2 = crate::event::spec_timestamp(gc_end.timestamp_and_event_type);
            let stack = crate::trace::st_stack(st);
            let boxes = crate::trace::st_boxes(st);
            let st2 = crate::trace::spec_slow_step(
                crate::trace::spec_slow_step(st, gc_start, end),
                gc_end,
                end,
            );
            let i = st.current.unwrap();
            &&& st2.data[i].1.len() == stack.len()
            &&& st2.data[i].2.len() == boxes.len() + stack.len()
            &&& (forall|k: int|
                0 <= k < stack.len() ==> {
                    let old_idx = (#[trigger] stack[k]).vertex_index as int;
                    &&& st2.data[i].2[old_idx] == (CallBox {
                        end_lo: crate::event::spec_time_lo(g1),
                        end_hi: crate::event::spec_time_hi(g1),
                        ..boxes[old_idx]
                    })
                    &&& st2.data[i].2[boxes.len() + k] == crate::trace::spec_call_box(
                        g2,
                        end,
                        stack[k].method_id,
                        k as u32,
                    )
                    &&& st2.data[i].1[k].vertex_index as int == boxes.len() + k
                })
        }),
{
    let g1 = crate::event::spec_timestamp(gc_start.timestamp_and_event_type);
    let g2 = crate::event::spec_timestamp(gc_end.timestamp_and_event_type);
    let stack = crate::trace::st_stack(st);
    let boxes = crate::trace::st_boxes(st);
    let i = st.current.unwrap();
    let st1 = crate::trace::spec_slow_step(st, gc_start, end);
    lemma_close_boxes_effect(stack, boxes, g1);
    let b1 = crate::trace::spec_close_boxes(stack, boxes, g1);
    let inv = crate::trace::spec_invalidate(stack);
    assert(st1.data[i].1 == inv && st1.data[i].2 == b1 && st1.current == st.current);
    assert(crate::trace::st_stack(st1) == inv && crate::trace::st_boxes(st1) == b1);
    let st2 = crate::trace::spec_slow_step(st1, gc_end, end);
    lemma_reopen_all_effect(inv, b1, 0, g2, end);
    let r = crate::trace::spec_reopen_all(inv, b1, 0, g2, end);
    assert(st2.data[i].1 == r.0 && st2.data[i].2 == r.1);
    assert forall|k: int| 0 <= k < stack.len() implies {
        let old_idx = (#[trigger] stack[k]).vertex_index as int;
        &&& st2.data[i].2[old_idx] == (CallBox {
            end_lo: crate::event::spec_time_lo(g1),
            end_hi: crate::event::spec_time_hi(g1),
            ..boxes[old_idx]
        })
        &&& st2.data[i].2[boxes.len() + k] == crate::trace::spec_call_box(
            g2,
            end,
            stack[k].method_id,
            k as u32,
        )
        &&& st2.data[i].1[k].vertex_index as int == boxes.len() + k
    } by {
        let old_idx = stack[k].vertex_index as int;
        assert(b1[old_idx] == (CallBox {
            end_lo: crate::event::spec_time_lo(g1),
            end_hi: crate::event::spec_time_hi(g1),
            ..boxes[old_idx]
        }));
        assert(r.1[old_idx] == b1[old_idx]);
        assert(inv[k].method_id == stack[k].method_id);
        assert(r.1[b1.len() + k] == crate::trace::spec_call_box(
            g2,
            end,
            inv[k].method_id,
            (0 + k) as u32,
        ));
    }
}

/// One balanced call in the event stream: a `Call` event, a balanced run
/// of nested calls, and the matching `Return` event.
pub struct ReplaySpan {
    pub call_ev: crate::event::RRProfTraceEvent,
    pub return_ev: crate::event::RRProfTraceEvent,
    pub inner: Seq<ReplaySpan>,
}

/// A balanced call's events are a `Call` and a `Return` of the same
/// method, around balanced inner calls.
pub open spec fn spec_replay_span_wf(s: ReplaySpan) -> bool
    decreases s, 0nat,
{
    &&& crate::event::spec_event_type(s.call_ev.timestamp_and_event_type) == Some(
        crate::event::RRProfTraceEventType::Call,
    )
    &&& crate::event::spec_event_type(s.return_ev.timestamp_and_event_type) == Some(
        crate::event::RRProfTraceEventType::Return,
    )
    &&& s.return_ev.data == s.call_ev.data
    &&& spec_replay_spans_wf(s.inner)
}

/// Every call of a balanced run is balanced.
pub open spec fn spec_replay_spans_wf(f: Seq<ReplaySpan>) -> bool
    decreases f, 1nat, f.len(),
{
    if f.len() == 0 {
        true
    } else {
        spec_replay_span_wf(f[0]) && spec_replay_spans_wf(f.drop_first())
    }
}

/// The replay state after one balanced call.
pub open spec fn spec_run_replay_span(
    st: crate::trace::SlowReplay,
    s: ReplaySpan,
    end: u64,
) -> crate::trace::SlowReplay
    decreases s, 0nat,
{
    crate::trace::spec_slow_step(
        spec_run_replay_forest(crate::trace::spec_slow_step(st, s.call_ev, end), s.inner, end),
        s.return_ev,
        end,
    )
}

/// The replay state after a balanced run of calls, in order.
pub open spec fn spec_run_replay_forest(
    st: crate::trace::SlowReplay,
    f: Seq<ReplaySpan>,
    end: u64,
) -> crate::trace::SlowReplay
    decreases f, 1nat, f.len(),
{
    if f.len() == 0 {
        st
    } else {
        spec_run_replay_forest(spec_run_replay_span(st, f[0], end), f.drop_first(), end)
    }
}

/// How many `Call` events one balanced call holds, itself included.
pub open spec fn spec_replay_span_count(s: ReplaySpan) -> nat
    decreases s, 0nat,
{
    1 + spec_replay_forest_count(s.inner)
}

/// How many `Call` events a balanced run holds.
pub open spec fn spec_replay_forest_count(f: Seq<ReplaySpan>) -> nat
    decreases f, 1nat, f.len(),
{
    if f.len() == 0 {
        0nat
    } else {
        spec_replay_span_count(f[0]) + spec_replay_forest_count(f.drop_first())
    }
}

/// A balanced run of calls leaves the replay exactly as it found it but
/// for its boxes: the current thread's stack is restored, every other
/// thread is untouched, the boxes already drawn stay as they were, and
/// exactly one box is appended per `Call` event — the replay form of the
/// balanced round-trip law.
pub proof fn lemma_replay_forest_balanced(
    st: crate::trace::SlowReplay,
    f: Seq<ReplaySpan>,
    end: u64,
)
    requires
        spec_replay_spans_wf(f),
        st.current is Some,
        0 <= st.current.unwrap() < st.data.len(),
        crate::trace::st_boxes(st).len() + spec_replay_forest_count(f) <= usize::MAX,
    ensures
        ({
            let st2 = spec_run_replay_forest(st, f, end);
            &&& st2.current == st.current
            &&& st2.data.len() == st.data.len()
            &&& (forall|k: int|
                0 <= k < st.data.len() && k != st.current.unwrap() ==> (#[trigger] st2.data[k])
                    == st.data[k])
            &&& crate::trace::st_stack(st2) == crate::trace::st_stack(st)
            &&& crate::trace::st_boxes(st2).len() == crate::trace::st_boxes(st).len()
                + spec_replay_forest_count(f)
            &&& (forall|j: int|
                0 <= j < crate::trace::st_boxes(st).len() ==> (
                #[trigger] crate::trace::st_boxes(st2)[j]) == crate::trace::st_boxes(st)[j])
            &&& st2.scratch_stack == st.scratch_stack
            &&& st2.scratch_boxes == st.scratch_boxes
        }),
    decreases f, 1nat, f.len(),
{
    if f.len() == 0 {
    } else {
        lemma_replay_span_balanced(st, f[0], end);
        let st1 = spec_run_replay_span(st, f[0], end);
        lemma_replay_forest_balanced(st1, f.drop_first(), end);
    }
}

/// One balanced call pushes one frame, runs its nested calls, and pops
/// exactly that frame again, leaving one new box behind.
pub proof fn lemma_replay_span_balanced(st: crate::trace::SlowReplay, s: ReplaySpan, end: u64)
    requires
        spec_replay_span_wf(s),
        st.current is Some,
        0 <= st.current.unwrap() < st.data.len(),
        crate::trace::st_boxes(st).len() + spec_replay_span_count(s) <= usize::MAX,
    ensures
        ({
            let st2 = spec_run_replay_span(st, s, end);
            &&& st2.current == st.current
            &&& st2.data.len() == st.data.len()
            &&& (forall|k: int|
                0 <= k < st.data.len() && k != st.current.unwrap() ==> (#[trigger] st2.data[k])
                    == st.data[k])
            &&& crate::trace::st_stack(st2) == crate::trace::st_stack(st)
            &&& crate::trace::st_boxes(st2).len() == crate::trace::st_boxes(st).len()
                + spec_replay_span_count(s)
            &&& (forall|j: int|
                0 <= j < crate::trace::st_boxes(st).len() ==> (
                #[trigger] crate::trace::st_boxes(st2)[j]) == crate::trace::st_boxes(st)[j])
            &&& st2.scratch_stack == st.scratch_stack
            &&& st2.scratch_boxes == st.scratch_boxes
        }),
    decreases s, 2nat,
{
    let i = st.current.unwrap();
    let stack = crate::trace::st_stack(st);
    let boxes = crate::trace::st_boxes(st);
    let m = s.call_ev.data;
    let now_c = crate::event::spec_timestamp(s.call_ev.timestamp_and_event_type);
    let e = crate::trace::CallStackEntry { vertex_index: boxes.len() as usize, method_id: m };
    let sta = crate::trace::spec_slow_step(st, s.call_ev, end);
    assert(sta.data[i].1 == stack.push(e));
    assert(sta.data[i].2 == boxes.push(
        crate::trace::spec_call_box(now_c, end, m, stack.len() as u32),
    ));
    assert(sta.current == st.current);
    assert(crate::trace::st_stack(sta) == stack.push(e));
    lemma_replay_forest_balanced(sta, s.inner, end);
    let stb = spec_run_replay_forest(sta, s.inner, end);
    assert(crate::trace::st_stack(stb) == stack.push(e));
    let bb = crate::trace::st_boxes(stb);
    assert(bb.len() == boxes.len() + 1 + spec_replay_forest_count(s.inner));
    let now_r = crate::event::spec_timestamp(s.return_ev.timestamp_and_event_type);
    let st2 = crate::trace::spec_slow_step(stb, s.return_ev, end);
    let r = crate::trace::spec_slow_return(stack.push(e), bb, s.return_ev.data, now_r);
    assert(stack.push(e).last() == e);
    assert(e.method_id == s.return_ev.data);
    assert(r.0 == stack.push(e).drop_last());
    assert(r.0 =~= stack);
    assert(r.1 == crate::trace::spec_close_frame(bb, e.vertex_index, now_r));
    assert(st2.data[i].1 == r.0 && st2.data[i].2 == r.1);
    assert forall|j: int| 0 <= j < boxes.len() implies (
    #[trigger] crate::trace::st_boxes(st2)[j]) == boxes[j] by {
        assert(bb[j] == boxes.push(
            crate::trace::spec_call_box(now_c, end, m, stack.len() as u32),
        )[j]);
        assert(r.1[j] == bb[j]);
    }
}

/// The stack of thread 0, which `Call` and `Return` events address while
/// no `ThreadResume` has arrived: absent until the first call touches it.
pub open spec fn spec_thread0(st: crate::state::StateModel) -> StackModel {
    if st.threads.len() == 0 {
        crate::state::spec_empty_stack()
    } else {
        st.threads[0].1
    }
}

/// A front end that has only ever dispatched to thread 0: at most that
/// one entry, and the last resumed thread still the initial zero.
pub open spec fn spec_thread0_form(st: crate::state::StateModel) -> bool {
    &&& st.threads.len() <= 1
    &&& (st.threads.len() == 1 ==> st.threads[0].0 == 0)
    &&& st.last == 0
}

/// A `Call` or `Return` event on such a front end acts directly on thread
/// 0's stack, creating its entry on the first call.
proof fn lemma_thread0_step(st: crate::state::StateModel, ev: crate::event::RRProfTraceEvent)
    requires
        spec_thread0_form(st),
        crate::event::spec_event_type(ev.timestamp_and_event_type) == Some(
            crate::event::RRProfTraceEventType::Call,
        ) || crate::event::spec_event_type(ev.timestamp_and_event_type) == Some(
            crate::event::RRProfTraceEventType::Return,
        ),
    ensures
        ({
            let ts = crate::event::spec_timestamp(ev.timestamp_and_event_type);
            let op = if crate::event::spec_event_type(ev.timestamp_and_event_type) == Some(
                crate::event::RRProfTraceEventType::Call,
            ) {
                crate::state::StackOp::Enter(ts, ev.data)
            } else {
                crate::state::StackOp::Exit(ts, ev.data)
            };
            let st2 = crate::state::spec_state_step(st, ev);
            &&& spec_thread0_form(st2)
            &&& st2.threads.len() == 1
            &&& spec_thread0(st2) == crate::state::spec_apply_op(spec_thread0(st), op)
        }),
{
    let ts = crate::event::spec_timestamp(ev.timestamp_and_event_type);
    let op = if crate::event::spec_event_type(ev.timestamp_and_event_type) == Some(
        crate::event::RRProfTraceEventType::Call,
    ) {
        crate::state::StackOp::Enter(ts, ev.data)
    } else {
        crate::state::StackOp::Exit(ts, ev.data)
    };
    let st2 = crate::state::spec_state_step(st, ev);
    assert(st2.threads == crate::state::spec_with_thread(st.threads, 0u32, op));
    if st.threads.len() == 0 {
        assert(crate::state::spec_ts_lower_bound(st.threads, 0u32) == 0);
        assert(st2.threads =~= st.threads.insert(
            0,
            (0u32, crate::state::spec_apply_op(crate::state::spec_empty_stack(), op)),
        ));
    } else {
        assert(crate::state::spec_ts_lower_bound(st.threads, 0u32) == 0);
        assert(st2.threads =~= st.threads.update(
            0,
            (0u32, crate::state::spec_apply_op(st.threads[0].1, op)),
        ));
    }
}

/// The front-end state after one balanced call addressed to thread 0.
pub open spec fn spec_run_state_span(
    st: crate::state::StateModel,
    s: ReplaySpan,
) -> crate::state::StateModel
    decreases s, 0nat,
{
    crate::state::spec_state_step(
        spec_run_state_forest(crate::state::spec_state_step(st, s.call_ev), s.inner),
        s.return_ev,
    )
}

/// The front-end state after a balanced run of calls, in order.
pub open spec fn spec_run_state_forest(
    st: crate::state::StateModel,
    f: Seq<ReplaySpan>,
) -> crate::state::StateModel
    decreases f, 1nat, f.len(),
{
    if f.len() == 0 {
        st
    } else {
        spec_run_state_forest(spec_run_state_span(st, f[0]), f.drop_first())
    }
}

/// A balanced run of calls on a front end that has only seen thread 0
/// leaves thread 0's stack exactly as it found it and closes every box it
/// closed or opened, never leaving a box open that was closed before.
pub proof fn lemma_state_forest_balanced(st: crate::state::StateModel, f: Seq<ReplaySpan>)
    requires
        spec_thread0_form(st),
        spec_balanced_wf(spec_thread0(st)),
        spec_replay_spans_wf(f),
        spec_thread0(st).verts.0.len() + 2 * spec_replay_forest_count(f) <= usize::MAX,
    ensures
        ({
            let st2 = spec_run_state_forest(st, f);
            let m = spec_thread0(st);
            let m2 = spec_thread0(st2);
            &&& spec_thread0_form(st2)
            &&& spec_balanced_wf(m2)
            &&& m2.stack == m.stack
            &&& m2.verts.0.len() <= m.verts.0.len() + spec_replay_forest_count(f)
            &&& m2.verts.0.len() >= m.verts.0.len()
            &&& (forall|i: int|
                0 <= i < m.verts.0.len() && !(#[trigger] m.verts.0[i]).spec_is_open()
                    ==> !m2.verts.0[i].spec_is_open())
        }),
    decreases f, 1nat, f.len(),
{
    if f.len() == 0 {
    } else {
        lemma_state_span_balanced(st, f[0]);
        let st1 = spec_run_state_span(st, f[0]);
        assert(spec_replay_spans_wf(f.drop_first()));
        lemma_state_forest_balanced(st1, f.drop_first());
    }
}

/// One balanced call on such a front end pushes one frame on thread 0's
/// stack and pops exactly that frame again.
pub proof fn lemma_state_span_balanced(st: crate::state::StateModel, s: ReplaySpan)
    requires
        spec_thread0_form(st),
        spec_balanced_wf(spec_thread0(st)),
        spec_replay_span_wf(s),
        spec_thread0(st).verts.0.len() + 2 * spec_replay_span_count(s) <= usize::MAX,
    ensures
        ({
            let st2 = spec_run_state_span(st, s);
            let m = spec_thread0(st);
            let m2 = spec_thread0(st2);
            &&& spec_thread0_form(st2)
            &&& spec_balanced_wf(m2)
            &&& m2.stack == m.stack
            &&& m2.verts.0.len() <= m.verts.0.len() + spec_replay_span_count(s)
            &&& m2.verts.0.len() >= m.verts.0.len()
            &&& (forall|i: int|
                0 <= i < m.verts.0.len() && !(#[trigger] m.verts.0[i]).spec_is_open()
                    ==> !m2.verts.0[i].spec_is_open())
        }),
    decreases s, 2nat,
{
    let m = spec_thread0(st);
    let ts_c = crate::event::spec_timestamp(s.call_ev.timestamp_and_event_type);
    crate::event::lemma_timestamp_bound(s.call_ev.timestamp_and_event_type);
    lemma_thread0_step(st, s.call_ev);
    let sta = crate::state::spec_state_step(st, s.call_ev);
    let ma = spec_thread0(sta);
    assert(ma == spec_enter(m, ts_c, s.call_ev.data));
    lemma_enter_balanced(m, ts_c, s.call_ev.data);
    assert(spec_replay_span_count(s) == 1 + spec_replay_forest_count(s.inner));
    lemma_state_forest_balanced(sta, s.inner);
    let stb = spec_run_state_forest(sta, s.inner);
    let mb = spec_thread0(stb);
    assert(mb.stack == ma.stack);
    assert(mb.stack.len() > 0);
    assert(mb.stack.last().method_id == s.call_ev.data);
    let ts_r = crate::event::spec_timestamp(s.return_ev.timestamp_and_event_type);
    crate::event::lemma_timestamp_bound(s.return_ev.timestamp_and_event_type);
    lemma_thread0_step(stb, s.return_ev);
    let st2 = crate::state::spec_state_step(stb, s.return_ev);
    let m2 = spec_thread0(st2);
    assert(m2 == spec_exit(mb, ts_r, s.return_ev.data));
    lemma_exit_matched_balanced(mb, ts_r);
    assert(s.return_ev.data == mb.stack.last().method_id);
    assert(m2.stack =~= m.stack);
    let own = ma.stack.last().vertex_index;
    assert(mb.stack.last().vertex_index == own);
    assert forall|i: int|
        0 <= i < m.verts.0.len() && !(#[trigger] m.verts.0[i]).spec_is_open() implies !m2.verts.0[
    i].spec_is_open() by {
        if i == own {
            assert(!m2.verts.0[own as int].spec_is_open());
        } else {
            assert(ma.verts.0[i] == m.verts.0[i]);
            assert(!mb.verts.0[i].spec_is_open());
        }
    }
}

/// From a fresh front end, a balanced run of calls leaves thread 0's
/// stack empty and every one of its boxes closed: no box carries the
/// `u64::MAX` open sentinel — the front-end form of the balanced
/// round-trip law.
pub proof fn lemma_state_balanced_leaves_nothing_open(
    st: crate::state::StateModel,
    f: Seq<ReplaySpan>,
)
    requires
        st.threads.len() == 0,
        st.last == 0,
        spec_replay_spans_wf(f),
        2 * spec_replay_forest_count(f) <= usize::MAX,
    ensures
        ({
            let m2 = spec_thread0(spec_run_state_forest(st, f));
            &&& m2.stack.len() == 0
            &&& forall|i: int|
                0 <= i < m2.verts.0.len() ==> !(#[trigger] m2.verts.0[i]).spec_is_open()
        }),
{
    assert(spec_thread0(st) == crate::state::spec_empty_stack());
    assert(spec_balanced_wf(crate::state::spec_empty_stack()));
    lemma_state_forest_balanced(st, f);
    let m2 = spec_thread0(spec_run_state_forest(st, f));
    assert forall|i: int| 0 <= i < m2.verts.0.len() implies !(
    #[trigger] m2.verts.0[i]).spec_is_open() by {
        if m2.verts.0[i].spec_is_open() {
            let k = choose|k: int|
                0 <= k < m2.stack.len() && (#[trigger] m2.stack[k]).vertex_index == i;
        }
    }
}

} // verus!
