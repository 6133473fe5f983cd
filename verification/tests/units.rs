//! Unit tests for the leaves: the time codec, the event ring, the depth
//! multiset, the reconstruction passes, and the upload planning.

use rrprof::event::{decode_time, encode_time, RRProfTraceEvent, RRProfTraceEventType};
use rrprof::ring::{EventRingBuffer, RRProfEventRingBuffer, SIZE};
use rrprof::state::MultiSet;
use rrprof::sync_vec::GpuSyncVec;
use rrprof::trace::{CallBox, FastTrace, SlowTrace};

fn ev(code: u64, t: u64, data: u64) -> RRProfTraceEvent {
    RRProfTraceEvent::pack(code, t, data)
}

#[test]
fn time_codec_exact_values() {
    assert_eq!(encode_time(100), [100, 0]);
    assert_eq!(encode_time((1 << 31) + 5), [5, 1]);
    assert_eq!(encode_time(u64::MAX), [0x7fff_ffff, 0xffff_ffff]);
    assert_eq!(decode_time(5, 1), (1 << 31) + 5);
}

#[test]
fn time_codec_round_trips_below_two_to_the_63() {
    for t in [0u64, 1, 100, 0x7fff_ffff, 0x8000_0000, 0x1234_5678_9abc, (1 << 63) - 1] {
        let e = encode_time(t);
        assert_eq!(decode_time(e[0], e[1]), t);
    }
}

#[test]
fn event_words_pack_and_decode() {
    let e = ev(7, 123_456, 42);
    assert_eq!(e.timestamp(), 123_456);
    assert_eq!(e.data(), 42);
    assert_eq!(e.event_type(), Some(RRProfTraceEventType::ThreadResume));
    assert_eq!(ev(0, 1, 2).event_type(), Some(RRProfTraceEventType::Call));
    assert_eq!(ev(8, 1, 2).event_type(), Some(RRProfTraceEventType::ThreadExit));
    assert_eq!(ev(9, 1, 2).event_type(), None);
    assert_eq!(ev(15, 1, 2).event_type(), None);
}

#[test]
fn ring_reads_what_was_written_in_order() {
    let mut ring = EventRingBuffer::new(RRProfEventRingBuffer::new());
    assert!(ring.write(ev(0, 10, 1)));
    assert!(ring.write(ev(1, 20, 1)));
    assert!(ring.write(ev(0, 30, 2)));
    let mut out = vec![RRProfTraceEvent::default(); 2];
    let n = ring.read(&mut out);
    assert_eq!(n, 2);
    assert_eq!(out[0].timestamp(), 10);
    assert_eq!(out[1].timestamp(), 20);
    let n = ring.read(&mut out);
    assert_eq!(n, 1);
    assert_eq!(out[0].timestamp(), 30);
}

#[test]
fn ring_read_is_idempotent_when_idle() {
    let mut ring = EventRingBuffer::new(RRProfEventRingBuffer::new());
    for i in 0..5u64 {
        assert!(ring.write(ev(0, i, 0)));
    }
    let mut out = vec![RRProfTraceEvent::default(); 16];
    assert_eq!(ring.read(&mut out), 5);
    // with the producer idle, a second read returns 0, and so does a third
    assert_eq!(ring.read(&mut out), 0);
    assert_eq!(ring.read(&mut out), 0);
}

#[test]
fn ring_never_holds_more_than_its_capacity() {
    let mut ring = EventRingBuffer::new(RRProfEventRingBuffer::new());
    for i in 0..SIZE as u64 {
        assert!(ring.write(ev(0, i, 0)));
    }
    // the ring is full: the next write is refused
    assert!(!ring.write(ev(0, 99, 0)));
    let mut out = vec![RRProfTraceEvent::default(); 3];
    assert_eq!(ring.read(&mut out), 3);
    assert_eq!(out[0].timestamp(), 0);
    // consuming makes room again
    assert!(ring.write(ev(0, 77, 0)));
}

#[test]
fn multiset_max_tracks_duplicates() {
    let mut ms = MultiSet::new();
    assert_eq!(ms.max(), None);
    ms.insert(5);
    ms.insert(3);
    ms.insert(5);
    assert_eq!(ms.max(), Some(5));
    ms.remove(5);
    assert_eq!(ms.max(), Some(5));
    ms.remove(5);
    assert_eq!(ms.max(), Some(3));
    ms.remove(7);
    assert_eq!(ms.max(), Some(3));
    ms.remove(3);
    assert_eq!(ms.max(), None);
}

#[test]
fn fast_trace_mirrors_the_stream() {
    let mut fast = FastTrace::new();
    assert_eq!(fast.thread_count(), 1);
    fast.process_events(&[ev(0, 10, 1), ev(0, 20, 2), ev(1, 30, 2)]);
    assert_eq!(fast.thread_count(), 1);
    assert_eq!(fast.stack_len_of(0), 1);
    assert!(!fast.gc_flag());
    // a resume inserts thread 9 after thread 0 and selects it
    fast.process_events(&[ev(7, 40, 9), ev(0, 50, 3)]);
    assert_eq!(fast.thread_count(), 2);
    assert_eq!(fast.current_index(), 1);
    assert_eq!(fast.stack_len_of(1), 1);
    // a mismatched return unwinds the whole stack
    fast.process_events(&[ev(1, 60, 999)]);
    assert_eq!(fast.stack_len_of(1), 0);
    // the flag reports a batch ending inside a collection pause
    fast.process_events(&[ev(2, 70, 0)]);
    assert!(fast.gc_flag());
    // a thread exit removes the entry
    fast.process_events(&[ev(8, 80, 9)]);
    assert_eq!(fast.thread_count(), 1);
}

#[test]
fn slow_trace_draws_one_box_per_span() {
    let fast = FastTrace::new();
    let result = SlowTrace::trace(50, fast, &[ev(0, 100, 7), ev(1, 200, 7)]);
    assert_eq!(result.end_time(), 200);
    assert_eq!(result.thread_count(), 1);
    let th = result.thread_at(0);
    assert_eq!(th.thread_id, 0);
    assert_eq!(th.stack.len(), 0);
    assert_eq!(th.boxes.len(), 1);
    assert_eq!((th.boxes[0].start(), th.boxes[0].end()), (100, 200));
    assert_eq!(th.boxes[0].method_id, 7);
}

#[test]
fn slow_trace_splits_a_call_around_a_pause() {
    let fast = FastTrace::new();
    let result = SlowTrace::trace(
        50,
        fast,
        &[ev(0, 100, 1), ev(2, 150, 0), ev(3, 180, 0), ev(1, 200, 1)],
    );
    let th = result.thread_at(0);
    assert_eq!(th.boxes.len(), 2);
    let a = th.boxes[0];
    let b = th.boxes[1];
    // one logical call, two adjacent boxes of the same method around the pause
    assert_eq!(a.method_id, b.method_id);
    assert_eq!((a.start(), a.end()), (100, 150));
    assert_eq!((b.start(), b.end()), (180, 200));
}

#[test]
fn slow_trace_draws_already_open_frames_from_the_snapshot() {
    let mut fast = FastTrace::new();
    fast.process_events(&[ev(0, 10, 4)]);
    let result = SlowTrace::trace(30, fast, &[ev(1, 90, 4)]);
    let th = result.thread_at(0);
    // the frame open at the span's start is drawn from the start time
    assert_eq!(th.boxes.len(), 1);
    assert_eq!((th.boxes[0].start(), th.boxes[0].end()), (30, 90));
    assert_eq!(th.boxes[0].method_id, 4);
}

#[test]
fn dirty_range_uploads_only_what_changed() {
    let mut v = GpuSyncVec::new(1 << 20);
    for i in 0..6u64 {
        v.push(CallBox::new(i, i + 1, 1, 0));
    }
    let plan = v.sync();
    assert_eq!(plan.len(), 1);
    assert_eq!((plan[0].buffer, plan[0].offset), (0, 0));
    assert_eq!((plan[0].first, plan[0].last), (0, 6));
    // nothing dirty: nothing uploaded
    assert_eq!(v.sync().len(), 0);
    // touching one element uploads exactly that element
    assert!(v.set(5, CallBox::new(7, 8, 2, 0)));
    let plan = v.sync();
    assert_eq!(plan.len(), 1);
    assert_eq!((plan[0].buffer, plan[0].offset), (0, 5 * 24));
    assert_eq!((plan[0].first, plan[0].last), (5, 6));
}

#[test]
fn buffer_chain_grows_past_the_device_limit() {
    // a tiny device limit: two elements per buffer
    let mut v = GpuSyncVec::new(48);
    for i in 0..3u64 {
        v.push(CallBox::new(i, i + 1, 1, 0));
    }
    let plan = v.sync();
    // two buffers now: a full first buffer and a partial second
    assert_eq!(v.fill_counts(), vec![2, 1]);
    assert_eq!(plan.len(), 2);
    assert_eq!((plan[0].buffer, plan[0].offset, plan[0].first, plan[0].last), (0, 0, 0, 2));
    assert_eq!((plan[1].buffer, plan[1].offset, plan[1].first, plan[1].last), (1, 0, 2, 3));
    // a later small change touches only the buffer that holds it
    assert!(v.set(2, CallBox::new(9, 10, 1, 0)));
    let plan = v.sync();
    assert_eq!(plan.len(), 1);
    assert_eq!((plan[0].buffer, plan[0].offset, plan[0].first, plan[0].last), (1, 0, 2, 3));
}

#[test]
fn single_buffer_growth_reuploads_everything() {
    // the initial buffer holds 256 elements; the 257th outgrows it
    let mut v = GpuSyncVec::new(1 << 20);
    for i in 0..256u64 {
        v.push(CallBox::new(i, i + 1, 1, 0));
    }
    let plan = v.sync();
    assert_eq!((plan[0].first, plan[0].last), (0, 256));
    v.push(CallBox::new(999, 1000, 1, 0));
    // only one element is dirty, but the regrown buffer is re-uploaded whole
    let plan = v.sync();
    assert_eq!(plan.len(), 1);
    assert_eq!((plan[0].first, plan[0].last), (0, 257));
    assert_eq!(v.fill_counts(), vec![257]);
}

#[test]
fn truncate_clamps_the_dirty_range() {
    let mut v = GpuSyncVec::new(1 << 20);
    for i in 0..4u64 {
        v.push(CallBox::new(i, i + 1, 1, 0));
    }
    v.truncate(2);
    assert_eq!(v.len(), 2);
    let plan = v.sync();
    assert_eq!(plan.len(), 1);
    assert_eq!((plan[0].first, plan[0].last), (0, 2));
}

#[test]
fn ring_copies_correctly_across_the_wrap() {
    let mut ring = EventRingBuffer::new(RRProfEventRingBuffer::new());
    let mut next_write: u64 = 0;
    let mut next_read: u64 = 0;
    // fill most of the ring, drain most of it, then wrap
    for _ in 0..SIZE - 10 {
        assert!(ring.write(ev(0, next_write & 0xff_ffff, next_write)));
        next_write += 1;
    }
    let mut out = vec![RRProfTraceEvent::default(); SIZE];
    let n = ring.read(&mut out);
    assert_eq!(n, SIZE - 10);
    for e in out[..n].iter() {
        assert_eq!(e.data(), next_read);
        next_read += 1;
    }
    // these writes wrap around the end of the storage
    for _ in 0..100 {
        assert!(ring.write(ev(0, next_write & 0xff_ffff, next_write)));
        next_write += 1;
    }
    let n = ring.read(&mut out);
    assert_eq!(n, 100);
    for e in out[..n].iter() {
        assert_eq!(e.data(), next_read);
        next_read += 1;
    }
}

#[test]
fn slow_trace_reopens_the_call_after_suspend_and_resume() {
    let fast = FastTrace::new();
    let result = SlowTrace::trace(
        50,
        fast,
        &[ev(7, 100, 5), ev(0, 110, 9), ev(6, 120, 5), ev(7, 130, 5), ev(1, 140, 9)],
    );
    assert_eq!(result.thread_count(), 2);
    let th = result.thread_at(1);
    assert_eq!(th.thread_id, 5);
    assert_eq!(th.stack.len(), 0);
    assert_eq!(th.boxes.len(), 2);
    let before = th.boxes[0];
    let after = th.boxes[1];
    assert_eq!((before.start(), before.end(), before.method_id, before.depth), (110, 120, 9, 0));
    assert_eq!((after.start(), after.end(), after.method_id, after.depth), (130, 140, 9, 0));
}

#[test]
fn single_buffer_growth_respects_a_non_power_of_two_limit() {
    // limit 10000: 350 elements need 8400 bytes, whose next power of two
    // exceeds the limit, so the sole buffer is capped at 10000 (416 elements)
    let mut v = GpuSyncVec::new(10_000);
    for i in 0..350u64 {
        v.push(CallBox::new(i, i + 1, 1, 0));
    }
    v.sync();
    assert_eq!(v.fill_counts(), vec![350]);
    // the capped buffer still holds up to 416 elements before chaining
    for i in 350..417u64 {
        v.push(CallBox::new(i, i + 1, 1, 0));
    }
    v.sync();
    assert_eq!(v.fill_counts(), vec![416, 1]);
}
