//! The single-producer/single-consumer event ring.
//!
//! The shared layout is a 65,536-entry event array followed by a writer
//! block (write index and a cache of the read index) and a reader block
//! (read index and a cache of the write index); the indices are
//! monotonically increasing sequence numbers and a slot is `index & MASK`.
//! This module holds the verified ring itself — the consumer algorithm on an
//! in-process ring — with the reader-side cache behaviour of the shared
//! protocol: the writer's index is re-read only when the cache says nothing
//! is available.

use vstd::math::min;
use vstd::prelude::*;

use crate::event::RRProfTraceEvent;

verus! {

/// How many events the ring holds.
pub const SIZE: usize = 65_536;

/// The slot mask: `SIZE` is a power of two.
pub const MASK: usize = SIZE - 1;

/// The ring storage and both index blocks.
pub struct RRProfEventRingBuffer {
    buffer: Vec<RRProfTraceEvent>,
    write_index: u64,
    read_index_cache: u64,
    read_index: u64,
    write_index_cache: u64,
}

impl RRProfEventRingBuffer {
    /// The events currently readable, oldest first: the slots from the read
    /// index up to the write index.
    pub closed spec fn spec_pending(self) -> Seq<RRProfTraceEvent> {
        Seq::new(
            (self.write_index - self.read_index) as nat,
            |k: int| self.buffer@[((self.read_index + k) % (SIZE as int)) as int],
        )
    }

    /// The producer-side sequence number.
    pub closed spec fn spec_write_index(self) -> u64 {
        self.write_index
    }

    /// The consumer-side sequence number.
    pub closed spec fn spec_read_index(self) -> u64 {
        self.read_index
    }

    /// The reader's cache of the producer's index.
    pub closed spec fn spec_write_index_cache(self) -> u64 {
        self.write_index_cache
    }

    /// Well-formedness: the storage spans the whole ring, the read index
    /// never passes the write index, at most `SIZE` events are pending, and
    /// the reader's cache lies between the two indices.
    pub closed spec fn wf(self) -> bool {
        &&& self.buffer@.len() == SIZE
        &&& self.read_index <= self.write_index
        &&& self.write_index - self.read_index <= SIZE
        &&& self.read_index <= self.write_index_cache <= self.write_index
        &&& self.read_index_cache <= self.read_index
    }

    /// An empty ring: both indices at zero.
    pub fn new() -> (r: RRProfEventRingBuffer)
        ensures
            r.wf(),
            r.spec_pending() == Seq::<RRProfTraceEvent>::empty(),
            r.spec_read_index() == 0,
            r.spec_write_index() == 0,
    {
        let mut buffer: Vec<RRProfTraceEvent> = Vec::new();
        let mut i: usize = 0;
        while i < SIZE
            invariant
                i <= SIZE,
                buffer@.len() == i,
            decreases SIZE - i,
        {
            buffer.push(RRProfTraceEvent { timestamp_and_event_type: 0, data: 0 });
            i = i + 1;
        }
        let r = RRProfEventRingBuffer {
            buffer,
            write_index: 0,
            read_index_cache: 0,
            read_index: 0,
            write_index_cache: 0,
        };
        proof {
            assert(r.spec_pending() =~= Seq::<RRProfTraceEvent>::empty());
        }
        r
    }

    /// The producer side: appends one event if the ring is not full, and
    /// reports whether it was appended.
    pub fn write(&mut self, ev: RRProfTraceEvent) -> (ok: bool)
        requires
            old(self).wf(),
            old(self).spec_write_index() < u64::MAX,
        ensures
            final(self).wf(),
            ok == (old(self).spec_write_index() - old(self).spec_read_index() < SIZE),
            ok ==> final(self).spec_pending() == old(self).spec_pending().push(ev)
                && final(self).spec_write_index() == old(self).spec_write_index() + 1,
            !ok ==> final(self).spec_pending() == old(self).spec_pending() && final(self).spec_write_index() == old(self).spec_write_index(),
            final(self).spec_read_index() == old(self).spec_read_index(),
            final(self).spec_write_index_cache() == old(self).spec_write_index_cache(),
    {
        let used = self.write_index - self.read_index_cache;
        let used = if used >= SIZE as u64 {
            self.read_index_cache = self.read_index;
            self.write_index - self.read_index_cache
        } else {
            used
        };
        if used >= SIZE as u64 {
            return false;
        }
        let slot64 = self.write_index & (MASK as u64);
        proof {
            let w = self.write_index;
            assert(w & 0xffff < 0x10000u64) by (bit_vector);
            assert(w & 0xffff == w % 0x10000) by (bit_vector);
        }
        let slot = slot64 as usize;
        self.buffer[slot] = ev;
        self.write_index = self.write_index + 1;
        proof {
            let old_pending = old(self).spec_pending();
            let r = old(self).read_index;
            let w = old(self).write_index;
            assert(w - r < SIZE);
            assert forall|k: int|
                0 <= k < old_pending.len() implies #[trigger] self.spec_pending()[k]
                == old_pending[k] by {
                let ku = k as u64;
                assert((r + ku) % 0x10000 != w % 0x10000) by (bit_vector)
                    requires
                        r <= w,
                        w - r < 0x10000u64,
                        ku < w - r,
                ;
                assert((r + k) % (SIZE as int) != (w as int) % (SIZE as int));
            }
            assert(self.spec_pending()[old_pending.len() as int] == ev) by {
                assert((r + old_pending.len()) % (SIZE as int) == (w as int) % (SIZE as int));
                assert(w & 0xffff == w % 0x10000) by (bit_vector);
            }
            assert(self.spec_pending() =~= old_pending.push(ev));
        }
        true
    }

    /// The consumer algorithm: copies up to `out.len()` pending events into
    /// the front of `out`, advancing the read index past them.  The cached
    /// write index is refreshed only when it shows nothing available, so a
    /// producer that went idle is noticed at most one call late.  Never
    /// blocks; returns 0 when nothing is available.
    pub fn read(&mut self, out: &mut Vec<RRProfTraceEvent>) -> (n: usize)
        requires
            old(self).wf(),
        ensures
            final(self).wf(),
            n <= old(out)@.len(),
            n <= old(self).spec_pending().len(),
            final(out)@.len() == old(out)@.len(),
            // what was copied is exactly the oldest pending prefix
            final(out)@.take(n as int) == old(self).spec_pending().take(n as int),
            forall|k: int| n <= k < old(out)@.len() ==> final(out)@[k] == old(out)@[k],
            // the read index advances past exactly the copied events
            final(self).spec_read_index() == old(self).spec_read_index() + n,
            final(self).spec_pending() == old(self).spec_pending().skip(n as int),
            final(self).spec_write_index() == old(self).spec_write_index(),
            // the cache is refreshed only when it showed nothing available
            old(self).spec_write_index_cache() - old(self).spec_read_index() > 0 ==> n == min(
                (old(self).spec_write_index_cache() - old(self).spec_read_index()) as int,
                old(out)@.len() as int,
            ),
            old(self).spec_write_index_cache() - old(self).spec_read_index() == 0 ==> n == min(
                old(self).spec_pending().len() as int,
                old(out)@.len() as int,
            ) && final(self).spec_write_index_cache() == old(self).spec_write_index(),
    {
        let read_index = self.read_index;
        let available = self.write_index_cache - read_index;
        let available = if available == 0 {
            self.write_index_cache = self.write_index;
            self.write_index_cache - read_index
        } else {
            available
        };
        let read_len = if (available as usize) < out.len() {
            available as usize
        } else {
            out.len()
        };
        proof {
            assert(available <= SIZE);
        }
        let ghost pending = self.spec_pending();
        let mut k: usize = 0;
        while k < read_len
            invariant
                k <= read_len,
                read_len <= out@.len(),
                read_len <= available,
                available <= self.write_index - self.read_index,
                read_index == self.read_index,
                self.wf(),
                *self == *old(self) || (*self == (RRProfEventRingBuffer {
                    write_index_cache: self.write_index_cache,
                    ..*old(self)
                }) && self.write_index_cache == self.write_index),
                pending == self.spec_pending(),
                out@.len() == old(out)@.len(),
                forall|j: int| 0 <= j < k ==> out@[j] == pending[j],
                forall|j: int| k <= j < out@.len() ==> out@[j] == old(out)@[j],
            decreases read_len - k,
        {
            let slot64 = (read_index + (k as u64)) & (MASK as u64);
            proof {
                let x = (read_index + (k as u64)) as u64;
                assert(x & 0xffff < 0x10000u64) by (bit_vector);
                assert(x & 0xffff == x % 0x10000) by (bit_vector);
                assert(pending[k as int] == self.buffer@[((self.read_index + k) % (
                SIZE as int)) as int]);
            }
            let slot = slot64 as usize;
            let ev = self.buffer[slot];
            out[k] = ev;
            k = k + 1;
        }
        self.read_index = read_index + read_len as u64;
        proof {
            assert(final(out)@.take(read_len as int) =~= pending.take(read_len as int));
            assert(self.spec_pending() =~= pending.skip(read_len as int));
        }
        read_len
    }
}

/// The consumer's handle on a ring.
pub struct EventRingBuffer {
    ringbuffer: RRProfEventRingBuffer,
}

impl EventRingBuffer {
    /// The ring behind the handle.
    pub closed spec fn spec_ring(self) -> RRProfEventRingBuffer {
        self.ringbuffer
    }

    /// Wraps a ring.
    pub fn new(ringbuffer: RRProfEventRingBuffer) -> (r: EventRingBuffer)
        ensures
            r.spec_ring() == ringbuffer,
    {
        EventRingBuffer { ringbuffer }
    }

    /// Reads pending events into the front of `buffer`; see
    /// `RRProfEventRingBuffer::read`.
    pub fn read(&mut self, buffer: &mut Vec<RRProfTraceEvent>) -> (n: usize)
        requires
            old(self).spec_ring().wf(),
        ensures
            final(self).spec_ring().wf(),
            n <= old(buffer)@.len(),
            n <= old(self).spec_ring().spec_pending().len(),
            final(buffer)@.len() == old(buffer)@.len(),
            final(buffer)@.take(n as int) == old(self).spec_ring().spec_pending().take(n as int),
            forall|k: int|
                n <= k < old(buffer)@.len() ==> final(buffer)@[k] == old(buffer)@[k],
            final(self).spec_ring().spec_pending() == old(self).spec_ring().spec_pending().skip(
                n as int,
            ),
            final(self).spec_ring().spec_read_index() == old(self).spec_ring().spec_read_index()
                + n,
            final(self).spec_ring().spec_write_index() == old(self).spec_ring().spec_write_index(),
            old(self).spec_ring().spec_write_index_cache() - old(self).spec_ring().spec_read_index()
                > 0 ==> n == min(
                (old(self).spec_ring().spec_write_index_cache() - old(
                    self,
                ).spec_ring().spec_read_index()) as int,
                old(buffer)@.len() as int,
            ),
            old(self).spec_ring().spec_write_index_cache() - old(self).spec_ring().spec_read_index()
                == 0 ==> n == min(
                old(self).spec_ring().spec_pending().len() as int,
                old(buffer)@.len() as int,
            ) && final(self).spec_ring().spec_write_index_cache() == old(
                self,
            ).spec_ring().spec_write_index(),
    {
        self.ringbuffer.read(buffer)
    }

    /// The producer side, for exercising the ring in one process.
    pub fn write(&mut self, ev: RRProfTraceEvent) -> (ok: bool)
        requires
            old(self).spec_ring().wf(),
            old(self).spec_ring().spec_write_index() < u64::MAX,
        ensures
            final(self).spec_ring().wf(),
            ok == (old(self).spec_ring().spec_write_index() - old(self).spec_ring().spec_read_index() < SIZE),
            ok ==> final(self).spec_ring().spec_pending() == old(self).spec_ring().spec_pending().push(ev),
    {
        self.ringbuffer.write(ev)
    }
}

/// No pending data ever exceeds the ring's capacity, and the read index
/// never passes the write index.
pub proof fn lemma_ring_bounds(r: RRProfEventRingBuffer)
    requires
        r.wf(),
    ensures
        r.spec_read_index() <= r.spec_write_index(),
        r.spec_write_index() - r.spec_read_index() <= SIZE,
        r.spec_pending().len() <= SIZE,
{
}

} // verus!
