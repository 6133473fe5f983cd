//! Wire-level trace events and the split timestamp encoding.
//!
//! An event is two little-endian 64-bit words.  The upper 4 bits of the first
//! word carry the event kind, the lower 60 bits a monotonic nanosecond
//! timestamp.  The second word is a payload whose meaning depends on the kind
//! (a method id for calls and returns, a thread id for the thread events).

use vstd::prelude::*;

verus! {

/// Mask selecting the 60-bit timestamp out of the first event word.
pub const TIMESTAMP_MASK: u64 = 0x0fff_ffff_ffff_ffff;

/// One fixed-size record of the shared-memory trace stream.
#[derive(Copy, Clone)]
pub struct RRProfTraceEvent {
    pub timestamp_and_event_type: u64,
    pub data: u64,
}

impl Default for RRProfTraceEvent {
    /// The all-zero event: a `Call` of method 0 at time 0.
    fn default() -> (r: RRProfTraceEvent)
        ensures
            r.timestamp_and_event_type == 0,
            r.data == 0,
    {
        RRProfTraceEvent { timestamp_and_event_type: 0, data: 0 }
    }
}

/// The nine event kinds of the wire protocol, in code order 0 through 8.
#[derive(Copy, Clone, PartialEq, Eq, Structural, Debug)]
pub enum RRProfTraceEventType {
    Call,
    Return,
    GCStart,
    GCEnd,
    ThreadStart,
    ThreadReady,
    ThreadSuspended,
    ThreadResume,
    ThreadExit,
}

/// The timestamp carried by a first event word: its low 60 bits.
pub open spec fn spec_timestamp(word: u64) -> u64 {
    word & TIMESTAMP_MASK
}

/// The kind code carried by a first event word: its high 4 bits.
pub open spec fn spec_event_code(word: u64) -> u64 {
    word >> 60
}

/// The event kind of a first event word; `None` for the codes 9 through 15,
/// which the protocol reserves and the consumer ignores.
pub open spec fn spec_event_type(word: u64) -> Option<RRProfTraceEventType> {
    let code = spec_event_code(word);
    if code == 0 {
        Some(RRProfTraceEventType::Call)
    } else if code == 1 {
        Some(RRProfTraceEventType::Return)
    } else if code == 2 {
        Some(RRProfTraceEventType::GCStart)
    } else if code == 3 {
        Some(RRProfTraceEventType::GCEnd)
    } else if code == 4 {
        Some(RRProfTraceEventType::ThreadStart)
    } else if code == 5 {
        Some(RRProfTraceEventType::ThreadReady)
    } else if code == 6 {
        Some(RRProfTraceEventType::ThreadSuspended)
    } else if code == 7 {
        Some(RRProfTraceEventType::ThreadResume)
    } else if code == 8 {
        Some(RRProfTraceEventType::ThreadExit)
    } else {
        None
    }
}

impl RRProfTraceEvent {
    /// Builds the first event word from a kind code and a timestamp.
    pub fn pack(code: u64, timestamp: u64, data: u64) -> (r: RRProfTraceEvent)
        requires
            code <= 15,
            timestamp <= TIMESTAMP_MASK,
        ensures
            spec_event_code(r.timestamp_and_event_type) == code,
            spec_timestamp(r.timestamp_and_event_type) == timestamp,
            r.data == data,
    {
        let word = (code << 60) | timestamp;
        proof {
            assert(((code << 60u64) | timestamp) >> 60u64 == code) by (bit_vector)
                requires
                    code <= 15,
                    timestamp <= 0x0fff_ffff_ffff_ffffu64,
            ;
            assert(((code << 60u64) | timestamp) & 0x0fff_ffff_ffff_ffff == timestamp)
                by (bit_vector)
                requires
                    code <= 15,
                    timestamp <= 0x0fff_ffff_ffff_ffffu64,
            ;
        }
        RRProfTraceEvent { timestamp_and_event_type: word, data }
    }

    /// The monotonic nanosecond timestamp of this event.
    pub fn timestamp(&self) -> (t: u64)
        ensures
            t == spec_timestamp(self.timestamp_and_event_type),
    {
        self.timestamp_and_event_type & TIMESTAMP_MASK
    }

    /// The payload word: a method id for `Call`/`Return`, a thread id for the
    /// thread events.
    pub fn data(&self) -> (d: u64)
        ensures
            d == self.data,
    {
        self.data
    }

    /// Decodes the kind of this event; `None` for a reserved code.
    pub fn event_type(&self) -> (k: Option<RRProfTraceEventType>)
        ensures
            k == spec_event_type(self.timestamp_and_event_type),
    {
        let code = self.timestamp_and_event_type >> 60;
        if code == 0 {
            Some(RRProfTraceEventType::Call)
        } else if code == 1 {
            Some(RRProfTraceEventType::Return)
        } else if code == 2 {
            Some(RRProfTraceEventType::GCStart)
        } else if code == 3 {
            Some(RRProfTraceEventType::GCEnd)
        } else if code == 4 {
            Some(RRProfTraceEventType::ThreadStart)
        } else if code == 5 {
            Some(RRProfTraceEventType::ThreadReady)
        } else if code == 6 {
            Some(RRProfTraceEventType::ThreadSuspended)
        } else if code == 7 {
            Some(RRProfTraceEventType::ThreadResume)
        } else if code == 8 {
            Some(RRProfTraceEventType::ThreadExit)
        } else {
            None
        }
    }
}

/// Low word of the split encoding: the 31 low bits of a timestamp, kept small
/// enough that shader arithmetic on it stays exact.
pub open spec fn spec_time_lo(time: u64) -> u32 {
    (time & 0x7fff_ffff) as u32
}

/// High word of the split encoding: bits 31 through 62 of a timestamp.
pub open spec fn spec_time_hi(time: u64) -> u32 {
    ((time >> 31) & 0xffff_ffff) as u32
}

/// What a `[lo, hi]` pair denotes: `(hi << 31) | lo`.
pub open spec fn spec_decode_time(lo: u32, hi: u32) -> u64 {
    ((hi as u64) << 31) | (lo as u64)
}

/// Splits a timestamp into the `[lo31, hi32]` pair stored in a `CallBox`.
pub fn encode_time(time: u64) -> (r: [u32; 2])
    ensures
        r@ == seq![spec_time_lo(time), spec_time_hi(time)],
{
    let r = [(time & 0x7fff_ffff) as u32, ((time >> 31) & 0xffff_ffff) as u32];
    proof {
        assert(r@ =~= seq![spec_time_lo(time), spec_time_hi(time)]);
    }
    r
}

/// Rebuilds a timestamp from its split encoding, as the shader does.
pub fn decode_time(lo: u32, hi: u32) -> (t: u64)
    ensures
        t == spec_decode_time(lo, hi),
{
    ((hi as u64) << 31) | (lo as u64)
}

/// The split encoding is lossless below `2^63`: decoding the `[lo, hi]` pair
/// of any such timestamp gives the timestamp back.
pub proof fn lemma_time_codec_lossless(time: u64)
    requires
        time < 0x8000_0000_0000_0000,
    ensures
        spec_decode_time(spec_time_lo(time), spec_time_hi(time)) == time,
{
    let lo = time & 0x7fff_ffff;
    let hi = (time >> 31) & 0xffff_ffff;
    assert(time & 0x7fff_ffff <= 0x7fff_ffff && (time >> 31) & 0xffff_ffff <= 0xffff_ffff)
        by (bit_vector);
    assert(spec_time_lo(time) == lo as u32);
    assert(spec_time_hi(time) == hi as u32);
    assert((lo as u32) as u64 == lo && (hi as u32) as u64 == hi);
    assert(time < 0x8000_0000_0000_0000 ==> (((time >> 31) & 0xffff_ffff) << 31) | (time
        & 0x7fff_ffff) == time) by (bit_vector);
}


/// A decoded timestamp always fits the 60-bit protocol range.
pub proof fn lemma_timestamp_bound(word: u64)
    ensures
        spec_timestamp(word) <= TIMESTAMP_MASK,
{
    assert(word & 0x0fff_ffff_ffff_ffff <= 0x0fff_ffff_ffff_ffff) by (bit_vector);
}

} // verus!
