//! A growable call-box store whose dirty region is mirrored into a chain of
//! GPU buffers.
//!
//! The store tracks one dirty interval `[dirty_start, dirty_end)` (with the
//! empty sentinel `usize::MAX..0`), and a model of the GPU side: the byte
//! size of every buffer in the chain.  `sync` reconciles the chain with the
//! host length — growing a single buffer by powers of two until the device
//! limit, then switching to a chain of maximal buffers — and returns the
//! exact list of uploads the dirty region requires.

use vstd::prelude::*;

use crate::trace::CallBox;

verus! {

/// The size of one stored element, in bytes: six 32-bit words.
pub const ELEM_BYTES: u64 = 24;

/// How many elements one maximal buffer holds.
pub open spec fn spec_per_buf(max: u64) -> int {
    max as int / 24
}

/// The byte size of a maximal buffer: a whole number of elements.
pub open spec fn spec_single_max(max: u64) -> int {
    spec_per_buf(max) * 24
}

/// Division rounding up.
pub open spec fn spec_ceil_div(a: int, b: int) -> int {
    a / b + if a % b != 0 {
        1int
    } else {
        0int
    }
}

/// The growth target for a single buffer: doubling from one byte until `x`
/// is covered, which is the smallest power of two at or above `x`.
pub open spec fn spec_grow_target(x: int, acc: int) -> int
    decreases x - acc,
{
    if acc >= x || acc < 1 {
        acc
    } else if 2 * acc >= x {
        2 * acc
    } else {
        spec_grow_target(x, 2 * acc)
    }
}

/// One upload `sync` issues: the elements `first..last` of the host data,
/// written to buffer `buffer` at byte offset `offset`.
#[derive(Copy, Clone, PartialEq, Eq, Structural, Debug)]
pub struct UploadCmd {
    pub buffer: usize,
    pub offset: u64,
    pub first: usize,
    pub last: usize,
}

/// The buffer chain after reconciling it with a host length of `len`
/// elements under the device limit `max`: a sole buffer grows to the next
/// power of two, capped at the limit.
pub open spec fn spec_reconciled_sizes(sizes: Seq<u64>, len: int, max: u64) -> Seq<u64> {
    let required = len * 24;
    let single_max = spec_single_max(max);
    if sizes.len() == 1 {
        if required > sizes[0] {
            if required <= max {
                let target = spec_grow_target(required, 1);
                seq![
                    (if target > max {
                        max as int
                    } else {
                        target
                    }) as u64,
                ]
            } else {
                let count = spec_ceil_div(required, single_max);
                if sizes[0] < single_max {
                    Seq::new(count as nat, |i: int| single_max as u64)
                } else {
                    seq![sizes[0]] + Seq::new((count - 1) as nat, |i: int| single_max as u64)
                }
            }
        } else {
            sizes
        }
    } else {
        let count = spec_ceil_div(len, spec_per_buf(max));
        if count > sizes.len() {
            sizes + Seq::new((count - sizes.len()) as nat, |i: int| single_max as u64)
        } else {
            sizes
        }
    }
}

/// Whether reconciliation rebuilds the chain, which marks the whole host
/// range dirty: a sole buffer that the host data outgrew.
pub open spec fn spec_marks_all(sizes: Seq<u64>, len: int) -> bool {
    sizes.len() == 1 && len * 24 > sizes[0]
}

/// An upload command out of spec-level quantities.
pub open spec fn spec_cmd(buffer: int, offset: int, first: int, last: int) -> UploadCmd {
    UploadCmd {
        buffer: buffer as usize,
        offset: offset as u64,
        first: first as usize,
        last: last as usize,
    }
}

/// The uploads that mirror the dirty elements `s..e` into a chain of `nbuf`
/// buffers of `per` elements each: one write into a sole buffer, or a
/// partial first write, full intermediate writes, and a partial last write.
pub open spec fn spec_upload_plan(nbuf: int, per: int, s: int, e: int) -> Seq<UploadCmd> {
    if nbuf == 1 {
        seq![spec_cmd(0, s * 24, s, e)]
    } else {
        let sb = s / per;
        let lb = (e - 1) / per;
        Seq::new(
            (lb - sb + 1) as nat,
            |k: int|
                if k == 0 {
                    spec_cmd(
                        sb,
                        (s % per) * 24,
                        s,
                        if sb == lb {
                            e
                        } else {
                            (sb + 1) * per
                        },
                    )
                } else if k == lb - sb {
                    spec_cmd(lb, 0, lb * per, e)
                } else {
                    spec_cmd(sb + k, 0, (sb + k) * per, (sb + k + 1) * per)
                },
        )
    }
}

/// How many elements of the host data each buffer of the chain holds: all
/// of them for a sole buffer, else full buffers and a partial tail.
pub open spec fn spec_fill_counts(nbuf: int, per: int, len: int) -> Seq<usize> {
    if nbuf == 1 {
        seq![len as usize]
    } else {
        let full = len / per;
        let tail = len % per;
        Seq::new(full as nat, |i: int| per as usize) + if tail > 0 {
            seq![tail as usize]
        } else {
            Seq::empty()
        }
    }
}

/// A typed, growable container with a mirrored GPU representation.  The
/// mirror is optional: a store created without a device keeps the same
/// size model and upload plans, which is how the reconciliation logic is
/// exercised off the GPU.
#[derive(Debug)]
pub struct GpuSyncVec {
    data: Vec<CallBox>,
    dirty_start: usize,
    dirty_end: usize,
    buffer_sizes: Vec<u64>,
    max_buffer_size: u64,
    gpu: Option<crate::gpu::GpuLink>,
}

impl GpuSyncVec {
    /// The stored elements.
    pub closed spec fn spec_data(self) -> Seq<CallBox> {
        self.data@
    }

    /// The data together with the dirty interval, as one model value.
    pub open spec fn spec_model(self) -> (Seq<CallBox>, usize, usize) {
        (self.spec_data(), self.spec_dirty().0, self.spec_dirty().1)
    }

    /// The dirty interval, `(usize::MAX, 0)` when empty.
    pub closed spec fn spec_dirty(self) -> (usize, usize) {
        (self.dirty_start, self.dirty_end)
    }

    /// Whether no element awaits upload.
    pub open spec fn spec_dirty_empty(self) -> bool {
        self.spec_dirty().0 >= self.spec_dirty().1
    }

    /// The byte size of every buffer in the GPU chain.
    pub closed spec fn spec_sizes(self) -> Seq<u64> {
        self.buffer_sizes@
    }

    /// The device limit on one buffer's byte size, as clamped at creation.
    pub closed spec fn spec_max(self) -> u64 {
        self.max_buffer_size
    }

    /// Whether the store is mirrored on a device.
    pub closed spec fn spec_gpu_backed(self) -> bool {
        self.gpu is Some
    }

    /// How many GPU buffers the mirror has created so far.
    pub closed spec fn spec_gpu_buffer_count(self) -> nat {
        match self.gpu {
            Some(link) => link.spec_recorded().len(),
            None => 0,
        }
    }

    /// Well-formedness: the clamped limit holds a whole element, the chain
    /// is never empty, the dirty end stays within the data, and a chain of
    /// several buffers holds maximal buffers only.
    pub closed spec fn wf(self) -> bool {
        &&& 24 <= self.max_buffer_size <= 0x4000_0000_0000_0000u64
        &&& (match self.gpu {
            Some(link) => link.wf(),
            None => true,
        })
        &&& self.buffer_sizes@.len() >= 1
        &&& self.dirty_end <= self.data@.len()
        &&& (forall|i: int|
            0 <= i < self.buffer_sizes@.len() ==> self.buffer_sizes@[i]
                <= 0x8000_0000_0000_0000u64)
        &&& (self.buffer_sizes@.len() > 1 ==> forall|i: int|
            0 <= i < self.buffer_sizes@.len() ==> self.buffer_sizes@[i] >= spec_single_max(
                self.max_buffer_size,
            ))
    }

    /// An empty store for a device whose buffer size limit is
    /// `max_buffer_size` bytes, clamped into `24 ..= 2^62`.  The chain
    /// starts with one small buffer of up to 256 elements.
    pub fn new(max_buffer_size: u64) -> (r: GpuSyncVec)
        ensures
            r.wf(),
            r.spec_data() == Seq::<CallBox>::empty(),
            r.spec_dirty() == (usize::MAX, 0usize),
            r.spec_max() == if max_buffer_size < 24 {
                24u64
            } else if max_buffer_size > 0x4000_0000_0000_0000u64 {
                0x4000_0000_0000_0000u64
            } else {
                max_buffer_size
            },
            r.spec_sizes().len() == 1,
            r.spec_sizes()[0] == ({
                let per = spec_per_buf(r.spec_max());
                if per < 256 {
                    per * 24
                } else {
                    6144int
                }
            }),
            !r.spec_gpu_backed(),
    {
        let max = if max_buffer_size < 24 {
            24
        } else if max_buffer_size > 0x4000_0000_0000_0000 {
            0x4000_0000_0000_0000
        } else {
            max_buffer_size
        };
        let per = max / 24;
        let first = if per < 256 {
            per * 24
        } else {
            256 * 24
        };
        let mut buffer_sizes: Vec<u64> = Vec::new();
        buffer_sizes.push(first);
        GpuSyncVec {
            data: Vec::new(),
            dirty_start: usize::MAX,
            dirty_end: 0,
            buffer_sizes,
            max_buffer_size: max,
            gpu: None,
        }
    }

    /// An empty store mirrored on a device, under that device's buffer
    /// size limit; the queue must belong to the device.
    pub fn new_gpu(device: wgpu::Device, queue: wgpu::Queue) -> (r: GpuSyncVec)
        requires
            crate::gpu::spec_queue_device(queue) == crate::gpu::spec_device_id(device),
        ensures
            r.wf(),
            r.spec_data() == Seq::<CallBox>::empty(),
            r.spec_dirty() == (usize::MAX, 0usize),
            r.spec_sizes().len() == 1,
            r.spec_gpu_backed(),
            r.spec_gpu_buffer_count() == 0,
    {
        let limit = crate::gpu::device_max_buffer_size(&device);
        let usage = crate::gpu::vertex_buffer_usage();
        let link = crate::gpu::GpuLink::new(device, queue, usage);
        let mut r = GpuSyncVec::new(limit);
        r.gpu = Some(link);
        r
    }

    /// One GPU buffer of the mirror, for binding at draw time: some buffer
    /// exactly when the store is mirrored and the mirror has created the
    /// buffer; `None` off the GPU.
    pub fn gpu_buffer(&self, i: usize) -> (r: Option<&wgpu::Buffer>)
        requires
            self.wf(),
        ensures
            (r is Some) == (self.spec_gpu_backed() && (i as nat) < self.spec_gpu_buffer_count()),
    {
        match &self.gpu {
            Some(link) => link.buffer(i),
            None => None,
        }
    }

    /// How many elements the store holds.
    pub fn len(&self) -> (n: usize)
        ensures
            n == self.spec_data().len(),
    {
        self.data.len()
    }

    /// The element at `index`, if any.
    pub fn get(&self, index: usize) -> (r: Option<&CallBox>)
        ensures
            index < self.spec_data().len() ==> r == Some(&self.spec_data()[index as int]),
            index >= self.spec_data().len() ==> r is None,
    {
        self.data.get(index)
    }

    /// Overwrites the element at `index` and marks it dirty; reports whether
    /// `index` was in range (and anything happened).
    pub fn set(&mut self, index: usize, value: CallBox) -> (ok: bool)
        requires
            old(self).wf(),
        ensures
            ok == (index < old(self).spec_data().len()),
            ok ==> final(self).spec_data() == old(self).spec_data().update(index as int, value),
            ok ==> final(self).spec_dirty() == (
                if index < old(self).spec_dirty().0 {
                    index
                } else {
                    old(self).spec_dirty().0
                },
                if index + 1 > old(self).spec_dirty().1 {
                    (index + 1) as usize
                } else {
                    old(self).spec_dirty().1
                },
            ),
            !ok ==> *final(self) == *old(self),
            final(self).spec_sizes() == old(self).spec_sizes(),
            final(self).spec_max() == old(self).spec_max(),
            final(self).spec_gpu_backed() == old(self).spec_gpu_backed(),
            final(self).spec_gpu_buffer_count() == old(self).spec_gpu_buffer_count(),
            final(self).wf(),
    {
        if index < self.data.len() {
            self.data[index] = value;
            if index < self.dirty_start {
                self.dirty_start = index;
            }
            if index + 1 > self.dirty_end {
                self.dirty_end = index + 1;
            }
            true
        } else {
            false
        }
    }

    /// Closes (or reopens) the box at `index` by replacing its end time, and
    /// marks it dirty.
    pub fn set_end_at(&mut self, index: usize, end: u64)
        requires
            old(self).wf(),
            index < old(self).spec_data().len(),
        ensures
            final(self).spec_data() == old(self).spec_data().update(
                index as int,
                (CallBox {
                    end_lo: crate::event::spec_time_lo(end),
                    end_hi: crate::event::spec_time_hi(end),
                    ..old(self).spec_data()[index as int]
                }),
            ),
            final(self).spec_dirty() == (
                if index < old(self).spec_dirty().0 {
                    index
                } else {
                    old(self).spec_dirty().0
                },
                if index + 1 > old(self).spec_dirty().1 {
                    (index + 1) as usize
                } else {
                    old(self).spec_dirty().1
                },
            ),
            final(self).spec_sizes() == old(self).spec_sizes(),
            final(self).spec_max() == old(self).spec_max(),
            final(self).spec_gpu_backed() == old(self).spec_gpu_backed(),
            final(self).spec_gpu_buffer_count() == old(self).spec_gpu_buffer_count(),
            final(self).wf(),
    {
        let n = self.data.len();
        let enc = crate::event::encode_time(end);
        self.data[index].end_lo = enc[0];
        self.data[index].end_hi = enc[1];
        if index < self.dirty_start {
            self.dirty_start = index;
        }
        if index + 1 > self.dirty_end {
            self.dirty_end = index + 1;
        }
    }

    /// Appends an element and marks it dirty.
    pub fn push(&mut self, value: CallBox)
        requires
            old(self).wf(),
        ensures
            final(self).spec_data() == old(self).spec_data().push(value),
            final(self).spec_dirty() == (
                if old(self).spec_data().len() < old(self).spec_dirty().0 {
                    old(self).spec_data().len() as usize
                } else {
                    old(self).spec_dirty().0
                },
                (old(self).spec_data().len() + 1) as usize,
            ),
            final(self).spec_sizes() == old(self).spec_sizes(),
            final(self).spec_max() == old(self).spec_max(),
            final(self).spec_gpu_backed() == old(self).spec_gpu_backed(),
            final(self).spec_gpu_buffer_count() == old(self).spec_gpu_buffer_count(),
            final(self).wf(),
    {
        let updated_index = self.data.len();
        self.data.push(value);
        let new_len = self.data.len();
        if updated_index < self.dirty_start {
            self.dirty_start = updated_index;
        }
        if new_len > self.dirty_end {
            self.dirty_end = new_len;
        }
    }

    /// Shrinks the store to `len` elements if it is longer, clamping the
    /// dirty interval to the new length.
    pub fn truncate(&mut self, len: usize)
        requires
            old(self).wf(),
        ensures
            len < old(self).spec_data().len() ==> {
                &&& final(self).spec_data() == old(self).spec_data().take(len as int)
                &&& final(self).spec_dirty() == (
                    old(self).spec_dirty().0,
                    if old(self).spec_dirty().1 < len {
                        old(self).spec_dirty().1
                    } else {
                        len
                    },
                )
            },
            len >= old(self).spec_data().len() ==> *final(self) == *old(self),
            final(self).spec_sizes() == old(self).spec_sizes(),
            final(self).spec_max() == old(self).spec_max(),
            final(self).spec_gpu_backed() == old(self).spec_gpu_backed(),
            final(self).spec_gpu_buffer_count() == old(self).spec_gpu_buffer_count(),
            final(self).wf(),
    {
        if len < self.data.len() {
            self.data.truncate(len);
            if self.dirty_end > len {
                self.dirty_end = len;
            }
        }
    }

    /// How many elements of the host data each buffer of the chain holds.
    pub fn fill_counts(&self) -> (r: Vec<usize>)
        requires
            self.wf(),
        ensures
            r@ == spec_fill_counts(
                self.spec_sizes().len() as int,
                spec_per_buf(self.spec_max()),
                self.spec_data().len() as int,
            ),
    {
        let len = self.data.len();
        let mut r: Vec<usize> = Vec::new();
        if self.buffer_sizes.len() == 1 {
            r.push(len);
            proof {
                assert(r@ =~= spec_fill_counts(1, spec_per_buf(self.spec_max()), len as int));
            }
        } else {
            let per = self.max_buffer_size / 24;
            let full64 = (len as u64) / per;
            let tail64 = (len as u64) % per;
            proof {
                assert(full64 <= len as u64 && tail64 < per) by (nonlinear_arith)
                    requires
                        per >= 1,
                        full64 == (len as u64) / per,
                        tail64 == (len as u64) % per,
                ;
            }
            proof {
                if full64 > 0 {
                    assert(per <= len as u64) by (nonlinear_arith)
                        requires
                            per >= 1,
                            full64 == (len as u64) / per,
                            full64 > 0,
                    ;
                }
            }
            let full = full64 as usize;
            let mut i: usize = 0;
            while i < full
                invariant
                    i <= full,
                    per == self.spec_max() / 24,
                    full > 0 ==> per <= len as u64,
                    len <= usize::MAX,
                    r@.len() == i,
                    forall|j: int| 0 <= j < i ==> r@[j] == per as usize,
                decreases full - i,
            {
                r.push(per as usize);
                i = i + 1;
            }
            if tail64 > 0 {
                r.push(tail64 as usize);
            }
            proof {
                assert(r@ =~= spec_fill_counts(
                    self.spec_sizes().len() as int,
                    spec_per_buf(self.spec_max()),
                    len as int,
                ));
            }
        }
        r
    }

    /// Reconciles the buffer chain with the host data and returns the
    /// uploads that mirror the dirty region: nothing if nothing is dirty;
    /// otherwise the chain grows as `spec_reconciled_sizes` says — and if a
    /// sole buffer was outgrown, the whole host range is re-uploaded — then
    /// the dirty interval is reset to its empty sentinel.
    pub fn sync(&mut self) -> (plan: Vec<UploadCmd>)
        requires
            old(self).wf(),
        ensures
            final(self).wf(),
            final(self).spec_data() == old(self).spec_data(),
            final(self).spec_max() == old(self).spec_max(),
            old(self).spec_dirty_empty() ==> *final(self) == *old(self) && plan@
                == Seq::<UploadCmd>::empty(),
            !old(self).spec_dirty_empty() ==> ({
                let len = old(self).spec_data().len() as int;
                let marks = spec_marks_all(old(self).spec_sizes(), len);
                let ds = if marks {
                    0int
                } else {
                    old(self).spec_dirty().0 as int
                };
                let de = if marks {
                    len
                } else {
                    old(self).spec_dirty().1 as int
                };
                &&& final(self).spec_sizes() == spec_reconciled_sizes(
                    old(self).spec_sizes(),
                    len,
                    old(self).spec_max(),
                )
                &&& final(self).spec_dirty() == (usize::MAX, 0usize)
                &&& plan@ == spec_upload_plan(
                    final(self).spec_sizes().len() as int,
                    spec_per_buf(old(self).spec_max()),
                    ds,
                    de,
                )
            }),
            final(self).spec_gpu_backed() == old(self).spec_gpu_backed(),
            !old(self).spec_dirty_empty() && old(self).spec_gpu_backed()
                ==> final(self).spec_gpu_buffer_count() == final(self).spec_sizes().len(),
    {
        if self.dirty_start >= self.dirty_end {
            return Vec::new();
        }
        let len = self.data.len();
        let per_buf = self.max_buffer_size / 24;
        proof {
            assert(per_buf >= 1 && per_buf * 24 <= self.max_buffer_size) by (nonlinear_arith)
                requires
                    24 <= self.max_buffer_size,
                    per_buf == self.max_buffer_size / 24,
            ;
        }
        let single_max = per_buf * 24;
        let mut ds = self.dirty_start;
        let mut de = self.dirty_end;
        let required128: u128 = (len as u128) * 24;
        let ghost sizes0 = self.buffer_sizes@;
        if self.buffer_sizes.len() == 1 {
            let size0 = self.buffer_sizes[0];
            if required128 > size0 as u128 {
                if required128 <= self.max_buffer_size as u128 {
                    let ns = grow_target_u64(required128 as u64);
                    let ns = if ns > self.max_buffer_size {
                        self.max_buffer_size
                    } else {
                        ns
                    };
                    proof {
                        lemma_grow_target_props(required128 as int, 1);
                    }
                    self.buffer_sizes.clear();
                    self.buffer_sizes.push(ns);
                    proof {
                        assert(self.buffer_sizes@ =~= spec_reconciled_sizes(
                            sizes0,
                            len as int,
                            self.max_buffer_size,
                        ));
                    }
                } else {
                    let count128 = ceil_div_u128(required128, single_max as u128);
                    proof {
                        assert(count128 * (single_max as u128) >= required128 && count128
                            <= len as u128 && count128 >= 2) by (nonlinear_arith)
                            requires
                                single_max >= 24,
                                required128 == (len as u128) * 24,
                                required128 > single_max as u128,
                                count128 as int == spec_ceil_div(
                                    required128 as int,
                                    single_max as int,
                                ),
                                count128 as int == required128 as int / single_max as int + (
                                if required128 as int % single_max as int != 0 {
                                    1int
                                } else {
                                    0int
                                }),
                        ;
                    }
                    let count = count128 as usize;
                    if size0 < single_max {
                        self.buffer_sizes.clear();
                        push_n(&mut self.buffer_sizes, count, single_max);
                        proof {
                            assert(self.buffer_sizes@ =~= spec_reconciled_sizes(
                                sizes0,
                                len as int,
                                self.max_buffer_size,
                            ));
                        }
                    } else {
                        push_n(&mut self.buffer_sizes, count - 1, single_max);
                        proof {
                            assert(self.buffer_sizes@ =~= spec_reconciled_sizes(
                                sizes0,
                                len as int,
                                self.max_buffer_size,
                            ));
                        }
                    }
                }
                ds = 0;
                de = len;
            }
        } else {
            let count128 = ceil_div_u128(len as u128, per_buf as u128);
            proof {
                assert(count128 * (per_buf as u128) >= len as u128 && count128 <= len as u128)
                    by (nonlinear_arith)
                    requires
                        per_buf >= 1,
                        count128 as int == (len as u128) as int / per_buf as int + (
                        if (len as u128) as int % per_buf as int != 0 {
                            1int
                        } else {
                            0int
                        }),
                ;
            }
            let count = count128 as usize;
            let cur = self.buffer_sizes.len();
            if count > cur {
                push_n(&mut self.buffer_sizes, count - cur, single_max);
            }
            proof {
                assert(self.buffer_sizes@ =~= spec_reconciled_sizes(
                    sizes0,
                    len as int,
                    self.max_buffer_size,
                ));
            }
        }
        let nbuf = self.buffer_sizes.len();
        proof {
            let m = self.max_buffer_size;
            let per = per_buf as int;
            let len_i = len as int;
            let req = len_i * 24;
            let single = spec_single_max(m);
            let fsizes = self.buffer_sizes@;
            assert(fsizes == spec_reconciled_sizes(sizes0, len_i, m));
            assert(1 <= de && de <= len);
            assert(single == per * 24);
            if nbuf == 1 {
                if sizes0.len() == 1 && req <= sizes0[0] {
                    assert(req <= 0x8000_0000_0000_0000);
                } else {
                    assert(sizes0.len() == 1 && req > sizes0[0] && req <= m);
                    lemma_grow_target_props(req, 1);
                    assert(fsizes[0] == (if spec_grow_target(req, 1) > m {
                        m as int
                    } else {
                        spec_grow_target(req, 1)
                    }));
                    assert(req <= fsizes[0]);
                    assert(req <= 0x8000_0000_0000_0000);
                }
                assert((de as int) * 24 <= req);
            } else {
                if sizes0.len() == 1 {
                    let count = spec_ceil_div(req, single);
                    assert(fsizes.len() == count);
                    assert(count * single >= req) by (nonlinear_arith)
                        requires
                            single >= 24,
                            req >= 24,
                            count == req / single + (if req % single != 0 {
                                1int
                            } else {
                                0int
                            }),
                    ;
                    assert(count * per * 24 == count * single) by (nonlinear_arith)
                        requires
                            single == per * 24,
                    ;
                    assert((nbuf as int) * per >= len_i) by (nonlinear_arith)
                        requires
                            nbuf as int == count,
                            count * per * 24 >= req,
                            req == len_i * 24,
                    ;
                } else {
                    let count = spec_ceil_div(len_i, per);
                    assert(count * per >= len_i) by (nonlinear_arith)
                        requires
                            per >= 1,
                            len_i >= 0,
                            count == len_i / per + (if len_i % per != 0 {
                                1int
                            } else {
                                0int
                            }),
                    ;
                    assert(fsizes.len() >= count && fsizes.len() >= sizes0.len());
                    assert((nbuf as int) * per >= count * per) by (nonlinear_arith)
                        requires
                            per >= 1,
                            nbuf as int >= count,
                    ;
                }
            }
        }
        let plan = build_plan(nbuf, per_buf, ds, de, len);
        match &mut self.gpu {
            Some(link) => {
                link.apply(&self.buffer_sizes, &self.data, &plan);
            },
            None => {},
        }
        self.dirty_start = usize::MAX;
        self.dirty_end = 0;
        plan
    }
}

/// The doubling target is at least `x` and, once doubling was needed at
/// all, less than `2 * x`.
pub proof fn lemma_grow_target_props(x: int, acc: int)
    requires
        1 <= acc,
        1 <= x,
    ensures
        acc >= x ==> spec_grow_target(x, acc) == acc,
        acc < x ==> x <= spec_grow_target(x, acc) < 2 * x,
        spec_grow_target(x, acc) >= acc,
    decreases x - acc,
{
    if acc >= x {
    } else if 2 * acc >= x {
    } else {
        lemma_grow_target_props(x, 2 * acc);
    }
}

/// Doubles from one byte until `x` is covered.
fn grow_target_u64(x: u64) -> (r: u64)
    requires
        1 <= x <= 0x4000_0000_0000_0000,
    ensures
        r == spec_grow_target(x as int, 1),
{
    let mut r: u64 = 1;
    while r < x
        invariant
            1 <= r,
            r <= 2 * (x as int),
            x <= 0x4000_0000_0000_0000,
            spec_grow_target(x as int, 1) == spec_grow_target(x as int, r as int),
        decreases 2 * (x as int) - r,
    {
        r = r * 2;
    }
    r
}

/// Division rounding up, on values wide enough that nothing overflows.
fn ceil_div_u128(a: u128, b: u128) -> (r: u128)
    requires
        b >= 1,
    ensures
        r == spec_ceil_div(a as int, b as int),
{
    let q = a / b;
    let rem = a % b;
    if rem != 0 {
        proof {
            assert(q < a) by (nonlinear_arith)
                requires
                    b >= 1,
                    q == a / b,
                    rem == a % b,
                    rem != 0,
            ;
        }
        q + 1
    } else {
        q
    }
}

/// Appends `n` copies of `val`.
fn push_n(v: &mut Vec<u64>, n: usize, val: u64)
    ensures
        final(v)@ == old(v)@ + Seq::new(n as nat, |i: int| val),
{
    let mut i: usize = 0;
    while i < n
        invariant
            i <= n,
            v@.len() == old(v)@.len() + i,
            forall|j: int| 0 <= j < old(v)@.len() ==> v@[j] == old(v)@[j],
            forall|j: int| old(v)@.len() <= j < v@.len() ==> v@[j] == val,
        decreases n - i,
    {
        v.push(val);
        i = i + 1;
    }
    proof {
        assert(v@ =~= old(v)@ + Seq::new(n as nat, |i: int| val));
    }
}

/// Builds the upload list for the dirty elements `ds..de` of a chain of
/// `nbuf` buffers holding `per` elements each.
fn build_plan(nbuf: usize, per: u64, ds: usize, de: usize, len: usize) -> (plan: Vec<UploadCmd>)
    requires
        nbuf >= 1,
        per >= 1,
        per * 24 <= 0x4000_0000_0000_0000,
        ds < de,
        de <= len,
        nbuf == 1 ==> (de as int) * 24 <= 0x8000_0000_0000_0000,
        nbuf > 1 ==> (nbuf as int) * (per as int) >= len as int,
    ensures
        plan@ == spec_upload_plan(nbuf as int, per as int, ds as int, de as int),
{
    let mut plan: Vec<UploadCmd> = Vec::new();
    if nbuf == 1 {
        plan.push(UploadCmd { buffer: 0, offset: (ds as u64) * 24, first: ds, last: de });
        proof {
            assert(plan@ =~= spec_upload_plan(1, per as int, ds as int, de as int));
        }
    } else {
        let s64 = ds as u64;
        let e64 = de as u64;
        let sb = s64 / per;
        let si = s64 % per;
        let lb = (e64 - 1) / per;
        proof {
            assert(sb * per + si == s64 && si < per && sb <= s64) by (nonlinear_arith)
                requires
                    per >= 1,
                    sb == s64 / per,
                    si == s64 % per,
            ;
            assert(lb * per <= e64 - 1 && lb <= e64 - 1) by (nonlinear_arith)
                requires
                    per >= 1,
                    e64 >= 1,
                    lb as int == (e64 as int - 1) / (per as int),
            ;
            assert(sb <= lb) by {
                vstd::arithmetic::div_mod::lemma_div_is_ordered(
                    s64 as int,
                    (e64 - 1) as int,
                    per as int,
                );
            }
            assert(si * 24 < per * 24) by (nonlinear_arith)
                requires
                    si < per,
            ;
        }
        if sb == lb {
            plan.push(
                UploadCmd { buffer: sb as usize, offset: si * 24, first: ds, last: de },
            );
            proof {
                assert(plan@ =~= spec_upload_plan(nbuf as int, per as int, ds as int, de as int));
            }
        } else {
            proof {
                assert((sb + 1) * per == sb * per + per && (lb + 1) * per == lb * per + per)
                    by (nonlinear_arith);
                assert((sb + 1) * per <= lb * per) by (nonlinear_arith)
                    requires
                        sb + 1 <= lb,
                        per >= 1,
                ;
            }
            let first_end = (sb + 1) * per;
            plan.push(
                UploadCmd {
                    buffer: sb as usize,
                    offset: si * 24,
                    first: ds,
                    last: first_end as usize,
                },
            );
            let ghost whole = spec_upload_plan(nbuf as int, per as int, ds as int, de as int);
            proof {
                assert(whole.len() == lb - sb + 1);
                assert(plan@[0] == whole[0]);
            }
            let mut b = sb + 1;
            while b < lb
                invariant
                    sb + 1 <= b <= lb,
                    per >= 1,
                    nbuf > 1,
                    s64 == ds as u64,
                    e64 == de as u64,
                    ds < de,
                    de <= len,
                    sb == s64 / per,
                    si == s64 % per,
                    lb as int == (e64 as int - 1) / (per as int),
                    sb * per + si == s64,
                    si < per,
                    lb * per <= e64 - 1,
                    e64 <= len,
                    b * per <= lb * per,
                    whole == spec_upload_plan(nbuf as int, per as int, ds as int, de as int),
                    whole.len() == lb - sb + 1,
                    plan@.len() == b - sb,
                    forall|k: int| 0 <= k < b - sb ==> plan@[k] == whole[k],
                decreases lb - b,
            {
                proof {
                    assert((b + 1) * per == b * per + per && b * per >= per) by (nonlinear_arith)
                        requires
                            per >= 1,
                            b >= 1,
                    ;
                    assert((b + 1) * per <= lb * per) by (nonlinear_arith)
                        requires
                            b + 1 <= lb,
                            per >= 1,
                    ;
                    assert(whole[(b - sb) as int] == spec_cmd(
                        b as int,
                        0,
                        (b as int) * (per as int),
                        (b as int + 1) * (per as int),
                    )) by {
                        let j = (b - sb) as int;
                        assert((ds as int) / (per as int) == sb as int);
                        assert((de as int - 1) / (per as int) == lb as int);
                        assert(0 < j < lb - sb);
                        assert(spec_upload_plan(nbuf as int, per as int, ds as int, de as int)[j]
                            == spec_cmd(
                            sb as int + j,
                            0,
                            (sb as int + j) * (per as int),
                            (sb as int + j + 1) * (per as int),
                        ));
                        assert(sb as int + j == b as int);
                    }
                }
                let block_start = b * per;
                let block_end = (b + 1) * per;
                plan.push(
                    UploadCmd {
                        buffer: b as usize,
                        offset: 0,
                        first: block_start as usize,
                        last: block_end as usize,
                    },
                );
                b = b + 1;
            }
            let last_start = lb * per;
            proof {
                assert(whole[(lb - sb) as int] == spec_cmd(
                    lb as int,
                    0,
                    (lb as int) * (per as int),
                    de as int,
                ));
            }
            plan.push(
                UploadCmd { buffer: lb as usize, offset: 0, first: last_start as usize, last: de },
            );
            proof {
                assert(plan@ =~= whole);
            }
        }
    }
    plan
}


/// The host-visible model of a store: its data and dirty interval.
pub open spec fn spec_gsv_push(m: (Seq<CallBox>, usize, usize), v: CallBox) -> (
    Seq<CallBox>,
    usize,
    usize,
) {
    (
        m.0.push(v),
        if m.0.len() < m.1 {
            m.0.len() as usize
        } else {
            m.1
        },
        (m.0.len() + 1) as usize,
    )
}

/// The model after overwriting the element at `i` (assumed in range).
pub open spec fn spec_gsv_set(m: (Seq<CallBox>, usize, usize), i: usize, v: CallBox) -> (
    Seq<CallBox>,
    usize,
    usize,
) {
    (
        m.0.update(i as int, v),
        if i < m.1 {
            i
        } else {
            m.1
        },
        if i + 1 > m.2 {
            (i + 1) as usize
        } else {
            m.2
        },
    )
}

/// The model after closing the box at `i` (assumed in range) at `end`.
pub open spec fn spec_gsv_set_end(m: (Seq<CallBox>, usize, usize), i: usize, end: u64) -> (
    Seq<CallBox>,
    usize,
    usize,
) {
    (
        m.0.update(
            i as int,
            (CallBox {
                end_lo: crate::event::spec_time_lo(end),
                end_hi: crate::event::spec_time_hi(end),
                ..m.0[i as int]
            }),
        ),
        if i < m.1 {
            i
        } else {
            m.1
        },
        if i + 1 > m.2 {
            (i + 1) as usize
        } else {
            m.2
        },
    )
}

/// The model after shrinking to `n` elements.
pub open spec fn spec_gsv_truncate(m: (Seq<CallBox>, usize, usize), n: usize) -> (
    Seq<CallBox>,
    usize,
    usize,
) {
    if n < m.0.len() {
        (
            m.0.take(n as int),
            m.1,
            if m.2 < n {
                m.2
            } else {
                n
            },
        )
    } else {
        m
    }
}

} // verus!
