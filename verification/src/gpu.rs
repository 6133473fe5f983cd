//! The GPU side of the vertex stores: minimal trusted declarations of the
//! graphics device types, and a verified mirror that keeps one chain of GPU
//! buffers matching a host-side size model and executes upload commands.
//!
//! Everything the device promises is confined to the trusted items below;
//! the mirror itself checks every size and offset against its own records
//! before issuing a call, so no contract here depends on more than what the
//! device documentation states.

use vstd::prelude::*;

use crate::sync_vec::UploadCmd;
use crate::trace::CallBox;

verus! {

#[verifier::external_type_specification]
#[verifier::external_body]
pub struct ExDevice(wgpu::Device);

#[verifier::external_type_specification]
#[verifier::external_body]
pub struct ExQueue(wgpu::Queue);

#[verifier::external_type_specification]
#[verifier::external_body]
pub struct ExBuffer(wgpu::Buffer);

#[verifier::external_type_specification]
#[verifier::external_body]
pub struct ExBufferUsages(wgpu::BufferUsages);

/// The byte size `wgpu::Buffer::size` reports for a buffer: fixed when the
/// buffer is created, so a function of the buffer alone.
pub uninterp spec fn spec_buffer_size(b: wgpu::Buffer) -> u64;

/// The `max_buffer_size` limit `wgpu::Device::limits` reports: fixed when
/// the device is created, so a function of the device alone.
pub uninterp spec fn spec_device_limit(d: wgpu::Device) -> u64;

/// Whether a usage set is one buffer creation accepts for an upload
/// target: non-empty, made of known flags, free of the mapping flags whose
/// combinations creation rejects, and including the copy-destination flag
/// that uploads require.
pub uninterp spec fn spec_upload_usage(u: wgpu::BufferUsages) -> bool;

/// Whether a buffer was created unmapped with such an upload-capable usage
/// set; the usage of a buffer is fixed at its creation, and without the
/// mapping flags the buffer can never enter a mapped state, so it stays
/// available as an upload target.
pub uninterp spec fn spec_buffer_upload_ok(b: wgpu::Buffer) -> bool;

/// An identity for the device behind a device handle: clones of a handle
/// share it.
pub uninterp spec fn spec_device_id(d: wgpu::Device) -> int;

/// The identity of the device a queue belongs to: fixed when the device
/// and queue are created as a pair.
pub uninterp spec fn spec_queue_device(q: wgpu::Queue) -> int;

/// The identity of the device a buffer was created on: fixed at creation.
pub uninterp spec fn spec_buffer_device(b: wgpu::Buffer) -> int;

/// Relies on `wgpu::Device::limits`: the limits of a device are fixed at
/// its creation, so `max_buffer_size` is a function of the device alone.
#[verifier::external_body]
pub fn device_max_buffer_size(d: &wgpu::Device) -> (r: u64)
    ensures
        r == spec_device_limit(*d),
{
    d.limits().max_buffer_size
}

/// Relies on `wgpu::Device::clone`: a clone is another reference to the
/// same device, so its limits and identity are the same.
#[verifier::external_body]
pub fn clone_device(d: &wgpu::Device) -> (r: wgpu::Device)
    ensures
        spec_device_limit(r) == spec_device_limit(*d),
        spec_device_id(r) == spec_device_id(*d),
{
    d.clone()
}

/// Relies on `wgpu::Queue::clone`: a clone is another reference to the same
/// queue, belonging to the same device.
#[verifier::external_body]
pub fn clone_queue(q: &wgpu::Queue) -> (r: wgpu::Queue)
    ensures
        spec_queue_device(r) == spec_queue_device(*q),
{
    q.clone()
}

/// Relies on `wgpu::BufferUsages`: VERTEX with COPY_DST is a non-empty set
/// of known flags without mapping flags and with the copy destination, so
/// buffer creation accepts it and uploads into such a buffer are valid.
#[verifier::external_body]
pub fn vertex_buffer_usage() -> (r: wgpu::BufferUsages)
    ensures
        spec_upload_usage(r),
{
    wgpu::BufferUsages::VERTEX.union(wgpu::BufferUsages::COPY_DST)
}

/// Relies on `wgpu::Device::create_buffer` and `wgpu::Buffer::size`: with
/// a size within the device's `max_buffer_size` and an upload-capable
/// usage set, creation passes validation (whose only checks are the size
/// limit, the usage flags, and the mapped-at-creation alignment, which an
/// unmapped buffer skips), the created buffer's size and usage always
/// equal what the descriptor asked for, and the buffer belongs to the
/// creating device.
#[verifier::external_body]
fn create_buffer(d: &wgpu::Device, size: u64, usage: wgpu::BufferUsages) -> (r: wgpu::Buffer)
    requires
        size <= spec_device_limit(*d),
        spec_upload_usage(usage),
    ensures
        spec_buffer_size(r) == size,
        spec_buffer_upload_ok(r),
        spec_buffer_device(r) == spec_device_id(*d),
{
    d.create_buffer(
        &wgpu::BufferDescriptor { label: None, size, usage, mapped_at_creation: false },
    )
}

/// Relies on `wgpu::Queue::write_buffer`: schedules a write of `data` into
/// `b` at byte offset `offset`.  Upload validation demands a buffer of the
/// queue's own device, an unmapped copy-destination buffer (which an
/// upload-capable buffer, having no mapping flags, always is), a
/// four-byte-aligned offset and length, and an in-bounds range; the
/// callers establish all of these against their records.
#[verifier::external_body]
fn write_buffer(q: &wgpu::Queue, b: &wgpu::Buffer, offset: u64, data: &[u8])
    requires
        spec_queue_device(*q) == spec_buffer_device(*b),
        spec_buffer_upload_ok(*b),
        offset % 4 == 0,
        data@.len() % 4 == 0,
        offset + data@.len() <= spec_buffer_size(*b),
{
    q.write_buffer(b, offset, data)
}

/// The 24 little-endian bytes of one call box: six 32-bit words in field
/// order.
pub open spec fn spec_box_le_bytes(b: CallBox) -> Seq<u8> {
    spec_u32_le(b.start_lo) + spec_u32_le(b.start_hi) + spec_u32_le(b.end_lo) + spec_u32_le(
        b.end_hi,
    ) + spec_u32_le(b.method_id) + spec_u32_le(b.depth)
}

/// The four little-endian bytes of one 32-bit word.
pub open spec fn spec_u32_le(x: u32) -> Seq<u8> {
    seq![
        (x & 0xff) as u8,
        ((x >> 8) & 0xff) as u8,
        ((x >> 16) & 0xff) as u8,
        ((x >> 24) & 0xff) as u8,
    ]
}

/// Appends the four little-endian bytes of `x`.
fn push_u32_le(out: &mut Vec<u8>, x: u32)
    ensures
        final(out)@ == old(out)@ + spec_u32_le(x),
{
    out.push((x & 0xff) as u8);
    out.push(((x >> 8) & 0xff) as u8);
    out.push(((x >> 16) & 0xff) as u8);
    out.push(((x >> 24) & 0xff) as u8);
    proof {
        assert(final(out)@ =~= old(out)@ + spec_u32_le(x));
    }
}

/// Serializes the elements `first..last` of `data` for upload: 24 bytes per
/// element, in order.
fn box_bytes(data: &Vec<CallBox>, first: usize, last: usize) -> (r: Vec<u8>)
    requires
        first <= last,
        last <= data@.len(),
    ensures
        r@.len() == 24 * (last - first),
        forall|k: int|
            0 <= k < last - first ==> #[trigger] r@.subrange(24 * k, 24 * k + 24)
                == spec_box_le_bytes(data@[first + k]),
{
    let mut r: Vec<u8> = Vec::new();
    let mut i: usize = first;
    while i < last
        invariant
            first <= i <= last,
            last <= data@.len(),
            r@.len() == 24 * (i - first),
            forall|k: int|
                0 <= k < i - first ==> #[trigger] r@.subrange(24 * k, 24 * k + 24)
                    == spec_box_le_bytes(data@[first + k]),
        decreases last - i,
    {
        let ghost rpre = r@;
        let b = data[i];
        push_u32_le(&mut r, b.start_lo);
        push_u32_le(&mut r, b.start_hi);
        push_u32_le(&mut r, b.end_lo);
        push_u32_le(&mut r, b.end_hi);
        push_u32_le(&mut r, b.method_id);
        push_u32_le(&mut r, b.depth);
        proof {
            assert(r@ =~= rpre + spec_box_le_bytes(b));
            assert forall|k: int| 0 <= k < i + 1 - first implies #[trigger] r@.subrange(
                24 * k,
                24 * k + 24,
            ) == spec_box_le_bytes(data@[first + k]) by {
                if k < i - first {
                    assert(r@.subrange(24 * k, 24 * k + 24) =~= rpre.subrange(
                        24 * k,
                        24 * k + 24,
                    ));
                } else {
                    assert(r@.subrange(24 * k, 24 * k + 24) =~= spec_box_le_bytes(b));
                }
            }
        }
        i = i + 1;
    }
    r
}

/// One vertex store's GPU mirror: the device handles and the chain of
/// buffers created so far, with a record of each buffer's byte size.
#[derive(Debug)]
pub struct GpuLink {
    device: wgpu::Device,
    queue: wgpu::Queue,
    usage: wgpu::BufferUsages,
    buffers: Vec<wgpu::Buffer>,
    recorded: Vec<u64>,
    limit: u64,
}

impl GpuLink {
    /// The byte sizes of the buffers created so far.
    pub closed spec fn spec_recorded(self) -> Seq<u64> {
        self.recorded@
    }

    /// The device limit the mirror was created under.
    pub closed spec fn spec_limit(self) -> u64 {
        self.limit
    }

    /// The records match the buffers one for one, the recorded limit is
    /// the device's, the queue belongs to the device, and every buffer was
    /// created on that device with an upload-capable usage.
    pub closed spec fn wf(self) -> bool {
        &&& self.recorded@.len() == self.buffers@.len()
        &&& self.limit == spec_device_limit(self.device)
        &&& spec_upload_usage(self.usage)
        &&& spec_queue_device(self.queue) == spec_device_id(self.device)
        &&& (forall|i: int|
            0 <= i < self.buffers@.len() ==> #[trigger] self.recorded@[i] == spec_buffer_size(
                self.buffers@[i],
            ))
        &&& (forall|i: int|
            0 <= i < self.buffers@.len() ==> spec_buffer_upload_ok(#[trigger] self.buffers@[i]))
        &&& (forall|i: int|
            0 <= i < self.buffers@.len() ==> spec_buffer_device(#[trigger] self.buffers@[i])
                == spec_device_id(self.device))
    }

    /// A mirror with no buffers yet; the queue must belong to the device.
    pub fn new(device: wgpu::Device, queue: wgpu::Queue, usage: wgpu::BufferUsages) -> (r: GpuLink)
        requires
            spec_upload_usage(usage),
            spec_queue_device(queue) == spec_device_id(device),
        ensures
            r.wf(),
            r.spec_recorded() == Seq::<u64>::empty(),
    {
        let limit = device_max_buffer_size(&device);
        GpuLink { device, queue, usage, buffers: Vec::new(), recorded: Vec::new(), limit }
    }

    /// The limit the device puts on one buffer's byte size.
    pub fn limit(&self) -> (r: u64) {
        self.limit
    }

    /// One buffer of the chain, for binding at draw time.
    pub fn buffer(&self, i: usize) -> (r: Option<&wgpu::Buffer>)
        requires
            self.wf(),
        ensures
            (r is Some) == (i < self.spec_recorded().len()),
    {
        if i < self.buffers.len() {
            Some(&self.buffers[i])
        } else {
            None
        }
    }

    /// Rebuilds the chain to match `sizes` and executes the upload plan
    /// against `data`.  Every requested size is checked against the device
    /// limit and every write against the records, so a request the device
    /// could refuse is skipped rather than issued.
    pub fn apply(&mut self, sizes: &Vec<u64>, data: &Vec<CallBox>, plan: &Vec<UploadCmd>)
        requires
            old(self).wf(),
        ensures
            final(self).wf(),
            final(self).spec_recorded().len() == sizes@.len(),
            forall|i: int|
                0 <= i < sizes@.len() && sizes@[i] <= old(self).spec_limit()
                    ==> final(self).spec_recorded()[i] == sizes@[i],
            final(self).spec_limit() == old(self).spec_limit(),
    {
        let mut i: usize = 0;
        let n = sizes.len();
        while self.buffers.len() > n
            invariant
                self.wf(),
                self.device == old(self).device,
                self.queue == old(self).queue,
                self.limit == old(self).limit,
            decreases self.buffers@.len(),
        {
            self.buffers.pop();
            self.recorded.pop();
        }
        while i < n
            invariant
                i <= n,
                n == sizes@.len(),
                self.wf(),
                self.device == old(self).device,
                self.queue == old(self).queue,
                self.limit == old(self).limit,
                forall|j: int|
                    0 <= j < i && sizes@[j] <= old(self).spec_limit() ==> self.recorded@[j]
                        == sizes@[j],
                i <= self.recorded@.len(),
                self.recorded@.len() <= n,
            decreases n - i,
        {
            let want = sizes[i];
            if i >= self.buffers.len() {
                let size = if want <= self.limit {
                    want
                } else {
                    0
                };
                let b = create_buffer(&self.device, size, self.usage);
                self.buffers.push(b);
                self.recorded.push(size);
            } else if self.recorded[i] != want {
                if want <= self.limit {
                    let b = create_buffer(&self.device, want, self.usage);
                    self.buffers[i] = b;
                    self.recorded[i] = want;
                }
            }
            i = i + 1;
        }
        let m = plan.len();
        let mut k: usize = 0;
        while k < m
            invariant
                k <= m,
                m == plan@.len(),
                self.wf(),
                self.device == old(self).device,
                self.queue == old(self).queue,
                self.limit == old(self).limit,
                n == sizes@.len(),
                self.recorded@.len() == n,
                forall|j: int|
                    0 <= j < n && sizes@[j] <= old(self).spec_limit() ==> self.recorded@[j]
                        == sizes@[j],
            decreases m - k,
        {
            let cmd = plan[k];
            if cmd.buffer < self.buffers.len() && cmd.first <= cmd.last && cmd.last <= data.len() {
                let count = cmd.last - cmd.first;
                if count <= (u64::MAX as usize) / 24 && cmd.offset % 4 == 0 {
                    let bytes_len = (count as u64) * 24;
                    let recorded = self.recorded[cmd.buffer];
                    if cmd.offset <= recorded && bytes_len <= recorded - cmd.offset
                        && bytes_len % 4 == 0 {
                        let bytes = box_bytes(data, cmd.first, cmd.last);
                        proof {
                            assert(self.recorded@[cmd.buffer as int] == spec_buffer_size(
                                self.buffers@[cmd.buffer as int],
                            ));
                            assert(bytes@.len() == 24 * (cmd.last - cmd.first));
                        }
                        write_buffer(
                            &self.queue,
                            &self.buffers[cmd.buffer],
                            cmd.offset,
                            bytes.as_slice(),
                        );
                    }
                }
            }
            k = k + 1;
        }
    }
}

} // verus!
