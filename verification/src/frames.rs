//! Multi-frame video container: a 4-byte frame count, a table of 3-byte
//! big-endian frame sizes, then the concatenated frame payloads.

use vstd::prelude::*;
use crate::bytes::{be24, be32, push_be24, push_be32};

verus! {

/// Kind tag of a frame; only intra frames are produced, the predicted kind
/// exists as a tag with no distinct encoding.
#[derive(Clone, Copy, PartialEq, Eq, Structural)]
pub enum FrameType {
    IFrame,
    PFRame,
}

/// One frame's payload and kind.
pub struct Frame {
    pub frame_type: FrameType,
    pub frame_data: Vec<u8>,
}

impl Frame {
    pub fn new(bytes: &[u8], frame_type: FrameType) -> (r: Self)
        ensures
            r.frame_type == frame_type,
            r.frame_data@ == bytes@,
    {
        let mut frame_data: Vec<u8> = Vec::new();
        let n = bytes.len();
        for k in 0..n
            invariant
                n == bytes@.len(),
                frame_data@ =~= bytes@.subrange(0, k as int),
        {
            frame_data.push(bytes[k]);
        }
        proof {
            assert(frame_data@ =~= bytes@);
        }
        Frame { frame_type, frame_data }
    }
}

/// Sum of the payload sizes of the first `k` frames: where frame `k` starts
/// inside the data area.
pub open spec fn data_offset(frames: Seq<Frame>, k: int) -> int
    decreases k,
{
    if k <= 0 {
        0
    } else {
        data_offset(frames, k - 1) + frames[k - 1].frame_data@.len()
    }
}

pub struct Video {
    pub frames: Vec<Frame>,
    pub resolution: (usize, usize),
}

impl Video {
    /// Dumps the frames into bytes: the frame count as 4 big-endian bytes,
    /// one 3-byte big-endian size per frame, then every payload in order.
    #[verifier::rlimit(100)]
    pub fn dump(&self) -> (r: Vec<u8>)
        requires
            self.frames@.len() < 0x100000000,
            forall|k: int|
                0 <= k < self.frames@.len() ==> (#[trigger] self.frames@[k]).frame_data@.len()
                    < 0x1000000,
            4 + 3 * self.frames@.len() + data_offset(self.frames@, self.frames@.len() as int)
                <= usize::MAX,
        ensures
            r@.len() == 4 + 3 * self.frames@.len() + data_offset(
                self.frames@,
                self.frames@.len() as int,
            ),
            be32(r@) == self.frames@.len(),
            forall|k: int|
                0 <= k < self.frames@.len() ==> be24(r@.skip(4 + 3 * k)) == (
                #[trigger] self.frames@[k]).frame_data@.len(),
            forall|k: int|
                0 <= k < self.frames@.len() ==> (#[trigger] self.frames@[k]).frame_data@ == r@.subrange(
                    4 + 3 * self.frames@.len() + data_offset(self.frames@, k),
                    4 + 3 * self.frames@.len() + data_offset(self.frames@, k + 1),
                ),
    {
        let n = self.frames.len();
        let ghost fr = self.frames@;
        let mut offset_area: Vec<u8> = Vec::new();
        let mut data_area: Vec<u8> = Vec::new();
        proof {
            lemma_data_offset_bounds(fr, n as int);
        }
        for k in 0..n
            invariant
                n == fr.len(),
                fr == self.frames@,
                n < 0x100000000,
                forall|p: int| 0 <= p < n ==> (#[trigger] fr[p]).frame_data@.len() < 0x1000000,
                4 + 3 * n + data_offset(fr, n as int) <= usize::MAX,
                offset_area@.len() == 3 * k,
                data_area@.len() == data_offset(fr, k as int),
                forall|p: int|
                    0 <= p < k ==> be24(offset_area@.skip(3 * p)) == (
                    #[trigger] fr[p]).frame_data@.len(),
                forall|p: int|
                    0 <= p < k ==> (#[trigger] fr[p]).frame_data@ == data_area@.subrange(
                        data_offset(fr, p),
                        data_offset(fr, p + 1),
                    ),
        {
            proof {
                lemma_data_offset_bounds(fr, n as int);
                lemma_data_offset_mono(fr, k as int, n as int);
                lemma_data_offset_mono(fr, k as int + 1, n as int);
            }
            let size = self.frames[k].frame_data.len();
            let ghost pre_off = offset_area@;
            let ghost pre_data = data_area@;
            push_be24(&mut offset_area, size as u32);
            let frame_bytes = &self.frames[k].frame_data;
            let m = frame_bytes.len();
            for i in 0..m
                invariant
                    m == fr[k as int].frame_data@.len(),
                    k < n == fr.len(),
                    fr == self.frames@,
                    frame_bytes@ == fr[k as int].frame_data@,
                    data_area@ =~= pre_data + frame_bytes@.subrange(0, i as int),
            {
                data_area.push(frame_bytes[i]);
            }
            proof {
                assert(data_area@ =~= pre_data + fr[k as int].frame_data@);
                lemma_dump_step(fr, k as int, pre_off, offset_area@, pre_data, data_area@);
            }
        }
        let mut data: Vec<u8> = Vec::new();
        push_be32(&mut data, n as u32);
        let ghost head = data@;
        let mut offs = offset_area;
        let mut payload = data_area;
        let ghost offs_snap = offs@;
        let ghost payload_snap = payload@;
        data.append(&mut offs);
        data.append(&mut payload);
        proof {
            assert(data@ =~= head + offs_snap + payload_snap);
            assert(be32(data@) == n) by {
                assert(head.skip(0) =~= head);
                assert(data@[0] == head[0] && data@[1] == head[1] && data@[2] == head[2]
                    && data@[3] == head[3]);
            }
            assert forall|k: int| 0 <= k < n implies be24(#[trigger] data@.skip(4 + 3 * k)) == fr[k].frame_data@.len() by {
                assert(data@.skip(4 + 3 * k)[0] == offs_snap.skip(3 * k)[0] && data@.skip(
                    4 + 3 * k,
                )[1] == offs_snap.skip(3 * k)[1] && data@.skip(4 + 3 * k)[2] == offs_snap.skip(
                    3 * k,
                )[2]);
            }
            assert forall|k: int| 0 <= k < n implies (#[trigger] fr[k]).frame_data@
                == data@.subrange(
                4 + 3 * (n as int) + data_offset(fr, k),
                4 + 3 * (n as int) + data_offset(fr, k + 1),
            ) by {
                lemma_data_offset_mono(fr, k as int, n as int);
                lemma_data_offset_mono(fr, k as int + 1, n as int);
                lemma_data_offset_bounds(fr, k as int);
                lemma_data_offset_bounds(fr, k as int + 1);
                assert(data@.subrange(
                    4 + 3 * (n as int) + data_offset(fr, k),
                    4 + 3 * (n as int) + data_offset(fr, k + 1),
                ) =~= payload_snap.subrange(data_offset(fr, k), data_offset(fr, k + 1)));
            }
        }
        data
    }

    /// Loads frames from bytes laid out as `dump` writes them. Every loaded
    /// frame is tagged as an intra frame, and the resolution is left zero;
    /// both are outside this layout.
    #[verifier::rlimit(100)]
    pub fn load(bytes: &[u8]) -> (r: Self)
        requires
            bytes@.len() >= 4,
            4 + 3 * be32(bytes@) <= bytes@.len(),
            forall|k: int|
                0 <= k < be32(bytes@) ==> sizes_prefix(bytes@, k) + be24(
                    #[trigger] bytes@.skip(4 + 3 * k),
                ) + 4 + 3 * be32(bytes@) <= bytes@.len(),
        ensures
            r.frames@.len() == be32(bytes@),
            r.resolution == (0usize, 0usize),
            forall|k: int|
                0 <= k < be32(bytes@) ==> (#[trigger] r.frames@[k]).frame_type
                    == FrameType::IFrame,
            forall|k: int|
                0 <= k < be32(bytes@) ==> (#[trigger] r.frames@[k]).frame_data@ == bytes@.subrange(
                    4 + 3 * be32(bytes@) + sizes_prefix(bytes@, k),
                    4 + 3 * be32(bytes@) + sizes_prefix(bytes@, k) + be24(bytes@.skip(4 + 3 * k)),
                ),
    {
        let frame_amount = crate::bytes::read_be32(bytes[0], bytes[1], bytes[2], bytes[3]) as usize;
        proof {
            assert(frame_amount == be32(bytes@));
        }
        let mut frames: Vec<Frame> = Vec::new();
        let data_start = 4 + 3 * frame_amount;
        let mut offset: usize = 0;
        for k in 0..frame_amount
            invariant
                frame_amount == be32(bytes@),
                data_start == 4 + 3 * frame_amount,
                data_start <= bytes@.len(),
                forall|p: int|
                    0 <= p < frame_amount ==> sizes_prefix(bytes@, p) + be24(
                        #[trigger] bytes@.skip(4 + 3 * p),
                    ) + 4 + 3 * (frame_amount as int) <= bytes@.len(),
                offset == sizes_prefix(bytes@, k as int),
                offset + data_start <= bytes@.len(),
                frames@.len() == k,
                forall|p: int|
                    0 <= p < k ==> (#[trigger] frames@[p]).frame_type == FrameType::IFrame,
                forall|p: int|
                    0 <= p < k ==> (#[trigger] frames@[p]).frame_data@ == bytes@.subrange(
                        4 + 3 * be32(bytes@) + sizes_prefix(bytes@, p),
                        4 + 3 * be32(bytes@) + sizes_prefix(bytes@, p) + be24(
                            bytes@.skip(4 + 3 * p),
                        ),
                    ),
        {
            proof {
                lemma_sizes_prefix_nonneg(bytes@, k as int);
                assert(bytes@.skip(4 + 3 * (k as int))[0] == bytes@[4 + 3 * (k as int)]
                    && bytes@.skip(4 + 3 * (k as int))[1] == bytes@[4 + 3 * (k as int) + 1]
                    && bytes@.skip(4 + 3 * (k as int))[2] == bytes@[4 + 3 * (k as int) + 2]);
            }
            let size = crate::bytes::read_be24(
                bytes[4 + 3 * k],
                bytes[4 + 3 * k + 1],
                bytes[4 + 3 * k + 2],
            ) as usize;
            proof {
                assert(size == be24(bytes@.skip(4 + 3 * (k as int))));
            }
            let frame_slice = &bytes[data_start + offset..data_start + offset + size];
            let f = Frame::new(frame_slice, FrameType::IFrame);
            frames.push(f);
            offset = offset + size;
            proof {
                assert(sizes_prefix(bytes@, k as int + 1) == sizes_prefix(bytes@, k as int)
                    + be24(bytes@.skip(4 + 3 * (k as int))));
            }
        }
        Video { frames, resolution: (0, 0) }
    }

    pub fn get_frame(&self, frame: usize) -> (r: &[u8])
        requires
            frame < self.frames@.len(),
        ensures
            r@ == self.frames@[frame as int].frame_data@,
    {
        self.frames[frame].frame_data.as_slice()
    }
}

/// Sum of the first `k` declared frame sizes of a dumped container.
pub open spec fn sizes_prefix(bytes: Seq<u8>, k: int) -> int
    decreases k,
{
    if k <= 0 {
        0
    } else {
        sizes_prefix(bytes, k - 1) + be24(bytes.skip(4 + 3 * (k - 1)))
    }
}

/// One step of `Video::dump` preserves the offset-table and data-area
/// invariants when frame `k`'s size and payload are appended.
#[verifier::rlimit(100)]
#[verifier::spinoff_prover]
proof fn lemma_dump_step(
    fr: Seq<Frame>,
    k: int,
    pre_off: Seq<u8>,
    new_off: Seq<u8>,
    pre_data: Seq<u8>,
    new_data: Seq<u8>,
)
    requires
        0 <= k < fr.len(),
        pre_off.len() == 3 * k,
        pre_data.len() == data_offset(fr, k),
        new_off.len() == 3 * k + 3,
        new_off.subrange(0, 3 * k) == pre_off,
        be24(new_off.skip(3 * k)) == fr[k].frame_data@.len(),
        new_data == pre_data + fr[k].frame_data@,
        forall|p: int| 0 <= p < k ==> be24(#[trigger] pre_off.skip(3 * p)) == fr[p].frame_data@.len(),
        forall|p: int|
            0 <= p < k ==> (#[trigger] fr[p]).frame_data@ == pre_data.subrange(
                data_offset(fr, p),
                data_offset(fr, p + 1),
            ),
    ensures
        new_data.len() == data_offset(fr, k + 1),
        forall|p: int| 0 <= p < k + 1 ==> be24(#[trigger] new_off.skip(3 * p)) == fr[p].frame_data@.len(),
        forall|p: int|
            0 <= p < k + 1 ==> (#[trigger] fr[p]).frame_data@ == new_data.subrange(
                data_offset(fr, p),
                data_offset(fr, p + 1),
            ),
{
    assert forall|p: int| 0 <= p < k + 1 implies be24(#[trigger] new_off.skip(3 * p)) == fr[p].frame_data@.len() by {
        if p < k {
            assert(new_off.skip(3 * p)[0] == pre_off.skip(3 * p)[0] && new_off.skip(3 * p)[1]
                == pre_off.skip(3 * p)[1] && new_off.skip(3 * p)[2] == pre_off.skip(3 * p)[2]);
        }
    }
    assert forall|p: int| 0 <= p < k + 1 implies (#[trigger] fr[p]).frame_data@
        == new_data.subrange(data_offset(fr, p), data_offset(fr, p + 1)) by {
        lemma_data_offset_bounds(fr, p);
        lemma_data_offset_mono(fr, p + 1, k + 1);
        if p < k {
            lemma_data_offset_mono(fr, p + 1, k);
            assert(new_data.subrange(data_offset(fr, p), data_offset(fr, p + 1)) =~= pre_data.subrange(
                data_offset(fr, p),
                data_offset(fr, p + 1),
            ));
        } else {
            assert(new_data.subrange(data_offset(fr, p), data_offset(fr, p + 1))
                =~= fr[p].frame_data@);
        }
    }
}

proof fn lemma_sizes_prefix_nonneg(bytes: Seq<u8>, k: int)
    requires
        forall|p: int| 0 <= p < k ==> 0 <= be24(#[trigger] bytes.skip(4 + 3 * p)),
    ensures
        sizes_prefix(bytes, k) >= 0,
    decreases k,
{
    if k > 0 {
        lemma_sizes_prefix_nonneg(bytes, k - 1);
    }
}

proof fn lemma_data_offset_bounds(frames: Seq<Frame>, k: int)
    ensures
        data_offset(frames, k) >= 0,
    decreases k,
{
    if k > 0 {
        lemma_data_offset_bounds(frames, k - 1);
    }
}

proof fn lemma_data_offset_mono(frames: Seq<Frame>, a: int, b: int)
    requires
        a <= b,
    ensures
        data_offset(frames, a) <= data_offset(frames, b),
    decreases b - a,
{
    if a < b {
        lemma_data_offset_mono(frames, a, b - 1);
    }
}

} // verus!
