//! Picture container: a fixed 10-byte header (magic, version, pixel format,
//! dimensions) in front of an opaque encoded payload.

use vstd::prelude::*;
use crate::bytes::{be16, push_be16};

verus! {

/// Container format of encoded pictures: 4 magic bytes, a version byte, a
/// pixel-format byte, big-endian 16-bit width and height, then the encoded
/// data. The only pixel format written is 4:2:0 planar, tag 1.
pub struct PictureFormat {
    pub pix_fmt: u8,
    pub width: u16,
    pub height: u16,
    pub data: Vec<u8>,
}

/// First magic byte; the four are 0x31, 0x0c, 0x00 and the letter p.
pub const MAGIC_0: u8 = 0x31;

pub const MAGIC_1: u8 = 0x0c;

pub const MAGIC_2: u8 = 0x00;

pub const MAGIC_3: u8 = 0x70;

pub const VERSION: u8 = 1;

pub const PIX_FMT_YUV420P: u8 = 1;

impl PictureFormat {
    /// Reads the header fields and takes the rest as payload. The magic and
    /// version bytes are not validated here; container callers check them
    /// before calling in.
    pub fn load(bytes: &[u8]) -> (r: Self)
        requires
            bytes@.len() >= 10,
        ensures
            r.pix_fmt == bytes@[5],
            r.width == be16(bytes@.subrange(6, 8)),
            r.height == be16(bytes@.subrange(8, 10)),
            r.data@ == bytes@.skip(10),
    {
        let pix_fmt = bytes[5];
        let width = crate::bytes::read_be16(bytes[6], bytes[7]);
        let height = crate::bytes::read_be16(bytes[8], bytes[9]);
        let mut data: Vec<u8> = Vec::new();
        let n = bytes.len();
        for k in 10..n
            invariant
                n == bytes@.len(),
                n >= 10,
                data@ =~= bytes@.subrange(10, k as int),
        {
            data.push(bytes[k]);
        }
        proof {
            assert(data@ =~= bytes@.skip(10));
            assert(bytes@.subrange(6, 8)[0] == bytes@[6] && bytes@.subrange(6, 8)[1] == bytes@[7]);
            assert(bytes@.subrange(8, 10)[0] == bytes@[8] && bytes@.subrange(8, 10)[1]
                == bytes@[9]);
        }
        PictureFormat { pix_fmt, width, height, data }
    }

    /// Writes the 10-byte header followed by the payload.
    pub fn dump(&self) -> (r: Vec<u8>)
        requires
            self.data@.len() + 10 <= usize::MAX,
        ensures
            r@.len() == 10 + self.data@.len(),
            r@[0] == MAGIC_0 && r@[1] == MAGIC_1 && r@[2] == MAGIC_2 && r@[3] == MAGIC_3,
            r@[4] == VERSION,
            r@[5] == PIX_FMT_YUV420P,
            be16(r@.subrange(6, 8)) == self.width,
            be16(r@.subrange(8, 10)) == self.height,
            r@.skip(10) == self.data@,
    {
        let mut bytes: Vec<u8> = Vec::new();
        bytes.push(MAGIC_0);
        bytes.push(MAGIC_1);
        bytes.push(MAGIC_2);
        bytes.push(MAGIC_3);
        bytes.push(VERSION);
        bytes.push(PIX_FMT_YUV420P);
        let ghost first6 = bytes@;
        push_be16(&mut bytes, self.width);
        let ghost with_w = bytes@;
        push_be16(&mut bytes, self.height);
        let ghost head = bytes@;
        let n = self.data.len();
        for k in 0..n
            invariant
                n == self.data@.len(),
                head.len() == 10,
                bytes@ =~= head + self.data@.subrange(0, k as int),
        {
            bytes.push(self.data[k]);
        }
        proof {
            assert(bytes@ =~= head + self.data@);
            assert(bytes@.skip(10) =~= self.data@);
            assert(head.subrange(6, 8) =~= with_w.skip(6));
            assert(bytes@.subrange(6, 8) =~= head.subrange(6, 8));
            assert(bytes@.subrange(8, 10) =~= head.skip(8));
            assert(with_w.subrange(0, 6) == first6);
            assert(head.subrange(0, 8) == with_w);
            assert(forall|k: int| 0 <= k < 6 ==> #[trigger] with_w[k] == first6[k]);
            assert(forall|k: int| 0 <= k < 8 ==> #[trigger] head[k] == with_w[k]);
            assert(forall|k: int| 0 <= k < 10 ==> #[trigger] bytes@[k] == head[k]);
        }
        bytes
    }
}

} // verus!
