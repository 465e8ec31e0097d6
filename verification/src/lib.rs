//! A block-based image/video codec: 8x8 luma blocks go through a fixed-point
//! discrete cosine transform with quantization, the frame bytes are entropy
//! coded with a per-call Huffman tree, and simple picture and video
//! containers wrap the result.
//!
//! Encoding a frame transforms its luma tiles, dumps all planes to bytes and
//! compresses them; decoding reverses each step exactly once.

pub mod bitstream;
pub mod bytes;
pub mod dct;
pub mod format;
pub mod frames;
pub mod huffman;
pub mod mat;
pub mod yuv;

use vstd::prelude::*;
use crate::dct::{dec_tail, enc_frame_y};
use crate::huffman::decode_spec;
use crate::yuv::{frame_dump, lemma_dump_coords, lemma_grid_idx, lemma_row_major, Bitstream,
    YUV420Frame, YUVFrame};

verus! {

/// The byte dump the forward-transformed frame would have: luma from the
/// per-tile forward path, chroma passed through.
pub open spec fn enc_frame_dump<T: YUVFrame>(f: T) -> Seq<u8> {
    let w = f.spec_width();
    let w2 = f.spec_width() / 2;
    let h2 = f.spec_height() / 2;
    Seq::new(
        (6 * w2 * h2) as nat,
        |n: int|
            if n < 4 * w2 * h2 {
                enc_frame_y(f, n % w, n / w)
            } else if n < 5 * w2 * h2 {
                f.spec_u(2 * ((n - 4 * w2 * h2) % w2), 2 * ((n - 4 * w2 * h2) / w2))
            } else {
                f.spec_v(2 * ((n - 5 * w2 * h2) % w2), 2 * ((n - 5 * w2 * h2) / w2))
            },
    )
}

/// The 8x8 tile of a byte-dumped luma plane of width `w` whose top-left
/// corner is at `(8 * ti, 8 * tj)`.
pub open spec fn bytes_tile(d: Seq<u8>, w: int, ti: int, tj: int) -> Seq<u8> {
    Seq::new(64, |k: int| d[(8 * tj + k / 8) * w + 8 * ti + k % 8])
}

/// Encodes one frame: the forward transform runs over every complete luma
/// tile, all planes are dumped to bytes, and the bytes are Huffman-coded
/// into a self-contained payload that decodes back to exactly that dump.
pub fn encode_frame<T: YUVFrame + Bitstream>(src: &T) -> (r: Vec<u8>)
    requires
        src.valid(),
        0 <= src.spec_width() <= usize::MAX,
        0 <= src.spec_height() <= usize::MAX,
        src.spec_width() % 2 == 0,
        src.spec_height() % 2 == 0,
        6 * (src.spec_width() / 2) * (src.spec_height() / 2) <= 0x1000000,
    ensures
        decode_spec(r@) == (Some(enc_frame_dump(*src))),
        r@.len() == 324 + (huffman::data_bits_of(enc_frame_dump(*src)) + 7) / 8,
        r@.len() <= 324 + 32 * (6 * (src.spec_width() / 2) * (src.spec_height() / 2)),
{
    let transformed = dct::encode_frame(src);
    let bytes = transformed.dump();
    proof {
        let w = src.spec_width();
        let h = src.spec_height();
        let w2 = w / 2;
        let h2 = h / 2;
        vstd::arithmetic::div_mod::lemma_fundamental_div_mod(w, 2);
        vstd::arithmetic::div_mod::lemma_fundamental_div_mod(h, 2);
        assert(w == 2 * w2 && h == 2 * h2 && 0 <= w2 && 0 <= h2);
        assert(0 <= 4 * w2 * h2 && 4 * w2 * h2 <= 6 * w2 * h2 && 0 <= 5 * w2 * h2 && 5 * w2 * h2
            <= 6 * w2 * h2 && w2 * h2 >= 0 && 4 * w2 * h2 + w2 * h2 == 5 * w2 * h2 && 5 * w2 * h2
            + w2 * h2 == 6 * w2 * h2) by (nonlinear_arith)
            requires
                0 <= w2,
                0 <= h2,
        ;
        assert forall|n: int| 0 <= n < 6 * w2 * h2 implies frame_dump(transformed)[n]
            == enc_frame_dump(*src)[n] by {
            if n < 4 * w2 * h2 {
                lemma_dump_coords(n, w, w2, h2);
                assert(w % 2 == 0 ==> w == 2 * (w / 2));
            } else if n < 5 * w2 * h2 {
                let m = n - 4 * w2 * h2;
                assert(0 <= m < w2 * h2);
                assert(w2 > 0) by (nonlinear_arith)
                    requires
                        0 <= m < w2 * h2,
                        0 <= h2,
                ;
                vstd::arithmetic::div_mod::lemma_fundamental_div_mod(m, w2);
                vstd::arithmetic::div_mod::lemma_mod_division_less_than_divisor(m, w2);
                lemma_row_major(m / w2, m % w2, w2);
                assert(0 <= m / w2 && m / w2 < h2) by (nonlinear_arith)
                    requires
                        0 <= m < w2 * h2,
                        w2 > 0,
                        m == w2 * (m / w2) + m % w2,
                        0 <= m % w2 < w2,
                ;
                assert(2 * (m % w2) < w && 2 * (m / w2) < src.spec_height()) by (nonlinear_arith)
                    requires
                        0 <= m % w2 < w2,
                        0 <= m / w2 < h2,
                        w == 2 * w2,
                        src.spec_height() == 2 * h2,
                ;
            } else {
                let m = n - 5 * w2 * h2;
                assert(0 <= m < w2 * h2);
                assert(w2 > 0) by (nonlinear_arith)
                    requires
                        0 <= m < w2 * h2,
                        0 <= h2,
                ;
                vstd::arithmetic::div_mod::lemma_fundamental_div_mod(m, w2);
                vstd::arithmetic::div_mod::lemma_mod_division_less_than_divisor(m, w2);
                lemma_row_major(m / w2, m % w2, w2);
                assert(0 <= m / w2 && m / w2 < h2) by (nonlinear_arith)
                    requires
                        0 <= m < w2 * h2,
                        w2 > 0,
                        m == w2 * (m / w2) + m % w2,
                        0 <= m % w2 < w2,
                ;
                assert(2 * (m % w2) < w && 2 * (m / w2) < src.spec_height()) by (nonlinear_arith)
                    requires
                        0 <= m % w2 < w2,
                        0 <= m / w2 < h2,
                        w == 2 * w2,
                        src.spec_height() == 2 * h2,
                ;
            }
        }
        assert(frame_dump(transformed) =~= enc_frame_dump(*src));
    }
    huffman::encode(bytes.as_slice())
}

/// Decodes one frame: the payload is Huffman-decoded once into the frame
/// byte dump, the dump is loaded, and the inverse transform runs over every
/// complete luma tile.
pub fn decode_frame(src: &[u8], width: usize, height: usize) -> (r: YUV420Frame)
    requires
        decode_spec(src@).is_some(),
        8 * src@.len() <= usize::MAX,
        width % 2 == 0,
        height % 2 == 0,
        6 * (width as int / 2) * (height as int / 2) <= usize::MAX,
        decode_spec(src@).unwrap().len() >= 6 * (width as int / 2) * (height as int / 2),
    ensures
        r.wf(),
        r.spec_width() == width,
        r.spec_height() == height,
        forall|x: int, y: int|
            0 <= x < width && 0 <= y < height ==> r.spec_y(x, y) == (if x < 8 * (width as int / 8)
                && y < 8 * (height as int / 8) {
                dec_tail(bytes_tile(decode_spec(src@).unwrap(), width as int, x / 8, y / 8))[(y % 8)
                    * 8 + x % 8]
            } else {
                decode_spec(src@).unwrap()[y * width + x]
            }),
        forall|x: int, y: int|
            0 <= x < width && 0 <= y < height ==> r.spec_u(x, y) == decode_spec(src@).unwrap()[4 * (
            width as int / 2) * (height as int / 2) + (y / 2) * (width as int / 2) + x / 2],
        forall|x: int, y: int|
            0 <= x < width && 0 <= y < height ==> r.spec_v(x, y) == decode_spec(src@).unwrap()[5 * (
            width as int / 2) * (height as int / 2) + (y / 2) * (width as int / 2) + x / 2],
{
    let ghost d = decode_spec(src@).unwrap();
    let data = huffman::decode(src);
    let loaded = <YUV420Frame as Bitstream>::load(data.as_slice(), width, height);
    let ghost w = width as int;
    let ghost h = height as int;
    let ghost w2 = w / 2;
    let ghost h2 = h / 2;
    proof {
        vstd::arithmetic::div_mod::lemma_fundamental_div_mod(w, 2);
        vstd::arithmetic::div_mod::lemma_fundamental_div_mod(h, 2);
        assert(w == 2 * w2 && h == 2 * h2);
        assert((4 * w2 * h2 <= 6 * w2 * h2) && (5 * w2 * h2 + w2 * h2 == 6 * w2 * h2) && (4 * w2
            * h2 + w2 * h2 == 5 * w2 * h2) && 0 <= w2 * h2) by (nonlinear_arith)
            requires
                0 <= w2,
                0 <= h2,
        ;
        assert forall|x: int, y: int| 0 <= x < w && 0 <= y < h implies loaded.spec_y(x, y) == d[y
            * w + x] by {
            assert(0 <= y * w + x < 4 * w2 * h2) by (nonlinear_arith)
                requires
                    0 <= x < w,
                    0 <= y < h,
                    w == 2 * w2,
                    h == 2 * h2,
            ;
            lemma_dump_coords(y * w + x, w, w2, h2);
            vstd::arithmetic::div_mod::lemma_fundamental_div_mod_converse(y * w + x, w, y, x);
            assert(frame_dump(loaded)[y * w + x] == d.subrange(0, 6 * w2 * h2)[y * w + x]);
        }
        assert forall|x: int, y: int| 0 <= x < w && 0 <= y < h implies (loaded.spec_u(x, y) == d[4
            * w2 * h2 + (y / 2) * w2 + x / 2] && loaded.spec_v(x, y) == d[5 * w2 * h2 + (y / 2)
            * w2 + x / 2]) by {
            let gx = x / 2;
            let gy = y / 2;
            assert(0 <= gx < w2 && 0 <= gy < h2) by (nonlinear_arith)
                requires
                    0 <= x < w,
                    0 <= y < h,
                    w == 2 * w2,
                    h == 2 * h2,
                    gx == x / 2,
                    gy == y / 2,
                    x == 2 * gx + x % 2,
                    y == 2 * gy + y % 2,
                    0 <= x % 2 < 2,
                    0 <= y % 2 < 2,
            {
                vstd::arithmetic::div_mod::lemma_fundamental_div_mod(x, 2);
                vstd::arithmetic::div_mod::lemma_fundamental_div_mod(y, 2);
            }
            lemma_grid_idx(gx, gy, w2, h2);
            let m = gy * w2 + gx;
            lemma_row_major(gy, gx, w2);
            assert(frame_dump(loaded)[4 * w2 * h2 + m] == d.subrange(0, 6 * w2 * h2)[4 * w2 * h2
                + m]);
            assert(frame_dump(loaded)[5 * w2 * h2 + m] == d.subrange(0, 6 * w2 * h2)[5 * w2 * h2
                + m]);
            assert((2 * gx) / 2 == gx && (2 * gy) / 2 == gy);
            assert(loaded.spec_u(2 * gx, 2 * gy) == d[4 * w2 * h2 + m]);
            assert(loaded.spec_v(2 * gx, 2 * gy) == d[5 * w2 * h2 + m]);
            assert(crate::yuv::group_idx(x, y, w) == crate::yuv::group_idx(2 * gx, 2 * gy, w));
        }
    }
    let out = dct::decode_frame(&loaded);
    proof {
        assert forall|ti: int, tj: int| 0 <= ti < w / 8 && 0 <= tj < h / 8 implies #[trigger] dct::tile_of(
            loaded,
            ti,
            tj,
        ) == bytes_tile(d, w, ti, tj) by {
            assert forall|k: int| 0 <= k < 64 implies dct::tile_of(loaded, ti, tj)[k] == bytes_tile(
                d,
                w,
                ti,
                tj,
            )[k] by {
                let px = 8 * ti + k % 8;
                let py = 8 * tj + k / 8;
                assert(0 <= px < w && 0 <= py < h) by (nonlinear_arith)
                    requires
                        0 <= ti < w / 8,
                        0 <= tj < h / 8,
                        px == 8 * ti + k % 8,
                        py == 8 * tj + k / 8,
                        0 <= k % 8 < 8,
                        0 <= k / 8 < 8,
                        w == 8 * (w / 8) + w % 8,
                        h == 8 * (h / 8) + h % 8,
                        0 <= w % 8,
                        0 <= h % 8,
                {
                    vstd::arithmetic::div_mod::lemma_fundamental_div_mod(w, 8);
                    vstd::arithmetic::div_mod::lemma_fundamental_div_mod(h, 8);
                }
            }
            assert(dct::tile_of(loaded, ti, tj) =~= bytes_tile(d, w, ti, tj));
        }
        assert forall|x: int, y: int|
            0 <= x < w && 0 <= y < h && x < 8 * (w / 8) && y < 8 * (h / 8) implies (0 <= #[trigger] (
            x / 8) < w / 8 && 0 <= #[trigger] (y / 8) < h / 8) by {
            assert(x / 8 < w / 8 && y / 8 < h / 8 && 0 <= x / 8 && 0 <= y / 8)
                by (nonlinear_arith)
                requires
                    0 <= x < 8 * (w / 8),
                    0 <= y < 8 * (h / 8),
                    x == 8 * (x / 8) + x % 8,
                    y == 8 * (y / 8) + y % 8,
                    0 <= x % 8 < 8,
                    0 <= y % 8 < 8,
            {
                vstd::arithmetic::div_mod::lemma_fundamental_div_mod(x, 8);
                vstd::arithmetic::div_mod::lemma_fundamental_div_mod(y, 8);
            }
        }
    }
    out
}

} // verus!
