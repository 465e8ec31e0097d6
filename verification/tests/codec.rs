use blockcodec::bitstream::{BitStreamReader, BitStreamWriter};
use blockcodec::bytes::{push_be16, push_be24, push_be32, read_be16, read_be24, read_be32};
use blockcodec::dct;
use blockcodec::format::PictureFormat;
use blockcodec::frames::{Frame, FrameType, Video};
use blockcodec::huffman;
use blockcodec::mat::Matrix;
use blockcodec::yuv::{Bitstream, YUV420Frame, YUVFrame};

fn gray_frame(width: usize, height: usize, luma: u8, cb: u8, cr: u8) -> YUV420Frame {
    let groups = (width / 2) * (height / 2);
    let mut bytes = vec![luma; 4 * groups];
    bytes.extend(vec![cb; groups]);
    bytes.extend(vec![cr; groups]);
    <YUV420Frame as Bitstream>::load(&bytes, width, height)
}

#[test]
fn bit_round_trip() {
    let pattern = [1u8, 0, 1, 1, 0, 0, 1, 0, 1, 1, 1];
    let mut w = BitStreamWriter::new();
    for (k, bit) in pattern.iter().enumerate() {
        w.write(*bit);
        assert_eq!(w.total_bits(), k + 1);
    }
    assert_eq!(w.total_bits(), pattern.len());
    let mut r = BitStreamReader::from_bytes(&w.data);
    for bit in pattern.iter() {
        assert_eq!(r.read(), *bit);
    }
    assert_eq!(r.total_bits(), pattern.len());
    assert_eq!(r.total_bytes(), 2);
}

#[test]
fn bit_writer_packs_msb_first() {
    let mut w = BitStreamWriter::new();
    for bit in [1u8, 0, 1, 1, 0, 0, 1, 0] {
        w.write(bit);
    }
    w.write(1);
    assert_eq!(w.data, vec![0b1011_0010, 0b1000_0000]);
}

#[test]
fn matrix_set_then_get() {
    let mut m: Matrix<u8> = Matrix::new(3);
    m.set(1, 2, 77);
    m.set(0, 0, 5);
    assert_eq!(m.get(1, 2), 77);
    assert_eq!(m.get(0, 0), 5);
    assert_eq!(m.get(2, 2), 0);
    assert_eq!(m.len(), 3);
    assert!(!m.is_empty());
}

#[test]
fn matrix_from_and_convert_preserve_shape() {
    let vals: [u8; 4] = [1, 2, 3, 4];
    let m = Matrix::from(&vals, 2);
    assert_eq!(m.get(0, 0), 1);
    assert_eq!(m.get(1, 0), 2);
    assert_eq!(m.get(0, 1), 3);
    assert_eq!(m.get(1, 1), 4);
    let c = m.convert(|e| e as i32 * 2);
    assert_eq!(c.len(), m.len());
    assert_eq!(c.get(1, 1), 8);
    let empty: Matrix<u8> = Matrix::new(0);
    assert!(empty.is_empty());
}

#[test]
fn huffman_round_trip_mixed() {
    let data: Vec<u8> = (0u8..=255).cycle().take(700).collect();
    let payload = huffman::encode(&data);
    assert_eq!(huffman::decode(&payload), data);
}

#[test]
fn huffman_round_trip_single_repeated_byte() {
    let data = vec![42u8; 300];
    let payload = huffman::encode(&data);
    assert_eq!(huffman::decode(&payload), data);
}

#[test]
fn huffman_round_trip_empty() {
    let data: Vec<u8> = Vec::new();
    let payload = huffman::encode(&data);
    // zero data bits, 256 leaf bytes, 511 shape bits padded to 64 bytes
    assert_eq!(&payload[0..4], &[0, 0, 0, 0]);
    assert_eq!(payload.len(), 4 + 256 + 64);
    assert_eq!(huffman::decode(&payload), data);
}

#[test]
fn huffman_payload_layout() {
    let data = vec![7u8, 7, 7, 9];
    let payload = huffman::encode(&data);
    // the bit count is stored big-endian in the first four bytes
    let bits = u32::from_be_bytes([payload[0], payload[1], payload[2], payload[3]]);
    assert!(bits >= 4);
    // 256 leaf values follow; each byte value has exactly one leaf
    let mut leaves: Vec<u8> = payload[4..260].to_vec();
    leaves.sort();
    let expected: Vec<u8> = (0u8..=255).collect();
    assert_eq!(leaves, expected);
}

#[test]
fn transform_mid_gray_block_is_fixed() {
    let flat = Matrix::from(&[128u8; 64], 8);
    let fwd = dct::encode_tail(&flat);
    for i in 0..8 {
        for j in 0..8 {
            assert_eq!(fwd.get(i, j), 128);
        }
    }
    let back = dct::decode_tail(&fwd);
    for i in 0..8 {
        for j in 0..8 {
            assert_eq!(back.get(i, j), 128);
        }
    }
}

#[test]
fn transform_flat_block_dc_coefficient() {
    // a flat block of 130 has centered value 2: only the DC coefficient
    // survives, quantized to 1 and stored re-biased as 129
    let flat = Matrix::from(&[130u8; 64], 8);
    let fwd = dct::encode_tail(&flat);
    assert_eq!(fwd.get(0, 0), 129);
    for i in 0..8 {
        for j in 0..8 {
            if (i, j) != (0, 0) {
                assert_eq!(fwd.get(i, j), 128);
            }
        }
    }
}

#[test]
fn transform_near_round_trip_bounded_error() {
    // a low-amplitude checkerboard: quantization flattens it, and the
    // reconstruction error stays within the +-2 amplitude of the input
    let mut vals = [0u8; 64];
    for k in 0..64 {
        vals[k] = if (k % 8 + k / 8) % 2 == 0 { 130 } else { 126 };
    }
    let block = Matrix::from(&vals, 8);
    let rt = dct::decode_tail(&dct::encode_tail(&block));
    for i in 0..8 {
        for j in 0..8 {
            let a = vals[j * 8 + i] as i32;
            let b = rt.get(i, j) as i32;
            assert!((a - b).abs() <= 2);
        }
    }
}

#[test]
fn conversions_center_and_rebias() {
    let m = Matrix::from(&[0u8, 127, 128, 255], 2);
    let c = dct::u8_to_i8(&Matrix::from(
        &{
            let mut v = [128u8; 64];
            v[0] = 0;
            v[1] = 255;
            v
        },
        8,
    ));
    assert_eq!(c.get(0, 0), -128);
    assert_eq!(c.get(1, 0), 127);
    assert_eq!(c.get(2, 0), 0);
    let back = dct::i8_to_u8(&c);
    assert_eq!(back.get(0, 0), 0);
    assert_eq!(back.get(1, 0), 255);
    assert_eq!(m.get(1, 1), 255);
}

#[test]
fn frame_pixel_access() {
    let mut f = gray_frame(4, 4, 100, 50, 60);
    assert_eq!(f.get_resolution(), (4, 4));
    assert_eq!(f.get_pixel_y(3, 2), 100);
    assert_eq!(f.get_pixel_u(1, 1), 50);
    assert_eq!(f.get_pixel_v(2, 3), 60);
    f.set_pixel_y(1, 2, 9);
    assert_eq!(f.get_pixel_y(1, 2), 9);
    assert_eq!(f.get_pixel_y(1, 3), 100);
    assert_eq!(f.get_pixel_y(0, 2), 100);
    f.set_pixel_u(0, 0, 77);
    f.set_pixel_v(0, 0, 88);
    assert_eq!(f.get_pixel_u(1, 1), 77);
    assert_eq!(f.get_pixel_v(1, 0), 88);
    assert_eq!(f.get_pixel_y(1, 2), 9);
}

#[test]
fn frame_dump_load_round_trip() {
    let mut f = gray_frame(4, 2, 10, 20, 30);
    f.set_pixel_y(0, 0, 1);
    f.set_pixel_y(1, 0, 2);
    f.set_pixel_y(0, 1, 3);
    f.set_pixel_y(1, 1, 4);
    f.set_pixel_y(3, 1, 5);
    let bytes = f.dump();
    // luma scanlines, then the Cb plane, then the Cr plane
    assert_eq!(bytes, vec![1, 2, 10, 10, 3, 4, 10, 5, 20, 20, 30, 30]);
    let g = <YUV420Frame as Bitstream>::load(&bytes, 4, 2);
    assert_eq!(g.dump(), bytes);
    assert_eq!(g.get_pixel_y(1, 1), 4);
    assert_eq!(g.get_pixel_u(3, 1), 20);
}

#[test]
fn frame_transform_covers_whole_tiles_only() {
    // 16x10: two 8x8 tiles cover rows 0..8; rows 8 and 9 stay untouched
    let mut f = gray_frame(16, 10, 200, 90, 91);
    for x in 0..16 {
        f.set_pixel_y(x, 8, 41);
        f.set_pixel_y(x, 9, 42);
    }
    let t = dct::encode_frame(&f);
    for x in 0..16 {
        assert_eq!(t.get_pixel_y(x, 8), 41);
        assert_eq!(t.get_pixel_y(x, 9), 42);
        assert_ne!(t.get_pixel_y(x, 0), 200);
    }
    for x in 0..16 {
        for y in 0..10 {
            assert_eq!(t.get_pixel_u(x, y), 90);
            assert_eq!(t.get_pixel_v(x, y), 91);
        }
    }
}

#[test]
fn frame_mid_gray_transforms_to_zero_coefficients() {
    let f = gray_frame(8, 8, 128, 64, 65);
    let t = dct::encode_frame(&f);
    for x in 0..8 {
        for y in 0..8 {
            assert_eq!(t.get_pixel_y(x, y), 128);
        }
    }
    let back = dct::decode_frame(&t);
    for x in 0..8 {
        for y in 0..8 {
            assert_eq!(back.get_pixel_y(x, y), 128);
            assert_eq!(back.get_pixel_u(x, y), 64);
            assert_eq!(back.get_pixel_v(x, y), 65);
        }
    }
}

#[test]
fn pipeline_round_trip_mid_gray() {
    let f = gray_frame(8, 8, 128, 100, 200);
    let payload = blockcodec::encode_frame(&f);
    let g = blockcodec::decode_frame(&payload, 8, 8);
    for x in 0..8 {
        for y in 0..8 {
            assert_eq!(g.get_pixel_y(x, y), 128);
            assert_eq!(g.get_pixel_u(x, y), 100);
            assert_eq!(g.get_pixel_v(x, y), 200);
        }
    }
}

#[test]
fn picture_format_round_trip() {
    let p = PictureFormat { pix_fmt: 1, width: 640, height: 480, data: vec![9, 8, 7] };
    let bytes = p.dump();
    assert_eq!(bytes.len(), 13);
    assert_eq!(&bytes[0..4], &[0x31, 0x0c, 0x00, b'p']);
    assert_eq!(bytes[4], 1);
    assert_eq!(bytes[5], 1);
    let q = PictureFormat::load(&bytes);
    assert_eq!(q.pix_fmt, 1);
    assert_eq!(q.width, 640);
    assert_eq!(q.height, 480);
    assert_eq!(q.data, vec![9, 8, 7]);
}

#[test]
fn video_container_round_trip() {
    let v = Video {
        frames: vec![
            Frame::new(&[1, 2, 3], FrameType::IFrame),
            Frame::new(&[], FrameType::IFrame),
            Frame::new(&[4, 5], FrameType::PFRame),
        ],
        resolution: (16, 8),
    };
    let bytes = v.dump();
    assert_eq!(&bytes[0..4], &[0, 0, 0, 3]);
    assert_eq!(bytes.len(), 4 + 9 + 5);
    let w = Video::load(&bytes);
    assert_eq!(w.frames.len(), 3);
    assert_eq!(w.get_frame(0), &[1, 2, 3]);
    assert_eq!(w.get_frame(1), &[] as &[u8]);
    assert_eq!(w.get_frame(2), &[4, 5]);
    assert!(matches!(w.frames[2].frame_type, FrameType::IFrame));
}

#[test]
fn big_endian_fields() {
    let mut v = Vec::new();
    push_be16(&mut v, 0xABCD);
    push_be24(&mut v, 0x123456);
    push_be32(&mut v, 0xDEADBEEF);
    assert_eq!(v, vec![0xAB, 0xCD, 0x12, 0x34, 0x56, 0xDE, 0xAD, 0xBE, 0xEF]);
    assert_eq!(read_be16(v[0], v[1]), 0xABCD);
    assert_eq!(read_be24(v[2], v[3], v[4]), 0x123456);
    assert_eq!(read_be32(v[5], v[6], v[7], v[8]), 0xDEADBEEF);
}

#[test]
fn trait_pixel_tuple_access() {
    let mut f = gray_frame(4, 4, 10, 20, 30);
    assert_eq!(f.get_pixel(2, 1), (10, 20, 30));
    f.set_pixel(3, 3, (1, 2, 3));
    assert_eq!(f.get_pixel(3, 3), (1, 2, 3));
    let d = f.duplicate();
    assert_eq!(d.get_pixel(3, 3), (1, 2, 3));
    assert_eq!(d.get_pixel(0, 0), (10, 20, 30));
}

#[test]
fn frame_kinds_carry_payload() {
    let f = Frame::new(&[5, 6], FrameType::PFRame);
    assert_eq!(f.frame_data, vec![5, 6]);
    assert!(matches!(f.frame_type, FrameType::PFRame));
}

#[test]
fn pipeline_payload_is_transformed_dump() {
    // encoding a frame compresses exactly the byte dump of the
    // tile-transformed frame, whatever the pixels are
    let mut f = gray_frame(16, 8, 128, 7, 9);
    for x in 0..16 {
        for y in 0..8 {
            let v = 120 + ((x * 3 + y * 5) % 16) as u8;
            f.set_pixel_y(x, y, v);
        }
    }
    let payload = blockcodec::encode_frame(&f);
    let transformed = dct::encode_frame(&f);
    assert_eq!(huffman::decode(&payload), transformed.dump());
    let g = blockcodec::decode_frame(&payload, 16, 8);
    let reconstructed = dct::decode_frame(&transformed);
    assert_eq!(g.dump(), reconstructed.dump());
    for x in 0..16 {
        for y in 0..8 {
            assert_eq!(g.get_pixel_u(x, y), 7);
            assert_eq!(g.get_pixel_v(x, y), 9);
        }
    }
}

#[test]
fn huffman_payload_length_formula() {
    let data = vec![1u8, 2, 3, 4, 5, 6, 7, 8, 9, 10];
    let payload = huffman::encode(&data);
    let bits = u32::from_be_bytes([payload[0], payload[1], payload[2], payload[3]]) as usize;
    assert_eq!(payload.len(), 324 + (bits + 7) / 8);
    // the root of a 256-leaf tree is internal: first shape bit is 0
    assert_eq!(payload[260] & 0x80, 0);
}
