use rvnc::pixel::{PixCodec, PixelFormat};
use rvnc::rfb::tile::{encode_tile, pack_indices, rle_size, write_palette_rle};
use rvnc::rfb::zrle::ZrleEncoder;
use rvnc::screen::{Frame, Rect};

fn codec() -> PixCodec {
    PixCodec::new(PixelFormat::default_rgb())
}

fn encoded(tile: &[u32], w: usize, h: usize) -> Vec<u8> {
    let mut out = Vec::new();
    encode_tile(tile, w, h, &codec(), &mut Vec::new(), &mut Vec::new(), &mut out);
    out
}

#[test]
fn solid_tile_is_one_subencoding_plus_pixel() {
    let tile = vec![0x00_11_22_33u32; 64 * 64];
    assert_eq!(encoded(&tile, 64, 64), vec![1, 0x33, 0x22, 0x11]);
}

#[test]
fn two_colour_tile_packs_one_bit_per_pixel() {
    let mut tile = vec![0u32; 8 * 2];
    for i in 0..8 {
        tile[i] = if i % 2 == 0 { 0 } else { 0xffffff };
    }
    let out = encoded(&tile, 8, 2);
    // subencoding 2, two 3-byte palette entries, then one byte per row.
    assert_eq!(out[0], 2);
    assert_eq!(out.len(), 1 + 6 + 2);
    assert_eq!(out[7], 0b0101_0101);
    assert_eq!(out[8], 0b0000_0000);
}

#[test]
fn noise_tile_falls_back_to_raw() {
    let tile: Vec<u32> = (0..64 * 64).map(|i| i as u32 * 7919 & 0xffffff).collect();
    let out = encoded(&tile, 64, 64);
    assert_eq!(out[0], 0);
    assert_eq!(out.len(), 1 + 64 * 64 * 3);
}

#[test]
fn rle_run_lengths_use_255_chunks() {
    let mut out = Vec::new();
    write_palette_rle(&vec![3u8; 300], &mut out);
    // index|0x80, then 299 encoded as 255 + 44
    assert_eq!(out, vec![0x83, 255, 44]);
}

#[test]
fn encoded_rect_is_a_valid_zlib_stream() {
    let mut frame = Frame::new(128, 128);
    for (i, px) in frame.px.iter_mut().enumerate() {
        *px = (i as u32 % 3) * 0x404040;
    }
    let mut enc = ZrleEncoder::new();
    let mut out = Vec::new();
    enc.encode(&frame, &codec(), Rect { x: 0, y: 0, w: 128, h: 128 }, &mut out);
    let len = u32::from_be_bytes([out[0], out[1], out[2], out[3]]) as usize;
    assert_eq!(len + 4, out.len());
    let mut d = flate2::Decompress::new(true);
    let mut plain = Vec::with_capacity(1 << 20);
    d.decompress_vec(&out[4..], &mut plain, flate2::FlushDecompress::Sync).unwrap();
    // 4 tiles, each with at least a subencoding byte.
    assert!(plain.len() > 4);
}

/// Reads ZRLE the way a client does.
struct Reader<'a> {
    b: &'a [u8],
    at: usize,
}

impl Reader<'_> {
    fn byte(&mut self) -> u8 {
        self.at += 1;
        self.b[self.at - 1]
    }

    fn cpixel(&mut self) -> u32 {
        let p = [self.byte(), self.byte(), self.byte(), 0];
        u32::from_le_bytes(p)
    }

    fn run(&mut self) -> usize {
        let mut n = 1;
        loop {
            let b = self.byte();
            n += b as usize;
            if b != 255 {
                return n;
            }
        }
    }

    fn tile(&mut self, w: usize, h: usize) -> Vec<u32> {
        let kind = self.byte();
        let colours = match kind {
            0 | 128 => 0,
            1..=16 => kind as usize,
            _ => kind as usize - 128,
        };
        let palette: Vec<u32> = (0..colours).map(|_| self.cpixel()).collect();
        let mut px = Vec::new();
        match kind {
            0 => px.extend((0..w * h).map(|_| self.cpixel())),
            1 => px = vec![palette[0]; w * h],
            2..=16 => {
                let bits = if kind == 2 { 1 } else if kind <= 4 { 2 } else { 4 };
                for _ in 0..h {
                    let row: Vec<u8> = (0..(w * bits).div_ceil(8)).map(|_| self.byte()).collect();
                    for x in 0..w {
                        let at = x * bits;
                        let v = row[at / 8] >> (8 - bits - at % 8) & ((1 << bits) - 1);
                        px.push(palette[v as usize]);
                    }
                }
            }
            128 => {
                while px.len() < w * h {
                    let c = self.cpixel();
                    let n = self.run();
                    px.extend(vec![c; n]);
                }
            }
            _ => {
                while px.len() < w * h {
                    let i = self.byte();
                    let n = if i & 128 != 0 { self.run() } else { 1 };
                    px.extend(vec![palette[(i & 127) as usize]; n]);
                }
            }
        }
        assert_eq!(px.len(), w * h);
        px
    }
}

fn frames() -> Vec<Frame> {
    let paint: [fn(u32, u32) -> u32; 6] = [
        |_, _| 0x12_3456,
        |x, y| (x / 5 + y) % 2 * 0xff_ffff,
        |x, y| (x * y) % 4 * 0x11_1111,
        |x, y| (x / 9 + y / 4) % 13 * 0x1_0203,
        |x, y| x / 40 * 0x40_4040 + y % 60,
        |x, y| (x * 7919 + y * 104_729) & 0xff_ffff,
    ];
    paint
        .iter()
        .map(|f| {
            let mut frame = Frame::new(150, 90);
            for y in 0..90 {
                for x in 0..150 {
                    frame.put(x, y, f(x, y));
                }
            }
            frame
        })
        .collect()
}

#[test]
fn a_client_reads_back_what_the_screen_shows() {
    let mut enc = ZrleEncoder::new();
    let mut stream = flate2::Decompress::new(true);
    let r = Rect { x: 3, y: 5, w: 140, h: 80 };
    for frame in frames() {
        let mut out = Vec::new();
        assert!(enc.encode(&frame, &codec(), r, &mut out));
        let mut plain = Vec::with_capacity(1 << 20);
        stream.decompress_vec(&out[4..], &mut plain, flate2::FlushDecompress::Sync).unwrap();
        let mut reader = Reader { b: &plain, at: 0 };
        for ty in (0..r.h).step_by(64) {
            for tx in (0..r.w).step_by(64) {
                let (w, h) = ((r.w - tx).min(64), (r.h - ty).min(64));
                let tile = reader.tile(w as usize, h as usize);
                for y in 0..h {
                    let from = (y * w) as usize;
                    assert_eq!(
                        &tile[from..from + w as usize],
                        frame.row(r.y + ty + y, r.x + tx, w)
                    );
                }
            }
        }
        assert_eq!(reader.at, plain.len());
    }
}

#[test]
fn the_smallest_coding_is_sent() {
    // Long runs of three colours: a palette with runs beats packed pixels.
    let mut tile = vec![0u32; 64 * 64];
    tile[1000..2000].fill(1);
    tile[2000..3000].fill(2);
    let out = encoded(&tile, 64, 64);
    assert_eq!(out[0], 128 + 3);
    assert_eq!(out.len(), 1 + 9 + (1 + 4) + (1 + 4) + (1 + 4) + (1 + 5));
    // Single pixels of two colours do not.
    let tile: Vec<u32> = (0..64 * 64).map(|i| (i as u32).wrapping_mul(2_654_435_761) >> 31).collect();
    let out = encoded(&tile, 64, 64);
    assert_eq!(out[0], 2);
    assert_eq!(out.len(), 1 + 6 + 8 * 64);
}

#[test]
fn indices_are_packed_row_by_row() {
    let mut out = Vec::new();
    pack_indices(&[1, 0, 3, 2, 1, 1], 3, 2, 2, &mut out);
    assert_eq!(out, [0b0100_1100, 0b1001_0100]);
}

#[test]
fn noise_comes_through_whole_whatever_its_size() {
    // Noise does not shrink, so its blocks end all over the compressor's buffers.
    let mut seed = 1u32;
    let mut frame = Frame::new(512, 512);
    for px in frame.px.iter_mut() {
        seed ^= seed << 13;
        seed ^= seed >> 17;
        seed ^= seed << 5;
        *px = seed & 0xff_ffff;
    }
    let mut enc = ZrleEncoder::new();
    let mut stream = flate2::Decompress::new(true);
    let sizes = (1..512).step_by(7).map(|w| (w, 40)).chain((1..300).map(|h| (90, h)));
    for (w, h) in sizes {
        let mut out = Vec::new();
        assert!(enc.encode(&frame, &codec(), Rect { x: 0, y: 0, w, h }, &mut out));
        let mut plain = Vec::with_capacity(1 << 20);
        stream.decompress_vec(&out[4..], &mut plain, flate2::FlushDecompress::Sync).unwrap();
        let mut reader = Reader { b: &plain, at: 0 };
        for ty in (0..h).step_by(64) {
            for tx in (0..w).step_by(64) {
                let (tw, th) = ((w - tx).min(64), (h - ty).min(64));
                let tile = reader.tile(tw as usize, th as usize);
                assert_eq!(tile[0], frame.row(ty, tx, 1)[0]);
                assert_eq!(tile[tile.len() - 1], frame.row(ty + th - 1, tx + tw - 1, 1)[0]);
            }
        }
        assert_eq!(reader.at, plain.len(), "{w}x{h}");
    }
}

#[test]
fn the_size_of_runs_is_what_is_written() {
    for indices in [vec![], vec![1], vec![1, 1], vec![0, 1, 1, 1, 2], vec![5; 256], vec![5; 257]] {
        let mut out = vec![9, 9];
        write_palette_rle(&indices, &mut out);
        assert_eq!(rle_size(&indices), out.len() - 2);
        assert!(rle_size(&indices) <= indices.len());
    }
}

#[test]
fn a_rectangle_without_area_is_one_empty_block() {
    let frame = Frame::new(8, 8);
    let mut enc = ZrleEncoder::new();
    let mut out = Vec::new();
    let none = Rect { x: 3, y: 3, w: 0, h: 5 };
    assert!(enc.encode(&frame, &codec(), none, &mut out));
    // The head of the stream, then a stored block of no bytes.
    assert_eq!(out[..4], [0, 0, 0, 7]);
    assert_eq!(out[6..], [0, 0, 0, 255, 255]);
    out.clear();
    assert!(enc.encode(&frame, &codec(), none, &mut out));
    assert_eq!(out, [0, 0, 0, 5, 0, 0, 0, 255, 255]);
}
