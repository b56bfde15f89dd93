use rvnc::pixel::{PixCodec, PixelFormat};

#[test]
fn default_format_roundtrips() {
    let pf = PixelFormat::default_rgb();
    let mut buf = Vec::new();
    pf.write(&mut buf);
    assert_eq!(buf.len(), 16);
    assert_eq!(PixelFormat::parse(&buf), Some(pf));
}

#[test]
fn bgrx_is_direct_and_three_byte_cpixel() {
    let c = PixCodec::new(PixelFormat::default_rgb());
    assert!(c.direct);
    assert_eq!(c.cpixel_size(), 3);
    let mut out = Vec::new();
    c.push_pixel(0x00_11_22_33, &mut out);
    assert_eq!(out, vec![0x33, 0x22, 0x11, 0x00]);
    out.clear();
    c.push_cpixel(0x00_11_22_33, &mut out);
    assert_eq!(out, vec![0x33, 0x22, 0x11]);
}

fn rgb565() -> PixelFormat {
    PixelFormat {
        bits_per_pixel: 16,
        depth: 16,
        big_endian: false,
        true_colour: true,
        red_max: 31,
        green_max: 63,
        blue_max: 31,
        red_shift: 11,
        green_shift: 5,
        blue_shift: 0,
    }
}

#[test]
fn rgb565_conversion() {
    let pf = rgb565();
    let c = PixCodec::new(pf);
    assert_eq!(c.bytes_per_pixel(), 2);
    let mut out = Vec::new();
    c.push_pixel(0x00_ff_ff_ff, &mut out);
    assert_eq!(out, vec![0xff, 0xff]);
    out.clear();
    c.push_pixel(0x00_ff_00_00, &mut out);
    assert_eq!(u16::from_le_bytes([out[0], out[1]]), 31 << 11);
}

#[test]
fn big_endian_pixels() {
    let pf = PixelFormat { big_endian: true, ..PixelFormat::default_rgb() };
    let c = PixCodec::new(pf);
    let mut out = Vec::new();
    c.push_pixel(0x00_11_22_33, &mut out);
    assert_eq!(out, vec![0x00, 0x11, 0x22, 0x33]);
    out.clear();
    // Significant bytes are the low three, which sit last in big endian.
    c.push_cpixel(0x00_11_22_33, &mut out);
    assert_eq!(out, vec![0x11, 0x22, 0x33]);
}

#[test]
fn rejects_colour_map_and_odd_depths() {
    let mut buf = Vec::new();
    PixelFormat { true_colour: false, ..PixelFormat::default_rgb() }.write(&mut buf);
    assert!(PixelFormat::parse(&buf).is_none());
    buf.clear();
    PixelFormat { bits_per_pixel: 24, ..PixelFormat::default_rgb() }.write(&mut buf);
    assert!(PixelFormat::parse(&buf).is_none());
}

#[test]
fn formats_that_can_be_served_read_back() {
    for pf in [
        PixelFormat::default_rgb(),
        rgb565(),
        PixelFormat { big_endian: true, ..rgb565() },
        PixelFormat {
            bits_per_pixel: 8,
            depth: 8,
            red_max: 7,
            green_max: 7,
            blue_max: 3,
            red_shift: 5,
            green_shift: 2,
            ..rgb565()
        },
    ] {
        let mut buf = Vec::new();
        pf.write(&mut buf);
        assert_eq!(PixelFormat::parse(&buf), Some(pf));
        assert_eq!(pf.bytes_per_pixel(), pf.bits_per_pixel as usize / 8);
    }
    assert_eq!(PixelFormat::parse(&[32; 15]), None);
}

#[test]
fn a_row_is_its_pixels_one_by_one() {
    let row = [0x11_2233u32, 0xff_ffff, 0, 0x80_4020];
    for pf in [
        PixelFormat::default_rgb(),
        PixelFormat { big_endian: true, ..PixelFormat::default_rgb() },
        PixelFormat { red_shift: 0, blue_shift: 16, ..PixelFormat::default_rgb() },
        rgb565(),
    ] {
        let c = PixCodec::new(pf);
        let (mut whole, mut single) = (Vec::new(), Vec::new());
        c.push_row(&row, &mut whole);
        for px in row {
            c.push_pixel(px, &mut single);
        }
        assert_eq!(whole, single);
        assert_eq!(c.format(), pf);
    }
}

#[test]
fn swapped_channels_are_put_in_their_places() {
    let pf = PixelFormat { red_shift: 0, blue_shift: 16, ..PixelFormat::default_rgb() };
    let c = PixCodec::new(pf);
    assert!(!c.direct);
    let mut out = Vec::new();
    c.push_pixel(0x11_2233, &mut out);
    assert_eq!(out, [0x11, 0x22, 0x33, 0]);
    out.clear();
    c.push_cpixel(0x11_2233, &mut out);
    assert_eq!(out, [0x11, 0x22, 0x33]);
}
