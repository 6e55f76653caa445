use tinyrenderer::tgaimage::{TGAColor, TGAImage, TGAImageType, TgaError};

fn checkerboard(w: usize, h: usize, bpp: u8) -> TGAImage {
    let mut img = TGAImage::new(w, h, bpp);
    for y in 0..h {
        for x in 0..w {
            let r = ((x * 64) % 256) as u8;
            let g = ((y * 64) % 256) as u8;
            let b = 128u8;
            let a = 255u8;
            img.set(x, y, TGAColor::new(r, g, b, a));
        }
    }
    img
}

fn pixels(img: &TGAImage, w: usize, h: usize) -> Vec<TGAColor> {
    let mut result = Vec::with_capacity(w * h);
    for y in 0..h {
        for x in 0..w {
            result.push(img.get(x, y).unwrap());
        }
    }
    result
}

fn roundtrip(img: &TGAImage, vflip: bool, rle: bool) -> TGAImage {
    let bytes = img.to_tga_bytes(vflip, rle).unwrap();
    TGAImage::from_tga_bytes(&bytes).unwrap()
}

#[test]
fn test_create_and_get_pixel() {
    let img = checkerboard(4, 4, 4);
    let c = img.get(1, 1).unwrap();
    assert_eq!(c.r, 64);
    assert_eq!(c.g, 64);
    assert_eq!(c.b, 128);
    assert_eq!(c.a, 255);

    let c0 = img.get(0, 0).unwrap();
    assert_eq!(c0, TGAColor::new(0, 0, 128, 255));
}

#[test]
fn test_get_out_of_bounds() {
    let img = checkerboard(2, 2, 4);
    assert!(img.get(2, 2).is_none());
    assert!(img.get(5, 0).is_none());
    assert!(img.get(0, 5).is_none());
}

#[test]
fn test_set_out_of_bounds_no_panic() {
    let mut img = checkerboard(2, 2, 4);
    img.set(10, 10, TGAColor::new(255, 0, 0, 255));
    assert!(img.get(10, 10).is_none());
}

#[test]
fn test_width_height_bpp() {
    let img = TGAImage::new(10, 20, 3);
    assert_eq!(img.width(), 10);
    assert_eq!(img.height(), 20);
    assert_eq!(img.bytes_per_pixel(), 3);
}

#[test]
fn test_flip_horizontally() {
    let mut img = checkerboard(4, 4, 4);
    let tl = img.get(0, 0).unwrap();
    let tr = img.get(3, 0).unwrap();

    img.flip_horizontally();

    assert_eq!(img.get(3, 0).unwrap(), tl);
    assert_eq!(img.get(0, 0).unwrap(), tr);
}

#[test]
fn test_flip_vertically() {
    let mut img = checkerboard(4, 4, 4);
    let tl = img.get(0, 0).unwrap();
    let bl = img.get(0, 3).unwrap();

    img.flip_vertically();

    assert_eq!(img.get(0, 3).unwrap(), tl);
    assert_eq!(img.get(0, 0).unwrap(), bl);
}

#[test]
fn test_double_flip_is_identity() {
    let mut img = checkerboard(5, 5, 4);
    let before = pixels(&img, 5, 5);

    img.flip_horizontally();
    img.flip_horizontally();
    assert_eq!(pixels(&img, 5, 5), before);

    img.flip_vertically();
    img.flip_vertically();
    assert_eq!(pixels(&img, 5, 5), before);
}

#[test]
fn test_grayscale_roundtrip() {
    let mut img = TGAImage::new(3, 3, 1);
    img.set(0, 0, TGAColor::new(0, 0, 0, 0));
    img.set(1, 1, TGAColor::new(0, 0, 128, 0));
    img.set(2, 2, TGAColor::new(0, 0, 255, 0));

    let loaded = roundtrip(&img, false, false);
    assert_eq!(loaded.width(), 3);
    assert_eq!(loaded.height(), 3);
    assert_eq!(loaded.bytes_per_pixel(), 1);
    assert_eq!(loaded.get(1, 1).unwrap().b, 128);
}

#[test]
fn test_rgb_roundtrip() {
    let img = checkerboard(4, 4, 3);
    let loaded = roundtrip(&img, false, false);
    assert_eq!(loaded.width(), 4);
    assert_eq!(loaded.height(), 4);
    assert_eq!(loaded.bytes_per_pixel(), 3);

    for y in 0..4 {
        for x in 0..4 {
            assert_eq!(img.get(x, y).unwrap(), loaded.get(x, y).unwrap());
        }
    }
}

#[test]
fn test_rgba_roundtrip() {
    let img = checkerboard(4, 4, 4);
    let loaded = roundtrip(&img, false, false);
    assert_eq!(loaded.width(), 4);
    assert_eq!(loaded.height(), 4);
    assert_eq!(loaded.bytes_per_pixel(), 4);

    for y in 0..4 {
        for x in 0..4 {
            assert_eq!(img.get(x, y).unwrap(), loaded.get(x, y).unwrap());
        }
    }
}

#[test]
fn test_rle_roundtrip() {
    let img = checkerboard(4, 4, 4);
    let loaded = roundtrip(&img, false, true);
    assert_eq!(loaded.width(), 4);
    assert_eq!(loaded.height(), 4);
    assert_eq!(loaded.bytes_per_pixel(), 4);

    for y in 0..4 {
        for x in 0..4 {
            assert_eq!(img.get(x, y).unwrap(), loaded.get(x, y).unwrap());
        }
    }
}

#[test]
fn test_rle_uniform_image() {
    let mut img = TGAImage::new(8, 8, 4);
    let red = TGAColor::new(255, 0, 0, 255);
    for y in 0..8 {
        for x in 0..8 {
            img.set(x, y, red);
        }
    }

    let loaded = roundtrip(&img, false, true);
    assert_eq!(loaded.width(), 8);
    assert_eq!(loaded.height(), 8);

    for y in 0..8 {
        for x in 0..8 {
            assert_eq!(loaded.get(x, y).unwrap(), red);
        }
    }
}

#[test]
fn test_unsupported_format() {
    // A header with data type code 1 (colour-mapped), which is not supported.
    let mut header = [0u8; 18];
    header[2] = 1;
    let result = TGAImage::from_tga_bytes(&header);
    assert!(result.is_err());
    assert!(matches!(result, Err(TgaError::UnsupportedFormat(1))));
}

#[test]
fn test_empty_image() {
    let img = TGAImage::new(0, 0, 4);
    assert!(img.get(0, 0).is_none());
    assert_eq!(img.width(), 0);
    assert_eq!(img.height(), 0);
}

#[test]
fn test_set_modifies_pixel() {
    let mut img = TGAImage::new(2, 2, 4);
    let blue = TGAColor::new(0, 0, 255, 255);
    img.set(1, 0, blue);
    assert_eq!(img.get(1, 0).unwrap(), blue);
    assert_ne!(img.get(0, 0).unwrap(), blue);
}

#[test]
fn test_default_color_is_black() {
    let c = TGAColor::default();
    assert_eq!(c.r, 0);
    assert_eq!(c.g, 0);
    assert_eq!(c.b, 0);
    assert_eq!(c.a, 0);
}

#[test]
fn test_large_image_rle_roundtrip() {
    let w = 64;
    let h = 64;
    let mut img = TGAImage::new(w, h, 4);
    for y in 0..h {
        for x in 0..w {
            let r = (x * 4) as u8;
            let g = (y * 4) as u8;
            let b = ((x + y) * 2) as u8;
            let a = 255;
            img.set(x, y, TGAColor::new(r, g, b, a));
        }
    }

    let loaded = roundtrip(&img, false, true);
    assert_eq!(loaded.width(), w);
    assert_eq!(loaded.height(), h);

    for y in 0..h {
        for x in 0..w {
            assert_eq!(img.get(x, y).unwrap(), loaded.get(x, y).unwrap());
        }
    }
}

#[test]
fn test_vflip_false_roundtrip() {
    let img = checkerboard(4, 4, 4);
    let loaded = roundtrip(&img, false, false);

    for y in 0..4 {
        for x in 0..4 {
            assert_eq!(img.get(x, y).unwrap(), loaded.get(x, y).unwrap());
        }
    }
}

// ---- further cases ----

#[test]
fn vflip_true_roundtrip_reverses_rows() {
    let img = checkerboard(3, 4, 3);
    for rle in [false, true] {
        let loaded = roundtrip(&img, true, rle);
        for y in 0..4 {
            for x in 0..3 {
                assert_eq!(loaded.get(x, y).unwrap(), img.get(x, 3 - y).unwrap());
            }
        }
    }
}

#[test]
fn rgb_set_drops_alpha() {
    let mut img = TGAImage::new(2, 1, 3);
    img.set(0, 0, TGAColor::new(1, 2, 3, 4));
    assert_eq!(img.get(0, 0).unwrap(), TGAColor::new(1, 2, 3, 0));
    let mut gray = TGAImage::new(2, 1, 1);
    gray.set(1, 0, TGAColor::new(1, 2, 3, 4));
    assert_eq!(gray.get(1, 0).unwrap(), TGAColor::new(0, 0, 3, 0));
}

#[test]
fn zero_bpp_image_has_no_pixels() {
    let mut img = TGAImage::new(3, 3, 0);
    img.set(1, 1, TGAColor::new(9, 9, 9, 9));
    assert!(img.get(1, 1).is_none());
}

#[test]
fn background_color_fills_every_pixel() {
    let mut img = checkerboard(3, 2, 4);
    let c = TGAColor::new(10, 20, 30, 40);
    img.set_background_color(&c);
    for y in 0..2 {
        for x in 0..3 {
            assert_eq!(img.get(x, y).unwrap(), c);
        }
    }
}

#[test]
fn flip_horizontally_odd_width_keeps_middle_column() {
    let mut img = checkerboard(3, 2, 4);
    let mid = img.get(1, 1).unwrap();
    let left = img.get(0, 1).unwrap();
    img.flip_horizontally();
    assert_eq!(img.get(1, 1).unwrap(), mid);
    assert_eq!(img.get(2, 1).unwrap(), left);
}

#[test]
fn header_bytes_are_exact() {
    let img = TGAImage::new(2, 1, 3);
    let bytes = img.to_tga_bytes(false, false).unwrap();
    assert_eq!(&bytes[..18], &[0, 0, 2, 0, 0, 0, 0, 0, 0, 0, 0, 0, 2, 0, 1, 0, 24, 32]);
    assert_eq!(bytes.len(), 18 + 6 + 26);
    assert_eq!(&bytes[24 + 8..], b"TRUEVISION-XFILE.\0");

    let rgba = TGAImage::new(300, 2, 4);
    let bytes = rgba.to_tga_bytes(true, true).unwrap();
    assert_eq!(&bytes[..18], &[0, 0, 10, 0, 0, 0, 0, 0, 0, 0, 0, 0, 44, 1, 2, 0, 32, 8]);

    let gray = TGAImage::new(1, 1, 1);
    let bytes = gray.to_tga_bytes(false, true).unwrap();
    assert_eq!(bytes[2], 11);
    let bytes = gray.to_tga_bytes(false, false).unwrap();
    assert_eq!(bytes[2], 3);
}

#[test]
fn rle_packets_are_exact() {
    // 1, 2, 2, 2: a raw packet of one pixel, then a run of three.
    let mut img = TGAImage::new(4, 1, 1);
    img.set(0, 0, TGAColor::new(0, 0, 1, 0));
    img.set(1, 0, TGAColor::new(0, 0, 2, 0));
    img.set(2, 0, TGAColor::new(0, 0, 2, 0));
    img.set(3, 0, TGAColor::new(0, 0, 2, 0));
    let bytes = img.to_tga_bytes(false, true).unwrap();
    assert_eq!(&bytes[18..bytes.len() - 26], &[0, 1, 130, 2]);

    // 1, 2, 3: one raw packet of three pixels.
    let mut img = TGAImage::new(3, 1, 1);
    img.set(0, 0, TGAColor::new(0, 0, 1, 0));
    img.set(1, 0, TGAColor::new(0, 0, 2, 0));
    img.set(2, 0, TGAColor::new(0, 0, 3, 0));
    let bytes = img.to_tga_bytes(false, true).unwrap();
    assert_eq!(&bytes[18..bytes.len() - 26], &[2, 1, 2, 3]);

    // 200 equal pixels: runs of at most 128.
    let img = TGAImage::new(200, 1, 1);
    let bytes = img.to_tga_bytes(false, true).unwrap();
    assert_eq!(&bytes[18..bytes.len() - 26], &[255, 0, 199, 0]);
}

#[test]
fn invalid_bpp_cannot_be_written() {
    let img = TGAImage::new(2, 2, 2);
    let r = img.to_tga_bytes(false, false);
    match r {
        Err(TgaError::BadHeader(msg)) => {
            assert_eq!(msg, "invalid bytes per pixel: must be 1 (grayscale), 3 (RGB), or 4 (RGBA)")
        }
        _ => panic!("expected BadHeader"),
    }
}

#[test]
fn reader_errors() {
    // shorter than a header
    assert!(matches!(TGAImage::from_tga_bytes(&[0u8; 10]), Err(TgaError::Io(_))));

    // 16 bits per pixel
    let mut h = [0u8; 18];
    h[2] = 2;
    h[12] = 1;
    h[14] = 1;
    h[16] = 16;
    match TGAImage::from_tga_bytes(&h) {
        Err(TgaError::BadHeader(msg)) => assert_eq!(msg, "bad bpp or width/height value"),
        _ => panic!("expected BadHeader"),
    }

    // zero width
    h[16] = 24;
    h[12] = 0;
    assert!(matches!(TGAImage::from_tga_bytes(&h), Err(TgaError::BadHeader(_))));

    // raw data missing
    h[12] = 1;
    assert!(matches!(TGAImage::from_tga_bytes(&h), Err(TgaError::Io(_))));

    // a run of two pixels in a one-pixel image
    let mut v = h.to_vec();
    v[2] = 10;
    v.extend_from_slice(&[129, 1, 2, 3]);
    match TGAImage::from_tga_bytes(&v) {
        Err(TgaError::BadData(msg)) => assert_eq!(msg, "too many pixels read"),
        _ => panic!("expected BadData"),
    }
}

#[test]
fn reader_honours_descriptor_and_offset() {
    // 2x1 grayscale, image id of 2 bytes, pixels stored right to left (bit 4)
    // and top row first (bit 5).
    let mut v = vec![2u8, 0, 3, 0, 0, 0, 0, 0, 0, 0, 0, 0, 2, 0, 1, 0, 8, 0x30];
    v.extend_from_slice(&[99, 99, 7, 9]);
    let img = TGAImage::from_tga_bytes(&v).unwrap();
    assert_eq!(img.get(0, 0).unwrap().b, 9);
    assert_eq!(img.get(1, 0).unwrap().b, 7);

    // 1x2, bottom row first (bit 5 clear)
    let mut v = vec![0u8, 0, 3, 0, 0, 0, 0, 0, 0, 0, 0, 0, 1, 0, 2, 0, 8, 0];
    v.extend_from_slice(&[5, 6]);
    let img = TGAImage::from_tga_bytes(&v).unwrap();
    assert_eq!(img.get(0, 0).unwrap().b, 6);
    assert_eq!(img.get(0, 1).unwrap().b, 5);
}

#[test]
fn image_type_bytes() {
    assert_eq!(TGAImageType::Grayscale.bytes_per_pixel(), 1);
    assert_eq!(TGAImageType::RGB.bytes_per_pixel(), 3);
    assert_eq!(TGAImageType::RGBA.bytes_per_pixel(), 4);
}

#[test]
fn error_messages() {
    assert_eq!(
        TgaError::UnsupportedFormat(18).to_string(),
        "Unsupported TGA format (data type code 18). Only 2, 3, 10, 11 are supported."
    );
    assert_eq!(
        TgaError::UnsupportedFormat(1).to_string(),
        "Unsupported TGA format (data type code 1). Only 2, 3, 10, 11 are supported."
    );
    assert_eq!(
        TgaError::UnsupportedFormat(255).to_string(),
        "Unsupported TGA format (data type code 255). Only 2, 3, 10, 11 are supported."
    );
    assert_eq!(
        TgaError::BadHeader("bad bpp or width/height value").to_string(),
        "Invalid TGA header: bad bpp or width/height value"
    );
    assert_eq!(TgaError::BadData("too many pixels read").to_string(), "Corrupt TGA data: too many pixels read");
    let io = TgaError::Io(std::io::Error::from(std::io::ErrorKind::UnexpectedEof));
    assert!(io.to_string().starts_with("I/O error: "));
    assert!(io.to_string().len() > "I/O error: ".len());
}
