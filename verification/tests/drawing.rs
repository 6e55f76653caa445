use tinyrenderer::datatype::Point2D;
use tinyrenderer::drawline::{Bresenham, line_in_range};
use tinyrenderer::drawtriangle::{DrawTriangle, DrawTriangleFill};
use tinyrenderer::framebuffer::{FrameBuffer, FrameBufferTarget, pack_color};
use tinyrenderer::renderpipeline::{clamped_bbox, draw_line, max_3, min_3, VaryingIndex};
use tinyrenderer::tgaimage::{TGAColor, TGAImage};

fn white() -> TGAColor {
    TGAColor::new(255, 255, 255, 255)
}

// Colours of the line tests, as 8-bit channels.
fn dark_red() -> TGAColor {
    TGAColor::new(100, 23, 30, 255)
}

fn pink() -> TGAColor {
    TGAColor::new(200, 50, 80, 255)
}

fn sky_blue() -> TGAColor {
    TGAColor::new(50, 150, 200, 255)
}

fn white_image(w: usize, h: usize) -> TGAImage {
    let mut image = TGAImage::new(w, h, 3);
    image.set_background_color(&white());
    image
}

fn rgb(c: TGAColor) -> TGAColor {
    TGAColor::new(c.r, c.g, c.b, 0)
}

fn count(image: &TGAImage, c: TGAColor) -> usize {
    let mut n = 0;
    for y in 0..image.height() {
        for x in 0..image.width() {
            if image.get(x, y).unwrap() == c {
                n += 1;
            }
        }
    }
    n
}

#[test]
fn test_line_1() {
    let mut image = white_image(500, 500);
    Bresenham::draw(&mut image, &Point2D { x: 100, y: 100 }, &Point2D { x: 400, y: 400 }, &dark_red());
    image.to_tga_bytes(false, true).unwrap();
    for k in 100..=400 {
        assert_eq!(image.get(k, k).unwrap(), rgb(dark_red()));
    }
    assert_eq!(count(&image, rgb(dark_red())), 301);
}

#[test]
fn test_line_2() {
    let mut image = white_image(500, 500);
    Bresenham::draw(&mut image, &Point2D { x: 100, y: 200 }, &Point2D { x: 400, y: 200 }, &dark_red());
    image.to_tga_bytes(false, true).unwrap();
    for x in 100..=400 {
        assert_eq!(image.get(x, 200).unwrap(), rgb(dark_red()));
    }
    assert_eq!(count(&image, rgb(dark_red())), 301);
}

#[test]
fn test_line_3() {
    let mut image = white_image(500, 500);
    Bresenham::draw(&mut image, &Point2D { x: 100, y: 300 }, &Point2D { x: 400, y: 100 }, &dark_red());
    image.to_tga_bytes(false, true).unwrap();
    assert_eq!(image.get(100, 300).unwrap(), rgb(dark_red()));
    assert_eq!(image.get(400, 100).unwrap(), rgb(dark_red()));
    assert_eq!(count(&image, rgb(dark_red())), 301);
}

#[test]
fn test_line_4_reversed_x() {
    let mut image = white_image(200, 200);
    Bresenham::draw(&mut image, &Point2D { x: 180, y: 30 }, &Point2D { x: 20, y: 170 }, &pink());
    image.to_tga_bytes(false, true).unwrap();
    assert_eq!(image.get(180, 30).unwrap(), rgb(pink()));
    assert_eq!(image.get(20, 170).unwrap(), rgb(pink()));
    assert_eq!(count(&image, rgb(pink())), 161);
}

#[test]
fn test_line_steep_positive() {
    let mut image = white_image(200, 200);
    Bresenham::draw(&mut image, &Point2D { x: 30, y: 30 }, &Point2D { x: 80, y: 170 }, &sky_blue());
    image.to_tga_bytes(false, true).unwrap();
    assert_eq!(image.get(30, 30).unwrap(), rgb(sky_blue()));
    assert_eq!(image.get(80, 170).unwrap(), rgb(sky_blue()));
    // one pixel per row
    assert_eq!(count(&image, rgb(sky_blue())), 141);
}

#[test]
fn test_line_steep_negative() {
    let mut image = white_image(200, 200);
    Bresenham::draw(&mut image, &Point2D { x: 80, y: 170 }, &Point2D { x: 30, y: 30 }, &sky_blue());
    image.to_tga_bytes(false, true).unwrap();
    assert_eq!(image.get(30, 30).unwrap(), rgb(sky_blue()));
    assert_eq!(image.get(80, 170).unwrap(), rgb(sky_blue()));
    assert_eq!(count(&image, rgb(sky_blue())), 141);
}

#[test]
fn test_tri_1() {
    let mut image = TGAImage::new(500, 500, 3);
    image.set_background_color(&TGAColor { r: 255, g: 255, b: 255, a: 255 });

    let p0 = Point2D { x: 250, y: 50 };
    let p1 = Point2D { x: 50, y: 450 };
    let p2 = Point2D { x: 450, y: 450 };
    let c = TGAColor { r: 100, g: 100, b: 29, a: 255 };

    DrawTriangle::draw(&mut image, &p0, &p1, &p2, &c);

    image.to_tga_bytes(false, true).unwrap();
    assert_eq!(image.get(250, 50).unwrap(), rgb(c));
    assert_eq!(image.get(50, 450).unwrap(), rgb(c));
    assert_eq!(image.get(300, 450).unwrap(), rgb(c));
    assert_eq!(image.get(250, 300).unwrap(), rgb(white()));
}

#[test]
fn line_rounding_halfway() {
    // dy/dx = 1/2: the second pixel lies exactly halfway between rows.
    let mut image = white_image(5, 5);
    Bresenham::draw(&mut image, &Point2D { x: 0, y: 0 }, &Point2D { x: 2, y: 1 }, &pink());
    assert_eq!(image.get(0, 0).unwrap(), rgb(pink()));
    assert_eq!(image.get(1, 1).unwrap(), rgb(pink()));
    assert_eq!(image.get(2, 1).unwrap(), rgb(pink()));

    let mut fb = FrameBuffer::new(5, 5);
    draw_line(&mut fb, &Point2D { x: 0, y: 0 }, &Point2D { x: 2, y: 1 }, &pink());
    let lit = TGAColor::new(200, 50, 80, 255);
    assert_eq!(fb.get(0, 0).unwrap(), lit);
    assert_eq!(fb.get(1, 0).unwrap(), lit);
    assert_eq!(fb.get(2, 1).unwrap(), lit);
    assert_eq!(fb.get(1, 1).unwrap(), TGAColor::new(0, 0, 0, 255));
}

#[test]
fn line_partly_outside_is_clipped() {
    let mut image = white_image(10, 10);
    Bresenham::draw(&mut image, &Point2D { x: -5, y: 3 }, &Point2D { x: 20, y: 3 }, &pink());
    for x in 0..10 {
        assert_eq!(image.get(x, 3).unwrap(), rgb(pink()));
    }
    assert_eq!(count(&image, rgb(pink())), 10);
}

#[test]
fn single_point_line() {
    let mut image = white_image(4, 4);
    Bresenham::draw(&mut image, &Point2D { x: 2, y: 1 }, &Point2D { x: 2, y: 1 }, &pink());
    assert_eq!(image.get(2, 1).unwrap(), rgb(pink()));
    assert_eq!(count(&image, rgb(pink())), 1);
}

#[test]
fn fill_small_triangle() {
    let mut image = TGAImage::new(6, 6, 1);
    let c = TGAColor::new(0, 0, 9, 0);
    DrawTriangleFill::draw(&mut image, &Point2D { x: 0, y: 0 }, &Point2D { x: 4, y: 0 }, &Point2D { x: 0, y: 4 }, &c);
    // strictly inside
    assert_eq!(image.get(1, 1).unwrap().b, 9);
    assert_eq!(image.get(2, 1).unwrap().b, 9);
    // outside
    assert_eq!(image.get(4, 4).unwrap().b, 0);
    assert_eq!(image.get(5, 0).unwrap().b, 0);
}

#[test]
fn fill_edges_follow_top_left_rule() {
    // Corners (0,0), (0,4), (4,0).  Edge (0,0)->(0,4) runs towards larger y
    // and is not a left edge in this rule; edge (4,0)->(0,0) runs towards
    // smaller x along a row: a top edge, drawn within its corner box.
    let mut image = TGAImage::new(6, 6, 1);
    let c = TGAColor::new(0, 0, 9, 0);
    let p0 = Point2D { x: 0, y: 0 };
    let p1 = Point2D { x: 0, y: 4 };
    let p2 = Point2D { x: 4, y: 0 };
    DrawTriangleFill::draw(&mut image, &p0, &p1, &p2, &c);
    assert_eq!(image.get(1, 1).unwrap().b, 9);
    assert_eq!(image.get(0, 2).unwrap().b, 0);
    assert_eq!(image.get(2, 0).unwrap().b, 0);
}

#[test]
fn frame_buffer_set_get_clear() {
    let mut fb = FrameBuffer::new(3, 2);
    assert_eq!(fb.get(0, 0).unwrap(), TGAColor::new(0, 0, 0, 255));
    fb.set(2, 1, &TGAColor::new(1, 2, 3, 4));
    assert_eq!(fb.get(2, 1).unwrap(), TGAColor::new(1, 2, 3, 255));
    assert_eq!(fb.as_buffer()[5], 0x0001_0203);
    assert!(fb.get(3, 0).is_none());
    fb.set(7, 7, &TGAColor::new(1, 2, 3, 4));
    fb.clear_color(&TGAColor::new(9, 8, 7, 0));
    for y in 0..2 {
        for x in 0..3 {
            assert_eq!(fb.get(x, y).unwrap(), TGAColor::new(9, 8, 7, 255));
        }
    }
    fb.set_buffer(vec![0x00ff_0000; 6]);
    assert_eq!(fb.get(1, 1).unwrap(), TGAColor::new(255, 0, 0, 255));
    assert_eq!(FrameBufferTarget::width(&fb), 3);
    assert_eq!(FrameBufferTarget::height(&fb), 2);
}

#[test]
fn frame_buffer_to_image() {
    let mut fb = FrameBuffer::new(2, 1);
    fb.set(1, 0, &TGAColor::new(10, 20, 30, 255));
    let img = fb.to_image();
    assert_eq!(img.bytes_per_pixel(), 3);
    assert_eq!(img.get(1, 0).unwrap(), TGAColor::new(10, 20, 30, 0));
    assert_eq!(img.get(0, 0).unwrap(), TGAColor::new(0, 0, 0, 0));
}

#[test]
fn target_set_on_image() {
    let mut img = TGAImage::new(2, 2, 4);
    FrameBufferTarget::set(&mut img, 1, 1, &TGAColor::new(5, 6, 7, 8));
    assert_eq!(img.get(1, 1).unwrap(), TGAColor::new(5, 6, 7, 8));
    assert_eq!(FrameBufferTarget::width(&img), 2);
}

#[test]
fn pipeline_helpers() {
    assert_eq!(max_3(1, 7, 3), 7);
    assert_eq!(min_3(1, 7, -3), -3);
    assert_eq!(VaryingIndex::COUNT, 6);
    assert_eq!(VaryingIndex::LightViewPos.index(), 5);
    assert_eq!(VaryingIndex::Normal.index(), 1);
    let bbox = clamped_bbox(&Point2D { x: -5, y: 3 }, &Point2D { x: 50, y: 7 }, &Point2D { x: 4, y: 120 }, 40, 100);
    assert_eq!(bbox, (0, 39, 3, 99));
}

#[test]
fn point_new() {
    let p = Point2D::new(3, -4);
    assert_eq!(p.x, 3);
    assert_eq!(p.y, -4);
}

#[test]
fn line_direction_does_not_matter() {
    let ends = [
        (Point2D { x: 0, y: 0 }, Point2D { x: 2, y: 1 }),
        (Point2D { x: 1, y: 7 }, Point2D { x: 18, y: 2 }),
        (Point2D { x: 3, y: 1 }, Point2D { x: 6, y: 19 }),
        (Point2D { x: 15, y: 3 }, Point2D { x: 2, y: 12 }),
    ];
    for (a, b) in ends.iter() {
        let mut forward = white_image(20, 20);
        let mut backward = white_image(20, 20);
        Bresenham::draw(&mut forward, a, b, &pink());
        Bresenham::draw(&mut backward, b, a, &pink());
        assert_eq!(pixels_of(&forward), pixels_of(&backward));

        let mut fb_forward = FrameBuffer::new(20, 20);
        let mut fb_backward = FrameBuffer::new(20, 20);
        draw_line(&mut fb_forward, a, b, &pink());
        draw_line(&mut fb_backward, b, a, &pink());
        assert_eq!(fb_forward.as_buffer(), fb_backward.as_buffer());
    }
}

fn pixels_of(image: &TGAImage) -> Vec<TGAColor> {
    let mut out = Vec::new();
    for y in 0..image.height() {
        for x in 0..image.width() {
            out.push(image.get(x, y).unwrap());
        }
    }
    out
}

#[test]
fn pack_color_layout() {
    assert_eq!(pack_color(&TGAColor::new(0x12, 0x34, 0x56, 0x78)), 0x0012_3456);
    assert_eq!(pack_color(&TGAColor::new(255, 255, 255, 0)), 0x00ff_ffff);
}

#[test]
fn line_range_check() {
    assert!(line_in_range(&Point2D { x: 0, y: 0 }, &Point2D { x: 100, y: -100 }));
    assert!(line_in_range(&Point2D { x: -0x3fff_ffff, y: 0 }, &Point2D { x: 0, y: 0 }));
    assert!(!line_in_range(&Point2D { x: -0x4000_0000, y: 0 }, &Point2D { x: 0, y: 0 }));
    assert!(line_in_range(&Point2D { x: i32::MAX, y: 0 }, &Point2D { x: i32::MAX, y: 1 }));
    assert!(!line_in_range(&Point2D { x: i32::MIN, y: 0 }, &Point2D { x: i32::MAX, y: 0 }));
}

#[test]
fn line_at_the_ends_of_the_coordinate_range() {
    let mut image = white_image(4, 4);
    Bresenham::draw(&mut image, &Point2D { x: i32::MAX, y: 0 }, &Point2D { x: i32::MAX, y: 0 }, &pink());
    Bresenham::draw(&mut image, &Point2D { x: i32::MIN, y: 1 }, &Point2D { x: i32::MIN + 3, y: 2 }, &pink());
    Bresenham::draw(&mut image, &Point2D { x: 1, y: i32::MAX - 2 }, &Point2D { x: 2, y: i32::MAX }, &pink());
    assert_eq!(count(&image, rgb(pink())), 0);
    assert!(line_in_range(&Point2D { x: i32::MAX, y: 0 }, &Point2D { x: i32::MAX, y: 0 }));
}

#[test]
fn fill_wide_flat_triangle() {
    let mut image = TGAImage::new(8, 3, 1);
    let c = TGAColor::new(0, 0, 9, 0);
    DrawTriangleFill::draw(&mut image, &Point2D { x: 0, y: 0 }, &Point2D { x: 40000, y: 2 }, &Point2D { x: 0, y: 2 }, &c);
    // the pixel (1, 1) lies strictly inside
    assert_eq!(image.get(1, 1).unwrap().b, 9);
    assert_eq!(image.get(7, 0).unwrap().b, 0);
}

#[test]
fn fill_partly_outside_is_clipped() {
    let mut image = TGAImage::new(6, 6, 1);
    let c = TGAColor::new(0, 0, 9, 0);
    DrawTriangleFill::draw(&mut image, &Point2D { x: -3, y: -3 }, &Point2D { x: 5, y: 0 }, &Point2D { x: 0, y: 5 }, &c);
    assert_eq!(image.get(1, 1).unwrap().b, 9);
    assert_eq!(image.get(5, 5).unwrap().b, 0);
}
