use chimy2::blend::{blend_argb8888_linear, blend_linear, EncodingTable};
use chimy2::fb::{argb8888, channels, Framebuffer, LinearPixel, LinearTable};
use chimy2::float::Float32;
use chimy2::font::{ascii_hud, glyph, text_extent, text_pixels, FALLBACK_GLYPH};

const GLYPH_WIDTH: usize = 8;
const GLYPH_HEIGHT: usize = 8;

fn s(value: f32) -> Float32 {
    Float32 { bits: value.to_bits() }
}

fn n(value: Float32) -> f32 {
    f32::from_bits(value.bits)
}

fn srgb_to_linear(value: u8) -> f32 {
    let encoded = f32::from(value) / 255.0;
    if encoded <= 0.04045 {
        encoded / 12.92
    } else {
        ((encoded + 0.055) / 1.055).powf(2.4)
    }
}

fn linear_to_srgb(light: f32) -> u8 {
    let light = light.clamp(0.0, 1.0);
    let encoded = if light <= 0.003_130_8 {
        light * 12.92
    } else {
        1.055 * light.powf(1.0 / 2.4) - 0.055
    };
    (encoded * 255.0).round() as u8
}

fn linear() -> LinearTable {
    LinearTable::new((0..=255).map(|value| s(srgb_to_linear(value))).collect()).unwrap()
}

fn encoding() -> EncodingTable {
    let start = |value: u8| {
        let (mut low, mut high) = (0u32, 1.0f32.to_bits());
        while low < high {
            let middle = (low + high) / 2;
            if linear_to_srgb(f32::from_bits(middle)) >= value {
                high = middle;
            } else {
                low = middle + 1;
            }
        }
        Float32 { bits: low }
    };
    EncodingTable::new((1..=255).map(start).collect()).unwrap()
}

fn all_far(framebuffer: &Framebuffer, count: usize) -> bool {
    framebuffer.depth == vec![s(1.0); count]
}

#[test]
fn clear_sets_color_and_depth() {
    let mut framebuffer = Framebuffer::new(2, 2);
    framebuffer.depth[1] = s(0.25);
    framebuffer.clear(argb8888(255, 10, 20, 30), &linear());
    assert_eq!(framebuffer.color, vec![0xff0a141e; 4]);
    assert!(all_far(&framebuffer, 4));
}

#[test]
fn resize_clears_modified_buffers() {
    let mut framebuffer = Framebuffer::new(2, 2);
    framebuffer.color.fill(0xdead_beef);
    framebuffer.depth.fill(s(0.25));
    framebuffer.resize(3, 1, &linear());
    assert_eq!((framebuffer.width, framebuffer.height), (3, 1));
    assert_eq!(framebuffer.color, vec![0; 3]);
    assert!(all_far(&framebuffer, 3));
}

#[test]
fn resize_clears_equal_area_shape_change() {
    let mut framebuffer = Framebuffer::new(4, 2);
    framebuffer.color.fill(0xdead_beef);
    framebuffer.depth.fill(s(0.25));
    framebuffer.resize(2, 4, &linear());
    assert_eq!((framebuffer.width, framebuffer.height), (2, 4));
    assert_eq!(framebuffer.color, vec![0; 8]);
    assert!(all_far(&framebuffer, 8));
}

#[test]
fn put_pixel_and_argb_packing() {
    let mut framebuffer = Framebuffer::new(2, 2);
    let color = argb8888(0x80, 0x10, 0x20, 0x40);
    framebuffer.put_pixel(1, 0, color, &linear());
    framebuffer.put_pixel(2, 0, 0xffffffff, &linear());
    assert_eq!(color, 0x80102040);
    assert_eq!(framebuffer.color, vec![0, color, 0, 0]);
    assert_eq!(channels(color), (0x80, 0x10, 0x20, 0x40));
}

#[test]
fn put_pixel_ignores_inconsistent_buffer() {
    let mut framebuffer = Framebuffer::new(2, 2);
    framebuffer.color.clear();
    framebuffer.put_pixel(1, 1, 0xffffffff, &linear());
    assert!(framebuffer.color.is_empty());
}

#[test]
fn alpha_blending_decodes_and_reencodes_rgb() {
    let result = blend_argb8888_linear(
        argb8888(255, 128, 128, 128),
        argb8888(128, 255, 255, 255),
        &linear(),
        &encoding(),
    );
    assert_eq!(result, argb8888(255, 205, 205, 205));
    assert_ne!(result, argb8888(255, 192, 192, 192));
}

#[test]
fn downsample_uses_linear_box_filter() {
    let mut source = Framebuffer::new(2, 2);
    source.color = vec![
        argb8888(255, 0, 0, 0),
        argb8888(255, 255, 255, 255),
        argb8888(255, 0, 0, 0),
        argb8888(255, 255, 255, 255),
    ];
    let mut destination = Framebuffer::new(1, 1);
    source.downsample_linear_into(&mut destination, &linear(), &encoding());
    assert_eq!(destination.color[0], argb8888(255, 188, 188, 188));
    assert_ne!(destination.color[0], argb8888(255, 128, 128, 128));
}

#[test]
fn downsample_filters_rgb_premultiplied_by_alpha() {
    let mut source = Framebuffer::new(2, 2);
    source.color = vec![
        argb8888(255, 255, 0, 0),
        argb8888(255, 255, 0, 0),
        argb8888(0, 0, 0, 0),
        argb8888(0, 0, 0, 0),
    ];
    let mut destination = Framebuffer::new(1, 1);
    source.downsample_linear_into(&mut destination, &linear(), &encoding());
    assert_eq!(destination.color[0], argb8888(128, 255, 0, 0));
}

#[test]
fn downsample_premultiplies_each_source_alpha() {
    let mut source = Framebuffer::new(2, 2);
    source.color = vec![
        argb8888(0, 255, 255, 255),
        argb8888(255, 255, 0, 0),
        argb8888(0, 255, 255, 255),
        argb8888(255, 255, 0, 0),
    ];
    let mut destination = Framebuffer::new(1, 1);
    source.downsample_linear_into(&mut destination, &linear(), &encoding());
    assert_eq!(destination.color[0], argb8888(128, 255, 0, 0));
}

#[test]
fn downsample_leaves_shapes_that_do_not_divide() {
    let source = Framebuffer::new(3, 2);
    let mut destination = Framebuffer::new(2, 2);
    destination.color.fill(7);
    source.downsample_linear_into(&mut destination, &linear(), &encoding());
    assert_eq!(destination.color, vec![7; 4]);
    let uneven = Framebuffer::new(4, 6);
    uneven.downsample_linear_into(&mut destination, &linear(), &encoding());
    assert_eq!(destination.color, vec![7; 4]);
}

#[test]
fn linear_light_is_kept_beside_the_pixels() {
    let table = linear();
    let mut framebuffer = Framebuffer::new(2, 1);
    framebuffer.put_pixel(1, 0, argb8888(255, 255, 0, 0), &table);
    framebuffer.set_hdr(true, &table);
    assert!(framebuffer.is_hdr());
    let red = framebuffer.linear_pixels().unwrap()[1];
    assert_eq!((n(red.alpha), n(red.red), n(red.green)), (1.0, 1.0, 0.0));
    let half = LinearPixel { alpha: s(0.5), red: s(4.0), green: s(0.0), blue: s(0.0) };
    framebuffer.write_linear_pixel(1, half, true);
    let mixed = framebuffer.linear_pixels().unwrap()[1];
    assert_eq!((n(mixed.alpha), n(mixed.red)), (1.0, 2.5));
    framebuffer.write_linear_pixel(0, half, false);
    assert_eq!(framebuffer.linear_pixels().unwrap()[0], half);
    framebuffer.write_linear_pixel(9, half, false);
    let mut small = Framebuffer::new(1, 1);
    small.set_hdr(true, &table);
    let mut wide = Framebuffer::new(2, 2);
    wide.set_hdr(true, &table);
    for index in 0..4 {
        wide.write_linear_pixel(index, half, false);
    }
    wide.downsample_linear_into(&mut small, &table, &encoding());
    assert_eq!(small.linear_pixels().unwrap()[0], half);
    assert_eq!(small.color, vec![0]);
    framebuffer.set_hdr(false, &table);
    assert!(!framebuffer.is_hdr());
}

#[test]
fn nothing_over_nothing_is_nothing() {
    let zero = s(0.0);
    let nothing = LinearPixel { alpha: zero, red: s(3.0), green: zero, blue: zero };
    let result = blend_linear(nothing, nothing);
    assert_eq!(result, LinearPixel { alpha: zero, red: zero, green: zero, blue: zero });
}

#[test]
fn tables_need_an_entry_for_every_value() {
    assert!(LinearTable::new(vec![s(0.0); 255]).is_none());
    assert!(LinearTable::new(vec![s(0.0); 256]).is_some());
    let mut entries = vec![s(0.0); 256];
    entries[255] = s(f32::INFINITY);
    assert!(LinearTable::new(entries).is_none());
    assert!(EncodingTable::new(vec![s(0.5); 256]).is_none());
    assert!(EncodingTable::new(vec![s(0.5); 255]).is_some());
    assert!(EncodingTable::new(vec![s(0.0); 255]).is_none());
    assert!(EncodingTable::new(vec![s(f32::NAN); 255]).is_none());
    let table = encoding();
    for value in 0..=255u8 {
        assert_eq!(table.encode(s(srgb_to_linear(value))), value);
    }
    assert_eq!(table.encode(s(f32::NAN)), 0);
    assert_eq!(table.encode(s(7.0)), 255);
}

fn draw(framebuffer: &mut Framebuffer, x: i32, y: i32, text: &str, scale: usize, color: u32) {
    framebuffer.draw_text(x, y, text, scale, color, &linear(), &encoding());
}

#[test]
fn glyph_probe_matches_the_authored_a_mask() {
    let mut framebuffer = Framebuffer::new(8, 8);
    draw(&mut framebuffer, 0, 0, "A", 1, argb8888(255, 255, 255, 255));
    let white = argb8888(255, 255, 255, 255);
    let expected = [0x18, 0x24, 0x42, 0x7e, 0x42, 0x42, 0x42, 0x00];
    for (row, &bits) in expected.iter().enumerate() {
        for column in 0..GLYPH_WIDTH {
            let expected_pixel = if bits & (0x80 >> column) != 0 { white } else { 0 };
            assert_eq!(framebuffer.color[row * 8 + column], expected_pixel);
        }
    }
}

#[test]
fn scale_probe_expands_each_source_pixel_to_a_block() {
    let mut framebuffer = Framebuffer::new(16, 16);
    draw(&mut framebuffer, 0, 0, "A", 2, argb8888(255, 255, 255, 255));
    for y in 0..16 {
        for x in 0..16 {
            let source = if y / 2 < GLYPH_HEIGHT && x / 2 < GLYPH_WIDTH {
                glyph('A')[y / 2] & (0x80 >> (x / 2)) != 0
            } else {
                false
            };
            assert_eq!(framebuffer.color[y * 16 + x] != 0, source, "{x},{y}");
        }
    }
}

#[test]
fn clipping_probe_handles_all_edges_and_fully_offscreen_text() {
    let color = argb8888(255, 255, 255, 255);
    let mut negative = Framebuffer::new(5, 5);
    draw(&mut negative, -2, -2, "A", 1, color);
    assert_eq!(negative.color[4], color);
    assert_eq!(&negative.color[5..10], &[color; 5]);
    assert_eq!(negative.color[14], color);
    assert_eq!(negative.color[19], color);
    assert_eq!(negative.color[24], color);

    let mut right = Framebuffer::new(5, 5);
    draw(&mut right, 3, 0, "A", 1, color);
    assert_eq!(right.color[4 * 2 + 2], 0);
    assert_eq!(right.color[2 * 5 + 4], color);
    assert_eq!(right.color[3 * 5 + 4], color);

    let mut bottom = Framebuffer::new(5, 5);
    draw(&mut bottom, 0, 3, "A", 1, color);
    assert_eq!(bottom.color[3 * 5 + 3], color);
    assert_eq!(bottom.color[4 * 5 + 2], color);

    let mut partial_block = Framebuffer::new(3, 3);
    draw(&mut partial_block, -1, -12, "/", 2, color);
    assert_eq!(partial_block.color[0], color);
    assert_eq!(partial_block.color[3], color);

    let mut offscreen = Framebuffer::new(5, 5);
    draw(&mut offscreen, 20, 20, "A", 1, color);
    draw(&mut offscreen, -100, -100, "A", 2, color);
    assert!(offscreen.color.iter().all(|&pixel| pixel == 0));
}

#[test]
fn alpha_probe_uses_linear_blending() {
    let background = argb8888(255, 128, 128, 128);
    let source = argb8888(128, 255, 255, 255);
    let mut framebuffer = Framebuffer::new(8, 8);
    framebuffer.clear(background, &linear());
    draw(&mut framebuffer, 0, 0, "A", 1, source);
    assert_eq!(
        framebuffer.color[3],
        blend_argb8888_linear(background, source, &linear(), &encoding())
    );
    assert_ne!(framebuffer.color[3], source);
}

#[test]
fn extent_and_newline_are_monospace_and_missing_glyphs_use_tofu() {
    assert_eq!(text_extent("AB\n?", 2), (32, 32));
    assert_eq!(text_extent("", 2), (0, 0));
    assert_eq!(glyph('\u{2603}'), FALLBACK_GLYPH);
    let mut framebuffer = Framebuffer::new(8, 8);
    draw(&mut framebuffer, 0, 0, "\u{2603}", 1, argb8888(255, 255, 255, 255));
    assert!(framebuffer.color.iter().any(|&pixel| pixel != 0));
}

#[test]
fn rendering_is_deterministic() {
    let render = || {
        let mut framebuffer = Framebuffer::new(40, 24);
        draw(&mut framebuffer, -3, 2, "ASCII 123\nxyz", 2, argb8888(192, 220, 230, 255));
        framebuffer.color
    };
    assert_eq!(render(), render());
}

#[test]
fn covered_pixels_are_those_of_the_glyphs() {
    let pixels = text_pixels(32, 32, 4, 5, "A", 1);
    let set: usize = glyph('A').iter().map(|row| row.count_ones() as usize).sum();
    assert_eq!(pixels.len(), set);
    assert!(pixels.contains(&(7, 5)) && pixels.contains(&(8, 5)));
    assert!(text_pixels(32, 32, 4, 5, "A", 0).is_empty());
}

#[test]
fn overlay_counts_its_frames() {
    let lines = ascii_hud(42);
    assert_eq!(lines.len(), 5);
    assert_eq!(lines[1].text, "FRAME 0042");
    assert_eq!(ascii_hud(123456)[1].text, "FRAME 123456");
    let mut framebuffer = Framebuffer::new(320, 80);
    framebuffer.draw_ascii_hud(42, &linear(), &encoding());
    let mut by_hand = Framebuffer::new(320, 80);
    for line in &lines {
        draw(&mut by_hand, line.x, line.y, &line.text, line.scale, line.color);
    }
    assert_eq!(framebuffer.color, by_hand.color);
    assert!(framebuffer.color.iter().any(|&pixel| pixel != 0));
}

#[test]
fn opaque_sources_hide_and_clear_pixels_leave_nothing() {
    for source in [0xff00_0000u32, 0xff12_3456, 0xffff_ffff] {
        for destination in [0u32, 0x8040_2010, 0xffff_ffff] {
            let blended = blend_argb8888_linear(destination, source, &linear(), &encoding());
            assert_eq!(blended, source);
        }
    }
    let blended = blend_argb8888_linear(0x0012_3456, 0x00ff_ffff, &linear(), &encoding());
    assert_eq!(blended, 0);
}
