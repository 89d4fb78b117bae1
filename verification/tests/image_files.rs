use lama_inpaint::image::{
    decode_raw, image_fits, read_gray, read_rgb, reflect_index, try_read_gray, try_read_rgb,
    write_rgb, ColorType, Rgb8,
};

fn encode(
    w: u32,
    h: u32,
    color: png::ColorType,
    depth: png::BitDepth,
    palette: Option<Vec<u8>>,
    data: &[u8],
) -> Vec<u8> {
    let mut out = Vec::new();
    let mut e = png::Encoder::new(&mut out, w, h);
    e.set_color(color);
    e.set_depth(depth);
    if let Some(p) = palette {
        e.set_palette(p);
    }
    let mut writer = e.write_header().unwrap();
    writer.write_image_data(data).unwrap();
    writer.finish().unwrap();
    out
}

fn sample_image() -> Rgb8 {
    let mut img = Rgb8::new(3, 2);
    for i in 0..img.data.len() {
        img.data[i] = (i * 13 + 7) as u8;
    }
    img
}

#[test]
fn new_image_is_black() {
    let img = Rgb8::new(4, 3);
    assert_eq!((img.width, img.height), (4, 3));
    assert_eq!(img.data, vec![0u8; 36]);
}

#[test]
fn what_is_written_reads_back() {
    let img = sample_image();
    let bytes = write_rgb(&img).unwrap();
    assert_eq!(&bytes[..8], &[137, 80, 78, 71, 13, 10, 26, 10]);
    assert_eq!(&bytes[16..26], &[0, 0, 0, 3, 0, 0, 0, 2, 8, 2]);
    let back = read_rgb(&bytes).unwrap();
    assert_eq!((back.width, back.height), (3, 2));
    assert_eq!(back.data, img.data);
}

#[test]
fn empty_image_is_not_written() {
    assert!(write_rgb(&Rgb8::new(0, 2)).is_err());
    assert!(write_rgb(&Rgb8::new(2, 0)).is_err());
}

#[test]
fn wrong_length_is_not_written() {
    let img = Rgb8 { width: 2, height: 2, data: vec![0; 11] };
    assert!(write_rgb(&img).is_err());
}

#[test]
fn grey_stands_for_all_three() {
    let b = encode(2, 1, png::ColorType::Grayscale, png::BitDepth::Eight, None, &[9, 200]);
    let img = read_rgb(&b).unwrap();
    assert_eq!(img.data, vec![9, 9, 9, 200, 200, 200]);
}

#[test]
fn alpha_is_left_out() {
    let b = encode(1, 2, png::ColorType::Rgba, png::BitDepth::Eight, None, &[
        1, 2, 3, 4, 5, 6, 7, 8,
    ]);
    assert_eq!(read_rgb(&b).unwrap().data, vec![1, 2, 3, 5, 6, 7]);
    let b = encode(2, 1, png::ColorType::GrayscaleAlpha, png::BitDepth::Eight, None, &[
        10, 0, 20, 255,
    ]);
    assert_eq!(read_rgb(&b).unwrap().data, vec![10, 10, 10, 20, 20, 20]);
}

#[test]
fn wide_samples_keep_their_high_byte() {
    let b = encode(1, 1, png::ColorType::Rgb, png::BitDepth::Sixteen, None, &[
        0x12, 0x34, 0x56, 0x78, 0x9a, 0xbc,
    ]);
    let raw = decode_raw(&b).unwrap();
    assert_eq!(raw.sample(0, 0, 1), 0x56);
    assert_eq!(raw.color, ColorType::Rgb);
    assert_eq!(read_rgb(&b).unwrap().data, vec![0x12, 0x56, 0x9a]);
}

#[test]
fn palette_entries_are_looked_up() {
    let palette = vec![1, 2, 3, 40, 50, 60];
    let b = encode(
        3,
        1,
        png::ColorType::Indexed,
        png::BitDepth::Eight,
        Some(palette),
        &[1, 0, 1],
    );
    assert_eq!(read_rgb(&b).unwrap().data, vec![40, 50, 60, 1, 2, 3, 40, 50, 60]);
}

#[test]
fn index_past_the_palette_is_its_last_entry() {
    let palette = vec![1, 2, 3, 40, 50, 60];
    let b = encode(
        2,
        1,
        png::ColorType::Indexed,
        png::BitDepth::Eight,
        Some(palette),
        &[0, 200],
    );
    assert_eq!(read_rgb(&b).unwrap().data, vec![1, 2, 3, 40, 50, 60]);
}

fn thrice(v: &[u8]) -> Vec<u8> {
    v.iter().flat_map(|x| [*x, *x, *x]).collect()
}

#[test]
fn narrow_grey_samples_are_unpacked_and_scaled() {
    let bits = [0b1010_0110, 0b1100_0000, 0b0000_0001, 0b0100_0000];
    let b = encode(10, 2, png::ColorType::Grayscale, png::BitDepth::One, None, &bits);
    let want = [255, 0, 255, 0, 0, 255, 255, 0, 255, 255, 0, 0, 0, 0, 0, 0, 0, 255, 0, 255];
    assert_eq!(read_gray(&b).unwrap().data, want);
    assert_eq!(try_read_rgb(&b).unwrap().unwrap().data, thrice(&want));
    assert_eq!(decode_raw(&b).unwrap().sample(1, 7, 0), 1);
    let b = encode(5, 1, png::ColorType::Grayscale, png::BitDepth::Two, None, &[
        0b0001_1011, 0b1000_0000,
    ]);
    let g = read_gray(&b).unwrap();
    assert_eq!((g.width, g.height), (5, 1));
    assert_eq!(g.data, vec![0, 85, 170, 255, 170]);
    let b = encode(3, 1, png::ColorType::Grayscale, png::BitDepth::Four, None, &[0x1f, 0x80]);
    assert_eq!(try_read_gray(&b).unwrap().unwrap().data, vec![17, 255, 136]);
}

#[test]
fn narrow_indices_are_looked_up() {
    let palette = vec![1, 2, 3, 40, 50, 60, 7, 8, 9];
    let b = encode(
        4,
        1,
        png::ColorType::Indexed,
        png::BitDepth::Two,
        Some(palette.clone()),
        &[0b1001_0011],
    );
    assert_eq!(read_rgb(&b).unwrap().data, vec![7, 8, 9, 40, 50, 60, 1, 2, 3, 7, 8, 9]);
    let b = encode(2, 1, png::ColorType::Indexed, png::BitDepth::One, Some(palette), &[0x40]);
    assert_eq!(read_rgb(&b).unwrap().data, vec![1, 2, 3, 40, 50, 60]);
}

#[test]
fn what_was_written_can_be_read() {
    let img = Rgb8 { width: 1, height: 1, data: vec![9, 8, 7] };
    let b = write_rgb(&img).unwrap();
    assert!(image_fits(&b));
    assert_eq!(try_read_rgb(&b).unwrap().unwrap().data, vec![9, 8, 7]);
}

#[test]
fn what_is_no_png_is_refused() {
    assert!(try_read_rgb(b"").unwrap().is_err());
    assert!(try_read_rgb(b"not a png at all, whatever it is").unwrap().is_err());
    assert!(try_read_gray(b"nor this").unwrap().is_err());
    assert!(image_fits(b""));
}

#[test]
fn truncated_png_is_refused() {
    let bytes = write_rgb(&sample_image()).unwrap();
    assert!(try_read_rgb(&bytes[..bytes.len() - 20]).unwrap().is_err());
}

#[test]
fn grey_is_the_red_channel() {
    let img = sample_image();
    let bytes = write_rgb(&img).unwrap();
    let g = read_gray(&bytes).unwrap();
    assert_eq!((g.width, g.height), (3, 2));
    let want: Vec<u8> = (0..6).map(|p| img.data[p * 3]).collect();
    assert_eq!(g.data, want);
    assert_eq!(try_read_gray(&bytes).unwrap().unwrap().data, want);
}

#[test]
fn mask_marks_every_pixel_that_is_not_black() {
    let img = Rgb8 {
        width: 5,
        height: 1,
        data: vec![0, 0, 0, 1, 0, 0, 0, 2, 0, 0, 0, 3, 255, 255, 255],
    };
    assert_eq!(img.to_mask().data, vec![0, 255, 255, 255, 255]);
    assert_eq!(img.to_gray().data, vec![0, 1, 0, 0, 255]);
}

#[test]
fn reflection_runs_forth_and_back() {
    let want = [0usize, 1, 2, 3, 2, 1, 0, 1, 2, 3, 2, 1, 0];
    for (i, w) in want.iter().enumerate() {
        assert_eq!(reflect_index(i as isize, 4), *w);
        assert_eq!(reflect_index(-(i as isize), 4), *w);
    }
    assert_eq!(reflect_index(17, 1), 0);
    assert_eq!(reflect_index(-1, 2), 1);
    assert_eq!(reflect_index(6, 7), 6);
    assert_eq!(reflect_index(7, 7), 5);
}
