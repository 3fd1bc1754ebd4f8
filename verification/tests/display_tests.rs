use time_display::display::{BuildError, Display, RenderError};
use time_display::time::Time;

/// Encodes a `w` by `h` PNG filled with one RGBA color.
fn png_tile(w: u32, h: u32, rgba: [u8; 4]) -> Vec<u8> {
    let img = image::RgbaImage::from_pixel(w, h, image::Rgba(rgba));
    let mut buf: Vec<u8> = Vec::new();
    image::DynamicImage::ImageRgba8(img)
        .write_to(&mut std::io::Cursor::new(&mut buf), image::ImageFormat::Png)
        .unwrap();
    buf
}

/// A glyph set of thirteen solid-color tiles: blank 2 px wide, colon and
/// dot 1 px wide, digits 3 px wide, all 5 px tall. Each digit `d` is filled
/// with the color `[d, d, d, 255]`.
fn test_sources() -> Vec<Vec<u8>> {
    let mut sources = Vec::new();
    sources.push(png_tile(2, 5, [250, 250, 250, 255]));
    sources.push(png_tile(1, 5, [251, 0, 0, 255]));
    sources.push(png_tile(1, 5, [252, 0, 0, 255]));
    for d in 0u8..10 {
        sources.push(png_tile(3, 5, [d, d, d, 255]));
    }
    sources
}

fn test_display() -> Display {
    Display::from_sources(&test_sources()).unwrap()
}

#[test]
fn decode_yields_real_pixels() {
    // A one-character render is exactly the decoded tile: 3 by 5 pixels of
    // the digit-7 fill color, not the PNG bytes handed back unchanged.
    let d = test_display();
    let img = d.print("7").unwrap();
    assert_eq!(img.width, 3);
    assert_eq!(img.height, 5);
    assert_eq!(img.data.len(), 4 * 3 * 5);
    for px in img.data.chunks(4) {
        assert_eq!(px, [7, 7, 7, 255]);
    }
}

#[test]
fn print_width_is_sum_of_glyph_widths() {
    let d = test_display();
    let img = d.print("12:34.56").unwrap();
    // Six digits at 3 px, one colon and one dot at 1 px.
    assert_eq!(img.width, 6 * 3 + 1 + 1);
    assert_eq!(img.height, 5);
    assert_eq!(img.data.len(), 4 * 20 * 5);
}

#[test]
fn print_composes_tiles_left_to_right() {
    let d = test_display();
    let img = d.print("90").unwrap();
    assert_eq!((img.width, img.height), (6, 5));
    for y in 0..5usize {
        for x in 0..6usize {
            let i = 4 * (y * 6 + x);
            let expected = if x < 3 { 9 } else { 0 };
            assert_eq!(img.data[i], expected);
            assert_eq!(img.data[i + 3], 255);
        }
    }
}

#[test]
fn print_empty_input_fails() {
    let d = test_display();
    assert!(matches!(d.print(""), Err(RenderError::EmptyInput)));
}

#[test]
fn print_names_the_unsupported_char() {
    let d = test_display();
    assert!(matches!(d.print("x"), Err(RenderError::UnsupportedChar('x'))));
    // The first unsupported character is the one named.
    assert!(matches!(d.print("12a9b"), Err(RenderError::UnsupportedChar('a'))));
}

#[test]
fn print_rejects_mismatched_tile_heights() {
    // Rebuild the set with a taller digit-zero tile: a mixed-height render
    // must be refused, not silently tolerated.
    let mut sources = test_sources();
    sources[3] = png_tile(3, 6, [0, 0, 0, 255]);
    let d = Display::from_sources(&sources).unwrap();
    assert!(matches!(d.print("0 "), Err(RenderError::HeightMismatch)));
    // A render that never touches the odd tile still succeeds.
    assert!(d.print("11").is_ok());
}

#[test]
fn print_same_text_twice_is_pixel_identical() {
    let d = test_display();
    let text = Time::parse("5:43.21").unwrap().render();
    let a = d.print(&text).unwrap();
    let b = d.print(&text).unwrap();
    assert_eq!(a.width, b.width);
    assert_eq!(a.height, b.height);
    assert_eq!(a.data, b.data);
}

#[test]
fn rendered_time_is_always_printable() {
    let d = test_display();
    for &ticks in &[0u64, 3_210_000, 59_995_000, 100 * 60_000_000] {
        let text = Time::from_micros(ticks).render();
        assert!(d.print(&text).is_ok());
    }
}

#[test]
fn build_rejects_undecodable_source() {
    let mut sources = test_sources();
    sources[5] = vec![1, 2, 3, 4];
    match Display::from_sources(&sources) {
        Err(BuildError::Decode(i)) => assert_eq!(i, 5),
        _ => panic!("expected a decode error"),
    }
}
