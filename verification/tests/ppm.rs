use raytracer::ppm::{Image, ImageError, Pixel};

fn quantise(channel: f64) -> i16 {
    (255.999 * channel) as i16
}

fn pixel_of(r: f64, g: f64, b: f64) -> Pixel {
    Pixel::new(quantise(r), quantise(g), quantise(b))
}

fn text_of(image: &Image) -> String {
    String::from_utf8(image.write()).unwrap()
}

#[test]
fn writer_emits_exact_text_for_two_by_one() {
    let grid = vec![vec![pixel_of(1.0, 0.0, 0.0), pixel_of(0.0, 1.0, 1.0)]];
    let image = Image::new(2, 1, grid).unwrap();
    assert_eq!(text_of(&image), "P3\n2 1\n255\n255 0 0\n0 255 255\n");
}

#[test]
fn writer_prints_truncated_channels() {
    let grid = vec![vec![pixel_of(0.5, 0.7, 1.0), pixel_of(0.25, 0.999, 0.0039)]];
    let image = Image::new(2, 1, grid).unwrap();
    assert_eq!(text_of(&image), "P3\n2 1\n255\n127 179 255\n63 255 0\n");
}

#[test]
fn writer_keeps_row_order() {
    let grid = vec![
        vec![Pixel::new(1, 2, 3), Pixel::new(4, 5, 6)],
        vec![Pixel::new(7, 8, 9), Pixel::new(10, 11, 12)],
        vec![Pixel::new(13, 14, 15), Pixel::new(16, 17, 18)],
    ];
    let image = Image::new(2, 3, grid).unwrap();
    assert_eq!(
        text_of(&image),
        "P3\n2 3\n255\n1 2 3\n4 5 6\n7 8 9\n10 11 12\n13 14 15\n16 17 18\n"
    );
}

#[test]
fn writer_does_not_clamp() {
    let grid = vec![vec![
        Pixel::new(-1, 256, 32767),
        Pixel::new(-32768, 100, -255),
    ]];
    let image = Image::new(2, 1, grid).unwrap();
    assert_eq!(
        text_of(&image),
        "P3\n2 1\n255\n-1 256 32767\n-32768 100 -255\n"
    );
}

#[test]
fn out_of_range_colours_give_out_of_range_text() {
    let grid = vec![vec![pixel_of(-0.5, 1.5, 2.0)]];
    let image = Image::new(1, 1, grid).unwrap();
    assert_eq!(text_of(&image), "P3\n1 1\n255\n-127 383 511\n");
}

#[test]
fn writer_of_empty_image_emits_header_only() {
    let image = Image::new(0, 0, vec![]).unwrap();
    assert_eq!(text_of(&image), "P3\n0 0\n255\n");
    let rows_without_pixels = Image::new(0, 2, vec![vec![], vec![]]).unwrap();
    assert_eq!(text_of(&rows_without_pixels), "P3\n0 2\n255\n");
}

#[test]
fn text_has_three_lines_and_one_per_pixel() {
    let grid = vec![vec![Pixel::new(0, 128, 255); 7]; 5];
    let image = Image::new(7, 5, grid).unwrap();
    let text = text_of(&image);
    assert_eq!(text.bytes().filter(|b| *b == b'\n').count(), 3 + 7 * 5);
    assert!(text.starts_with("P3\n7 5\n255\n"));
}

#[test]
fn text_of_stacked_grids_is_concatenated() {
    let upper = vec![vec![Pixel::new(1, 1, 1)], vec![Pixel::new(2, 2, 2)]];
    let lower = vec![vec![Pixel::new(3, 3, 3)]];
    let mut whole = upper.clone();
    whole.extend(lower.clone());
    let all = text_of(&Image::new(1, 3, whole).unwrap());
    let top = text_of(&Image::new(1, 2, upper).unwrap());
    let bottom = text_of(&Image::new(1, 1, lower).unwrap());
    let body = |t: &str| t.splitn(4, '\n').nth(3).unwrap().to_string();
    assert_eq!(body(&all), format!("{}{}", body(&top), body(&bottom)));
}

#[test]
fn new_rejects_wrong_row_count() {
    let grid = vec![vec![Pixel::new(0, 0, 0), Pixel::new(0, 0, 0)]];
    assert_eq!(
        Image::new(2, 2, grid).unwrap_err(),
        ImageError::InvalidDimensions
    );
    assert!(matches!(
        Image::new(2, 1, vec![]),
        Err(ImageError::InvalidDimensions)
    ));
}

#[test]
fn new_rejects_wrong_row_width() {
    let first_short = vec![vec![Pixel::new(0, 0, 0)], vec![Pixel::new(0, 0, 0); 2]];
    assert!(matches!(
        Image::new(2, 2, first_short),
        Err(ImageError::InvalidDimensions)
    ));
    let last_long = vec![vec![Pixel::new(0, 0, 0); 2], vec![Pixel::new(0, 0, 0); 3]];
    assert!(matches!(
        Image::new(2, 2, last_long),
        Err(ImageError::InvalidDimensions)
    ));
}

#[test]
fn new_rejects_transposed_size() {
    let grid = vec![vec![Pixel::new(0, 0, 0); 3]; 2];
    assert!(Image::new(3, 2, grid.clone()).is_ok());
    assert!(matches!(
        Image::new(2, 3, grid),
        Err(ImageError::InvalidDimensions)
    ));
}

#[test]
fn new_keeps_size_and_grid() {
    let grid = vec![
        vec![Pixel::new(1, 2, 3), Pixel::new(4, 5, 6)],
        vec![Pixel::new(7, 8, 9), Pixel::new(10, 11, 12)],
    ];
    let image = Image::new(2, 2, grid.clone()).unwrap();
    assert_eq!(image.width(), 2);
    assert_eq!(image.height(), 2);
    assert_eq!(image.colors(), grid);
}

#[test]
fn error_message_names_the_grid() {
    assert_eq!(ImageError::InvalidDimensions.message(), "Invalid colors length");
}

#[test]
fn pixel_new_keeps_channels() {
    let p = Pixel::new(-3, 0, 300);
    assert_eq!((p.r, p.g, p.b), (-3, 0, 300));
}

#[test]
fn default_is_the_gradient() {
    let image = Image::default();
    assert_eq!(image.width(), 256);
    assert_eq!(image.height(), 256);
    let grid = image.colors();
    assert_eq!(grid.len(), 256);
    assert_eq!(grid[0][0], Pixel::new(0, 255, 63));
    assert_eq!(grid[0][255], Pixel::new(255, 255, 63));
    assert_eq!(grid[255][0], Pixel::new(0, 0, 63));
    assert_eq!(grid[255][255], Pixel::new(255, 0, 63));
    assert_eq!(grid[10][200], Pixel::new(200, 245, 63));
}

#[test]
fn default_agrees_with_quantised_colours() {
    let grid = Image::default().colors();
    let mut row = 0;
    for y in (0..256).rev() {
        assert_eq!(grid[row].len(), 256);
        for x in 0..256 {
            let expected = pixel_of(x as f64 / 255.0, y as f64 / 255.0, 0.25);
            assert_eq!(grid[row][x], expected);
        }
        row += 1;
    }
}

#[test]
fn default_text_starts_with_header_and_top_left_pixel() {
    let text = text_of(&Image::default());
    assert!(text.starts_with("P3\n256 256\n255\n0 255 63\n1 255 63\n"));
    assert!(text.ends_with("254 0 63\n255 0 63\n"));
}
