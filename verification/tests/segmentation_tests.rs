use softwerk_ocr::decode::{decode_page, PageError};
use softwerk_ocr::raster::LumaImage;
use softwerk_ocr::segmentation::{
    adaptive_threshold_like, check_window_sums, crop_line_rows, dilate_binary, find_text_lines,
    row_histogram, segment_text_lines, smooth_histogram, try_segment_text_lines,
};
use softwerk_ocr::thicken::{thicken_characters, Rgb, RgbImage};

fn luma(width: u32, height: u32, f: impl Fn(u32, u32) -> u8) -> LumaImage {
    let rows = (0..height)
        .map(|y| (0..width).map(|x| f(x, y)).collect())
        .collect();
    LumaImage { width, height, rows }
}

fn page() -> LumaImage {
    luma(80, 60, |x, y| {
        let in_band = (10..20).contains(&y) || (35..50).contains(&y);
        if in_band && (5..75).contains(&x) && (x / 3) % 2 == 0 {
            20
        } else {
            250
        }
    })
}

#[test]
fn smooth_histogram_averages_inner_entries() {
    assert_eq!(smooth_histogram(&[0, 9, 0, 9, 0], 1), vec![0, 3, 6, 3, 0]);
}

#[test]
fn smooth_histogram_rounds_toward_zero() {
    assert_eq!(smooth_histogram(&[-5, -1, -1, 0], 1), vec![-5, -2, 0, 0]);
}

#[test]
fn smooth_histogram_keeps_short_histograms() {
    assert_eq!(smooth_histogram(&[1, 2], 1), vec![1, 2]);
    assert_eq!(smooth_histogram(&[], 3), Vec::<i32>::new());
}

#[test]
fn find_text_lines_keeps_runs_above_threshold() {
    let profile = [0, 5, 5, 0, 5, 5, 5, 0];
    assert_eq!(find_text_lines(&profile, 1, 2), vec![(1, 3), (4, 7)]);
    assert_eq!(find_text_lines(&profile, 1, 3), vec![(4, 7)]);
    assert_eq!(find_text_lines(&profile, 5, 1), Vec::<(i32, i32)>::new());
}

#[test]
fn find_text_lines_closes_a_run_at_the_bottom() {
    assert_eq!(find_text_lines(&[0, 5, 5], 1, 2), vec![(1, 3)]);
    assert_eq!(find_text_lines(&[0, 0, 5], 1, 2), Vec::<(i32, i32)>::new());
}

#[test]
fn find_text_lines_are_sorted_and_disjoint() {
    let profile = [3, 3, 0, 0, 3, 0, 3, 3, 3, 1, 3];
    let lines = find_text_lines(&profile, 2, 1);
    assert_eq!(lines, vec![(0, 2), (4, 5), (6, 9), (10, 11)]);
    for pair in lines.windows(2) {
        assert!(pair[0].1 < pair[1].0);
    }
}

#[test]
fn adaptive_threshold_marks_dark_pixels() {
    let img = luma(3, 1, |x, _| if x == 1 { 0 } else { 200 });
    let out = adaptive_threshold_like(&img, 3, 5);
    assert_eq!(out.rows, vec![vec![0, 255, 0]]);
}

#[test]
fn adaptive_threshold_uniform_image_has_no_ink() {
    let img = luma(4, 4, |_, _| 128);
    let out = adaptive_threshold_like(&img, 41, 5);
    assert!(out.rows.iter().all(|r| r.iter().all(|&p| p == 0)));
}

#[test]
fn dilate_grows_ink_by_radius() {
    let img = luma(5, 3, |x, y| if x == 2 && y == 1 { 255 } else { 0 });
    let out = dilate_binary(&img, 1);
    assert_eq!(
        out.rows,
        vec![vec![0, 255, 255, 255, 0], vec![0, 255, 255, 255, 0], vec![0, 255, 255, 255, 0]]
    );
    let none = dilate_binary(&img, -1);
    assert!(none.rows.iter().all(|r| r.iter().all(|&p| p == 0)));
}

#[test]
fn dilation_keeps_ink_law_example() {
    let img = luma(4, 4, |x, y| if (x + y) % 3 == 0 { 7 } else { 0 });
    let out = dilate_binary(&img, 0);
    for y in 0..4 {
        for x in 0..4 {
            assert_eq!(out.rows[y][x], if img.rows[y][x] > 0 { 255 } else { 0 });
        }
    }
}

#[test]
fn row_histogram_counts_ink() {
    let img = luma(4, 2, |x, y| if y == 0 && x < 3 { 9 } else { 0 });
    assert_eq!(row_histogram(&img), vec![3, 0]);
}

#[test]
fn segment_text_lines_finds_two_text_blocks() {
    let img = page();
    assert_eq!(segment_text_lines(&img, 0), vec![(6, 24), (31, 54)]);
    assert_eq!(segment_text_lines(&img, 40), vec![(10, 20), (35, 50)]);
}

#[test]
fn segment_text_lines_pipeline_steps() {
    let img = page();
    let binary = adaptive_threshold_like(&img, 41, 5);
    let merged = dilate_binary(&binary, 1);
    let hist = row_histogram(&merged);
    let mut expected = vec![0; 60];
    for y in (9..21).chain(34..51) {
        expected[y] = 60;
    }
    assert_eq!(hist, expected);
    let smoothed = smooth_histogram(&hist, 3);
    assert_eq!(&smoothed[6..13], &[8, 17, 25, 34, 42, 51, 60]);
}

#[test]
fn segment_text_lines_blank_page_has_no_lines() {
    let img = luma(30, 30, |_, _| 255);
    assert_eq!(segment_text_lines(&img, 0), Vec::<(i32, i32)>::new());
}

#[test]
fn crop_line_rows_clips_into_image() {
    assert_eq!(crop_line_rows(100, 10, 20), (10, 10));
    assert_eq!(crop_line_rows(50, 60, 70), (49, 1));
    assert_eq!(crop_line_rows(50, 40, 70), (40, 10));
    assert_eq!(crop_line_rows(0, 5, 5), (0, 1));
    assert_eq!(crop_line_rows(100, 30, 30), (30, 1));
}

#[test]
fn luma_image_well_formedness() {
    assert!(page().is_well_formed());
    let bad = LumaImage { width: 2, height: 1, rows: vec![vec![1]] };
    assert!(!bad.is_well_formed());
}

fn rgb(width: u32, height: u32, c: Rgb) -> RgbImage {
    RgbImage { width, height, rows: vec![vec![c; width as usize]; height as usize] }
}

#[test]
fn thicken_paints_neighbours_of_dark_pixels_black() {
    let white = Rgb { r: 255, g: 255, b: 255 };
    let black = Rgb { r: 0, g: 0, b: 0 };
    let mut color = rgb(5, 5, white);
    color.rows[2][2] = Rgb { r: 10, g: 10, b: 10 };
    let out = thicken_characters(&color, 170, 1);
    for y in 0..5 {
        for x in 0..5 {
            let near = (1..=3).contains(&x) && (1..=3).contains(&y);
            assert_eq!(out.rows[y][x], if near { black } else { white });
        }
    }
}

#[test]
fn thicken_keeps_light_pages() {
    let c = Rgb { r: 200, g: 180, b: 190 };
    let color = rgb(3, 2, c);
    let out = thicken_characters(&color, 170, 1);
    assert_eq!(out.rows, color.rows);
    assert!(out.is_well_formed());
}

#[test]
fn thicken_with_radius_zero_only_blackens_dark_pixels() {
    let c = Rgb { r: 200, g: 200, b: 200 };
    let mut color = rgb(3, 1, c);
    color.rows[0][0] = Rgb { r: 100, g: 100, b: 100 };
    let out = thicken_characters(&color, 150, 0);
    assert_eq!(out.rows[0], vec![Rgb { r: 0, g: 0, b: 0 }, c, c]);
}

#[test]
fn thicken_with_huge_radius_checks_only_the_pixel_itself() {
    let c = Rgb { r: 200, g: 200, b: 200 };
    let mut color = rgb(3, 1, c);
    color.rows[0][0] = Rgb { r: 100, g: 100, b: 100 };
    let out = thicken_characters(&color, 150, u32::MAX);
    assert_eq!(out.rows[0], vec![Rgb { r: 0, g: 0, b: 0 }, c, c]);
}

#[test]
fn thicken_grey_value_weighs_green_most() {
    let white = Rgb { r: 255, g: 255, b: 255 };
    let mut color = rgb(3, 1, white);
    color.rows[0][0] = Rgb { r: 255, g: 0, b: 255 };
    color.rows[0][2] = Rgb { r: 0, g: 255, b: 0 };
    let out = thicken_characters(&color, 170, 0);
    assert_eq!(out.rows[0][0], Rgb { r: 0, g: 0, b: 0 });
    assert_eq!(out.rows[0][1], white);
    assert_eq!(out.rows[0][2], Rgb { r: 0, g: 255, b: 0 });
}

fn png_bytes(img: &image::GrayImage) -> Vec<u8> {
    let mut out = std::io::Cursor::new(Vec::new());
    img.write_to(&mut out, image::ImageFormat::Png).unwrap();
    out.into_inner()
}

#[test]
fn decode_page_reads_a_png_page() {
    let page = page();
    let raw: Vec<u8> = page.rows.iter().flatten().copied().collect();
    let gray = image::GrayImage::from_raw(page.width, page.height, raw).unwrap();
    let decoded = decode_page(&png_bytes(&gray), "png").unwrap();
    assert_eq!(decoded.width, 80);
    assert_eq!(decoded.height, 60);
    assert_eq!(decoded.rows, page.rows);
    assert_eq!(segment_text_lines(&decoded, 0), vec![(6, 24), (31, 54)]);
}

#[test]
fn decode_page_rejects_garbage() {
    assert_eq!(decode_page(&[1, 2, 3, 4], "png").err(), Some(PageError::Undecodable));
    assert_eq!(decode_page(&[], "png").err(), Some(PageError::Undecodable));
}

#[test]
fn decode_page_goes_by_the_extension() {
    let page = page();
    let raw: Vec<u8> = page.rows.iter().flatten().copied().collect();
    let gray = image::GrayImage::from_raw(page.width, page.height, raw).unwrap();
    let bytes = png_bytes(&gray);
    assert!(decode_page(&bytes, "PNG").is_ok());
    assert_eq!(decode_page(&bytes, "jpg").err(), Some(PageError::Undecodable));
    assert_eq!(decode_page(&bytes, "txt").err(), Some(PageError::Undecodable));
    assert_eq!(decode_page(&bytes, "").err(), Some(PageError::Undecodable));
}

#[test]
fn smoothing_keeps_order_law_example() {
    let low = [1, 4, 2, 8, 3, 0, 5];
    let high = [2, 4, 9, 8, 3, 1, 5];
    let a = smooth_histogram(&low, 1);
    let b = smooth_histogram(&high, 1);
    for i in 0..low.len() {
        assert!(a[i] <= b[i]);
    }
}

#[test]
fn check_window_sums_finds_overflowing_spans() {
    assert!(check_window_sums(&[1, 2, 3], 1));
    assert!(check_window_sums(&[i32::MAX, 0], 1));
    assert!(!check_window_sums(&[i32::MAX, 1, 0], 1));
    assert!(!check_window_sums(&[i32::MIN, -1, 0], 1));
    assert!(check_window_sums(&[i32::MAX, -1, 1], 1));
}

#[test]
fn try_segment_text_lines_agrees_with_segment_text_lines() {
    let img = page();
    assert_eq!(try_segment_text_lines(&img, 0), Some(vec![(6, 24), (31, 54)]));
    assert_eq!(try_segment_text_lines(&img, 40), Some(vec![(10, 20), (35, 50)]));
}
