use softwerk_ocr::config::RopeParameters;
use softwerk_ocr::page::{extract_region_rect, region_fits, ImageCoordinates, ImageDimentions, Page};
use softwerk_ocr::pages::{pages_from_entries, DirEntryInfo};
use softwerk_ocr::tokens::{
    build_input_ids, count_image_tokens, merged_image_tokens, next_decode_input, splice_plan,
    visible_token_ids, EmbeddingSource, IMAGE_PAD, IM_END, IM_START, MAX_NEW_TOKENS,
};

fn entry(path: &str, is_file: bool, ext: Option<&str>, name: Option<&str>) -> DirEntryInfo {
    DirEntryInfo {
        path: path.to_string(),
        is_file,
        extension: ext.map(|e| e.to_string()),
        file_name: name.map(|n| n.to_string()),
    }
}

fn paths(pages: &[Page]) -> Vec<&str> {
    pages.iter().map(|p| p.path.as_str()).collect()
}

#[test]
fn pages_are_image_files_sorted_by_path() {
    let entries = vec![
        entry("data/images/b.png", true, Some("png"), Some("b.png")),
        entry("data/images/a.JPG", true, Some("JPG"), Some("a.JPG")),
        entry("data/images/notes.txt", true, Some("txt"), Some("notes.txt")),
        entry("data/images/dir.png", false, Some("png"), Some("dir.png")),
        entry("data/images/noext", true, None, Some("noext")),
        entry("data/images/c.jpeg", true, Some("jpeg"), None),
        entry("data/images/A.Png", true, Some("Png"), Some("A.Png")),
    ];
    let pages = pages_from_entries(&entries);
    assert_eq!(
        paths(&pages),
        vec!["data/images/A.Png", "data/images/a.JPG", "data/images/b.png", "data/images/c.jpeg"]
    );
    assert_eq!(pages[3].name, "unknown");
    assert_eq!(pages[0].name, "A.Png");
}

#[test]
fn pages_sort_law_example() {
    let names = ["p10.png", "p2.png", "p1.png", "p1.png", "Ω.png", "z.png"];
    let entries: Vec<DirEntryInfo> = names
        .iter()
        .enumerate()
        .map(|(i, n)| entry(n, true, Some("png"), Some(&format!("{}", i))))
        .collect();
    let pages = pages_from_entries(&entries);
    let mut expected: Vec<(String, String)> =
        entries.iter().map(|e| (e.path.clone(), e.file_name.clone().unwrap())).collect();
    expected.sort_by(|a, b| a.0.cmp(&b.0));
    let got: Vec<(String, String)> = pages.iter().map(|p| (p.path.clone(), p.name.clone())).collect();
    assert_eq!(got, expected);
}

#[test]
fn pages_from_no_entries() {
    assert!(pages_from_entries(&[]).is_empty());
}

#[test]
fn input_ids_follow_the_chat_template() {
    let ids = build_input_ids(&[1, 2], &[3], &[4, 5], &[9], 3);
    assert_eq!(
        ids,
        vec![
            IM_START, 1, 2, IM_END, 9, IM_START, 3, IMAGE_PAD, IMAGE_PAD, IMAGE_PAD, IM_END, 9,
            IM_START, 4, 5
        ]
    );
    assert_eq!(build_input_ids(&[], &[], &[], &[], 0), vec![IM_START, IM_END, IM_START, IM_END, IM_START]);
}

#[test]
fn merged_image_tokens_halves_each_side() {
    assert_eq!(merged_image_tokens(88, 100), 2200);
    assert_eq!(merged_image_tokens(5, 7), 6);
    assert_eq!(merged_image_tokens(1, 100), 0);
}

#[test]
fn decoding_stops_at_end_token_or_limit() {
    assert_eq!(next_decode_input(&[5, 6], MAX_NEW_TOKENS), Some(6));
    assert_eq!(next_decode_input(&[5, IM_END], MAX_NEW_TOKENS), None);
    assert_eq!(next_decode_input(&[5, 6], 2), None);
    assert_eq!(next_decode_input(&[IM_END], 1024), None);
}

#[test]
fn visible_tokens_drop_end_tokens() {
    assert_eq!(visible_token_ids(&[1, IM_END, 2, IM_END]), vec![1, 2]);
    assert_eq!(visible_token_ids(&[]), Vec::<u32>::new());
}

#[test]
fn splice_plan_numbers_image_rows_in_order() {
    let ids = [7, IMAGE_PAD, 8, IMAGE_PAD, IMAGE_PAD, 9];
    assert_eq!(count_image_tokens(&ids, IMAGE_PAD), 3);
    let plan = splice_plan(&ids, IMAGE_PAD, 3);
    assert_eq!(
        plan,
        vec![
            EmbeddingSource::Text(0),
            EmbeddingSource::Image(0),
            EmbeddingSource::Text(2),
            EmbeddingSource::Image(1),
            EmbeddingSource::Image(2),
            EmbeddingSource::Text(5)
        ]
    );
}

#[test]
fn region_rect_is_cut_at_the_page_edge() {
    let dims = ImageDimentions { img_h: 100, img_w: 200 };
    let r = ImageCoordinates { lable: "l".to_string(), x1: 150, x2: 260, y1: 10, y2: 30 };
    assert!(region_fits(&r, &dims));
    assert_eq!(extract_region_rect(&r, &dims), (150, 10, 50, 20));
    let inside = ImageCoordinates { lable: "l".to_string(), x1: 1, x2: 3, y1: 2, y2: 99 };
    assert_eq!(extract_region_rect(&inside, &dims), (1, 2, 2, 97));
    let reversed = ImageCoordinates { lable: "l".to_string(), x1: 5, x2: 3, y1: 2, y2: 9 };
    assert!(!region_fits(&reversed, &dims));
}

#[test]
fn rope_parameters_keep_their_values() {
    let p = RopeParameters::new(10000, "default".to_string());
    assert_eq!(p.rope_theta(), 10000);
    assert_eq!(p.rope_type(), "default");
}
