use softwerk_ocr::handwriting::{merge_handwritten_with_placeholders, text_char_counts};
use softwerk_ocr::page::ImageCoordinates;
use softwerk_ocr::placeholders::find_image_placeholders;
use softwerk_ocr::prompt::{build_prompt, NO_CONTEXT, PROMPT_HEAD, PROMPT_TAIL};
use softwerk_ocr::text::{contains_chars, replace_all, trim};

fn expected_prompt(ctx: &str) -> String {
    format!(
"\n\nQuestion: You are an expert forensic document and image analyzer. Your task is to perform precise Optical Character Recognition (OCR) and detailed visual analysis on the provided case file image.

You will be provided with the text surrounding this image for context. Use this context to inform your analysis, but do not hallucinate details that are not visible in the image.

Surrounding Text Context:
{}

Analyze the image and output your findings EXACTLY in the following XML format. Do not include conversational filler. If a section is not applicable or not visible, write ‘None detected’.

<extracted_text>
[Transcribe all visible text in the image exactly as written, preserving line breaks, typos, and capitalization. Differentiate between handwritten and printed text if possible.]
</extracted_text>

<people_and_subjects>
[Describe all visible persons. Include estimated age, sex, clothing, distinct physical features, facial expressions, and physical positioning/actions.]
</people_and_subjects>

<objects_and_evidence>
[List and describe all distinct objects. Include colors, makes/models, conditions (e.g., damaged, pristine), and spatial relationships to other objects.]
</objects_and_evidence>

<location_and_environment>
[Describe the setting. Note indoor/outdoor, lighting conditions, weather, architectural details, and any identifiable signage or landmarks.]
</location_and_environment>

<forensic_anomalies_and_metadata>
[Describe anything else of investigative value. This includes timestamps, logos, official stamps, signatures, watermarks, damage to the physical document/photograph (e.g., tears, stains), or inconsistencies.]
</forensic_anomalies_and_metadata>
\n\nAnswer:", ctx)
}

fn region(label: &str) -> ImageCoordinates {
    ImageCoordinates { lable: label.to_string(), x1: 0, x2: 1, y1: 0, y2: 1 }
}

#[test]
fn build_prompt_puts_trimmed_context_in_the_template() {
    let p = build_prompt("  Dear Sir,\nthe case file.  ");
    assert_eq!(p, expected_prompt("Dear Sir,\nthe case file."));
    assert!(p.starts_with("\n\nQuestion: You are an expert forensic document"));
    assert!(p.ends_with("\n\nAnswer:"));
    assert_eq!(format!("{}{}{}", PROMPT_HEAD, "x", PROMPT_TAIL), expected_prompt("x"));
}

#[test]
fn build_prompt_without_context_says_so() {
    assert_eq!(build_prompt(""), expected_prompt("No surrounding text content found."));
    assert_eq!(build_prompt(" \n\t "), expected_prompt(NO_CONTEXT));
}

#[test]
fn build_prompt_keeps_at_most_three_hundred_characters() {
    let long: String = "åbc".repeat(200);
    let kept: String = long.chars().take(300).collect();
    assert_eq!(build_prompt(&long), expected_prompt(&kept));
}

#[test]
fn trim_matches_std() {
    for s in ["", "  ", " a b ", "\u{3000}x\u{85}", "\t\n y", "z"] {
        assert_eq!(trim(s), s.trim());
    }
}

#[test]
fn replace_all_matches_std() {
    let cases = [
        ("a X b X", "X", "Y"),
        ("aaa", "aa", "b"),
        ("abc", "", "x"),
        ("", "", "x"),
        ("no match", "zz", "q"),
        ("![image](image_1.png) 1,2,3,4 text", "![image](image_1.png) 1,2,3,4", "A picture."),
    ];
    for (s, from, to) in cases {
        assert_eq!(replace_all(s, from, to), s.replace(from, to));
    }
}

#[test]
fn replace_without_occurrence_law_example() {
    assert_eq!(replace_all("hello world", "xyz", "abc"), "hello world");
}

#[test]
fn contains_chars_finds_substrings() {
    let hay: Vec<char> = "hello world".chars().collect();
    let yes: Vec<char> = "o w".chars().collect();
    let no: Vec<char> = "ow".chars().collect();
    assert!(contains_chars(&hay, &yes));
    assert!(!contains_chars(&hay, &no));
    assert!(contains_chars(&hay, &[]));
    assert!(!contains_chars(&[], &no));
}

#[test]
fn merge_appends_missing_placeholders() {
    let label = "![image](image_1.png) 10,20,30,40";
    let merged = merge_handwritten_with_placeholders("  some handwriting \n", &[region(label)]);
    assert_eq!(merged, format!("some handwriting\n{}", label));
}

#[test]
fn merge_keeps_placeholders_already_present() {
    let label = "![image](image_1.png) 10,20,30,40";
    let text = format!("before {} after", label);
    let merged = merge_handwritten_with_placeholders(&text, &[region(label), region(label)]);
    assert_eq!(merged, text);
}

#[test]
fn merge_of_empty_text_is_the_labels() {
    let merged = merge_handwritten_with_placeholders("   ", &[region("A"), region("B")]);
    assert_eq!(merged, "A\nB");
    assert_eq!(merge_handwritten_with_placeholders("", &[]), "");
}

#[test]
fn merge_keeps_text_and_every_label_law_example() {
    let labels = ["x1", "y2", "x1y2", "zz"];
    let regions: Vec<ImageCoordinates> = labels.iter().map(|l| region(l)).collect();
    let merged = merge_handwritten_with_placeholders(" x1 ", &regions);
    assert!(merged.starts_with("x1"));
    for l in labels {
        assert!(merged.contains(l));
    }
    assert_eq!(merged, "x1\ny2\nx1y2\nzz");
}

#[test]
fn find_image_placeholders_reads_the_coordinates() {
    let out = "Intro\n![image](image_12.png) 100,200,300,400\nmore ![image](image_3.png)\n\t5,6,7,8end";
    let found = find_image_placeholders(out);
    assert_eq!(found.len(), 2);
    assert_eq!(found[0].label, "![image](image_12.png) 100,200,300,400");
    assert_eq!(
        (found[0].x1.as_str(), found[0].y1.as_str(), found[0].x2.as_str(), found[0].y2.as_str()),
        ("100", "200", "300", "400")
    );
    assert_eq!(found[1].label, "![image](image_3.png)\n\t5,6,7,8");
    assert_eq!(found[1].y2, "8");
}

#[test]
fn find_image_placeholders_skips_malformed_ones() {
    assert!(find_image_placeholders("![image](image_.png) 1,2,3,4").is_empty());
    assert!(find_image_placeholders("![image](image_1.png) 1,2,3").is_empty());
    assert!(find_image_placeholders("![image](image_1.png) 1,2,,4").is_empty());
    assert!(find_image_placeholders("![image](image_1.jpg) 1,2,3,4").is_empty());
    assert!(find_image_placeholders("").is_empty());
}

#[test]
fn find_image_placeholders_accepts_other_decimal_digits() {
    let found = find_image_placeholders("![image](image_\u{661}.png)\u{3000}\u{661}\u{662},2,3,4");
    assert_eq!(found.len(), 1);
    assert_eq!(found[0].x1, "\u{661}\u{662}");
}

#[test]
fn find_image_placeholders_resumes_after_a_match() {
    let found = find_image_placeholders("![image](image_1.png)1,2,3,4![image](image_2.png)5,6,7,8");
    assert_eq!(found.len(), 2);
    assert_eq!(found[1].x1, "5");
}

#[test]
fn text_char_counts_counts_visible_and_alphabetic() {
    assert_eq!(text_char_counts("ab 1!"), (4, 2));
    assert_eq!(text_char_counts(""), (0, 0));
    assert_eq!(text_char_counts(" Åä\u{3000}7 "), (3, 2));
}

#[test]
fn placeholders_are_pieces_of_the_text_law_example() {
    let out = "a ![image](image_1.png) 1,2,3,4 b ![image](image_22.png)55,66,77,88 c";
    let found = find_image_placeholders(out);
    assert_eq!(found.len(), 2);
    for p in &found {
        assert!(out.contains(p.label.as_str()));
        assert!(p.label.starts_with("![image](image_"));
        for n in [&p.x1, &p.y1, &p.x2, &p.y2] {
            assert!(!n.is_empty() && n.chars().all(|c| c.is_ascii_digit()));
        }
    }
}

#[test]
fn trim_strips_both_ends_law_example() {
    let t = trim("\u{2003} inner text \u{205f}\n");
    assert_eq!(t, "inner text");
    assert!(!t.starts_with(char::is_whitespace) && !t.ends_with(char::is_whitespace));
}

#[test]
fn merge_is_idempotent_law_example() {
    let regions = vec![region("![image](image_1.png) 1,2,3,4"), region("B")];
    let once = merge_handwritten_with_placeholders("  text \n", &regions);
    let twice = merge_handwritten_with_placeholders(&once, &regions);
    assert_eq!(once, twice);
}
