use softwerk_ocr::describe::{DescribeAction, PageDescriber};
use softwerk_ocr::generation::{GenerationAction, PageDecoder};
use softwerk_ocr::prompt::build_prompt;
use softwerk_ocr::tokens::{IM_END, MAX_NEW_TOKENS};

fn decode(action: GenerationAction) -> Option<(u32, usize)> {
    match action {
        GenerationAction::Decode { token, offset } => Some((token, offset)),
        GenerationAction::Finish => None,
    }
}

#[test]
fn page_decoder_feeds_tokens_back_at_growing_offsets() {
    let mut d = PageDecoder::new(40, 7);
    assert_eq!(decode(d.next_action()), Some((7, 40)));
    d.on_token(8);
    assert_eq!(decode(d.next_action()), Some((8, 41)));
    d.on_token(9);
    assert_eq!(decode(d.next_action()), Some((9, 42)));
    assert_eq!(d.generated(), &[7, 8, 9]);
}

#[test]
fn page_decoder_stops_at_the_end_token() {
    let mut d = PageDecoder::new(3, 5);
    d.on_token(IM_END);
    assert_eq!(decode(d.next_action()), None);
    assert_eq!(d.generated(), &[5, IM_END]);
    let first_is_end = PageDecoder::new(3, IM_END);
    assert_eq!(decode(first_is_end.next_action()), None);
}

#[test]
fn page_decoder_stops_after_the_token_limit() {
    let mut d = PageDecoder::new(10, 1);
    let mut steps = 0;
    while let Some((token, offset)) = decode(d.next_action()) {
        assert_eq!(offset, 10 + d.generated().len() - 1);
        d.on_token(token + 1);
        steps += 1;
    }
    assert_eq!(steps, MAX_NEW_TOKENS - 1);
    assert_eq!(d.generated().len(), MAX_NEW_TOKENS);
}

#[test]
fn page_describer_replaces_each_label_in_turn() {
    let mut d = PageDescriber::new(
        "a [img1] b [img2] c [img1]".to_string(),
        vec!["[img1]".to_string(), "[img2]".to_string()],
    );
    match d.next_action() {
        DescribeAction::Describe { region, prompt } => {
            assert_eq!(region, 0);
            assert_eq!(prompt, build_prompt("a [img1] b [img2] c [img1]"));
        }
        DescribeAction::Finish => panic!("expected a picture to describe"),
    }
    d.on_description("cat");
    assert_eq!(d.context(), "a cat b [img2] c cat");
    match d.next_action() {
        DescribeAction::Describe { region, prompt } => {
            assert_eq!(region, 1);
            assert_eq!(prompt, build_prompt("a cat b [img2] c cat"));
        }
        DescribeAction::Finish => panic!("expected a picture to describe"),
    }
    d.on_description("dog");
    assert!(matches!(d.next_action(), DescribeAction::Finish));
    assert_eq!(d.into_context(), "a cat b dog c cat");
}

#[test]
fn page_describer_without_pictures_finishes_at_once() {
    let d = PageDescriber::new("text".to_string(), vec![]);
    assert!(matches!(d.next_action(), DescribeAction::Finish));
    assert_eq!(d.into_context(), "text");
}
