use softwerk_ocr::tokenize::{decode_output, prompt_input_ids};
use softwerk_ocr::tokens::{IMAGE_PAD, IM_END, IM_START};
use tokenizers::models::wordlevel::WordLevel;
use tokenizers::pre_tokenizers::whitespace::Whitespace;
use tokenizers::Tokenizer;

fn tokenizer() -> Tokenizer {
    let vocab = [
        ("[UNK]".to_string(), 0u32),
        ("system".to_string(), 1),
        ("user".to_string(), 2),
        ("assistant".to_string(), 3),
    ];
    let model = WordLevel::builder().vocab(vocab.into()).unk_token("[UNK]".to_string()).build().unwrap();
    let mut tokenizer = Tokenizer::new(model);
    tokenizer.with_pre_tokenizer(Some(Whitespace {}));
    tokenizer
}

#[test]
fn prompt_input_ids_encode_the_chat_words() {
    let ids = prompt_input_ids(&tokenizer(), 4, 5).unwrap();
    assert_eq!(
        ids,
        vec![IM_START, 1, IM_END, IM_START, 2, IMAGE_PAD, IMAGE_PAD, IMAGE_PAD, IMAGE_PAD, IM_END, IM_START, 3]
            .into_iter()
            .collect::<Vec<u32>>()
    );
}

#[test]
fn decode_output_leaves_out_end_tokens() {
    let text = decode_output(&tokenizer(), &[1, IM_END, 3, IM_END]).unwrap();
    assert_eq!(text, "system assistant");
}
