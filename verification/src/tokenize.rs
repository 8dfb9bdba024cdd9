use vstd::prelude::*;

use tokenizers::Tokenizer;

use crate::tokens::{build_input_ids, merged_image_tokens, prompt_ids, visible_token_ids, IM_END};

verus! {

#[verifier::external_type_specification]
#[verifier::external_body]
pub struct ExTokenizer(tokenizers::Tokenizer);

/// Holds when `ids` is an encoding that `Tokenizer::encode` can give for
/// `text` with the flag `add_special_tokens`. It is a relation and no
/// function: a model with dropout draws at random while it encodes, so one
/// text may have more than one encoding.
pub uninterp spec fn is_encoding_of(
    tokenizer: Tokenizer,
    text: Seq<char>,
    add_special_tokens: bool,
    ids: Seq<u32>,
) -> bool;

/// What `Tokenizer::decode` gives for `ids` with the flag
/// `skip_special_tokens`: the text, or `None` where it fails. It depends on
/// the tokenizer and on these two arguments alone.
pub uninterp spec fn decoded_text(
    tokenizer: Tokenizer,
    ids: Seq<u32>,
    skip_special_tokens: bool,
) -> Option<Seq<char>>;

/// Encodes `text` with `Tokenizer::encode` and returns the ids of the encoding
/// (`Encoding::get_ids`), or the message of the error. Trusted: the ids that
/// come back are an encoding of `text` under the given flag
/// (`is_encoding_of`); which ids those are depends on the vocabulary loaded
/// into the tokenizer and is not stated, nor when the call fails.
#[verifier::external_body]
fn encode_text(tokenizer: &Tokenizer, text: &str, add_special_tokens: bool) -> (r: Result<
    Vec<u32>,
    String,
>)
    ensures
        r matches Ok(ids) ==> is_encoding_of(*tokenizer, text@, add_special_tokens, ids@),
{
    match tokenizer.encode(text, add_special_tokens) {
        Ok(encoding) => Ok(encoding.get_ids().to_vec()),
        Err(e) => Err(e.to_string()),
    }
}

/// Decodes `ids` with `Tokenizer::decode` into text, or returns the message of
/// the error. Trusted: the text, or the failure, is what `decoded_text` names
/// for the tokenizer, the ids and the flag; the message of an error is not
/// stated.
#[verifier::external_body]
fn decode_ids(tokenizer: &Tokenizer, ids: &[u32], skip_special_tokens: bool) -> (r: Result<
    String,
    String,
>)
    ensures
        match r {
            Ok(t) => decoded_text(*tokenizer, ids@, skip_special_tokens) == Some(t@),
            Err(_) => decoded_text(*tokenizer, ids@, skip_special_tokens) is None,
        },
{
    match tokenizer.decode(ids, skip_special_tokens) {
        Ok(text) => Ok(text),
        Err(e) => Err(e.to_string()),
    }
}

/// The token ids of the transcription prompt for a page of `ph` x `pw`
/// patches: the words `system`, `user\n`, `assistant\n` and `\n` are encoded
/// without special tokens and laid out by `build_input_ids` with one image
/// token per merged patch. An error of the tokenizer is returned as it is.
pub fn prompt_input_ids(tokenizer: &Tokenizer, ph: usize, pw: usize) -> (r: Result<
    Vec<u32>,
    String,
>)
    requires
        (ph / 2) * (pw / 2) <= usize::MAX,
    ensures
        r matches Ok(ids) ==> exists|s: Seq<u32>, u: Seq<u32>, a: Seq<u32>, n: Seq<u32>|
            {
                &&& is_encoding_of(*tokenizer, "system"@, false, s)
                &&& is_encoding_of(*tokenizer, "user\n"@, false, u)
                &&& is_encoding_of(*tokenizer, "assistant\n"@, false, a)
                &&& is_encoding_of(*tokenizer, "\n"@, false, n)
                &&& ids@ == #[trigger] prompt_ids(s, u, a, n, ((ph / 2) * (pw / 2)) as nat)
            },
{
    let num_image_tokens = merged_image_tokens(ph, pw);
    let system_tokens = encode_text(tokenizer, "system", false)?;
    let user_tokens = encode_text(tokenizer, "user\n", false)?;
    let assistant_tokens = encode_text(tokenizer, "assistant\n", false)?;
    let newline_tokens = encode_text(tokenizer, "\n", false)?;
    let ids = build_input_ids(
        system_tokens.as_slice(),
        user_tokens.as_slice(),
        assistant_tokens.as_slice(),
        newline_tokens.as_slice(),
        num_image_tokens,
    );
    assert(ids@ == prompt_ids(
        system_tokens@,
        user_tokens@,
        assistant_tokens@,
        newline_tokens@,
        ((ph / 2) * (pw / 2)) as nat,
    ));
    Ok(ids)
}

/// Decodes the generated tokens into text: the end tokens are left out and
/// special tokens are skipped. An error of the tokenizer is returned as it is.
pub fn decode_output(tokenizer: &Tokenizer, generated: &[u32]) -> (r: Result<String, String>)
    ensures
        match r {
            Ok(t) => decoded_text(*tokenizer, generated@.filter(|x: u32| x != IM_END), true)
                == Some(t@),
            Err(_) => decoded_text(*tokenizer, generated@.filter(|x: u32| x != IM_END), true)
                is None,
        },
{
    let ids = visible_token_ids(generated);
    decode_ids(tokenizer, ids.as_slice(), true)
}

}
