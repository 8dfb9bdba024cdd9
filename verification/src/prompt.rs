use vstd::prelude::*;

use crate::text::{self, chars_of, push_all, string_from_chars, trim_chars};

verus! {

/// The part of the description prompt before the page text.
pub const PROMPT_HEAD: &'static str = "\n\nQuestion: You are an expert forensic document and image analyzer. Your task is to perform precise Optical Character Recognition (OCR) and detailed visual analysis on the provided case file image.

You will be provided with the text surrounding this image for context. Use this context to inform your analysis, but do not hallucinate details that are not visible in the image.

Surrounding Text Context:
";

/// The part of the description prompt after the page text.
pub const PROMPT_TAIL: &'static str = "

Analyze the image and output your findings EXACTLY in the following XML format. Do not include conversational filler. If a section is not applicable or not visible, write ‘None detected’.

<extracted_text>
[Transcribe all visible text in the image exactly as written, preserving line breaks, typos, and capitalization. Differentiate between handwritten and printed text if possible.]
</extracted_text>

<people_and_subjects>
[Describe all visible persons. Include estimated age, sex, clothing, distinct physical features, facial expressions, and physical positioning/actions.]
</people_and_subjects>

<objects_and_evidence>
[List and describe all distinct objects. Include colors, makes/models, conditions (e.g., damaged, pristine), and spatial relationships to other objects.]
</objects_and_evidence>

<location_and_environment>
[Describe the setting. Note indoor/outdoor, lighting conditions, weather, architectural details, and any identifiable signage or landmarks.]
</location_and_environment>

<forensic_anomalies_and_metadata>
[Describe anything else of investigative value. This includes timestamps, logos, official stamps, signatures, watermarks, damage to the physical document/photograph (e.g., tears, stains), or inconsistencies.]
</forensic_anomalies_and_metadata>
\n\nAnswer:";

/// The page text used when a page has none around a picture.
pub const NO_CONTEXT: &'static str = "No surrounding text content found.";

/// The most characters of page text that go into a prompt.
pub const MAX_CONTEXT_CHARS: usize = 300;

/// The page text as it goes into the prompt: trimmed, replaced by
/// `NO_CONTEXT` when nothing is left, and cut to its first
/// `MAX_CONTEXT_CHARS` characters.
pub open spec fn prompt_context(context: Seq<char>) -> Seq<char> {
    let trimmed = text::trim_seq(context);
    let ctx = if trimmed.len() == 0 {
        NO_CONTEXT@
    } else {
        trimmed
    };
    if ctx.len() <= MAX_CONTEXT_CHARS {
        ctx
    } else {
        ctx.take(MAX_CONTEXT_CHARS as int)
    }
}

/// Builds the prompt that asks for a description of a picture, with the text
/// around the picture on the page as context.
pub fn build_prompt(context: &str) -> (prompt: String)
    ensures
        prompt@ == PROMPT_HEAD@ + prompt_context(context@) + PROMPT_TAIL@,
{
    let cs = chars_of(context);
    let trimmed = trim_chars(cs.as_slice());
    let ctx: Vec<char> = if trimmed.len() == 0 {
        chars_of(NO_CONTEXT)
    } else {
        trimmed
    };
    let take = if ctx.len() <= MAX_CONTEXT_CHARS {
        ctx.len()
    } else {
        MAX_CONTEXT_CHARS
    };
    let mut out = chars_of(PROMPT_HEAD);
    let ghost head = out@;
    let mut i: usize = 0;
    while i < take
        invariant
            take <= ctx@.len(),
            i <= take,
            out@ == head + ctx@.take(i as int),
        decreases take - i,
    {
        out.push(ctx[i]);
        assert(ctx@.take(i + 1) =~= ctx@.take(i as int).push(ctx@[i as int]));
        i = i + 1;
    }
    assert(ctx@.take(take as int) =~= prompt_context(context@));
    let tail = chars_of(PROMPT_TAIL);
    push_all(&mut out, tail.as_slice());
    string_from_chars(out.as_slice())
}

/// The page text in a description prompt is its beginning: when the trimmed
/// page text is empty the prompt says so with `NO_CONTEXT`; otherwise the
/// context is a prefix of the trimmed text, the whole of it when it has at
/// most `MAX_CONTEXT_CHARS` characters and exactly its first
/// `MAX_CONTEXT_CHARS` characters when it has more.
pub proof fn law_prompt_context_is_the_start_of_the_text(c: Seq<char>)
    ensures
        text::trim_seq(c).len() == 0 ==> prompt_context(c) == NO_CONTEXT@,
        text::trim_seq(c).len() > 0 ==> {
            &&& prompt_context(c).is_prefix_of(text::trim_seq(c))
            &&& prompt_context(c).len() == if text::trim_seq(c).len() <= MAX_CONTEXT_CHARS {
                text::trim_seq(c).len() as int
            } else {
                MAX_CONTEXT_CHARS as int
            }
        },
{
    let t = text::trim_seq(c);
    reveal_strlit("No surrounding text content found.");
    assert(NO_CONTEXT@.len() <= MAX_CONTEXT_CHARS);
    if t.len() > 0 {
        if t.len() > MAX_CONTEXT_CHARS {
            assert(prompt_context(c) =~= t.subrange(0, MAX_CONTEXT_CHARS as int));
        } else {
            assert(prompt_context(c) =~= t.subrange(0, t.len() as int));
        }
    }
}

}
