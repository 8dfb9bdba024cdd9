use vstd::prelude::*;



verus! {

/// The token that opens a chat turn (`<|im_start|>`).
pub const IM_START: u32 = 151644;

/// The token that closes a chat turn (`<|im_end|>`), which also ends generation.
pub const IM_END: u32 = 151645;

/// The token that stands for one patch of the page image (`<|image_pad|>`).
pub const IMAGE_PAD: u32 = 151655;

/// The most tokens generated for one page.
pub const MAX_NEW_TOKENS: usize = 1024;

/// The prompt of the transcription model, as token ids: a system turn, a user
/// turn that holds one `IMAGE_PAD` per image token, and the opening of the
/// assistant turn.
pub open spec fn prompt_ids(
    system: Seq<u32>,
    user: Seq<u32>,
    assistant: Seq<u32>,
    newline: Seq<u32>,
    num_image_tokens: nat,
) -> Seq<u32> {
    seq![IM_START] + system + seq![IM_END] + newline + seq![IM_START] + user + Seq::new(
        num_image_tokens,
        |i: int| IMAGE_PAD,
    ) + seq![IM_END] + newline + seq![IM_START] + assistant
}

/// The number of image tokens for a grid of `ph` x `pw` patches, once
/// neighbouring patches are merged two by two in each direction.
pub fn merged_image_tokens(ph: usize, pw: usize) -> (n: usize)
    requires
        (ph / 2) * (pw / 2) <= usize::MAX,
    ensures
        n == (ph / 2) * (pw / 2),
{
    (ph / 2) * (pw / 2)
}

/// Builds the token ids of the transcription prompt from the encoded words
/// `system`, `user\n`, `assistant\n` and `\n`.
pub fn build_input_ids(
    system: &[u32],
    user: &[u32],
    assistant: &[u32],
    newline: &[u32],
    num_image_tokens: usize,
) -> (ids: Vec<u32>)
    ensures
        ids@ == prompt_ids(system@, user@, assistant@, newline@, num_image_tokens as nat),
{
    let mut ids: Vec<u32> = Vec::new();
    ids.push(IM_START);
    push_all_ids(&mut ids, system);
    ids.push(IM_END);
    push_all_ids(&mut ids, newline);
    ids.push(IM_START);
    push_all_ids(&mut ids, user);
    let ghost before_pad = ids@;
    let mut i: usize = 0;
    while i < num_image_tokens
        invariant
            i <= num_image_tokens,
            ids@ == before_pad + Seq::new(i as nat, |j: int| IMAGE_PAD),
        decreases num_image_tokens - i,
    {
        ids.push(IMAGE_PAD);
        assert(Seq::new((i + 1) as nat, |j: int| IMAGE_PAD) =~= Seq::new(i as nat, |j: int| IMAGE_PAD).push(
            IMAGE_PAD,
        ));
        i = i + 1;
    }
    ids.push(IM_END);
    push_all_ids(&mut ids, newline);
    ids.push(IM_START);
    push_all_ids(&mut ids, assistant);
    assert(ids@ =~= prompt_ids(system@, user@, assistant@, newline@, num_image_tokens as nat));
    ids
}

/// Appends the ids of `xs` to `out`.
fn push_all_ids(out: &mut Vec<u32>, xs: &[u32])
    ensures
        final(out)@ == old(out)@ + xs@,
{
    let ghost start = out@;
    let mut i: usize = 0;
    while i < xs.len()
        invariant
            i <= xs@.len(),
            out@ == start + xs@.subrange(0, i as int),
        decreases xs@.len() - i,
    {
        out.push(xs[i]);
        assert(xs@.subrange(0, i + 1) =~= xs@.subrange(0, i as int).push(xs@[i as int]));
        i = i + 1;
    }
    assert(xs@.subrange(0, xs@.len() as int) =~= xs@);
}

/// The token to feed back into the model for the next decoding step, or
/// `None` when decoding is over: after `IM_END`, or once `max_new_tokens`
/// tokens have been generated.
pub fn next_decode_input(generated: &[u32], max_new_tokens: usize) -> (next: Option<u32>)
    requires
        generated@.len() > 0,
    ensures
        next == (if generated@.len() >= max_new_tokens || generated@.last() == IM_END {
            None
        } else {
            Some(generated@.last())
        }),
{
    let last = generated[generated.len() - 1];
    if generated.len() >= max_new_tokens || last == IM_END {
        None
    } else {
        Some(last)
    }
}

/// The generated tokens to decode into text: all but `IM_END`.
pub fn visible_token_ids(generated: &[u32]) -> (ids: Vec<u32>)
    ensures
        ids@ == generated@.filter(|t: u32| t != IM_END),
{
    let mut ids: Vec<u32> = Vec::new();
    let mut i: usize = 0;
    while i < generated.len()
        invariant
            i <= generated@.len(),
            ids@ == generated@.take(i as int).filter(|t: u32| t != IM_END),
        decreases generated@.len() - i,
    {
        assert(generated@.take(i + 1).drop_last() =~= generated@.take(i as int));
        proof {
            reveal_with_fuel(Seq::<_>::filter, 1);
        }
        if generated[i] != IM_END {
            ids.push(generated[i]);
        }
        i = i + 1;
    }
    assert(generated@.take(generated@.len() as int) =~= generated@);
    ids
}


/// Where one row of the spliced input embeddings comes from: the given row
/// of the projected image embeddings, or the text embedding at the given
/// position.
#[derive(Clone, Copy, PartialEq, Eq, Structural, Debug)]
pub enum EmbeddingSource {
    Image(usize),
    Text(usize),
}

/// The number of times `tok` occurs in `ids`.
pub open spec fn count_token(ids: Seq<u32>, tok: u32) -> nat
    decreases ids.len(),
{
    if ids.len() == 0 {
        0
    } else {
        count_token(ids.drop_last(), tok) + (if ids.last() == tok {
            1nat
        } else {
            0nat
        })
    }
}

/// The source of row `i`: an image token takes the next image embedding (as
/// many image tokens come before it), any other token keeps its own text
/// embedding.
pub open spec fn splice_source(ids: Seq<u32>, tok: u32, i: int) -> EmbeddingSource {
    if ids[i] == tok {
        EmbeddingSource::Image(count_token(ids.take(i), tok) as usize)
    } else {
        EmbeddingSource::Text(i as usize)
    }
}

/// The number of image tokens among the input ids.
pub fn count_image_tokens(ids: &[u32], image_token_id: u32) -> (n: usize)
    ensures
        n == count_token(ids@, image_token_id),
{
    let mut n: usize = 0;
    let mut i: usize = 0;
    while i < ids.len()
        invariant
            i <= ids@.len(),
            n == count_token(ids@.take(i as int), image_token_id),
            n <= i,
        decreases ids@.len() - i,
    {
        assert(ids@.take(i + 1).drop_last() =~= ids@.take(i as int));
        if ids[i] == image_token_id {
            n = n + 1;
        }
        i = i + 1;
    }
    assert(ids@.take(ids@.len() as int) =~= ids@);
    n
}

/// How the input embeddings are put together: for each position of the
/// input, whether its row is the next image embedding or the position's own
/// text embedding. The number of image tokens must equal the number of image
/// embeddings.
pub fn splice_plan(ids: &[u32], image_token_id: u32, num_image_tokens: usize) -> (plan: Vec<
    EmbeddingSource,
>)
    requires
        count_token(ids@, image_token_id) == num_image_tokens,
    ensures
        plan@ == Seq::new(ids@.len(), |i: int| splice_source(ids@, image_token_id, i)),
{
    let mut plan: Vec<EmbeddingSource> = Vec::new();
    let mut img_idx: usize = 0;
    let mut i: usize = 0;
    while i < ids.len()
        invariant
            i <= ids@.len(),
            img_idx == count_token(ids@.take(i as int), image_token_id),
            img_idx <= i,
            plan@ == Seq::new(i as nat, |j: int| splice_source(ids@, image_token_id, j)),
        decreases ids@.len() - i,
    {
        assert(ids@.take(i + 1).drop_last() =~= ids@.take(i as int));
        if ids[i] == image_token_id {
            plan.push(EmbeddingSource::Image(img_idx));
            img_idx = img_idx + 1;
        } else {
            plan.push(EmbeddingSource::Text(i));
        }
        assert(plan@ =~= Seq::new((i + 1) as nat, |j: int| splice_source(ids@, image_token_id, j)));
        i = i + 1;
    }
    plan
}

proof fn lemma_count_prefix_mono(ids: Seq<u32>, tok: u32, i: int, j: int)
    requires
        0 <= i <= j <= ids.len(),
    ensures
        count_token(ids.take(i), tok) <= count_token(ids.take(j), tok),
        i < j && ids[i] == tok ==> count_token(ids.take(i), tok) < count_token(ids.take(j), tok),
    decreases j - i,
{
    if i < j {
        lemma_count_prefix_mono(ids, tok, i, j - 1);
        assert(ids.take(j).drop_last() =~= ids.take(j - 1));
        if i == j - 1 {
        } else {
            lemma_count_prefix_mono(ids, tok, i, j - 1);
        }
    }
}

/// Image embedding `k` is taken by some image token of `ids`.
pub open spec fn image_row_taken(ids: Seq<u32>, tok: u32, k: int) -> bool {
    exists|i: int| 0 <= i < ids.len() && ids[i] == tok && #[trigger] count_token(ids.take(i), tok) == k
}

proof fn lemma_every_image_row_used(ids: Seq<u32>, tok: u32)
    ensures
        forall|k: int| 0 <= k < count_token(ids, tok) ==> #[trigger] image_row_taken(ids, tok, k),
    decreases ids.len(),
{
    if ids.len() > 0 {
        let front = ids.drop_last();
        lemma_every_image_row_used(front, tok);
        assert forall|k: int| 0 <= k < count_token(ids, tok) implies #[trigger] image_row_taken(
            ids,
            tok,
            k,
        ) by {
            if k < count_token(front, tok) {
                assert(image_row_taken(front, tok, k));
                let i = choose|i: int|
                    0 <= i < front.len() && front[i] == tok && #[trigger] count_token(
                        front.take(i),
                        tok,
                    ) == k;
                assert(ids.take(i) =~= front.take(i));
                assert(ids[i] == tok);
            } else {
                let i = ids.len() - 1;
                assert(ids.take(i) =~= front);
                assert(ids[i] == tok);
                assert(count_token(ids.take(i), tok) == k);
            }
        }
    }
}

/// The image embeddings are used in order, each exactly once: the image rows
/// of the plan are numbered below the number of image tokens, a later image
/// token always takes a later image embedding, and every image embedding is
/// taken by some image token.
pub proof fn law_splice_uses_image_rows_in_order(ids: Seq<u32>, tok: u32)
    ensures
        forall|k: int| 0 <= k < count_token(ids, tok) ==> #[trigger] image_row_taken(ids, tok, k),
        forall|i: int|
            0 <= i < ids.len() && ids[i] == tok ==> (#[trigger] count_token(ids.take(i), tok))
                < count_token(ids, tok),
        forall|i: int, j: int|
            0 <= i < j < ids.len() && ids[i] == tok ==> #[trigger] count_token(ids.take(i), tok)
                < #[trigger] count_token(ids.take(j), tok),
{
    assert forall|i: int| 0 <= i < ids.len() && ids[i] == tok implies (#[trigger] count_token(
        ids.take(i),
        tok,
    )) < count_token(ids, tok) by {
        lemma_count_prefix_mono(ids, tok, i, ids.len() as int);
        assert(ids.take(ids.len() as int) =~= ids);
    }
    assert forall|i: int, j: int|
        0 <= i < j < ids.len() && ids[i] == tok implies #[trigger] count_token(ids.take(i), tok)
        < #[trigger] count_token(ids.take(j), tok) by {
        lemma_count_prefix_mono(ids, tok, i, j);
    }
    lemma_every_image_row_used(ids, tok);
}

}
