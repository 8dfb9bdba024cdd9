use vstd::prelude::*;

use crate::tokens::{next_decode_input, IM_END, MAX_NEW_TOKENS};

verus! {

/// The state of greedy generation for one page: the tokens generated so far
/// (the first one comes from the prompt pass) and the position at which the
/// next decoding step writes into the model's cache.
pub struct PageDecoder {
    prompt_len: usize,
    generated: Vec<u32>,
    offset: usize,
}

/// The mathematical picture of a [`PageDecoder`].
pub struct PageDecoderView {
    pub prompt_len: nat,
    pub generated: Seq<u32>,
    pub offset: nat,
}

/// What the generation loop does next.
pub enum GenerationAction {
    /// Run one decoding step of the model on `token` at cache position
    /// `offset`, pick the most likely token and hand it to `on_token`.
    Decode { token: u32, offset: usize },
    /// Generation is over.
    Finish,
}

/// Generation is over once `MAX_NEW_TOKENS` tokens are there or the last one
/// is `IM_END`.
pub open spec fn generation_done(generated: Seq<u32>) -> bool {
    generated.len() >= MAX_NEW_TOKENS || generated.last() == IM_END
}

impl View for PageDecoder {
    type V = PageDecoderView;

    closed spec fn view(&self) -> PageDecoderView {
        PageDecoderView {
            prompt_len: self.prompt_len as nat,
            generated: self.generated@,
            offset: self.offset as nat,
        }
    }
}

impl PageDecoder {
    /// At least the first token, at most `MAX_NEW_TOKENS`; the offset is the
    /// prompt length plus one for each token fed back so far; and every offset
    /// that can still come fits in a `usize`.
    pub closed spec fn wf(&self) -> bool {
        &&& 1 <= self.generated@.len() <= MAX_NEW_TOKENS
        &&& self.offset == self.prompt_len + self.generated@.len() - 1
        &&& self.prompt_len + MAX_NEW_TOKENS <= usize::MAX + 1
    }

    /// Generation after the prompt pass over `prompt_len` tokens gave
    /// `first_token`.
    pub fn new(prompt_len: usize, first_token: u32) -> (d: Self)
        requires
            prompt_len + MAX_NEW_TOKENS <= usize::MAX + 1,
        ensures
            d.wf(),
            d@.prompt_len == prompt_len,
            d@.generated == seq![first_token],
            d@.offset == prompt_len,
    {
        let mut generated: Vec<u32> = Vec::new();
        generated.push(first_token);
        PageDecoder { prompt_len, generated, offset: prompt_len }
    }

    /// The tokens generated so far.
    pub fn generated(&self) -> (g: &[u32])
        ensures
            g@ == self@.generated,
    {
        self.generated.as_slice()
    }

    /// What to do next: finish when generation is done, else feed the last
    /// token back at the current offset.
    pub fn next_action(&self) -> (a: GenerationAction)
        requires
            self.wf(),
        ensures
            match a {
                GenerationAction::Finish => generation_done(self@.generated),
                GenerationAction::Decode { token, offset } => {
                    &&& !generation_done(self@.generated)
                    &&& token == self@.generated.last()
                    &&& offset == self@.prompt_len + self@.generated.len() - 1
                },
            },
    {
        match next_decode_input(self.generated.as_slice(), MAX_NEW_TOKENS) {
            Some(token) => GenerationAction::Decode { token, offset: self.offset },
            None => GenerationAction::Finish,
        }
    }

    /// Takes the token picked at this step: it is appended and the offset
    /// moves on by one.
    pub fn on_token(&mut self, token: u32)
        requires
            old(self).wf(),
            !generation_done(old(self)@.generated),
        ensures
            final(self).wf(),
            final(self)@.prompt_len == old(self)@.prompt_len,
            final(self)@.generated == old(self)@.generated.push(token),
            final(self)@.offset == old(self)@.offset + 1,
    {
        self.generated.push(token);
        self.offset = self.offset + 1;
    }
}

/// Generation is bounded and its offsets are those of the tokens fed back: a
/// decoder holds between one and `MAX_NEW_TOKENS` tokens, and the `j`-th token
/// fed back (the first is number 1) goes in at offset `prompt_len + j - 1`.
pub proof fn law_generation_offsets(d: &PageDecoder)
    requires
        d.wf(),
    ensures
        1 <= d@.generated.len() <= MAX_NEW_TOKENS,
        d@.offset == d@.prompt_len + d@.generated.len() - 1,
{
}

}
