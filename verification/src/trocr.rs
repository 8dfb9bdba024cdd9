use vstd::prelude::*;

verus! {

/// The most decoding steps for one line of handwriting.
pub const TROCR_MAX_STEPS: usize = 1000;

/// The state of the handwriting decoder: the tokens so far (the first is the
/// decoder start token), the number of steps taken, and whether the end token
/// has come.
pub struct TrocrDecoder {
    token_ids: Vec<u32>,
    step: usize,
    finished: bool,
}

/// The mathematical picture of a [`TrocrDecoder`].
pub struct TrocrDecoderView {
    pub tokens: Seq<u32>,
    pub step: nat,
    pub finished: bool,
}

/// What the decoder asks for next.
pub enum TrocrAction {
    /// Run the model on `input` (the tokens from `start_pos` on), set the
    /// logits of the tokens in `banned` to minus infinity, sample a token and
    /// hand it to `on_token`.
    Decode { start_pos: usize, input: Vec<u32>, banned: Vec<usize> },
    /// Decoding is over.
    Finish,
}

/// Where the model input starts: the whole sequence at the first step, then
/// only the last token (the model keeps the rest in its cache).
pub open spec fn decode_start(v: TrocrDecoderView) -> int {
    let ctx: int = if v.step >= 1 {
        1
    } else {
        v.tokens.len() as int
    };
    if v.tokens.len() >= ctx {
        v.tokens.len() - ctx
    } else {
        0
    }
}

/// The tokens whose logits are banned at this step: after the first step the
/// start and padding tokens, so that decoding cannot loop on them.
pub open spec fn banned_tokens(v: TrocrDecoderView, bos: usize, pad: usize) -> Seq<usize> {
    if v.step >= 1 {
        seq![bos, pad]
    } else {
        Seq::empty()
    }
}

impl View for TrocrDecoder {
    type V = TrocrDecoderView;

    closed spec fn view(&self) -> TrocrDecoderView {
        TrocrDecoderView { tokens: self.token_ids@, step: self.step as nat, finished: self.finished }
    }
}

impl TrocrDecoder {
    /// One token per step after the start token, and no more steps than allowed.
    pub closed spec fn wf(&self) -> bool {
        &&& self.token_ids@.len() == self.step + 1
        &&& self.step <= TROCR_MAX_STEPS
    }

    /// A decoder that starts from `decoder_start_token_id`.
    pub fn new(decoder_start_token_id: u32) -> (d: Self)
        ensures
            d.wf(),
            d@.tokens == seq![decoder_start_token_id],
            d@.step == 0,
            !d@.finished,
    {
        let mut token_ids = Vec::new();
        token_ids.push(decoder_start_token_id);
        TrocrDecoder { token_ids, step: 0, finished: false }
    }

    /// The tokens decoded so far, the start token first.
    pub fn tokens(&self) -> (t: &[u32])
        ensures
            t@ == self@.tokens,
    {
        self.token_ids.as_slice()
    }

    /// What to do next: finish once the end token has come or the steps are
    /// used up, else decode from `decode_start` with the banned tokens.
    pub fn next_action(&self, bos: usize, pad: usize) -> (a: TrocrAction)
        requires
            self.wf(),
        ensures
            match a {
                TrocrAction::Finish => self@.finished || self@.step >= TROCR_MAX_STEPS,
                TrocrAction::Decode { start_pos, input, banned } => {
                    &&& !self@.finished
                    &&& self@.step < TROCR_MAX_STEPS
                    &&& start_pos == decode_start(self@)
                    &&& input@ == self@.tokens.subrange(start_pos as int, self@.tokens.len() as int)
                    &&& banned@ == banned_tokens(self@, bos, pad)
                },
            },
    {
        if self.finished || self.step >= TROCR_MAX_STEPS {
            return TrocrAction::Finish;
        }
        let len = self.token_ids.len();
        let ctx = if self.step >= 1 {
            1
        } else {
            len
        };
        let start_pos = if len >= ctx {
            len - ctx
        } else {
            0
        };
        let mut input: Vec<u32> = Vec::new();
        let mut k = start_pos;
        while k < len
            invariant
                start_pos <= k <= len,
                len == self.token_ids@.len(),
                input@ == self.token_ids@.subrange(start_pos as int, k as int),
            decreases len - k,
        {
            input.push(self.token_ids[k]);
            assert(self.token_ids@.subrange(start_pos as int, k + 1) =~= self.token_ids@.subrange(
                start_pos as int,
                k as int,
            ).push(self.token_ids@[k as int]));
            k = k + 1;
        }
        let mut banned: Vec<usize> = Vec::new();
        if self.step >= 1 {
            banned.push(bos);
            banned.push(pad);
        }
        proof {
            if self.step >= 1 {
                assert(banned@ =~= seq![bos, pad]);
            } else {
                assert(banned@ =~= Seq::<usize>::empty());
            }
        }
        TrocrAction::Decode { start_pos, input, banned }
    }

    /// Takes the token sampled at this step: it is appended, the step count
    /// goes up, and decoding finishes when it is the end token `eos`.
    pub fn on_token(&mut self, token: u32, eos: u32)
        requires
            old(self).wf(),
            !old(self)@.finished,
            old(self)@.step < TROCR_MAX_STEPS,
        ensures
            final(self).wf(),
            final(self)@.tokens == old(self)@.tokens.push(token),
            final(self)@.step == old(self)@.step + 1,
            final(self)@.finished == (token == eos),
    {
        self.token_ids.push(token);
        self.step = self.step + 1;
        self.finished = token == eos;
    }
}

/// Decoding is bounded: a decoder never takes more than `TROCR_MAX_STEPS`
/// steps, and holds one token per step after the start token.
pub proof fn law_trocr_decoding_is_bounded(d: &TrocrDecoder)
    requires
        d.wf(),
    ensures
        d@.step <= TROCR_MAX_STEPS,
        d@.tokens.len() == d@.step + 1,
{
}

}
