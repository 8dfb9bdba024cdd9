use vstd::prelude::*;

use crate::prompt::{build_prompt, prompt_context, PROMPT_HEAD, PROMPT_TAIL};
use crate::text::{replace_all, replace_seq};

verus! {

/// The page text once the placeholders `labels[0..]` have been replaced, in
/// turn, by `descriptions[0..]`.
pub open spec fn described_context(
    context: Seq<char>,
    labels: Seq<Seq<char>>,
    descriptions: Seq<Seq<char>>,
) -> Seq<char>
    decreases descriptions.len(),
{
    if descriptions.len() == 0 {
        context
    } else {
        replace_seq(
            described_context(context, labels, descriptions.drop_last()),
            labels[descriptions.len() - 1],
            descriptions.last(),
        )
    }
}

/// The state of describing the pictures of one page, one after the other:
/// the page text so far, the placeholder labels of the pictures and the
/// number of pictures described.
pub struct PageDescriber {
    context: String,
    labels: Vec<String>,
    next: usize,
    original: Ghost<Seq<char>>,
    descriptions: Ghost<Seq<Seq<char>>>,
}

/// The mathematical picture of a [`PageDescriber`].
pub struct PageDescriberView {
    pub original: Seq<char>,
    pub labels: Seq<Seq<char>>,
    pub descriptions: Seq<Seq<char>>,
    pub context: Seq<char>,
}

/// What to do next.
pub enum DescribeAction {
    /// Describe the picture `region` (an index into the labels), asking the
    /// model with `prompt`, and hand the answer to `on_description`.
    Describe { region: usize, prompt: String },
    /// Every picture is described.
    Finish,
}

/// The labels of `labels`, as character sequences.
pub open spec fn label_views(labels: Seq<String>) -> Seq<Seq<char>> {
    Seq::new(labels.len(), |i: int| labels[i]@)
}

impl View for PageDescriber {
    type V = PageDescriberView;

    closed spec fn view(&self) -> PageDescriberView {
        PageDescriberView {
            original: self.original@,
            labels: label_views(self.labels@),
            descriptions: self.descriptions@,
            context: self.context@,
        }
    }
}

impl PageDescriber {
    /// One description per picture done, no more than there are pictures, and
    /// the text is the original with those descriptions put in.
    pub closed spec fn wf(&self) -> bool {
        &&& self.next == self.descriptions@.len()
        &&& self.next <= self.labels@.len()
        &&& self.context@ == described_context(
            self.original@,
            label_views(self.labels@),
            self.descriptions@,
        )
    }

    /// Starts on the page text `context` with the pictures whose placeholders
    /// are `labels`.
    pub fn new(context: String, labels: Vec<String>) -> (d: Self)
        ensures
            d.wf(),
            d@.original == context@,
            d@.labels == label_views(labels@),
            d@.descriptions == Seq::<Seq<char>>::empty(),
            d@.context == context@,
    {
        let ghost original = context@;
        PageDescriber {
            context,
            labels,
            next: 0,
            original: Ghost(original),
            descriptions: Ghost(Seq::empty()),
        }
    }

    /// The page text so far.
    pub fn context(&self) -> (c: &str)
        ensures
            c@ == self@.context,
    {
        self.context.as_str()
    }

    /// What to do next: describe the first picture not yet described, with
    /// the page text so far as context, or finish.
    pub fn next_action(&self) -> (a: DescribeAction)
        requires
            self.wf(),
        ensures
            match a {
                DescribeAction::Finish => self@.descriptions.len() == self@.labels.len(),
                DescribeAction::Describe { region, prompt } => {
                    &&& region == self@.descriptions.len()
                    &&& region < self@.labels.len()
                    &&& prompt@ == PROMPT_HEAD@ + prompt_context(self@.context) + PROMPT_TAIL@
                },
            },
    {
        if self.next < self.labels.len() {
            let prompt = build_prompt(self.context.as_str());
            DescribeAction::Describe { region: self.next, prompt }
        } else {
            DescribeAction::Finish
        }
    }

    /// Takes the description of the current picture: every occurrence of its
    /// label in the page text is replaced by `description`.
    pub fn on_description(&mut self, description: &str)
        requires
            old(self).wf(),
            old(self)@.descriptions.len() < old(self)@.labels.len(),
        ensures
            final(self).wf(),
            final(self)@.original == old(self)@.original,
            final(self)@.labels == old(self)@.labels,
            final(self)@.descriptions == old(self)@.descriptions.push(description@),
            final(self)@.context == replace_seq(
                old(self)@.context,
                old(self)@.labels[old(self)@.descriptions.len() as int],
                description@,
            ),
    {
        let ghost old_descriptions = self.descriptions@;
        let count = self.labels.len();
        assert(self.next < count);
        let replaced = replace_all(self.context.as_str(), self.labels[self.next].as_str(), description);
        self.context = replaced;
        self.descriptions = Ghost(old_descriptions.push(description@));
        self.next = self.next + 1;
        proof {
            let d = self.descriptions@;
            assert(d.drop_last() =~= old_descriptions);
        }
    }

    /// The page text with every picture described.
    pub fn into_context(self) -> (c: String)
        ensures
            c@ == self@.context,
    {
        self.context
    }
}

/// Describing the pictures one after the other puts each description in
/// place of its label, in turn: once all are described, the text is the
/// original with the labels replaced by the descriptions in order.
pub proof fn law_descriptions_replace_labels_in_order(d: &PageDescriber)
    requires
        d.wf(),
        d@.descriptions.len() == d@.labels.len(),
    ensures
        d@.context == described_context(d@.original, d@.labels, d@.descriptions),
{
}

}
