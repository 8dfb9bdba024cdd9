use vstd::prelude::*;

use crate::page::ImageCoordinates;
use crate::text::{self, char_is_whitespace, chars_of, contains_chars, push_all, string_from_chars, trim_chars};

verus! {

/// The transcription of a handwritten page with the picture placeholders of
/// `labels` added: the text is trimmed, then each label that it does not yet
/// contain is appended, on a line of its own unless the text is empty.
pub open spec fn merged_text(text: Seq<char>, labels: Seq<Seq<char>>) -> Seq<char>
    decreases labels.len(),
{
    if labels.len() == 0 {
        text::trim_seq(text)
    } else {
        let m = merged_text(text, labels.drop_last());
        let l = labels.last();
        if text::contains_seq(m, l) {
            m
        } else if m.len() == 0 {
            l
        } else {
            m + seq!['\n'] + l
        }
    }
}

/// The labels of the picture regions, in order.
pub open spec fn region_labels(regions: Seq<ImageCoordinates>) -> Seq<Seq<char>> {
    regions.map_values(|r: ImageCoordinates| r.lable@)
}

/// Puts the picture placeholders of a page back into its handwritten
/// transcription: the text is trimmed and every placeholder label that it
/// does not contain yet is appended on a line of its own.
pub fn merge_handwritten_with_placeholders(
    handwritten_text: &str,
    image_regions: &[ImageCoordinates],
) -> (merged: String)
    ensures
        merged@ == merged_text(handwritten_text@, region_labels(image_regions@)),
{
    let ghost labels = region_labels(image_regions@);
    let cs = chars_of(handwritten_text);
    let mut merged = trim_chars(cs.as_slice());
    let mut i: usize = 0;
    assert(labels.take(0) =~= Seq::<Seq<char>>::empty());
    while i < image_regions.len()
        invariant
            labels == region_labels(image_regions@),
            i <= image_regions@.len(),
            merged@ == merged_text(handwritten_text@, labels.take(i as int)),
        decreases image_regions@.len() - i,
    {
        let label = chars_of(image_regions[i].lable.as_str());
        assert(labels.take(i + 1).drop_last() =~= labels.take(i as int));
        assert(labels.take(i + 1).last() == label@);
        if !contains_chars(merged.as_slice(), label.as_slice()) {
            if merged.len() > 0 {
                merged.push('\n');
            }
            push_all(&mut merged, label.as_slice());
        }
        i = i + 1;
    }
    assert(labels.take(image_regions@.len() as int) =~= labels);
    string_from_chars(merged.as_slice())
}

proof fn lemma_contains_extends(m: Seq<char>, x: Seq<char>, l: Seq<char>)
    requires
        text::contains_seq(m, l),
    ensures
        text::contains_seq(m + x, l),
{
    let i = choose|i: int| #[trigger] text::occurs_at(m, l, i);
    assert((m + x).subrange(i, i + l.len()) =~= m.subrange(i, i + l.len()));
    assert(text::occurs_at(m + x, l, i));
}

/// Merging keeps the transcription and every placeholder: the trimmed text
/// is the start of the result, and every label of the regions occurs in it.
pub proof fn law_merge_keeps_text_and_placeholders(text: Seq<char>, labels: Seq<Seq<char>>)
    ensures
        merged_text(text, labels).len() >= text::trim_seq(text).len(),
        merged_text(text, labels).subrange(0, text::trim_seq(text).len() as int) == text::trim_seq(
            text,
        ),
        forall|i: int|
            0 <= i < labels.len() ==> text::contains_seq(merged_text(text, labels), #[trigger] labels[i]),
    decreases labels.len(),
{
    let t = text::trim_seq(text);
    let r = merged_text(text, labels);
    if labels.len() == 0 {
        assert(r.subrange(0, t.len() as int) =~= t);
    } else {
        let rest = labels.drop_last();
        law_merge_keeps_text_and_placeholders(text, rest);
        let m = merged_text(text, rest);
        let l = labels.last();
        if text::contains_seq(m, l) {
        } else if m.len() == 0 {
            assert(t.len() == 0);
            assert(r.subrange(0, 0) =~= t);
            assert(r.subrange(0, l.len() as int) =~= l);
            assert(text::occurs_at(r, l, 0));
        } else {
            assert(r.subrange(0, t.len() as int) =~= m.subrange(0, t.len() as int));
            assert(r.subrange(m.len() + 1int, m.len() + 1int + l.len()) =~= l);
            assert(text::occurs_at(r, l, m.len() + 1int));
        }
        assert forall|i: int| 0 <= i < labels.len() implies text::contains_seq(
            r,
            #[trigger] labels[i],
        ) by {
            if i < labels.len() - 1 {
                assert(labels[i] == rest[i]);
                if !text::contains_seq(m, l) && m.len() > 0 {
                    lemma_contains_extends(m, seq!['\n'] + l, labels[i]);
                    assert(m + (seq!['\n'] + l) =~= r);
                } else if !text::contains_seq(m, l) {
                    let j = choose|j: int| #[trigger] text::occurs_at(m, labels[i], j);
                    assert(labels[i].len() == 0);
                    assert(r.subrange(0, 0) =~= labels[i]);
                    assert(text::occurs_at(r, labels[i], 0));
                }
            } else {
                assert(labels[i] == l);
                if text::contains_seq(m, l) {
                } else if m.len() == 0 {
                    assert(r.subrange(0, l.len() as int) =~= l);
                    assert(text::occurs_at(r, l, 0));
                } else {
                    assert(r.subrange(m.len() + 1int, m.len() + 1int + l.len()) =~= l);
                    assert(text::occurs_at(r, l, m.len() + 1int));
                }
            }
        }
    }
}

proof fn lemma_merged_ends(text: Seq<char>, labels: Seq<Seq<char>>)
    requires
        forall|i: int| 0 <= i < labels.len() ==> text::trim_seq(#[trigger] labels[i]) == labels[i],
    ensures
        merged_text(text, labels).len() == 0 || (!text::is_white_space(merged_text(text, labels)[0])
            && !text::is_white_space(merged_text(text, labels).last())),
    decreases labels.len(),
{
    if labels.len() == 0 {
        text::law_trim_strips_both_ends(text);
    } else {
        let rest = labels.drop_last();
        assert forall|i: int| 0 <= i < rest.len() implies text::trim_seq(#[trigger] rest[i])
            == rest[i] by {
            assert(rest[i] == labels[i]);
        }
        lemma_merged_ends(text, rest);
        let m = merged_text(text, rest);
        let l = labels.last();
        assert(text::trim_seq(l) == l);
        text::law_trim_strips_both_ends(l);
        if !text::contains_seq(m, l) {
            if l.len() == 0 {
                assert(m.subrange(0, 0) =~= l);
                assert(text::occurs_at(m, l, 0));
            }
            let r = merged_text(text, labels);
            if m.len() > 0 {
                assert(r == m + seq!['\n'] + l);
                assert(r[0] == m[0]);
                assert(r.last() == l.last());
            }
        }
    }
}

proof fn lemma_merge_of_contained(m: Seq<char>, labels: Seq<Seq<char>>)
    requires
        text::trim_seq(m) == m,
        forall|i: int| 0 <= i < labels.len() ==> text::contains_seq(m, #[trigger] labels[i]),
    ensures
        merged_text(m, labels) == m,
    decreases labels.len(),
{
    if labels.len() > 0 {
        let rest = labels.drop_last();
        assert forall|i: int| 0 <= i < rest.len() implies text::contains_seq(m, #[trigger] rest[i]) by {
            assert(rest[i] == labels[i]);
        }
        lemma_merge_of_contained(m, rest);
        assert(text::contains_seq(m, labels[labels.len() - 1]));
    }
}

/// Merging is idempotent when the labels have no white space at their ends:
/// merging a merged text with the same labels again changes nothing.
pub proof fn law_merge_is_idempotent(text: Seq<char>, labels: Seq<Seq<char>>)
    requires
        forall|i: int| 0 <= i < labels.len() ==> text::trim_seq(#[trigger] labels[i]) == labels[i],
    ensures
        merged_text(merged_text(text, labels), labels) == merged_text(text, labels),
{
    let m = merged_text(text, labels);
    lemma_merged_ends(text, labels);
    text::lemma_trim_of_trimmed(m);
    law_merge_keeps_text_and_placeholders(text, labels);
    lemma_merge_of_contained(m, labels);
}

/// Whether `c` is alphabetic: what `char::is_alphabetic` returns for it (the
/// Unicode `Alphabetic` property).
pub uninterp spec fn char_alphabetic(c: char) -> bool;

/// Calls `char::is_alphabetic`, which std documents as testing the Unicode
/// `Alphabetic` property. Trusted: the contract claims only that the answer
/// is `char_alphabetic(c)`, a name for that property; the table of alphabetic
/// characters itself is not stated.
#[verifier::external_body]
fn char_is_alphabetic(c: char) -> (b: bool)
    ensures
        b == char_alphabetic(c),
{
    c.is_alphabetic()
}

/// The number of characters of `s` that are not white space.
pub open spec fn count_visible(s: Seq<char>) -> int
    decreases s.len(),
{
    if s.len() == 0 {
        0
    } else {
        count_visible(s.drop_last()) + (if text::is_white_space(s.last()) {
            0int
        } else {
            1int
        })
    }
}

/// The number of characters of `s` that are not white space and are alphabetic.
pub open spec fn count_letters(s: Seq<char>) -> int
    decreases s.len(),
{
    if s.len() == 0 {
        0
    } else {
        count_letters(s.drop_last()) + (if !text::is_white_space(s.last()) && char_alphabetic(
            s.last(),
        ) {
            1int
        } else {
            0int
        })
    }
}

/// The counts on which the choice of the handwriting model rests: the number
/// of characters of `text` that are not white space, and how many of those
/// are alphabetic.
pub fn text_char_counts(text: &str) -> (counts: (usize, usize))
    ensures
        counts.0 == count_visible(text@),
        counts.1 == count_letters(text@),
{
    let cs = chars_of(text);
    let mut visible: usize = 0;
    let mut letters: usize = 0;
    let mut i: usize = 0;
    while i < cs.len()
        invariant
            cs@ == text@,
            i <= cs@.len(),
            visible == count_visible(cs@.take(i as int)),
            letters == count_letters(cs@.take(i as int)),
            letters <= visible <= i,
        decreases cs@.len() - i,
    {
        let c = cs[i];
        assert(cs@.take(i + 1).drop_last() =~= cs@.take(i as int));
        if !char_is_whitespace(c) {
            visible = visible + 1;
            if char_is_alphabetic(c) {
                letters = letters + 1;
            }
        }
        i = i + 1;
    }
    assert(cs@.take(cs@.len() as int) =~= cs@);
    (visible, letters)
}

proof fn lemma_counts_are_filters(s: Seq<char>)
    ensures
        count_visible(s) == s.filter(|c: char| !text::is_white_space(c)).len(),
        count_letters(s) == s.filter(|c: char| !text::is_white_space(c) && char_alphabetic(c)).len(),
    decreases s.len(),
{
    reveal_with_fuel(Seq::<_>::filter, 1);
    if s.len() > 0 {
        lemma_counts_are_filters(s.drop_last());
    }
}

/// The counts of a transcription are those of its characters that are not
/// white space (line breaks, spaces, tabs and the other Unicode white
/// space), and of those the alphabetic ones: white space counts for nothing
/// wherever it stands, and every other character counts once.
pub proof fn law_counts_skip_white_space(s: Seq<char>, c: char)
    ensures
        count_visible(s) == s.filter(|x: char| !text::is_white_space(x)).len(),
        count_letters(s) == s.filter(|x: char| !text::is_white_space(x) && char_alphabetic(x)).len(),
        text::is_white_space(c) ==> count_visible(s.push(c)) == count_visible(s)
            && count_letters(s.push(c)) == count_letters(s),
        !text::is_white_space(c) ==> count_visible(s.push(c)) == count_visible(s) + 1,
        0 <= count_letters(s) <= count_visible(s) <= s.len(),
{
    lemma_counts_are_filters(s);
    lemma_counts_are_filters(s.push(c));
    assert(s.push(c).drop_last() =~= s);
    lemma_count_bounds(s);
}

proof fn lemma_count_bounds(s: Seq<char>)
    ensures
        0 <= count_letters(s) <= count_visible(s) <= s.len(),
    decreases s.len(),
{
    if s.len() > 0 {
        lemma_count_bounds(s.drop_last());
    }
}

}
