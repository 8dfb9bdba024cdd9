use vstd::prelude::*;

use crate::text::{self, char_is_whitespace, chars_of, push_char};

verus! {

/// The Unicode `Decimal_Number` category (Unicode 16.0), which is what the
/// `\d` class of a regular expression matches.
pub open spec fn is_decimal_digit(c: char) -> bool {
    let u = c as u32;
    ||| 0x30 <= u <= 0x39
    ||| 0x660 <= u <= 0x669
    ||| 0x6F0 <= u <= 0x6F9
    ||| 0x7C0 <= u <= 0x7C9
    ||| 0x966 <= u <= 0x96F
    ||| 0x9E6 <= u <= 0x9EF
    ||| 0xA66 <= u <= 0xA6F
    ||| 0xAE6 <= u <= 0xAEF
    ||| 0xB66 <= u <= 0xB6F
    ||| 0xBE6 <= u <= 0xBEF
    ||| 0xC66 <= u <= 0xC6F
    ||| 0xCE6 <= u <= 0xCEF
    ||| 0xD66 <= u <= 0xD6F
    ||| 0xDE6 <= u <= 0xDEF
    ||| 0xE50 <= u <= 0xE59
    ||| 0xED0 <= u <= 0xED9
    ||| 0xF20 <= u <= 0xF29
    ||| 0x1040 <= u <= 0x1049
    ||| 0x1090 <= u <= 0x1099
    ||| 0x17E0 <= u <= 0x17E9
    ||| 0x1810 <= u <= 0x1819
    ||| 0x1946 <= u <= 0x194F
    ||| 0x19D0 <= u <= 0x19D9
    ||| 0x1A80 <= u <= 0x1A89
    ||| 0x1A90 <= u <= 0x1A99
    ||| 0x1B50 <= u <= 0x1B59
    ||| 0x1BB0 <= u <= 0x1BB9
    ||| 0x1C40 <= u <= 0x1C49
    ||| 0x1C50 <= u <= 0x1C59
    ||| 0xA620 <= u <= 0xA629
    ||| 0xA8D0 <= u <= 0xA8D9
    ||| 0xA900 <= u <= 0xA909
    ||| 0xA9D0 <= u <= 0xA9D9
    ||| 0xA9F0 <= u <= 0xA9F9
    ||| 0xAA50 <= u <= 0xAA59
    ||| 0xABF0 <= u <= 0xABF9
    ||| 0xFF10 <= u <= 0xFF19
    ||| 0x104A0 <= u <= 0x104A9
    ||| 0x10D30 <= u <= 0x10D39
    ||| 0x10D40 <= u <= 0x10D49
    ||| 0x11066 <= u <= 0x1106F
    ||| 0x110F0 <= u <= 0x110F9
    ||| 0x11136 <= u <= 0x1113F
    ||| 0x111D0 <= u <= 0x111D9
    ||| 0x112F0 <= u <= 0x112F9
    ||| 0x11450 <= u <= 0x11459
    ||| 0x114D0 <= u <= 0x114D9
    ||| 0x11650 <= u <= 0x11659
    ||| 0x116C0 <= u <= 0x116C9
    ||| 0x116D0 <= u <= 0x116E3
    ||| 0x11730 <= u <= 0x11739
    ||| 0x118E0 <= u <= 0x118E9
    ||| 0x11950 <= u <= 0x11959
    ||| 0x11BF0 <= u <= 0x11BF9
    ||| 0x11C50 <= u <= 0x11C59
    ||| 0x11D50 <= u <= 0x11D59
    ||| 0x11DA0 <= u <= 0x11DA9
    ||| 0x11F50 <= u <= 0x11F59
    ||| 0x16130 <= u <= 0x16139
    ||| 0x16A60 <= u <= 0x16A69
    ||| 0x16AC0 <= u <= 0x16AC9
    ||| 0x16B50 <= u <= 0x16B59
    ||| 0x16D70 <= u <= 0x16D79
    ||| 0x1CCF0 <= u <= 0x1CCF9
    ||| 0x1D7CE <= u <= 0x1D7FF
    ||| 0x1E140 <= u <= 0x1E149
    ||| 0x1E2F0 <= u <= 0x1E2F9
    ||| 0x1E4F0 <= u <= 0x1E4F9
    ||| 0x1E5F1 <= u <= 0x1E5FA
    ||| 0x1E950 <= u <= 0x1E959
    ||| 0x1FBF0 <= u <= 0x1FBF9
}

/// Whether `c` is a decimal digit.
pub fn char_is_decimal_digit(c: char) -> (b: bool)
    ensures
        b == is_decimal_digit(c),
{
    let u = c as u32;
    (0x30 <= u && u <= 0x39) ||
        (0x660 <= u && u <= 0x669) ||
        (0x6F0 <= u && u <= 0x6F9) ||
        (0x7C0 <= u && u <= 0x7C9) ||
        (0x966 <= u && u <= 0x96F) ||
        (0x9E6 <= u && u <= 0x9EF) ||
        (0xA66 <= u && u <= 0xA6F) ||
        (0xAE6 <= u && u <= 0xAEF) ||
        (0xB66 <= u && u <= 0xB6F) ||
        (0xBE6 <= u && u <= 0xBEF) ||
        (0xC66 <= u && u <= 0xC6F) ||
        (0xCE6 <= u && u <= 0xCEF) ||
        (0xD66 <= u && u <= 0xD6F) ||
        (0xDE6 <= u && u <= 0xDEF) ||
        (0xE50 <= u && u <= 0xE59) ||
        (0xED0 <= u && u <= 0xED9) ||
        (0xF20 <= u && u <= 0xF29) ||
        (0x1040 <= u && u <= 0x1049) ||
        (0x1090 <= u && u <= 0x1099) ||
        (0x17E0 <= u && u <= 0x17E9) ||
        (0x1810 <= u && u <= 0x1819) ||
        (0x1946 <= u && u <= 0x194F) ||
        (0x19D0 <= u && u <= 0x19D9) ||
        (0x1A80 <= u && u <= 0x1A89) ||
        (0x1A90 <= u && u <= 0x1A99) ||
        (0x1B50 <= u && u <= 0x1B59) ||
        (0x1BB0 <= u && u <= 0x1BB9) ||
        (0x1C40 <= u && u <= 0x1C49) ||
        (0x1C50 <= u && u <= 0x1C59) ||
        (0xA620 <= u && u <= 0xA629) ||
        (0xA8D0 <= u && u <= 0xA8D9) ||
        (0xA900 <= u && u <= 0xA909) ||
        (0xA9D0 <= u && u <= 0xA9D9) ||
        (0xA9F0 <= u && u <= 0xA9F9) ||
        (0xAA50 <= u && u <= 0xAA59) ||
        (0xABF0 <= u && u <= 0xABF9) ||
        (0xFF10 <= u && u <= 0xFF19) ||
        (0x104A0 <= u && u <= 0x104A9) ||
        (0x10D30 <= u && u <= 0x10D39) ||
        (0x10D40 <= u && u <= 0x10D49) ||
        (0x11066 <= u && u <= 0x1106F) ||
        (0x110F0 <= u && u <= 0x110F9) ||
        (0x11136 <= u && u <= 0x1113F) ||
        (0x111D0 <= u && u <= 0x111D9) ||
        (0x112F0 <= u && u <= 0x112F9) ||
        (0x11450 <= u && u <= 0x11459) ||
        (0x114D0 <= u && u <= 0x114D9) ||
        (0x11650 <= u && u <= 0x11659) ||
        (0x116C0 <= u && u <= 0x116C9) ||
        (0x116D0 <= u && u <= 0x116E3) ||
        (0x11730 <= u && u <= 0x11739) ||
        (0x118E0 <= u && u <= 0x118E9) ||
        (0x11950 <= u && u <= 0x11959) ||
        (0x11BF0 <= u && u <= 0x11BF9) ||
        (0x11C50 <= u && u <= 0x11C59) ||
        (0x11D50 <= u && u <= 0x11D59) ||
        (0x11DA0 <= u && u <= 0x11DA9) ||
        (0x11F50 <= u && u <= 0x11F59) ||
        (0x16130 <= u && u <= 0x16139) ||
        (0x16A60 <= u && u <= 0x16A69) ||
        (0x16AC0 <= u && u <= 0x16AC9) ||
        (0x16B50 <= u && u <= 0x16B59) ||
        (0x16D70 <= u && u <= 0x16D79) ||
        (0x1CCF0 <= u && u <= 0x1CCF9) ||
        (0x1D7CE <= u && u <= 0x1D7FF) ||
        (0x1E140 <= u && u <= 0x1E149) ||
        (0x1E2F0 <= u && u <= 0x1E2F9) ||
        (0x1E4F0 <= u && u <= 0x1E4F9) ||
        (0x1E5F1 <= u && u <= 0x1E5FA) ||
        (0x1E950 <= u && u <= 0x1E959) ||
        (0x1FBF0 <= u && u <= 0x1FBF9)
}


/// One past the run of decimal digits that starts at `p`.
pub open spec fn digits_end(s: Seq<char>, p: int) -> int
    decreases s.len() - p,
{
    if 0 <= p < s.len() && is_decimal_digit(s[p]) {
        digits_end(s, p + 1)
    } else {
        p
    }
}

/// One past the run of white space that starts at `p`.
pub open spec fn spaces_end(s: Seq<char>, p: int) -> int
    decreases s.len() - p,
{
    if 0 <= p < s.len() && text::is_white_space(s[p]) {
        spaces_end(s, p + 1)
    } else {
        p
    }
}

/// The text that opens a picture placeholder.
pub open spec fn image_open() -> Seq<char> {
    seq!['!', '[', 'i', 'm', 'a', 'g', 'e', ']', '(', 'i', 'm', 'a', 'g', 'e', '_']
}

/// The text that follows the picture number in a placeholder.
pub open spec fn png_close() -> Seq<char> {
    seq!['.', 'p', 'n', 'g', ')']
}

/// `s[p]` is a comma.
pub open spec fn comma_at(s: Seq<char>, p: int) -> bool {
    0 <= p < s.len() && s[p] == ','
}

/// The picture placeholder that starts at `i`, if one does: text of the form
/// `![image](image_N.png)` followed by optional white space and four numbers
/// `X1,Y1,X2,Y2`, each number a non-empty run of decimal digits. The result
/// gives where the four numbers start and end: (start of X1, end of X1, end of
/// Y1, end of X2, end of Y2); each number after the first starts one past the
/// comma that ends the one before, and the placeholder ends where Y2 ends.
pub open spec fn placeholder_at(s: Seq<char>, i: int) -> Option<(int, int, int, int, int)> {
    let a = i + 15;
    let b = digits_end(s, a);
    let c = spaces_end(s, b + 5);
    let d = digits_end(s, c);
    let e = digits_end(s, d + 1);
    let f = digits_end(s, e + 1);
    let g = digits_end(s, f + 1);
    if text::occurs_at(s, image_open(), i) && b > a && text::occurs_at(s, png_close(), b) && d > c
        && comma_at(s, d) && e > d + 1 && comma_at(s, e) && f > e + 1 && comma_at(s, f) && g > f
        + 1 {
        Some((c, d, e, f, g))
    } else {
        None
    }
}

/// The mathematical picture of an [`ImagePlaceholder`].
pub struct PlaceholderView {
    pub label: Seq<char>,
    pub x1: Seq<char>,
    pub y1: Seq<char>,
    pub x2: Seq<char>,
    pub y2: Seq<char>,
}

/// The placeholder that starts at `i` and whose numbers are bounded by `m`.
pub open spec fn placeholder_view(s: Seq<char>, i: int, m: (int, int, int, int, int)) -> PlaceholderView {
    let (c, d, e, f, g) = m;
    PlaceholderView {
        label: s.subrange(i, g),
        x1: s.subrange(c, d),
        y1: s.subrange(d + 1, e),
        x2: s.subrange(e + 1, f),
        y2: s.subrange(f + 1, g),
    }
}

/// A run of digits ends at or after where it starts, and inside the text.
pub proof fn lemma_digits_end_bounds(s: Seq<char>, p: int)
    ensures
        digits_end(s, p) >= p,
        0 <= p <= s.len() ==> digits_end(s, p) <= s.len(),
    decreases s.len() - p,
{
    if 0 <= p < s.len() && is_decimal_digit(s[p]) {
        lemma_digits_end_bounds(s, p + 1);
    }
}

/// A run of white space ends at or after where it starts.
pub proof fn lemma_spaces_end_bounds(s: Seq<char>, p: int)
    ensures
        spaces_end(s, p) >= p,
    decreases s.len() - p,
{
    if 0 <= p < s.len() && text::is_white_space(s[p]) {
        lemma_spaces_end_bounds(s, p + 1);
    }
}

/// The picture placeholders of `s` from position `i` on, from left to right,
/// each search going on after the end of the placeholder found before, so
/// that placeholders never overlap.
pub open spec fn placeholders_from(s: Seq<char>, i: int) -> Seq<PlaceholderView>
    decreases s.len() - i,
{
    if i < 0 || i >= s.len() {
        Seq::empty()
    } else {
        match placeholder_at(s, i) {
            Some(m) => {
                proof {
                    lemma_digits_end_bounds(s, m.3 + 1);
                    lemma_spaces_end_bounds(s, digits_end(s, i + 15) + 5);
                }
                seq![placeholder_view(s, i, m)] + placeholders_from(s, m.4)
            },
            None => placeholders_from(s, i + 1),
        }
    }
}


/// A picture placeholder found in a transcription: its whole text, and the
/// digits of its four coordinates (thousandths of the page width and height).
pub struct ImagePlaceholder {
    pub label: String,
    pub x1: String,
    pub y1: String,
    pub x2: String,
    pub y2: String,
}

impl View for ImagePlaceholder {
    type V = PlaceholderView;

    open spec fn view(&self) -> PlaceholderView {
        PlaceholderView {
            label: self.label@,
            x1: self.x1@,
            y1: self.y1@,
            x2: self.x2@,
            y2: self.y2@,
        }
    }
}

fn digits_end_exec(s: &[char], p: usize) -> (q: usize)
    requires
        p <= s@.len(),
    ensures
        q == digits_end(s@, p as int),
        p <= q <= s@.len(),
{
    let mut q = p;
    while q < s.len() && char_is_decimal_digit(s[q])
        invariant
            p <= q <= s@.len(),
            digits_end(s@, p as int) == digits_end(s@, q as int),
        decreases s@.len() - q,
    {
        q = q + 1;
    }
    q
}

fn spaces_end_exec(s: &[char], p: usize) -> (q: usize)
    requires
        p <= s@.len(),
    ensures
        q == spaces_end(s@, p as int),
        p <= q <= s@.len(),
{
    let mut q = p;
    while q < s.len() && char_is_whitespace(s[q])
        invariant
            p <= q <= s@.len(),
            spaces_end(s@, p as int) == spaces_end(s@, q as int),
        decreases s@.len() - q,
    {
        q = q + 1;
    }
    q
}

fn comma_at_exec(s: &[char], p: usize) -> (b: bool)
    ensures
        b == comma_at(s@, p as int),
{
    p < s.len() && s[p] == ','
}

fn placeholder_at_exec(s: &[char], i: usize, open: &[char], close: &[char]) -> (r: Option<
    (usize, usize, usize, usize, usize),
>)
    requires
        open@ == image_open(),
        close@ == png_close(),
    ensures
        match r {
            Some(m) => placeholder_at(s@, i as int) == Some(
                (m.0 as int, m.1 as int, m.2 as int, m.3 as int, m.4 as int),
            ),
            None => placeholder_at(s@, i as int) is None,
        },
{
    assert(open@.len() == 15);
    assert(close@.len() == 5);
    let n = s.len();
    if !text::occurs_at_exec(s, open, i) {
        return None;
    }
    let a = i + 15;
    let b = digits_end_exec(s, a);
    if b == a || !text::occurs_at_exec(s, close, b) {
        return None;
    }
    let c = spaces_end_exec(s, b + 5);
    let d = digits_end_exec(s, c);
    if d == c || !comma_at_exec(s, d) {
        return None;
    }
    let e = digits_end_exec(s, d + 1);
    if e == d + 1 || !comma_at_exec(s, e) {
        return None;
    }
    let f = digits_end_exec(s, e + 1);
    if f == e + 1 || !comma_at_exec(s, f) {
        return None;
    }
    let g = digits_end_exec(s, f + 1);
    if g == f + 1 {
        return None;
    }
    proof {
        lemma_digits_end_bounds(s@, a as int);
    }
    Some((c, d, e, f, g))
}

/// The characters `s[a..b]` as a string.
fn substring(s: &[char], a: usize, b: usize) -> (t: String)
    requires
        a <= b <= s@.len(),
    ensures
        t@ == s@.subrange(a as int, b as int),
{
    let mut t = String::new();
    let mut k = a;
    while k < b
        invariant
            a <= k <= b <= s@.len(),
            t@ == s@.subrange(a as int, k as int),
        decreases b - k,
    {
        push_char(&mut t, s[k]);
        assert(s@.subrange(a as int, k + 1) =~= s@.subrange(a as int, k as int).push(s@[k as int]));
        k = k + 1;
    }
    t
}

/// Finds the picture placeholders that a transcription holds, in order:
/// pieces of the form `![image](image_N.png) X1,Y1,X2,Y2` where N and the
/// coordinates are runs of decimal digits and white space may stand before X1.
pub fn find_image_placeholders(output: &str) -> (found: Vec<ImagePlaceholder>)
    ensures
        found@.map_values(|p: ImagePlaceholder| p@) == placeholders_from(output@, 0),
{
    let s = chars_of(output);
    let open: Vec<char> = vec!['!', '[', 'i', 'm', 'a', 'g', 'e', ']', '(', 'i', 'm', 'a', 'g', 'e', '_'];
    let close: Vec<char> = vec!['.', 'p', 'n', 'g', ')'];
    assert(open@ =~= image_open());
    assert(close@ =~= png_close());
    let n = s.len();
    let mut found: Vec<ImagePlaceholder> = Vec::new();
    let mut i: usize = 0;
    while i < n
        invariant
            n == s@.len(),
            s@ == output@,
            open@ == image_open(),
            close@ == png_close(),
            i <= n,
            found@.map_values(|p: ImagePlaceholder| p@) + placeholders_from(s@, i as int)
                == placeholders_from(s@, 0),
        decreases n - i,
    {
        let ghost before = found@.map_values(|p: ImagePlaceholder| p@);
        match placeholder_at_exec(s.as_slice(), i, open.as_slice(), close.as_slice()) {
            Some((c, d, e, f, g)) => {
                proof {
                    lemma_digits_end_bounds(s@, f + 1);
                    lemma_digits_end_bounds(s@, (i + 15) as int);
                    lemma_spaces_end_bounds(s@, digits_end(s@, i + 15) + 5);
                }
                let found_one = ImagePlaceholder {
                    label: substring(s.as_slice(), i, g),
                    x1: substring(s.as_slice(), c, d),
                    y1: substring(s.as_slice(), d + 1, e),
                    x2: substring(s.as_slice(), e + 1, f),
                    y2: substring(s.as_slice(), f + 1, g),
                };
                assert(found_one@ == placeholder_view(s@, i as int, (c as int, d as int, e as int, f as int, g as int)));
                found.push(found_one);
                assert(found@.map_values(|p: ImagePlaceholder| p@) =~= before.push(found_one@));
                assert(before + placeholders_from(s@, i as int) =~= before.push(found_one@)
                    + placeholders_from(s@, g as int));
                i = g;
            },
            None => {
                i = i + 1;
            },
        }
    }
    assert(found@.map_values(|p: ImagePlaceholder| p@) =~= found@.map_values(|p: ImagePlaceholder| p@) + placeholders_from(s@, n as int));
    found
}


/// `t` is a non-empty run of decimal digits.
pub open spec fn is_number(t: Seq<char>) -> bool {
    t.len() > 0 && forall|q: int| 0 <= q < t.len() ==> is_decimal_digit(#[trigger] t[q])
}

/// `p` is a well-formed placeholder of `s`: its text occurs in `s` and opens
/// with `![image](image_`, and its four coordinates are numbers.
pub open spec fn placeholder_in(s: Seq<char>, p: PlaceholderView) -> bool {
    &&& text::contains_seq(s, p.label)
    &&& p.label.len() >= 15
    &&& p.label.subrange(0, 15) == image_open()
    &&& is_number(p.x1)
    &&& is_number(p.y1)
    &&& is_number(p.x2)
    &&& is_number(p.y2)
}

proof fn lemma_digit_run(s: Seq<char>, p: int)
    requires
        0 <= p,
    ensures
        forall|q: int| p <= q < digits_end(s, p) ==> is_decimal_digit(#[trigger] s[q]),
    decreases s.len() - p,
{
    if 0 <= p < s.len() && is_decimal_digit(s[p]) {
        lemma_digit_run(s, p + 1);
    }
}

proof fn lemma_number_at(s: Seq<char>, a: int, b: int)
    requires
        0 <= a < b <= s.len(),
        b == digits_end(s, a),
    ensures
        is_number(s.subrange(a, b)),
{
    lemma_digit_run(s, a);
    assert forall|q: int| 0 <= q < b - a implies is_decimal_digit(#[trigger] s.subrange(a, b)[q]) by {
        assert(s.subrange(a, b)[q] == s[a + q]);
    }
}

proof fn lemma_placeholders_from_in(s: Seq<char>, i: int)
    ensures
        forall|k: int|
            0 <= k < placeholders_from(s, i).len() ==> placeholder_in(
                s,
                #[trigger] placeholders_from(s, i)[k],
            ),
    decreases s.len() - i,
{
    if 0 <= i < s.len() {
        match placeholder_at(s, i) {
            Some(m) => {
                let (c, d, e, f, g) = m;
                lemma_digits_end_bounds(s, f + 1);
                lemma_digits_end_bounds(s, i + 15);
                lemma_spaces_end_bounds(s, digits_end(s, i + 15) + 5);
                lemma_placeholders_from_in(s, g);
                let v = placeholder_view(s, i, m);
                assert(text::occurs_at(s, v.label, i)) by {
                    assert(s.subrange(i, i + v.label.len()) =~= v.label);
                }
                assert(v.label.subrange(0, 15) =~= s.subrange(i, i + 15));
                lemma_number_at(s, c, d);
                lemma_number_at(s, d + 1, e);
                lemma_number_at(s, e + 1, f);
                lemma_number_at(s, f + 1, g);
                assert(placeholder_in(s, v));
                let rest = placeholders_from(s, g);
                assert(placeholders_from(s, i) == seq![v] + rest);
                assert forall|k: int|
                    0 <= k < placeholders_from(s, i).len() implies placeholder_in(
                    s,
                    #[trigger] placeholders_from(s, i)[k],
                ) by {
                    if k > 0 {
                        assert(placeholders_from(s, i)[k] == rest[k - 1]);
                    } else {
                        assert(placeholders_from(s, i)[k] == v);
                    }
                }
            },
            None => {
                lemma_placeholders_from_in(s, i + 1);
                assert(placeholders_from(s, i) == placeholders_from(s, i + 1));
            },
        }
    }
}

/// Every placeholder found in a transcription is a piece of it that opens
/// with `![image](image_` and holds four numbers, so a picture description
/// can be put in its place.
pub proof fn law_placeholders_are_pieces_of_the_text(s: Seq<char>)
    ensures
        forall|k: int|
            0 <= k < placeholders_from(s, 0).len() ==> placeholder_in(
                s,
                #[trigger] placeholders_from(s, 0)[k],
            ),
{
    lemma_placeholders_from_in(s, 0);
}

proof fn lemma_digits_end_shift(p: Seq<char>, s: Seq<char>, j: int)
    requires
        j >= 0,
    ensures
        digits_end(p + s, p.len() + j) == p.len() + digits_end(s, j),
    decreases s.len() - j,
{
    if j < s.len() {
        assert((p + s)[p.len() + j] == s[j]);
        if is_decimal_digit(s[j]) {
            lemma_digits_end_shift(p, s, j + 1);
        }
    }
}

proof fn lemma_spaces_end_shift(p: Seq<char>, s: Seq<char>, j: int)
    requires
        j >= 0,
    ensures
        spaces_end(p + s, p.len() + j) == p.len() + spaces_end(s, j),
    decreases s.len() - j,
{
    if j < s.len() {
        assert((p + s)[p.len() + j] == s[j]);
        if text::is_white_space(s[j]) {
            lemma_spaces_end_shift(p, s, j + 1);
        }
    }
}

proof fn lemma_occurs_at_shift(p: Seq<char>, s: Seq<char>, x: Seq<char>, j: int)
    requires
        j >= 0,
    ensures
        text::occurs_at(p + s, x, p.len() + j) == text::occurs_at(s, x, j),
{
    if j + x.len() <= s.len() {
        assert((p + s).subrange(p.len() + j, p.len() + j + x.len()) =~= s.subrange(j, j + x.len()));
    }
}

proof fn lemma_comma_at_shift(p: Seq<char>, s: Seq<char>, j: int)
    requires
        j >= 0,
    ensures
        comma_at(p + s, p.len() + j) == comma_at(s, j),
{
    if j < s.len() {
        assert((p + s)[p.len() + j] == s[j]);
    }
}

/// The bounds of a placeholder found at `i` lie in order inside the text.
proof fn lemma_placeholder_bounds(s: Seq<char>, i: int)
    requires
        0 <= i,
        placeholder_at(s, i) is Some,
    ensures
        ({
            let (c, d, e, f, g) = placeholder_at(s, i)->0;
            i + 15 < c < d < e < f < g <= s.len()
        }),
{
    let (c, d, e, f, g) = placeholder_at(s, i)->0;
    lemma_digits_end_bounds(s, i + 15);
    lemma_spaces_end_bounds(s, digits_end(s, i + 15) + 5);
    lemma_digits_end_bounds(s, f + 1);
}

/// Where a placeholder starts `n` characters later in a longer text, the
/// same placeholder is found, its bounds moved on by `n`.
proof fn lemma_placeholder_at_shift(p: Seq<char>, s: Seq<char>, j: int)
    requires
        j >= 0,
    ensures
        placeholder_at(p + s, p.len() + j) == match placeholder_at(s, j) {
            Some(m) => Some(
                (p.len() + m.0, p.len() + m.1, p.len() + m.2, p.len() + m.3, p.len() + m.4),
            ),
            None => None,
        },
        placeholder_at(s, j) matches Some(m) ==> placeholder_view(
            p + s,
            p.len() + j,
            (p.len() + m.0, p.len() + m.1, p.len() + m.2, p.len() + m.3, p.len() + m.4),
        ) == placeholder_view(s, j, m),
{
    let n = p.len() as int;
    let t = p + s;
    let a = j + 15;
    lemma_occurs_at_shift(p, s, image_open(), j);
    lemma_digits_end_shift(p, s, a);
    let b = digits_end(s, a);
    lemma_digits_end_bounds(s, a);
    lemma_occurs_at_shift(p, s, png_close(), b);
    lemma_spaces_end_shift(p, s, b + 5);
    let c = spaces_end(s, b + 5);
    lemma_spaces_end_bounds(s, b + 5);
    lemma_digits_end_shift(p, s, c);
    let d = digits_end(s, c);
    lemma_digits_end_bounds(s, c);
    lemma_comma_at_shift(p, s, d);
    lemma_digits_end_shift(p, s, d + 1);
    let e = digits_end(s, d + 1);
    lemma_digits_end_bounds(s, d + 1);
    lemma_comma_at_shift(p, s, e);
    lemma_digits_end_shift(p, s, e + 1);
    let f = digits_end(s, e + 1);
    lemma_digits_end_bounds(s, e + 1);
    lemma_comma_at_shift(p, s, f);
    lemma_digits_end_shift(p, s, f + 1);
    let g = digits_end(s, f + 1);
    if placeholder_at(s, j) is Some {
        lemma_placeholder_bounds(s, j);
        let v = placeholder_view(s, j, (c, d, e, f, g));
        let w = placeholder_view(t, n + j, (n + c, n + d, n + e, n + f, n + g));
        assert(w.label =~= v.label);
        assert(w.x1 =~= v.x1);
        assert(w.y1 =~= v.y1);
        assert(w.x2 =~= v.x2);
        assert(w.y2 =~= v.y2);
    }
}

/// Searching a longer text from `n` characters further on finds the same
/// placeholders.
proof fn lemma_placeholders_from_shift(p: Seq<char>, s: Seq<char>, j: int)
    requires
        j >= 0,
    ensures
        placeholders_from(p + s, p.len() + j) == placeholders_from(s, j),
    decreases s.len() - j,
{
    if j < s.len() {
        lemma_placeholder_at_shift(p, s, j);
        match placeholder_at(s, j) {
            Some(m) => {
                lemma_placeholder_bounds(s, j);
                lemma_placeholders_from_shift(p, s, m.4);
            },
            None => {
                lemma_placeholders_from_shift(p, s, j + 1);
            },
        }
    }
}

/// The search in `a + b` from `i` finds what the search in `a` finds from
/// `i`, then what the search in `b` finds, when every placeholder that starts
/// in `a` is the same in `a` alone and in `a + b`.
proof fn lemma_placeholders_from_concat(a: Seq<char>, b: Seq<char>, i: int)
    requires
        0 <= i <= a.len(),
        forall|k: int| 0 <= k < a.len() ==> #[trigger] placeholder_at(a + b, k) == placeholder_at(a, k),
    ensures
        placeholders_from(a + b, i) == placeholders_from(a, i) + placeholders_from(b, 0),
    decreases a.len() - i,
{
    if i == a.len() {
        lemma_placeholders_from_shift(a, b, 0);
        assert(placeholders_from(a, i) =~= Seq::<PlaceholderView>::empty());
        assert(placeholders_from(a + b, i) =~= placeholders_from(a, i) + placeholders_from(b, 0));
    } else {
        assert(placeholder_at(a + b, i) == placeholder_at(a, i));
        match placeholder_at(a, i) {
            Some(m) => {
                lemma_placeholder_bounds(a, i);
                lemma_placeholders_from_concat(a, b, m.4);
                let (c, d, e, f, g) = m;
                let v = placeholder_view(a, i, m);
                let w = placeholder_view(a + b, i, m);
                assert(w.label =~= v.label);
                assert(w.x1 =~= v.x1);
                assert(w.y1 =~= v.y1);
                assert(w.x2 =~= v.x2);
                assert(w.y2 =~= v.y2);
                assert(placeholders_from(a + b, i) =~= placeholders_from(a, i) + placeholders_from(b, 0));
            },
            None => {
                lemma_placeholders_from_concat(a, b, i + 1);
            },
        }
    }
}

/// The search is complete and goes on after each placeholder: when every
/// placeholder that starts in `a` lies wholly in `a` (it is the same in `a`
/// alone as in `a + b`), the placeholders of `a + b` are those of `a`
/// followed by those of `b`. So no text before or between placeholders, an
/// exclamation mark or an unfinished placeholder included, stops the search
/// or hides a later placeholder.
pub proof fn law_placeholders_of_joined_texts(a: Seq<char>, b: Seq<char>)
    requires
        forall|k: int| 0 <= k < a.len() ==> #[trigger] placeholder_at(a + b, k) == placeholder_at(a, k),
    ensures
        placeholders_from(a + b, 0) == placeholders_from(a, 0) + placeholders_from(b, 0),
{
    lemma_placeholders_from_concat(a, b, 0);
}

/// Text in front of a transcription that holds no `![image](image_` opening
/// (not even one that the transcription completes) changes nothing in what
/// is found.
pub proof fn law_text_without_openings_changes_nothing(p: Seq<char>, s: Seq<char>)
    requires
        forall|k: int| 0 <= k < p.len() ==> !#[trigger] text::occurs_at(p + s, image_open(), k),
    ensures
        placeholders_from(p + s, 0) == placeholders_from(s, 0),
{
    assert forall|k: int| 0 <= k < p.len() implies #[trigger] placeholder_at(p + s, k) == placeholder_at(p, k) by {
        assert(!text::occurs_at(p + s, image_open(), k));
        if text::occurs_at(p, image_open(), k) {
            assert((p + s).subrange(k, k + 15) =~= p.subrange(k, k + 15));
        }
    }
    lemma_placeholders_from_concat(p, s, 0);
    assert forall|k: int| 0 <= k < p.len() implies placeholder_at(p, k) is None by {
        assert(placeholder_at(p + s, k) is None);
    }
    lemma_no_placeholders(p, 0);
    assert(placeholders_from(p + s, 0) =~= placeholders_from(s, 0));
}

proof fn lemma_no_placeholders(p: Seq<char>, i: int)
    requires
        0 <= i,
        forall|k: int| 0 <= k < p.len() ==> placeholder_at(p, k) is None,
    ensures
        placeholders_from(p, i) == Seq::<PlaceholderView>::empty(),
    decreases p.len() - i,
{
    if i < p.len() {
        lemma_no_placeholders(p, i + 1);
    }
}

}
