use vstd::prelude::*;

verus! {

/// The Unicode `White_Space` property, which is what `char::is_whitespace`
/// tests (and what the `\s` class of a regular expression matches).
pub open spec fn is_white_space(c: char) -> bool {
    let u = c as u32;
    ||| 0x9 <= u <= 0xD
    ||| u == 0x20
    ||| u == 0x85
    ||| u == 0xA0
    ||| u == 0x1680
    ||| 0x2000 <= u <= 0x200A
    ||| u == 0x2028
    ||| u == 0x2029
    ||| u == 0x202F
    ||| u == 0x205F
    ||| u == 0x3000
}

/// Whether `c` is white space.
pub fn char_is_whitespace(c: char) -> (b: bool)
    ensures
        b == is_white_space(c),
{
    let u = c as u32;
    (0x9 <= u && u <= 0xD) || u == 0x20 || u == 0x85 || u == 0xA0 || u == 0x1680 || (0x2000 <= u
        && u <= 0x200A) || u == 0x2028 || u == 0x2029 || u == 0x202F || u == 0x205F || u == 0x3000
}

/// Appends one character to a string by calling `String::push`, which std
/// documents as appending the given char to the end of the string. Trusted:
/// the contract claims that the new contents are the old ones followed by `c`.
#[verifier::external_body]
pub(crate) fn push_char(s: &mut String, c: char)
    ensures
        final(s)@ == old(s)@.push(c),
{
    s.push(c);
}

/// The characters of `s`, in order.
pub fn chars_of(s: &str) -> (v: Vec<char>)
    ensures
        v@ == s@,
{
    let mut v: Vec<char> = Vec::new();
    broadcast use vstd::string::group_string_axioms;
    for c in it: s.chars()
        invariant
            v@ == it.seq().take(it.index() as int),
            it.seq() == s@,
    {
        v.push(c);
    }
    v
}


/// A string built from the characters of `cs`.
pub fn string_from_chars(cs: &[char]) -> (s: String)
    ensures
        s@ == cs@,
{
    let mut s = String::new();
    let mut i: usize = 0;
    while i < cs.len()
        invariant
            i <= cs@.len(),
            s@ == cs@.subrange(0, i as int),
        decreases cs@.len() - i,
    {
        push_char(&mut s, cs[i]);
        assert(cs@.subrange(0, i + 1) =~= cs@.subrange(0, i as int).push(cs@[i as int]));
        i = i + 1;
    }
    assert(cs@.subrange(0, cs@.len() as int) =~= cs@);
    s
}

/// `s` without its leading white space.
pub open spec fn trim_start_seq(s: Seq<char>) -> Seq<char>
    decreases s.len(),
{
    if s.len() > 0 && is_white_space(s[0]) {
        trim_start_seq(s.drop_first())
    } else {
        s
    }
}

/// `s` without its trailing white space.
pub open spec fn trim_end_seq(s: Seq<char>) -> Seq<char>
    decreases s.len(),
{
    if s.len() > 0 && is_white_space(s.last()) {
        trim_end_seq(s.drop_last())
    } else {
        s
    }
}

/// `s` without leading and trailing white space, as `str::trim` gives it.
pub open spec fn trim_seq(s: Seq<char>) -> Seq<char> {
    trim_end_seq(trim_start_seq(s))
}

proof fn lemma_trim_start(s: Seq<char>, i: int)
    requires
        0 <= i <= s.len(),
        forall|k: int| 0 <= k < i ==> is_white_space(#[trigger] s[k]),
        i == s.len() || !is_white_space(s[i]),
    ensures
        trim_start_seq(s) == s.subrange(i, s.len() as int),
    decreases i,
{
    if i == 0 {
        assert(s.subrange(0, s.len() as int) =~= s);
    } else {
        assert(is_white_space(s[0]));
        lemma_trim_start(s.drop_first(), i - 1);
        assert(s.drop_first().subrange(i - 1, s.len() - 1) =~= s.subrange(i, s.len() as int));
    }
}

proof fn lemma_trim_end(s: Seq<char>, j: int)
    requires
        0 <= j <= s.len(),
        forall|k: int| j <= k < s.len() ==> is_white_space(#[trigger] s[k]),
        j == 0 || !is_white_space(s[j - 1]),
    ensures
        trim_end_seq(s) == s.subrange(0, j),
    decreases s.len() - j,
{
    if j == s.len() {
        assert(s.subrange(0, j) =~= s);
    } else {
        assert(is_white_space(s.last()));
        lemma_trim_end(s.drop_last(), j);
        assert(s.drop_last().subrange(0, j) =~= s.subrange(0, j));
    }
}

/// `s` without leading and trailing white space (`str::trim`).
pub fn trim_chars(s: &[char]) -> (t: Vec<char>)
    ensures
        t@ == trim_seq(s@),
{
    let n = s.len();
    let mut i: usize = 0;
    while i < n && char_is_whitespace(s[i])
        invariant
            n == s@.len(),
            i <= n,
            forall|k: int| 0 <= k < i ==> is_white_space(#[trigger] s@[k]),
        decreases n - i,
    {
        i = i + 1;
    }
    proof {
        lemma_trim_start(s@, i as int);
    }
    let ghost rest = s@.subrange(i as int, n as int);
    let mut j: usize = n;
    while j > i && char_is_whitespace(s[j - 1])
        invariant
            n == s@.len(),
            i <= j <= n,
            rest == s@.subrange(i as int, n as int),
            forall|k: int| j <= k < n ==> is_white_space(#[trigger] s@[k]),
        decreases j - i,
    {
        j = j - 1;
    }
    proof {
        assert forall|k: int| j - i <= k < rest.len() implies is_white_space(#[trigger] rest[k]) by {
            assert(rest[k] == s@[k + i]);
        }
        if j > i {
            assert(rest[j - i - 1] == s@[j - 1]);
        }
        lemma_trim_end(rest, j - i);
    }
    let mut t: Vec<char> = Vec::new();
    let mut k: usize = i;
    while k < j
        invariant
            i <= k <= j <= n,
            n == s@.len(),
            t@ == s@.subrange(i as int, k as int),
        decreases j - k,
    {
        t.push(s[k]);
        assert(s@.subrange(i as int, k + 1) =~= s@.subrange(i as int, k as int).push(s@[k as int]));
        k = k + 1;
    }
    assert(t@ =~= rest.subrange(0, j - i));
    t
}

/// `s` without leading and trailing white space (`str::trim`).
pub fn trim(s: &str) -> (t: String)
    ensures
        t@ == trim_seq(s@),
{
    let cs = chars_of(s);
    let tc = trim_chars(cs.as_slice());
    string_from_chars(tc.as_slice())
}

/// `needle` occurs in `hay` starting at position `i`.
pub open spec fn occurs_at(hay: Seq<char>, needle: Seq<char>, i: int) -> bool {
    0 <= i && i + needle.len() <= hay.len() && hay.subrange(i, i + needle.len()) == needle
}

/// `needle` occurs somewhere in `hay` (`str::contains` with a string pattern).
pub open spec fn contains_seq(hay: Seq<char>, needle: Seq<char>) -> bool {
    exists|i: int| #[trigger] occurs_at(hay, needle, i)
}

/// Whether `needle` occurs in `hay` starting at position `i`.
pub fn occurs_at_exec(hay: &[char], needle: &[char], i: usize) -> (b: bool)
    ensures
        b == occurs_at(hay@, needle@, i as int),
{
    if i > hay.len() || needle.len() > hay.len() - i {
        return false;
    }
    let mut k: usize = 0;
    while k < needle.len()
        invariant
            i + needle@.len() <= hay@.len(),
            hay@.len() == hay.len(),
            k <= needle@.len(),
            forall|q: int| 0 <= q < k ==> #[trigger] needle@[q] == hay@[i + q],
        decreases needle@.len() - k,
    {
        if hay[i + k] != needle[k] {
            assert(hay@.subrange(i as int, i + needle@.len())[k as int] != needle@[k as int]);
            return false;
        }
        k = k + 1;
    }
    assert(hay@.subrange(i as int, i + needle@.len()) =~= needle@);
    true
}

/// Whether `needle` occurs in `hay`.
pub fn contains_chars(hay: &[char], needle: &[char]) -> (b: bool)
    ensures
        b == contains_seq(hay@, needle@),
{
    if needle.len() > hay.len() {
        assert forall|i: int| !#[trigger] occurs_at(hay@, needle@, i) by {}
        return false;
    }
    let last = hay.len() - needle.len();
    let mut i: usize = 0;
    while i < last
        invariant
            last == hay@.len() - needle@.len(),
            i <= last,
            forall|q: int| 0 <= q < i ==> !#[trigger] occurs_at(hay@, needle@, q),
        decreases last - i,
    {
        if occurs_at_exec(hay, needle, i) {
            return true;
        }
        i = i + 1;
    }
    if occurs_at_exec(hay, needle, last) {
        return true;
    }
    assert forall|q: int| !#[trigger] occurs_at(hay@, needle@, q) by {
        if 0 <= q < i {
        }
    }
    false
}


/// Appends the characters of `xs` to `out`.
pub fn push_all(out: &mut Vec<char>, xs: &[char])
    ensures
        final(out)@ == old(out)@ + xs@,
{
    let ghost start = out@;
    let mut i: usize = 0;
    while i < xs.len()
        invariant
            i <= xs@.len(),
            out@ == start + xs@.subrange(0, i as int),
        decreases xs@.len() - i,
    {
        out.push(xs[i]);
        assert(xs@.subrange(0, i + 1) =~= xs@.subrange(0, i as int).push(xs@[i as int]));
        i = i + 1;
    }
    assert(xs@.subrange(0, xs@.len() as int) =~= xs@);
}

/// `s` with `to` put before every character and at the end: what
/// `str::replace` gives for an empty pattern.
pub open spec fn replace_empty_seq(s: Seq<char>, to: Seq<char>) -> Seq<char>
    decreases s.len(),
{
    if s.len() == 0 {
        to
    } else {
        to + seq![s[0]] + replace_empty_seq(s.drop_first(), to)
    }
}

/// `s` with every occurrence of `from` replaced by `to`, the occurrences being
/// taken from left to right without overlap (`str::replace`).
pub open spec fn replace_seq(s: Seq<char>, from: Seq<char>, to: Seq<char>) -> Seq<char>
    decreases s.len(),
{
    if from.len() == 0 {
        replace_empty_seq(s, to)
    } else if s.len() == 0 {
        s
    } else if occurs_at(s, from, 0) {
        to + replace_seq(s.subrange(from.len() as int, s.len() as int), from, to)
    } else {
        seq![s[0]] + replace_seq(s.drop_first(), from, to)
    }
}

/// `s` with every occurrence of `from` replaced by `to` (`str::replace`).
pub fn replace_chars(s: &[char], from: &[char], to: &[char]) -> (r: Vec<char>)
    ensures
        r@ == replace_seq(s@, from@, to@),
{
    let n = s.len();
    let mut out: Vec<char> = Vec::new();
    let mut i: usize = 0;
    if from.len() == 0 {
        assert(s@.subrange(0, n as int) =~= s@);
        assert(out@ + replace_empty_seq(s@, to@) =~= replace_empty_seq(s@, to@));
        while i < n
            invariant
                n == s@.len(),
                from@.len() == 0,
                i <= n,
                out@ + replace_empty_seq(s@.subrange(i as int, n as int), to@) == replace_seq(
                    s@,
                    from@,
                    to@,
                ),
            decreases n - i,
        {
            let ghost before = out@;
            let ghost rest = s@.subrange(i as int, n as int);
            assert(rest.drop_first() =~= s@.subrange(i + 1, n as int));
            push_all(&mut out, to);
            out.push(s[i]);
            assert(out@ == before + to@ + seq![s@[i as int]]);
            assert(before + replace_empty_seq(rest, to@) == out@ + replace_empty_seq(
                s@.subrange(i + 1, n as int),
                to@,
            ));
            i = i + 1;
        }
        assert(s@.subrange(n as int, n as int) =~= Seq::<char>::empty());
        push_all(&mut out, to);
        return out;
    }
    assert(s@.subrange(0, n as int) =~= s@);
    while i < n
        invariant
            n == s@.len(),
            from@.len() > 0,
            i <= n,
            out@ + replace_seq(s@.subrange(i as int, n as int), from@, to@) == replace_seq(
                s@,
                from@,
                to@,
            ),
        decreases n - i,
    {
        let ghost before = out@;
        let ghost rest = s@.subrange(i as int, n as int);
        let k = from.len();
        if occurs_at_exec(s, from, i) {
            assert(rest.subrange(0, k as int) =~= s@.subrange(i as int, i + k));
            assert(rest.subrange(k as int, rest.len() as int) =~= s@.subrange(i + k, n as int));
            push_all(&mut out, to);
            assert(before + replace_seq(rest, from@, to@) == out@ + replace_seq(
                s@.subrange(i + k, n as int),
                from@,
                to@,
            ));
            i = i + k;
        } else {
            proof {
                if k <= rest.len() {
                    assert(rest.subrange(0, k as int) =~= s@.subrange(i as int, i + k));
                }
            }
            assert(rest.drop_first() =~= s@.subrange(i + 1, n as int));
            out.push(s[i]);
            assert(before + replace_seq(rest, from@, to@) == out@ + replace_seq(
                s@.subrange(i + 1, n as int),
                from@,
                to@,
            ));
            i = i + 1;
        }
    }
    assert(out@ =~= out@ + replace_seq(s@.subrange(n as int, n as int), from@, to@));
    out
}

/// `s` with every occurrence of `from` replaced by `to` (`str::replace`).
pub fn replace_all(s: &str, from: &str, to: &str) -> (r: String)
    ensures
        r@ == replace_seq(s@, from@, to@),
{
    let sc = chars_of(s);
    let fc = chars_of(from);
    let tc = chars_of(to);
    let rc = replace_chars(sc.as_slice(), fc.as_slice(), tc.as_slice());
    string_from_chars(rc.as_slice())
}


proof fn lemma_trim_start_shape(s: Seq<char>)
    ensures
        trim_start_seq(s).len() == 0 || !is_white_space(trim_start_seq(s)[0]),
        trim_start_seq(s).len() <= s.len(),
        trim_start_seq(s) == s.subrange(s.len() - trim_start_seq(s).len(), s.len() as int),
    decreases s.len(),
{
    if s.len() > 0 && is_white_space(s[0]) {
        lemma_trim_start_shape(s.drop_first());
        let t = trim_start_seq(s.drop_first());
        assert(s.drop_first().subrange(s.len() - 1 - t.len(), s.len() - 1) =~= s.subrange(
            s.len() - t.len(),
            s.len() as int,
        ));
    } else {
        assert(s.subrange(0, s.len() as int) =~= s);
    }
}

proof fn lemma_trim_end_shape(s: Seq<char>)
    ensures
        trim_end_seq(s).len() == 0 || !is_white_space(trim_end_seq(s).last()),
        trim_end_seq(s).len() <= s.len(),
        trim_end_seq(s) == s.subrange(0, trim_end_seq(s).len() as int),
    decreases s.len(),
{
    if s.len() > 0 && is_white_space(s.last()) {
        lemma_trim_end_shape(s.drop_last());
        let t = trim_end_seq(s.drop_last());
        assert(s.drop_last().subrange(0, t.len() as int) =~= s.subrange(0, t.len() as int));
    } else {
        assert(s.subrange(0, s.len() as int) =~= s);
    }
}

/// Trimming leaves no white space at either end, and what it leaves is a
/// piece of the text it was given.
pub proof fn law_trim_strips_both_ends(s: Seq<char>)
    ensures
        trim_seq(s).len() == 0 || (!is_white_space(trim_seq(s)[0]) && !is_white_space(
            trim_seq(s).last(),
        )),
        exists|i: int|
            0 <= i && i + trim_seq(s).len() <= s.len() && #[trigger] s.subrange(
                i,
                i + trim_seq(s).len(),
            ) == trim_seq(s),
{
    lemma_trim_start_shape(s);
    let a = trim_start_seq(s);
    lemma_trim_end_shape(a);
    let t = trim_end_seq(a);
    let i = s.len() - a.len();
    assert(s.subrange(i, i + t.len()) =~= t);
    assert(t == trim_seq(s));
    assert(s.subrange(i, i + trim_seq(s).len()) == trim_seq(s));
    if t.len() > 0 {
        assert(t[0] == a[0]);
    }
}

/// Replacing a text that does not occur changes nothing.
pub proof fn law_replace_without_occurrence(s: Seq<char>, from: Seq<char>, to: Seq<char>)
    requires
        from.len() > 0,
        !contains_seq(s, from),
    ensures
        replace_seq(s, from, to) == s,
    decreases s.len(),
{
    if s.len() > 0 {
        assert(!occurs_at(s, from, 0));
        let t = s.drop_first();
        assert forall|i: int| !#[trigger] occurs_at(t, from, i) by {
            if occurs_at(t, from, i) {
                assert(s.subrange(i + 1, i + 1 + from.len()) =~= t.subrange(i, i + from.len()));
                assert(occurs_at(s, from, i + 1));
            }
        }
        law_replace_without_occurrence(t, from, to);
        assert(seq![s[0]] + t =~= s);
    }
}


/// Text with no white space at either end is its own trim.
pub proof fn lemma_trim_of_trimmed(s: Seq<char>)
    requires
        s.len() == 0 || (!is_white_space(s[0]) && !is_white_space(s.last())),
    ensures
        trim_seq(s) == s,
{
}

}
