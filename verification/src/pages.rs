use vstd::prelude::*;

use crate::page::Page;
use crate::text::{chars_of, string_from_chars};

verus! {

/// What is known of one entry of the image directory: its path, whether it
/// is a regular file, its extension and its file name (each `None` when the
/// path has none, or when it is not valid Unicode).
pub struct DirEntryInfo {
    pub path: String,
    pub is_file: bool,
    pub extension: Option<String>,
    pub file_name: Option<String>,
}

/// The mathematical picture of a [`Page`].
pub struct PageView {
    pub path: Seq<char>,
    pub name: Seq<char>,
}

impl View for Page {
    type V = PageView;

    open spec fn view(&self) -> PageView {
        PageView { path: self.path@, name: self.name@ }
    }
}

/// `c` with an ASCII capital letter turned into the small one.
pub open spec fn ascii_lower(c: char) -> char {
    if 'A' <= c <= 'Z' {
        ((c as u32) + 32) as char
    } else {
        c
    }
}

/// `s` with its ASCII capital letters made small (`str::to_ascii_lowercase`).
pub open spec fn ascii_lower_seq(s: Seq<char>) -> Seq<char> {
    s.map_values(|c: char| ascii_lower(c))
}

/// An extension of an image that the pipeline reads, in any ASCII case.
pub open spec fn is_image_extension(ext: Seq<char>) -> bool {
    let e = ascii_lower_seq(ext);
    e == seq!['p', 'n', 'g'] || e == seq!['j', 'p', 'g'] || e == seq!['j', 'p', 'e', 'g']
}

/// An entry that is a page image: a regular file with an image extension.
pub open spec fn is_page_entry(path: Seq<char>, is_file: bool, extension: Option<Seq<char>>) -> bool {
    is_file && extension is Some && is_image_extension(extension->0)
}

/// The name given to a page whose path has no usable file name.
pub open spec fn unknown_name() -> Seq<char> {
    seq!['u', 'n', 'k', 'n', 'o', 'w', 'n']
}

/// `a` comes before `b` in the order of strings: character by character,
/// by code point, a proper prefix first. This is the order of `String`, which
/// compares the UTF-8 bytes, and UTF-8 keeps the order of code points.
pub open spec fn path_lt(a: Seq<char>, b: Seq<char>) -> bool
    decreases a.len(),
{
    if a.len() == 0 {
        b.len() > 0
    } else if b.len() == 0 {
        false
    } else if a[0] != b[0] {
        (a[0] as u32) < (b[0] as u32)
    } else {
        path_lt(a.drop_first(), b.drop_first())
    }
}

/// Whether `a` comes before `b` in the order of strings.
pub fn chars_lt(a: &[char], b: &[char]) -> (lt: bool)
    ensures
        lt == path_lt(a@, b@),
{
    let mut i: usize = 0;
    assert(a@.skip(0) =~= a@);
    assert(b@.skip(0) =~= b@);
    while i < a.len() && i < b.len() && a[i] == b[i]
        invariant
            i <= a@.len(),
            i <= b@.len(),
            path_lt(a@, b@) == path_lt(a@.skip(i as int), b@.skip(i as int)),
        decreases a@.len() - i,
    {
        assert(a@.skip(i as int).drop_first() =~= a@.skip(i + 1));
        assert(b@.skip(i as int).drop_first() =~= b@.skip(i + 1));
        i = i + 1;
    }
    if i == a.len() {
        i < b.len()
    } else if i == b.len() {
        false
    } else {
        (a[i] as u32) < (b[i] as u32)
    }
}


/// `sorted` with `p` put after every page whose path does not come after
/// `p`'s, and before the first one whose path does.
pub open spec fn insert_by_path(sorted: Seq<PageView>, p: PageView) -> Seq<PageView>
    decreases sorted.len(),
{
    if sorted.len() == 0 {
        seq![p]
    } else if path_lt(p.path, sorted[0].path) {
        seq![p] + sorted
    } else {
        seq![sorted[0]] + insert_by_path(sorted.drop_first(), p)
    }
}

/// The pages of `s` in the order of their paths, pages with equal paths in
/// the order in which they come in `s` (what a stable sort by path gives).
pub open spec fn sort_by_path(s: Seq<PageView>) -> Seq<PageView>
    decreases s.len(),
{
    if s.len() == 0 {
        s
    } else {
        insert_by_path(sort_by_path(s.drop_last()), s.last())
    }
}

/// The extension of an entry, as characters.
pub open spec fn extension_of(e: DirEntryInfo) -> Option<Seq<char>> {
    match e.extension {
        Some(x) => Some(x@),
        None => None,
    }
}

/// The page for an entry: its path, and its file name or `unknown`.
pub open spec fn entry_page(e: DirEntryInfo) -> PageView {
    PageView {
        path: e.path@,
        name: match e.file_name {
            Some(n) => n@,
            None => unknown_name(),
        },
    }
}

/// The pages among `entries`, in the order in which they come.
pub open spec fn entry_pages(entries: Seq<DirEntryInfo>) -> Seq<PageView>
    decreases entries.len(),
{
    if entries.len() == 0 {
        Seq::empty()
    } else {
        let rest = entry_pages(entries.drop_last());
        let e = entries.last();
        if is_page_entry(e.path@, e.is_file, extension_of(e)) {
            rest.push(entry_page(e))
        } else {
            rest
        }
    }
}

proof fn lemma_insert_at(s: Seq<PageView>, p: PageView, k: int)
    requires
        0 <= k <= s.len(),
        forall|j: int| 0 <= j < k ==> !path_lt(p.path, #[trigger] s[j].path),
        k == s.len() || path_lt(p.path, s[k].path),
    ensures
        insert_by_path(s, p) == s.insert(k, p),
    decreases k,
{
    if s.len() == 0 {
        assert(s.insert(k, p) =~= seq![p]);
    } else if k == 0 {
        assert(s.insert(0, p) =~= seq![p] + s);
    } else {
        assert(!path_lt(p.path, s[0].path));
        let t = s.drop_first();
        assert forall|j: int| 0 <= j < k - 1 implies !path_lt(p.path, #[trigger] t[j].path) by {
            assert(t[j] == s[j + 1]);
        }
        lemma_insert_at(t, p, k - 1);
        assert(seq![s[0]] + t.insert(k - 1, p) =~= s.insert(k, p));
    }
}

/// Whether an extension is one of an image that the pipeline reads.
fn is_image_extension_exec(ext: &str) -> (b: bool)
    ensures
        b == is_image_extension(ext@),
{
    let cs = chars_of(ext);
    let lower = lower_codes(cs.as_slice());
    let png: Vec<u32> = vec![0x70, 0x6E, 0x67];
    let jpg: Vec<u32> = vec![0x6A, 0x70, 0x67];
    let jpeg: Vec<u32> = vec![0x6A, 0x70, 0x65, 0x67];
    let b = codes_eq(lower.as_slice(), png.as_slice()) || codes_eq(lower.as_slice(), jpg.as_slice())
        || codes_eq(lower.as_slice(), jpeg.as_slice());
    proof {
        let e = ascii_lower_seq(ext@);
        assert(e.len() == lower@.len());
        assert forall|i: int| 0 <= i < e.len() implies (#[trigger] e[i]) as u32 == lower@[i] by {}
        assert(e == seq!['p', 'n', 'g'] <==> lower@ == png@) by {
            if lower@ == png@ {
                assert(e =~= seq!['p', 'n', 'g']);
            }
            if e == seq!['p', 'n', 'g'] {
                assert(lower@ =~= png@);
            }
        }
        assert(e == seq!['j', 'p', 'g'] <==> lower@ == jpg@) by {
            if lower@ == jpg@ {
                assert(e =~= seq!['j', 'p', 'g']);
            }
            if e == seq!['j', 'p', 'g'] {
                assert(lower@ =~= jpg@);
            }
        }
        assert(e == seq!['j', 'p', 'e', 'g'] <==> lower@ == jpeg@) by {
            if lower@ == jpeg@ {
                assert(e =~= seq!['j', 'p', 'e', 'g']);
            }
            if e == seq!['j', 'p', 'e', 'g'] {
                assert(lower@ =~= jpeg@);
            }
        }
    }
    b
}

/// The code points of `cs` with ASCII capitals made small.
fn lower_codes(cs: &[char]) -> (codes: Vec<u32>)
    ensures
        codes@.len() == cs@.len(),
        forall|i: int| 0 <= i < cs@.len() ==> #[trigger] codes@[i] == ascii_lower(cs@[i]) as u32,
{
    let mut codes: Vec<u32> = Vec::new();
    let mut i: usize = 0;
    while i < cs.len()
        invariant
            i <= cs@.len(),
            codes@.len() == i,
            forall|j: int| 0 <= j < i ==> #[trigger] codes@[j] == ascii_lower(cs@[j]) as u32,
        decreases cs@.len() - i,
    {
        let u = cs[i] as u32;
        let l = if 0x41 <= u && u <= 0x5A {
            u + 32
        } else {
            u
        };
        codes.push(l);
        i = i + 1;
    }
    codes
}

fn codes_eq(a: &[u32], b: &[u32]) -> (eq: bool)
    ensures
        eq == (a@ == b@),
{
    if a.len() != b.len() {
        return false;
    }
    let mut i: usize = 0;
    while i < a.len()
        invariant
            a@.len() == b@.len(),
            i <= a@.len(),
            forall|j: int| 0 <= j < i ==> a@[j] == b@[j],
        decreases a@.len() - i,
    {
        if a[i] != b[i] {
            return false;
        }
        i = i + 1;
    }
    assert(a@ =~= b@);
    true
}

/// The pages of the image directory: the entries that are regular files
/// with a `png`, `jpg` or `jpeg` extension (in any ASCII case), each named by
/// its file name (or `unknown`), sorted by path.
pub fn pages_from_entries(entries: &[DirEntryInfo]) -> (pages: Vec<Page>)
    ensures
        pages@.map_values(|p: Page| p@) == sort_by_path(entry_pages(entries@)),
{
    let mut pages: Vec<Page> = Vec::new();
    let mut i: usize = 0;
    assert(entries@.take(0) =~= Seq::<DirEntryInfo>::empty());
    while i < entries.len()
        invariant
            i <= entries@.len(),
            pages@.map_values(|p: Page| p@) == sort_by_path(entry_pages(entries@.take(i as int))),
        decreases entries@.len() - i,
    {
        let e = &entries[i];
        let ghost before = pages@.map_values(|p: Page| p@);
        assert(entries@.take(i + 1).drop_last() =~= entries@.take(i as int));
        assert(entries@.take(i + 1).last() == *e);
        let take = match &e.extension {
            Some(x) => e.is_file && is_image_extension_exec(x.as_str()),
            None => false,
        };
        if take {
            let name = match &e.file_name {
                Some(n) => n.clone(),
                None => {
                    let u: Vec<char> = vec!['u', 'n', 'k', 'n', 'o', 'w', 'n'];
                    assert(u@ =~= unknown_name());
                    string_from_chars(u.as_slice())
                },
            };
            let page = Page { path: e.path.clone(), name };
            let ghost pv = page@;
            assert(pv == entry_page(*e));
            let pc = chars_of(page.path.as_str());
            let mut k: usize = 0;
            while k < pages.len() && !chars_lt(pc.as_slice(), chars_of(pages[k].path.as_str()).as_slice())
                invariant
                    k <= pages@.len(),
                    pc@ == pv.path,
                    before == pages@.map_values(|p: Page| p@),
                    forall|j: int| 0 <= j < k ==> !path_lt(pv.path, #[trigger] before[j].path),
                decreases pages@.len() - k,
            {
                k = k + 1;
            }
            proof {
                lemma_insert_at(before, pv, k as int);
                assert(entry_pages(entries@.take(i + 1)) =~= entry_pages(entries@.take(i as int)).push(pv));
                let s = entry_pages(entries@.take(i as int)).push(pv);
                assert(s.drop_last() =~= entry_pages(entries@.take(i as int)));
            }
            pages.insert(k, page);
            assert(pages@.map_values(|p: Page| p@) =~= before.insert(k as int, pv));
        }
        i = i + 1;
    }
    assert(entries@.take(entries@.len() as int) =~= entries@);
    pages
}


/// Every page of `s` has a path that does not come before the path of any
/// page earlier in `s`.
pub open spec fn sorted_by_path(s: Seq<PageView>) -> bool {
    forall|i: int, j: int| 0 <= i < j < s.len() ==> !path_lt(#[trigger] s[j].path, #[trigger] s[i].path)
}

proof fn lemma_path_lt_irreflexive(a: Seq<char>)
    ensures
        !path_lt(a, a),
    decreases a.len(),
{
    if a.len() > 0 {
        lemma_path_lt_irreflexive(a.drop_first());
    }
}

proof fn lemma_path_lt_transitive(a: Seq<char>, b: Seq<char>, c: Seq<char>)
    requires
        path_lt(a, b),
        path_lt(b, c),
    ensures
        path_lt(a, c),
    decreases a.len(),
{
    if a.len() > 0 && a[0] == b[0] && b[0] == c[0] {
        lemma_path_lt_transitive(a.drop_first(), b.drop_first(), c.drop_first());
    }
}

proof fn lemma_insert_by_path_is_insert(s: Seq<PageView>, p: PageView) -> (k: int)
    ensures
        0 <= k <= s.len(),
        insert_by_path(s, p) == s.insert(k, p),
    decreases s.len(),
{
    if s.len() == 0 {
        assert(s.insert(0, p) =~= seq![p]);
        0
    } else if path_lt(p.path, s[0].path) {
        assert(s.insert(0, p) =~= seq![p] + s);
        0
    } else {
        let t = s.drop_first();
        let k = lemma_insert_by_path_is_insert(t, p);
        assert(seq![s[0]] + t.insert(k, p) =~= s.insert(k + 1, p));
        k + 1
    }
}

proof fn lemma_insert_by_path_sorted(s: Seq<PageView>, p: PageView)
    requires
        sorted_by_path(s),
    ensures
        sorted_by_path(insert_by_path(s, p)),
    decreases s.len(),
{
    let r = insert_by_path(s, p);
    if s.len() == 0 {
    } else if path_lt(p.path, s[0].path) {
        assert forall|i: int, j: int| 0 <= i < j < r.len() implies !path_lt(
            #[trigger] r[j].path,
            #[trigger] r[i].path,
        ) by {
            if i == 0 {
                assert(r[j] == s[j - 1]);
                if path_lt(s[j - 1].path, p.path) {
                    lemma_path_lt_transitive(s[j - 1].path, p.path, s[0].path);
                    if j - 1 == 0 {
                        lemma_path_lt_irreflexive(s[0].path);
                    }
                }
            } else {
                assert(r[i] == s[i - 1]);
                assert(r[j] == s[j - 1]);
            }
        }
    } else {
        let t = s.drop_first();
        assert(sorted_by_path(t)) by {
            assert forall|i: int, j: int| 0 <= i < j < t.len() implies !path_lt(
                #[trigger] t[j].path,
                #[trigger] t[i].path,
            ) by {
                assert(t[i] == s[i + 1]);
                assert(t[j] == s[j + 1]);
            }
        }
        lemma_insert_by_path_sorted(t, p);
        let rt = insert_by_path(t, p);
        let k = lemma_insert_by_path_is_insert(t, p);
        assert(r == seq![s[0]] + rt);
        assert forall|i: int, j: int| 0 <= i < j < r.len() implies !path_lt(
            #[trigger] r[j].path,
            #[trigger] r[i].path,
        ) by {
            if i == 0 {
                assert(r[j] == rt[j - 1]);
                if j - 1 < k {
                    assert(rt[j - 1] == t[j - 1]);
                    assert(t[j - 1] == s[j]);
                } else if j - 1 == k {
                    assert(rt[j - 1] == p);
                } else {
                    assert(rt[j - 1] == t[j - 2]);
                    assert(t[j - 2] == s[j - 1]);
                }
            } else {
                assert(r[i] == rt[i - 1]);
                assert(r[j] == rt[j - 1]);
            }
        }
    }
}

/// Sorting pages by path puts them in order of their paths and neither
/// loses nor adds a page.
pub proof fn law_sort_by_path_sorts(s: Seq<PageView>)
    ensures
        sorted_by_path(sort_by_path(s)),
        sort_by_path(s).to_multiset() == s.to_multiset(),
    decreases s.len(),
{
    broadcast use vstd::seq_lib::group_to_multiset_ensures;

    if s.len() > 0 {
        law_sort_by_path_sorts(s.drop_last());
        let sorted = sort_by_path(s.drop_last());
        lemma_insert_by_path_sorted(sorted, s.last());
        let k = lemma_insert_by_path_is_insert(sorted, s.last());
        assert(s.drop_last().push(s.last()) =~= s);
    } else {
        assert(sort_by_path(s).to_multiset() =~= s.to_multiset());
    }
}

/// Which entries are page images does not depend on the ASCII case of the
/// extension (`PNG`, `Jpg` and `jpeg` are all taken), and `png`, `jpg` and
/// `jpeg` are image extensions while an empty extension is not.
pub proof fn law_image_extension_ignores_case(ext: Seq<char>)
    ensures
        is_image_extension(ext) == is_image_extension(ascii_lower_seq(ext)),
        is_image_extension(seq!['p', 'n', 'g']),
        is_image_extension(seq!['j', 'p', 'g']),
        is_image_extension(seq!['j', 'p', 'e', 'g']),
        !is_image_extension(Seq::<char>::empty()),
{
    let l = ascii_lower_seq(ext);
    assert forall|i: int| 0 <= i < l.len() implies #[trigger] ascii_lower_seq(l)[i] == l[i] by {
        let c = ext[i];
        if 'A' <= c <= 'Z' {
            assert('a' <= ascii_lower(c) <= 'z');
        }
    }
    assert(ascii_lower_seq(l) =~= l);
    assert(ascii_lower_seq(seq!['p', 'n', 'g']) =~= seq!['p', 'n', 'g']);
    assert(ascii_lower_seq(seq!['j', 'p', 'g']) =~= seq!['j', 'p', 'g']);
    assert(ascii_lower_seq(seq!['j', 'p', 'e', 'g']) =~= seq!['j', 'p', 'e', 'g']);
    assert(ascii_lower_seq(Seq::<char>::empty()).len() == 0);
}

}
