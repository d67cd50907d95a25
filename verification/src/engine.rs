//! The Markdown index: headings become a tree of sections addressed by
//! slash-separated slug paths, reference definitions become a lookup
//! table, and every other line is content of the section it stands in.
use vstd::prelude::*;

use crate::table::{PathTable, strictly_sorted, path_lt};
use crate::text::{
    char_whitespace, is_ascii_alnum, ascii_lower, lower_seq, trim, strip_dashes, find, rfind,
    contains, lines, decimal, chars_of, string_of, push_chars, copy_range, copy_chars,
    lower_char, is_alnum, lower_chars, trim_chars, strip_dash_chars, find_from_exec, rfind_exec,
    split_lines, push_decimal, string_push, is_whitespace, lemma_decimal_value, fold_lower,
    fold_lowercase, upper_seq, ascii_upper,
    lemma_decimal_injective,
};

verus! {

// ---------------------------------------------------------------------------
// Slugs
// ---------------------------------------------------------------------------

/// The slug of a title before its edge dashes are removed: ASCII letters and
/// digits kept (lower-cased), every run of other characters collapsed to one `'-'`.
pub open spec fn slug_raw(s: Seq<char>) -> Seq<char>
    decreases s.len(),
{
    if s.len() == 0 {
        seq![]
    } else {
        let o = slug_raw(s.drop_last());
        let c = s.last();
        if is_ascii_alnum(c) {
            o.push(ascii_lower(c))
        } else if o.len() > 0 && o.last() == '-' {
            o
        } else {
            o.push('-')
        }
    }
}

/// The slug used when a title has no letter or digit.
pub open spec fn section_word() -> Seq<char> {
    seq!['s', 'e', 'c', 't', 'i', 'o', 'n']
}

/// The slug of a title.
pub open spec fn spec_slugify(title: Seq<char>) -> Seq<char> {
    let n = strip_dashes(slug_raw(title));
    if n.len() == 0 {
        section_word()
    } else {
        n
    }
}

/// A character that may stand in a slug: `a-z`, `0-9` or `'-'`.
pub open spec fn is_slug_char(c: char) -> bool {
    ('a' <= c && c <= 'z') || ('0' <= c && c <= '9') || c == '-'
}

/// URL-safe: not empty, only slug characters, no `'-'` at either end and
/// never two `'-'` in a row.
pub open spec fn url_safe(s: Seq<char>) -> bool {
    &&& s.len() > 0
    &&& forall|i: int| 0 <= i < s.len() ==> is_slug_char(#[trigger] s[i])
    &&& s[0] != '-'
    &&& s.last() != '-'
    &&& forall|i: int| 0 <= i < s.len() - 1 ==> !(#[trigger] s[i] == '-' && s[i + 1] == '-')
}

proof fn lemma_slug_raw_shape(s: Seq<char>)
    ensures
        forall|i: int| 0 <= i < slug_raw(s).len() ==> is_slug_char(#[trigger] slug_raw(s)[i]),
        forall|i: int|
            0 <= i < slug_raw(s).len() - 1 ==> !(#[trigger] slug_raw(s)[i] == '-' && slug_raw(
                s,
            )[i + 1] == '-'),
    decreases s.len(),
{
    if s.len() > 0 {
        lemma_slug_raw_shape(s.drop_last());
        let o = slug_raw(s.drop_last());
        let c = s.last();
        let r = slug_raw(s);
        if is_ascii_alnum(c) {
            let l = ascii_lower(c);
            assert(is_slug_char(l) && l != '-') by {
                if 'A' <= c && c <= 'Z' {
                    assert((c as u32) + 32 >= 97 && (c as u32) + 32 <= 122);
                    assert(l as u32 == (c as u32) + 32);
                }
            }
            assert(r == o.push(l));
            assert forall|i: int| 0 <= i < r.len() implies is_slug_char(#[trigger] r[i]) by {
                if i < o.len() {
                    assert(r[i] == o[i]);
                }
            }
            assert forall|i: int| 0 <= i < r.len() - 1 implies !(#[trigger] r[i] == '-' && r[i
                + 1] == '-') by {
                if i + 1 < o.len() {
                    assert(r[i] == o[i] && r[i + 1] == o[i + 1]);
                }
            }
        } else if o.len() > 0 && o.last() == '-' {
        } else {
            assert(r == o.push('-'));
            assert forall|i: int| 0 <= i < r.len() implies is_slug_char(#[trigger] r[i]) by {
                if i < o.len() {
                    assert(r[i] == o[i]);
                }
            }
            assert forall|i: int| 0 <= i < r.len() - 1 implies !(#[trigger] r[i] == '-' && r[i
                + 1] == '-') by {
                if i + 1 < o.len() {
                    assert(r[i] == o[i] && r[i + 1] == o[i + 1]);
                } else {
                    assert(r[i] == o.last());
                }
            }
        }
    }
}

proof fn lemma_strip_dashes_shape(s: Seq<char>)
    ensures
        exists|lo: int, hi: int|
            0 <= lo <= hi <= s.len() && #[trigger] strip_dashes(s) == s.subrange(lo, hi),
        strip_dashes(s).len() > 0 ==> strip_dashes(s)[0] != '-' && strip_dashes(s).last() != '-',
    decreases s.len(),
{
    if s.len() > 0 && s[0] == '-' {
        lemma_strip_dashes_shape(s.drop_first());
        let (lo, hi) = choose|lo: int, hi: int|
            0 <= lo <= hi <= s.drop_first().len() && #[trigger] strip_dashes(s.drop_first())
                == s.drop_first().subrange(lo, hi);
        assert(s.drop_first().subrange(lo, hi) =~= s.subrange(lo + 1, hi + 1));
    } else if s.len() > 0 && s.last() == '-' {
        lemma_strip_dashes_shape(s.drop_last());
        let (lo, hi) = choose|lo: int, hi: int|
            0 <= lo <= hi <= s.drop_last().len() && #[trigger] strip_dashes(s.drop_last())
                == s.drop_last().subrange(lo, hi);
        assert(s.drop_last().subrange(lo, hi) =~= s.subrange(lo, hi));
    } else {
        assert(s.subrange(0, s.len() as int) =~= s);
    }
}

/// Every slug is URL-safe.
pub proof fn lemma_slugify_url_safe(title: Seq<char>)
    ensures
        url_safe(spec_slugify(title)),
{
    let raw = slug_raw(title);
    lemma_slug_raw_shape(title);
    lemma_strip_dashes_shape(raw);
    let n = strip_dashes(raw);
    if n.len() > 0 {
        let (lo, hi) = choose|lo: int, hi: int|
            0 <= lo <= hi <= raw.len() && #[trigger] strip_dashes(raw) == raw.subrange(lo, hi);
        assert forall|i: int| 0 <= i < n.len() implies is_slug_char(#[trigger] n[i]) by {
            assert(n[i] == raw[lo + i]);
        }
        assert forall|i: int| 0 <= i < n.len() - 1 implies !(#[trigger] n[i] == '-' && n[i + 1]
            == '-') by {
            assert(n[i] == raw[lo + i]);
            assert(n[i + 1] == raw[lo + i + 1]);
        }
    } else {
        let w = section_word();
        assert(w[0] == 's');
        assert forall|i: int| 0 <= i < w.len() implies is_slug_char(#[trigger] w[i]) by {}
    }
}

/// Only slug characters, and never two `'-'` in a row.
spec fn slug_shaped(s: Seq<char>) -> bool {
    &&& forall|i: int| 0 <= i < s.len() ==> is_slug_char(#[trigger] s[i])
    &&& forall|i: int| 0 <= i < s.len() - 1 ==> !(#[trigger] s[i] == '-' && s[i + 1] == '-')
}

proof fn lemma_slug_raw_fixed(s: Seq<char>)
    requires
        slug_shaped(s),
    ensures
        slug_raw(s) == s,
    decreases s.len(),
{
    if s.len() == 0 {
        assert(s =~= Seq::<char>::empty());
    } else {
        let t = s.drop_last();
        assert forall|i: int| 0 <= i < t.len() implies is_slug_char(#[trigger] t[i]) by {
            assert(t[i] == s[i]);
        }
        assert forall|i: int| 0 <= i < t.len() - 1 implies !(#[trigger] t[i] == '-' && t[i + 1]
            == '-') by {
            assert(t[i] == s[i] && t[i + 1] == s[i + 1]);
        }
        lemma_slug_raw_fixed(t);
        let c = s.last();
        assert(is_slug_char(s[s.len() - 1]));
        if is_ascii_alnum(c) {
            assert(ascii_lower(c) == c);
        } else {
            assert(c == '-');
            if t.len() > 0 {
                assert(t.last() == s[s.len() - 2]);
                assert(!(s[s.len() - 2] == '-' && s[s.len() - 1] == '-'));
            }
        }
        assert(t.push(c) =~= s);
    }
}

/// Slugifying a slug gives it back.
pub proof fn lemma_slugify_idempotent(title: Seq<char>)
    ensures
        spec_slugify(spec_slugify(title)) == spec_slugify(title),
{
    lemma_slugify_url_safe(title);
    let s = spec_slugify(title);
    lemma_slug_raw_fixed(s);
    assert(s[0] == s.first());
}

proof fn lemma_slug_raw_same_classes(t: Seq<char>, u: Seq<char>)
    requires
        t.len() == u.len(),
        forall|i: int|
            0 <= i < t.len() ==> is_ascii_alnum(#[trigger] t[i]) == is_ascii_alnum(u[i])
                && ascii_lower(t[i]) == ascii_lower(u[i]),
    ensures
        slug_raw(t) == slug_raw(u),
    decreases t.len(),
{
    if t.len() > 0 {
        let t1 = t.drop_last();
        let u1 = u.drop_last();
        assert forall|i: int| 0 <= i < t1.len() implies is_ascii_alnum(#[trigger] t1[i])
            == is_ascii_alnum(u1[i]) && ascii_lower(t1[i]) == ascii_lower(u1[i]) by {
            assert(t1[i] == t[i] && u1[i] == u[i]);
        }
        lemma_slug_raw_same_classes(t1, u1);
        assert(is_ascii_alnum(t[t.len() - 1]) == is_ascii_alnum(u[t.len() - 1]));
    }
}

/// The slug of a title does not depend on the ASCII case of the title.
pub proof fn lemma_slugify_ignores_ascii_case(title: Seq<char>)
    ensures
        spec_slugify(lower_seq(title)) == spec_slugify(title),
        spec_slugify(upper_seq(title)) == spec_slugify(title),
{
    let l = lower_seq(title);
    let u = upper_seq(title);
    assert forall|i: int| 0 <= i < l.len() implies is_ascii_alnum(#[trigger] l[i]) == is_ascii_alnum(
        title[i],
    ) && ascii_lower(l[i]) == ascii_lower(title[i]) by {
        let c = title[i];
        if 'A' <= c && c <= 'Z' {
            assert(ascii_lower(c) as u32 == (c as u32) + 32);
        }
    }
    assert forall|i: int| 0 <= i < u.len() implies is_ascii_alnum(#[trigger] u[i]) == is_ascii_alnum(
        title[i],
    ) && ascii_lower(u[i]) == ascii_lower(title[i]) by {
        let c = title[i];
        if 'a' <= c && c <= 'z' {
            assert(ascii_upper(c) as u32 == (c as u32) - 32);
            assert(ascii_lower(ascii_upper(c)) as u32 == (c as u32));
        }
    }
    lemma_slug_raw_same_classes(l, title);
    lemma_slug_raw_same_classes(u, title);
}

/// The slug of a title, as characters.
fn slug_chars(title: &Vec<char>) -> (r: Vec<char>)
    ensures
        r@ == spec_slugify(title@),
{
    let mut out: Vec<char> = Vec::new();
    let mut previous_dash = false;
    let mut i: usize = 0;
    while i < title.len()
        invariant
            i <= title.len(),
            out@ == slug_raw(title@.take(i as int)),
            previous_dash == (out@.len() > 0 && out@.last() == '-'),
        decreases title.len() - i,
    {
        let ch = title[i];
        assert(title@.take(i + 1).drop_last() =~= title@.take(i as int));
        assert(title@.take(i + 1).last() == ch);
        if is_alnum(ch) {
            out.push(lower_char(ch));
            previous_dash = false;
        } else if !previous_dash {
            out.push('-');
            previous_dash = true;
        }
        i = i + 1;
    }
    assert(title@.take(title.len() as int) =~= title@);
    let normalized = strip_dash_chars(&out);
    if normalized.len() == 0 {
        let w = vec!['s', 'e', 'c', 't', 'i', 'o', 'n'];
        assert(w@ =~= section_word());
        w
    } else {
        normalized
    }
}

/// Generates a URL-safe slug from a heading title.
pub fn slugify(title: &str) -> (r: String)
    ensures
        r@ == spec_slugify(title@),
        url_safe(r@),
{
    proof {
        lemma_slugify_url_safe(title@);
    }
    string_of(&slug_chars(&chars_of(title)))
}

// ---------------------------------------------------------------------------
// Line classification
// ---------------------------------------------------------------------------

/// A reference definition `[id]: url`: the id and the url, both trimmed and
/// not empty.
pub open spec fn spec_parse_reference(line: Seq<char>) -> Option<(Seq<char>, Seq<char>)> {
    let t = trim(line);
    if t.len() == 0 || t[0] != '[' {
        None
    } else {
        match find(t, seq![']', ':']) {
            None => None,
            Some(close) => if close <= 1 || close + 2 > t.len() {
                None
            } else {
                let id = trim(t.subrange(1, close as int));
                let url = trim(t.subrange(close + 2 as int, t.len() as int));
                if id.len() == 0 || url.len() == 0 {
                    None
                } else {
                    Some((id, url))
                }
            },
        }
    }
}

/// Number of `'#'` at the start of `s`.
pub open spec fn leading_hashes(s: Seq<char>) -> nat
    decreases s.len(),
{
    if s.len() > 0 && s[0] == '#' {
        1 + leading_hashes(s.drop_first())
    } else {
        0
    }
}

/// A Markdown heading `### Title`: one to six `'#'`, whitespace, then a
/// title that is not empty once trimmed.
pub open spec fn spec_parse_markdown_heading(line: Seq<char>) -> Option<(nat, Seq<char>)> {
    let t = trim(line);
    if t.len() == 0 || t[0] != '#' {
        None
    } else {
        let level = leading_hashes(t);
        if !(1 <= level <= 6) {
            None
        } else if level >= t.len() || !char_whitespace(t[level as int]) {
            None
        } else {
            let title = trim(t.skip(level as int));
            if title.len() == 0 {
                None
            } else {
                Some((level, title))
            }
        }
    }
}

/// An HTML heading `<hN ...>Title</hN>` with `N` from 1 to 6, matched
/// without regard to ASCII case: the title lies between the first `'>'`
/// and the last closing tag, trimmed and not empty. (A line shorter than
/// five characters is refused; the closing tag alone takes five.)
pub open spec fn spec_parse_html_heading(line: Seq<char>) -> Option<(nat, Seq<char>)> {
    let t = trim(line);
    let lw = lower_seq(t);
    if !(lw.len() >= 2 && lw[0] == '<' && lw[1] == 'h') {
        None
    } else if lw.len() < 5 {
        None
    } else if !('1' <= lw[2] && lw[2] <= '6') {
        None
    } else {
        let level = (lw[2] as int - 48) as nat;
        match find(t, seq!['>']) {
            None => None,
            Some(open_end) => match rfind(lw, seq!['<', '/', 'h', lw[2], '>']) {
                None => None,
                Some(close) => if close <= open_end {
                    None
                } else {
                    let title = trim(t.subrange(open_end + 1 as int, close as int));
                    if title.len() == 0 {
                        None
                    } else {
                        Some((level, title))
                    }
                },
            },
        }
    }
}

/// A heading in either form, the Markdown form tried first.
pub open spec fn spec_parse_heading(line: Seq<char>) -> Option<(nat, Seq<char>)> {
    match spec_parse_markdown_heading(line) {
        Some(h) => Some(h),
        None => spec_parse_html_heading(line),
    }
}

/// Attempts to parse a Markdown reference definition (e.g., [id]: url).
fn parse_reference(line: &Vec<char>) -> (r: Option<(Vec<char>, Vec<char>)>)
    ensures
        r is None <==> spec_parse_reference(line@) is None,
        r matches Some((id, url)) ==> spec_parse_reference(line@) == Some((id@, url@)),
{
    let t = trim_chars(line);
    if t.len() == 0 || t[0] != '[' {
        return None;
    }
    let pat: Vec<char> = vec![']', ':'];
    assert(pat@ =~= seq![']', ':']);
    let close = match find_from_exec(&t, &pat, 0) {
        Some(c) => c,
        None => {
            return None;
        },
    };
    if close <= 1 {
        return None;
    }
    let id = trim_chars(&copy_range(&t, 1, close));
    let url = trim_chars(&copy_range(&t, close + 2, t.len()));
    if id.len() == 0 || url.len() == 0 {
        return None;
    }
    Some((id, url))
}

/// Parses a standard Markdown heading (e.g., ### My Title).
fn parse_markdown_heading(line: &Vec<char>) -> (r: Option<(usize, Vec<char>)>)
    ensures
        r is None <==> spec_parse_markdown_heading(line@) is None,
        r matches Some((level, title)) ==> spec_parse_markdown_heading(line@) == Some(
            (level as nat, title@),
        ),
{
    let t = trim_chars(line);
    if t.len() == 0 || t[0] != '#' {
        return None;
    }
    let mut level: usize = 0;
    assert(t@.skip(0) =~= t@);
    while level < t.len() && t[level] == '#'
        invariant
            level <= t.len(),
            leading_hashes(t@) == level + leading_hashes(t@.skip(level as int)),
        decreases t.len() - level,
    {
        assert(t@.skip(level as int).drop_first() =~= t@.skip(level + 1));
        level = level + 1;
    }
    assert(leading_hashes(t@.skip(level as int)) == 0) by {
        if level < t.len() {
            assert(t@.skip(level as int)[0] == t@[level as int]);
        }
    }
    if !(1 <= level && level <= 6) {
        return None;
    }
    if level >= t.len() || !is_whitespace(t[level]) {
        return None;
    }
    let title = trim_chars(&copy_range(&t, level, t.len()));
    assert(t@.subrange(level as int, t.len() as int) =~= t@.skip(level as int));
    if title.len() == 0 {
        return None;
    }
    Some((level, title))
}

/// Parses an HTML-style heading (e.g., <h2>My Title</h2>).
fn parse_html_heading(line: &Vec<char>) -> (r: Option<(usize, Vec<char>)>)
    ensures
        r is None <==> spec_parse_html_heading(line@) is None,
        r matches Some((level, title)) ==> spec_parse_html_heading(line@) == Some(
            (level as nat, title@),
        ),
{
    let trimmed = trim_chars(line);
    let lower = lower_chars(&trimmed);
    if !(lower.len() >= 2 && lower[0] == '<' && lower[1] == 'h') {
        return None;
    }
    if lower.len() < 5 {
        return None;
    }
    let level_char = lower[2];
    if !('1' <= level_char && level_char <= '6') {
        return None;
    }
    let level: usize = ((level_char as u8) - 48) as usize;
    let gt: Vec<char> = vec!['>'];
    assert(gt@ =~= seq!['>']);
    let open_end = match find_from_exec(&trimmed, &gt, 0) {
        Some(k) => k,
        None => {
            return None;
        },
    };
    let close_tag: Vec<char> = vec!['<', '/', 'h', level_char, '>'];
    assert(close_tag@ =~= seq!['<', '/', 'h', lower@[2], '>']);
    let close_index = match rfind_exec(&lower, &close_tag) {
        Some(k) => k,
        None => {
            return None;
        },
    };
    if close_index <= open_end {
        return None;
    }
    let title = trim_chars(&copy_range(&trimmed, open_end + 1, close_index));
    if title.len() == 0 {
        return None;
    }
    Some((level, title))
}

/// Unified heading parser that supports both Markdown and HTML heading formats.
fn parse_heading(line: &Vec<char>) -> (r: Option<(usize, Vec<char>)>)
    ensures
        r is None <==> spec_parse_heading(line@) is None,
        r matches Some((level, title)) ==> spec_parse_heading(line@) == Some(
            (level as nat, title@),
        ),
{
    match parse_markdown_heading(line) {
        Some(h) => Some(h),
        None => parse_html_heading(line),
    }
}

// ---------------------------------------------------------------------------
// Sections and their model
// ---------------------------------------------------------------------------

/// A paginated collection of section paths returned by discovery tools.
#[derive(Clone, Debug)]
pub struct PaginatedResult {
    /// List of hierarchical paths (e.g., ["chapter-1", "chapter-1/intro"]).
    pub items: Vec<String>,
    /// Current 0-indexed page number.
    pub page: usize,
    /// Number of items requested per page.
    pub size: usize,
    /// Total number of items available for the given parent path.
    pub total: usize,
}

/// Represents a specific section of the Markdown document identified by a heading.
#[derive(Clone, Debug)]
pub struct MarkdownNode {
    /// The text of the heading as written.
    pub title: String,
    /// The URL-safe version of the title used for path building.
    pub slug: String,
    /// The depth level of the heading (1 for #, 2 for ##, etc.).
    pub level: usize,
    /// The raw text content belonging directly to this section (before the next heading).
    pub content: String,
    /// Hierarchical paths to direct sub-sections.
    pub children: Vec<String>,
}

/// The mathematical content of a section.
pub struct NodeModel {
    pub title: Seq<char>,
    pub slug: Seq<char>,
    pub level: nat,
    pub content: Seq<char>,
    pub children: Seq<Seq<char>>,
}

/// The characters of each string.
pub open spec fn strings_view(s: Seq<String>) -> Seq<Seq<char>> {
    s.map_values(|x: String| x@)
}

impl View for MarkdownNode {
    type V = NodeModel;

    open spec fn view(&self) -> NodeModel {
        NodeModel {
            title: self.title@,
            slug: self.slug@,
            level: self.level as nat,
            content: self.content@,
            children: strings_view(self.children@),
        }
    }
}

/// The mathematical content of the index: sections by path, reference
/// targets by id, and the paths of the top-level sections in document order.
pub struct EngineModel {
    pub nodes: Map<Seq<char>, NodeModel>,
    pub references: Map<Seq<char>, Seq<char>>,
    pub roots: Seq<Seq<char>>,
}

/// What holds of every index: each listed path names a section; a child's
/// path is its parent's path, `'/'` and its slug, and its level is deeper;
/// a top-level path is its slug; every slug is URL-safe; levels run from 1
/// to 6; no path is listed twice.
pub open spec fn model_wf(m: EngineModel) -> bool {
    &&& m.nodes.dom().finite()
    &&& forall|p: Seq<char>| #[trigger] m.nodes.contains_key(p) ==> node_wf(m, p)
    &&& forall|i: int|
        0 <= i < m.roots.len() ==> m.nodes.contains_key(#[trigger] m.roots[i]) && m.roots[i]
            == m.nodes[m.roots[i]].slug
    &&& m.roots.no_duplicates()
    &&& forall|p: Seq<char>|
        #[trigger] m.nodes.contains_key(p) ==> m.roots.contains(p) || exists|q: Seq<char>|
            #[trigger] listed_under(m, q, p)
}

/// `p` is among the children of the section at `q`.
pub open spec fn listed_under(m: EngineModel, q: Seq<char>, p: Seq<char>) -> bool {
    m.nodes.contains_key(q) && m.nodes[q].children.contains(p)
}

/// `p` stands in exactly one list: either among the top-level sections and
/// under no section, or under exactly one section and not at the top level.
pub open spec fn listed_once(m: EngineModel, p: Seq<char>) -> bool {
    ||| m.roots.contains(p) && forall|q: Seq<char>| !#[trigger] listed_under(m, q, p)
    ||| !m.roots.contains(p) && exists|q: Seq<char>|
        #[trigger] listed_under(m, q, p) && forall|q2: Seq<char>|
            #[trigger] listed_under(m, q2, p) ==> q2 == q
}

/// The section at `p` is in order with its children.
pub open spec fn node_wf(m: EngineModel, p: Seq<char>) -> bool {
    let n = m.nodes[p];
    &&& 1 <= n.level <= 6
    &&& url_safe(n.slug)
    &&& n.children.no_duplicates()
    &&& forall|i: int|
        0 <= i < n.children.len() ==> {
            let c = #[trigger] n.children[i];
            &&& m.nodes.contains_key(c)
            &&& m.nodes[c].level > n.level
            &&& c == p + seq!['/'] + m.nodes[c].slug
        }
}

// ---------------------------------------------------------------------------
// Building the index, line by line
// ---------------------------------------------------------------------------

/// The state while the lines are read: the index so far, the open headings
/// (level and path, outermost first), and the section that takes content.
pub struct BuildState {
    pub engine: EngineModel,
    pub stack: Seq<(nat, Seq<char>)>,
    pub current: Option<Seq<char>>,
}

/// The index of an empty document.
pub open spec fn empty_engine() -> EngineModel {
    EngineModel { nodes: Map::empty(), references: Map::empty(), roots: seq![] }
}

/// The state before the first line.
pub open spec fn initial_state() -> BuildState {
    BuildState { engine: empty_engine(), stack: seq![], current: None }
}

/// The open headings that stay open under a new heading of `level`: those
/// of a smaller level.
pub open spec fn pop_stack(stack: Seq<(nat, Seq<char>)>, level: nat) -> Seq<(nat, Seq<char>)>
    decreases stack.len(),
{
    if stack.len() > 0 && stack.last().0 >= level {
        pop_stack(stack.drop_last(), level)
    } else {
        stack
    }
}

/// The path of a section with `slug` under `parent` (or at the top level).
pub open spec fn join_path(parent: Option<Seq<char>>, slug: Seq<char>) -> Seq<char> {
    match parent {
        Some(p) => p + seq!['/'] + slug,
        None => slug,
    }
}

/// The `k`-th slug tried for a base slug: the base itself, then `base-1`, `base-2`, ...
pub open spec fn slug_candidate(base: Seq<char>, k: nat) -> Seq<char> {
    if k == 0 {
        base
    } else {
        base + seq!['-'] + decimal(k)
    }
}

/// The `k`-th candidate is already the path of a section.
pub open spec fn slug_taken(
    nodes: Map<Seq<char>, NodeModel>,
    parent: Option<Seq<char>>,
    base: Seq<char>,
    k: nat,
) -> bool {
    nodes.contains_key(join_path(parent, slug_candidate(base, k)))
}

/// The first candidate that is free.
pub open spec fn free_suffix(
    nodes: Map<Seq<char>, NodeModel>,
    parent: Option<Seq<char>>,
    base: Seq<char>,
) -> nat {
    choose|k: nat|
        !slug_taken(nodes, parent, base, k) && forall|j: nat|
            j < k ==> #[trigger] slug_taken(nodes, parent, base, j)
}

/// The slug that a new section with base slug `base` under `parent` gets.
pub open spec fn unique_slug(
    nodes: Map<Seq<char>, NodeModel>,
    parent: Option<Seq<char>>,
    base: Seq<char>,
) -> Seq<char> {
    slug_candidate(base, free_suffix(nodes, parent, base))
}

/// `nodes` with `child` appended to the children of `parent`, if `parent` is there.
pub open spec fn add_child(
    nodes: Map<Seq<char>, NodeModel>,
    parent: Seq<char>,
    child: Seq<char>,
) -> Map<Seq<char>, NodeModel> {
    if nodes.contains_key(parent) {
        let n = nodes[parent];
        nodes.insert(
            parent,
            NodeModel {
                title: n.title,
                slug: n.slug,
                level: n.level,
                content: n.content,
                children: n.children.push(child),
            },
        )
    } else {
        nodes
    }
}

/// A heading line: close the deeper or equal open headings, then add the
/// section under the innermost one still open (or at the top level) with a
/// slug that no sibling has taken, and make it the open section.
pub open spec fn heading_step(st: BuildState, level: nat, title: Seq<char>) -> BuildState {
    let stack = pop_stack(st.stack, level);
    let parent = if stack.len() > 0 {
        Some(stack.last().1)
    } else {
        None::<Seq<char>>
    };
    let slug = unique_slug(st.engine.nodes, parent, spec_slugify(title));
    let path = join_path(parent, slug);
    let node = NodeModel { title, slug, level, content: seq![], children: seq![] };
    let nodes = match parent {
        Some(p) => add_child(st.engine.nodes, p, path),
        None => st.engine.nodes,
    };
    let roots = match parent {
        Some(p) => st.engine.roots,
        None => st.engine.roots.push(path),
    };
    BuildState {
        engine: EngineModel {
            nodes: nodes.insert(path, node),
            references: st.engine.references,
            roots,
        },
        stack: stack.push((level, path)),
        current: Some(path),
    }
}

/// `content` with one more line: a `'\n'` goes in between unless the content is empty.
pub open spec fn append_line(content: Seq<char>, line: Seq<char>) -> Seq<char> {
    if content.len() == 0 {
        line
    } else {
        content.push('\n') + line
    }
}

/// Any other line: it is appended to the content of the open section, if any.
pub open spec fn content_step(st: BuildState, line: Seq<char>) -> BuildState {
    match st.current {
        Some(p) => if st.engine.nodes.contains_key(p) {
            let n = st.engine.nodes[p];
            BuildState {
                engine: EngineModel {
                    nodes: st.engine.nodes.insert(
                        p,
                        NodeModel {
                            title: n.title,
                            slug: n.slug,
                            level: n.level,
                            content: append_line(n.content, line),
                            children: n.children,
                        },
                    ),
                    references: st.engine.references,
                    roots: st.engine.roots,
                },
                stack: st.stack,
                current: st.current,
            }
        } else {
            st
        },
        None => st,
    }
}

/// One line: a reference definition, else a heading, else content.
pub open spec fn build_step(st: BuildState, line: Seq<char>) -> BuildState {
    match spec_parse_reference(line) {
        Some((id, url)) => BuildState {
            engine: EngineModel {
                nodes: st.engine.nodes,
                references: st.engine.references.insert(id, url),
                roots: st.engine.roots,
            },
            stack: st.stack,
            current: st.current,
        },
        None => match spec_parse_heading(line) {
            Some((level, title)) => heading_step(st, level, title),
            None => content_step(st, line),
        },
    }
}

/// The state after the given lines.
pub open spec fn build_lines(ls: Seq<Seq<char>>) -> BuildState {
    ls.fold_left(initial_state(), |st: BuildState, l: Seq<char>| build_step(st, l))
}

/// The index of a Markdown document.
pub open spec fn markdown_index(content: Seq<char>) -> EngineModel {
    build_lines(lines(content)).engine
}

/// Reading one more line takes one more step.
pub proof fn lemma_build_lines_step(ls: Seq<Seq<char>>, i: int)
    requires
        0 <= i < ls.len(),
    ensures
        build_lines(ls.take(i + 1)) == build_step(build_lines(ls.take(i)), ls[i]),
{
    assert(ls.take(i + 1).drop_last() =~= ls.take(i));
}

// ---------------------------------------------------------------------------
// Fresh slugs
// ---------------------------------------------------------------------------

proof fn lemma_join_injective(parent: Option<Seq<char>>, a: Seq<char>, b: Seq<char>)
    requires
        join_path(parent, a) == join_path(parent, b),
    ensures
        a == b,
{
    if let Some(p) = parent {
        let n: int = p.len() as int + 1;
        assert((p + seq!['/'] + a).skip(n) =~= a);
        assert((p + seq!['/'] + b).skip(n) =~= b);
    }
}

proof fn lemma_candidate_injective(base: Seq<char>, a: nat, b: nat)
    requires
        slug_candidate(base, a) == slug_candidate(base, b),
    ensures
        a == b,
{
    lemma_decimal_value(a);
    lemma_decimal_value(b);
    if a != 0 && b != 0 {
        let n: int = base.len() as int + 1;
        assert((base + seq!['-'] + decimal(a)).skip(n) =~= decimal(a));
        assert((base + seq!['-'] + decimal(b)).skip(n) =~= decimal(b));
        lemma_decimal_injective(a, b);
    } else if a != 0 {
        assert(slug_candidate(base, a).len() > base.len());
    } else if b != 0 {
        assert(slug_candidate(base, b).len() > base.len());
    }
}

/// If the first `n` candidates are all taken, there are at least `n` sections.
proof fn lemma_taken_bound(
    nodes: Map<Seq<char>, NodeModel>,
    parent: Option<Seq<char>>,
    base: Seq<char>,
    n: nat,
)
    requires
        nodes.dom().finite(),
        forall|j: nat| j < n ==> #[trigger] slug_taken(nodes, parent, base, j),
    ensures
        n <= nodes.dom().len(),
{
    let f = |j: int| join_path(parent, slug_candidate(base, j as nat));
    let s = vstd::set_lib::set_int_range(0, n as int);
    vstd::set_lib::lemma_int_range(0, n as int);
    assert forall|a: int, b: int| s.contains(a) && s.contains(b) && #[trigger] f(a) == #[trigger] f(
        b,
    ) implies a == b by {
        lemma_join_injective(parent, slug_candidate(base, a as nat), slug_candidate(base, b as nat));
        lemma_candidate_injective(base, a as nat, b as nat);
    }
    let img = s.map(f);
    vstd::set_lib::lemma_map_size(s, img, f);
    assert forall|x: Seq<char>| img.contains(x) implies nodes.dom().contains(x) by {
        let j = choose|j: int| s.contains(j) && f(j) == x;
        assert(slug_taken(nodes, parent, base, j as nat));
    }
    vstd::set_lib::lemma_len_subset(img, nodes.dom());
}

proof fn lemma_free_from(
    nodes: Map<Seq<char>, NodeModel>,
    parent: Option<Seq<char>>,
    base: Seq<char>,
    k: nat,
)
    requires
        nodes.dom().finite(),
        forall|j: nat| j < k ==> #[trigger] slug_taken(nodes, parent, base, j),
    ensures
        !slug_taken(nodes, parent, base, free_suffix(nodes, parent, base)),
        forall|j: nat|
            j < free_suffix(nodes, parent, base) ==> #[trigger] slug_taken(nodes, parent, base, j),
    decreases nodes.dom().len() + 1 - k,
{
    lemma_taken_bound(nodes, parent, base, k);
    if !slug_taken(nodes, parent, base, k) {
        assert(!slug_taken(nodes, parent, base, k) && forall|j: nat|
            j < k ==> #[trigger] slug_taken(nodes, parent, base, j));
    } else {
        lemma_taken_bound(nodes, parent, base, k + 1);
        lemma_free_from(nodes, parent, base, k + 1);
    }
}

/// The first free candidate exists: it is free, and every earlier one is taken.
pub proof fn lemma_free_suffix(
    nodes: Map<Seq<char>, NodeModel>,
    parent: Option<Seq<char>>,
    base: Seq<char>,
)
    requires
        nodes.dom().finite(),
    ensures
        !slug_taken(nodes, parent, base, free_suffix(nodes, parent, base)),
        forall|j: nat|
            j < free_suffix(nodes, parent, base) ==> #[trigger] slug_taken(nodes, parent, base, j),
{
    lemma_free_from(nodes, parent, base, 0);
}

proof fn lemma_decimal_digits(n: nat)
    ensures
        forall|i: int| 0 <= i < decimal(n).len() ==> '0' <= #[trigger] decimal(n)[i] <= '9',
    decreases n,
{
    if n >= 10 {
        lemma_decimal_digits(n / 10);
        assert forall|i: int| 0 <= i < decimal(n).len() implies '0' <= #[trigger] decimal(n)[i]
            <= '9' by {
            if i < decimal(n / 10).len() {
                assert(decimal(n)[i] == decimal(n / 10)[i]);
            }
        }
    }
}

/// A candidate slug built from a URL-safe base is URL-safe.
proof fn lemma_candidate_url_safe(base: Seq<char>, k: nat)
    requires
        url_safe(base),
    ensures
        url_safe(slug_candidate(base, k)),
{
    if k > 0 {
        lemma_decimal_digits(k);
        lemma_decimal_value(k);
        let d = decimal(k);
        let s = slug_candidate(base, k);
        assert(s == base + seq!['-'] + d);
        assert forall|i: int| 0 <= i < s.len() implies is_slug_char(#[trigger] s[i]) by {
            if i < base.len() {
                assert(s[i] == base[i]);
            } else if i > base.len() {
                assert(s[i] == d[i - base.len() - 1]);
            }
        }
        assert(s[0] == base[0]);
        assert(s.last() == d.last());
        assert forall|i: int| 0 <= i < s.len() - 1 implies !(#[trigger] s[i] == '-' && s[i + 1]
            == '-') by {
            if i + 1 < base.len() {
                assert(s[i] == base[i] && s[i + 1] == base[i + 1]);
            } else if i + 1 == base.len() {
                assert(s[i] == base.last());
            } else if i == base.len() {
                assert(s[i + 1] == d[0]);
            } else {
                assert(s[i] == d[i - base.len() - 1]);
            }
        }
    }
}

proof fn lemma_free_suffix_is(
    nodes: Map<Seq<char>, NodeModel>,
    parent: Option<Seq<char>>,
    base: Seq<char>,
    k: nat,
)
    requires
        nodes.dom().finite(),
        !slug_taken(nodes, parent, base, k),
        forall|j: nat| j < k ==> #[trigger] slug_taken(nodes, parent, base, j),
    ensures
        free_suffix(nodes, parent, base) == k,
{
    lemma_free_suffix(nodes, parent, base);
    let f = free_suffix(nodes, parent, base);
    if f < k {
        assert(slug_taken(nodes, parent, base, f));
    } else if f > k {
        assert(slug_taken(nodes, parent, base, k));
    }
}

// ---------------------------------------------------------------------------
// The builder
// ---------------------------------------------------------------------------

/// A path, if any, by its characters.
pub open spec fn opt_chars(o: Option<Vec<char>>) -> Option<Seq<char>> {
    match o {
        Some(v) => Some(v@),
        None => None,
    }
}

/// The open headings by level and path.
pub open spec fn stack_view(s: Seq<(usize, Vec<char>)>) -> Seq<(nat, Seq<char>)> {
    s.map_values(|e: (usize, Vec<char>)| (e.0 as nat, e.1@))
}

/// The index while it is being built, with the parser's state beside it.
struct Builder {
    nodes: PathTable<MarkdownNode>,
    references: PathTable<String>,
    root_nodes: Vec<String>,
    stack: Vec<(usize, Vec<char>)>,
    current_path: Option<Vec<char>>,
}

impl Builder {
    spec fn wf(&self) -> bool {
        self.nodes.wf() && self.references.wf()
    }

    spec fn state(&self) -> BuildState {
        BuildState {
            engine: EngineModel {
                nodes: self.nodes.map(),
                references: self.references.map(),
                roots: strings_view(self.root_nodes@),
            },
            stack: stack_view(self.stack@),
            current: opt_chars(self.current_path),
        }
    }

    /// Generates a unique slug for a section by checking for collisions with existing paths.
    fn make_unique_slug(&self, parent_path: &Option<Vec<char>>, base_slug: &Vec<char>) -> (r: Vec<
        char,
    >)
        requires
            self.wf(),
        ensures
            r@ == unique_slug(self.nodes.map(), opt_chars(*parent_path), base_slug@),
    {
        let ghost nodes = self.nodes.map();
        let ghost parent = opt_chars(*parent_path);
        proof {
            self.nodes.lemma_dom();
            self.nodes.lemma_no_duplicates();
            self.nodes.key_seq().unique_seq_to_set();
        }
        let mut candidate = copy_chars(base_slug);
        let mut suffix: usize = 0;
        let count = self.nodes.len();
        loop
            invariant
                self.wf(),
                count == self.nodes.key_seq().len(),
                nodes == self.nodes.map(),
                parent == opt_chars(*parent_path),
                nodes.dom().finite(),
                nodes.dom().len() == self.nodes.key_seq().len(),
                candidate@ == slug_candidate(base_slug@, suffix as nat),
                forall|j: nat| j < suffix ==> #[trigger] slug_taken(nodes, parent, base_slug@, j),
                suffix <= self.nodes.key_seq().len(),
            decreases self.nodes.key_seq().len() - suffix,
        {
            let full_path = join_path_exec(parent_path, &candidate);
            if self.nodes.search(&full_path).is_err() {
                proof {
                    lemma_free_suffix_is(nodes, parent, base_slug@, suffix as nat);
                }
                return candidate;
            }
            assert(slug_taken(nodes, parent, base_slug@, suffix as nat));
            proof {
                lemma_taken_bound(nodes, parent, base_slug@, (suffix + 1) as nat);
            }
            suffix = suffix + 1;
            candidate = copy_chars(base_slug);
            candidate.push('-');
            push_decimal(&mut candidate, suffix);
        }
    }

    /// Internal helper to append content to the currently active section during parsing.
    fn push_content_line(&mut self, line: &Vec<char>)
        requires
            old(self).wf(),
        ensures
            final(self).wf(),
            final(self).state() == content_step(old(self).state(), line@),
    {
        let ghost st = self.state();
        match &self.current_path {
            Some(path) => {
                match self.nodes.search(path) {
                    Ok(i) => {
                        let ghost old_nodes = self.nodes;
                        proof {
                            old_nodes.lemma_index(i as int);
                        }
                        let node = self.nodes.value_at_mut(i);
                        if !node.content.as_str().is_empty() {
                            string_push(&mut node.content, '\n');
                        }
                        push_chars(&mut node.content, line);
                        proof {
                            PathTable::lemma_update(old_nodes, self.nodes, i as int);
                        }
                        assert(self.state() == content_step(st, line@));
                    },
                    Err(_) => {},
                }
            },
            None => {},
        }
    }

    /// Adds the section of a heading line.
    fn add_heading(&mut self, level: usize, title: Vec<char>)
        requires
            old(self).wf(),
        ensures
            final(self).wf(),
            final(self).state() == heading_step(old(self).state(), level as nat, title@),
    {
        let ghost st = self.state();
        pop_to_level(&mut self.stack, level);
        let ghost stack1 = pop_stack(st.stack, level as nat);
        let parent_path: Option<Vec<char>> = if self.stack.len() > 0 {
            Some(copy_chars(&self.stack[self.stack.len() - 1].1))
        } else {
            None
        };
        assert(opt_chars(parent_path) == (if stack1.len() > 0 {
            Some(stack1.last().1)
        } else {
            None::<Seq<char>>
        }));
        let base_slug = slug_chars(&title);
        let unique = self.make_unique_slug(&parent_path, &base_slug);
        let full_path = join_path_exec(&parent_path, &unique);
        let node = MarkdownNode {
            title: string_of(&title),
            slug: string_of(&unique),
            level,
            content: String::new(),
            children: Vec::new(),
        };
        let ghost parent = opt_chars(parent_path);
        let ghost path = full_path@;
        match &parent_path {
            Some(parent) => {
                match self.nodes.search(parent) {
                    Ok(i) => {
                        let ghost old_nodes = self.nodes;
                        proof {
                            old_nodes.lemma_index(i as int);
                        }
                        let child = string_of(&full_path);
                        let pnode = self.nodes.value_at_mut(i);
                        pnode.children.push(child);
                        proof {
                            PathTable::lemma_update(old_nodes, self.nodes, i as int);
                            assert(strings_view(self.nodes.vals@[i as int].children@) =~= strings_view(
                                old_nodes.vals@[i as int].children@,
                            ).push(path));
                        }
                    },
                    Err(_) => {},
                }
            },
            None => {
                let ghost old_roots = self.root_nodes@;
                self.root_nodes.push(string_of(&full_path));
                assert(strings_view(self.root_nodes@) =~= strings_view(old_roots).push(path));
            },
        }
        assert(self.nodes.map() == (match parent {
            Some(p) => add_child(st.engine.nodes, p, path),
            None => st.engine.nodes,
        }));
        assert(strings_view(self.root_nodes@) == (match parent {
            Some(p) => st.engine.roots,
            None => st.engine.roots.push(path),
        }));
        assert(path == join_path(parent, unique_slug(st.engine.nodes, parent, spec_slugify(title@))));
        assert(strings_view(node.children@) =~= Seq::<Seq<char>>::empty());
        assert(node@ == NodeModel {
            title: title@,
            slug: unique@,
            level: level as nat,
            content: seq![],
            children: seq![],
        });
        self.nodes.insert(copy_chars(&full_path), node);
        let ghost old_stack = self.stack@;
        self.stack.push((level, copy_chars(&full_path)));
        assert(stack_view(self.stack@) =~= stack_view(old_stack).push((level as nat, path)));
        self.current_path = Some(full_path);
        assert(self.state() == heading_step(st, level as nat, title@));
    }

    /// Reads one line.
    fn apply_line(&mut self, line: &Vec<char>)
        requires
            old(self).wf(),
        ensures
            final(self).wf(),
            final(self).state() == build_step(old(self).state(), line@),
    {
        if let Some((ref_id, url)) = parse_reference(line) {
            self.references.insert(ref_id, string_of(&url));
            return;
        }
        if let Some((level, title)) = parse_heading(line) {
            self.add_heading(level, title);
            return;
        }
        self.push_content_line(line);
    }
}

/// Closes the open headings of level `level` or deeper.
fn pop_to_level(stack: &mut Vec<(usize, Vec<char>)>, level: usize)
    ensures
        stack_view(final(stack)@) == pop_stack(stack_view(old(stack)@), level as nat),
{
    while stack.len() > 0 && stack[stack.len() - 1].0 >= level
        invariant
            pop_stack(stack_view(old(stack)@), level as nat) == pop_stack(
                stack_view(stack@),
                level as nat,
            ),
        decreases stack.len(),
    {
        let ghost before = stack@;
        stack.pop();
        assert(stack_view(before).drop_last() =~= stack_view(stack@));
    }
}

/// The path of a section with slug `slug` under `parent`.
fn join_path_exec(parent: &Option<Vec<char>>, slug: &Vec<char>) -> (r: Vec<char>)
    ensures
        r@ == join_path(opt_chars(*parent), slug@),
{
    match parent {
        Some(p) => {
            let mut r = copy_chars(p);
            r.push('/');
            let mut rest = copy_chars(slug);
            r.append(&mut rest);
            r
        },
        None => copy_chars(slug),
    }
}

// ---------------------------------------------------------------------------
// What building keeps
// ---------------------------------------------------------------------------

/// The content that the given lines make, joined as sections collect them.
pub open spec fn joined_content(ls: Seq<Seq<char>>) -> Seq<char> {
    ls.fold_left(seq![], |c: Seq<char>, l: Seq<char>| append_line(c, l))
}

/// A line that is neither a reference definition nor a heading.
pub open spec fn is_text_line(l: Seq<char>) -> bool {
    spec_parse_reference(l) is None && spec_parse_heading(l) is None
}

/// The content of every section is made of text lines only: no reference
/// definition and no heading ever stands in it.
pub open spec fn content_from_text_lines(m: EngineModel) -> bool {
    forall|p: Seq<char>|
        m.nodes.contains_key(p) ==> exists|ls: Seq<Seq<char>>|
            (forall|i: int| 0 <= i < ls.len() ==> is_text_line(#[trigger] ls[i]))
                && #[trigger] joined_content(ls) == m.nodes[p].content
}

/// The build state is in order: the index is well formed, its sections
/// hold text lines only, and every open heading names a section of the
/// level it was opened with.
pub open spec fn state_wf(st: BuildState) -> bool {
    &&& model_wf(st.engine)
    &&& content_from_text_lines(st.engine)
    &&& forall|i: int|
        0 <= i < st.stack.len() ==> st.engine.nodes.contains_key(#[trigger] st.stack[i].1)
            && st.engine.nodes[st.stack[i].1].level == st.stack[i].0
}

/// Headings have a level from 1 to 6.
pub proof fn lemma_heading_level(line: Seq<char>)
    ensures
        spec_parse_heading(line) matches Some((level, _)) ==> 1 <= level <= 6,
{
}

/// Closing headings keeps a prefix of the open ones, the last of them shallower than `level`.
pub proof fn lemma_pop_stack(stack: Seq<(nat, Seq<char>)>, level: nat)
    ensures
        pop_stack(stack, level).len() <= stack.len(),
        pop_stack(stack, level) == stack.take(pop_stack(stack, level).len() as int),
        pop_stack(stack, level).len() > 0 ==> pop_stack(stack, level).last().0 < level,
    decreases stack.len(),
{
    if stack.len() > 0 && stack.last().0 >= level {
        lemma_pop_stack(stack.drop_last(), level);
        let r = pop_stack(stack.drop_last(), level);
        assert(stack.drop_last().take(r.len() as int) =~= stack.take(r.len() as int));
    } else {
        assert(stack.take(stack.len() as int) =~= stack);
    }
}

proof fn lemma_heading_step_wf(st: BuildState, level: nat, title: Seq<char>)
    requires
        state_wf(st),
        1 <= level <= 6,
    ensures
        state_wf(heading_step(st, level, title)),
{
    let m = st.engine;
    let stack = pop_stack(st.stack, level);
    lemma_pop_stack(st.stack, level);
    let parent = if stack.len() > 0 {
        Some(stack.last().1)
    } else {
        None::<Seq<char>>
    };
    let base = spec_slugify(title);
    lemma_free_suffix(m.nodes, parent, base);
    let slug = unique_slug(m.nodes, parent, base);
    lemma_slugify_url_safe(title);
    lemma_candidate_url_safe(base, free_suffix(m.nodes, parent, base));
    let path = join_path(parent, slug);
    assert(!m.nodes.contains_key(path));
    let node = NodeModel { title, slug, level, content: seq![], children: seq![] };
    let nodes1 = match parent {
        Some(p) => add_child(m.nodes, p, path),
        None => m.nodes,
    };
    let r = heading_step(st, level, title);
    let m2 = r.engine;
    assert(m2.nodes == nodes1.insert(path, node));
    if stack.len() > 0 {
        let k = stack.len() - 1;
        assert(stack[k] == st.stack[k]);
        assert(m.nodes.contains_key(stack.last().1));
    }
    // Sections other than the new one keep their level and slug.
    assert forall|q: Seq<char>| #[trigger] m.nodes.contains_key(q) implies m2.nodes.contains_key(q)
        && m2.nodes[q].level == m.nodes[q].level && m2.nodes[q].slug == m.nodes[q].slug
        && m2.nodes[q].content == m.nodes[q].content
        && (parent != Some(q) ==> m2.nodes[q].children == m.nodes[q].children) && (parent == Some(
        q) ==> m2.nodes[q].children == m.nodes[q].children.push(path)) by {
        assert(q != path);
    }
    assert(m2.nodes.contains_key(path) && m2.nodes[path] == node);
    assert(m2.nodes.dom() == m.nodes.dom().insert(path)) by {
        assert(m2.nodes.dom() =~= m.nodes.dom().insert(path));
    }
    assert forall|q: Seq<char>| #[trigger] m2.nodes.contains_key(q) implies node_wf(m2, q) by {
        if q == path {
            assert(m2.nodes[q].children.len() == 0);
        } else {
            assert(m.nodes.contains_key(q));
            assert(node_wf(m, q));
            let n = m.nodes[q];
            let n2 = m2.nodes[q];
            assert forall|i: int| 0 <= i < n2.children.len() implies {
                let c = #[trigger] n2.children[i];
                &&& m2.nodes.contains_key(c)
                &&& m2.nodes[c].level > n2.level
                &&& c == q + seq!['/'] + m2.nodes[c].slug
            } by {
                if i < n.children.len() {
                    assert(n2.children[i] == n.children[i]);
                    assert(m.nodes.contains_key(n.children[i]));
                } else {
                    assert(parent == Some(q));
                    assert(n2.children[i] == path);
                }
            }
            if parent == Some(q) {
                assert forall|a: int, b: int|
                    0 <= a < n2.children.len() && 0 <= b < n2.children.len() && a != b implies
                    n2.children[a] != n2.children[b] by {
                    if a < n.children.len() {
                        assert(m.nodes.contains_key(n.children[a]));
                    }
                    if b < n.children.len() {
                        assert(m.nodes.contains_key(n.children[b]));
                    }
                }
            }
        }
    }
    assert forall|i: int| 0 <= i < m2.roots.len() implies m2.nodes.contains_key(
        #[trigger] m2.roots[i],
    ) && m2.roots[i] == m2.nodes[m2.roots[i]].slug by {
        if i < m.roots.len() {
            assert(m2.roots[i] == m.roots[i]);
            assert(m.nodes.contains_key(m.roots[i]));
        }
    }
    if parent is None {
        assert forall|a: int, b: int|
            0 <= a < m2.roots.len() && 0 <= b < m2.roots.len() && a != b implies m2.roots[a]
            != m2.roots[b] by {
            if a < m.roots.len() {
                assert(m.nodes.contains_key(m.roots[a]));
            }
            if b < m.roots.len() {
                assert(m.nodes.contains_key(m.roots[b]));
            }
        }
    }
    assert forall|q: Seq<char>| m2.nodes.contains_key(q) implies exists|ls: Seq<Seq<char>>|
        (forall|i: int| 0 <= i < ls.len() ==> is_text_line(#[trigger] ls[i]))
            && #[trigger] joined_content(ls) == m2.nodes[q].content by {
        if q == path {
            let e = Seq::<Seq<char>>::empty();
            assert(joined_content(e) == m2.nodes[q].content);
        } else {
            assert(m.nodes.contains_key(q));
        }
    }
    assert forall|q: Seq<char>| #[trigger] m2.nodes.contains_key(q) implies m2.roots.contains(q)
        || exists|q1: Seq<char>| #[trigger] listed_under(m2, q1, q) by {
        if q == path {
            if let Some(p0) = parent {
                let ch = m2.nodes[p0].children;
                assert(ch[ch.len() - 1] == path);
                assert(listed_under(m2, p0, q));
            } else {
                assert(m2.roots[m2.roots.len() - 1] == path);
            }
        } else {
            assert(m.nodes.contains_key(q));
            if m.roots.contains(q) {
                let k = choose|k: int| 0 <= k < m.roots.len() && m.roots[k] == q;
                assert(m2.roots[k] == q);
            } else {
                let q1 = choose|q1: Seq<char>| #[trigger] listed_under(m, q1, q);
                let k = choose|k: int|
                    0 <= k < m.nodes[q1].children.len() && m.nodes[q1].children[k] == q;
                assert(m2.nodes[q1].children[k] == q);
                assert(listed_under(m2, q1, q));
            }
        }
    }
    assert forall|i: int| 0 <= i < r.stack.len() implies m2.nodes.contains_key(
        #[trigger] r.stack[i].1,
    ) && m2.nodes[r.stack[i].1].level == r.stack[i].0 by {
        if i < stack.len() {
            assert(r.stack[i] == st.stack[i]);
            assert(m.nodes.contains_key(st.stack[i].1));
        }
    }
}

proof fn lemma_content_step_wf(st: BuildState, line: Seq<char>)
    requires
        state_wf(st),
        is_text_line(line),
    ensures
        state_wf(content_step(st, line)),
{
    let m = st.engine;
    let r = content_step(st, line);
    let m2 = r.engine;
    if let Some(p) = st.current {
        if m.nodes.contains_key(p) {
            assert(m2.nodes.dom() =~= m.nodes.dom());
            assert forall|q: Seq<char>| #[trigger] m.nodes.contains_key(q) implies m2.nodes[q].level
                == m.nodes[q].level && m2.nodes[q].slug == m.nodes[q].slug && m2.nodes[q].children
                == m.nodes[q].children by {}
            assert forall|q: Seq<char>| #[trigger] m2.nodes.contains_key(q) implies node_wf(
                m2,
                q,
            ) by {
                assert(node_wf(m, q));
                let n = m.nodes[q];
                assert forall|i: int| 0 <= i < n.children.len() implies {
                    let c = #[trigger] n.children[i];
                    &&& m2.nodes.contains_key(c)
                    &&& m2.nodes[c].level > m2.nodes[q].level
                    &&& c == q + seq!['/'] + m2.nodes[c].slug
                } by {
                    assert(m.nodes.contains_key(n.children[i]));
                }
            }
            assert forall|i: int| 0 <= i < m2.roots.len() implies m2.nodes.contains_key(
                #[trigger] m2.roots[i],
            ) && m2.roots[i] == m2.nodes[m2.roots[i]].slug by {
                assert(m.nodes.contains_key(m.roots[i]));
            }
            assert forall|q: Seq<char>| #[trigger] m2.nodes.contains_key(q) implies m2.roots.contains(
                q,
            ) || exists|q1: Seq<char>| #[trigger] listed_under(m2, q1, q) by {
                if !m.roots.contains(q) {
                    let q1 = choose|q1: Seq<char>| #[trigger] listed_under(m, q1, q);
                    assert(listed_under(m2, q1, q));
                }
            }
            assert forall|i: int| 0 <= i < r.stack.len() implies m2.nodes.contains_key(
                #[trigger] r.stack[i].1,
            ) && m2.nodes[r.stack[i].1].level == r.stack[i].0 by {
                assert(m.nodes.contains_key(st.stack[i].1));
            }
            assert forall|q: Seq<char>| m2.nodes.contains_key(q) implies exists|
                ls: Seq<Seq<char>>,
            |
                (forall|i: int| 0 <= i < ls.len() ==> is_text_line(#[trigger] ls[i]))
                    && #[trigger] joined_content(ls) == m2.nodes[q].content by {
                assert(m.nodes.contains_key(q));
                let ls0 = choose|ls: Seq<Seq<char>>|
                    (forall|i: int| 0 <= i < ls.len() ==> is_text_line(#[trigger] ls[i]))
                        && #[trigger] joined_content(ls) == m.nodes[q].content;
                if q == p {
                    let ls1 = ls0.push(line);
                    assert(ls1.drop_last() =~= ls0);
                    assert(joined_content(ls1) == append_line(joined_content(ls0), line));
                    assert forall|i: int| 0 <= i < ls1.len() implies is_text_line(#[trigger] ls1[i]) by {
                        if i < ls0.len() {
                            assert(ls1[i] == ls0[i]);
                        }
                    }
                    assert(joined_content(ls1) == m2.nodes[q].content);
                } else {
                    assert(joined_content(ls0) == m2.nodes[q].content);
                }
            }
        }
    }
}

proof fn lemma_build_step_wf(st: BuildState, line: Seq<char>)
    requires
        state_wf(st),
    ensures
        state_wf(build_step(st, line)),
{
    match spec_parse_reference(line) {
        Some(_) => {
            let m = st.engine;
            let m2 = build_step(st, line).engine;
            assert forall|q: Seq<char>| #[trigger] m2.nodes.contains_key(q) implies m2.roots.contains(
                q,
            ) || exists|q1: Seq<char>| #[trigger] listed_under(m2, q1, q) by {
                if !m.roots.contains(q) {
                    let q1 = choose|q1: Seq<char>| #[trigger] listed_under(m, q1, q);
                    assert(listed_under(m2, q1, q));
                }
            }
            assert forall|p: Seq<char>| #[trigger] m2.nodes.contains_key(p) implies node_wf(m2, p) by {
                assert(node_wf(m, p));
            }
        },
        None => match spec_parse_heading(line) {
            Some((level, title)) => {
                lemma_heading_level(line);
                lemma_heading_step_wf(st, level, title);
            },
            None => {
                lemma_content_step_wf(st, line);
            },
        },
    }
}

/// Every state reached by reading lines from the start is in order.
pub proof fn lemma_build_lines_wf(ls: Seq<Seq<char>>)
    ensures
        state_wf(build_lines(ls)),
    decreases ls.len(),
{
    if ls.len() == 0 {
        assert(empty_engine().nodes.dom() =~= Set::<Seq<char>>::empty());
    } else {
        lemma_build_lines_wf(ls.drop_last());
        lemma_build_step_wf(build_lines(ls.drop_last()), ls.last());
    }
}

/// Every index built from a document is well formed: each listed path names
/// a section, a child's path is its parent's path followed by `'/'` and its
/// own slug and its heading is deeper, a top-level path is its slug, every
/// slug is URL-safe, levels run from 1 to 6, and no list holds a path twice.
pub proof fn lemma_index_wf(content: Seq<char>)
    ensures
        model_wf(markdown_index(content)),
{
    lemma_build_lines_wf(lines(content));
}

/// In every index built from a document, the content of each section is
/// made of lines that are neither reference definitions nor headings.
pub proof fn lemma_index_content_is_text(content: Seq<char>)
    ensures
        content_from_text_lines(markdown_index(content)),
{
    lemma_build_lines_wf(lines(content));
}

// ---------------------------------------------------------------------------
// Queries
// ---------------------------------------------------------------------------

/// What `ls` lists under `path`: the top-level sections for the empty path,
/// else the children of the section at `path` (nothing if there is none).
pub open spec fn ls_entries(m: EngineModel, path: Seq<char>) -> Seq<Seq<char>> {
    if path.len() == 0 {
        m.roots
    } else if m.nodes.contains_key(path) {
        m.nodes[path].children
    } else {
        seq![]
    }
}

/// The page size used: 20 when 0 is asked for.
pub open spec fn effective_size(size: usize) -> nat {
    if size == 0 {
        20
    } else {
        size as nat
    }
}

/// Index of the first entry of a page (`page * size`, saturating at `usize::MAX`).
pub open spec fn page_start(page: usize, size: usize) -> nat {
    let s = page * effective_size(size);
    if s > usize::MAX {
        usize::MAX as nat
    } else {
        s as nat
    }
}

/// Index just past the last entry of a page among `len` entries.
pub open spec fn page_end(page: usize, size: usize, len: nat) -> nat {
    let e = page_start(page, size) + effective_size(size);
    let e2 = if e > usize::MAX {
        usize::MAX as nat
    } else {
        e as nat
    };
    if e2 > len {
        len
    } else {
        e2
    }
}

/// The entries on a page.
pub open spec fn page_items(entries: Seq<Seq<char>>, page: usize, size: usize) -> Seq<Seq<char>> {
    if page_start(page, size) >= entries.len() {
        seq![]
    } else {
        entries.subrange(
            page_start(page, size) as int,
            page_end(page, size, entries.len()) as int,
        )
    }
}

/// A buffer with a line break appended unless it is empty.
pub open spec fn sep(buf: Seq<char>) -> Seq<char> {
    if buf.len() == 0 {
        buf
    } else {
        buf.push('\n')
    }
}

/// The heading line written for a sub-section: `level` times `'#'`, a space, the title.
pub open spec fn heading_text(level: nat, title: Seq<char>) -> Seq<char> {
    Seq::new(level, |_i: int| '#').push(' ') + title
}

/// `buf` followed by the section at `path` with its whole subtree: its own
/// content, then for each child a heading line and the child's subtree.
/// `fuel` bounds the depth; it is never reached from `full_text`, as
/// levels only grow from 1 to 6 down the tree.
pub open spec fn collect_text(m: EngineModel, path: Seq<char>, buf: Seq<char>, fuel: nat) -> Seq<
    char,
>
    decreases fuel, 1nat, 0nat,
{
    if !m.nodes.contains_key(path) {
        buf
    } else {
        let n = m.nodes[path];
        let b = if n.content.len() == 0 {
            buf
        } else {
            sep(buf) + n.content
        };
        collect_children(m, n.children, 0, b, fuel)
    }
}

/// `buf` followed by the children from index `i` on, each as a heading
/// line and its subtree.
pub open spec fn collect_children(
    m: EngineModel,
    children: Seq<Seq<char>>,
    i: nat,
    buf: Seq<char>,
    fuel: nat,
) -> Seq<char>
    decreases fuel, 0nat, children.len() - i,
{
    if i >= children.len() || fuel == 0 {
        buf
    } else if !m.nodes.contains_key(children[i as int]) {
        collect_children(m, children, i + 1, buf, fuel)
    } else {
        let c = m.nodes[children[i as int]];
        collect_children(
            m,
            children,
            i + 1,
            collect_text(
                m,
                children[i as int],
                sep(buf) + heading_text(c.level, c.title),
                (fuel - 1) as nat,
            ),
            fuel,
        )
    }
}

/// The full text of the section at `path`, sub-sections included.
pub open spec fn full_text(m: EngineModel, path: Seq<char>) -> Seq<char> {
    collect_text(m, path, seq![], 7)
}

/// The section at `p` exists and its title contains `query`, case ignored:
/// the character-by-character lowercase forms (`char::to_lowercase`) of
/// title and query are compared.
pub open spec fn search_hit(m: EngineModel, query: Seq<char>, p: Seq<char>) -> bool {
    m.nodes.contains_key(p) && contains(
        fold_lower(m.nodes[p].title),
        fold_lower(query),
    )
}

/// `r` is the answer to a search: the hits, each once, in path order.
pub open spec fn search_result(m: EngineModel, query: Seq<char>, r: Seq<Seq<char>>) -> bool {
    &&& strictly_sorted(r)
    &&& forall|p: Seq<char>| r.contains(p) <==> #[trigger] search_hit(m, query, p)
}

// ---------------------------------------------------------------------------
// The engine
// ---------------------------------------------------------------------------

/// The core indexing engine that transforms Markdown text into a Virtual File System.
/// Sections are kept in a table ordered by path, so that they are found by
/// binary search and listed in path order.
pub struct MarkdownEngine {
    /// Map of full hierarchical paths to their corresponding document nodes.
    nodes: PathTable<MarkdownNode>,
    /// Map of Markdown reference IDs (e.g., [link_id]: url) to their target URLs.
    references: PathTable<String>,
    /// List of paths for top-level headings (Level 1 or the first encountered).
    root_nodes: Vec<String>,
}

impl View for MarkdownEngine {
    type V = EngineModel;

    closed spec fn view(&self) -> EngineModel {
        EngineModel {
            nodes: self.nodes.map(),
            references: self.references.map(),
            roots: strings_view(self.root_nodes@),
        }
    }
}

impl MarkdownEngine {
    #[verifier::type_invariant]
    spec fn inv(self) -> bool {
        &&& self.nodes.wf()
        &&& self.references.wf()
        &&& model_wf(self@)
    }

    /// Parses the provided Markdown content and builds a hierarchical Virtual File System index.
    pub fn new(content: &str) -> (engine: MarkdownEngine)
        ensures
            engine@ == markdown_index(content@),
            model_wf(engine@),
            content_from_text_lines(engine@),
    {
        let mut builder = Builder {
            nodes: PathTable::new(),
            references: PathTable::new(),
            root_nodes: Vec::new(),
            stack: Vec::new(),
            current_path: None,
        };
        assert(strings_view(builder.root_nodes@) =~= Seq::<Seq<char>>::empty());
        assert(stack_view(builder.stack@) =~= Seq::<(nat, Seq<char>)>::empty());
        assert(builder.state() == build_lines(Seq::<Seq<char>>::empty()));
        let text = chars_of(content);
        let all_lines = split_lines(&text);
        let ghost ls = lines(content@);
        let mut idx: usize = 0;
        assert(ls.take(0) =~= Seq::<Seq<char>>::empty());
        while idx < all_lines.len()
            invariant
                builder.wf(),
                ls == all_lines@.map_values(|l: Vec<char>| l@),
                idx <= all_lines.len(),
                builder.state() == build_lines(ls.take(idx as int)),
            decreases all_lines.len() - idx,
        {
            proof {
                lemma_build_lines_step(ls, idx as int);
            }
            builder.apply_line(&all_lines[idx]);
            idx = idx + 1;
        }
        assert(ls.take(all_lines.len() as int) =~= ls);
        proof {
            lemma_index_wf(content@);
            lemma_index_content_is_text(content@);
        }
        MarkdownEngine {
            nodes: builder.nodes,
            references: builder.references,
            root_nodes: builder.root_nodes,
        }
    }

    /// Lists direct sub-sections for a given hierarchical path with pagination support.
    /// Use an empty path ("") to retrieve root-level headings.
    pub fn ls(&self, path: &str, page: usize, size: usize) -> (r: PaginatedResult)
        ensures
            strings_view(r.items@) == page_items(ls_entries(self@, path@), page, size),
            r.page == page,
            r.size == effective_size(size),
            r.total == ls_entries(self@, path@).len(),
    {
        proof {
            use_type_invariant(self);
        }
        let empty: Vec<String> = Vec::new();
        let key = chars_of(path);
        let entries: &Vec<String> = if path.is_empty() {
            &self.root_nodes
        } else {
            match self.nodes.get(&key) {
                Some(node) => &node.children,
                None => &empty,
            }
        };
        assert(strings_view(entries@) == ls_entries(self@, path@)) by {
            assert(strings_view(empty@) =~= Seq::<Seq<char>>::empty());
        }
        let safe_size: usize = if size == 0 {
            20
        } else {
            size
        };
        let start: usize = match page.checked_mul(safe_size) {
            Some(v) => v,
            None => usize::MAX,
        };
        let e: usize = start.saturating_add(safe_size);
        let end: usize = if e < entries.len() {
            e
        } else {
            entries.len()
        };
        let mut items: Vec<String> = Vec::new();
        if start < entries.len() {
            let mut i: usize = start;
            while i < end
                invariant
                    start <= i <= end <= entries.len(),
                    strings_view(items@) == strings_view(entries@).subrange(start as int, i as int),
                decreases end - i,
            {
                let ghost before = items@;
                let c = entries[i].clone();
                assert(c@ == entries@[i as int]@);
                items.push(c);
                assert(strings_view(items@) =~= strings_view(before).push(c@));
                assert(strings_view(items@) =~= strings_view(entries@).subrange(
                    start as int,
                    i + 1,
                ));
                i = i + 1;
            }
        } else {
            assert(strings_view(items@) =~= Seq::<Seq<char>>::empty());
        }
        PaginatedResult { items, page, size: safe_size, total: entries.len() }
    }

    /// Retrieves the human-readable title of the section at the specified path.
    pub fn get_title(&self, path: &str) -> (r: Option<String>)
        ensures
            r is Some <==> self@.nodes.contains_key(path@),
            r matches Some(t) ==> t@ == self@.nodes[path@].title,
    {
        proof {
            use_type_invariant(self);
        }
        match self.nodes.get(&chars_of(path)) {
            Some(n) => Some(n.title.clone()),
            None => None,
        }
    }

    /// Reads the direct text content of a section (non-recursive).
    pub fn read(&self, path: &str) -> (r: Option<String>)
        ensures
            r is Some <==> self@.nodes.contains_key(path@),
            r matches Some(t) ==> t@ == self@.nodes[path@].content,
    {
        proof {
            use_type_invariant(self);
        }
        match self.nodes.get(&chars_of(path)) {
            Some(n) => Some(n.content.clone()),
            None => None,
        }
    }

    /// Reads the full content of a section, including all its sub-sections recursively.
    pub fn read_full(&self, path: &str) -> (r: Option<String>)
        ensures
            r is Some <==> self@.nodes.contains_key(path@),
            r matches Some(t) ==> t@ == full_text(self@, path@),
    {
        proof {
            use_type_invariant(self);
        }
        let key = chars_of(path);
        if self.nodes.get(&key).is_none() {
            return None;
        }
        let mut buf = String::new();
        self.collect_full(&key, &mut buf, Ghost(7));
        Some(buf)
    }

    /// Recursive helper to collect content and headings from a node and its entire subtree.
    fn collect_full(&self, path: &Vec<char>, buf: &mut String, Ghost(fuel): Ghost<nat>)
        requires
            self@.nodes.contains_key(path@) ==> fuel + self@.nodes[path@].level >= 7,
        ensures
            final(buf)@ == collect_text(self@, path@, old(buf)@, fuel),
        decreases fuel,
    {
        proof {
            use_type_invariant(self);
        }
        let node = match self.nodes.get(path) {
            Some(n) => n,
            None => {
                return ;
            },
        };
        proof {
            assert(node_wf(self@, path@));
        }
        if !node.content.as_str().is_empty() {
            if !buf.as_str().is_empty() {
                string_push(buf, '\n');
            }
            push_chars(buf, &chars_of(node.content.as_str()));
        }
        let ghost b1 = buf@;
        let ghost n = self@.nodes[path@];
        let mut i: usize = 0;
        while i < node.children.len()
            invariant
                self.nodes.wf(),
                model_wf(self@),
                self@.nodes.contains_key(path@),
                n == self@.nodes[path@],
                node@ == n,
                fuel + n.level >= 7,
                1 <= n.level <= 6,
                i <= node.children.len(),
                collect_text(self@, path@, old(buf)@, fuel) == collect_children(
                    self@,
                    n.children,
                    i as nat,
                    buf@,
                    fuel,
                ),
            decreases node.children.len() - i,
        {
            let child_key = chars_of(node.children[i].as_str());
            assert(child_key@ == n.children[i as int]);
            match self.nodes.get(&child_key) {
                None => {},
                Some(cn) => {
                    assert(node_wf(self@, path@));
                    assert(self@.nodes[child_key@].level > n.level);
                    if !buf.as_str().is_empty() {
                        string_push(buf, '\n');
                    }
                    let ghost b2 = buf@;
                    let mut j: usize = 0;
                    while j < cn.level
                        invariant
                            j <= cn.level,
                            buf@ == b2 + Seq::new(j as nat, |_k: int| '#'),
                        decreases cn.level - j,
                    {
                        string_push(buf, '#');
                        assert(b2 + Seq::new((j + 1) as nat, |_k: int| '#') =~= (b2 + Seq::new(
                            j as nat,
                            |_k: int| '#',
                        )).push('#'));
                        j = j + 1;
                    }
                    string_push(buf, ' ');
                    push_chars(buf, &chars_of(cn.title.as_str()));
                    assert(buf@ =~= b2 + heading_text(cn.level as nat, cn.title@));
                    self.collect_full(&child_key, buf, Ghost((fuel - 1) as nat));
                },
            }
            i = i + 1;
        }
    }

    /// Resolves a Markdown reference ID to its corresponding URL.
    pub fn get_reference(&self, ref_id: &str) -> (r: Option<String>)
        ensures
            r is Some <==> self@.references.contains_key(ref_id@),
            r matches Some(u) ==> u@ == self@.references[ref_id@],
    {
        proof {
            use_type_invariant(self);
        }
        match self.references.get(&chars_of(ref_id)) {
            Some(u) => Some(u.clone()),
            None => None,
        }
    }

    /// Performs a case-insensitive search across all section titles.
    /// Returns a list of all matching hierarchical paths.
    pub fn search(&self, query: &str) -> (r: Vec<String>)
        ensures
            search_result(self@, query@, strings_view(r@)),
    {
        proof {
            use_type_invariant(self);
            self.nodes.lemma_dom();
        }
        let q = fold_lowercase(&chars_of(query));
        let mut out: Vec<String> = Vec::new();
        let ghost mut idxs: Seq<int> = seq![];
        let n = self.nodes.len();
        let mut i: usize = 0;
        while i < n
            invariant
                self.nodes.wf(),
                n == self.nodes.key_seq().len(),
                i <= n,
                q@ == fold_lower(query@),
                idxs.len() == out@.len(),
                forall|m: int|
                    0 <= m < idxs.len() ==> 0 <= #[trigger] idxs[m] < i && strings_view(out@)[m]
                        == self.nodes.key_seq()[idxs[m]] && search_hit(
                        self@,
                        query@,
                        self.nodes.key_seq()[idxs[m]],
                    ),
                forall|a: int, b: int| 0 <= a < b < idxs.len() ==> idxs[a] < idxs[b],
                forall|j: int|
                    0 <= j < i && search_hit(self@, query@, #[trigger] self.nodes.key_seq()[j])
                        ==> strings_view(out@).contains(self.nodes.key_seq()[j]),
            decreases n - i,
        {
            proof {
                self.nodes.lemma_index(i as int);
            }
            let title = fold_lowercase(&chars_of(self.nodes.vals[i].title.as_str()));
            let hit = find_from_exec(&title, &q, 0).is_some();
            assert(hit == search_hit(self@, query@, self.nodes.key_seq()[i as int]));
            if hit {
                let ghost before = strings_view(out@);
                out.push(string_of(&self.nodes.keys[i]));
                proof {
                    idxs = idxs.push(i as int);
                    assert(strings_view(out@) =~= before.push(self.nodes.key_seq()[i as int]));
                    assert forall|j: int|
                        0 <= j < i + 1 && search_hit(
                            self@,
                            query@,
                            #[trigger] self.nodes.key_seq()[j],
                        ) implies strings_view(out@).contains(self.nodes.key_seq()[j]) by {
                        if j < i {
                            let m = choose|m: int|
                                0 <= m < before.len() && before[m] == self.nodes.key_seq()[j];
                            assert(strings_view(out@)[m] == before[m]);
                        } else {
                            assert(strings_view(out@)[before.len() as int] == self.nodes.key_seq()[j]);
                        }
                    }
                }
            }
            i = i + 1;
        }
        proof {
            let r = strings_view(out@);
            let ks = self.nodes.key_seq();
            assert forall|a: int, b: int| 0 <= a < b < r.len() implies path_lt(
                #[trigger] r[a],
                #[trigger] r[b],
            ) by {
                assert(idxs[a] < idxs[b]);
                assert(path_lt(ks[idxs[a]], ks[idxs[b]]));
            }
            assert forall|p: Seq<char>| r.contains(p) <==> #[trigger] search_hit(self@, query@, p) by {
                if r.contains(p) {
                    let m = choose|m: int| 0 <= m < r.len() && r[m] == p;
                    assert(search_hit(self@, query@, ks[idxs[m]]));
                }
                if search_hit(self@, query@, p) {
                    assert(self.nodes.map().dom().contains(p));
                    assert(ks.to_set().contains(p));
                    let j = choose|j: int| 0 <= j < ks.len() && ks[j] == p;
                    assert(search_hit(self@, query@, ks[j]));
                }
            }
        }
        out
    }
}

} // verus!
