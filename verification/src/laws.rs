//! Properties of the index and its queries that span several calls or
//! hold for every input.
use vstd::prelude::*;

use crate::engine::{
    EngineModel, search_result, search_hit, page_items, page_start, page_end, effective_size,
    full_text, collect_text, collect_children, sep, heading_text, model_wf, node_wf, url_safe,
    is_slug_char, listed_under, listed_once, ls_entries, spec_parse_reference, spec_parse_heading,
    spec_parse_markdown_heading, leading_hashes, build_lines, build_step, markdown_index,
    lemma_build_lines_wf, lemma_build_lines_step, pop_stack, unique_slug, join_path,
    lemma_free_suffix, spec_slugify, slug_raw, section_word, lemma_pop_stack, state_wf,
    joined_content, is_text_line, append_line,
};
use crate::table::{
    strictly_sorted, path_lt, lemma_path_lt_irreflexive, lemma_path_lt_transitive,
};
use crate::text::{
    fold_lower, contains, find, matches_at, lemma_find_from, lemma_fold_lower_concat,
    lemma_fold_lower_ascii_case, lower_seq, upper_seq, lower_mapping, ascii_lower, trim,
    trim_start, trim_end, char_whitespace, rfind, rfind_to, lines, lines_from, is_ascii_alnum,
    strip_dashes, strip_cr, find_from,
};

verus! {

/// Two strictly sorted sequences with the same elements are equal.
pub proof fn lemma_sorted_same_elements(r1: Seq<Seq<char>>, r2: Seq<Seq<char>>)
    requires
        strictly_sorted(r1),
        strictly_sorted(r2),
        forall|p: Seq<char>| r1.contains(p) <==> r2.contains(p),
    ensures
        r1 == r2,
    decreases r1.len(),
{
    if r1.len() == 0 {
        if r2.len() > 0 {
            assert(r2.contains(r2[0]));
        }
        assert(r1 =~= r2);
    } else {
        assert(r1.contains(r1[0]));
        let j = choose|j: int| 0 <= j < r2.len() && r2[j] == r1[0];
        assert(r2.contains(r2[0]));
        let i = choose|i: int| 0 <= i < r1.len() && r1[i] == r2[0];
        if j > 0 {
            assert(path_lt(r2[0], r2[j]));
            if i > 0 {
                assert(path_lt(r1[0], r1[i]));
                lemma_path_lt_transitive(r2[0], r1[0], r2[0]);
            }
            lemma_path_lt_irreflexive(r2[0]);
        }
        assert(r1[0] == r2[0]);
        let t1 = r1.drop_first();
        let t2 = r2.drop_first();
        assert forall|p: Seq<char>| t1.contains(p) <==> t2.contains(p) by {
            if t1.contains(p) {
                let a = choose|a: int| 0 <= a < t1.len() && t1[a] == p;
                assert(r1[a + 1] == p);
                assert(path_lt(r1[0], r1[a + 1]));
                lemma_path_lt_irreflexive(p);
                assert(r2.contains(p));
                let b = choose|b: int| 0 <= b < r2.len() && r2[b] == p;
                assert(b != 0);
                assert(t2[b - 1] == p);
            }
            if t2.contains(p) {
                let a = choose|a: int| 0 <= a < t2.len() && t2[a] == p;
                assert(r2[a + 1] == p);
                assert(path_lt(r2[0], r2[a + 1]));
                lemma_path_lt_irreflexive(p);
                assert(r1.contains(p));
                let b = choose|b: int| 0 <= b < r1.len() && r1[b] == p;
                assert(b != 0);
                assert(t1[b - 1] == p);
            }
        }
        assert forall|a: int, b: int| 0 <= a < b < t1.len() implies path_lt(
            #[trigger] t1[a],
            #[trigger] t1[b],
        ) by {
            assert(t1[a] == r1[a + 1] && t1[b] == r1[b + 1]);
        }
        assert forall|a: int, b: int| 0 <= a < b < t2.len() implies path_lt(
            #[trigger] t2[a],
            #[trigger] t2[b],
        ) by {
            assert(t2[a] == r2[a + 1] && t2[b] == r2[b + 1]);
        }
        lemma_sorted_same_elements(t1, t2);
        assert forall|k: int| 0 <= k < r1.len() implies r1[k] == r2[k] by {
            if k > 0 {
                assert(r1[k] == t1[k - 1]);
                assert(r2[k] == t2[k - 1]);
            }
        }
        assert(r1 =~= r2);
    }
}

/// A search is case-insensitive: two queries with the same lowercase form
/// get the same answer, and a query gets one answer only.
pub proof fn lemma_search_ignores_case(
    m: EngineModel,
    q1: Seq<char>,
    q2: Seq<char>,
    r1: Seq<Seq<char>>,
    r2: Seq<Seq<char>>,
)
    requires
        fold_lower(q1) == fold_lower(q2),
        search_result(m, q1, r1),
        search_result(m, q2, r2),
    ensures
        r1 == r2,
{
    assert forall|p: Seq<char>| r1.contains(p) <==> r2.contains(p) by {
        assert(search_hit(m, q1, p) == search_hit(m, q2, p));
    }
    lemma_sorted_same_elements(r1, r2);
}

/// The ASCII case of the query does not matter: upper- or lower-casing it
/// leaves the answer as it is.
pub proof fn lemma_search_ignores_ascii_case(
    m: EngineModel,
    q: Seq<char>,
    r: Seq<Seq<char>>,
    r_upper: Seq<Seq<char>>,
    r_lower: Seq<Seq<char>>,
)
    requires
        search_result(m, q, r),
        search_result(m, upper_seq(q), r_upper),
        search_result(m, lower_seq(q), r_lower),
    ensures
        r_upper == r,
        r_lower == r,
{
    lemma_fold_lower_ascii_case(q);
    lemma_search_ignores_case(m, upper_seq(q), q, r_upper, r);
    lemma_search_ignores_case(m, lower_seq(q), q, r_lower, r);
}

/// The empty query finds every section, each once.
pub proof fn lemma_empty_query_lists_all(m: EngineModel, r: Seq<Seq<char>>)
    requires
        model_wf(m),
        search_result(m, seq![], r),
    ensures
        forall|p: Seq<char>| r.contains(p) <==> m.nodes.contains_key(p),
        r.len() == m.nodes.dom().len(),
{
    let e = Seq::<char>::empty();
    assert(fold_lower(e) =~= e);
    assert(Seq::<char>::empty() =~= seq![]);
    assert forall|p: Seq<char>| r.contains(p) <==> m.nodes.contains_key(p) by {
        assert(r.contains(p) <==> search_hit(m, seq![], p));
        if m.nodes.contains_key(p) {
            let t = fold_lower(m.nodes[p].title);
            assert(t.subrange(0, 0) =~= e);
            assert(matches_at(t, e, 0));
            lemma_contains_witness(t, e);
            assert(search_hit(m, e, p));
        }
    }
    assert forall|a: int, b: int| 0 <= a < r.len() && 0 <= b < r.len() && a != b implies r[a]
        != r[b] by {
        if a < b {
            assert(path_lt(r[a], r[b]));
        } else {
            assert(path_lt(r[b], r[a]));
        }
        lemma_path_lt_irreflexive(r[a]);
    }
    assert(r.to_set() =~= m.nodes.dom());
    r.unique_seq_to_set();
}

/// A page never holds more entries than the page size.
pub proof fn lemma_page_len(entries: Seq<Seq<char>>, page: usize, size: usize)
    ensures
        page_items(entries, page, size).len() <= effective_size(size),
{
}

/// Pages cover the entries in order: with page size `s`, entry `j` is item
/// `j % s` of page `j / s`.
pub proof fn lemma_entry_on_its_page(entries: Seq<Seq<char>>, size: usize, j: int)
    requires
        0 <= j < entries.len(),
        entries.len() <= usize::MAX,
    ensures
        ({
            let s = effective_size(size) as int;
            let items = page_items(entries, (j / s) as usize, size);
            &&& j % s < items.len()
            &&& items[j % s] == entries[j]
        }),
{
    let s = effective_size(size) as int;
    let p = j / s;
    assert(j == p * s + j % s && 0 <= j % s < s) by (nonlinear_arith)
        requires
            s > 0,
            p == j / s,
    ;
    assert(0 <= p <= j) by (nonlinear_arith)
        requires
            s > 0,
            p == j / s,
            0 <= j,
    ;
    assert(page_start(p as usize, size) == p * s);
    assert(page_end(p as usize, size, entries.len()) > j);
}

proof fn lemma_prefix_trans(a: Seq<char>, b: Seq<char>, c: Seq<char>)
    requires
        a.is_prefix_of(b),
        b.is_prefix_of(c),
    ensures
        a.is_prefix_of(c),
{
    assert(c.subrange(0, a.len() as int) =~= b.subrange(0, a.len() as int));
}

proof fn lemma_extend_prefix(a: Seq<char>, x: Seq<char>)
    ensures
        a.is_prefix_of(a + x),
        a.is_prefix_of(sep(a)),
{
    assert((a + x).subrange(0, a.len() as int) =~= a);
    assert(sep(a).subrange(0, a.len() as int) =~= a);
}

proof fn lemma_collect_text_extends(m: EngineModel, path: Seq<char>, buf: Seq<char>, fuel: nat)
    ensures
        buf.is_prefix_of(collect_text(m, path, buf, fuel)),
    decreases fuel, 1nat, 0nat,
{
    if m.nodes.contains_key(path) {
        let n = m.nodes[path];
        let b = if n.content.len() == 0 {
            buf
        } else {
            sep(buf) + n.content
        };
        lemma_extend_prefix(buf, seq![]);
        if n.content.len() != 0 {
            lemma_extend_prefix(buf, seq![]);
            lemma_extend_prefix(sep(buf), n.content);
            lemma_prefix_trans(buf, sep(buf), b);
        }
        lemma_collect_children_extends(m, n.children, 0, b, fuel);
        lemma_prefix_trans(buf, b, collect_text(m, path, buf, fuel));
    } else {
        lemma_extend_prefix(buf, seq![]);
        assert(buf + seq![] =~= buf);
    }
}

proof fn lemma_collect_children_extends(
    m: EngineModel,
    children: Seq<Seq<char>>,
    i: nat,
    buf: Seq<char>,
    fuel: nat,
)
    ensures
        buf.is_prefix_of(collect_children(m, children, i, buf, fuel)),
    decreases fuel, 0nat, children.len() - i,
{
    lemma_extend_prefix(buf, seq![]);
    assert(buf + seq![] =~= buf);
    if i >= children.len() || fuel == 0 {
    } else if !m.nodes.contains_key(children[i as int]) {
        lemma_collect_children_extends(m, children, i + 1, buf, fuel);
    } else {
        let c = m.nodes[children[i as int]];
        let h = sep(buf) + heading_text(c.level, c.title);
        let t = collect_text(m, children[i as int], h, (fuel - 1) as nat);
        lemma_extend_prefix(sep(buf), heading_text(c.level, c.title));
        lemma_prefix_trans(buf, sep(buf), h);
        lemma_collect_text_extends(m, children[i as int], h, (fuel - 1) as nat);
        lemma_prefix_trans(buf, h, t);
        lemma_collect_children_extends(m, children, i + 1, t, fuel);
        lemma_prefix_trans(buf, t, collect_children(m, children, i, buf, fuel));
    }
}

/// The full text of a section starts with its own content.
pub proof fn lemma_full_text_starts_with_content(m: EngineModel, path: Seq<char>)
    requires
        m.nodes.contains_key(path),
    ensures
        m.nodes[path].content.is_prefix_of(full_text(m, path)),
{
    let n = m.nodes[path];
    let e = Seq::<char>::empty();
    let b = if n.content.len() == 0 {
        e
    } else {
        sep(e) + n.content
    };
    assert(b =~= n.content);
    lemma_collect_children_extends(m, n.children, 0, b, 7);
}

/// A section without sub-sections reads the same in full as on its own.
pub proof fn lemma_full_text_of_leaf(m: EngineModel, path: Seq<char>)
    requires
        m.nodes.contains_key(path),
        m.nodes[path].children.len() == 0,
    ensures
        full_text(m, path) == m.nodes[path].content,
{
    let n = m.nodes[path];
    let e = Seq::<char>::empty();
    let b = if n.content.len() == 0 {
        e
    } else {
        sep(e) + n.content
    };
    assert(b =~= n.content);
}

proof fn lemma_child_path(m: EngineModel, q: Seq<char>, p: Seq<char>)
    requires
        model_wf(m),
        listed_under(m, q, p),
    ensures
        m.nodes.contains_key(p),
        p == q + seq!['/'] + m.nodes[p].slug,
{
    let ch = m.nodes[q].children;
    let i = choose|i: int| 0 <= i < ch.len() && ch[i] == p;
    assert(node_wf(m, q));
    assert(ch[i] == p);
}

proof fn lemma_parent_unique(m: EngineModel, q: Seq<char>, q2: Seq<char>, p: Seq<char>)
    requires
        model_wf(m),
        listed_under(m, q, p),
        listed_under(m, q2, p),
    ensures
        q == q2,
{
    lemma_child_path(m, q, p);
    lemma_child_path(m, q2, p);
    let slug = m.nodes[p].slug;
    assert(p.len() == q.len() + 1 + slug.len());
    assert(p.len() == q2.len() + 1 + slug.len());
    assert(q.len() == q2.len());
    assert forall|i: int| 0 <= i < q.len() implies q[i] == q2[i] by {
        assert(p[i] == (q + seq!['/'] + slug)[i]);
        assert(p[i] == (q2 + seq!['/'] + slug)[i]);
    }
    assert(q =~= q2);
}

proof fn lemma_mul_le(a: int, b: int, s: int)
    requires
        a <= b,
        s >= 0,
    ensures
        a * s <= b * s,
{
    assert(a * s <= b * s) by (nonlinear_arith)
        requires
            a <= b,
            s >= 0,
    ;
}

/// Every section is listed exactly once: at the top level or under one
/// parent, never both and never under two parents (and no list repeats a
/// path), so the listings hold each section once.
pub proof fn lemma_each_section_listed_once(m: EngineModel)
    requires
        model_wf(m),
    ensures
        forall|p: Seq<char>| m.nodes.contains_key(p) ==> #[trigger] listed_once(m, p),
{
    assert forall|p: Seq<char>| m.nodes.contains_key(p) implies #[trigger] listed_once(m, p) by {
        assert(node_wf(m, p));
        let slug = m.nodes[p].slug;
        if m.roots.contains(p) {
            let k = choose|k: int| 0 <= k < m.roots.len() && m.roots[k] == p;
            assert(p == slug);
            assert forall|q: Seq<char>| !#[trigger] listed_under(m, q, p) by {
                if listed_under(m, q, p) {
                    lemma_child_path(m, q, p);
                    assert(p[q.len() as int] == '/');
                    assert(is_slug_char(slug[q.len() as int]));
                }
            }
        } else {
            assert(m.roots.contains(p) || exists|q1: Seq<char>| #[trigger] listed_under(m, q1, p));
            let q = choose|q: Seq<char>| #[trigger] listed_under(m, q, p);
            lemma_child_path(m, q, p);
            assert forall|q2: Seq<char>| #[trigger] listed_under(m, q2, p) implies q2 == q by {
                lemma_parent_unique(m, q, q2, p);
            }
        }
    }
}

/// The number of pages of `n` entries at `s` entries a page.
pub open spec fn page_count(n: nat, s: nat) -> nat {
    if s == 0 {
        0
    } else {
        ((n + s - 1) / (s as int)) as nat
    }
}

/// The entries of the first `k` pages, one page after the other.
pub open spec fn pages_upto(entries: Seq<Seq<char>>, size: usize, k: nat) -> Seq<Seq<char>>
    decreases k,
{
    if k == 0 {
        seq![]
    } else {
        pages_upto(entries, size, (k - 1) as nat) + page_items(entries, (k - 1) as usize, size)
    }
}

proof fn lemma_page_count_bounds(n: nat, s: nat)
    requires
        s > 0,
    ensures
        page_count(n, s) * s >= n,
        n > 0 ==> (page_count(n, s) - 1) * s < n,
        page_count(n, s) <= n,
{
    let p = page_count(n, s) as int;
    let x = n + s - 1;
    assert(p == x / (s as int));
    assert(x == p * s + x % (s as int) && 0 <= x % (s as int) < s) by (nonlinear_arith)
        requires
            s > 0,
            p == x / (s as int),
    ;
    assert(p * s >= n);
    assert(n > 0 ==> (p - 1) * s < n) by (nonlinear_arith)
        requires
            p * s <= n + s - 1,
    ;
    assert(p <= n) by (nonlinear_arith)
        requires
            s >= 1,
            p * s <= n + s - 1,
            p >= 0,
    ;
}

proof fn lemma_pages_prefix(entries: Seq<Seq<char>>, size: usize, k: nat)
    requires
        entries.len() <= usize::MAX,
        k <= page_count(entries.len(), effective_size(size)),
    ensures
        pages_upto(entries, size, k) == entries.take(
            if k * effective_size(size) < entries.len() {
                (k * effective_size(size)) as int
            } else {
                entries.len() as int
            },
        ),
    decreases k,
{
    let s = effective_size(size);
    let n = entries.len();
    lemma_page_count_bounds(n, s);
    if k == 0 {
        assert(k * s == 0) by (nonlinear_arith)
            requires
                k == 0,
        ;
        assert(entries.take(0) =~= Seq::<Seq<char>>::empty());
        assert(entries.take(n as int) =~= entries);
        if n == 0 {
            assert(entries =~= Seq::<Seq<char>>::empty());
        }
    } else {
        let c = (k - 1) as nat;
        lemma_pages_prefix(entries, size, c);
        let pc = page_count(n, s);
        assert(n > 0);
        lemma_mul_le(c as int, pc - 1, s as int);
        assert(c * s < n);
        assert(c * s + s == k * s) by (nonlinear_arith)
            requires
                k == c + 1,
        ;
        assert(page_start(c as usize, size) == c * s);
        let end = if k * s < n {
            k * s
        } else {
            n
        };
        assert(page_end(c as usize, size, n) == end);
        assert(page_items(entries, c as usize, size) == entries.subrange((c * s) as int, end as int));
        assert(entries.take((c * s) as int) + entries.subrange((c * s) as int, end as int)
            =~= entries.take(end as int));
        assert(pages_upto(entries, size, k) == pages_upto(entries, size, c) + page_items(
            entries,
            c as usize,
            size,
        ));
        assert(pages_upto(entries, size, c) == entries.take((c * s) as int));
        assert(pages_upto(entries, size, k) == entries.take(end as int));
    }
}

/// Pages cover the listing exactly: the pages before the page count,
/// one after the other, are the whole list of entries; each page but the
/// last holds the page size; every later page is empty.
pub proof fn lemma_pages_concatenate(entries: Seq<Seq<char>>, size: usize)
    requires
        entries.len() <= usize::MAX,
    ensures
        pages_upto(entries, size, page_count(entries.len(), effective_size(size))) == entries,
        forall|k: usize|
            k + 1 < page_count(entries.len(), effective_size(size)) ==> #[trigger] page_items(
                entries,
                k,
                size,
            ).len() == effective_size(size),
        forall|k: usize|
            k >= page_count(entries.len(), effective_size(size)) ==> #[trigger] page_items(
                entries,
                k,
                size,
            ).len() == 0,
{
    let s = effective_size(size);
    let n = entries.len();
    let pc = page_count(n, s);
    lemma_page_count_bounds(n, s);
    lemma_pages_prefix(entries, size, pc);
    assert(!(pc * s < n));
    assert(entries.take(n as int) =~= entries);
    assert forall|k: usize| k + 1 < pc implies #[trigger] page_items(entries, k, size).len() == s by {
        assert(n > 0);
        lemma_mul_le(k + 1, pc - 1, s as int);
        assert((k + 1) * s == k * s + s) by (nonlinear_arith);
        assert(k * s + s < n);
        assert(page_start(k, size) == k * s);
    }
    assert forall|k: usize| k >= pc implies #[trigger] page_items(entries, k, size).len() == 0 by {
        lemma_mul_le(pc as int, k as int, s as int);
    }
}

proof fn lemma_contains_witness(s: Seq<char>, p: Seq<char>)
    ensures
        contains(s, p) <==> exists|i: int| #[trigger] matches_at(s, p, i),
{
    lemma_find_from(s, p, 0);
    if contains(s, p) {
        let k = find(s, p)->0;
        assert(matches_at(s, p, k as int));
    } else {
        assert forall|i: int| !#[trigger] matches_at(s, p, i) by {
            if matches_at(s, p, i) {
                assert(!matches_at(s, p, (i as nat) as int));
            }
        }
    }
}

/// Containment of sequences is transitive.
proof fn lemma_contains_transitive(a: Seq<char>, b: Seq<char>, c: Seq<char>)
    requires
        contains(a, b),
        contains(b, c),
    ensures
        contains(a, c),
{
    lemma_contains_witness(a, b);
    lemma_contains_witness(b, c);
    lemma_contains_witness(a, c);
    let i = choose|i: int| #[trigger] matches_at(a, b, i);
    let j = choose|j: int| #[trigger] matches_at(b, c, j);
    assert forall|k: int| 0 <= k < c.len() implies a[i + j + k] == c[k] by {
        assert(a.subrange(i, i + b.len())[j + k] == b[j + k]);
        assert(b.subrange(j, j + c.len())[k] == c[k]);
    }
    assert(a.subrange(i + j, i + j + c.len()) =~= c);
    assert(matches_at(a, c, i + j));
}

/// Lower-casing keeps containment.
proof fn lemma_fold_lower_contains(s: Seq<char>, p: Seq<char>)
    requires
        contains(s, p),
    ensures
        contains(fold_lower(s), fold_lower(p)),
{
    lemma_contains_witness(s, p);
    let i = choose|i: int| #[trigger] matches_at(s, p, i);
    let a = s.subrange(0, i);
    let b = s.subrange(i + p.len(), s.len() as int);
    assert(s =~= a + p + b);
    lemma_fold_lower_concat(a + p, b);
    lemma_fold_lower_concat(a, p);
    let f = fold_lower(s);
    let fa = fold_lower(a);
    let fp = fold_lower(p);
    assert(f == fa + fp + fold_lower(b));
    assert(f.subrange(fa.len() as int, fa.len() + fp.len() as int) =~= fp);
    assert(matches_at(f, fp, fa.len() as int));
    lemma_contains_witness(f, fp);
}

/// A longer query finds no more sections: when `q1` occurs in `q2`, every
/// hit for `q2` is a hit for `q1`.
pub proof fn lemma_search_narrows(
    m: EngineModel,
    q1: Seq<char>,
    q2: Seq<char>,
    r1: Seq<Seq<char>>,
    r2: Seq<Seq<char>>,
)
    requires
        contains(q2, q1),
        search_result(m, q1, r1),
        search_result(m, q2, r2),
    ensures
        forall|p: Seq<char>| r2.contains(p) ==> r1.contains(p),
{
    lemma_fold_lower_contains(q2, q1);
    assert forall|p: Seq<char>| r2.contains(p) implies r1.contains(p) by {
        assert(search_hit(m, q2, p));
        lemma_contains_transitive(fold_lower(m.nodes[p].title), fold_lower(q2), fold_lower(q1));
        assert(search_hit(m, q1, p));
    }
}

// ---------------------------------------------------------------------------
// Full reads hold the whole subtree
// ---------------------------------------------------------------------------

/// `d` lies `k` steps below `p` in the section tree (`k == 0`: `d` is `p`).
pub open spec fn below(m: EngineModel, p: Seq<char>, d: Seq<char>, k: nat) -> bool
    decreases k,
{
    if k == 0 {
        p == d
    } else {
        exists|c: Seq<char>| #[trigger] listed_under(m, p, c) && below(m, c, d, (k - 1) as nat)
    }
}

/// What a section contributes to the full text of a section above it: the
/// line of its heading (`level` times `'#'`, a space, the title), then a
/// line break and its own content if it has any.
pub open spec fn section_block(n: crate::engine::NodeModel) -> Seq<char> {
    Seq::new(n.level, |_i: int| '#').push(' ') + n.title + (if n.content.len() == 0 {
        Seq::<char>::empty()
    } else {
        seq!['\n'] + n.content
    })
}

proof fn lemma_contains_in_prefix(x: Seq<char>, a: Seq<char>, b: Seq<char>)
    requires
        contains(a, x),
        a.is_prefix_of(b),
    ensures
        contains(b, x),
{
    lemma_contains_witness(a, x);
    let i = choose|i: int| #[trigger] matches_at(a, x, i);
    assert(b.subrange(i, i + x.len()) =~= a.subrange(i, i + x.len()));
    assert(matches_at(b, x, i));
    lemma_contains_witness(b, x);
}

proof fn lemma_contains_suffix(y: Seq<char>, x: Seq<char>)
    ensures
        contains(y + x, x),
{
    let s = y + x;
    assert(s.subrange(y.len() as int, y.len() + x.len() as int) =~= x);
    assert(matches_at(s, x, y.len() as int));
    lemma_contains_witness(s, x);
}

/// Some block for child `j` stands as a prefix of what the children from
/// `i` on make of `buf`.
proof fn lemma_child_block(
    m: EngineModel,
    ch: Seq<Seq<char>>,
    i: nat,
    buf: Seq<char>,
    fuel: nat,
    j: int,
) -> (b: Seq<char>)
    requires
        fuel > 0,
        i <= j < ch.len(),
        m.nodes.contains_key(ch[j]),
    ensures
        buf.is_prefix_of(b),
        collect_text(
            m,
            ch[j],
            sep(b) + heading_text(m.nodes[ch[j]].level, m.nodes[ch[j]].title),
            (fuel - 1) as nat,
        ).is_prefix_of(collect_children(m, ch, i, buf, fuel)),
    decreases j - i,
{
    lemma_extend_prefix(buf, seq![]);
    assert(buf + seq![] =~= buf);
    if !m.nodes.contains_key(ch[i as int]) {
        lemma_child_block(m, ch, i + 1, buf, fuel, j)
    } else {
        let c = m.nodes[ch[i as int]];
        let h = sep(buf) + heading_text(c.level, c.title);
        let t = collect_text(m, ch[i as int], h, (fuel - 1) as nat);
        if j == i {
            lemma_collect_children_extends(m, ch, i + 1, t, fuel);
            buf
        } else {
            lemma_extend_prefix(sep(buf), heading_text(c.level, c.title));
            lemma_prefix_trans(buf, sep(buf), h);
            lemma_collect_text_extends(m, ch[i as int], h, (fuel - 1) as nat);
            lemma_prefix_trans(buf, h, t);
            let b = lemma_child_block(m, ch, i + 1, t, fuel, j);
            lemma_prefix_trans(buf, t, b);
            b
        }
    }
}

/// Two children `a < j`: the text made for `a` stands before the buffer
/// that the text for `j` starts from.
proof fn lemma_children_in_order(
    m: EngineModel,
    ch: Seq<Seq<char>>,
    i: nat,
    buf: Seq<char>,
    fuel: nat,
    a: int,
    j: int,
) -> (r: (Seq<char>, Seq<char>))
    requires
        fuel > 0,
        i <= a < j < ch.len(),
        m.nodes.contains_key(ch[a]),
        m.nodes.contains_key(ch[j]),
    ensures
        collect_text(
            m,
            ch[a],
            sep(r.0) + heading_text(m.nodes[ch[a]].level, m.nodes[ch[a]].title),
            (fuel - 1) as nat,
        ).is_prefix_of(r.1),
        collect_text(
            m,
            ch[j],
            sep(r.1) + heading_text(m.nodes[ch[j]].level, m.nodes[ch[j]].title),
            (fuel - 1) as nat,
        ).is_prefix_of(collect_children(m, ch, i, buf, fuel)),
    decreases a - i,
{
    if !m.nodes.contains_key(ch[i as int]) {
        lemma_children_in_order(m, ch, i + 1, buf, fuel, a, j)
    } else {
        let c = m.nodes[ch[i as int]];
        let t = collect_text(
            m,
            ch[i as int],
            sep(buf) + heading_text(c.level, c.title),
            (fuel - 1) as nat,
        );
        if a == i {
            let bb = lemma_child_block(m, ch, i + 1, t, fuel, j);
            (buf, bb)
        } else {
            lemma_children_in_order(m, ch, i + 1, t, fuel, a, j)
        }
    }
}

proof fn lemma_collect_has_block(
    m: EngineModel,
    p: Seq<char>,
    buf: Seq<char>,
    fuel: nat,
    d: Seq<char>,
    k: nat,
)
    requires
        model_wf(m),
        m.nodes.contains_key(p),
        fuel + m.nodes[p].level >= 7,
        k > 0,
        below(m, p, d, k),
    ensures
        m.nodes.contains_key(d),
        contains(collect_text(m, p, buf, fuel), section_block(m.nodes[d])),
    decreases k,
{
    let n = m.nodes[p];
    assert(node_wf(m, p));
    let c = choose|c: Seq<char>| #[trigger] listed_under(m, p, c) && below(m, c, d, (k - 1) as nat);
    let j = choose|j: int| 0 <= j < n.children.len() && n.children[j] == c;
    assert(m.nodes.contains_key(n.children[j]));
    let cn = m.nodes[c];
    let b0 = if n.content.len() == 0 {
        buf
    } else {
        sep(buf) + n.content
    };
    let b = lemma_child_block(m, n.children, 0, b0, fuel, j);
    let h = sep(b) + heading_text(cn.level, cn.title);
    let t = collect_text(m, c, h, (fuel - 1) as nat);
    assert(t.is_prefix_of(collect_text(m, p, buf, fuel)));
    if k == 1 {
        assert(c == d);
        lemma_block_first(m, c, b, (fuel - 1) as nat);
        lemma_contains_suffix(sep(b), section_block(cn));
        lemma_contains_in_prefix(section_block(cn), sep(b) + section_block(cn), t);
    } else {
        lemma_collect_has_block(m, c, h, (fuel - 1) as nat, d, (k - 1) as nat);
    }
    lemma_contains_in_prefix(section_block(m.nodes[d]), t, collect_text(m, p, buf, fuel));
}

/// A full read holds the whole subtree: for every section `d` anywhere below
/// `p`, at any depth and level, the full text of `p` holds `d`'s heading
/// line followed by `d`'s own content.
pub proof fn lemma_full_text_has_subtree(m: EngineModel, p: Seq<char>, d: Seq<char>, k: nat)
    requires
        model_wf(m),
        m.nodes.contains_key(p),
        k > 0,
        below(m, p, d, k),
    ensures
        m.nodes.contains_key(d),
        contains(full_text(m, p), section_block(m.nodes[d])),
{
    assert(node_wf(m, p));
    lemma_collect_has_block(m, p, seq![], 7, d, k);
}

// ---------------------------------------------------------------------------
// Listings keep the order of the index
// ---------------------------------------------------------------------------

/// A page that can hold the whole listing shows it as it stands: the
/// top-level sections for the empty path, the children of a section in the
/// order they were added, nothing for a path that names no section.
pub proof fn lemma_full_page(m: EngineModel, path: Seq<char>, size: usize)
    ensures
        effective_size(size) >= (if path.len() == 0 {
            m.roots.len()
        } else if m.nodes.contains_key(path) {
            m.nodes[path].children.len()
        } else {
            0
        }) ==> page_items(ls_entries(m, path), 0, size) == (if path.len() == 0 {
            m.roots
        } else if m.nodes.contains_key(path) {
            m.nodes[path].children
        } else {
            seq![]
        }),
{
    let e = ls_entries(m, path);
    let s = effective_size(size);
    assert(0 * s == 0) by (nonlinear_arith);
    if s >= e.len() {
        assert(e.subrange(0, e.len() as int) =~= e);
        if e.len() == 0 {
            assert(e =~= Seq::<Seq<char>>::empty());
        }
    }
}

// ---------------------------------------------------------------------------
// Searching ASCII text
// ---------------------------------------------------------------------------

/// Every character is ASCII.
pub open spec fn all_ascii(s: Seq<char>) -> bool {
    forall|i: int| 0 <= i < s.len() ==> (#[trigger] s[i] as u32) < 128
}

proof fn lemma_fold_lower_on_ascii(s: Seq<char>)
    requires
        all_ascii(s),
    ensures
        fold_lower(s) == lower_seq(s),
    decreases s.len(),
{
    if s.len() == 0 {
        assert(lower_seq(s) =~= Seq::<char>::empty());
    } else {
        let t = s.drop_last();
        assert forall|i: int| 0 <= i < t.len() implies (#[trigger] t[i] as u32) < 128 by {
            assert(t[i] == s[i]);
        }
        lemma_fold_lower_on_ascii(t);
        assert((s[s.len() - 1] as u32) < 128);
        assert(lower_seq(s) =~= lower_seq(t).push(ascii_lower(s.last())));
    }
}

/// On ASCII text the search is ASCII case folding: a section whose title is
/// ASCII is a hit for an ASCII query exactly when its title, ASCII
/// lower-cased, contains the query, ASCII lower-cased. (Digits, punctuation
/// and spaces stay as they are.)
pub proof fn lemma_search_on_ascii(m: EngineModel, query: Seq<char>, p: Seq<char>)
    requires
        m.nodes.contains_key(p),
        all_ascii(query),
        all_ascii(m.nodes[p].title),
    ensures
        search_hit(m, query, p) == contains(lower_seq(m.nodes[p].title), lower_seq(query)),
{
    lemma_fold_lower_on_ascii(query);
    lemma_fold_lower_on_ascii(m.nodes[p].title);
}

// ---------------------------------------------------------------------------
// Reference definitions as written
// ---------------------------------------------------------------------------

/// The character that opens a reference definition.
pub open spec fn ref_open() -> char {
    '['
}

/// What closes the id of a reference definition.
pub open spec fn ref_sep() -> Seq<char> {
    seq![']', ':']
}

/// `find` gives `k` when `p` occurs at `k` and nowhere before.
proof fn lemma_find_is(s: Seq<char>, p: Seq<char>, k: nat)
    requires
        matches_at(s, p, k as int),
        forall|j: nat| j < k ==> !#[trigger] matches_at(s, p, j as int),
    ensures
        find(s, p) == Some(k),
{
    lemma_find_from(s, p, 0);
}

/// A line that reads, once trimmed, `[`, an id holding no `]:`, `]:` and a
/// url defines that id with that url, each kept as written and only
/// trimmed; a blank id or url makes it no definition.
pub proof fn lemma_reference_line(line: Seq<char>, a: Seq<char>, b: Seq<char>)
    requires
        trim(line) == seq![ref_open()] + a + ref_sep() + b,
        !contains(a, ref_sep()),
    ensures
        spec_parse_reference(line) == (if trim(a).len() == 0 || trim(b).len() == 0 {
            None
        } else {
            Some((trim(a), trim(b)))
        }),
{
    let t = trim(line);
    let p = ref_sep();
    let k: int = a.len() + 1int;
    assert(t[0] == ref_open());
    assert(t.subrange(k, k + 2) =~= p);
    lemma_find_from(a, p, 0);
    assert forall|j: nat| j < k implies !#[trigger] matches_at(t, p, j as int) by {
        if j == 0 {
            assert(t.subrange(0, 2)[0] == ref_open());
        } else if j == a.len() {
            assert(t.subrange(j as int, j + 2int)[1] == ref_sep()[0]);
        } else if matches_at(t, p, j as int) {
            assert(a.subrange(j - 1, j + 1int) =~= t.subrange(j as int, j + 2int));
            assert(matches_at(a, p, j - 1));
        }
    }
    lemma_find_is(t, p, k as nat);
    assert(t.subrange(1, k) =~= a);
    assert(t.subrange(k + 2, t.len() as int) =~= b);
    if a.len() == 0 {
        assert(trim_start(a) =~= a);
    }
}

/// Every reference definition has that shape: the id it defines is the
/// text between the leading `[` and the first `]:`, as written, trimmed.
pub proof fn lemma_reference_shape(line: Seq<char>)
    requires
        spec_parse_reference(line) is Some,
    ensures
        exists|a: Seq<char>, b: Seq<char>|
            trim(line) == seq![ref_open()] + a + ref_sep() + b && !contains(a, ref_sep())
                && spec_parse_reference(line) == Some((trim(a), trim(b))),
{
    let t = trim(line);
    let p = ref_sep();
    let c = find(t, p)->0;
    lemma_find_from(t, p, 0);
    let a = t.subrange(1, c as int);
    let b = t.subrange(c + 2 as int, t.len() as int);
    assert(t =~= seq![ref_open()] + a + p + b);
    lemma_find_from(a, p, 0);
    if contains(a, p) {
        let j: int = find(a, p)->0 as int;
        assert(t.subrange(j + 1, j + 3) =~= a.subrange(j, j + 2));
        assert(matches_at(t, p, j + 1));
        assert(!matches_at(t, p, (j + 1) as nat as int));
    }
    assert(trim(line) == seq![ref_open()] + a + ref_sep() + b && !contains(a, ref_sep())
        && spec_parse_reference(line) == Some((trim(a), trim(b))));
}

// ---------------------------------------------------------------------------
// Heading titles as written
// ---------------------------------------------------------------------------

proof fn lemma_trim_start_range(s: Seq<char>) -> (i: int)
    ensures
        0 <= i <= s.len(),
        trim_start(s) == s.subrange(i, s.len() as int),
    decreases s.len(),
{
    if s.len() > 0 && char_whitespace(s[0]) {
        let i = lemma_trim_start_range(s.drop_first());
        assert(s.drop_first().subrange(i, s.len() - 1) =~= s.subrange(i + 1, s.len() as int));
        i + 1
    } else {
        assert(s.subrange(0, s.len() as int) =~= s);
        0
    }
}

proof fn lemma_trim_end_range(s: Seq<char>) -> (j: int)
    ensures
        0 <= j <= s.len(),
        trim_end(s) == s.subrange(0, j),
    decreases s.len(),
{
    if s.len() > 0 && char_whitespace(s.last()) {
        let j = lemma_trim_end_range(s.drop_last());
        assert(s.drop_last().subrange(0, j) =~= s.subrange(0, j));
        j
    } else {
        assert(s.subrange(0, s.len() as int) =~= s);
        s.len() as int
    }
}

/// Trimming keeps a stretch of the text: `trim(s)` is `s[i..j]`.
proof fn lemma_trim_range(s: Seq<char>) -> (r: (int, int))
    ensures
        0 <= r.0 <= r.1 <= s.len(),
        trim(s) == s.subrange(r.0, r.1),
{
    let i = lemma_trim_start_range(s);
    let u = trim_start(s);
    let j = lemma_trim_end_range(u);
    assert(u.subrange(0, j) =~= s.subrange(i, i + j));
    (i, i + j)
}

/// A part of the trimmed line, trimmed again, stands in the line.
proof fn lemma_trimmed_part_in_line(line: Seq<char>, a: int, b: int)
    requires
        0 <= a <= b <= trim(line).len(),
    ensures
        contains(line, trim(trim(line).subrange(a, b))),
{
    let (i, j) = lemma_trim_range(line);
    let x = trim(line).subrange(a, b);
    let (c, d) = lemma_trim_range(x);
    let y = line.subrange(i + a + c, i + a + d);
    assert(trim(x) =~= y);
    assert(line.subrange(i + a + c, i + a + c + y.len()) =~= y);
    assert(matches_at(line, y, i + a + c));
    lemma_contains_witness(line, y);
}

proof fn lemma_rfind_to(s: Seq<char>, p: Seq<char>, i: int)
    ensures
        rfind_to(s, p, i) matches Some(k) ==> k <= i && matches_at(s, p, k as int),
    decreases i + 1,
{
    if i >= 0 && !matches_at(s, p, i) {
        lemma_rfind_to(s, p, i - 1);
    }
}

/// A heading's title is taken from the line as written: it stands in the
/// line, letter case and all.
pub proof fn lemma_heading_title_in_line(line: Seq<char>)
    ensures
        spec_parse_heading(line) matches Some((_, title)) ==> contains(line, title),
{
    let t = trim(line);
    if spec_parse_heading(line) is Some {
        if spec_parse_markdown_heading(line) is Some {
            let lv = leading_hashes(t) as int;
            assert(t.skip(lv) =~= t.subrange(lv, t.len() as int));
            lemma_trimmed_part_in_line(line, lv, t.len() as int);
        } else {
            let lw = lower_seq(t);
            let open_end = find(t, seq!['>'])->0;
            let close_tag = seq!['<', '/', 'h', lw[2], '>'];
            let close = rfind(lw, close_tag)->0;
            lemma_rfind_to(lw, close_tag, lw.len() - close_tag.len());
            lemma_trimmed_part_in_line(line, open_end + 1int, close as int);
        }
    }
}

/// `n` times `'#'`, then a character that is no `'#'`: `n` leading hashes.
proof fn lemma_leading_hashes(n: nat, rest: Seq<char>)
    requires
        rest.len() > 0,
        rest[0] != '#',
    ensures
        leading_hashes(Seq::new(n, |_i: int| '#') + rest) == n,
    decreases n,
{
    let s = Seq::new(n, |_i: int| '#') + rest;
    if n > 0 {
        assert(s.drop_first() =~= Seq::new((n - 1) as nat, |_i: int| '#') + rest);
        lemma_leading_hashes((n - 1) as nat, rest);
    } else {
        assert(s =~= rest);
    }
}

/// A line that reads, once trimmed, one to six `'#'`, a whitespace
/// character and a text is a heading of that level whose title is the
/// text as written, trimmed (none if the text is blank).
pub proof fn lemma_markdown_heading_line(line: Seq<char>, level: nat, w: char, x: Seq<char>)
    requires
        1 <= level <= 6,
        char_whitespace(w),
        trim(line) == Seq::new(level, |_i: int| '#').push(w) + x,
    ensures
        spec_parse_heading(line) == (if trim(x).len() == 0 {
            None
        } else {
            Some((level, trim(x)))
        }),
{
    let t = trim(line);
    let hs = Seq::new(level, |_i: int| '#');
    assert(t =~= hs + (seq![w] + x));
    lemma_leading_hashes(level, seq![w] + x);
    assert(t[level as int] == w);
    let u = t.skip(level as int);
    assert(u =~= seq![w] + x);
    assert(u.drop_first() =~= x);
    assert(trim_start(u) == trim_start(x));
    assert(t[0] == '#');
    assert(lower_seq(t)[0] == '#');
}

/// A line that reads, once trimmed, `<hN>`, a text and `</hN>` with `N`
/// from 1 to 6 is a heading of level `N` whose title is the text as
/// written, letter case kept, trimmed (none if the text is blank).
pub proof fn lemma_html_heading_line(line: Seq<char>, d: char, x: Seq<char>)
    requires
        '1' <= d <= '6',
        trim(line) == seq!['<', 'h', d, '>'] + x + seq!['<', '/', 'h', d, '>'],
    ensures
        spec_parse_heading(line) == (if trim(x).len() == 0 {
            None
        } else {
            Some(((d as int - 48) as nat, trim(x)))
        }),
{
    let t = trim(line);
    let lw = lower_seq(t);
    let n = t.len() as int;
    assert(t[0] == '<');
    assert(lw[0] == '<');
    assert(lw[1] == 'h');
    assert(lw[2] == d);
    let gt = seq!['>'];
    assert(t.subrange(3, 4) =~= gt);
    assert forall|j: nat| j < 3 implies !#[trigger] matches_at(t, gt, j as int) by {
        assert(t.subrange(j as int, j + 1int)[0] == t[j as int]);
    }
    lemma_find_is(t, gt, 3);
    let close_tag = seq!['<', '/', 'h', d, '>'];
    assert(lw.subrange(n - 5, n) =~= close_tag) by {
        assert(t[n - 5] == '<');
        assert(t[n - 4] == '/');
        assert(t[n - 3] == 'h');
        assert(t[n - 2] == d);
        assert(t[n - 1] == '>');
    }
    assert(matches_at(lw, close_tag, n - 5));
    assert(rfind(lw, close_tag) == Some((n - 5) as nat));
    assert(t.subrange(4, n - 5) =~= x);
}

// ---------------------------------------------------------------------------
// What the index keeps of the document
// ---------------------------------------------------------------------------

/// Line `l` is a reference definition of `id`.
pub open spec fn defines_ref(l: Seq<char>, id: Seq<char>) -> bool {
    spec_parse_reference(l) matches Some((k, _)) && k == id
}

proof fn lemma_references_built(ls: Seq<Seq<char>>, id: Seq<char>)
    ensures
        build_lines(ls).engine.references.contains_key(id) <==> exists|i: int|
            0 <= i < ls.len() && #[trigger] defines_ref(ls[i], id),
        forall|i: int|
            0 <= i < ls.len() && #[trigger] defines_ref(ls[i], id) && (forall|j: int|
                i < j < ls.len() ==> !defines_ref(#[trigger] ls[j], id)) ==> spec_parse_reference(
                ls[i],
            ) == Some((id, build_lines(ls).engine.references[id])),
    decreases ls.len(),
{
    if ls.len() > 0 {
        let pre = ls.drop_last();
        let l = ls.last();
        let n = ls.len() - 1;
        lemma_references_built(pre, id);
        let st = build_lines(pre);
        let r = st.engine.references;
        let r2 = build_lines(ls).engine.references;
        assert(build_lines(ls) == build_step(st, l));
        assert forall|i: int| 0 <= i < pre.len() implies pre[i] == ls[i] by {}
        if spec_parse_reference(l) is Some {
            let (k, u) = spec_parse_reference(l)->0;
            assert(r2 == r.insert(k, u));
        } else {
            assert(r2 == r);
        }
        if r2.contains_key(id) {
            if !defines_ref(ls[n], id) {
                let i = choose|i: int| 0 <= i < pre.len() && #[trigger] defines_ref(pre[i], id);
                assert(defines_ref(ls[i], id));
            }
        }
        if exists|i: int| 0 <= i < ls.len() && #[trigger] defines_ref(ls[i], id) {
            let i = choose|i: int| 0 <= i < ls.len() && #[trigger] defines_ref(ls[i], id);
            if i < n {
                assert(defines_ref(pre[i], id));
            }
        }
        assert forall|i: int|
            0 <= i < ls.len() && #[trigger] defines_ref(ls[i], id) && (forall|j: int|
                i < j < ls.len() ==> !defines_ref(#[trigger] ls[j], id)) implies spec_parse_reference(
            ls[i],
        ) == Some((id, r2[id])) by {
            if i < n {
                assert(!defines_ref(ls[n], id));
                assert(defines_ref(pre[i], id));
                assert forall|j: int| i < j < pre.len() implies !defines_ref(#[trigger] pre[j], id) by {
                    assert(!defines_ref(ls[j], id));
                }
            }
        }
    }
}

/// The reference targets of an index come from the reference lines of the
/// document: an id has a target exactly when some line defines it, and the
/// target is the one the last line defining it gives.
pub proof fn lemma_index_references(content: Seq<char>, id: Seq<char>)
    ensures
        markdown_index(content).references.contains_key(id) <==> exists|i: int|
            0 <= i < lines(content).len() && #[trigger] defines_ref(lines(content)[i], id),
        forall|i: int|
            0 <= i < lines(content).len() && #[trigger] defines_ref(lines(content)[i], id) && (
            forall|j: int|
                i < j < lines(content).len() ==> !defines_ref(#[trigger] lines(content)[j], id))
                ==> spec_parse_reference(lines(content)[i]) == Some(
                (id, markdown_index(content).references[id]),
            ),
{
    lemma_references_built(lines(content), id);
}

proof fn lemma_sections_built(ls: Seq<Seq<char>>, p: Seq<char>)
    requires
        build_lines(ls).engine.nodes.contains_key(p),
    ensures
        exists|i: int|
            0 <= i < ls.len() && spec_parse_reference(#[trigger] ls[i]) is None
                && spec_parse_heading(ls[i]) == Some(
                (build_lines(ls).engine.nodes[p].level, build_lines(ls).engine.nodes[p].title),
            ),
    decreases ls.len(),
{
    let pre = ls.drop_last();
    let l = ls.last();
    let n = ls.len() - 1;
    let st = build_lines(pre);
    let m = st.engine;
    let m2 = build_lines(ls).engine;
    assert(build_lines(ls) == build_step(st, l));
    assert forall|i: int| 0 <= i < pre.len() implies pre[i] == ls[i] by {}
    let here = spec_parse_reference(l) is None && spec_parse_heading(l) == Some(
        (m2.nodes[p].level, m2.nodes[p].title),
    );
    if !here {
        assert(m.nodes.contains_key(p) && m.nodes[p].level == m2.nodes[p].level
            && m.nodes[p].title == m2.nodes[p].title) by {
            if spec_parse_reference(l) is None {
                if spec_parse_heading(l) is Some {
                    let (level, title) = spec_parse_heading(l)->0;
                    let stack = pop_stack(st.stack, level);
                    let parent = if stack.len() > 0 {
                        Some(stack.last().1)
                    } else {
                        None::<Seq<char>>
                    };
                    let path = join_path(parent, unique_slug(m.nodes, parent, spec_slugify(title)));
                    assert(p != path);
                }
            }
        }
        lemma_sections_built(pre, p);
        let i = choose|i: int|
            0 <= i < pre.len() && spec_parse_reference(#[trigger] pre[i]) is None
                && spec_parse_heading(pre[i]) == Some((m.nodes[p].level, m.nodes[p].title));
        assert(spec_parse_reference(ls[i]) is None);
    } else {
        assert(spec_parse_reference(ls[n]) is None);
    }
}

/// Every section of an index comes from a heading line of the document:
/// that line gives the section's level and its title.
pub proof fn lemma_index_sections_from_headings(content: Seq<char>, p: Seq<char>)
    requires
        markdown_index(content).nodes.contains_key(p),
    ensures
        exists|i: int|
            0 <= i < lines(content).len() && spec_parse_reference(#[trigger] lines(content)[i])
                is None && spec_parse_heading(lines(content)[i]) == Some(
                (markdown_index(content).nodes[p].level, markdown_index(content).nodes[p].title),
            ),
{
    lemma_sections_built(lines(content), p);
}

/// Section `a` came into the index before section `b`: after some first
/// lines of the document, `a` is in the index and `b` is not yet.
pub open spec fn added_before(ls: Seq<Seq<char>>, a: Seq<char>, b: Seq<char>) -> bool {
    exists|k: int|
        #![trigger build_lines(ls.take(k))]
        0 <= k <= ls.len() && build_lines(ls.take(k)).engine.nodes.contains_key(a)
            && !build_lines(ls.take(k)).engine.nodes.contains_key(b)
}

proof fn lemma_added_before_grows(ls: Seq<Seq<char>>, a: Seq<char>, b: Seq<char>)
    requires
        ls.len() > 0,
        added_before(ls.drop_last(), a, b),
    ensures
        added_before(ls, a, b),
{
    let k = choose|k: int|
        #![trigger build_lines(ls.drop_last().take(k))]
        0 <= k <= ls.drop_last().len() && build_lines(
            ls.drop_last().take(k),
        ).engine.nodes.contains_key(a) && !build_lines(
            ls.drop_last().take(k),
        ).engine.nodes.contains_key(b);
    assert(ls.drop_last().take(k) =~= ls.take(k));
}

proof fn lemma_added_last(ls: Seq<Seq<char>>, a: Seq<char>, b: Seq<char>)
    requires
        ls.len() > 0,
        build_lines(ls.drop_last()).engine.nodes.contains_key(a),
        !build_lines(ls.drop_last()).engine.nodes.contains_key(b),
    ensures
        added_before(ls, a, b),
{
    let k = ls.len() - 1;
    assert(ls.take(k) =~= ls.drop_last());
    assert(build_lines(ls.take(k)).engine.nodes.contains_key(a));
}

/// The top-level sections, and the children of each section, stand in the
/// order in which they came into the index.
spec fn order_kept(ls: Seq<Seq<char>>) -> bool {
    let m = build_lines(ls).engine;
    &&& forall|a: int, b: int|
        0 <= a < b < m.roots.len() ==> added_before(ls, #[trigger] m.roots[a], #[trigger] m.roots[b])
    &&& forall|p: Seq<char>, a: int, b: int|
        m.nodes.contains_key(p) && 0 <= a < b < m.nodes[p].children.len() ==> added_before(
            ls,
            #[trigger] m.nodes[p].children[a],
            #[trigger] m.nodes[p].children[b],
        )
}

proof fn lemma_order_built(ls: Seq<Seq<char>>)
    ensures
        order_kept(ls),
    decreases ls.len(),
{
    if ls.len() > 0 {
        let pre = ls.drop_last();
        let l = ls.last();
        lemma_order_built(pre);
        lemma_build_lines_wf(pre);
        let st = build_lines(pre);
        let m = st.engine;
        let m2 = build_lines(ls).engine;
        assert(build_lines(ls) == build_step(st, l));
        if spec_parse_reference(l) is None && spec_parse_heading(l) is Some {
            let (level, title) = spec_parse_heading(l)->0;
            let stack = pop_stack(st.stack, level);
            let parent = if stack.len() > 0 {
                Some(stack.last().1)
            } else {
                None::<Seq<char>>
            };
            let path = join_path(parent, unique_slug(m.nodes, parent, spec_slugify(title)));
            lemma_free_suffix(m.nodes, parent, spec_slugify(title));
            assert(!m.nodes.contains_key(path));
            assert forall|a: int, b: int| 0 <= a < b < m2.roots.len() implies added_before(
                ls,
                #[trigger] m2.roots[a],
                #[trigger] m2.roots[b],
            ) by {
                if parent is None && b == m2.roots.len() - 1 {
                    assert(m.nodes.contains_key(m.roots[a]));
                    lemma_added_last(ls, m2.roots[a], m2.roots[b]);
                } else {
                    assert(added_before(pre, m.roots[a], m.roots[b]));
                    lemma_added_before_grows(ls, m2.roots[a], m2.roots[b]);
                }
            }
            assert forall|p: Seq<char>, a: int, b: int|
                m2.nodes.contains_key(p) && 0 <= a < b < m2.nodes[p].children.len() implies added_before(
                ls,
                #[trigger] m2.nodes[p].children[a],
                #[trigger] m2.nodes[p].children[b],
            ) by {
                if p != path {
                    assert(m.nodes.contains_key(p));
                    let ch = m.nodes[p].children;
                    if parent == Some(p) && b == m2.nodes[p].children.len() - 1 {
                        assert(node_wf(m, p));
                        assert(m.nodes.contains_key(ch[a]));
                        lemma_added_last(ls, m2.nodes[p].children[a], m2.nodes[p].children[b]);
                    } else {
                        assert(added_before(pre, ch[a], ch[b]));
                        lemma_added_before_grows(ls, ch[a], ch[b]);
                    }
                }
            }
        } else {
            assert forall|a: int, b: int| 0 <= a < b < m2.roots.len() implies added_before(
                ls,
                #[trigger] m2.roots[a],
                #[trigger] m2.roots[b],
            ) by {
                assert(added_before(pre, m.roots[a], m.roots[b]));
                lemma_added_before_grows(ls, m2.roots[a], m2.roots[b]);
            }
            assert forall|p: Seq<char>, a: int, b: int|
                m2.nodes.contains_key(p) && 0 <= a < b < m2.nodes[p].children.len() implies added_before(
                ls,
                #[trigger] m2.nodes[p].children[a],
                #[trigger] m2.nodes[p].children[b],
            ) by {
                assert(m.nodes.contains_key(p));
                let ch = m.nodes[p].children;
                assert(added_before(pre, ch[a], ch[b]));
                lemma_added_before_grows(ls, ch[a], ch[b]);
            }
        }
    }
}

/// A listing follows the document: of two entries that `ls` lists under a
/// path (the top-level sections, or the children of a section), the one
/// listed first came into the index first, while the document was read
/// from its first line on.
pub proof fn lemma_listing_in_document_order(content: Seq<char>, path: Seq<char>, a: int, b: int)
    requires
        0 <= a < b < ls_entries(markdown_index(content), path).len(),
    ensures
        added_before(
            lines(content),
            ls_entries(markdown_index(content), path)[a],
            ls_entries(markdown_index(content), path)[b],
        ),
{
    let m = markdown_index(content);
    lemma_order_built(lines(content));
    if path.len() == 0 {
        assert(added_before(lines(content), m.roots[a], m.roots[b]));
    } else {
        let ch = m.nodes[path].children;
        assert(added_before(lines(content), ch[a], ch[b]));
    }
}

/// A section that is in the index after some first lines stays in it as
/// more lines are read.
pub proof fn lemma_sections_stay(ls: Seq<Seq<char>>, k1: int, k2: int, p: Seq<char>)
    requires
        0 <= k1 <= k2 <= ls.len(),
        build_lines(ls.take(k1)).engine.nodes.contains_key(p),
    ensures
        build_lines(ls.take(k2)).engine.nodes.contains_key(p),
    decreases k2 - k1,
{
    if k1 < k2 {
        lemma_sections_stay(ls, k1, k2 - 1, p);
        lemma_build_lines_step(ls, k2 - 1);
        let st = build_lines(ls.take(k2 - 1));
        let l = ls[k2 - 1];
        if spec_parse_reference(l) is None && spec_parse_heading(l) is Some {
            let (level, title) = spec_parse_heading(l)->0;
            let stack = pop_stack(st.stack, level);
            let parent = if stack.len() > 0 {
                Some(stack.last().1)
            } else {
                None::<Seq<char>>
            };
            let path = join_path(parent, unique_slug(st.engine.nodes, parent, spec_slugify(title)));
            assert(build_lines(ls.take(k2)).engine.nodes.contains_key(path));
        }
    }
}

// ---------------------------------------------------------------------------
// Slugs of words
// ---------------------------------------------------------------------------

/// Every character is an ASCII letter or digit.
pub open spec fn all_alnum(s: Seq<char>) -> bool {
    forall|i: int| 0 <= i < s.len() ==> is_ascii_alnum(#[trigger] s[i])
}

/// No character is an ASCII letter or digit.
pub open spec fn no_alnum(s: Seq<char>) -> bool {
    forall|i: int| 0 <= i < s.len() ==> !is_ascii_alnum(#[trigger] s[i])
}

/// `o` ended by one `'-'`: `o` itself if it ends with one already.
spec fn dash_ended(o: Seq<char>) -> Seq<char> {
    if o.len() > 0 && o.last() == '-' {
        o
    } else {
        o.push('-')
    }
}

proof fn lemma_slug_raw_word(pre: Seq<char>, x: Seq<char>)
    requires
        all_alnum(x),
    ensures
        slug_raw(pre + x) == slug_raw(pre) + lower_seq(x),
    decreases x.len(),
{
    if x.len() == 0 {
        assert(pre + x =~= pre);
        assert(slug_raw(pre) + lower_seq(x) =~= slug_raw(pre));
    } else {
        let x2 = x.drop_last();
        assert((pre + x).drop_last() =~= pre + x2);
        assert(is_ascii_alnum(x[x.len() - 1]));
        lemma_slug_raw_word(pre, x2);
        assert(slug_raw(pre) + lower_seq(x) =~= (slug_raw(pre) + lower_seq(x2)).push(
            ascii_lower(x.last()),
        ));
    }
}

proof fn lemma_slug_raw_gap(pre: Seq<char>, g: Seq<char>)
    requires
        no_alnum(g),
        g.len() > 0,
    ensures
        slug_raw(pre + g) == dash_ended(slug_raw(pre)),
    decreases g.len(),
{
    let g2 = g.drop_last();
    assert((pre + g).drop_last() =~= pre + g2);
    assert(!is_ascii_alnum(g[g.len() - 1]));
    if g2.len() == 0 {
        assert(pre + g2 =~= pre);
    } else {
        assert forall|i: int| 0 <= i < g2.len() implies !is_ascii_alnum(#[trigger] g2[i]) by {
            assert(g2[i] == g[i]);
        }
        lemma_slug_raw_gap(pre, g2);
    }
}

proof fn lemma_lower_alnum(x: Seq<char>)
    requires
        all_alnum(x),
        x.len() > 0,
    ensures
        lower_seq(x).len() == x.len(),
        lower_seq(x)[0] != '-',
        lower_seq(x).last() != '-',
{
    assert(is_ascii_alnum(x[0]));
    assert(is_ascii_alnum(x[x.len() - 1]));
}

/// A title that is one word of ASCII letters and digits, with anything
/// but letters and digits around it, has that word, lower-cased, as slug.
pub proof fn lemma_slugify_word(g1: Seq<char>, x: Seq<char>, g2: Seq<char>)
    requires
        no_alnum(g1),
        all_alnum(x),
        x.len() > 0,
        no_alnum(g2),
    ensures
        spec_slugify(g1 + x + g2) == lower_seq(x),
{
    let lx = lower_seq(x);
    lemma_lower_alnum(x);
    let e = Seq::<char>::empty();
    let r1 = slug_raw(g1);
    if g1.len() == 0 {
        assert(g1 =~= e);
    } else {
        assert(e + g1 =~= g1);
        assert(slug_raw(e) =~= e);
        lemma_slug_raw_gap(e, g1);
    }
    lemma_slug_raw_word(g1, x);
    let r2 = slug_raw(g1 + x);
    assert(r2 == r1 + lx);
    let r3 = slug_raw(g1 + x + g2);
    if g2.len() == 0 {
        assert(g1 + x + g2 =~= g1 + x);
    } else {
        lemma_slug_raw_gap(g1 + x, g2);
        assert(r2.last() == lx.last());
        assert(r3 == r2.push('-'));
    }
    lemma_strip_clean(lx);
    let lxd = lx.push('-');
    assert(lxd.drop_last() =~= lx);
    assert(lxd[0] == lx[0]);
    assert(strip_dashes(lxd) == lx);
    if r1.len() == 0 {
        assert(r2 =~= lx);
    } else {
        assert(r1 =~= seq!['-']);
        assert(r2.drop_first() =~= lx);
        assert(r2[0] == '-');
        if g2.len() > 0 {
            assert(r3.drop_first() =~= lxd);
            assert(r3[0] == '-');
        }
    }
}

/// A text with no `'-'` at either end keeps all it has.
proof fn lemma_strip_clean(s: Seq<char>)
    requires
        s.len() > 0,
        s[0] != '-',
        s.last() != '-',
    ensures
        strip_dashes(s) == s,
{
}

/// In a title of two words of ASCII letters and digits with a gap of other
/// characters between them, the slug is the two words, lower-cased, joined
/// by one `'-'`.
pub proof fn lemma_slugify_two_words(x: Seq<char>, g: Seq<char>, y: Seq<char>)
    requires
        all_alnum(x),
        x.len() > 0,
        no_alnum(g),
        g.len() > 0,
        all_alnum(y),
        y.len() > 0,
    ensures
        spec_slugify(x + g + y) == lower_seq(x) + seq!['-'] + lower_seq(y),
{
    let e = Seq::<char>::empty();
    assert(e + x =~= x);
    assert(slug_raw(e) =~= e);
    lemma_slug_raw_word(e, x);
    lemma_lower_alnum(x);
    lemma_lower_alnum(y);
    lemma_slug_raw_gap(x, g);
    lemma_slug_raw_word(x + g, y);
    let r = slug_raw(x + g + y);
    assert(r =~= lower_seq(x) + seq!['-'] + lower_seq(y));
    assert(r[0] == lower_seq(x)[0]);
    assert(r.last() == lower_seq(y).last());
    lemma_strip_clean(r);
}

/// A title without any ASCII letter or digit has the slug `section`.
pub proof fn lemma_slugify_no_word(g: Seq<char>)
    requires
        no_alnum(g),
    ensures
        spec_slugify(g) == section_word(),
{
    let e = Seq::<char>::empty();
    if g.len() > 0 {
        assert(e + g =~= g);
        assert(slug_raw(e) =~= e);
        lemma_slug_raw_gap(e, g);
        assert(slug_raw(g) =~= seq!['-']);
        assert(seq!['-'].drop_first() =~= e);
        assert(strip_dashes(e) == e);
        assert(strip_dashes(seq!['-']) == e);
    } else {
        assert(g =~= e);
    }
}

// ---------------------------------------------------------------------------
// Nesting and content follow the lines
// ---------------------------------------------------------------------------

/// The level a heading line gives (0 for any other line).
pub open spec fn level_of(l: Seq<char>) -> nat {
    match spec_parse_heading(l) {
        Some((level, _)) => level,
        None => 0,
    }
}

/// Nesting follows the heading levels: right after a heading, a deeper
/// heading opens the first sub-section of the section just opened, and a
/// heading of the same or a smaller level leaves that section without
/// sub-sections.
pub proof fn lemma_heading_nesting(pre: Seq<Seq<char>>, l1: Seq<char>, l2: Seq<char>)
    requires
        spec_parse_reference(l1) is None,
        spec_parse_heading(l1) is Some,
        spec_parse_reference(l2) is None,
        spec_parse_heading(l2) is Some,
    ensures
        ({
            let s1 = build_lines(pre.push(l1));
            let s2 = build_lines(pre.push(l1).push(l2));
            &&& s1.current is Some
            &&& s2.current is Some
            &&& s2.engine.nodes.contains_key(s1.current->0)
            &&& s2.engine.nodes[s1.current->0].children == (if level_of(l2) > level_of(l1) {
                seq![s2.current->0]
            } else {
                Seq::<Seq<char>>::empty()
            })
        }),
{
    let ls1 = pre.push(l1);
    let ls2 = ls1.push(l2);
    assert(ls1.drop_last() =~= pre);
    assert(ls2.drop_last() =~= ls1);
    let s0 = build_lines(pre);
    lemma_build_lines_wf(pre);
    let s1 = build_lines(ls1);
    assert(s1 == build_step(s0, l1));
    let (a, t1) = spec_parse_heading(l1)->0;
    let (b, t2) = spec_parse_heading(l2)->0;
    let stack0 = pop_stack(s0.stack, a);
    lemma_pop_stack(s0.stack, a);
    let parent0 = if stack0.len() > 0 {
        Some(stack0.last().1)
    } else {
        None::<Seq<char>>
    };
    let p1 = join_path(parent0, unique_slug(s0.engine.nodes, parent0, spec_slugify(t1)));
    lemma_free_suffix(s0.engine.nodes, parent0, spec_slugify(t1));
    assert(!s0.engine.nodes.contains_key(p1));
    assert(s1.current == Some(p1));
    assert(s1.stack == stack0.push((a, p1)));
    assert(s1.engine.nodes[p1].children == Seq::<Seq<char>>::empty());
    lemma_build_lines_wf(ls1);
    let s2 = build_lines(ls2);
    assert(s2 == build_step(s1, l2));
    let stack1 = pop_stack(s1.stack, b);
    let parent1 = if stack1.len() > 0 {
        Some(stack1.last().1)
    } else {
        None::<Seq<char>>
    };
    let p2 = join_path(parent1, unique_slug(s1.engine.nodes, parent1, spec_slugify(t2)));
    lemma_free_suffix(s1.engine.nodes, parent1, spec_slugify(t2));
    assert(!s1.engine.nodes.contains_key(p2));
    assert(s2.current == Some(p2));
    if b > a {
        assert(stack1 == s1.stack);
        assert(parent1 == Some(p1));
        assert(s2.engine.nodes[p1].children =~= seq![p2]);
    } else {
        assert(s1.stack.drop_last() =~= stack0);
        assert(stack1 == pop_stack(stack0, b));
        lemma_pop_stack(stack0, b);
        if stack1.len() > 0 {
            let q = stack1.last().1;
            assert(stack1[stack1.len() - 1] == stack0[stack1.len() - 1]);
            assert(stack0[stack1.len() - 1] == s0.stack[stack1.len() - 1]);
            assert(s0.engine.nodes.contains_key(s0.stack[stack1.len() - 1].1));
            assert(q != p1);
        }
        assert(s2.engine.nodes[p1].children =~= Seq::<Seq<char>>::empty());
    }
}

/// The content of a section is the text that follows its heading: after a
/// heading line and then only lines that are neither headings nor
/// reference definitions, the section that heading opened holds exactly
/// those lines, joined by line breaks.
pub proof fn lemma_section_content(pre: Seq<Seq<char>>, h: Seq<char>, ts: Seq<Seq<char>>)
    requires
        spec_parse_reference(h) is None,
        spec_parse_heading(h) is Some,
        forall|i: int| 0 <= i < ts.len() ==> is_text_line(#[trigger] ts[i]),
    ensures
        ({
            let s1 = build_lines(pre.push(h));
            let s = build_lines(pre.push(h) + ts);
            &&& s1.current is Some
            &&& s.current == s1.current
            &&& s.engine.nodes.contains_key(s1.current->0)
            &&& s.engine.nodes[s1.current->0].content == joined_content(ts)
        }),
    decreases ts.len(),
{
    let ls1 = pre.push(h);
    let s1 = build_lines(ls1);
    if ts.len() == 0 {
        assert(ls1 + ts =~= ls1);
        assert(ls1.drop_last() =~= pre);
        assert(s1 == build_step(build_lines(pre), h));
        assert(joined_content(ts) == Seq::<char>::empty());
    } else {
        let ts2 = ts.drop_last();
        assert forall|i: int| 0 <= i < ts2.len() implies is_text_line(#[trigger] ts2[i]) by {
            assert(ts2[i] == ts[i]);
        }
        lemma_section_content(pre, h, ts2);
        let ls = ls1 + ts;
        assert(ls.drop_last() =~= ls1 + ts2);
        let st = build_lines(ls1 + ts2);
        assert(build_lines(ls) == build_step(st, ts.last()));
        assert(is_text_line(ts[ts.len() - 1]));
        assert(joined_content(ts) == append_line(joined_content(ts2), ts.last()));
    }
}

/// The text made for a section under a heading line starts with that
/// section's block.
proof fn lemma_block_first(m: EngineModel, c: Seq<char>, b: Seq<char>, fuel: nat)
    requires
        m.nodes.contains_key(c),
    ensures
        (sep(b) + section_block(m.nodes[c])).is_prefix_of(
            collect_text(m, c, sep(b) + heading_text(m.nodes[c].level, m.nodes[c].title), fuel),
        ),
{
    let cn = m.nodes[c];
    let h = sep(b) + heading_text(cn.level, cn.title);
    let pre = if cn.content.len() == 0 {
        h
    } else {
        sep(h) + cn.content
    };
    assert(h.len() > 0);
    assert(pre =~= sep(b) + section_block(cn));
    lemma_collect_children_extends(m, cn.children, 0, pre, fuel);
}

/// `x` followed by `blk` opens `t`: `blk` occurs in `t` right after `x`.
proof fn lemma_prefix_match(x: Seq<char>, blk: Seq<char>, t: Seq<char>)
    requires
        (x + blk).is_prefix_of(t),
    ensures
        matches_at(t, blk, x.len() as int),
{
    let k: int = x.len() as int;
    let e: int = k + blk.len();
    let xb = x + blk;
    assert(t.subrange(0, xb.len() as int) == xb);
    assert forall|i: int| 0 <= i < blk.len() implies t[k + i] == blk[i] by {
        assert(t.subrange(0, xb.len() as int)[k + i] == xb[k + i]);
    }
    assert(t.subrange(k, e) =~= blk);
}

/// A full read keeps the order of the sub-sections: of two children of
/// `p`, the block of the one listed first ends before the block of the
/// other begins.
pub proof fn lemma_full_text_in_order(m: EngineModel, p: Seq<char>, a: int, b: int)
    requires
        model_wf(m),
        m.nodes.contains_key(p),
        0 <= a < b < m.nodes[p].children.len(),
    ensures
        exists|i: int, j: int|
            i + section_block(m.nodes[m.nodes[p].children[a]]).len() <= j && #[trigger] matches_at(
                full_text(m, p),
                section_block(m.nodes[m.nodes[p].children[a]]),
                i,
            ) && #[trigger] matches_at(
                full_text(m, p),
                section_block(m.nodes[m.nodes[p].children[b]]),
                j,
            ),
{
    let n = m.nodes[p];
    let ch = n.children;
    assert(node_wf(m, p));
    assert(m.nodes.contains_key(ch[a]));
    assert(m.nodes.contains_key(ch[b]));
    let b0 = if n.content.len() == 0 {
        Seq::<char>::empty()
    } else {
        sep(Seq::<char>::empty()) + n.content
    };
    let f = full_text(m, p);
    assert(f == collect_children(m, ch, 0, b0, 7));
    let (ba, bb) = lemma_children_in_order(m, ch, 0, b0, 7, a, b);
    let ca = m.nodes[ch[a]];
    let cb = m.nodes[ch[b]];
    let ta = collect_text(m, ch[a], sep(ba) + heading_text(ca.level, ca.title), 6);
    let tb = collect_text(m, ch[b], sep(bb) + heading_text(cb.level, cb.title), 6);
    lemma_block_first(m, ch[a], ba, 6);
    lemma_block_first(m, ch[b], bb, 6);
    lemma_extend_prefix(bb, seq![]);
    lemma_extend_prefix(sep(bb), heading_text(cb.level, cb.title));
    lemma_prefix_trans(bb, sep(bb), sep(bb) + heading_text(cb.level, cb.title));
    lemma_collect_text_extends(m, ch[b], sep(bb) + heading_text(cb.level, cb.title), 6);
    lemma_prefix_trans(bb, sep(bb) + heading_text(cb.level, cb.title), tb);
    lemma_prefix_trans(bb, tb, f);
    lemma_prefix_trans(ta, bb, f);
    lemma_prefix_trans(sep(ba) + section_block(ca), ta, f);
    lemma_prefix_trans(sep(bb) + section_block(cb), tb, f);
    lemma_prefix_match(sep(ba), section_block(ca), f);
    lemma_prefix_match(sep(bb), section_block(cb), f);
    let i = sep(ba).len() as int;
    let j = sep(bb).len() as int;
    assert(i + section_block(ca).len() <= j);
}

// ---------------------------------------------------------------------------
// Lines
// ---------------------------------------------------------------------------

/// Lines joined by `'\n'`.
pub open spec fn join_lines(ls: Seq<Seq<char>>) -> Seq<char>
    decreases ls.len(),
{
    if ls.len() == 0 {
        seq![]
    } else if ls.len() == 1 {
        ls[0]
    } else {
        ls[0] + seq!['\n'] + join_lines(ls.drop_first())
    }
}

/// `s` holds no carriage return.
pub open spec fn no_cr(s: Seq<char>) -> bool {
    forall|i: int| 0 <= i < s.len() ==> s[i] != '\r'
}

proof fn lemma_lines_from_rejoin(s: Seq<char>, pos: nat)
    requires
        no_cr(s),
        pos < s.len(),
    ensures
        lines_from(s, pos).len() > 0,
        (if s.last() == '\n' {
            join_lines(lines_from(s, pos)).push('\n')
        } else {
            join_lines(lines_from(s, pos))
        }) == s.subrange(pos as int, s.len() as int),
        forall|i: int|
            0 <= i < lines_from(s, pos).len() ==> !(#[trigger] lines_from(s, pos)[i]).contains(
                '\n',
            ),
    decreases s.len() - pos,
{
    let nl = seq!['\n'];
    lemma_find_from(s, nl, pos);
    match find_from(s, nl, pos) {
        Some(k) => {
            let first = s.subrange(pos as int, k as int);
            assert forall|j: int| 0 <= j < first.len() implies first[j] != '\n' by {
                assert(first[j] == s[pos + j]);
                if s[pos + j] == '\n' {
                    assert(s.subrange(pos + j, pos + j + 1) =~= nl);
                    assert(matches_at(s, nl, (pos + j) as nat as int));
                }
            }
            if first.len() > 0 {
                assert(first.last() != '\r');
            }
            assert(strip_cr(first) == first);
            assert(s.subrange(k as int, k + 1int) =~= nl);
            assert(s[k as int] == s.subrange(k as int, k + 1int)[0]);
            if k + 1 == s.len() {
                assert(lines_from(s, k + 1) =~= Seq::<Seq<char>>::empty());
                assert(lines_from(s, pos) =~= seq![first]);
                assert(join_lines(seq![first]) == first);
                assert(s.last() == '\n');
                assert(first.push('\n') =~= s.subrange(pos as int, s.len() as int));
            } else {
                lemma_lines_from_rejoin(s, k + 1);
                let rest = lines_from(s, k + 1);
                let all = lines_from(s, pos);
                assert(all =~= seq![first] + rest);
                assert(all.drop_first() =~= rest);
                assert(join_lines(all) == first + nl + join_lines(rest));
                assert(s.subrange(pos as int, s.len() as int) =~= first + nl + s.subrange(
                    k + 1int,
                    s.len() as int,
                ));
                if s.last() == '\n' {
                    assert((first + nl + join_lines(rest)).push('\n') =~= first + nl
                        + join_lines(rest).push('\n'));
                }
                assert forall|i: int| 0 <= i < all.len() implies !(#[trigger] all[i]).contains('\n') by {
                    if i > 0 {
                        assert(all[i] == rest[i - 1]);
                    }
                }
            }
        },
        None => {
            let r = s.subrange(pos as int, s.len() as int);
            assert forall|j: int| 0 <= j < r.len() implies r[j] != '\n' by {
                if s[pos + j] == '\n' {
                    assert(s.subrange(pos + j, pos + j + 1) =~= nl);
                    assert(matches_at(s, nl, (pos + j) as nat as int));
                }
            }
            assert(s.last() == r.last());
            assert(r[r.len() - 1] != '\n');
            assert(lines_from(s, pos) =~= seq![r]);
            assert(join_lines(seq![r]) == r);
        },
    }
}

/// Splitting into lines loses nothing but the line breaks: no line holds a
/// `'\n'`, and a text without carriage returns is its lines joined by
/// `'\n'`, with one more `'\n'` when it ends with one.
pub proof fn lemma_lines_rejoin(s: Seq<char>)
    requires
        no_cr(s),
    ensures
        (if s.len() > 0 && s.last() == '\n' {
            join_lines(lines(s)).push('\n')
        } else {
            join_lines(lines(s))
        }) == s,
        forall|i: int| 0 <= i < lines(s).len() ==> !(#[trigger] lines(s)[i]).contains('\n'),
{
    if s.len() > 0 {
        lemma_lines_from_rejoin(s, 0);
        assert(s.subrange(0, s.len() as int) =~= s);
    } else {
        assert(lines(s) =~= Seq::<Seq<char>>::empty());
        assert(s =~= Seq::<char>::empty());
    }
}

} // verus!
