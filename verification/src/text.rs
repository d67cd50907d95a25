//! Character-level text model: whitespace trimming, ASCII case folding,
//! substring search, line splitting and decimal rendering, each stated
//! over `Seq<char>` and implemented on `Vec<char>`.
use vstd::prelude::*;

verus! {

/// The Unicode `White_Space` property (what `char::is_whitespace` answers):
/// U+0009 to U+000D, U+0020, U+0085, U+00A0, U+1680, U+2000 to U+200A,
/// U+2028, U+2029, U+202F, U+205F and U+3000.
pub open spec fn char_whitespace(c: char) -> bool {
    let u = c as u32;
    (0x09 <= u && u <= 0x0D) || u == 0x20 || u == 0x85 || u == 0xA0 || u == 0x1680 || (0x2000
        <= u && u <= 0x200A) || u == 0x2028 || u == 0x2029 || u == 0x202F || u == 0x205F || u
        == 0x3000
}

/// Whether `c` is whitespace (`char::is_whitespace`).
pub fn is_whitespace(c: char) -> (b: bool)
    ensures
        b == char_whitespace(c),
{
    let u = c as u32;
    (0x09 <= u && u <= 0x0D) || u == 0x20 || u == 0x85 || u == 0xA0 || u == 0x1680 || (0x2000
        <= u && u <= 0x200A) || u == 0x2028 || u == 0x2029 || u == 0x202F || u == 0x205F || u
        == 0x3000
}

/// What `char::to_lowercase` yields for a character: its lowercase mapping
/// as the Unicode `Lowercase` property defines it, one or more characters,
/// or the character itself when it has none. It looks at no neighbour.
pub uninterp spec fn char_lowercase(c: char) -> Seq<char>;

/// Calls `char::to_lowercase` and collects the characters it yields. Of an
/// ASCII character the result is its ASCII lower case (the mapping for
/// `A-Z` is `a-z`, every other ASCII character maps to itself); of other
/// characters only the name `char_lowercase` is stated, the Unicode case
/// tables are not restated here.
#[verifier::external_body]
pub(crate) fn lowercase_char(c: char) -> (r: Vec<char>)
    ensures
        r@ == char_lowercase(c),
        (c as u32) < 128 ==> r@ == seq![ascii_lower(c)],
{
    c.to_lowercase().collect()
}

/// The lowercase mapping of one character (`char::to_lowercase`): the ASCII
/// lower case of an ASCII character, `char_lowercase` of any other.
pub open spec fn lower_mapping(c: char) -> Seq<char> {
    if (c as u32) < 128 {
        seq![ascii_lower(c)]
    } else {
        char_lowercase(c)
    }
}

/// The character-by-character lowercase form of `s`: the lowercase
/// mappings of its characters, one after the other.
pub open spec fn fold_lower(s: Seq<char>) -> Seq<char>
    decreases s.len(),
{
    if s.len() == 0 {
        seq![]
    } else {
        fold_lower(s.drop_last()) + lower_mapping(s.last())
    }
}

/// The lowercase form of a concatenation is the concatenation of the forms.
pub proof fn lemma_fold_lower_concat(a: Seq<char>, b: Seq<char>)
    ensures
        fold_lower(a + b) == fold_lower(a) + fold_lower(b),
    decreases b.len(),
{
    if b.len() == 0 {
        assert(a + b =~= a);
        assert(fold_lower(a) + fold_lower(b) =~= fold_lower(a));
    } else {
        lemma_fold_lower_concat(a, b.drop_last());
        assert((a + b).drop_last() =~= a + b.drop_last());
        assert((a + b).last() == b.last());
        assert(fold_lower(a) + (fold_lower(b.drop_last()) + lower_mapping(b.last())) =~= (
        fold_lower(a) + fold_lower(b.drop_last())) + lower_mapping(b.last()));
    }
}

/// The character-by-character lowercase form of `v`.
pub fn fold_lowercase(v: &Vec<char>) -> (r: Vec<char>)
    ensures
        r@ == fold_lower(v@),
{
    let mut r: Vec<char> = Vec::new();
    let mut i: usize = 0;
    while i < v.len()
        invariant
            i <= v.len(),
            r@ == fold_lower(v@.take(i as int)),
        decreases v.len() - i,
    {
        let mut m = lowercase_char(v[i]);
        assert(m@ == lower_mapping(v@[i as int]));
        let ghost before = r@;
        r.append(&mut m);
        assert(v@.take(i + 1).drop_last() =~= v@.take(i as int));
        assert(v@.take(i + 1).last() == v@[i as int]);
        i = i + 1;
    }
    assert(v@.take(v.len() as int) =~= v@);
    r
}

/// Appends one character to a `String` (`String::push`).
#[verifier::external_body]
pub(crate) fn string_push(s: &mut String, c: char)
    ensures
        final(s)@ == old(s)@.push(c),
{
    s.push(c);
}

/// `true` for `0-9`, `A-Z` and `a-z`.
pub open spec fn is_ascii_alnum(c: char) -> bool {
    ('0' <= c && c <= '9') || ('A' <= c && c <= 'Z') || ('a' <= c && c <= 'z')
}

/// ASCII lower-casing: `A-Z` become `a-z`, every other character is unchanged.
pub open spec fn ascii_lower(c: char) -> char {
    if 'A' <= c && c <= 'Z' {
        ((c as u32) + 32) as char
    } else {
        c
    }
}

/// ASCII lower-casing of a whole sequence.
pub open spec fn lower_seq(s: Seq<char>) -> Seq<char> {
    s.map_values(|c: char| ascii_lower(c))
}

/// Changing the ASCII case of a character does not change its lowercase mapping.
pub proof fn lemma_lower_mapping_ascii_case(c: char)
    ensures
        lower_mapping(ascii_lower(c)) == lower_mapping(c),
        lower_mapping(ascii_upper(c)) == lower_mapping(c),
{
    if 'A' <= c && c <= 'Z' {
        assert(ascii_lower(c) as u32 == (c as u32) + 32);
    }
    if 'a' <= c && c <= 'z' {
        assert(ascii_upper(c) as u32 == (c as u32) - 32);
        assert(ascii_lower(ascii_upper(c)) as u32 == (c as u32));
    }
}

/// Changing the ASCII case of a text does not change its lowercase form.
pub proof fn lemma_fold_lower_ascii_case(s: Seq<char>)
    ensures
        fold_lower(lower_seq(s)) == fold_lower(s),
        fold_lower(upper_seq(s)) == fold_lower(s),
    decreases s.len(),
{
    if s.len() > 0 {
        lemma_fold_lower_ascii_case(s.drop_last());
        lemma_lower_mapping_ascii_case(s.last());
        assert(lower_seq(s).drop_last() =~= lower_seq(s.drop_last()));
        assert(upper_seq(s).drop_last() =~= upper_seq(s.drop_last()));
    }
}

/// ASCII upper-casing: `a-z` become `A-Z`, every other character is unchanged.
pub open spec fn ascii_upper(c: char) -> char {
    if 'a' <= c && c <= 'z' {
        ((c as u32) - 32) as char
    } else {
        c
    }
}

/// ASCII upper-casing of a whole sequence (`str::to_ascii_uppercase`).
pub open spec fn upper_seq(s: Seq<char>) -> Seq<char> {
    s.map_values(|c: char| ascii_upper(c))
}

/// `s` without its leading whitespace.
pub open spec fn trim_start(s: Seq<char>) -> Seq<char>
    decreases s.len(),
{
    if s.len() > 0 && char_whitespace(s[0]) {
        trim_start(s.drop_first())
    } else {
        s
    }
}

/// `s` without its trailing whitespace.
pub open spec fn trim_end(s: Seq<char>) -> Seq<char>
    decreases s.len(),
{
    if s.len() > 0 && char_whitespace(s.last()) {
        trim_end(s.drop_last())
    } else {
        s
    }
}

/// `s` without leading and trailing whitespace (`str::trim`).
pub open spec fn trim(s: Seq<char>) -> Seq<char> {
    trim_end(trim_start(s))
}

/// `s` without leading and trailing `'-'` (`str::trim_matches('-')`).
pub open spec fn strip_dashes(s: Seq<char>) -> Seq<char>
    decreases s.len(),
{
    if s.len() > 0 && s[0] == '-' {
        strip_dashes(s.drop_first())
    } else if s.len() > 0 && s.last() == '-' {
        strip_dashes(s.drop_last())
    } else {
        s
    }
}

/// `p` occurs in `s` starting at index `i`.
pub open spec fn matches_at(s: Seq<char>, p: Seq<char>, i: int) -> bool {
    0 <= i && i + p.len() <= s.len() && s.subrange(i, i + p.len()) == p
}

/// The first index `k >= i` at which `p` occurs in `s`.
pub open spec fn find_from(s: Seq<char>, p: Seq<char>, i: nat) -> Option<nat>
    decreases s.len() + 1 - i,
{
    if i + p.len() > s.len() {
        None
    } else if matches_at(s, p, i as int) {
        Some(i)
    } else {
        find_from(s, p, i + 1)
    }
}

/// What `find_from` returns: an occurrence at or after `i`, and the first one.
pub proof fn lemma_find_from(s: Seq<char>, p: Seq<char>, i: nat)
    ensures
        find_from(s, p, i) matches Some(k) ==> i <= k && matches_at(s, p, k as int) && (forall|
            j: nat,
        | i <= j < k ==> !matches_at(s, p, j as int)),
        find_from(s, p, i) is None ==> forall|j: nat| i <= j ==> !matches_at(s, p, j as int),
    decreases s.len() + 1 - i,
{
    if i + p.len() <= s.len() && !matches_at(s, p, i as int) {
        lemma_find_from(s, p, i + 1);
    }
}

/// The first index at which `p` occurs in `s` (`str::find`).
pub open spec fn find(s: Seq<char>, p: Seq<char>) -> Option<nat> {
    find_from(s, p, 0)
}

/// `p` occurs somewhere in `s` (`str::contains`).
pub open spec fn contains(s: Seq<char>, p: Seq<char>) -> bool {
    find(s, p) is Some
}

/// The last index `k <= i` at which `p` occurs in `s`.
pub open spec fn rfind_to(s: Seq<char>, p: Seq<char>, i: int) -> Option<nat>
    decreases i + 1,
{
    if i < 0 {
        None
    } else if matches_at(s, p, i) {
        Some(i as nat)
    } else {
        rfind_to(s, p, i - 1)
    }
}

/// The last index at which `p` occurs in `s` (`str::rfind`).
pub open spec fn rfind(s: Seq<char>, p: Seq<char>) -> Option<nat> {
    rfind_to(s, p, s.len() - p.len())
}

/// A line without one trailing carriage return.
pub open spec fn strip_cr(s: Seq<char>) -> Seq<char> {
    if s.len() > 0 && s.last() == '\r' {
        s.drop_last()
    } else {
        s
    }
}

/// The lines of `s` that start at index `pos` or later, split as `str::lines`
/// splits: at `'\n'`, with one `'\r'` before it removed, and no empty line
/// after a final line ending.
pub open spec fn lines_from(s: Seq<char>, pos: nat) -> Seq<Seq<char>>
    decreases s.len() - pos,
{
    if pos >= s.len() {
        seq![]
    } else {
        match find_from(s, seq!['\n'], pos) {
            Some(k) => if k < s.len() {
                proof {
                    lemma_find_from(s, seq!['\n'], pos);
                }
                seq![strip_cr(s.subrange(pos as int, k as int))] + lines_from(s, k + 1)
            } else {
                seq![]
            },
            None => seq![s.subrange(pos as int, s.len() as int)],
        }
    }
}

/// The lines of `s` (`str::lines`).
pub open spec fn lines(s: Seq<char>) -> Seq<Seq<char>> {
    lines_from(s, 0)
}

/// The character of decimal digit `d`.
pub open spec fn digit_char(d: nat) -> char {
    (d + 48) as char
}

/// The decimal rendering of `n`, without leading zeros.
pub open spec fn decimal(n: nat) -> Seq<char>
    decreases n,
{
    if n < 10 {
        seq![digit_char(n)]
    } else {
        decimal(n / 10).push(digit_char(n % 10))
    }
}

/// The number that a sequence of decimal digits denotes.
pub open spec fn decimal_value(s: Seq<char>) -> int
    decreases s.len(),
{
    if s.len() == 0 {
        0
    } else {
        decimal_value(s.drop_last()) * 10 + (s.last() as int - 48)
    }
}

/// Reading back a decimal rendering gives the number.
pub proof fn lemma_decimal_value(n: nat)
    ensures
        decimal_value(decimal(n)) == n,
        decimal(n).len() > 0,
    decreases n,
{
    if n < 10 {
        assert(decimal(n).drop_last() =~= Seq::<char>::empty());
        assert(digit_char(n) as int == n + 48);
        assert(decimal_value(decimal(n)) == decimal_value(decimal(n).drop_last()) * 10 + (
        decimal(n).last() as int - 48));
    } else {
        lemma_decimal_value(n / 10);
        assert(decimal(n).drop_last() =~= decimal(n / 10));
        assert(digit_char(n % 10) as int == n % 10 + 48);
        assert(n == (n / 10) * 10 + n % 10);
        assert(decimal_value(decimal(n)) == decimal_value(decimal(n).drop_last()) * 10 + (
        decimal(n).last() as int - 48));
    }
}

/// Distinct numbers have distinct decimal renderings.
pub proof fn lemma_decimal_injective(a: nat, b: nat)
    requires
        decimal(a) == decimal(b),
    ensures
        a == b,
{
    lemma_decimal_value(a);
    lemma_decimal_value(b);
}

/// The characters of a string slice, in order.
pub fn chars_of(s: &str) -> (v: Vec<char>)
    ensures
        v@ == s@,
{
    let mut v: Vec<char> = Vec::new();
    for ch in it: s.chars()
        invariant
            v@ == it.seq().take(it.index() as int),
    {
        v.push(ch);
    }
    assert(v@ =~= s@);
    v
}

/// A `String` holding the characters of `v`.
pub fn string_of(v: &Vec<char>) -> (s: String)
    ensures
        s@ == v@,
{
    let mut s = String::new();
    let mut i: usize = 0;
    while i < v.len()
        invariant
            i <= v.len(),
            s@ == v@.take(i as int),
        decreases v.len() - i,
    {
        string_push(&mut s, v[i]);
        assert(v@.take(i as int).push(v@[i as int]) =~= v@.take(i + 1));
        i = i + 1;
    }
    assert(v@.take(v.len() as int) =~= v@);
    s
}

/// Appends the characters of `v` to `s`.
pub fn push_chars(s: &mut String, v: &Vec<char>)
    ensures
        final(s)@ == old(s)@ + v@,
{
    let mut i: usize = 0;
    while i < v.len()
        invariant
            i <= v.len(),
            s@ == old(s)@ + v@.take(i as int),
        decreases v.len() - i,
    {
        string_push(s, v[i]);
        assert(v@.take(i as int).push(v@[i as int]) =~= v@.take(i + 1));
        i = i + 1;
    }
    assert(v@.take(v.len() as int) =~= v@);
}

/// The characters of `v` from index `lo` up to `hi`.
pub fn copy_range(v: &Vec<char>, lo: usize, hi: usize) -> (r: Vec<char>)
    requires
        lo <= hi <= v.len(),
    ensures
        r@ == v@.subrange(lo as int, hi as int),
{
    let mut r: Vec<char> = Vec::new();
    let mut i: usize = lo;
    while i < hi
        invariant
            lo <= i <= hi <= v.len(),
            r@ == v@.subrange(lo as int, i as int),
        decreases hi - i,
    {
        r.push(v[i]);
        assert(v@.subrange(lo as int, i as int).push(v@[i as int]) =~= v@.subrange(
            lo as int,
            i + 1,
        ));
        i = i + 1;
    }
    r
}

/// A copy of `v`.
pub fn copy_chars(v: &Vec<char>) -> (r: Vec<char>)
    ensures
        r@ == v@,
{
    let r = copy_range(v, 0, v.len());
    assert(v@.subrange(0, v.len() as int) =~= v@);
    r
}

/// ASCII lower-casing of one character (`char::to_ascii_lowercase`).
pub fn lower_char(c: char) -> (r: char)
    ensures
        r == ascii_lower(c),
{
    if 'A' <= c && c <= 'Z' {
        let b: u8 = c as u8;
        ((b + 32) as char)
    } else {
        c
    }
}

/// `0-9`, `A-Z` or `a-z` (`char::is_ascii_alphanumeric`).
pub fn is_alnum(c: char) -> (b: bool)
    ensures
        b == is_ascii_alnum(c),
{
    ('0' <= c && c <= '9') || ('A' <= c && c <= 'Z') || ('a' <= c && c <= 'z')
}

/// ASCII lower-casing of a whole character sequence (`str::to_ascii_lowercase`).
pub fn lower_chars(v: &Vec<char>) -> (r: Vec<char>)
    ensures
        r@ == lower_seq(v@),
{
    let mut r: Vec<char> = Vec::new();
    let mut i: usize = 0;
    while i < v.len()
        invariant
            i <= v.len(),
            r@ == lower_seq(v@.take(i as int)),
        decreases v.len() - i,
    {
        let c = lower_char(v[i]);
        r.push(c);
        assert(lower_seq(v@.take(i + 1)) =~= lower_seq(v@.take(i as int)).push(c));
        i = i + 1;
    }
    assert(v@.take(v.len() as int) =~= v@);
    r
}

proof fn lemma_trim_start_step(s: Seq<char>, i: int, hi: int)
    requires
        0 <= i < hi <= s.len(),
        char_whitespace(s[i]),
    ensures
        trim_start(s.subrange(i, hi)) == trim_start(s.subrange(i + 1, hi)),
{
    assert(s.subrange(i, hi).drop_first() =~= s.subrange(i + 1, hi));
}

proof fn lemma_trim_end_step(s: Seq<char>, lo: int, j: int)
    requires
        0 <= lo < j <= s.len(),
        char_whitespace(s[j - 1]),
    ensures
        trim_end(s.subrange(lo, j)) == trim_end(s.subrange(lo, j - 1)),
{
    assert(s.subrange(lo, j).drop_last() =~= s.subrange(lo, j - 1));
}

/// `v` without leading and trailing whitespace (`str::trim`).
pub fn trim_chars(v: &Vec<char>) -> (r: Vec<char>)
    ensures
        r@ == trim(v@),
{
    let n = v.len();
    let mut i: usize = 0;
    assert(v@.subrange(0, n as int) =~= v@);
    while i < n && is_whitespace(v[i])
        invariant
            i <= n == v.len(),
            trim_start(v@) == trim_start(v@.subrange(i as int, n as int)),
        decreases n - i,
    {
        proof {
            lemma_trim_start_step(v@, i as int, n as int);
        }
        i = i + 1;
    }
    assert(v@.subrange(0, n as int) =~= v@);
    assert(trim_start(v@) == v@.subrange(i as int, n as int));
    let mut j: usize = n;
    while j > i && is_whitespace(v[j - 1])
        invariant
            i <= j <= n == v.len(),
            trim(v@) == trim_end(v@.subrange(i as int, j as int)),
        decreases j,
    {
        proof {
            lemma_trim_end_step(v@, i as int, j as int);
        }
        j = j - 1;
    }
    copy_range(v, i, j)
}

proof fn lemma_strip_dashes_front(s: Seq<char>, i: int, j: int)
    requires
        0 <= i < j <= s.len(),
        s[i] == '-',
    ensures
        strip_dashes(s.subrange(i, j)) == strip_dashes(s.subrange(i + 1, j)),
{
    assert(s.subrange(i, j).drop_first() =~= s.subrange(i + 1, j));
}

proof fn lemma_strip_dashes_back(s: Seq<char>, i: int, j: int)
    requires
        0 <= i < j <= s.len(),
        s[i] != '-',
        s[j - 1] == '-',
    ensures
        strip_dashes(s.subrange(i, j)) == strip_dashes(s.subrange(i, j - 1)),
{
    assert(s.subrange(i, j).drop_last() =~= s.subrange(i, j - 1));
}

/// `v` without leading and trailing `'-'` (`str::trim_matches('-')`).
pub fn strip_dash_chars(v: &Vec<char>) -> (r: Vec<char>)
    ensures
        r@ == strip_dashes(v@),
{
    let n = v.len();
    let mut i: usize = 0;
    assert(v@.subrange(0, n as int) =~= v@);
    while i < n && v[i] == '-'
        invariant
            i <= n == v.len(),
            strip_dashes(v@) == strip_dashes(v@.subrange(i as int, n as int)),
        decreases n - i,
    {
        proof {
            lemma_strip_dashes_front(v@, i as int, n as int);
        }
        i = i + 1;
    }
    assert(v@.subrange(0, n as int) =~= v@);
    let mut j: usize = n;
    while j > i && v[j - 1] == '-'
        invariant
            i <= j <= n == v.len(),
            i < j ==> v@[i as int] != '-',
            strip_dashes(v@) == strip_dashes(v@.subrange(i as int, j as int)),
        decreases j,
    {
        proof {
            if j - 1 > i {
                lemma_strip_dashes_back(v@, i as int, j as int);
            } else {
                assert(false);
            }
        }
        j = j - 1;
    }
    let r = copy_range(v, i, j);
    proof {
        let t = v@.subrange(i as int, j as int);
        if t.len() > 0 {
            assert(t[0] == v@[i as int]);
            assert(t.last() == v@[j - 1]);
        }
    }
    r
}

/// Whether `p` occurs in `s` at index `i`.
pub fn matches_at_exec(s: &Vec<char>, p: &Vec<char>, i: usize) -> (b: bool)
    ensures
        b == matches_at(s@, p@, i as int),
{
    if i > s.len() || p.len() > s.len() - i {
        return false;
    }
    let mut k: usize = 0;
    while k < p.len()
        invariant
            i + p.len() <= s.len(),
            k <= p.len(),
            forall|m: int| 0 <= m < k ==> s@[i + m] == p@[m],
        decreases p.len() - k,
    {
        if s[i + k] != p[k] {
            assert(s@.subrange(i as int, i + p.len())[k as int] != p@[k as int]);
            return false;
        }
        k = k + 1;
    }
    assert(s@.subrange(i as int, i + p.len()) =~= p@);
    true
}

/// The first index `k >= start` at which `p` occurs in `s`.
pub fn find_from_exec(s: &Vec<char>, p: &Vec<char>, start: usize) -> (r: Option<usize>)
    ensures
        r is None <==> find_from(s@, p@, start as nat) is None,
        r matches Some(k) ==> find_from(s@, p@, start as nat) == Some(k as nat),
        r matches Some(k) ==> start <= k && k + p@.len() <= s@.len(),
{
    if p.len() > s.len() || start > s.len() - p.len() {
        return None;
    }
    if p.len() == 0 {
        assert(s@.subrange(start as int, start as int) =~= p@);
        return Some(start);
    }
    let last: usize = s.len() - p.len();
    let mut i: usize = start;
    while i <= last
        invariant
            start <= i,
            last + p@.len() == s@.len(),
            last < s.len(),
            p@.len() > 0,
            find_from(s@, p@, start as nat) == find_from(s@, p@, i as nat),
        decreases last + 1 - i,
    {
        if matches_at_exec(s, p, i) {
            return Some(i);
        }
        i = i + 1;
    }
    None
}

/// The last index at which `p` occurs in `s`.
pub fn rfind_exec(s: &Vec<char>, p: &Vec<char>) -> (r: Option<usize>)
    ensures
        r is None <==> rfind(s@, p@) is None,
        r matches Some(k) ==> rfind(s@, p@) == Some(k as nat) && k + p@.len() <= s@.len(),
{
    if p.len() > s.len() {
        return None;
    }
    if p.len() == 0 {
        assert(s@.subrange(s.len() as int, s.len() as int) =~= p@);
        return Some(s.len());
    }
    let mut i: usize = s.len() - p.len() + 1;
    while i > 0
        invariant
            i <= s.len() - p.len() + 1,
            rfind(s@, p@) == rfind_to(s@, p@, i - 1),
        decreases i,
    {
        if matches_at_exec(s, p, i - 1) {
            return Some(i - 1);
        }
        i = i - 1;
    }
    None
}

/// Splits `s` into its lines (`str::lines`).
pub fn split_lines(s: &Vec<char>) -> (r: Vec<Vec<char>>)
    ensures
        r@.map_values(|l: Vec<char>| l@) == lines(s@),
{
    let nl: Vec<char> = vec!['\n'];
    assert(nl@ =~= seq!['\n']);
    let mut r: Vec<Vec<char>> = Vec::new();
    let mut pos: usize = 0;
    while pos < s.len()
        invariant
            pos <= s.len(),
            nl@ == seq!['\n'],
            lines(s@) == r@.map_values(|l: Vec<char>| l@) + lines_from(s@, pos as nat),
        decreases s.len() - pos,
    {
        let ghost before = r@.map_values(|l: Vec<char>| l@);
        match find_from_exec(s, &nl, pos) {
            Some(k) => {
                let line = if k > pos && s[k - 1] == '\r' {
                    copy_range(s, pos, k - 1)
                } else {
                    copy_range(s, pos, k)
                };
                proof {
                    let full = s@.subrange(pos as int, k as int);
                    if full.len() > 0 {
                        assert(full.last() == s@[k - 1]);
                        assert(full.drop_last() =~= s@.subrange(pos as int, k - 1));
                    }
                    assert(line@ == strip_cr(full));
                }
                assert(find_from(s@, seq!['\n'], pos as nat) == Some(k as nat));
                assert(k < s@.len());
                assert(lines_from(s@, pos as nat) == seq![line@] + lines_from(s@, (k + 1) as nat));
                r.push(line);
                assert(r@.map_values(|l: Vec<char>| l@) =~= before.push(line@));
                assert(before.push(line@) + lines_from(s@, (k + 1) as nat) =~= before + (seq![
                    line@,
                ] + lines_from(s@, (k + 1) as nat)));
                pos = k + 1;
            },
            None => {
                let line = copy_range(s, pos, s.len());
                assert(lines_from(s@, pos as nat) == seq![line@]);
                assert(lines_from(s@, s@.len()) == Seq::<Seq<char>>::empty());
                r.push(line);
                assert(r@.map_values(|l: Vec<char>| l@) =~= before.push(line@));
                assert(before.push(line@) =~= before + seq![line@]);
                pos = s.len();
            },
        }
    }
    assert(r@.map_values(|l: Vec<char>| l@) + seq![] =~= r@.map_values(|l: Vec<char>| l@));
    r
}

/// Appends the decimal rendering of `n` to `out`.
pub fn push_decimal(out: &mut Vec<char>, n: usize)
    ensures
        final(out)@ == old(out)@ + decimal(n as nat),
    decreases n,
{
    if n >= 10 {
        push_decimal(out, n / 10);
    }
    let d: u8 = (n % 10) as u8;
    let c: char = (d + 48) as char;
    out.push(c);
    assert(c == digit_char((n % 10) as nat));
    proof {
        if n >= 10 {
            assert(decimal(n as nat) == decimal((n / 10) as nat).push(digit_char((n % 10) as nat)));
        }
    }
    assert(out@ =~= old(out)@ + decimal(n as nat)) by {
        if n < 10 {
            assert(decimal(n as nat) == seq![digit_char(n as nat)]);
        }
    }
}

} // verus!
