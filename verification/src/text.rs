//! Character-level text primitives shared by the parsers.
//!
//! Text is handled as `Vec<char>` in executable code and `Seq<char>` in
//! specifications, so every string operation the justfile logic relies on
//! (trimming, splitting, searching) has a precise meaning here.
use vstd::prelude::*;

verus! {

/// The characters of `s`, in order.
#[verifier::external_body]
pub fn chars_of(s: &str) -> (r: Vec<char>)
    ensures
        r@ == s@,
{
    s.chars().collect()
}

/// A `String` holding exactly the characters of `v`.
#[verifier::external_body]
pub fn string_of(v: &Vec<char>) -> (r: String)
    ensures
        r@ == v@,
{
    v.iter().collect()
}

/// Unicode `White_Space`, the property `char::is_whitespace` tests.
pub open spec fn is_ws(c: char) -> bool {
    let u = c as u32;
    (0x9 <= u && u <= 0xD) || u == 0x20 || u == 0x85 || u == 0xA0 || u == 0x1680 || (0x2000 <= u
        && u <= 0x200A) || u == 0x2028 || u == 0x2029 || u == 0x202F || u == 0x205F || u == 0x3000
}

/// Executable form of [`is_ws`].
pub fn char_is_ws(c: char) -> (r: bool)
    ensures
        r == is_ws(c),
{
    let u = c as u32;
    (0x9 <= u && u <= 0xD) || u == 0x20 || u == 0x85 || u == 0xA0 || u == 0x1680 || (0x2000 <= u
        && u <= 0x200A) || u == 0x2028 || u == 0x2029 || u == 0x202F || u == 0x205F || u == 0x3000
}

/// ASCII letters.
pub open spec fn is_ascii_alpha(c: char) -> bool {
    ('a' <= c && c <= 'z') || ('A' <= c && c <= 'Z')
}

/// ASCII digits.
pub open spec fn is_ascii_digit(c: char) -> bool {
    '0' <= c && c <= '9'
}

/// ASCII letters and digits.
pub open spec fn is_ascii_alnum(c: char) -> bool {
    is_ascii_alpha(c) || is_ascii_digit(c)
}

/// ASCII whitespace as `u8::is_ascii_whitespace` defines it: space, tab, line
/// feed, form feed and carriage return.
pub open spec fn is_ascii_ws(c: char) -> bool {
    c == ' ' || c == '\t' || c == '\n' || c == '\x0C' || c == '\r'
}

/// What `char::is_alphabetic` returns for `c` (the Unicode `Alphabetic`
/// property).
pub uninterp spec fn unicode_alphabetic(c: char) -> bool;

/// What `char::is_alphanumeric` returns for `c` (`Alphabetic` or `Numeric`).
pub uninterp spec fn unicode_alphanumeric(c: char) -> bool;

/// `char::is_alphabetic`. The result is named by [`unicode_alphabetic`]; the
/// Unicode tables behind it are not restated here, except that among ASCII
/// characters exactly the letters have the property.
#[verifier::external_body]
pub fn char_is_alphabetic(c: char) -> (r: bool)
    ensures
        r == unicode_alphabetic(c),
        (c as u32) < 0x80 ==> (r <==> is_ascii_alpha(c)),
{
    c.is_alphabetic()
}

/// `char::is_alphanumeric`. The result is named by [`unicode_alphanumeric`];
/// the Unicode tables behind it are not restated here, except that among
/// ASCII characters exactly the letters and digits have the property.
#[verifier::external_body]
pub fn char_is_alphanumeric(c: char) -> (r: bool)
    ensures
        r == unicode_alphanumeric(c),
        (c as u32) < 0x80 ==> (r <==> is_ascii_alnum(c)),
{
    c.is_alphanumeric()
}

/// The end of the run of whitespace that starts at `i`.
pub open spec fn ws_run_end(s: Seq<char>, i: int) -> int
    decreases s.len() - i,
{
    if 0 <= i < s.len() && is_ws(s[i]) {
        ws_run_end(s, i + 1)
    } else {
        i
    }
}

/// The end of the run of non-whitespace that starts at `i`.
pub open spec fn word_end(s: Seq<char>, i: int) -> int
    decreases s.len() - i,
{
    if 0 <= i < s.len() && !is_ws(s[i]) {
        word_end(s, i + 1)
    } else {
        i
    }
}

/// The start of the run of whitespace that ends at `j`.
pub open spec fn ws_run_start(s: Seq<char>, j: int) -> int
    decreases j,
{
    if 0 < j <= s.len() && is_ws(s[j - 1]) {
        ws_run_start(s, j - 1)
    } else {
        j
    }
}

/// `s` without leading whitespace (`str::trim_start`).
pub open spec fn trim_start(s: Seq<char>) -> Seq<char> {
    s.subrange(ws_run_end(s, 0), s.len() as int)
}

/// `s` without trailing whitespace (`str::trim_end`).
pub open spec fn trim_end(s: Seq<char>) -> Seq<char> {
    s.subrange(0, ws_run_start(s, s.len() as int))
}

/// `s` without leading or trailing whitespace (`str::trim`).
pub open spec fn trim(s: Seq<char>) -> Seq<char> {
    trim_end(trim_start(s))
}

pub proof fn lemma_ws_run_end(s: Seq<char>, i: int)
    requires
        0 <= i <= s.len(),
    ensures
        i <= ws_run_end(s, i) <= s.len(),
        forall|k: int| i <= k < ws_run_end(s, i) ==> is_ws(#[trigger] s[k]),
        ws_run_end(s, i) < s.len() ==> !is_ws(s[ws_run_end(s, i)]),
    decreases s.len() - i,
{
    if i < s.len() && is_ws(s[i]) {
        lemma_ws_run_end(s, i + 1);
    }
}

pub proof fn lemma_word_end(s: Seq<char>, i: int)
    requires
        0 <= i <= s.len(),
    ensures
        i <= word_end(s, i) <= s.len(),
        forall|k: int| i <= k < word_end(s, i) ==> !is_ws(#[trigger] s[k]),
        word_end(s, i) < s.len() ==> is_ws(s[word_end(s, i)]),
    decreases s.len() - i,
{
    if i < s.len() && !is_ws(s[i]) {
        lemma_word_end(s, i + 1);
    }
}

pub proof fn lemma_ws_run_start(s: Seq<char>, j: int)
    requires
        0 <= j <= s.len(),
    ensures
        0 <= ws_run_start(s, j) <= j,
        forall|k: int| ws_run_start(s, j) <= k < j ==> is_ws(#[trigger] s[k]),
        ws_run_start(s, j) > 0 ==> !is_ws(s[ws_run_start(s, j) - 1]),
    decreases j,
{
    if 0 < j && is_ws(s[j - 1]) {
        lemma_ws_run_start(s, j - 1);
    }
}

/// `v[lo..hi]` as a new vector.
pub fn slice(v: &Vec<char>, lo: usize, hi: usize) -> (r: Vec<char>)
    requires
        lo <= hi <= v.len(),
    ensures
        r@ == v@.subrange(lo as int, hi as int),
{
    let mut r: Vec<char> = Vec::new();
    let mut i = lo;
    while i < hi
        invariant
            lo <= i <= hi <= v.len(),
            r@ == v@.subrange(lo as int, i as int),
        decreases hi - i,
    {
        r.push(v[i]);
        i = i + 1;
    }
    r
}

/// `v[lo..]` as a new vector.
pub fn tail(v: &Vec<char>, lo: usize) -> (r: Vec<char>)
    requires
        lo <= v.len(),
    ensures
        r@ == v@.subrange(lo as int, v.len() as int),
{
    slice(v, lo, v.len())
}

/// Index of the first non-whitespace character at or after `i`.
pub fn skip_ws(v: &Vec<char>, i: usize) -> (r: usize)
    requires
        i <= v.len(),
    ensures
        r as int == ws_run_end(v@, i as int),
{
    let mut j = i;
    while j < v.len() && char_is_ws(v[j])
        invariant
            i <= j <= v.len(),
            ws_run_end(v@, i as int) == ws_run_end(v@, j as int),
        decreases v.len() - j,
    {
        j = j + 1;
    }
    j
}

/// Index of the first whitespace character at or after `i`.
pub fn skip_word(v: &Vec<char>, i: usize) -> (r: usize)
    requires
        i <= v.len(),
    ensures
        r as int == word_end(v@, i as int),
{
    let mut j = i;
    while j < v.len() && !char_is_ws(v[j])
        invariant
            i <= j <= v.len(),
            word_end(v@, i as int) == word_end(v@, j as int),
        decreases v.len() - j,
    {
        j = j + 1;
    }
    j
}

/// `str::trim_start`.
pub fn trim_start_chars(v: &Vec<char>) -> (r: Vec<char>)
    ensures
        r@ == trim_start(v@),
{
    let i = skip_ws(v, 0);
    proof {
        lemma_ws_run_end(v@, 0);
    }
    tail(v, i)
}

/// `str::trim_end`.
pub fn trim_end_chars(v: &Vec<char>) -> (r: Vec<char>)
    ensures
        r@ == trim_end(v@),
{
    let mut j = v.len();
    while j > 0 && char_is_ws(v[j - 1])
        invariant
            0 <= j <= v.len(),
            ws_run_start(v@, v.len() as int) == ws_run_start(v@, j as int),
        decreases j,
    {
        j = j - 1;
    }
    slice(v, 0, j)
}

/// `str::trim`.
pub fn trim_chars(v: &Vec<char>) -> (r: Vec<char>)
    ensures
        r@ == trim(v@),
{
    let t = trim_start_chars(v);
    trim_end_chars(&t)
}

/// Whether `s` begins with `p`.
pub open spec fn starts_with(s: Seq<char>, p: Seq<char>) -> bool {
    p.len() <= s.len() && s.subrange(0, p.len() as int) == p
}

/// Whether `s` ends with `p`.
pub open spec fn ends_with(s: Seq<char>, p: Seq<char>) -> bool {
    p.len() <= s.len() && s.subrange(s.len() - p.len(), s.len() as int) == p
}

/// Whether `p` occurs in `s` at index `i`.
pub open spec fn occurs_at(s: Seq<char>, p: Seq<char>, i: int) -> bool {
    0 <= i && i + p.len() <= s.len() && s.subrange(i, i + p.len()) == p
}

/// The first index at or after `i` where `p` occurs in `s`.
pub open spec fn find_from(s: Seq<char>, p: Seq<char>, i: int) -> Option<int>
    decreases s.len() + 1 - i,
{
    if i < 0 || i + p.len() > s.len() {
        None
    } else if occurs_at(s, p, i) {
        Some(i)
    } else {
        find_from(s, p, i + 1)
    }
}

/// The first index where `p` occurs in `s` (`str::find`).
pub open spec fn find(s: Seq<char>, p: Seq<char>) -> Option<int> {
    find_from(s, p, 0)
}

/// Whether `p` occurs anywhere in `s` (`str::contains`).
pub open spec fn contains(s: Seq<char>, p: Seq<char>) -> bool {
    find(s, p) is Some
}

pub proof fn lemma_find_from(s: Seq<char>, p: Seq<char>, i: int)
    requires
        0 <= i,
    ensures
        find_from(s, p, i) matches Some(k) ==> i <= k && occurs_at(s, p, k) && forall|m: int|
            i <= m < k ==> !occurs_at(s, p, m),
        find_from(s, p, i) is None ==> forall|m: int| i <= m ==> !occurs_at(s, p, m),
    decreases s.len() + 1 - i,
{
    if i + p.len() <= s.len() && !occurs_at(s, p, i) {
        lemma_find_from(s, p, i + 1);
    }
}

/// Whether `v` begins with `p`.
pub fn has_prefix(v: &Vec<char>, p: &Vec<char>) -> (r: bool)
    ensures
        r == starts_with(v@, p@),
{
    occurs_at_exec(v, p, 0)
}

/// Whether `v` ends with `p`.
pub fn has_suffix(v: &Vec<char>, p: &Vec<char>) -> (r: bool)
    ensures
        r == ends_with(v@, p@),
{
    if p.len() > v.len() {
        return false;
    }
    occurs_at_exec(v, p, v.len() - p.len())
}

/// Whether `p` occurs in `v` at index `i`.
pub fn occurs_at_exec(v: &Vec<char>, p: &Vec<char>, i: usize) -> (r: bool)
    ensures
        r == occurs_at(v@, p@, i as int),
{
    if p.len() > v.len() || i > v.len() - p.len() {
        return false;
    }
    let mut k: usize = 0;
    while k < p.len()
        invariant
            i + p.len() <= v.len(),
            0 <= k <= p.len(),
            forall|m: int| 0 <= m < k ==> v@[i + m] == p@[m],
        decreases p.len() - k,
    {
        if v[i + k] != p[k] {
            proof {
                assert(v@.subrange(i as int, i + p.len())[k as int] != p@[k as int]);
            }
            return false;
        }
        k = k + 1;
    }
    assert(v@.subrange(i as int, i + p.len()) =~= p@);
    true
}

/// `str::find` from index `i`.
pub fn find_exec(v: &Vec<char>, p: &Vec<char>, i: usize) -> (r: Option<usize>)
    ensures
        r matches Some(k) ==> find_from(v@, p@, i as int) == Some(k as int),
        r is None ==> find_from(v@, p@, i as int) is None,
{
    if p.len() > v.len() {
        return None;
    }
    let mut j = i;
    while j <= v.len() - p.len()
        invariant
            p.len() <= v.len(),
            i <= j,
            find_from(v@, p@, i as int) == find_from(v@, p@, j as int),
        decreases v.len() - j,
    {
        if occurs_at_exec(v, p, j) {
            return Some(j);
        }
        assert(p.len() > 0) by {
            if p.len() == 0 {
                assert(v@.subrange(j as int, j as int) =~= p@);
            }
        }
        j = j + 1;
    }
    None
}

/// `str::contains`.
pub fn contains_exec(v: &Vec<char>, p: &Vec<char>) -> (r: bool)
    ensures
        r == contains(v@, p@),
{
    find_exec(v, p, 0).is_some()
}

/// Whether `v` contains the literal `p`.
pub fn contains_str(v: &Vec<char>, p: &str) -> (r: bool)
    ensures
        r == contains(v@, p@),
{
    let pv = chars_of(p);
    contains_exec(v, &pv)
}

/// Whether `v` begins with the literal `p`.
pub fn starts_with_str(v: &Vec<char>, p: &str) -> (r: bool)
    ensures
        r == starts_with(v@, p@),
{
    let pv = chars_of(p);
    has_prefix(v, &pv)
}

/// Whether `v` equals the literal `p`.
pub fn eq_str(v: &Vec<char>, p: &str) -> (r: bool)
    ensures
        r == (v@ == p@),
{
    let pv = chars_of(p);
    eq_chars(v, &pv)
}

/// Whether two character vectors are equal.
pub fn eq_chars(a: &Vec<char>, b: &Vec<char>) -> (r: bool)
    ensures
        r == (a@ == b@),
{
    if a.len() != b.len() {
        return false;
    }
    let r = occurs_at_exec(a, b, 0);
    proof {
        if r {
            assert(a@.subrange(0, a@.len() as int) =~= a@);
        } else {
            if a@ == b@ {
                assert(a@.subrange(0, a@.len() as int) =~= a@);
            }
        }
    }
    r
}

/// `str::strip_prefix` with a literal.
pub open spec fn strip_prefix(s: Seq<char>, p: Seq<char>) -> Option<Seq<char>> {
    if starts_with(s, p) {
        Some(s.subrange(p.len() as int, s.len() as int))
    } else {
        None
    }
}

/// `str::strip_prefix` with a literal.
pub fn strip_prefix_str(v: &Vec<char>, p: &str) -> (r: Option<Vec<char>>)
    ensures
        r matches Some(t) ==> strip_prefix(v@, p@) == Some(t@),
        r is None ==> strip_prefix(v@, p@) is None,
{
    let pv = chars_of(p);
    if has_prefix(v, &pv) {
        Some(tail(v, pv.len()))
    } else {
        None
    }
}

/// `str::split_once` on a pattern: the text before and after its first
/// occurrence.
pub open spec fn split_once(s: Seq<char>, p: Seq<char>) -> Option<(Seq<char>, Seq<char>)> {
    match find(s, p) {
        Some(i) => Some((s.subrange(0, i), s.subrange(i + p.len(), s.len() as int))),
        None => None,
    }
}

/// `str::split_once` on a pattern.
pub fn split_once_exec(v: &Vec<char>, p: &Vec<char>) -> (r: Option<(Vec<char>, Vec<char>)>)
    ensures
        r matches Some((a, b)) ==> split_once(v@, p@) == Some((a@, b@)),
        r is None ==> split_once(v@, p@) is None,
{
    match find_exec(v, p, 0) {
        Some(i) => {
            proof {
                lemma_find_from(v@, p@, 0);
                assert(occurs_at(v@, p@, i as int));
                assert(i + p@.len() <= v@.len());
            }
            let plen = p.len();
            assert(i + plen <= v.len());
            let end = i + plen;
            Some((slice(v, 0, i), tail(v, end)))
        },
        None => None,
    }
}

/// `str::split_once` on a literal pattern.
pub fn split_once_str(v: &Vec<char>, p: &str) -> (r: Option<(Vec<char>, Vec<char>)>)
    ensures
        r matches Some((a, b)) ==> split_once(v@, p@) == Some((a@, b@)),
        r is None ==> split_once(v@, p@) is None,
{
    let pv = chars_of(p);
    split_once_exec(v, &pv)
}

/// The index of the first `'\n'` at or after `i`, or the length of `s`.
pub open spec fn line_end(s: Seq<char>, i: int) -> int
    decreases s.len() - i,
{
    if 0 <= i < s.len() && s[i] != '\n' {
        line_end(s, i + 1)
    } else {
        i
    }
}

pub proof fn lemma_line_end(s: Seq<char>, i: int)
    requires
        0 <= i <= s.len(),
    ensures
        i <= line_end(s, i) <= s.len(),
        forall|k: int| i <= k < line_end(s, i) ==> #[trigger] s[k] != '\n',
        line_end(s, i) < s.len() ==> s[line_end(s, i)] == '\n',
    decreases s.len() - i,
{
    if i < s.len() && s[i] != '\n' {
        lemma_line_end(s, i + 1);
    }
}

/// A line without the `'\r'` of a `"\r\n"` ending.
pub open spec fn strip_cr(t: Seq<char>) -> Seq<char> {
    if t.len() > 0 && t.last() == '\r' {
        t.drop_last()
    } else {
        t
    }
}

/// The lines of `s` from index `i` on, as `str::lines` yields them: split at
/// `"\n"` or `"\r\n"`, with no empty line after a final line ending.
pub open spec fn lines_from(s: Seq<char>, i: int) -> Seq<Seq<char>>
    decreases s.len() + 1 - i,
{
    if i < 0 || i >= s.len() {
        seq![]
    } else {
        let e = line_end(s, i);
        let line = if e < s.len() {
            strip_cr(s.subrange(i, e))
        } else {
            s.subrange(i, e)
        };
        proof {
            lemma_line_end(s, i);
        }
        seq![line] + lines_from(s, e + 1)
    }
}

/// `str::lines`.
pub open spec fn lines(s: Seq<char>) -> Seq<Seq<char>> {
    lines_from(s, 0)
}

/// The character sequences of a vector of character vectors.
pub open spec fn views(v: Seq<Vec<char>>) -> Seq<Seq<char>> {
    Seq::new(v.len(), |i: int| v[i]@)
}

/// `str::lines`.
pub fn lines_of(v: &Vec<char>) -> (r: Vec<Vec<char>>)
    ensures
        views(r@) == lines(v@),
{
    let mut r: Vec<Vec<char>> = Vec::new();
    let mut i: usize = 0;
    while i < v.len()
        invariant
            0 <= i <= v.len(),
            views(r@) + lines_from(v@, i as int) == lines(v@),
        decreases v.len() - i,
    {
        let mut e = i;
        while e < v.len() && v[e] != '\n'
            invariant
                i <= e <= v.len(),
                line_end(v@, i as int) == line_end(v@, e as int),
            decreases v.len() - e,
        {
            e = e + 1;
        }
        proof {
            lemma_line_end(v@, i as int);
        }
        let mut line = slice(v, i, e);
        if e < v.len() && line.len() > 0 && line[line.len() - 1] == '\r' {
            line.pop();
        }
        let ghost old_r = views(r@);
        r.push(line);
        proof {
            assert(views(r@) =~= old_r.push(line@));
            assert(lines_from(v@, i as int) == seq![line@] + lines_from(v@, e + 1));
            assert(views(r@) + lines_from(v@, e + 1) =~= old_r + lines_from(v@, i as int));
        }
        if e >= v.len() {
            assert(lines_from(v@, e + 1) =~= seq![]);
            assert(views(r@) + lines_from(v@, e + 1) =~= views(r@));
            return r;
        }
        i = e + 1;
    }
    assert(views(r@) + lines_from(v@, i as int) =~= views(r@));
    r
}

/// The whitespace-separated words of `s` from index `i` on
/// (`str::split_whitespace`).
pub open spec fn words_from(s: Seq<char>, i: int) -> Seq<Seq<char>>
    decreases s.len() - i,
{
    if i < 0 || i >= s.len() {
        seq![]
    } else {
        let a = ws_run_end(s, i);
        proof {
            lemma_ws_run_end(s, i);
        }
        if a >= s.len() {
            seq![]
        } else {
            let b = word_end(s, a);
            proof {
                lemma_word_end(s, a);
                lemma_word_end(s, a + 1);
            }
            seq![s.subrange(a, b)] + words_from(s, b)
        }
    }
}

/// `str::split_whitespace`.
pub open spec fn words(s: Seq<char>) -> Seq<Seq<char>> {
    words_from(s, 0)
}

/// `str::split_whitespace`.
pub fn words_of(v: &Vec<char>) -> (r: Vec<Vec<char>>)
    ensures
        views(r@) == words(v@),
{
    let mut r: Vec<Vec<char>> = Vec::new();
    let mut i: usize = 0;
    while i < v.len()
        invariant
            0 <= i <= v.len(),
            views(r@) + words_from(v@, i as int) == words(v@),
        decreases v.len() - i,
    {
        let a = skip_ws(v, i);
        proof {
            lemma_ws_run_end(v@, i as int);
        }
        if a >= v.len() {
            assert(words_from(v@, i as int) =~= seq![]);
            assert(views(r@) + words_from(v@, i as int) =~= views(r@));
            return r;
        }
        let b = skip_word(v, a);
        proof {
            lemma_word_end(v@, a as int);
            assert(word_end(v@, a as int) == word_end(v@, a + 1));
        }
        let w = slice(v, a, b);
        let ghost old_r = views(r@);
        r.push(w);
        proof {
            assert(views(r@) =~= old_r.push(w@));
            assert(views(r@) + words_from(v@, b as int) =~= old_r + words_from(v@, i as int));
        }
        i = b;
    }
    assert(views(r@) + words_from(v@, i as int) =~= views(r@));
    r
}

/// The first word of `s`, if it has one.
pub open spec fn first_word(s: Seq<char>) -> Option<Seq<char>> {
    if words(s).len() > 0 {
        Some(words(s)[0])
    } else {
        None
    }
}

/// The pieces of `s` between occurrences of `c`, from index `i` on
/// (`str::split` on a character; always at least one piece).
pub open spec fn split_char_from(s: Seq<char>, c: char, i: int) -> Seq<Seq<char>>
    decreases s.len() - i,
{
    if i < 0 || i > s.len() {
        seq![]
    } else {
        let e = char_end(s, c, i);
        proof {
            lemma_char_end(s, c, i);
        }
        if e >= s.len() {
            seq![s.subrange(i, s.len() as int)]
        } else {
            seq![s.subrange(i, e)] + split_char_from(s, c, e + 1)
        }
    }
}

/// `str::split` on a character.
pub open spec fn split_char(s: Seq<char>, c: char) -> Seq<Seq<char>> {
    split_char_from(s, c, 0)
}

/// The index of the first `c` at or after `i`, or the length of `s`.
pub open spec fn char_end(s: Seq<char>, c: char, i: int) -> int
    decreases s.len() - i,
{
    if 0 <= i < s.len() && s[i] != c {
        char_end(s, c, i + 1)
    } else {
        i
    }
}

pub proof fn lemma_char_end(s: Seq<char>, c: char, i: int)
    requires
        0 <= i <= s.len(),
    ensures
        i <= char_end(s, c, i) <= s.len(),
        forall|k: int| i <= k < char_end(s, c, i) ==> #[trigger] s[k] != c,
        char_end(s, c, i) < s.len() ==> s[char_end(s, c, i)] == c,
    decreases s.len() - i,
{
    if i < s.len() && s[i] != c {
        lemma_char_end(s, c, i + 1);
    }
}

/// Index of the first `c` at or after `i`, or the length of `v`.
pub fn find_char(v: &Vec<char>, c: char, i: usize) -> (r: usize)
    requires
        i <= v.len(),
    ensures
        r as int == char_end(v@, c, i as int),
{
    let mut j = i;
    while j < v.len() && v[j] != c
        invariant
            i <= j <= v.len(),
            char_end(v@, c, i as int) == char_end(v@, c, j as int),
        decreases v.len() - j,
    {
        j = j + 1;
    }
    j
}

/// `str::split` on a character.
pub fn split_char_of(v: &Vec<char>, c: char) -> (r: Vec<Vec<char>>)
    ensures
        views(r@) == split_char(v@, c),
{
    let mut r: Vec<Vec<char>> = Vec::new();
    let mut i: usize = 0;
    loop
        invariant
            0 <= i <= v.len(),
            views(r@) + split_char_from(v@, c, i as int) == split_char(v@, c),
        decreases v.len() - i,
    {
        let e = find_char(v, c, i);
        proof {
            lemma_char_end(v@, c, i as int);
        }
        let piece = slice(v, i, e);
        let ghost old_r = views(r@);
        r.push(piece);
        proof {
            assert(views(r@) =~= old_r.push(piece@));
        }
        if e >= v.len() {
            assert(views(r@) =~= old_r + split_char_from(v@, c, i as int));
            return r;
        }
        proof {
            assert(views(r@) + split_char_from(v@, c, e + 1) =~= old_r + split_char_from(
                v@,
                c,
                i as int,
            ));
        }
        i = e + 1;
    }
}

/// Index of the last `c` in `v`, if any.
pub fn rfind_char(v: &Vec<char>, c: char) -> (r: Option<usize>)
    ensures
        r matches Some(k) ==> k < v.len() && v@[k as int] == c && forall|m: int| k < m < v.len() ==> v@[m] != c,
        r is None ==> forall|m: int| 0 <= m < v.len() ==> v@[m] != c,
{
    let mut j = v.len();
    while j > 0
        invariant
            0 <= j <= v.len(),
            forall|m: int| j <= m < v.len() ==> v@[m] != c,
        decreases j,
    {
        if v[j - 1] == c {
            return Some(j - 1);
        }
        j = j - 1;
    }
    None
}

/// The text before and after the last `c` (`str::rsplit_once` on a
/// character).
pub open spec fn rsplit_once_char(s: Seq<char>, c: char) -> Option<(Seq<char>, Seq<char>)> {
    if exists|k: int| 0 <= k < s.len() && s[k] == c {
        let k = choose|k: int| 0 <= k < s.len() && s[k] == c && forall|m: int| k < m < s.len() ==> s[m] != c;
        Some((s.subrange(0, k), s.subrange(k + 1, s.len() as int)))
    } else {
        None
    }
}

/// `str::rsplit_once` on a character.
pub fn rsplit_once_char_of(v: &Vec<char>, c: char) -> (r: Option<(Vec<char>, Vec<char>)>)
    ensures
        r matches Some((a, b)) ==> rsplit_once_char(v@, c) == Some((a@, b@)),
        r is None ==> rsplit_once_char(v@, c) is None,
{
    match rfind_char(v, c) {
        Some(k) => {
            proof {
                let kk = choose|k: int| 0 <= k < v@.len() && v@[k] == c && forall|m: int| k < m < v@.len() ==> v@[m] != c;
                assert(0 <= kk < v@.len() && v@[kk] == c && forall|m: int| kk < m < v@.len() ==> v@[m] != c);
                if kk < k {
                    assert(v@[k as int] != c);
                }
                if kk > k {
                    assert(v@[kk] != c);
                }
            }
            Some((slice(v, 0, k), tail(v, k + 1)))
        },
        None => None,
    }
}

/// `s` with every leading character that `keep` rejects removed... that is, the
/// index of the first character of `s` at or after `i` that is not in `set`.
pub open spec fn skip_set(s: Seq<char>, set: Seq<char>, i: int) -> int
    decreases s.len() - i,
{
    if 0 <= i < s.len() && set.contains(s[i]) {
        skip_set(s, set, i + 1)
    } else {
        i
    }
}

/// `str::trim_start_matches` with a set of characters.
pub open spec fn trim_start_set(s: Seq<char>, set: Seq<char>) -> Seq<char> {
    s.subrange(skip_set(s, set, 0), s.len() as int)
}

pub proof fn lemma_skip_set(s: Seq<char>, set: Seq<char>, i: int)
    requires
        0 <= i <= s.len(),
    ensures
        i <= skip_set(s, set, i) <= s.len(),
    decreases s.len() - i,
{
    if i < s.len() && set.contains(s[i]) {
        lemma_skip_set(s, set, i + 1);
    }
}

/// Whether `c` is in `set`.
pub fn in_set(set: &Vec<char>, c: char) -> (r: bool)
    ensures
        r == set@.contains(c),
{
    let mut k: usize = 0;
    while k < set.len()
        invariant
            0 <= k <= set.len(),
            forall|m: int| 0 <= m < k ==> set@[m] != c,
        decreases set.len() - k,
    {
        if set[k] == c {
            return true;
        }
        k = k + 1;
    }
    false
}

/// `str::trim_start_matches` with a set of characters.
pub fn trim_start_set_of(v: &Vec<char>, set: &Vec<char>) -> (r: Vec<char>)
    ensures
        r@ == trim_start_set(v@, set@),
{
    let mut j: usize = 0;
    while j < v.len() && in_set(set, v[j])
        invariant
            0 <= j <= v.len(),
            skip_set(v@, set@, 0) == skip_set(v@, set@, j as int),
        decreases v.len() - j,
    {
        j = j + 1;
    }
    proof {
        lemma_skip_set(v@, set@, 0);
    }
    tail(v, j)
}

/// `str::split_once` on a character.
pub fn split_once_ch(v: &Vec<char>, c: char) -> (r: Option<(Vec<char>, Vec<char>)>)
    ensures
        r matches Some((a, b)) ==> split_once(v@, seq![c]) == Some((a@, b@)),
        r is None ==> split_once(v@, seq![c]) is None,
{
    let p = vec![c];
    assert(p@ =~= seq![c]);
    split_once_exec(v, &p)
}

/// The character sequences of a vector of strings.
pub open spec fn string_views(v: Seq<String>) -> Seq<Seq<char>> {
    Seq::new(v.len(), |i: int| v[i]@)
}

/// The characters of each string of `v`.
pub fn chars_of_all(v: &Vec<String>) -> (r: Vec<Vec<char>>)
    ensures
        views(r@) == string_views(v@),
{
    let mut r: Vec<Vec<char>> = Vec::new();
    let mut i: usize = 0;
    while i < v.len()
        invariant
            0 <= i <= v.len(),
            r@.len() == i,
            forall|k: int| 0 <= k < i ==> (#[trigger] r@[k])@ == v@[k]@,
        decreases v.len() - i,
    {
        r.push(chars_of(v[i].as_str()));
        i = i + 1;
    }
    assert(views(r@) =~= string_views(v@));
    r
}

/// A string for each character vector of `v`.
pub fn strings_of_all(v: &Vec<Vec<char>>) -> (r: Vec<String>)
    ensures
        string_views(r@) == views(v@),
{
    let mut r: Vec<String> = Vec::new();
    let mut i: usize = 0;
    while i < v.len()
        invariant
            0 <= i <= v.len(),
            r@.len() == i,
            forall|k: int| 0 <= k < i ==> (#[trigger] r@[k])@ == v@[k]@,
        decreases v.len() - i,
    {
        r.push(string_of(&v[i]));
        i = i + 1;
    }
    assert(string_views(r@) =~= views(v@));
    r
}

/// A copy of `v`.
pub fn copy_chars(v: &Vec<char>) -> (r: Vec<char>)
    ensures
        r@ == v@,
{
    slice(v, 0, v.len())
}

/// `a` followed by `b`.
pub fn concat_chars(a: &Vec<char>, b: &Vec<char>) -> (r: Vec<char>)
    ensures
        r@ == a@ + b@,
{
    let mut r = copy_chars(a);
    let mut i: usize = 0;
    while i < b.len()
        invariant
            0 <= i <= b.len(),
            r@ == a@ + b@.subrange(0, i as int),
        decreases b.len() - i,
    {
        r.push(b[i]);
        i = i + 1;
        assert(r@ =~= a@ + b@.subrange(0, i as int));
    }
    assert(b@.subrange(0, b@.len() as int) =~= b@);
    r
}

/// Whether two strings hold the same characters.
pub fn str_eq(a: &str, b: &str) -> (r: bool)
    ensures
        r == (a@ == b@),
{
    let x = chars_of(a);
    let y = chars_of(b);
    eq_chars(&x, &y)
}

/// Text that neither starts nor ends with whitespace is its own trim.
pub proof fn lemma_trim_unchanged(t: Seq<char>)
    requires
        t.len() > 0,
        !is_ws(t[0]),
        !is_ws(t[t.len() - 1]),
    ensures
        trim(t) == t,
        trim_start(t) == t,
{
    assert(ws_run_end(t, 0) == 0);
    assert(t.subrange(0, t.len() as int) =~= t);
    assert(ws_run_start(t, t.len() as int) == t.len());
}

/// Splitting at the first occurrence of a character `c`, at index `k`.
pub proof fn lemma_split_once_at(s: Seq<char>, c: char, k: int)
    requires
        0 <= k < s.len(),
        s[k] == c,
        forall|m: int| 0 <= m < k ==> #[trigger] s[m] != c,
    ensures
        split_once(s, seq![c]) == Some((s.subrange(0, k), s.subrange(k + 1, s.len() as int))),
{
    lemma_find_from(s, seq![c], 0);
    assert(s.subrange(k, k + 1) =~= seq![c]);
    assert(occurs_at(s, seq![c], k));
    match find(s, seq![c]) {
        Some(j) => {
            if j < k {
                assert(s.subrange(j, j + 1)[0] == s[j]);
            }
        },
        None => {},
    }
}

} // verus!
