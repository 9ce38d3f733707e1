//! The V2 justfile parser.
use vstd::prelude::*;

use crate::text::{
    chars_of, contains, ends_with, is_ascii_alnum, is_ascii_alpha, is_ascii_ws,
    lemma_skip_set, lemma_ws_run_end, skip_set, slice, split_char, split_once, split_once_exec,
    starts_with, string_of, strip_prefix, tail, trim, trim_start, trim_start_chars,
    trim_start_set, unicode_alphabetic, words, ws_run_end,
};
use crate::text::{
    concat_chars, copy_chars, eq_str, has_prefix, has_suffix, lines, lines_of, split_char_of,
    split_once_ch, split_once_str, starts_with_str, strip_prefix_str, trim_chars,
    trim_start_set_of, views, words_of, char_is_alphabetic, contains_str, in_set,
};
use crate::v2::ast::{
    alias_insert, aliases_unique, default_settings, empty_justfile, models, opt_view, Command,
    Dependency, DependencyModel, Export, ExportModel, Justfile, JustfileModel, Line, LineModel,
    Parameter, ParameterKind, ParameterModel, Recipe, RecipeModel, Settings, SettingsModel,
};
use crate::v2::error::Error;

verus! {

/// A shell identifier as the V2 parser reads one: an ASCII letter or `_`,
/// then ASCII letters, digits and `_`.
pub open spec fn is_shell_identifier(s: Seq<char>) -> bool {
    s.len() > 0 && (is_ascii_alpha(s[0]) || s[0] == '_') && forall|i: int|
        1 <= i < s.len() ==> is_ascii_alnum(#[trigger] s[i]) || s[i] == '_'
}

fn shell_identifier(s: &Vec<char>) -> (r: bool)
    ensures
        r == is_shell_identifier(s@),
{
    if s.len() == 0 {
        return false;
    }
    let c = s[0];
    if !(('a' <= c && c <= 'z') || ('A' <= c && c <= 'Z') || c == '_') {
        return false;
    }
    let mut i: usize = 1;
    while i < s.len()
        invariant
            1 <= i <= s.len(),
            forall|k: int| 1 <= k < i ==> is_ascii_alnum(#[trigger] s@[k]) || s@[k] == '_',
        decreases s.len() - i,
    {
        let c = s[i];
        if !(('a' <= c && c <= 'z') || ('A' <= c && c <= 'Z') || ('0' <= c && c <= '9') || c
            == '_') {
            return false;
        }
        i = i + 1;
    }
    true
}

/// Where the shell word that `s` holds from index `i` on ends, scanning with
/// `depth` open `$(`/`${` groups and `quote` the open quote character, if any.
///
/// Unquoted whitespace outside any group ends a word. A backslash escapes the
/// next character, except inside single quotes or backticks.
pub open spec fn word_scan(s: Seq<char>, i: int, depth: int, quote: Option<char>) -> int
    decreases s.len() + 1 - i,
{
    if i < 0 || i >= s.len() {
        s.len() as int
    } else {
        let c = s[i];
        match quote {
            Some(q) => {
                if q == '"' && c == '\\' {
                    word_scan(s, i + 2, depth, quote)
                } else if c == q {
                    word_scan(s, i + 1, depth, None)
                } else {
                    word_scan(s, i + 1, depth, quote)
                }
            },
            None => {
                if c == '\\' {
                    word_scan(s, i + 2, depth, None)
                } else if c == '\'' || c == '"' || c == '`' {
                    word_scan(s, i + 1, depth, Some(c))
                } else if (c == '(' || c == '{') && i > 0 && s[i - 1] == '$' {
                    word_scan(s, i + 1, depth + 1, None)
                } else if (c == ')' || c == '}') && depth > 0 {
                    word_scan(s, i + 1, depth - 1, None)
                } else if depth == 0 && is_ascii_ws(c) {
                    i
                } else {
                    word_scan(s, i + 1, depth, None)
                }
            },
        }
    }
}

pub proof fn lemma_word_scan(s: Seq<char>, i: int, depth: int, quote: Option<char>)
    requires
        0 <= i,
    ensures
        i <= s.len() ==> i <= word_scan(s, i, depth, quote) <= s.len(),
        i > s.len() ==> word_scan(s, i, depth, quote) == s.len(),
    decreases s.len() + 1 - i,
{
    if i < s.len() {
        let c = s[i];
        match quote {
            Some(q) => {
                if q == '"' && c == '\\' {
                    lemma_word_scan(s, i + 2, depth, quote);
                } else if c == q {
                    lemma_word_scan(s, i + 1, depth, None);
                } else {
                    lemma_word_scan(s, i + 1, depth, quote);
                }
            },
            None => {
                if c == '\\' {
                    lemma_word_scan(s, i + 2, depth, None);
                } else if c == '\'' || c == '"' || c == '`' {
                    lemma_word_scan(s, i + 1, depth, Some(c));
                } else if (c == '(' || c == '{') && i > 0 && s[i - 1] == '$' {
                    lemma_word_scan(s, i + 1, depth + 1, None);
                } else if (c == ')' || c == '}') && depth > 0 {
                    lemma_word_scan(s, i + 1, depth - 1, None);
                } else if depth == 0 && is_ascii_ws(c) {
                } else {
                    lemma_word_scan(s, i + 1, depth, None);
                }
            },
        }
    }
}

/// The next shell word of `s` and the text after it, or `None` when `s` is
/// blank.
pub open spec fn next_word(s: Seq<char>) -> Option<(Seq<char>, Seq<char>)> {
    let t = trim_start(s);
    if t.len() == 0 {
        None
    } else {
        let end = word_scan(t, 0, 0, None);
        Some((t.subrange(0, end), t.subrange(end, t.len() as int)))
    }
}

pub proof fn lemma_next_word_shrinks(s: Seq<char>)
    ensures
        next_word(s) matches Some((w, t)) ==> w.len() > 0 && t.len() < s.len(),
{
    let t = trim_start(s);
    lemma_ws_run_end(s, 0);
    if t.len() > 0 {
        assert(t[0] == s[ws_run_end(s, 0)]);
        assert(!is_ascii_ws(t[0]));
        let c = t[0];
        lemma_word_scan(t, 0, 0, None);
        lemma_word_scan(t, 1, 0, None);
        lemma_word_scan(t, 2, 0, None);
        if c == '\'' || c == '"' || c == '`' {
            lemma_word_scan(t, 1, 0, Some(c));
        }
        assert(word_scan(t, 0, 0, None) >= 1);
    }
}

/// Whether `c` changes how a shell word is scanned: a quote, a backslash,
/// or a grouping bracket.
pub open spec fn is_word_special(c: char) -> bool {
    c == '\\' || c == '\'' || c == '"' || c == '`' || c == '(' || c == ')' || c == '{' || c == '}'
}

proof fn lemma_word_scan_plain(s: Seq<char>, i: int)
    requires
        0 <= i <= s.len(),
        forall|m: int| i <= m < s.len() ==> !is_word_special(#[trigger] s[m]),
    ensures
        i <= word_scan(s, i, 0, None) <= s.len(),
        forall|m: int| i <= m < word_scan(s, i, 0, None) ==> !is_ascii_ws(#[trigger] s[m]),
        word_scan(s, i, 0, None) < s.len() ==> is_ascii_ws(s[word_scan(s, i, 0, None)]),
    decreases s.len() - i,
{
    if i < s.len() {
        assert(!is_word_special(s[i]));
        if !is_ascii_ws(s[i]) {
            lemma_word_scan_plain(s, i + 1);
        }
    }
}

/// Reading the next word splits off a non-empty word from the text with its
/// leading whitespace removed, and the rest follows it unchanged; there is
/// none exactly when the text is blank.
pub proof fn law_next_word_splits(s: Seq<char>)
    ensures
        next_word(s) is None <==> trim_start(s).len() == 0,
        next_word(s) matches Some((w, rest)) ==> w.len() > 0 && w + rest == trim_start(s),
{
    lemma_next_word_shrinks(s);
    let t = trim_start(s);
    if t.len() > 0 {
        lemma_word_scan(t, 0, 0, None);
        let end = word_scan(t, 0, 0, None);
        assert(t.subrange(0, end) + t.subrange(end, t.len() as int) =~= t);
    }
}

/// Without quotes, backslashes or brackets, a word is the text up to the
/// first whitespace: it holds none, and the rest is empty or starts with
/// whitespace.
pub proof fn law_next_word_plain(s: Seq<char>)
    requires
        forall|m: int| 0 <= m < trim_start(s).len() ==> !is_word_special(#[trigger] trim_start(s)[m]),
    ensures
        next_word(s) matches Some((w, rest)) ==> (forall|m: int|
            0 <= m < w.len() ==> !is_ascii_ws(#[trigger] w[m])) && (rest.len() == 0 || is_ascii_ws(
            rest[0],
        )),
{
    let t = trim_start(s);
    if t.len() > 0 {
        lemma_word_scan_plain(t, 0);
        let end = word_scan(t, 0, 0, None);
        let w = t.subrange(0, end);
        assert forall|m: int| 0 <= m < w.len() implies !is_ascii_ws(#[trigger] w[m]) by {
            assert(w[m] == t[m]);
        }
        if end < t.len() {
            assert(t.subrange(end, t.len() as int)[0] == t[end]);
        }
    }
}

/// The leading run of `NAME=VALUE` words of `rest` and the text after it.
pub open spec fn leading_assignments(rest: Seq<char>) -> (Seq<(Seq<char>, Seq<char>)>, Seq<char>)
    decreases rest.len(),
{
    match next_word(rest) {
        None => (seq![], rest),
        Some((word, after)) => {
            match split_once(word, seq!['=']) {
                None => (seq![], rest),
                Some((name, value)) => {
                    if !is_shell_identifier(name) || (value.len() > 0 && value[0] == '=') {
                        (seq![], rest)
                    } else {
                        proof {
                            lemma_next_word_shrinks(rest);
                        }
                        let (more, remainder) = leading_assignments(after);
                        (seq![(name, value)] + more, remainder)
                    }
                },
            }
        },
    }
}

/// What `split_leading_assignments` returns for `content`.
pub open spec fn spec_split_leading_assignments(content: Seq<char>) -> (
    Seq<(Seq<char>, Seq<char>)>,
    Seq<char>,
) {
    leading_assignments(trim_start(content))
}

/// The character sequences of a vector of name/value pairs.
pub open spec fn pair_views(v: Seq<(Vec<char>, Vec<char>)>) -> Seq<(Seq<char>, Seq<char>)> {
    Seq::new(v.len(), |i: int| (v[i].0@, v[i].1@))
}

/// The character sequences of a vector of string pairs.
pub open spec fn string_pairs(v: Seq<(String, String)>) -> Seq<(Seq<char>, Seq<char>)> {
    Seq::new(v.len(), |i: int| (v[i].0@, v[i].1@))
}

fn next_word_exec(s: &Vec<char>) -> (r: Option<(Vec<char>, Vec<char>)>)
    ensures
        r matches Some((w, t)) ==> next_word(s@) == Some((w@, t@)),
        r is None ==> next_word(s@) is None,
{
    let t = trim_start_chars(s);
    if t.len() == 0 {
        return None;
    }
    let mut depth: usize = 0;
    let mut quote: Option<char> = None;
    let mut i: usize = 0;
    while i < t.len()
        invariant
            0 <= i <= t.len(),
            depth <= i,
            word_scan(t@, 0, 0, None) == word_scan(t@, i as int, depth as int, quote),
        ensures
            i <= t.len(),
            word_scan(t@, 0, 0, None) == i,
        decreases t.len() - i,
    {
        let c = t[i];
        let mut step: usize = 1;
        match quote {
            Some(q) => {
                if q == '"' && c == '\\' {
                    step = 2;
                } else if c == q {
                    quote = None;
                }
            },
            None => {
                if c == '\\' {
                    step = 2;
                } else if c == '\'' || c == '"' || c == '`' {
                    quote = Some(c);
                } else if (c == '(' || c == '{') && i > 0 && t[i - 1] == '$' {
                    depth = depth + 1;
                } else if (c == ')' || c == '}') && depth > 0 {
                    depth = depth - 1;
                } else if depth == 0 && (c == ' ' || c == '\t' || c == '\n' || c == '\x0C' || c
                    == '\r') {
                    assert(word_scan(t@, i as int, depth as int, quote) == i);
                    break ;
                }
            },
        }
        if step == 2 && i + 1 >= t.len() {
            proof {
                lemma_word_scan(t@, i + 2, depth as int, quote);
            }
            i = t.len();
        } else {
            i = i + step;
        }
    }
    let end = i;
    assert(word_scan(t@, 0, 0, None) == end);
    proof {
        lemma_word_scan(t@, i as int, depth as int, quote);
    }
    Some((slice(&t, 0, end), tail(&t, end)))
}

/// Split the leading run of `NAME=VALUE` shell words off a line.
pub fn split_assignments_chars(content: &Vec<char>) -> (r: (Vec<(Vec<char>, Vec<char>)>, Vec<char>))
    ensures
        (pair_views(r.0@), r.1@) == spec_split_leading_assignments(content@),
{
    let mut assignments: Vec<(Vec<char>, Vec<char>)> = Vec::new();
    let mut rest = trim_start_chars(content);
    loop
        invariant
            ({
                let (more, remainder) = leading_assignments(rest@);
                (pair_views(assignments@) + more, remainder) == spec_split_leading_assignments(
                    content@,
                )
            }),
        decreases rest@.len(),
    {
        let ghost before = rest@;
        let eq = chars_of("=");
        proof {
            reveal_strlit("=");
            assert(eq@ =~= seq!['=']);
        }
        match next_word_exec(&rest) {
            None => {
                assert(pair_views(assignments@) + seq![] =~= pair_views(assignments@));
                return (assignments, rest);
            },
            Some((word, after)) => {
                match split_once_exec(&word, &eq) {
                    None => {
                        assert(pair_views(assignments@) + seq![] =~= pair_views(assignments@));
                        return (assignments, rest);
                    },
                    Some((name, value)) => {
                        if !shell_identifier(&name) || (value.len() > 0 && value[0] == '=') {
                            assert(pair_views(assignments@) + seq![] =~= pair_views(
                                assignments@,
                            ));
                            return (assignments, rest);
                        }
                        proof {
                            lemma_next_word_shrinks(before);
                        }
                        let ghost old_a = pair_views(assignments@);
                        assignments.push((name, value));
                        proof {
                            let (more, remainder) = leading_assignments(after@);
                            assert(pair_views(assignments@) =~= old_a.push((name@, value@)));
                            assert(pair_views(assignments@) + more =~= old_a + (seq![
                                (name@, value@),
                            ] + more));
                        }
                        rest = after;
                    },
                }
            },
        }
    }
}

/// Split the leading run of `NAME=VALUE` shell words off a line, returning
/// them and whatever text follows.
///
/// Values are kept verbatim, quotes and all. Words are split on unquoted
/// whitespace, so a value may contain spaces when they are quoted
/// (`BAR="x y"`) or inside a command substitution (`BAR=$(echo x y)`).
pub fn split_leading_assignments(content: &str) -> (r: (Vec<(String, String)>, String))
    ensures
        (string_pairs(r.0@), r.1@) == spec_split_leading_assignments(content@),
{
    let v = chars_of(content);
    let (pairs, rest) = split_assignments_chars(&v);
    let mut out: Vec<(String, String)> = Vec::new();
    let mut i: usize = 0;
    while i < pairs.len()
        invariant
            0 <= i <= pairs.len(),
            out@.len() == i,
            forall|k: int|
                0 <= k < i ==> (#[trigger] out@[k]).0@ == pairs@[k].0@ && out@[k].1@
                    == pairs@[k].1@,
        decreases pairs.len() - i,
    {
        let name = string_of(&pairs[i].0);
        let value = string_of(&pairs[i].1);
        out.push((name, value));
        i = i + 1;
    }
    assert(string_pairs(out@) =~= pair_views(pairs@));
    (out, string_of(&rest))
}

// ---------------------------------------------------------------------------
// The grammar
// ---------------------------------------------------------------------------
/// `s` without leading and trailing `c` (`str::trim_matches` on a character).
pub open spec fn trim_char(s: Seq<char>, c: char) -> Seq<char> {
    let t = trim_start_set(s, seq![c]);
    t.subrange(0, rskip_char(t, c, t.len() as int))
}

/// The start of the run of `c` that ends at `j`.
pub open spec fn rskip_char(s: Seq<char>, c: char, j: int) -> int
    decreases j,
{
    if 0 < j <= s.len() && s[j - 1] == c {
        rskip_char(s, c, j - 1)
    } else {
        j
    }
}

pub proof fn lemma_rskip_char(s: Seq<char>, c: char, j: int)
    requires
        0 <= j <= s.len(),
    ensures
        0 <= rskip_char(s, c, j) <= j,
    decreases j,
{
    if 0 < j && s[j - 1] == c {
        lemma_rskip_char(s, c, j - 1);
    }
}

/// A value with one matching pair of surrounding quotes removed, after
/// trimming; `None` for a lone quote character, on which the value cannot be
/// unquoted.
pub open spec fn quoted_value(s: Seq<char>) -> Option<Seq<char>> {
    let t = trim(s);
    if (starts_with(t, seq!['"']) && ends_with(t, seq!['"'])) || (starts_with(t, seq!['\''])
        && ends_with(t, seq!['\''])) {
        if t.len() >= 2 {
            Some(t.subrange(1, t.len() - 1))
        } else {
            None
        }
    } else {
        Some(t)
    }
}

/// The unquoted, non-empty items of the comma-separated pieces `parts`.
pub open spec fn array_items(parts: Seq<Seq<char>>) -> Option<Seq<Seq<char>>>
    decreases parts.len(),
{
    if parts.len() == 0 {
        Some(seq![])
    } else {
        match array_items(parts.drop_last()) {
            None => None,
            Some(prev) => match quoted_value(trim(parts.last())) {
                None => None,
                Some(item) => if item.len() > 0 {
                    Some(prev.push(item))
                } else {
                    Some(prev)
                },
            },
        }
    }
}

/// A `["foo", "bar"]` list: brackets optional, items comma-separated, quotes
/// removed, empty items dropped. `None` when an item is a lone quote.
pub open spec fn string_array(s: Seq<char>) -> Option<Seq<Seq<char>>> {
    let t = trim(s);
    let t1 = if t.len() > 0 && t[0] == '[' {
        t.drop_first()
    } else {
        t
    };
    let t2 = if t1.len() > 0 && t1.last() == ']' {
        t1.drop_last()
    } else {
        t1
    };
    array_items(split_char(t2, ','))
}

/// The settings after the `set` line `t`; `None` when its value cannot be
/// read. `set dotenv = false` turns `.env` loading off, `set dotenv = true`
/// on; any other value names the `.env` file to load.
pub open spec fn apply_setting(settings: SettingsModel, t: Seq<char>) -> Option<SettingsModel> {
    let rest = trim(t.subrange(4, t.len() as int));
    match split_once(rest, seq!['=']) {
        Some((n, v)) => {
            let name = trim(n);
            let value = trim_char(trim_char(trim(v), '"'), '\'');
            if name == "dotenv"@ && value == "false"@ {
                Some(SettingsModel { dotenv: false, ..settings })
            } else if name == "dotenv"@ && value == "true"@ {
                Some(SettingsModel { dotenv: true, ..settings })
            } else if name == "dotenv"@ {
                Some(
                    SettingsModel {
                        dotenv: true,
                        dotenv_path: if value.len() > 0 {
                            Some(value)
                        } else {
                            settings.dotenv_path
                        },
                        ..settings
                    },
                )
            } else if name == "venv"@ {
                Some(SettingsModel { venv: Some(value), ..settings })
            } else if name == "shell"@ {
                match string_array(value) {
                    Some(a) => Some(SettingsModel { shell: Some(a), ..settings }),
                    None => None,
                }
            } else {
                Some(settings)
            }
        },
        None => {
            if rest == "next"@ {
                Some(SettingsModel { next: true, ..settings })
            } else if rest == "dotenv"@ {
                Some(SettingsModel { dotenv: true, ..settings })
            } else if rest == "export"@ {
                Some(SettingsModel { export: true, ..settings })
            } else if rest == "positional-arguments"@ {
                Some(SettingsModel { positional_arguments: true, ..settings })
            } else {
                Some(settings)
            }
        },
    }
}

/// The export an `export` line `t` declares, if it has a `=`; the outer
/// `None` when its value cannot be read.
pub open spec fn export_of(t: Seq<char>) -> Option<Option<ExportModel>> {
    let rest = trim(t.subrange(7, t.len() as int));
    match split_once(rest, seq!['=']) {
        Some((n, v)) => match quoted_value(trim(v)) {
            Some(value) => Some(Some(ExportModel { name: trim(n), value })),
            None => None,
        },
        None => Some(None),
    }
}

/// The name and target of an `alias` line `t`: `name := target` or
/// `name = target`.
pub open spec fn alias_parts(t: Seq<char>) -> Option<(Seq<char>, Seq<char>)> {
    let rest = trim(t.subrange(6, t.len() as int));
    match split_once(rest, ":="@) {
        Some((n, tg)) => Some((trim(n), trim(tg))),
        None => match split_once(rest, seq!['=']) {
            Some((n, tg)) => Some((trim(n), trim(tg))),
            None => None,
        },
    }
}

/// A recipe header: starts with a letter, `_` or `@`, and holds a `:` that
/// is not part of `:=`.
pub open spec fn is_recipe_header(t: Seq<char>) -> bool {
    t.len() > 0 && (unicode_alphabetic(t[0]) || t[0] == '_' || t[0] == '@') && t.contains(':')
        && !contains(t, ":="@)
}

/// The parameter a header word declares; `None` when its default cannot be
/// read.
pub open spec fn parameter_of(part: Seq<char>) -> Option<ParameterModel> {
    let (kind, np) = if part.len() > 0 && part[0] == '*' {
        (ParameterKind::Variadic, part.drop_first())
    } else if part.len() > 0 && part[0] == '+' {
        (ParameterKind::PlusVariadic, part.drop_first())
    } else {
        (ParameterKind::Normal, part)
    };
    match split_once(np, seq!['=']) {
        Some((n, d)) => match quoted_value(d) {
            Some(q) => Some(ParameterModel { name: n, kind, default: Some(q) }),
            None => None,
        },
        None => Some(ParameterModel { name: np, kind, default: None }),
    }
}

/// A header word `NAME="v"` or `NAME='v'` declares a parameter `NAME`
/// without `*` or `+` whose default is `v`, with the surrounding quotes
/// removed.
pub proof fn law_quoted_default_is_unquoted(name: Seq<char>, q: char, v: Seq<char>)
    requires
        name.len() > 0,
        name[0] != '*',
        name[0] != '+',
        !name.contains('='),
        q == '"' || q == '\'',
    ensures
        parameter_of(name + seq!['='] + seq![q] + v + seq![q]) == Some(
            ParameterModel { name, kind: ParameterKind::Normal, default: Some(v) },
        ),
{
    let part = name + seq!['='] + seq![q] + v + seq![q];
    let k = name.len() as int;
    assert(part[0] == name[0]);
    assert(part[k] == '=');
    assert forall|m: int| 0 <= m < k implies #[trigger] part[m] != '=' by {
        assert(part[m] == name[m]);
        if part[m] == '=' {
            assert(name.contains('='));
        }
    }
    crate::text::lemma_split_once_at(part, '=', k);
    assert(part.subrange(0, k) =~= name);
    let d = part.subrange(k + 1, part.len() as int);
    assert(d =~= seq![q] + v + seq![q]);
    assert(!crate::text::is_ws(d[0]));
    assert(!crate::text::is_ws(d[d.len() - 1]));
    crate::text::lemma_trim_unchanged(d);
    assert(d.subrange(0, 1) =~= seq![q]);
    assert(d.subrange(d.len() - 1, d.len() as int) =~= seq![q]);
    assert(d.subrange(1, d.len() - 1) =~= v);
}

/// The parameters the header words `ws` declare.
pub open spec fn parameters_of(ws: Seq<Seq<char>>) -> Option<Seq<ParameterModel>>
    decreases ws.len(),
{
    if ws.len() == 0 {
        Some(seq![])
    } else {
        match parameters_of(ws.drop_last()) {
            None => None,
            Some(prev) => match parameter_of(ws.last()) {
                None => None,
                Some(p) => Some(prev.push(p)),
            },
        }
    }
}

/// The dependencies the text after a header's `:` names.
pub open spec fn dependencies_of(deps: Seq<char>) -> Seq<DependencyModel> {
    let ws = words(deps);
    Seq::new(ws.len(), |i: int| DependencyModel { recipe: ws[i], arguments: seq![] })
}

/// The body lines one recipe-body text `content` stands for.
pub open spec fn recipe_line(content: Seq<char>) -> Seq<LineModel> {
    let (quiet, c1) = if content.len() > 0 && content[0] == '@' {
        (true, trim_start(content.drop_first()))
    } else {
        (false, content)
    };
    let (ignore_errors, c2) = if c1.len() > 0 && c1[0] == '-' {
        (true, trim_start(c1.drop_first()))
    } else {
        (false, c1)
    };
    let exported = match strip_prefix(c2, "export "@) {
        Some(rest) => {
            let (a, r) = spec_split_leading_assignments(rest);
            if a.len() > 0 && r.len() == 0 {
                Some(Seq::new(a.len(), |i: int| LineModel::Export { name: a[i].0, value: a[i].1 }))
            } else {
                None
            }
        },
        None => None,
    };
    match exported {
        Some(ls) => ls,
        None => {
            let (a, r) = spec_split_leading_assignments(c2);
            if a.len() > 0 && r.len() == 0 {
                Seq::new(a.len(), |i: int| LineModel::Assignment { name: a[i].0, value: a[i].1 })
            } else {
                seq![LineModel::Command { text: c2, quiet, ignore_errors }]
            }
        },
    }
}

/// A recipe body read from line `pos` on, after `acc` and `shebang`: the body
/// lines, the shebang, and the index of the first line after the body.
///
/// Body lines are indented; completely empty lines do not end the body; a
/// first line starting `#!` is the shebang.
pub open spec fn body_from(
    ls: Seq<Seq<char>>,
    pos: int,
    acc: Seq<LineModel>,
    shebang: Option<Seq<char>>,
) -> (Seq<LineModel>, Option<Seq<char>>, int)
    decreases ls.len() - pos,
{
    if pos < 0 || pos >= ls.len() {
        (acc, shebang, pos)
    } else {
        let line = ls[pos];
        if line.len() == 0 {
            body_from(ls, pos + 1, acc, shebang)
        } else if !(line[0] == ' ' || line[0] == '\t') {
            (acc, shebang, pos)
        } else {
            let content = trim_start(line);
            if content.len() == 0 {
                body_from(ls, pos + 1, acc, shebang)
            } else if acc.len() == 0 && shebang is None && starts_with(content, "#!"@) {
                body_from(ls, pos + 1, acc, Some(content))
            } else {
                body_from(ls, pos + 1, acc + recipe_line(content), shebang)
            }
        }
    }
}

pub proof fn lemma_body_from(
    ls: Seq<Seq<char>>,
    pos: int,
    acc: Seq<LineModel>,
    shebang: Option<Seq<char>>,
)
    requires
        0 <= pos <= ls.len(),
    ensures
        pos <= body_from(ls, pos, acc, shebang).2 <= ls.len(),
    decreases ls.len() - pos,
{
    if pos < ls.len() {
        let line = ls[pos];
        if line.len() == 0 {
            lemma_body_from(ls, pos + 1, acc, shebang);
        } else if !(line[0] == ' ' || line[0] == '\t') {
        } else {
            let content = trim_start(line);
            if content.len() == 0 {
                lemma_body_from(ls, pos + 1, acc, shebang);
            } else if acc.len() == 0 && shebang is None && starts_with(content, "#!"@) {
                lemma_body_from(ls, pos + 1, acc, Some(content));
            } else {
                lemma_body_from(ls, pos + 1, acc + recipe_line(content), shebang);
            }
        }
    }
}

/// What reading the recipe whose header is line `pos` gives.
pub enum RecipeOutcome {
    /// The recipe, and the index of the first line after it.
    Read(RecipeModel, int),
    /// A parse error at this line.
    Failed(nat, Seq<char>),
    /// The header or a parameter cannot be read at all.
    Unreadable,
}

/// The recipe whose header is line `pos`.
pub open spec fn recipe_at(ls: Seq<Seq<char>>, pos: int) -> RecipeOutcome {
    let t = trim(ls[pos]);
    let (quiet, h) = if t.len() > 0 && t[0] == '@' {
        (true, t.drop_first())
    } else {
        (false, t)
    };
    match split_once(h, seq![':']) {
        None => RecipeOutcome::Failed((pos + 1) as nat, "recipe header missing colon"@),
        Some((pp, dp)) => {
            let ws = words(pp);
            if ws.len() == 0 {
                RecipeOutcome::Unreadable
            } else {
                match parameters_of(ws.skip(1)) {
                    None => RecipeOutcome::Unreadable,
                    Some(params) => {
                        let (body, shebang, next) = body_from(ls, pos + 1, seq![], None);
                        RecipeOutcome::Read(
                            RecipeModel {
                                name: ws[0],
                                doc: None,
                                parameters: params,
                                dependencies: dependencies_of(trim(dp)),
                                body,
                                quiet,
                                shebang,
                            },
                            next,
                        )
                    },
                }
            }
        },
    }
}

pub proof fn lemma_recipe_at_next(ls: Seq<Seq<char>>, pos: int)
    requires
        0 <= pos < ls.len(),
    ensures
        recipe_at(ls, pos) matches RecipeOutcome::Read(_r, next) ==> pos < next <= ls.len(),
{
    lemma_body_from(ls, pos + 1, seq![], None);
}

/// What parsing a justfile gives.
pub enum ParseOutcome {
    /// The justfile.
    Parsed(JustfileModel),
    /// A parse error: its 1-based line and message.
    Failed(nat, Seq<char>),
    /// A line the parser cannot read at all: a recipe header with no name
    /// (`@:`), or a lone quote character where a quoted value belongs.
    Unreadable,
}

/// The doc comment a comment line `t` carries, replacing `doc`.
pub open spec fn doc_after(t: Seq<char>, doc: Option<Seq<char>>) -> Option<Seq<char>> {
    if starts_with(t, "# "@) || t == "#"@ {
        Some(trim(trim_start_set(t, seq!['#'])))
    } else {
        doc
    }
}

/// Parse lines `pos..` into `jf`, with `doc` the pending doc comment.
pub open spec fn parse_from(
    ls: Seq<Seq<char>>,
    pos: int,
    jf: JustfileModel,
    doc: Option<Seq<char>>,
) -> ParseOutcome
    decreases ls.len() - pos,
{
    if pos < 0 || pos >= ls.len() {
        ParseOutcome::Parsed(jf)
    } else {
        let t = trim(ls[pos]);
        if t.len() == 0 {
            parse_from(ls, pos + 1, jf, None)
        } else if t[0] == '#' {
            parse_from(ls, pos + 1, jf, doc_after(t, doc))
        } else if starts_with(t, "set "@) {
            match apply_setting(jf.settings, t) {
                Some(settings) => parse_from(ls, pos + 1, JustfileModel { settings, ..jf }, None),
                None => ParseOutcome::Unreadable,
            }
        } else if starts_with(t, "export "@) {
            match export_of(t) {
                None => ParseOutcome::Unreadable,
                Some(None) => parse_from(ls, pos + 1, jf, None),
                Some(Some(e)) => parse_from(
                    ls,
                    pos + 1,
                    JustfileModel { exports: jf.exports.push(e), ..jf },
                    None,
                ),
            }
        } else if starts_with(t, "alias "@) {
            match alias_parts(t) {
                Some((name, target)) => parse_from(
                    ls,
                    pos + 1,
                    JustfileModel { aliases: alias_insert(jf.aliases, name, target), ..jf },
                    None,
                ),
                None => ParseOutcome::Failed((pos + 1) as nat, "invalid alias syntax"@),
            }
        } else if is_recipe_header(t) {
            match recipe_at(ls, pos) {
                RecipeOutcome::Read(r, next) => {
                    proof {
                        lemma_recipe_at_next(ls, pos);
                    }
                    parse_from(
                        ls,
                        next,
                        JustfileModel { recipes: jf.recipes.push(RecipeModel { doc, ..r }), ..jf },
                        None,
                    )
                },
                RecipeOutcome::Failed(line, message) => ParseOutcome::Failed(line, message),
                RecipeOutcome::Unreadable => ParseOutcome::Unreadable,
            }
        } else {
            ParseOutcome::Failed((pos + 1) as nat, "unexpected line: "@ + t)
        }
    }
}

/// What [`parse`] gives for `input`.
pub open spec fn spec_parse(input: Seq<char>) -> ParseOutcome {
    parse_from(crate::text::lines(input), 0, empty_justfile(), None)
}

// ---------------------------------------------------------------------------
// The parser
// ---------------------------------------------------------------------------
fn trim_char_exec(v: &Vec<char>, c: char) -> (r: Vec<char>)
    ensures
        r@ == trim_char(v@, c),
{
    let set = vec![c];
    assert(set@ =~= seq![c]);
    let t = trim_start_set_of(v, &set);
    let mut j = t.len();
    while j > 0 && t[j - 1] == c
        invariant
            0 <= j <= t.len(),
            rskip_char(t@, c, t@.len() as int) == rskip_char(t@, c, j as int),
        decreases j,
    {
        j = j - 1;
    }
    slice(&t, 0, j)
}

fn quoted_value_exec(s: &Vec<char>) -> (r: Option<Vec<char>>)
    ensures
        r matches Some(q) ==> quoted_value(s@) == Some(q@),
        r is None ==> quoted_value(s@) is None,
{
    let t = trim_chars(s);
    let dq = vec!['"'];
    let sq = vec!['\''];
    assert(dq@ =~= seq!['"']);
    assert(sq@ =~= seq!['\'']);
    if (has_prefix(&t, &dq) && has_suffix(&t, &dq)) || (has_prefix(&t, &sq) && has_suffix(
        &t,
        &sq,
    )) {
        if t.len() >= 2 {
            Some(slice(&t, 1, t.len() - 1))
        } else {
            None
        }
    } else {
        Some(t)
    }
}

#[verifier::loop_isolation(false)]
fn string_array_exec(s: &Vec<char>) -> (r: Option<Vec<Vec<char>>>)
    ensures
        r matches Some(a) ==> string_array(s@) == Some(views(a@)),
        r is None ==> string_array(s@) is None,
{
    let t = trim_chars(s);
    let t1 = if t.len() > 0 && t[0] == '[' {
        tail(&t, 1)
    } else {
        t
    };
    assert(t@.len() > 0 && t@[0] == '[' ==> t1@ =~= t@.drop_first());
    let t2 = if t1.len() > 0 && t1[t1.len() - 1] == ']' {
        slice(&t1, 0, t1.len() - 1)
    } else {
        t1
    };
    assert(t1@.len() > 0 && t1@.last() == ']' ==> t2@ =~= t1@.drop_last());
    let parts = split_char_of(&t2, ',');
    let ghost ps = views(parts@);
    let mut items: Vec<Vec<char>> = Vec::new();
    let mut i: usize = 0;
    while i < parts.len()
        invariant
            0 <= i <= parts.len(),
            ps == views(parts@),
            array_items(ps.take(i as int)) == Some(views(items@)),
        decreases parts.len() - i,
    {
        let p = trim_chars(&parts[i]);
        proof {
            assert(ps.take(i + 1).drop_last() =~= ps.take(i as int));
            assert(ps.take(i + 1).last() == parts@[i as int]@);
        }
        match quoted_value_exec(&p) {
            None => {
                proof {
                    assert(array_items(ps.take(i + 1)) is None);
                    lemma_array_items_none(ps, i as int + 1);
                }
                return None;
            },
            Some(item) => {
                if item.len() > 0 {
                    let ghost old_items = views(items@);
                    items.push(item);
                    assert(views(items@) =~= old_items.push(item@));
                }
            },
        }
        i = i + 1;
    }
    assert(ps.take(ps.len() as int) =~= ps);
    Some(items)
}

proof fn lemma_array_items_none(ps: Seq<Seq<char>>, k: int)
    requires
        0 <= k <= ps.len(),
        array_items(ps.take(k)) is None,
    ensures
        array_items(ps) is None,
    decreases ps.len() - k,
{
    if k < ps.len() {
        assert(ps.take(k + 1).drop_last() =~= ps.take(k));
        lemma_array_items_none(ps, k + 1);
    } else {
        assert(ps.take(k) =~= ps);
    }
}

fn apply_setting_exec(settings: &mut Settings, t: &Vec<char>) -> (r: bool)
    requires
        starts_with(t@, "set "@),
    ensures
        r ==> apply_setting(old(settings)@, t@) == Some(final(settings)@),
        !r ==> apply_setting(old(settings)@, t@) is None,
{
    proof {
        reveal_strlit("set ");
    }
    let after = tail(t, 4);
    let rest = trim_chars(&after);
    match split_once_ch(&rest, '=') {
        Some((n, v)) => {
            let name = trim_chars(&n);
            let v1 = trim_chars(&v);
            let v2 = trim_char_exec(&v1, '"');
            let value = trim_char_exec(&v2, '\'');
            if eq_str(&name, "dotenv") && eq_str(&value, "false") {
                settings.dotenv = false;
                true
            } else if eq_str(&name, "dotenv") && eq_str(&value, "true") {
                settings.dotenv = true;
                true
            } else if eq_str(&name, "dotenv") {
                settings.dotenv = true;
                if value.len() > 0 {
                    settings.dotenv_path = Some(string_of(&value));
                }
                true
            } else if eq_str(&name, "venv") {
                settings.venv = Some(string_of(&value));
                true
            } else if eq_str(&name, "shell") {
                match string_array_exec(&value) {
                    Some(a) => {
                        let items = crate::text::strings_of_all(&a);
                        settings.shell = Some(items);
                        assert(settings@.shell == Some(views(a@)));
                        true
                    },
                    None => false,
                }
            } else {
                true
            }
        },
        None => {
            if eq_str(&rest, "next") {
                settings.next = true;
            } else if eq_str(&rest, "dotenv") {
                settings.dotenv = true;
            } else if eq_str(&rest, "export") {
                settings.export = true;
            } else if eq_str(&rest, "positional-arguments") {
                settings.positional_arguments = true;
            }
            true
        },
    }
}

fn export_exec(t: &Vec<char>) -> (r: Option<Option<Export>>)
    requires
        starts_with(t@, "export "@),
    ensures
        r matches Some(Some(e)) ==> export_of(t@) == Some(Some(e@)),
        r matches Some(None) ==> export_of(t@) == Some(None::<ExportModel>),
        r is None ==> export_of(t@) is None,
{
    proof {
        reveal_strlit("export ");
    }
    let after = tail(t, 7);
    let rest = trim_chars(&after);
    match split_once_ch(&rest, '=') {
        Some((n, v)) => {
            let v1 = trim_chars(&v);
            match quoted_value_exec(&v1) {
                Some(value) => {
                    let name = trim_chars(&n);
                    Some(Some(Export { name: string_of(&name), value: string_of(&value) }))
                },
                None => None,
            }
        },
        None => Some(None),
    }
}

fn alias_parts_exec(t: &Vec<char>) -> (r: Option<(Vec<char>, Vec<char>)>)
    requires
        starts_with(t@, "alias "@),
    ensures
        r matches Some((n, g)) ==> alias_parts(t@) == Some((n@, g@)),
        r is None ==> alias_parts(t@) is None,
{
    proof {
        reveal_strlit("alias ");
    }
    let after = tail(t, 6);
    let rest = trim_chars(&after);
    match split_once_str(&rest, ":=") {
        Some((n, g)) => Some((trim_chars(&n), trim_chars(&g))),
        None => match split_once_ch(&rest, '=') {
            Some((n, g)) => Some((trim_chars(&n), trim_chars(&g))),
            None => None,
        },
    }
}

fn is_recipe_header_exec(t: &Vec<char>) -> (r: bool)
    ensures
        r == is_recipe_header(t@),
{
    t.len() > 0 && (char_is_alphabetic(t[0]) || t[0] == '_' || t[0] == '@') && in_set(t, ':')
        && !contains_str(t, ":=")
}

fn parameter_exec(part: &Vec<char>) -> (r: Option<Parameter>)
    ensures
        r matches Some(p) ==> parameter_of(part@) == Some(p@),
        r is None ==> parameter_of(part@) is None,
{
    let (kind, np) = if part.len() > 0 && part[0] == '*' {
        (ParameterKind::Variadic, tail(part, 1))
    } else if part.len() > 0 && part[0] == '+' {
        (ParameterKind::PlusVariadic, tail(part, 1))
    } else {
        (ParameterKind::Normal, copy_chars(part))
    };
    assert(part@.len() > 0 && (part@[0] == '*' || part@[0] == '+') ==> np@ =~= part@.drop_first());
    match split_once_ch(&np, '=') {
        Some((n, d)) => match quoted_value_exec(&d) {
            Some(q) => Some(Parameter { name: string_of(&n), kind, default: Some(string_of(&q)) }),
            None => None,
        },
        None => Some(Parameter { name: string_of(&np), kind, default: None }),
    }
}

fn parameters_exec(ws: &Vec<Vec<char>>) -> (r: Option<Vec<Parameter>>)
    requires
        ws.len() >= 1,
    ensures
        r matches Some(ps) ==> parameters_of(views(ws@).skip(1)) == Some(models(ps@)),
        r is None ==> parameters_of(views(ws@).skip(1)) is None,
{
    let ghost parts = views(ws@).skip(1);
    let mut params: Vec<Parameter> = Vec::new();
    assert(models(params@) =~= seq![]);
    assert(parts.take(0) =~= seq![]);
    let mut i: usize = 1;
    while i < ws.len()
        invariant
            1 <= i <= ws.len(),
            parts == views(ws@).skip(1),
            parameters_of(parts.take(i - 1)) == Some(models(params@)),
        decreases ws.len() - i,
    {
        proof {
            assert(parts.take(i as int).drop_last() =~= parts.take(i - 1));
            assert(parts.take(i as int).last() == ws@[i as int]@);
        }
        match parameter_exec(&ws[i]) {
            None => {
                proof {
                    lemma_parameters_none(parts, i as int);
                }
                return None;
            },
            Some(p) => {
                let ghost old_p = models(params@);
                params.push(p);
                assert(models(params@) =~= old_p.push(p@));
            },
        }
        i = i + 1;
    }
    assert(parts.take(ws.len() - 1) =~= parts);
    Some(params)
}

proof fn lemma_parameters_none(ps: Seq<Seq<char>>, k: int)
    requires
        0 <= k <= ps.len(),
        parameters_of(ps.take(k)) is None,
    ensures
        parameters_of(ps) is None,
    decreases ps.len() - k,
{
    if k < ps.len() {
        assert(ps.take(k + 1).drop_last() =~= ps.take(k));
        lemma_parameters_none(ps, k + 1);
    } else {
        assert(ps.take(k) =~= ps);
    }
}

fn dependencies_exec(deps: &Vec<char>) -> (r: Vec<Dependency>)
    ensures
        models(r@) == dependencies_of(deps@),
{
    let ws = words_of(deps);
    let mut r: Vec<Dependency> = Vec::new();
    let mut i: usize = 0;
    while i < ws.len()
        invariant
            0 <= i <= ws.len(),
            r@.len() == i,
            forall|k: int|
                0 <= k < i ==> (#[trigger] r@[k])@ == (DependencyModel {
                    recipe: ws@[k]@,
                    arguments: seq![],
                }),
        decreases ws.len() - i,
    {
        let d = Dependency { recipe: string_of(&ws[i]), arguments: Vec::new() };
        assert(d@.arguments =~= seq![]);
        r.push(d);
        i = i + 1;
    }
    proof {
        assert forall|k: int| 0 <= k < r@.len() implies models(r@)[k] == dependencies_of(
            deps@,
        )[k] by {
            assert(views(ws@)[k] == ws@[k]@);
        }
    }
    assert(models(r@) =~= dependencies_of(deps@));
    r
}

fn assignment_lines(pairs: &Vec<(Vec<char>, Vec<char>)>, export: bool) -> (r: Vec<Line>)
    ensures
        models(r@) == (if export {
            Seq::new(
                pair_views(pairs@).len(),
                |i: int|
                    LineModel::Export {
                        name: pair_views(pairs@)[i].0,
                        value: pair_views(pairs@)[i].1,
                    },
            )
        } else {
            Seq::new(
                pair_views(pairs@).len(),
                |i: int|
                    LineModel::Assignment {
                        name: pair_views(pairs@)[i].0,
                        value: pair_views(pairs@)[i].1,
                    },
            )
        }),
{
    let mut r: Vec<Line> = Vec::new();
    let mut i: usize = 0;
    while i < pairs.len()
        invariant
            0 <= i <= pairs.len(),
            r@.len() == i,
            forall|k: int|
                0 <= k < i ==> (#[trigger] r@[k])@ == (if export {
                    LineModel::Export { name: pairs@[k].0@, value: pairs@[k].1@ }
                } else {
                    LineModel::Assignment { name: pairs@[k].0@, value: pairs@[k].1@ }
                }),
        decreases pairs.len() - i,
    {
        let name = string_of(&pairs[i].0);
        let value = string_of(&pairs[i].1);
        if export {
            r.push(Line::Export { name, value });
        } else {
            r.push(Line::Assignment { name, value });
        }
        i = i + 1;
    }
    if export {
        assert(models(r@) =~= Seq::new(
            pair_views(pairs@).len(),
            |i: int|
                LineModel::Export {
                    name: pair_views(pairs@)[i].0,
                    value: pair_views(pairs@)[i].1,
                },
        ));
    } else {
        assert(models(r@) =~= Seq::new(
            pair_views(pairs@).len(),
            |i: int|
                LineModel::Assignment {
                    name: pair_views(pairs@)[i].0,
                    value: pair_views(pairs@)[i].1,
                },
        ));
    }
    r
}

fn recipe_line_exec(content: &Vec<char>) -> (r: Vec<Line>)
    ensures
        models(r@) == recipe_line(content@),
{
    let (quiet, c1) = if content.len() > 0 && content[0] == '@' {
        let rest = tail(content, 1);
        (true, trim_start_chars(&rest))
    } else {
        (false, copy_chars(content))
    };
    assert(content@.len() > 0 && content@[0] == '@' ==> tail_is_drop_first(content@));
    let (ignore_errors, c2) = if c1.len() > 0 && c1[0] == '-' {
        let rest = tail(&c1, 1);
        (true, trim_start_chars(&rest))
    } else {
        (false, c1)
    };
    proof {
        assert(content@.len() > 0 ==> content@.subrange(1, content@.len() as int)
            =~= content@.drop_first());
    }
    if let Some(rest) = strip_prefix_str(&c2, "export ") {
        let (a, rem) = split_assignments_chars(&rest);
        if a.len() > 0 && rem.len() == 0 {
            return assignment_lines(&a, true);
        }
    }
    let (a, rem) = split_assignments_chars(&c2);
    if a.len() > 0 && rem.len() == 0 {
        return assignment_lines(&a, false);
    }
    let line = Line::Command(Command { text: string_of(&c2), quiet, ignore_errors });
    let r = vec![line];
    assert(models(r@) =~= seq![line@]);
    r
}

/// Whether dropping the first character of `s` is `s[1..]`, which holds of
/// every non-empty `s`.
pub open spec fn tail_is_drop_first(s: Seq<char>) -> bool {
    s.subrange(1, s.len() as int) == s.drop_first()
}

fn body_exec(ls: &Vec<Vec<char>>, start: usize) -> (r: (Vec<Line>, Option<String>, usize))
    requires
        start <= ls.len(),
    ensures
        body_from(views(ls@), start as int, seq![], None) == (
            models(r.0@),
            opt_view(r.1),
            r.2 as int,
        ),
{
    let ghost lsv = views(ls@);
    let mut lines: Vec<Line> = Vec::new();
    let mut shebang: Option<String> = None;
    let mut pos = start;
    assert(models(lines@) =~= seq![]);
    while pos < ls.len()
        invariant
            start <= pos <= ls.len(),
            lsv == views(ls@),
            body_from(lsv, start as int, seq![], None) == body_from(
                lsv,
                pos as int,
                models(lines@),
                opt_view(shebang),
            ),
        ensures
            start <= pos <= ls.len(),
            body_from(lsv, start as int, seq![], None) == (
                models(lines@),
                opt_view(shebang),
                pos as int,
            ),
        decreases ls.len() - pos,
    {
        let line = &ls[pos];
        assert(lsv[pos as int] == line@);
        if line.len() == 0 {
            pos = pos + 1;
            continue ;
        }
        if !(line[0] == ' ' || line[0] == '\t') {
            break ;
        }
        pos = pos + 1;
        let content = trim_start_chars(line);
        if content.len() == 0 {
            continue ;
        }
        if lines.len() == 0 && shebang.is_none() && starts_with_str(&content, "#!") {
            shebang = Some(string_of(&content));
            continue ;
        }
        let more = recipe_line_exec(&content);
        let ghost old_l = models(lines@);
        let mut i: usize = 0;
        while i < more.len()
            invariant
                0 <= i <= more.len(),
                models(lines@) == old_l + models(more@).take(i as int),
            decreases more.len() - i,
        {
            let ghost before = models(lines@);
            lines.push(copy_line(&more[i]));
            proof {
                assert(models(more@).take(i + 1) =~= models(more@).take(i as int).push(
                    more@[i as int]@,
                ));
                assert(models(lines@) =~= before.push(more@[i as int]@));
            }
            i = i + 1;
        }
        assert(models(more@).take(more.len() as int) =~= models(more@));
    }
    (lines, shebang, pos)
}

/// A copy of a body line.
pub fn copy_line(l: &Line) -> (r: Line)
    ensures
        r@ == l@,
{
    match l {
        Line::Command(c) => Line::Command(
            Command { text: c.text.clone(), quiet: c.quiet, ignore_errors: c.ignore_errors },
        ),
        Line::Assignment { name, value } => Line::Assignment {
            name: name.clone(),
            value: value.clone(),
        },
        Line::Export { name, value } => Line::Export { name: name.clone(), value: value.clone() },
    }
}

/// The characters of an optional character vector.
pub open spec fn opt_chars(o: Option<Vec<char>>) -> Option<Seq<char>> {
    match o {
        Some(v) => Some(v@),
        None => None,
    }
}

fn recipe_exec(ls: &Vec<Vec<char>>, pos: usize) -> (r: Option<Result<(Recipe, usize), Error>>)
    requires
        pos < ls.len(),
    ensures
        match recipe_at(views(ls@), pos as int) {
            RecipeOutcome::Read(m, next) => r matches Some(Ok((rc, n))) && rc@ == m && n == next,
            RecipeOutcome::Failed(line, msg) => r matches Some(Err(Error::Parse { line: l, message }))
                && l == line && message@ == msg,
            RecipeOutcome::Unreadable => r is None,
        },
{
    let t = trim_chars(&ls[pos]);
    assert(views(ls@)[pos as int] == ls@[pos as int]@);
    let (quiet, h) = if t.len() > 0 && t[0] == '@' {
        (true, tail(&t, 1))
    } else {
        (false, t)
    };
    assert(t@.len() > 0 && t@[0] == '@' ==> h@ =~= t@.drop_first());
    match split_once_ch(&h, ':') {
        None => {
            let message = string_of(&chars_of("recipe header missing colon"));
            Some(Err(Error::Parse { line: pos + 1, message }))
        },
        Some((pp, dp)) => {
            let ws = words_of(&pp);
            if ws.len() == 0 {
                return None;
            }
            match parameters_exec(&ws) {
                None => None,
                Some(parameters) => {
                    let d = trim_chars(&dp);
                    let dependencies = dependencies_exec(&d);
                    let (body, shebang, next) = body_exec(ls, pos + 1);
                    let recipe = Recipe {
                        name: string_of(&ws[0]),
                        doc: None,
                        parameters,
                        dependencies,
                        body,
                        quiet,
                        shebang,
                    };
                    assert(views(ws@)[0] == ws@[0]@);
                    Some(Ok((recipe, next)))
                },
            }
        },
    }
}

/// Parse `input`, or `None` where a line cannot be read at all: a recipe
/// header with no name (`@:`), or a lone quote character where a quoted value
/// belongs.
pub fn parse_checked(input: &str) -> (r: Option<Result<Justfile, Error>>)
    ensures
        match spec_parse(input@) {
            ParseOutcome::Parsed(m) => r matches Some(Ok(j)) && j@ == m,
            ParseOutcome::Failed(line, msg) => r matches Some(Err(Error::Parse { line: l, message }))
                && l == line && message@ == msg,
            ParseOutcome::Unreadable => r is None,
        },
{
    let text = chars_of(input);
    let ls = lines_of(&text);
    let ghost lsv = views(ls@);
    let mut jf = Justfile::new();
    let mut doc: Option<Vec<char>> = None;
    let mut pos: usize = 0;
    while pos < ls.len()
        invariant
            0 <= pos <= ls.len(),
            lsv == views(ls@),
            lsv == lines(input@),
            aliases_unique(jf@.aliases),
            spec_parse(input@) == parse_from(lsv, pos as int, jf@, opt_chars(doc)),
        decreases ls.len() - pos,
    {
        let t = trim_chars(&ls[pos]);
        assert(lsv[pos as int] == ls@[pos as int]@);
        if t.len() == 0 {
            doc = None;
            pos = pos + 1;
            continue ;
        }
        if t[0] == '#' {
            if starts_with_str(&t, "# ") || eq_str(&t, "#") {
                let hs = vec!['#'];
                assert(hs@ =~= seq!['#']);
                let stripped = trim_start_set_of(&t, &hs);
                doc = Some(trim_chars(&stripped));
            }
            pos = pos + 1;
            continue ;
        }
        if starts_with_str(&t, "set ") {
            if !apply_setting_exec(&mut jf.settings, &t) {
                return None;
            }
            doc = None;
            pos = pos + 1;
            continue ;
        }
        if starts_with_str(&t, "export ") {
            match export_exec(&t) {
                None => return None,
                Some(None) => {},
                Some(Some(e)) => {
                    let ghost old_e = jf@.exports;
                    jf.exports.push(e);
                    assert(jf@.exports =~= old_e.push(e@));
                },
            }
            doc = None;
            pos = pos + 1;
            continue ;
        }
        if starts_with_str(&t, "alias ") {
            match alias_parts_exec(&t) {
                Some((n, g)) => {
                    crate::v2::ast::insert_alias(&mut jf.aliases, string_of(&n), string_of(&g));
                },
                None => {
                    let message = string_of(&chars_of("invalid alias syntax"));
                    return Some(Err(Error::Parse { line: pos + 1, message }));
                },
            }
            doc = None;
            pos = pos + 1;
            continue ;
        }
        if is_recipe_header_exec(&t) {
            match recipe_exec(&ls, pos) {
                None => return None,
                Some(Err(e)) => return Some(Err(e)),
                Some(Ok((recipe, next))) => {
                    proof {
                        lemma_recipe_at_next(lsv, pos as int);
                    }
                    let mut recipe = recipe;
                    recipe.doc = match doc {
                        Some(d) => Some(string_of(&d)),
                        None => None,
                    };
                    let ghost old_r = jf@.recipes;
                    jf.recipes.push(recipe);
                    assert(jf@.recipes =~= old_r.push(recipe@));
                    doc = None;
                    pos = next;
                    continue ;
                },
            }
        }
        let prefix = chars_of("unexpected line: ");
        let message = string_of(&concat_chars(&prefix, &t));
        return Some(Err(Error::Parse { line: pos + 1, message }));
    }
    Some(Ok(jf))
}

/// Parse a V2 justfile.
pub fn parse(input: &str) -> (r: Result<Justfile, Error>)
    requires
        !(spec_parse(input@) is Unreadable),
    ensures
        match spec_parse(input@) {
            ParseOutcome::Parsed(m) => r matches Ok(j) && j@ == m,
            ParseOutcome::Failed(line, msg) => r matches Err(Error::Parse { line: l, message })
                && l == line && message@ == msg,
            ParseOutcome::Unreadable => false,
        },
{
    match parse_checked(input) {
        Some(r) => r,
        None => Err(Error::NoJustfile),
    }
}

} // verus!
