//! Deciding which engine parses a justfile.
//!
//! There are exactly two parsing paths:
//!
//! * [`Engine::V1`] — upstream `just`.
//! * [`Engine::V2`] — just-next's own [`crate::v2`] parser.
//!
//! The two grammars overlap heavily, so most justfiles parse under both.
//! [`detect`] therefore looks for constructs that are legal in exactly one
//! dialect, and falls back to [`AMBIGUOUS_DEFAULT`] when it finds none.
//!
//! # Precedence
//!
//! 1. `set next` on any line outside a recipe body — explicit opt-in, always
//!    V2, wherever it stands and whatever else the justfile holds.
//! 2. Any **V1 signal** — V1. These win over V2 signals, because a justfile
//!    with `foo := "bar"` is legacy even if a recipe body happens to contain a
//!    line that looks like a V2 assignment.
//! 3. Any **V2 signal** — V2.
//! 4. Otherwise — [`AMBIGUOUS_DEFAULT`].
//!
//! [`law_set_next_forces_v2`], [`law_v1_signal_wins`] and
//! [`law_v2_signal_without_v1_selects_v2`] state this order.
use vstd::prelude::*;

use crate::text::{
    chars_of, chars_of_all, contains, contains_str, copy_chars, eq_str, find_char, first_word,
    in_set, is_ws, lemma_char_end, char_end, lines, lines_of, rsplit_once_char,
    rsplit_once_char_of, split_once, split_once_ch, starts_with, starts_with_str, string_of,
    string_views, strip_prefix, strip_prefix_str, tail, trim, trim_chars, trim_start,
    trim_start_chars, trim_start_set, trim_start_set_of, unicode_alphabetic,
    unicode_alphanumeric, char_is_alphabetic, char_is_alphanumeric, char_is_ws, views, words,
    words_of, slice,
};
use crate::v2::parser::{spec_split_leading_assignments, split_assignments_chars};

verus! {

/// Which parsing path a justfile takes.
#[derive(Debug, Clone, Copy, PartialEq, Eq, Structural)]
pub enum Engine {
    /// Upstream `just`.
    V1,
    /// just-next's own parser.
    V2,
}

/// Engine for justfiles that parse identically under both dialects.
///
/// V2, so that a plain justfile gets the automatic environment setup; a
/// command line with a flag only upstream knows routes such a file to V1
/// instead (see [`spec_route_engine`]).
pub const AMBIGUOUS_DEFAULT: Engine = Engine::V2;

/// just-next's engine-override flags, which upstream `just` does not know.
pub open spec fn is_engine_flag(arg: Seq<char>) -> bool {
    arg == "--legacy"@ || arg == "--next"@
}

/// Whether `arg` is one of just-next's engine-override flags (`--legacy`,
/// `--next`), which must be stripped before argv reaches upstream `just`.
pub fn is_engine_flag_arg(arg: &str) -> (r: bool)
    ensures
        r == is_engine_flag(arg@),
{
    let v = chars_of(arg);
    eq_str(&v, "--legacy") || eq_str(&v, "--next")
}

// ---------------------------------------------------------------------------
// Identifiers
// ---------------------------------------------------------------------------
/// An identifier: a letter or `_`, then letters, digits and `_`.
pub open spec fn is_identifier(s: Seq<char>) -> bool {
    s.len() > 0 && (unicode_alphabetic(s[0]) || s[0] == '_') && forall|i: int|
        0 <= i < s.len() ==> unicode_alphanumeric(#[trigger] s[i]) || s[i] == '_'
}

/// An identifier that may also hold `-`, as recipe names and parameters may.
pub open spec fn is_identifier_with_dashes(s: Seq<char>) -> bool {
    s.len() > 0 && (unicode_alphabetic(s[0]) || s[0] == '_') && forall|i: int|
        0 <= i < s.len() ==> unicode_alphanumeric(#[trigger] s[i]) || s[i] == '_' || s[i] == '-'
}

fn identifier(s: &Vec<char>, dashes: bool) -> (r: bool)
    ensures
        r == if dashes {
            is_identifier_with_dashes(s@)
        } else {
            is_identifier(s@)
        },
{
    if s.len() == 0 {
        return false;
    }
    if !(char_is_alphabetic(s[0]) || s[0] == '_') {
        return false;
    }
    let mut i: usize = 0;
    while i < s.len()
        invariant
            0 <= i <= s.len(),
            forall|k: int|
                0 <= k < i ==> unicode_alphanumeric(#[trigger] s@[k]) || s@[k] == '_' || (dashes
                    && s@[k] == '-'),
        decreases s.len() - i,
    {
        let c = s[i];
        if !(char_is_alphanumeric(c) || c == '_' || (dashes && c == '-')) {
            return false;
        }
        i = i + 1;
    }
    true
}

// ---------------------------------------------------------------------------
// V1 signals
// ---------------------------------------------------------------------------
/// Settings understood only by upstream `just`: its full setting list, minus
/// the three both dialects share (`export`, `positional-arguments`, `shell`).
pub open spec fn is_v1_only_setting(name: Seq<char>) -> bool {
    name == "allow-duplicate-recipes"@ || name == "allow-duplicate-variables"@ || name
        == "default-list"@ || name == "default-script"@ || name == "dotenv-command"@ || name
        == "dotenv-filename"@ || name == "dotenv-load"@ || name == "dotenv-override"@ || name
        == "dotenv-path"@ || name == "dotenv-required"@ || name == "fallback"@ || name
        == "guards"@ || name == "ignore-comments"@ || name == "indentation"@ || name == "lazy"@
        || name == "lists"@ || name == "minimum-version"@ || name == "no-cd"@ || name
        == "no-exit-message"@ || name == "quiet"@ || name == "script-interpreter"@ || name
        == "tempdir"@ || name == "unstable"@ || name == "windows-powershell"@ || name
        == "windows-shell"@ || name == "working-directory"@
}

/// Upstream `just`'s settings that the next-style grammar does not have:
/// all of upstream's settings except `export`, `positional-arguments` and
/// `shell`.
pub open spec fn upstream_only_settings() -> Seq<Seq<char>> {
    seq![
        "allow-duplicate-recipes"@,
        "allow-duplicate-variables"@,
        "default-list"@,
        "default-script"@,
        "dotenv-command"@,
        "dotenv-filename"@,
        "dotenv-load"@,
        "dotenv-override"@,
        "dotenv-path"@,
        "dotenv-required"@,
        "fallback"@,
        "guards"@,
        "ignore-comments"@,
        "indentation"@,
        "lazy"@,
        "lists"@,
        "minimum-version"@,
        "no-cd"@,
        "no-exit-message"@,
        "quiet"@,
        "script-interpreter"@,
        "tempdir"@,
        "unstable"@,
        "windows-powershell"@,
        "windows-shell"@,
        "working-directory"@,
    ]
}

proof fn lemma_setting_name_at(s: Seq<char>, e: int)
    requires
        0 <= e <= s.len(),
        forall|m: int| 0 <= m < e ==> !is_ws(#[trigger] s[m]) && s[m] != '=',
        e < s.len() ==> is_ws(s[e]) || s[e] == '=',
    ensures
        setting_name(s) == s.subrange(0, e),
{
    lemma_setting_name_end_from(s, 0, e);
}

proof fn lemma_setting_name_end_from(s: Seq<char>, i: int, e: int)
    requires
        0 <= i <= e <= s.len(),
        forall|m: int| 0 <= m < e ==> !is_ws(#[trigger] s[m]) && s[m] != '=',
        e < s.len() ==> is_ws(s[e]) || s[e] == '=',
    ensures
        setting_name_end(s, i) == e,
    decreases e - i,
{
    if i < e {
        lemma_setting_name_end_from(s, i + 1, e);
    }
}

/// Every setting only upstream `just` has is a V1 signal: a top-level
/// `set NAME` line, with nothing after the name or whitespace or `=` next,
/// sends the justfile to V1 (see [`law_v1_signal_wins`]).
pub proof fn law_upstream_only_setting_is_v1(i: int, rest: Seq<char>)
    requires
        0 <= i < upstream_only_settings().len(),
        rest.len() > 0 ==> is_ws(rest[0]) || rest[0] == '=',
    ensures
        top_level_is_v1("set "@ + upstream_only_settings()[i] + rest),
{
    reveal_strlit("allow-duplicate-recipes");
    reveal_strlit("allow-duplicate-variables");
    reveal_strlit("default-list");
    reveal_strlit("default-script");
    reveal_strlit("dotenv-command");
    reveal_strlit("dotenv-filename");
    reveal_strlit("dotenv-load");
    reveal_strlit("dotenv-override");
    reveal_strlit("dotenv-path");
    reveal_strlit("dotenv-required");
    reveal_strlit("fallback");
    reveal_strlit("guards");
    reveal_strlit("ignore-comments");
    reveal_strlit("indentation");
    reveal_strlit("lazy");
    reveal_strlit("lists");
    reveal_strlit("minimum-version");
    reveal_strlit("no-cd");
    reveal_strlit("no-exit-message");
    reveal_strlit("quiet");
    reveal_strlit("script-interpreter");
    reveal_strlit("tempdir");
    reveal_strlit("unstable");
    reveal_strlit("windows-powershell");
    reveal_strlit("windows-shell");
    reveal_strlit("working-directory");
    reveal_strlit("set ");
    let name = upstream_only_settings()[i];
    assert(is_v1_only_setting(name));
    assert(forall|m: int| 0 <= m < name.len() ==> !is_ws(#[trigger] name[m]) && name[m] != '=');
    let line = "set "@ + name + rest;
    assert(line.subrange(0, 4) =~= "set "@);
    let after = name + rest;
    assert(line.subrange(4, line.len() as int) =~= after);
    assert(strip_prefix(line, "set "@) == Some(after));
    assert forall|m: int| 0 <= m < name.len() implies !is_ws(#[trigger] after[m]) && after[m] != '=' by {
        assert(after[m] == name[m]);
    }
    if name.len() < after.len() {
        assert(after[name.len() as int] == rest[0]);
    }
    lemma_setting_name_at(after, name.len() as int);
    assert(after.subrange(0, name.len() as int) =~= name);
}

fn v1_only_setting(n: &Vec<char>) -> (r: bool)
    ensures
        r == is_v1_only_setting(n@),
{
    eq_str(n, "allow-duplicate-recipes") || eq_str(n, "allow-duplicate-variables") || eq_str(
        n,
        "default-list",
    ) || eq_str(n, "default-script") || eq_str(n, "dotenv-command") || eq_str(
        n,
        "dotenv-filename",
    ) || eq_str(n, "dotenv-load") || eq_str(n, "dotenv-override") || eq_str(n, "dotenv-path")
        || eq_str(n, "dotenv-required") || eq_str(n, "fallback") || eq_str(n, "guards") || eq_str(
        n,
        "ignore-comments",
    ) || eq_str(n, "indentation") || eq_str(n, "lazy") || eq_str(n, "lists") || eq_str(
        n,
        "minimum-version",
    ) || eq_str(n, "no-cd") || eq_str(n, "no-exit-message") || eq_str(n, "quiet") || eq_str(
        n,
        "script-interpreter",
    ) || eq_str(n, "tempdir") || eq_str(n, "unstable") || eq_str(n, "windows-powershell")
        || eq_str(n, "windows-shell") || eq_str(n, "working-directory")
}

/// The index where a setting's name ends: the first whitespace or `=`.
pub open spec fn setting_name_end(s: Seq<char>, i: int) -> int
    decreases s.len() - i,
{
    if 0 <= i < s.len() && !is_ws(s[i]) && s[i] != '=' {
        setting_name_end(s, i + 1)
    } else {
        i
    }
}

/// The name of the setting in `rest`, the text after `set `.
pub open spec fn setting_name(rest: Seq<char>) -> Seq<char> {
    rest.subrange(0, setting_name_end(rest, 0))
}

proof fn lemma_setting_name_end(s: Seq<char>, i: int)
    requires
        0 <= i <= s.len(),
    ensures
        i <= setting_name_end(s, i) <= s.len(),
    decreases s.len() - i,
{
    if i < s.len() && !is_ws(s[i]) && s[i] != '=' {
        lemma_setting_name_end(s, i + 1);
    }
}

fn setting_name_exec(rest: &Vec<char>) -> (r: Vec<char>)
    ensures
        r@ == setting_name(rest@),
{
    let mut i: usize = 0;
    while i < rest.len() && !char_is_ws(rest[i]) && rest[i] != '='
        invariant
            0 <= i <= rest.len(),
            setting_name_end(rest@, 0) == setting_name_end(rest@, i as int),
        decreases rest.len() - i,
    {
        i = i + 1;
    }
    slice(rest, 0, i)
}

/// A recipe header split into its `name + parameters` and `dependencies`
/// parts, or `None` when `line` is not a recipe header.
pub open spec fn split_recipe_header(line: Seq<char>) -> Option<(Seq<char>, Seq<char>)> {
    if starts_with(line, "export "@) || starts_with(line, "alias "@) || starts_with(line, "set "@)
        || starts_with(line, "import"@) || starts_with(line, "mod "@) {
        None
    } else {
        let l = if line.len() > 0 && line[0] == '@' {
            line.drop_first()
        } else {
            line
        };
        match split_once(l, seq![':']) {
            None => None,
            Some((before, after)) => match first_word(before) {
                None => None,
                Some(name) => if is_identifier_with_dashes(name) {
                    Some((before, after))
                } else {
                    None
                },
            },
        }
    }
}

fn split_recipe_header_exec(line: &Vec<char>) -> (r: Option<(Vec<char>, Vec<char>)>)
    ensures
        r matches Some((a, b)) ==> split_recipe_header(line@) == Some((a@, b@)),
        r is None ==> split_recipe_header(line@) is None,
{
    if starts_with_str(line, "export ") || starts_with_str(line, "alias ") || starts_with_str(
        line,
        "set ",
    ) || starts_with_str(line, "import") || starts_with_str(line, "mod ") {
        return None;
    }
    let l = if line.len() > 0 && line[0] == '@' {
        tail(line, 1)
    } else {
        copy_chars(line)
    };
    assert(line.len() > 0 && line@[0] == '@' ==> l@ =~= line@.drop_first());
    match split_once_ch(&l, ':') {
        None => None,
        Some((before, after)) => {
            let ws = words_of(&before);
            if ws.len() == 0 {
                return None;
            }
            if identifier(&ws[0], true) {
                Some((before, after))
            } else {
                None
            }
        },
    }
}

/// Constructs that are legal in V1 and not in V2.
pub open spec fn top_level_is_v1(line: Seq<char>) -> bool {
    // `foo := "bar"`, `{{ ... }}` interpolation, backticks, attributes.
    ||| contains(line, ":="@)
    ||| contains(line, "{{"@)
    ||| line.contains('`')
    ||| (line.len() > 0 && line[0] == '[')
    // Statements with no V2 equivalent.
    ||| starts_with(line, "import "@)
    ||| starts_with(line, "import?"@)
    ||| starts_with(line, "mod "@)
    ||| starts_with(line, "mod?"@)
    ||| starts_with(line, "unexport "@)
    // Settings that exist only in V1.
    ||| (strip_prefix(line, "set "@) matches Some(rest) && is_v1_only_setting(setting_name(rest)))
    // Dependencies with arguments, and exported parameters.
    ||| (split_recipe_header(line) matches Some((signature, deps)) && (deps.contains('(')
        || signature.contains('$')))
}

fn top_level_is_v1_exec(line: &Vec<char>) -> (r: bool)
    ensures
        r == top_level_is_v1(line@),
{
    if contains_str(line, ":=") || contains_str(line, "{{") || in_set(line, '`') || (line.len()
        > 0 && line[0] == '[') {
        return true;
    }
    if starts_with_str(line, "import ") || starts_with_str(line, "import?") || starts_with_str(
        line,
        "mod ",
    ) || starts_with_str(line, "mod?") || starts_with_str(line, "unexport ") {
        return true;
    }
    if let Some(rest) = strip_prefix_str(line, "set ") {
        let name = setting_name_exec(&rest);
        if v1_only_setting(&name) {
            return true;
        }
    }
    if let Some((signature, deps)) = split_recipe_header_exec(line) {
        if in_set(&deps, '(') || in_set(&signature, '$') {
            return true;
        }
    }
    false
}

// ---------------------------------------------------------------------------
// V2 signals
// ---------------------------------------------------------------------------
/// `export NAME=...` where NAME is an identifier: the shell-style export that
/// V2 accepts and V1 spells `export NAME := ...`.
pub open spec fn is_shell_export(line: Seq<char>) -> bool {
    strip_prefix(line, "export "@) matches Some(rest) && split_once(rest, seq!['=']) matches Some(
        (name, _v),
    ) && is_identifier(trim(name))
}

fn shell_export(line: &Vec<char>) -> (r: bool)
    ensures
        r == is_shell_export(line@),
{
    if let Some(rest) = strip_prefix_str(line, "export ") {
        if let Some((name, _v)) = split_once_ch(&rest, '=') {
            let t = trim_chars(&name);
            return identifier(&t, false);
        }
    }
    false
}

/// Constructs at the top level that are legal in V2 and not in V1.
pub open spec fn top_level_is_v2(line: Seq<char>) -> bool {
    is_shell_export(line)
}

/// Whether an assignment value is a compound shell command rather than a
/// plain value.
pub open spec fn is_compound(value: Seq<char>) -> bool {
    contains(value, "&&"@) || contains(value, "||"@) || value.contains(';') || value.contains('|')
}

/// Whether the text after a `$` at index `k` of `s` names the variable
/// `name`: `$name` or `${name}`, not followed by another identifier
/// character, and not part of a `$$`.
pub open spec fn var_ref_at(s: Seq<char>, k: int, name: Seq<char>) -> bool {
    let rest = s.subrange(k + 1, s.len() as int);
    let cand = if rest.len() > 0 && rest[0] == '{' {
        rest.drop_first()
    } else {
        rest
    };
    &&& starts_with(cand, name)
    &&& (cand.len() == name.len() || !(unicode_alphanumeric(cand[name.len() as int])
        || cand[name.len() as int] == '_'))
    &&& (k < 1 || s[k - 1] != '$')
}

/// Whether `line` contains a shell reference to `name`: `$name` or `${name}`.
pub open spec fn references_variable(line: Seq<char>, name: Seq<char>) -> bool {
    exists|k: int| 0 <= k < line.len() && line[k] == '$' && var_ref_at(line, k, name)
}

fn var_ref_at_exec(s: &Vec<char>, k: usize, name: &Vec<char>) -> (r: bool)
    requires
        k < s.len(),
    ensures
        r == var_ref_at(s@, k as int, name@),
{
    let rest = tail(s, k + 1);
    let cand = if rest.len() > 0 && rest[0] == '{' {
        tail(&rest, 1)
    } else {
        rest
    };
    assert(rest@.len() > 0 && rest@[0] == '{' ==> cand@ =~= rest@.drop_first());
    if !crate::text::has_prefix(&cand, name) {
        return false;
    }
    if cand.len() != name.len() {
        let c = cand[name.len()];
        if char_is_alphanumeric(c) || c == '_' {
            return false;
        }
    }
    k < 1 || s[k - 1] != '$'
}

fn references_variable_exec(line: &Vec<char>, name: &Vec<char>) -> (r: bool)
    ensures
        r == references_variable(line@, name@),
{
    let mut k: usize = 0;
    while k < line.len()
        invariant
            0 <= k <= line.len(),
            forall|m: int| 0 <= m < k ==> !(line@[m] == '$' && var_ref_at(line@, m, name@)),
        decreases line.len() - k,
    {
        if line[k] == '$' && var_ref_at_exec(line, k, name) {
            return true;
        }
        k = k + 1;
    }
    false
}

/// Whether `line` contains a shell reference to `name`: `$name` or `${name}`.
/// A `$$` is an escaped dollar or the shell's PID, not a variable.
pub fn line_references_variable(line: &str, name: &str) -> (r: bool)
    ensures
        r == references_variable(line@, name@),
{
    let l = chars_of(line);
    let n = chars_of(name);
    references_variable_exec(&l, &n)
}

/// Constructs inside a recipe body that indicate V2.
///
/// Both dialects pass unrecognized body lines to a shell, so these signal
/// intent rather than decide grammar.
pub open spec fn body_is_v2(raw: Seq<char>, params: Seq<Seq<char>>) -> bool {
    let line = trim_start(trim_start_set(raw, seq!['@', '-']));
    let (assignments, remainder) = spec_split_leading_assignments(line);
    // `export CC=clang` in a body.
    ||| is_shell_export(line)
    // A whole line of `NAME=value` words, none of them a compound command.
    ||| (assignments.len() > 0 && remainder.len() == 0 && !exists|k: int|
        0 <= k < assignments.len() && is_compound(#[trigger] assignments[k].1))
    // `$PARAM` where PARAM is a parameter of the enclosing recipe.
    ||| exists|k: int| 0 <= k < params.len() && references_variable(line, #[trigger] params[k])
}

#[verifier::loop_isolation(false)]
fn body_is_v2_exec(raw: &Vec<char>, params: &Vec<Vec<char>>) -> (r: bool)
    ensures
        r == body_is_v2(raw@, views(params@)),
{
    let set = vec!['@', '-'];
    assert(set@ =~= seq!['@', '-']);
    let l0 = trim_start_set_of(raw, &set);
    let line = trim_start_chars(&l0);
    if shell_export(&line) {
        return true;
    }
    let (assignments, remainder) = split_assignments_chars(&line);
    if assignments.len() > 0 && remainder.len() == 0 {
        let mut compound = false;
        let mut k: usize = 0;
        while k < assignments.len()
            invariant
                0 <= k <= assignments.len(),
                compound == exists|m: int|
                    0 <= m < k && is_compound(#[trigger] crate::v2::parser::pair_views(
                        assignments@,
                    )[m].1),
            decreases assignments.len() - k,
        {
            let v = &assignments[k].1;
            let c = contains_str(v, "&&") || contains_str(v, "||") || in_set(v, ';') || in_set(
                v,
                '|',
            );
            proof {
                assert(crate::v2::parser::pair_views(assignments@)[k as int].1 == v@);
                if compound {
                    let m = choose|m: int|
                        0 <= m < k && is_compound(
                            #[trigger] crate::v2::parser::pair_views(assignments@)[m].1,
                        );
                    assert(0 <= m < k + 1);
                }
            }
            compound = compound || c;
            k = k + 1;
        }
        if !compound {
            proof {
                let (sa, sr) = spec_split_leading_assignments(line@);
                assert(sa == crate::v2::parser::pair_views(assignments@));
                assert(!exists|m: int| 0 <= m < sa.len() && is_compound(#[trigger] sa[m].1));
                assert(sa.len() > 0);
                assert(sr == remainder@);
                assert(sr.len() == 0);
                assert(line@ == trim_start(trim_start_set(raw@, seq!['@', '-'])));
            }
            return true;
        }
    }
    let mut j: usize = 0;
    while j < params.len()
        invariant
            0 <= j <= params.len(),
            forall|m: int| 0 <= m < j ==> !references_variable(line@, #[trigger] params@[m]@),
        decreases params.len() - j,
    {
        if references_variable_exec(&line, &params[j]) {
            assert(views(params@)[j as int] == params@[j as int]@);
            return true;
        }
        j = j + 1;
    }
    proof {
        assert forall|m: int| 0 <= m < views(params@).len() implies !references_variable(
            line@,
            #[trigger] views(params@)[m],
        ) by {
            assert(views(params@)[m] == params@[m]@);
        }
    }
    false
}

// ---------------------------------------------------------------------------
// Recipe headers
// ---------------------------------------------------------------------------
/// The name a parameter word declares: without `*`, `+` or `$` prefixes and
/// without any `=default`.
pub open spec fn param_name(part: Seq<char>) -> Seq<char> {
    let p = trim_start_set(part, seq!['*', '+', '$']);
    match split_once(p, seq!['=']) {
        Some((name, _d)) => name,
        None => p,
    }
}

/// The identifier-shaped parameter names among the words `ws`.
pub open spec fn header_params(ws: Seq<Seq<char>>) -> Seq<Seq<char>>
    decreases ws.len(),
{
    if ws.len() == 0 {
        seq![]
    } else {
        let prev = header_params(ws.drop_last());
        let n = param_name(ws.last());
        if is_identifier_with_dashes(n) {
            prev.push(n)
        } else {
            prev
        }
    }
}

/// The parameter names of a recipe header, or `None` if `line` is not one.
pub open spec fn recipe_header_params(line: Seq<char>) -> Option<Seq<Seq<char>>> {
    match split_recipe_header(line) {
        None => None,
        Some((before, _a)) => Some(header_params(words(before).skip(1))),
    }
}

fn recipe_header_params_exec(line: &Vec<char>) -> (r: Option<Vec<Vec<char>>>)
    ensures
        r matches Some(ps) ==> recipe_header_params(line@) == Some(views(ps@)),
        r is None ==> recipe_header_params(line@) is None,
{
    let (before, _after) = match split_recipe_header_exec(line) {
        Some(parts) => parts,
        None => return None,
    };
    let ws = words_of(&before);
    let ghost parts = views(ws@).skip(1);
    let set = vec!['*', '+', '$'];
    assert(set@ =~= seq!['*', '+', '$']);
    let mut params: Vec<Vec<char>> = Vec::new();
    let mut i: usize = 1;
    while i < ws.len()
        invariant
            1 <= i <= ws.len() || (ws.len() == 0 && i == 1),
            parts == views(ws@).skip(1),
            set@ == seq!['*', '+', '$'],
            views(params@) == header_params(parts.take(i - 1)),
        decreases ws.len() - i,
    {
        let part = trim_start_set_of(&ws[i], &set);
        let name = match split_once_ch(&part, '=') {
            Some((n, _d)) => n,
            None => part,
        };
        proof {
            assert(parts.take(i as int).drop_last() =~= parts.take(i - 1));
            assert(parts.take(i as int).last() == ws@[i as int]@);
        }
        if identifier(&name, true) {
            let ghost old_p = views(params@);
            params.push(name);
            assert(views(params@) =~= old_p.push(name@));
        }
        i = i + 1;
    }
    proof {
        if ws.len() > 0 {
            assert(parts.take(ws.len() - 1) =~= parts);
        } else {
            assert(parts.take(0) =~= parts);
        }
    }
    Some(params)
}

/// The parameter names of a recipe header, or `None` if `line` is not one.
pub fn header_parameters(line: &str) -> (r: Option<Vec<String>>)
    ensures
        r matches Some(ps) ==> recipe_header_params(line@) == Some(string_views(ps@)),
        r is None ==> recipe_header_params(line@) is None,
{
    let l = chars_of(line);
    match recipe_header_params_exec(&l) {
        Some(ps) => Some(crate::text::strings_of_all(&ps)),
        None => None,
    }
}

// ---------------------------------------------------------------------------
// Detection
// ---------------------------------------------------------------------------
/// Whether a trimmed line is a `set export` setting.
pub open spec fn is_set_export(t: Seq<char>) -> bool {
    t == "set export"@ || starts_with(t, "set export "@) || starts_with(t, "set export="@)
}

/// Whether a trimmed line is a `set next` setting.
pub open spec fn is_set_next(t: Seq<char>) -> bool {
    t == "set next"@ || starts_with(t, "set next "@)
}

/// Whether any line of the justfile is `set export`, under which `$PARAM` in
/// a body is ordinary V1.
pub open spec fn exports_all(ls: Seq<Seq<char>>) -> bool {
    exists|k: int| 0 <= k < ls.len() && is_set_export(trim(#[trigger] ls[k]))
}

/// The detector's state between lines.
pub struct ScanState {
    /// A V1 signal has been seen.
    pub saw_v1: bool,
    /// A V2 signal has been seen.
    pub saw_v2: bool,
    /// The parameters of the recipe whose body the scan is inside.
    pub params: Seq<Seq<char>>,
    /// The scan is inside a recipe.
    pub in_recipe: bool,
    /// The recipe's body has started.
    pub body_started: bool,
    /// The recipe's body starts with a shebang.
    pub shebang: bool,
}

/// The outcome of reading one line.
pub enum Scan {
    /// Keep reading in this state.
    Continue(ScanState),
    /// The engine is decided.
    Decided(Engine),
}

/// The state before the first line.
pub open spec fn scan_start() -> ScanState {
    ScanState {
        saw_v1: false,
        saw_v2: false,
        params: seq![],
        in_recipe: false,
        body_started: false,
        shebang: false,
    }
}

/// Constructs in a recipe body that only upstream evaluates: `{{ … }}`
/// interpolation, and backtick evaluation outside shebang recipes (whose
/// bodies are scripts, where a backtick is the shell's own).
pub open spec fn body_is_v1(line: Seq<char>, shebang: bool) -> bool {
    contains(line, "{{"@) || (!shebang && contains(line, "`"@))
}

/// Read one raw line.
pub open spec fn scan_line(raw: Seq<char>, st: ScanState, export_all: bool) -> Scan {
    let indented = raw.len() > 0 && (raw[0] == ' ' || raw[0] == '\t');
    let line = trim(raw);
    if line.len() == 0 {
        Scan::Continue(st)
    } else if indented && st.in_recipe {
        let body_started = true;
        let shebang = if !st.body_started {
            starts_with(line, "#!"@)
        } else {
            st.shebang
        };
        if line[0] == '#' || (shebang && !body_is_v1(line, shebang)) {
            Scan::Continue(
                ScanState {
                    saw_v1: st.saw_v1,
                    saw_v2: st.saw_v2,
                    params: st.params,
                    in_recipe: st.in_recipe,
                    body_started,
                    shebang,
                },
            )
        } else if body_is_v1(line, shebang) {
            Scan::Continue(
                ScanState {
                    saw_v1: true,
                    saw_v2: st.saw_v2,
                    params: st.params,
                    in_recipe: st.in_recipe,
                    body_started,
                    shebang,
                },
            )
        } else {
            let visible = if export_all {
                seq![]
            } else {
                st.params
            };
            Scan::Continue(
                ScanState {
                    saw_v1: st.saw_v1,
                    saw_v2: st.saw_v2 || body_is_v2(line, visible),
                    params: st.params,
                    in_recipe: st.in_recipe,
                    body_started,
                    shebang,
                },
            )
        }
    } else {
        let st1 = if !indented {
            ScanState {
                saw_v1: st.saw_v1,
                saw_v2: st.saw_v2,
                params: seq![],
                in_recipe: false,
                body_started: false,
                shebang: false,
            }
        } else {
            st
        };
        if line[0] == '#' {
            Scan::Continue(st1)
        } else if is_set_next(line) {
            Scan::Decided(Engine::V2)
        } else {
            let saw_v1 = st1.saw_v1 || top_level_is_v1(line);
            let saw_v2 = st1.saw_v2 || top_level_is_v2(line);
            match recipe_header_params(line) {
                Some(found) => Scan::Continue(
                    ScanState {
                        saw_v1,
                        saw_v2,
                        params: found,
                        in_recipe: true,
                        body_started: st1.body_started,
                        shebang: st1.shebang,
                    },
                ),
                None => Scan::Continue(
                    ScanState {
                        saw_v1,
                        saw_v2,
                        params: st1.params,
                        in_recipe: st1.in_recipe,
                        body_started: st1.body_started,
                        shebang: st1.shebang,
                    },
                ),
            }
        }
    }
}

/// Read lines `i..` in state `st`.
pub open spec fn scan_from(ls: Seq<Seq<char>>, i: int, st: ScanState, export_all: bool) -> Scan
    decreases ls.len() - i,
{
    if i < 0 || i >= ls.len() {
        Scan::Continue(st)
    } else {
        match scan_line(ls[i], st, export_all) {
            Scan::Decided(e) => Scan::Decided(e),
            Scan::Continue(next) => scan_from(ls, i + 1, next, export_all),
        }
    }
}

/// The engine [`detect_with`] picks for `content`, with `ambiguous` for
/// justfiles that carry no signal.
pub open spec fn spec_detect_with(content: Seq<char>, ambiguous: Engine) -> Engine {
    let ls = lines(content);
    match scan_from(ls, 0, scan_start(), exports_all(ls)) {
        Scan::Decided(e) => e,
        Scan::Continue(st) => if st.saw_v1 {
            Engine::V1
        } else if st.saw_v2 {
            Engine::V2
        } else {
            ambiguous
        },
    }
}

/// Decide which engine should parse `content`.
pub fn detect(content: &str) -> (r: Engine)
    ensures
        r == spec_detect_with(content@, AMBIGUOUS_DEFAULT),
{
    detect_with(content, AMBIGUOUS_DEFAULT)
}

fn any_set_export(ls: &Vec<Vec<char>>) -> (r: bool)
    ensures
        r == exports_all(views(ls@)),
{
    let mut k: usize = 0;
    while k < ls.len()
        invariant
            0 <= k <= ls.len(),
            forall|m: int| 0 <= m < k ==> !is_set_export(trim(#[trigger] views(ls@)[m])),
        decreases ls.len() - k,
    {
        let t = trim_chars(&ls[k]);
        assert(views(ls@)[k as int] == ls@[k as int]@);
        if eq_str(&t, "set export") || starts_with_str(&t, "set export ") || starts_with_str(
            &t,
            "set export=",
        ) {
            return true;
        }
        k = k + 1;
    }
    false
}

/// [`detect`], with an explicit fallback for ambiguous justfiles.
pub fn detect_with(content: &str, ambiguous: Engine) -> (r: Engine)
    ensures
        r == spec_detect_with(content@, ambiguous),
{
    let text = chars_of(content);
    let ls = lines_of(&text);
    let export_all = any_set_export(&ls);
    let ghost lsv = views(ls@);
    let mut saw_v1 = false;
    let mut saw_v2 = false;
    let mut params: Vec<Vec<char>> = Vec::new();
    let mut in_recipe = false;
    let mut body_started = false;
    let mut shebang_recipe = false;
    let mut i: usize = 0;
    assert(views(params@) =~= seq![]);
    while i < ls.len()
        invariant
            0 <= i <= ls.len(),
            lsv == views(ls@),
            lsv == lines(content@),
            export_all == exports_all(lsv),
            scan_from(lsv, 0, scan_start(), export_all) == scan_from(
                lsv,
                i as int,
                ScanState {
                    saw_v1,
                    saw_v2,
                    params: views(params@),
                    in_recipe,
                    body_started,
                    shebang: shebang_recipe,
                },
                export_all,
            ),
        decreases ls.len() - i,
    {
        let raw = &ls[i];
        let ghost st = ScanState {
            saw_v1,
            saw_v2,
            params: views(params@),
            in_recipe,
            body_started,
            shebang: shebang_recipe,
        };
        assert(lsv[i as int] == raw@);
        let indented = raw.len() > 0 && (raw[0] == ' ' || raw[0] == '\t');
        let line = trim_chars(raw);
        if line.len() == 0 {
            i = i + 1;
            continue ;
        }
        if indented && in_recipe {
            if !body_started {
                body_started = true;
                shebang_recipe = starts_with_str(&line, "#!");
            }
            if line[0] == '#' {
                i = i + 1;
                continue ;
            }
            if contains_str(&line, "{{") || (!shebang_recipe && contains_str(&line, "`")) {
                saw_v1 = true;
                i = i + 1;
                continue ;
            }
            if shebang_recipe {
                i = i + 1;
                continue ;
            }
            let empty: Vec<Vec<char>> = Vec::new();
            let visible = if export_all {
                &empty
            } else {
                &params
            };
            assert(views(empty@) =~= seq![]);
            if body_is_v2_exec(&line, visible) {
                saw_v2 = true;
            }
            i = i + 1;
            continue ;
        }
        if !indented {
            in_recipe = false;
            body_started = false;
            shebang_recipe = false;
            params = Vec::new();
            assert(views(params@) =~= seq![]);
        }
        if line[0] == '#' {
            i = i + 1;
            continue ;
        }
        if eq_str(&line, "set next") || starts_with_str(&line, "set next ") {
            return Engine::V2;
        }
        if top_level_is_v1_exec(&line) {
            saw_v1 = true;
        }
        if shell_export(&line) {
            saw_v2 = true;
        }
        if let Some(found) = recipe_header_params_exec(&line) {
            in_recipe = true;
            params = found;
        }
        i = i + 1;
    }
    if saw_v1 {
        Engine::V1
    } else if saw_v2 {
        Engine::V2
    } else {
        ambiguous
    }
}

// ---------------------------------------------------------------------------
// Laws of detection
// ---------------------------------------------------------------------------
/// The fallback engine only ever decides a justfile that carries no signal:
/// whatever `detect_with` returns for one fallback it returns for the other,
/// unless it returns the fallback itself.
pub proof fn law_fallback_only_decides_signal_free(content: Seq<char>, ambiguous: Engine)
    ensures
        spec_detect_with(content, ambiguous) == ambiguous || spec_detect_with(content, Engine::V1)
            == spec_detect_with(content, Engine::V2),
{
}

/// Only a justfile that carries no dialect signal depends on the command
/// line: for one that names its dialect, any two command lines without
/// `--legacy` or `--next` route it to the same engine.
pub proof fn law_signalled_dialect_ignores_flags(
    content: Seq<char>,
    args1: Seq<Seq<char>>,
    args2: Seq<Seq<char>>,
)
    requires
        spec_detect_with(content, Engine::V1) == spec_detect_with(content, Engine::V2),
        !has_arg(args1, "--legacy"@),
        !has_arg(args1, "--next"@),
        !has_arg(args2, "--legacy"@),
        !has_arg(args2, "--next"@),
    ensures
        spec_route_engine(args1, content) == spec_route_engine(args2, content),
{
}

/// Whether a raw line starts with a space or a tab.
pub open spec fn is_indented(raw: Seq<char>) -> bool {
    raw.len() > 0 && (raw[0] == ' ' || raw[0] == '\t')
}

/// Whether a recipe is open when line `k` is reached: the last line before
/// it that is not blank either is an indented line inside an open recipe, or
/// is a recipe header outside one.
pub open spec fn recipe_open_before(ls: Seq<Seq<char>>, k: int) -> bool
    decreases k,
{
    if k <= 0 || k > ls.len() {
        false
    } else {
        let raw = ls[k - 1];
        let t = trim(raw);
        let prev = recipe_open_before(ls, k - 1);
        if t.len() == 0 {
            prev
        } else if is_indented(raw) && prev {
            true
        } else {
            t[0] != '#' && recipe_header_params(t) is Some
        }
    }
}

/// Whether line `k` belongs to a recipe body: it is indented and a recipe is
/// open when it is reached.
pub open spec fn is_body_line(ls: Seq<Seq<char>>, k: int) -> bool {
    is_indented(ls[k]) && recipe_open_before(ls, k)
}

/// Whether line `k` carries a V1 signal: it is not a comment, and it holds
/// `{{`, or it stands outside a recipe body and holds a V1-only construct.
pub open spec fn is_v1_signal_at(ls: Seq<Seq<char>>, k: int) -> bool {
    let t = trim(ls[k]);
    &&& t.len() > 0
    &&& t[0] != '#'
    &&& (contains(t, "{{"@) || (!is_body_line(ls, k) && top_level_is_v1(t)))
}

/// Whether line `k` is a `set next` line outside a recipe body.
pub open spec fn is_set_next_at(ls: Seq<Seq<char>>, k: int) -> bool {
    !is_body_line(ls, k) && is_set_next(trim(ls[k]))
}

/// Whether line `k` carries a V2 signal outside a recipe body.
pub open spec fn is_v2_signal_at(ls: Seq<Seq<char>>, k: int) -> bool {
    let t = trim(ls[k]);
    &&& !is_body_line(ls, k)
    &&& t.len() > 0
    &&& t[0] != '#'
    &&& top_level_is_v2(t)
}

/// Whether no line carries a V1 signal: no line that is not a comment holds
/// `{{`, no such line of a recipe body holds a backtick, and no such line
/// outside a body holds a V1-only construct.
pub open spec fn has_no_v1_signal(ls: Seq<Seq<char>>) -> bool {
    forall|k: int|
        #![trigger trim(ls[k])]
        0 <= k < ls.len() && trim(ls[k]).len() > 0 && trim(ls[k])[0] != '#' ==> {
            &&& !contains(trim(ls[k]), "{{"@)
            &&& (is_body_line(ls, k) ==> !contains(trim(ls[k]), "`"@))
            &&& (!is_body_line(ls, k) ==> !top_level_is_v1(trim(ls[k])))
        }
}

proof fn lemma_set_next_shape(t: Seq<char>)
    requires
        is_set_next(t),
    ensures
        t.len() > 0,
        t[0] == 's',
{
    reveal_strlit("set next");
    reveal_strlit("set next ");
    if t == "set next"@ {
        assert(t[0] == 's');
    } else {
        assert(t.subrange(0, 9)[0] == t[0]);
    }
}

/// Reading line `i` in a state that agrees with [`recipe_open_before`] leaves
/// a state that agrees with it at the next line.
proof fn lemma_scan_tracks_recipes(ls: Seq<Seq<char>>, i: int, st: ScanState, ea: bool)
    requires
        0 <= i < ls.len(),
        st.in_recipe == recipe_open_before(ls, i),
    ensures
        scan_line(ls[i], st, ea) matches Scan::Continue(next) ==> next.in_recipe
            == recipe_open_before(ls, i + 1),
        scan_line(ls[i], st, ea) matches Scan::Continue(next) ==> (st.saw_v1 ==> next.saw_v1)
            && (st.saw_v2 ==> next.saw_v2),
        scan_line(ls[i], st, ea) matches Scan::Decided(e) ==> e == Engine::V2 && !is_body_line(
            ls,
            i,
        ) && is_set_next(trim(ls[i])),
{
}

proof fn lemma_set_next_decides(ls: Seq<Seq<char>>, i: int, j: int, st: ScanState, ea: bool)
    requires
        0 <= i <= j < ls.len(),
        st.in_recipe == recipe_open_before(ls, i),
        is_set_next_at(ls, j),
    ensures
        scan_from(ls, i, st, ea) == Scan::Decided(Engine::V2),
    decreases j - i,
{
    lemma_scan_tracks_recipes(ls, i, st, ea);
    if i == j {
        lemma_set_next_shape(trim(ls[j]));
    } else {
        match scan_line(ls[i], st, ea) {
            Scan::Decided(e) => {},
            Scan::Continue(next) => {
                lemma_set_next_decides(ls, i + 1, j, next, ea);
            },
        }
    }
}

/// `set next` outside a recipe body always selects V2, whatever else the
/// justfile holds, before or after it.
pub proof fn law_set_next_forces_v2(content: Seq<char>, ambiguous: Engine, j: int)
    requires
        0 <= j < lines(content).len(),
        is_set_next_at(lines(content), j),
    ensures
        spec_detect_with(content, ambiguous) == Engine::V2,
{
    let ls = lines(content);
    lemma_set_next_decides(ls, 0, j, scan_start(), exports_all(ls));
}

proof fn lemma_v1_persists(ls: Seq<Seq<char>>, i: int, j: int, st: ScanState, ea: bool)
    requires
        0 <= i <= ls.len(),
        st.in_recipe == recipe_open_before(ls, i),
        forall|k: int| 0 <= k < ls.len() ==> !#[trigger] is_set_next_at(ls, k),
        st.saw_v1 || (i <= j < ls.len() && is_v1_signal_at(ls, j)),
    ensures
        scan_from(ls, i, st, ea) matches Scan::Continue(fin) && fin.saw_v1,
    decreases ls.len() - i,
{
    if i < ls.len() {
        lemma_scan_tracks_recipes(ls, i, st, ea);
        assert(!is_set_next_at(ls, i));
        match scan_line(ls[i], st, ea) {
            Scan::Decided(e) => {},
            Scan::Continue(next) => {
                if i == j {
                    assert(contains(trim(ls[i]), "{{"@) ==> top_level_is_v1(trim(ls[i])));
                    assert(next.saw_v1);
                }
                lemma_v1_persists(ls, i + 1, j, next, ea);
            },
        }
    }
}

/// V1 signals win over V2 signals: with no `set next` outside a recipe body,
/// a line that is not a comment and holds `{{` anywhere, or a V1-only
/// construct outside a recipe body, sends the justfile to V1, whatever V2
/// signals it also holds and whatever the fallback.
pub proof fn law_v1_signal_wins(content: Seq<char>, ambiguous: Engine, j: int)
    requires
        0 <= j < lines(content).len(),
        is_v1_signal_at(lines(content), j),
        forall|k: int| 0 <= k < lines(content).len() ==> !#[trigger] is_set_next_at(lines(content), k),
    ensures
        spec_detect_with(content, ambiguous) == Engine::V1,
{
    let ls = lines(content);
    lemma_v1_persists(ls, 0, j, scan_start(), exports_all(ls));
}

/// A justfile with a top-level `set NAME` line for a setting only upstream
/// `just` has goes to V1, whatever the fallback, unless `set next` stands
/// outside a recipe body.
pub proof fn law_upstream_setting_selects_v1(
    content: Seq<char>,
    ambiguous: Engine,
    j: int,
    i: int,
    rest: Seq<char>,
)
    requires
        0 <= j < lines(content).len(),
        !is_body_line(lines(content), j),
        0 <= i < upstream_only_settings().len(),
        rest.len() > 0 ==> is_ws(rest[0]) || rest[0] == '=',
        trim(lines(content)[j]) == "set "@ + upstream_only_settings()[i] + rest,
        forall|k: int| 0 <= k < lines(content).len() ==> !#[trigger] is_set_next_at(lines(content), k),
    ensures
        spec_detect_with(content, ambiguous) == Engine::V1,
{
    reveal_strlit("set ");
    law_upstream_only_setting_is_v1(i, rest);
    let t = trim(lines(content)[j]);
    assert(t[0] == 's');
    law_v1_signal_wins(content, ambiguous, j);
}

proof fn lemma_v2_persists(ls: Seq<Seq<char>>, i: int, j: int, st: ScanState, ea: bool)
    requires
        0 <= i <= ls.len(),
        st.in_recipe == recipe_open_before(ls, i),
        !st.saw_v1,
        has_no_v1_signal(ls),
        st.saw_v2 || (i <= j < ls.len() && is_v2_signal_at(ls, j)),
    ensures
        scan_from(ls, i, st, ea) == Scan::Decided(Engine::V2) || (scan_from(ls, i, st, ea) matches Scan::Continue(fin)
            && !fin.saw_v1 && fin.saw_v2),
    decreases ls.len() - i,
{
    if i < ls.len() {
        lemma_scan_tracks_recipes(ls, i, st, ea);
        let t = trim(ls[i]);
        if t.len() > 0 && t[0] != '#' {
            assert(!contains(t, "{{"@));
        }
        match scan_line(ls[i], st, ea) {
            Scan::Decided(e) => {},
            Scan::Continue(next) => {
                lemma_v2_persists(ls, i + 1, j, next, ea);
            },
        }
    }
}

/// The V2 counterpart: a justfile with no V1 signal and a V2 signal outside
/// a recipe body (a shell-style `export NAME=value`) goes to V2, whatever the
/// fallback.
pub proof fn law_v2_signal_without_v1_selects_v2(content: Seq<char>, ambiguous: Engine, j: int)
    requires
        0 <= j < lines(content).len(),
        is_v2_signal_at(lines(content), j),
        has_no_v1_signal(lines(content)),
    ensures
        spec_detect_with(content, ambiguous) == Engine::V2,
{
    let ls = lines(content);
    lemma_v2_persists(ls, 0, j, scan_start(), exports_all(ls));
}

// ---------------------------------------------------------------------------
// Command-line pre-scan
// ---------------------------------------------------------------------------
/// Flags that consume the argument after them.
pub open spec fn is_value_flag(t: Seq<char>) -> bool {
    t == "-f"@ || t == "--justfile"@ || t == "-d"@ || t == "--working-directory"@
}

/// The first argument from index `i` on that is not a flag or a flag's value.
pub open spec fn first_positional_from(args: Seq<Seq<char>>, i: int) -> Option<Seq<char>>
    decreases args.len() + 1 - i,
{
    if i < 1 || i >= args.len() {
        None
    } else {
        let t = args[i];
        if t == "--"@ {
            if i + 1 < args.len() {
                Some(args[i + 1])
            } else {
                None
            }
        } else if t.len() > 1 && t[0] == '-' {
            first_positional_from(
                args,
                if is_value_flag(t) {
                    i + 2
                } else {
                    i + 1
                },
            )
        } else {
            Some(t)
        }
    }
}

/// The first argument after the program name that is not a flag or a flag's
/// value; after `--`, the argument that follows it.
pub open spec fn first_positional(args: Seq<Seq<char>>) -> Option<Seq<char>> {
    first_positional_from(args, 1)
}

fn first_positional_exec(args: &Vec<Vec<char>>) -> (r: Option<Vec<char>>)
    ensures
        r matches Some(t) ==> first_positional(views(args@)) == Some(t@),
        r is None ==> first_positional(views(args@)) is None,
{
    let ghost a = views(args@);
    let mut i: usize = 1;
    while i < args.len()
        invariant
            1 <= i,
            a == views(args@),
            first_positional(a) == first_positional_from(a, i as int),
        decreases args.len() - i,
    {
        let t = &args[i];
        assert(a[i as int] == t@);
        if eq_str(t, "--") {
            if i + 1 < args.len() {
                assert(a[i + 1] == args@[i + 1]@);
                return Some(copy_chars(&args[i + 1]));
            }
            return None;
        }
        if t.len() > 1 && t[0] == '-' {
            if eq_str(t, "-f") || eq_str(t, "--justfile") || eq_str(t, "-d") || eq_str(
                t,
                "--working-directory",
            ) {
                if args.len() - i <= 2 {
                    assert(first_positional_from(a, i + 2) is None);
                    return None;
                }
                i = i + 2;
            } else {
                i = i + 1;
            }
            continue ;
        }
        return Some(copy_chars(t));
    }
    None
}

/// The value given inline to the first of `names`, `--flag=value`, in `t`.
pub open spec fn inline_flag_value(t: Seq<char>, names: Seq<Seq<char>>, j: int) -> Option<
    Seq<char>,
>
    decreases names.len() - j,
{
    if j < 0 || j >= names.len() {
        None
    } else {
        match strip_prefix(t, names[j].push('=')) {
            Some(rest) => Some(rest),
            None => inline_flag_value(t, names, j + 1),
        }
    }
}

/// The value of the first of `names` present in `args` from index `i` on,
/// as `--flag value` or `--flag=value`.
pub open spec fn flag_value_from(args: Seq<Seq<char>>, names: Seq<Seq<char>>, i: int) -> Option<
    Seq<char>,
>
    decreases args.len() - i,
{
    if i < 1 || i >= args.len() {
        None
    } else {
        let t = args[i];
        if names.contains(t) {
            if i + 1 < args.len() {
                Some(args[i + 1])
            } else {
                None
            }
        } else {
            match inline_flag_value(t, names, 0) {
                Some(v) => Some(v),
                None => flag_value_from(args, names, i + 1),
            }
        }
    }
}

/// The value of the first of `names` present in `args`.
pub open spec fn flag_value(args: Seq<Seq<char>>, names: Seq<Seq<char>>) -> Option<Seq<char>> {
    flag_value_from(args, names, 1)
}

#[verifier::loop_isolation(false)]
fn flag_value_exec(args: &Vec<Vec<char>>, names: &Vec<Vec<char>>) -> (r: Option<Vec<char>>)
    ensures
        r matches Some(t) ==> flag_value(views(args@), views(names@)) == Some(t@),
        r is None ==> flag_value(views(args@), views(names@)) is None,
{
    let ghost a = views(args@);
    let ghost n = views(names@);
    let mut i: usize = 1;
    while i < args.len()
        invariant
            1 <= i,
            a == views(args@),
            n == views(names@),
            flag_value(a, n) == flag_value_from(a, n, i as int),
        decreases args.len() - i,
    {
        let t = &args[i];
        assert(a[i as int] == t@);
        let mut k: usize = 0;
        let mut member = false;
        while k < names.len()
            invariant
                0 <= k <= names.len(),
                n == views(names@),
                member == exists|m: int| 0 <= m < k && n[m] == t@,
            decreases names.len() - k,
        {
            let hit = crate::text::eq_chars(&names[k], t);
            assert(n[k as int] == names@[k as int]@);
            proof {
                if member {
                    let m = choose|m: int| 0 <= m < k && n[m] == t@;
                    assert(0 <= m < k + 1 && n[m] == t@);
                }
            }
            member = member || hit;
            k = k + 1;
        }
        assert(member == n.contains(t@));
        if member {
            if i + 1 < args.len() {
                assert(a[i + 1] == args@[i + 1]@);
                return Some(copy_chars(&args[i + 1]));
            }
            return None;
        }
        let mut j: usize = 0;
        while j < names.len()
            invariant
                0 <= j <= names.len(),
                n == views(names@),
                inline_flag_value(t@, n, 0) == inline_flag_value(t@, n, j as int),
            decreases names.len() - j,
        {
            let mut prefix = copy_chars(&names[j]);
            prefix.push('=');
            assert(prefix@ == n[j as int].push('='));
            if crate::text::has_prefix(t, &prefix) {
                let rest = tail(t, prefix.len());
                assert(strip_prefix(t@, n[j as int].push('=')) == Some(rest@));
                assert(inline_flag_value(t@, n, j as int) == Some(rest@));
                assert(flag_value_from(a, n, i as int) == Some(rest@));
                return Some(rest);
            }
            j = j + 1;
        }
        i = i + 1;
    }
    None
}

/// Whether `arg` occurs anywhere in `args`, program name included.
pub open spec fn has_arg(args: Seq<Seq<char>>, arg: Seq<char>) -> bool {
    args.contains(arg)
}

fn has_arg_exec(args: &Vec<Vec<char>>, arg: &str) -> (r: bool)
    ensures
        r == has_arg(views(args@), arg@),
{
    let a = chars_of(arg);
    let mut k: usize = 0;
    while k < args.len()
        invariant
            0 <= k <= args.len(),
            a@ == arg@,
            forall|m: int| 0 <= m < k ==> args@[m]@ != a@,
        decreases args.len() - k,
    {
        if crate::text::eq_chars(&args[k], &a) {
            assert(views(args@)[k as int] == a@);
            assert(views(args@).contains(a@));
            return true;
        }
        k = k + 1;
    }
    proof {
        assert forall|m: int| 0 <= m < views(args@).len() implies views(args@)[m] != a@ by {
            assert(views(args@)[m] == args@[m]@);
        }
    }
    false
}

/// Whether the command line carries the flag `flag` (`--legacy`, `--next`),
/// anywhere in argv.
pub fn has_flag(args: &Vec<String>, flag: &str) -> (r: bool)
    ensures
        r == has_arg(string_views(args@), flag@),
{
    let a = chars_of_all(args);
    has_arg_exec(&a, flag)
}

/// The names of the working-directory flag.
pub open spec fn working_directory_names() -> Seq<Seq<char>> {
    seq!["-d"@, "--working-directory"@]
}

/// The names of the justfile flag.
pub open spec fn justfile_names() -> Seq<Seq<char>> {
    seq!["-f"@, "--justfile"@]
}

fn names_of(a: &str, b: &str) -> (r: Vec<Vec<char>>)
    ensures
        views(r@) == seq![a@, b@],
{
    let r = vec![chars_of(a), chars_of(b)];
    assert(views(r@) =~= seq![a@, b@]);
    r
}

/// The value of `-d`/`--working-directory` on the command line.
pub fn working_directory_flag(args: &Vec<String>) -> (r: Option<String>)
    ensures
        r matches Some(t) ==> flag_value(string_views(args@), working_directory_names()) == Some(
            t@,
        ),
        r is None ==> flag_value(string_views(args@), working_directory_names()) is None,
{
    let a = chars_of_all(args);
    let names = names_of("-d", "--working-directory");
    match flag_value_exec(&a, &names) {
        Some(t) => Some(string_of(&t)),
        None => None,
    }
}

/// The value of `-f`/`--justfile` on the command line.
pub fn justfile_flag(args: &Vec<String>) -> (r: Option<String>)
    ensures
        r matches Some(t) ==> flag_value(string_views(args@), justfile_names()) == Some(t@),
        r is None ==> flag_value(string_views(args@), justfile_names()) is None,
{
    let a = chars_of_all(args);
    let names = names_of("-f", "--justfile");
    match flag_value_exec(&a, &names) {
        Some(t) => Some(string_of(&t)),
        None => None,
    }
}

/// A `<folder>/<recipe>` argument split at its last `/`; `None` when there is
/// no `/` or the folder part is empty (an absolute path).
pub open spec fn spec_split_folder_argument(argument: Seq<char>) -> Option<(Seq<char>, Seq<char>)> {
    match rsplit_once_char(argument, '/') {
        Some((dir, recipe)) => if dir.len() == 0 {
            None
        } else {
            Some((dir, recipe))
        },
        None => None,
    }
}

/// Split a `<folder>/<recipe>` argument into its directory and recipe parts.
///
/// Returns `None` when `argument` has no `/`, i.e. it is a plain recipe name.
/// The recipe part is empty for a trailing slash (`<folder>/`).
pub fn split_folder_argument(argument: &str) -> (r: Option<(String, String)>)
    ensures
        r matches Some((d, rc)) ==> spec_split_folder_argument(argument@) == Some((d@, rc@)),
        r is None ==> spec_split_folder_argument(argument@) is None,
{
    let v = chars_of(argument);
    match rsplit_once_char_of(&v, '/') {
        Some((dir, recipe)) => {
            if dir.len() == 0 {
                None
            } else {
                Some((string_of(&dir), string_of(&recipe)))
            }
        },
        None => None,
    }
}

/// A leading `<folder>/<recipe>` argument of the command line, split.
pub open spec fn spec_folder_scoped(args: Seq<Seq<char>>) -> Option<(Seq<char>, Seq<char>)> {
    match first_positional(args) {
        Some(first) => spec_split_folder_argument(first),
        None => None,
    }
}

/// Split a leading `<folder>/<recipe>` argument, if the command line has one.
///
/// The recipe part is empty for a trailing slash (`<folder>/`), meaning "that
/// folder's default recipe".
pub fn folder_scoped(args: &Vec<String>) -> (r: Option<(String, String)>)
    ensures
        r matches Some((d, rc)) ==> spec_folder_scoped(string_views(args@)) == Some((d@, rc@)),
        r is None ==> spec_folder_scoped(string_views(args@)) is None,
{
    let a = chars_of_all(args);
    match first_positional_exec(&a) {
        Some(first) => {
            let s = string_of(&first);
            split_folder_argument(s.as_str())
        },
        None => None,
    }
}

/// The folder a folder-scoped command line claims for just-next, before its
/// existence is checked: `None` when `--justfile` is given, when the command
/// line is not folder-scoped, or when it names a bare `<folder>/`, which is
/// upstream's search-directory argument.
pub open spec fn spec_folder_claim(args: Seq<Seq<char>>) -> Option<Seq<char>> {
    if flag_value(args, justfile_names()) is Some {
        None
    } else {
        match spec_folder_scoped(args) {
            Some((dir, recipe)) => if recipe.len() == 0 {
                None
            } else {
                Some(dir)
            },
            None => None,
        }
    }
}

/// The folder a folder-scoped command line claims; the caller routes to V2
/// when it exists as a directory and holds no justfile.
pub fn folder_claim(args: &Vec<String>) -> (r: Option<String>)
    ensures
        r matches Some(d) ==> spec_folder_claim(string_views(args@)) == Some(d@),
        r is None ==> spec_folder_claim(string_views(args@)) is None,
{
    if justfile_flag(args).is_some() {
        return None;
    }
    match folder_scoped(args) {
        Some((dir, recipe)) => {
            if recipe.as_str().is_empty() {
                None
            } else {
                Some(dir)
            }
        },
        None => None,
    }
}

/// The justfile a command line refers to, and the engine that should parse
/// it.
#[derive(Debug)]
pub struct Route {
    /// The engine to use.
    pub engine: Engine,
    /// The justfile the pre-scan located, if any.
    pub justfile: Option<String>,
}

/// The engine for a located, readable justfile: V1 under `--legacy`, V2
/// under `--next`, else the justfile's dialect; a justfile with no dialect
/// signal goes to V2 unless the command line uses a flag only upstream
/// implements.
pub open spec fn spec_route_engine(args: Seq<Seq<char>>, content: Seq<char>) -> Engine {
    if has_arg(args, "--legacy"@) {
        Engine::V1
    } else if has_arg(args, "--next"@) {
        Engine::V2
    } else {
        spec_detect_with(
            content,
            if v2_flags_only(args) {
                AMBIGUOUS_DEFAULT
            } else {
                Engine::V1
            },
        )
    }
}

/// The flags the V2 engine implements.
pub open spec fn is_v2_flag(t: Seq<char>) -> bool {
    ||| t == "-n"@
    ||| t == "--dry-run"@
    ||| t == "-q"@
    ||| t == "--quiet"@
    ||| t == "-l"@
    ||| t == "--list"@
    ||| is_value_flag(t)
    ||| starts_with(t, "--justfile="@)
    ||| starts_with(t, "--working-directory="@)
    ||| is_engine_flag(t)
}

/// Whether every flag from index `i` on, up to a `--`, is one the V2 engine
/// implements; the value after `-f`/`-d` is not a flag.
pub open spec fn v2_flags_only_from(args: Seq<Seq<char>>, i: int) -> bool
    decreases args.len() + 1 - i,
{
    if i < 1 || i >= args.len() {
        true
    } else {
        let t = args[i];
        if t == "--"@ {
            true
        } else if t.len() > 1 && t[0] == '-' {
            if !is_v2_flag(t) {
                false
            } else {
                v2_flags_only_from(
                    args,
                    if is_value_flag(t) {
                        i + 2
                    } else {
                        i + 1
                    },
                )
            }
        } else {
            v2_flags_only_from(args, i + 1)
        }
    }
}

/// Whether the command line, after the program name, uses only flags the
/// V2 engine implements.
pub open spec fn v2_flags_only(args: Seq<Seq<char>>) -> bool {
    v2_flags_only_from(args, 1)
}

fn is_v2_flag_exec(t: &Vec<char>) -> (r: bool)
    ensures
        r == is_v2_flag(t@),
{
    eq_str(t, "-n") || eq_str(t, "--dry-run") || eq_str(t, "-q") || eq_str(t, "--quiet")
        || eq_str(t, "-l") || eq_str(t, "--list") || eq_str(t, "-f") || eq_str(t, "--justfile")
        || eq_str(t, "-d") || eq_str(t, "--working-directory") || starts_with_str(
        t,
        "--justfile=",
    ) || starts_with_str(t, "--working-directory=") || eq_str(t, "--legacy") || eq_str(
        t,
        "--next",
    )
}

/// Whether the command line, after the program name, uses only flags the V2
/// engine implements (`-n`, `-q`, `-l`, `-f`, `-d`, `--legacy`, `--next` and
/// their long forms); anything after `--` is not a flag.
pub fn uses_only_v2_flags(args: &Vec<String>) -> (r: bool)
    ensures
        r == v2_flags_only(string_views(args@)),
{
    let a = chars_of_all(args);
    let ghost v = views(a@);
    let mut i: usize = 1;
    while i < a.len()
        invariant
            1 <= i,
            v == views(a@),
            v == string_views(args@),
            v2_flags_only(v) == v2_flags_only_from(v, i as int),
        decreases a.len() - i,
    {
        let t = &a[i];
        assert(v[i as int] == t@);
        if eq_str(t, "--") {
            return true;
        }
        if t.len() > 1 && t[0] == '-' {
            if !is_v2_flag_exec(t) {
                return false;
            }
            if eq_str(t, "-f") || eq_str(t, "--justfile") || eq_str(t, "-d") || eq_str(
                t,
                "--working-directory",
            ) {
                if a.len() - i <= 2 {
                    assert(v2_flags_only_from(v, i + 2));
                    return true;
                }
                i = i + 2;
            } else {
                i = i + 1;
            }
        } else {
            i = i + 1;
        }
    }
    true
}

/// The route for a command line whose justfile was found at `justfile` and
/// read as `content`: `--legacy` forces V1 with no justfile (upstream `just`
/// searches for itself) and `--next` V2; otherwise the justfile's dialect
/// decides, and a justfile with no dialect signal goes to V2 unless the
/// command line uses a flag only upstream implements.
pub fn route_for_content(args: &Vec<String>, justfile: String, content: &str) -> (r: Route)
    ensures
        r.engine == spec_route_engine(string_views(args@), content@),
        r.justfile == if has_arg(string_views(args@), "--legacy"@) {
            None
        } else {
            Some(justfile)
        },
{
    if has_flag(args, "--legacy") {
        return Route { engine: Engine::V1, justfile: None };
    }
    let engine = if has_flag(args, "--next") {
        Engine::V2
    } else if uses_only_v2_flags(args) {
        detect_with(content, AMBIGUOUS_DEFAULT)
    } else {
        detect_with(content, Engine::V1)
    };
    Route { engine, justfile: Some(justfile) }
}

/// The route decided before any justfile is looked for: `--legacy` sends the
/// invocation to V1 with no justfile, since upstream `just` does its own
/// search; any other command line needs the pre-scan (`None`).
pub fn route_before_search(args: &Vec<String>) -> (r: Option<Route>)
    ensures
        match r {
            Some(route) => has_arg(string_views(args@), "--legacy"@) && route.engine == Engine::V1
                && route.justfile is None,
            None => !has_arg(string_views(args@), "--legacy"@),
        },
{
    if has_flag(args, "--legacy") {
        Some(Route { engine: Engine::V1, justfile: None })
    } else {
        None
    }
}

/// The route for a command line whose justfile could not be located or read.
///
/// A folder-scoped command line whose folder exists but holds no justfile
/// goes to V2, which reports the empty folder rather than running a parent's
/// recipe; everything else goes to V1, which performs the authoritative search
/// and reports upstream's own errors.
pub fn route_without_justfile(claimed_folder_exists: bool) -> (r: Route)
    ensures
        r.engine == (if claimed_folder_exists {
            Engine::V2
        } else {
            Engine::V1
        }),
        r.justfile is None,
{
    if claimed_folder_exists {
        Route { engine: Engine::V2, justfile: None }
    } else {
        Route { engine: Engine::V1, justfile: None }
    }
}

} // verus!
