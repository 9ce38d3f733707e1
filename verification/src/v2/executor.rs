//! Running recipes with the V2 engine.
//!
//! Everything the engine decides is computed here: which recipes run and in
//! what order, how parameters bind to arguments, what each command line turns
//! into once arguments are substituted and quoted, and which environment each
//! command sees. What is left to the caller is running the shell.
use vstd::prelude::*;

use crate::text::{chars_of, char_is_alphanumeric, string_of, string_views, unicode_alphanumeric};
use crate::text::{starts_with, trim};
use crate::v2::ast::{
    alias_views, models, DependencyModel, Justfile, JustfileModel, Line, LineModel, Parameter,
    ParameterKind, ParameterModel, Recipe, RecipeModel,
};
use crate::v2::environment::{map_of_pairs, Environment, EnvironmentModel};
use crate::v2::parser::string_pairs;
use crate::vars::{table_clone, table_map, table_set, table_wf};
use crate::v2::error::{opt_error, Error, ErrorModel};
use crate::v2::environment::{lemma_name_end, lemma_name_end_at, lemma_name_end_chars, name_end};

verus! {

// ---------------------------------------------------------------------------
// Quoting
// ---------------------------------------------------------------------------
/// Characters that `shell_quote` leaves bare: alphanumerics and `_ - . /`.
pub open spec fn is_safe_char(c: char) -> bool {
    unicode_alphanumeric(c) || c == '_' || c == '-' || c == '.' || c == '/'
}

/// Every character of `s` is safe to leave unquoted.
pub open spec fn all_safe(s: Seq<char>) -> bool {
    forall|i: int| 0 <= i < s.len() ==> is_safe_char(s[i])
}

/// One character inside single quotes: a `'` closes the quotes, emits an
/// escaped quote and reopens them.
pub open spec fn escape_char(c: char) -> Seq<char> {
    if c == '\'' {
        seq!['\'', '\\', '\'', '\'']
    } else {
        seq![c]
    }
}

/// `s` with every `'` written as `'\''`.
pub open spec fn escape_quotes(s: Seq<char>) -> Seq<char>
    decreases s.len(),
{
    if s.len() == 0 {
        seq![]
    } else {
        escape_char(s[0]) + escape_quotes(s.drop_first())
    }
}

/// `s` as one shell word: bare when it is non-empty and every character is
/// safe, otherwise in single quotes (so the empty string is `''`).
pub open spec fn quote(s: Seq<char>) -> Seq<char> {
    if s.len() > 0 && all_safe(s) {
        s
    } else {
        seq!['\''] + escape_quotes(s) + seq!['\'']
    }
}

/// What a POSIX shell reads from a word of bare characters, backslash escapes
/// and single-quoted runs: the characters, with the quoting removed. `quoted`
/// is whether the reading starts inside single quotes.
pub open spec fn shell_read(q: Seq<char>, quoted: bool) -> Seq<char>
    decreases q.len(),
{
    if q.len() == 0 {
        seq![]
    } else if quoted {
        if q[0] == '\'' {
            shell_read(q.drop_first(), false)
        } else {
            seq![q[0]] + shell_read(q.drop_first(), true)
        }
    } else if q[0] == '\'' {
        shell_read(q.drop_first(), true)
    } else if q[0] == '\\' && q.len() >= 2 {
        seq![q[1]] + shell_read(q.drop_first().drop_first(), false)
    } else {
        seq![q[0]] + shell_read(q.drop_first(), false)
    }
}

proof fn lemma_read_escaped(s: Seq<char>, rest: Seq<char>)
    ensures
        shell_read(escape_quotes(s) + rest, true) == s + shell_read(rest, true),
    decreases s.len(),
{
    if s.len() == 0 {
        assert(escape_quotes(s) + rest =~= rest);
        assert(s + shell_read(rest, true) =~= shell_read(rest, true));
    } else {
        let t = s.drop_first();
        lemma_read_escaped(t, rest);
        let q = escape_quotes(s) + rest;
        let tail = escape_quotes(t) + rest;
        if s[0] == '\'' {
            assert(q =~= seq!['\'', '\\', '\'', '\''] + tail);
            assert(q.drop_first() =~= seq!['\\', '\'', '\''] + tail);
            assert(q.drop_first().drop_first().drop_first() =~= seq!['\''] + tail);
            assert((seq!['\''] + tail).drop_first() =~= tail);
            assert(shell_read(seq!['\''] + tail, false) == shell_read(tail, true));
            assert(shell_read(q.drop_first(), false) == seq!['\''] + shell_read(
                seq!['\''] + tail,
                false,
            ));
        } else {
            assert(q =~= seq![s[0]] + tail);
            assert(q.drop_first() =~= tail);
        }
        assert(s =~= seq![s[0]] + t);
        assert(s + shell_read(rest, true) =~= seq![s[0]] + (t + shell_read(rest, true)));
    }
}

proof fn lemma_read_bare(s: Seq<char>)
    requires
        forall|i: int| 0 <= i < s.len() ==> s[i] != '\'' && s[i] != '\\',
    ensures
        shell_read(s, false) == s,
    decreases s.len(),
{
    if s.len() > 0 {
        lemma_read_bare(s.drop_first());
        assert(s =~= seq![s[0]] + s.drop_first());
    }
}

/// Quote `s` for a shell so that it reads back as exactly one word holding
/// `s`: bare when it is non-empty and made of alphanumerics and `_ - . /`
/// only, otherwise single-quoted with each `'` written as `'\''`.
pub fn shell_quote(s: &str) -> (r: String)
    ensures
        r@ == quote(s@),
        shell_read(r@, false) == s@,
        r@.len() > 0,
{
    let v = chars_of(s);
    let mut safe = true;
    let mut i: usize = 0;
    while i < v.len()
        invariant
            0 <= i <= v.len(),
            v@ == s@,
            safe <==> (forall|j: int| 0 <= j < i ==> is_safe_char(v@[j])),
            safe ==> (forall|j: int| 0 <= j < i ==> v@[j] != '\'' && v@[j] != '\\'),
        decreases v.len() - i,
    {
        let c = v[i];
        let ok = char_is_alphanumeric(c) || c == '_' || c == '-' || c == '.' || c == '/';
        safe = safe && ok;
        i = i + 1;
    }
    if safe && v.len() > 0 {
        proof {
            lemma_read_bare(s@);
        }
        return string_of(&v);
    }
    let mut out: Vec<char> = Vec::new();
    out.push('\'');
    let mut k: usize = 0;
    assert(v@.skip(0) =~= v@);
    while k < v.len()
        invariant
            0 <= k <= v.len(),
            v@ == s@,
            out@ + escape_quotes(v@.skip(k as int)) == seq!['\''] + escape_quotes(v@),
        decreases v.len() - k,
    {
        let ghost before = out@;
        assert(v@.skip(k as int).drop_first() =~= v@.skip(k + 1));
        if v[k] == '\'' {
            out.push('\'');
            out.push('\\');
            out.push('\'');
            out.push('\'');
        } else {
            out.push(v[k]);
        }
        assert(out@ =~= before + escape_char(v@[k as int]));
        k = k + 1;
    }
    assert(v@.skip(v.len() as int) =~= seq![]);
    assert(out@ =~= seq!['\''] + escape_quotes(v@));
    out.push('\'');
    proof {
        lemma_read_escaped(s@, seq!['\'']);
        let q = out@;
        assert(q.drop_first() =~= escape_quotes(s@) + seq!['\'']);
        let one = seq!['\''];
        assert(one[0] == '\'');
        assert(one.drop_first() =~= Seq::<char>::empty());
        assert(shell_read(one.drop_first(), false) =~= Seq::<char>::empty());
        assert(shell_read(one, true) =~= Seq::<char>::empty());
        assert(s@ + seq![] =~= s@);
    }
    string_of(&out)
}

// ---------------------------------------------------------------------------
// Parameter values
// ---------------------------------------------------------------------------
/// The words of `ws` separated by single spaces, as `[String]::join(" ")`.
pub open spec fn join_words(ws: Seq<Seq<char>>) -> Seq<char>
    decreases ws.len(),
{
    if ws.len() == 0 {
        seq![]
    } else if ws.len() == 1 {
        ws[0]
    } else {
        join_words(ws.drop_last()) + seq![' '] + ws.last()
    }
}

/// Each word of `ws` quoted.
pub open spec fn quote_words(ws: Seq<Seq<char>>) -> Seq<Seq<char>> {
    Seq::new(ws.len(), |i: int| quote(ws[i]))
}

/// The value bound to a recipe parameter.
///
/// Variadic parameters keep their arguments as separate items rather than a
/// joined string, so that each can be quoted independently when substituted.
#[derive(Debug)]
pub enum Binding {
    One(String),
    Many(Vec<String>),
}

/// The model of a [`Binding`].
pub enum BindingModel {
    One(Seq<char>),
    Many(Seq<Seq<char>>),
}

impl View for Binding {
    type V = BindingModel;

    open spec fn view(&self) -> BindingModel {
        match self {
            Binding::One(v) => BindingModel::One(v@),
            Binding::Many(vs) => BindingModel::Many(string_views(vs@)),
        }
    }
}

/// The value as a single string, as it is passed through the environment.
pub open spec fn joined(b: BindingModel) -> Seq<char> {
    match b {
        BindingModel::One(v) => v,
        BindingModel::Many(vs) => join_words(vs),
    }
}

/// The value as it appears in an unquoted position: every item quoted.
pub open spec fn quoted(b: BindingModel) -> Seq<char> {
    match b {
        BindingModel::One(v) => quote(v),
        BindingModel::Many(vs) => join_words(quote_words(vs)),
    }
}

/// `ws` joined with single spaces.
fn join_strings(ws: &Vec<String>) -> (r: String)
    ensures
        r@ == join_words(string_views(ws@)),
{
    let ghost w = string_views(ws@);
    let mut out: Vec<char> = Vec::new();
    let mut i: usize = 0;
    while i < ws.len()
        invariant
            0 <= i <= ws.len(),
            w == string_views(ws@),
            out@ == join_words(w.take(i as int)),
        decreases ws.len() - i,
    {
        let c = chars_of(ws[i].as_str());
        assert(w.take(i + 1).drop_last() =~= w.take(i as int));
        if i > 0 {
            out.push(' ');
        } else {
            assert(w.take(1) =~= seq![w[0]]);
            assert(out@ =~= seq![]);
        }
        out = crate::text::concat_chars(&out, &c);
        i = i + 1;
    }
    assert(w.take(ws.len() as int) =~= w);
    string_of(&out)
}

/// Each of `ws` quoted, then joined with single spaces.
fn quote_strings(ws: &Vec<String>) -> (r: String)
    ensures
        r@ == join_words(quote_words(string_views(ws@))),
{
    let mut q: Vec<String> = Vec::new();
    let mut i: usize = 0;
    while i < ws.len()
        invariant
            0 <= i <= ws.len(),
            q.len() == i,
            string_views(q@) =~= quote_words(string_views(ws@)).take(
                i as int,
            ),
        decreases ws.len() - i,
    {
        let w = shell_quote(ws[i].as_str());
        assert(w@ == quote(string_views(ws@)[i as int]));
        let ghost before = q@;
        q.push(w);
        assert(q@[i as int]@ == quote(string_views(ws@)[i as int]));
        assert(string_views(q@) =~= quote_words(string_views(ws@)).take(
            i + 1,
        ));
        i = i + 1;
    }
    assert(quote_words(string_views(ws@)).take(ws.len() as int) =~= quote_words(
        string_views(ws@),
    ));
    join_strings(&q)
}

impl Binding {
    /// The value as a single string, for passing through the environment.
    pub fn joined(&self) -> (r: String)
        ensures
            r@ == joined(self@),
    {
        match self {
            Binding::One(v) => string_of(&chars_of(v.as_str())),
            Binding::Many(vs) => join_strings(vs),
        }
    }

    /// The value as it should appear in an unquoted position: every item
    /// shell-quoted, so arguments survive word splitting and globbing intact.
    pub fn quoted(&self) -> (r: String)
        ensures
            r@ == quoted(self@),
    {
        match self {
            Binding::One(v) => shell_quote(v.as_str()),
            Binding::Many(vs) => quote_strings(vs),
        }
    }

    /// A copy of this binding.
    fn copy(&self) -> (r: Binding)
        ensures
            r@ == self@,
    {
        match self {
            Binding::One(v) => Binding::One(string_of(&chars_of(v.as_str()))),
            Binding::Many(vs) => Binding::Many(copy_strings(vs)),
        }
    }
}

/// A copy of each string of `v`.
pub fn copy_strings(v: &Vec<String>) -> (r: Vec<String>)
    ensures
        string_views(r@) == string_views(v@),
{
    let mut c: Vec<String> = Vec::new();
    let mut i: usize = 0;
    while i < v.len()
        invariant
            0 <= i <= v.len(),
            c.len() == i,
            string_views(c@) =~= string_views(v@).take(i as int),
        decreases v.len() - i,
    {
        let w = string_of(&chars_of(v[i].as_str()));
        assert(w@ == string_views(v@)[i as int]);
        c.push(w);
        assert(string_views(c@) =~= string_views(v@).take(i + 1));
        i = i + 1;
    }
    assert(string_views(v@).take(v.len() as int) =~= string_views(v@));
    c
}

// ---------------------------------------------------------------------------
// Numbers
// ---------------------------------------------------------------------------
/// An ASCII digit.
pub open spec fn is_digit(c: char) -> bool {
    '0' <= c && c <= '9'
}

/// The value of the decimal digits `s`.
pub open spec fn decimal_value(s: Seq<char>) -> nat
    decreases s.len(),
{
    if s.len() == 0 {
        0
    } else {
        decimal_value(s.drop_last()) * 10 + ((s.last() as int) - ('0' as int)) as nat
    }
}

/// Every character of `d` is an ASCII digit.
pub open spec fn all_digits(d: Seq<char>) -> bool {
    forall|i: int| 0 <= i < d.len() ==> is_digit(d[i])
}

/// `s` without a leading `+`.
pub open spec fn unsigned_part(s: Seq<char>) -> Seq<char> {
    if s.len() > 0 && s[0] == '+' {
        s.drop_first()
    } else {
        s
    }
}

/// What `str::parse::<usize>` gives: an optional `+`, then one or more ASCII
/// digits whose value fits in a `usize`.
pub open spec fn parse_usize(s: Seq<char>) -> Option<usize> {
    let d = unsigned_part(s);
    if d.len() > 0 && all_digits(d) && decimal_value(d) <= usize::MAX {
        Some(decimal_value(d) as usize)
    } else {
        None
    }
}

proof fn lemma_decimal_grows(d: Seq<char>, k: int)
    requires
        0 <= k <= d.len(),
        forall|i: int| 0 <= i < d.len() ==> is_digit(d[i]),
    ensures
        decimal_value(d.take(k)) <= decimal_value(d),
    decreases d.len() - k,
{
    if k < d.len() {
        lemma_decimal_grows(d, k + 1);
        assert(d.take(k + 1).drop_last() =~= d.take(k));
    } else {
        assert(d.take(k) =~= d);
    }
}

/// `str::parse::<usize>`, or `None` when the text is not a number in range.
pub fn parse_number(s: &Vec<char>) -> (r: Option<usize>)
    ensures
        r == parse_usize(s@),
{
    let start: usize = if s.len() > 0 && s[0] == '+' {
        1
    } else {
        0
    };
    let ghost d = unsigned_part(s@);
    assert(d =~= s@.skip(start as int));
    if start >= s.len() {
        assert(d.len() == 0);
        return None;
    }
    let mut i = start;
    while i < s.len()
        invariant
            start <= i <= s.len(),
            d =~= s@.skip(start as int),
            d == unsigned_part(s@),
            forall|j: int| 0 <= j < i - start ==> is_digit(d[j]),
        decreases s.len() - i,
    {
        if !(s[i] >= '0' && s[i] <= '9') {
            assert(d[i - start] == s@[i as int]);
            assert(!is_digit(d[i - start]));
            assert(!(forall|j: int| 0 <= j < d.len() ==> is_digit(d[j])));
            assert(parse_usize(s@) is None);
            return None;
        }
        i = i + 1;
    }
    let mut value: usize = 0;
    let mut k = start;
    while k < s.len()
        invariant
            start <= k <= s.len(),
            d =~= s@.skip(start as int),
            d == unsigned_part(s@),
            forall|j: int| 0 <= j < d.len() ==> is_digit(d[j]),
            value == decimal_value(d.take(k - start)),
        decreases s.len() - k,
    {
        assert(d[k - start] == s@[k as int]);
        assert(is_digit(d[k - start]));
        let digit = (s[k] as u32 - '0' as u32) as usize;
        assert(d.take(k - start + 1).drop_last() =~= d.take(k - start));
        assert(d.take(k - start + 1).last() == s@[k as int]);
        assert(decimal_value(d.take(k - start + 1)) == value * 10 + digit);
        match value.checked_mul(10) {
            Some(m) => match m.checked_add(digit) {
                Some(n) => {
                    value = n;
                },
                None => {
                    proof {
                        lemma_decimal_grows(d, k - start + 1);
                    }
                    return None;
                },
            },
            None => {
                proof {
                    lemma_decimal_grows(d, k - start + 1);
                }
                return None;
            },
        }
        k = k + 1;
    }
    assert(d.take(d.len() as int) =~= d);
    Some(value)
}

// ---------------------------------------------------------------------------
// Substitution
// ---------------------------------------------------------------------------
/// The models of parameter bindings, in order.
pub open spec fn param_views(p: Seq<(String, Binding)>) -> Seq<(Seq<char>, BindingModel)> {
    Seq::new(p.len(), |i: int| (p[i].0@, p[i].1@))
}

/// The binding of `name` among `params`; the last one when a name is bound
/// twice, as a map filled in order keeps it.
pub open spec fn param_binding(params: Seq<(Seq<char>, BindingModel)>, name: Seq<char>) -> Option<
    BindingModel,
>
    decreases params.len(),
{
    if params.len() == 0 {
        None
    } else if params.last().0 == name {
        Some(params.last().1)
    } else {
        param_binding(params.drop_last(), name)
    }
}

/// What `name` substitutes to: a parameter, else the positional argument
/// `$1`, `$2`, … (empty past the last argument); `None` for anything else,
/// which is left to the shell.
pub open spec fn lookup(
    params: Seq<(Seq<char>, BindingModel)>,
    positional: Seq<Seq<char>>,
    name: Seq<char>,
) -> Option<BindingModel> {
    match param_binding(params, name) {
        Some(b) => Some(b),
        None => match parse_usize(name) {
            Some(n) => if n >= 1 {
                Some(
                    BindingModel::One(
                        if n - 1 < positional.len() {
                            positional[n - 1]
                        } else {
                            seq![]
                        },
                    ),
                )
            } else {
                None
            },
            None => None,
        },
    }
}

/// The reference after a `$` at index `j`: `$NAME`, `${NAME}`, `$@` or `$*`,
/// when it is one this engine substitutes. Gives the value, whether it was
/// written `$@`, and the index after the reference.
pub open spec fn read_subst(
    s: Seq<char>,
    j: int,
    params: Seq<(Seq<char>, BindingModel)>,
    positional: Seq<Seq<char>>,
) -> Option<(BindingModel, bool, int)> {
    let braced = 0 <= j < s.len() && s[j] == '{';
    let start = if braced {
        j + 1
    } else {
        j
    };
    let e = name_end(s, start);
    if e == start {
        if !braced && 0 <= j < s.len() && (s[j] == '@' || s[j] == '*') {
            Some((BindingModel::Many(positional), s[j] == '@', j + 1))
        } else {
            None
        }
    } else if braced && !(e < s.len() && s[e] == '}') {
        None
    } else {
        let next = if braced {
            e + 1
        } else {
            e
        };
        match lookup(params, positional, s.subrange(start, e)) {
            Some(b) => Some((b, false, next)),
            None => None,
        }
    }
}

pub proof fn lemma_read_subst(
    s: Seq<char>,
    j: int,
    params: Seq<(Seq<char>, BindingModel)>,
    positional: Seq<Seq<char>>,
)
    requires
        0 <= j <= s.len(),
    ensures
        match read_subst(s, j, params, positional) {
            Some(r) => j < r.2 <= s.len(),
            None => true,
        },
{
    let braced = 0 <= j < s.len() && s[j] == '{';
    let start = if braced {
        j + 1
    } else {
        j
    };
    lemma_name_end(s, start);
}

/// How far reading one reference after a `$` at `j` advances: `${NAME}`
/// ends just after its `}`, with only name characters between the braces;
/// `$@` and `$*` end just after the `@` or `*` (which are not name
/// characters); `$NAME` ends at the first
/// character after `j` that is neither alphanumeric nor `_` (or the end).
pub proof fn law_read_subst_advance(
    s: Seq<char>,
    j: int,
    params: Seq<(Seq<char>, BindingModel)>,
    positional: Seq<Seq<char>>,
)
    requires
        0 <= j <= s.len(),
    ensures
        read_subst(s, j, params, positional) matches Some((b, is_at, next)) ==> {
            &&& j < next <= s.len()
            &&& (j < s.len() && s[j] == '{') ==> (j + 2 < next && s[next - 1] == '}' && forall|m: int|
                j + 1 <= m < next - 1 ==> unicode_alphanumeric(#[trigger] s[m]) || s[m] == '_')
            &&& (j < s.len() && (s[j] == '@' || s[j] == '*') && !unicode_alphanumeric(s[j]))
                ==> next == j + 1 && is_at == (s[j]
                == '@') && b == BindingModel::Many(positional)
            &&& (j < s.len() && s[j] != '{' && s[j] != '@' && s[j] != '*') ==> (forall|m: int|
                j <= m < next ==> unicode_alphanumeric(#[trigger] s[m]) || s[m] == '_') && (next
                < s.len() ==> !(unicode_alphanumeric(s[next]) || s[next] == '_'))
        },
{
    lemma_read_subst(s, j, params, positional);
    if j < s.len() && s[j] == '{' {
        lemma_name_end_chars(s, j + 1);
    } else {
        lemma_name_end_chars(s, j);
    }
}

/// How a substituted value is written: inside double quotes as the raw value
/// (a `"$@"` list stays a quoted list), elsewhere with every item quoted.
pub open spec fn subst_piece(b: BindingModel, is_at: bool, in_double: bool) -> Seq<char> {
    if in_double && is_at {
        seq!['"'] + quoted(b) + seq!['"']
    } else if in_double {
        joined(b)
    } else {
        quoted(b)
    }
}

/// `s` from index `i` on with parameters and positional arguments
/// substituted, tracking whether the scan is inside single or double quotes.
pub open spec fn substitute_from(
    s: Seq<char>,
    i: int,
    in_single: bool,
    in_double: bool,
    params: Seq<(Seq<char>, BindingModel)>,
    positional: Seq<Seq<char>>,
) -> Seq<char>
    decreases s.len() - i,
{
    if i < 0 || i >= s.len() {
        seq![]
    } else if s[i] == '\\' && !in_single {
        if i + 1 < s.len() {
            seq![s[i], s[i + 1]] + substitute_from(
                s,
                i + 2,
                in_single,
                in_double,
                params,
                positional,
            )
        } else {
            seq![s[i]]
        }
    } else if s[i] == '\'' && !in_double {
        seq![s[i]] + substitute_from(s, i + 1, !in_single, in_double, params, positional)
    } else if s[i] == '"' && !in_single {
        seq![s[i]] + substitute_from(s, i + 1, in_single, !in_double, params, positional)
    } else if s[i] == '$' && !in_single {
        proof {
            lemma_read_subst(s, i + 1, params, positional);
        }
        match read_subst(s, i + 1, params, positional) {
            Some(r) => subst_piece(r.0, r.1, in_double) + substitute_from(
                s,
                r.2,
                in_single,
                in_double,
                params,
                positional,
            ),
            None => seq!['$'] + substitute_from(
                s,
                i + 1,
                in_single,
                in_double,
                params,
                positional,
            ),
        }
    } else {
        seq![s[i]] + substitute_from(s, i + 1, in_single, in_double, params, positional)
    }
}

/// `text` with recipe parameters and positional arguments substituted.
///
/// In an unquoted position each value is shell-quoted, so it survives word
/// splitting and globbing as one argument, and a variadic parameter expands
/// to its items individually quoted. Inside double quotes the raw value is
/// inserted, except that `"$@"` stays a list of quoted items. Inside single
/// quotes nothing is substituted. Anything that is not a parameter or a
/// positional argument is left for the shell.
pub open spec fn substitute(
    text: Seq<char>,
    params: Seq<(Seq<char>, BindingModel)>,
    positional: Seq<Seq<char>>,
) -> Seq<char> {
    substitute_from(text, 0, false, false, params, positional)
}

fn lookup_exec(params: &Vec<(String, Binding)>, positional: &Vec<String>, name: &Vec<char>) -> (r:
    Option<Binding>)
    ensures
        match r {
            Some(b) => lookup(param_views(params@), string_views(positional@), name@) == Some(b@),
            None => lookup(param_views(params@), string_views(positional@), name@) is None,
        },
{
    let ghost pv = param_views(params@);
    let n = string_of(name);
    let mut k = params.len();
    assert(pv.take(k as int) =~= pv);
    while k > 0
        invariant
            0 <= k <= params.len(),
            pv == param_views(params@),
            n@ == name@,
            param_binding(pv, name@) == param_binding(pv.take(k as int), name@),
        decreases k,
    {
        assert(pv.take(k as int).drop_last() =~= pv.take(k - 1));
        if crate::text::str_eq(params[k - 1].0.as_str(), n.as_str()) {
            return Some(params[k - 1].1.copy());
        }
        k = k - 1;
    }
    assert(pv.take(0) =~= Seq::<(Seq<char>, BindingModel)>::empty());
    match parse_number(name) {
        Some(idx) => {
            if idx >= 1 {
                if idx - 1 < positional.len() {
                    Some(Binding::One(string_of(&chars_of(positional[idx - 1].as_str()))))
                } else {
                    let e: Vec<char> = Vec::new();
                    assert(e@ =~= Seq::<char>::empty());
                    Some(Binding::One(string_of(&e)))
                }
            } else {
                None
            }
        },
        None => None,
    }
}

/// The end of the name that starts at `i`: alphanumerics and `_`.
fn name_end_exec(s: &Vec<char>, i: usize) -> (r: usize)
    requires
        i <= s.len(),
    ensures
        r == name_end(s@, i as int),
        i <= r <= s.len(),
{
    proof {
        lemma_name_end(s@, i as int);
    }
    let mut e = i;
    while e < s.len() && (char_is_alphanumeric(s[e]) || s[e] == '_')
        invariant
            i <= e <= s.len(),
            name_end(s@, i as int) == name_end(s@, e as int),
        decreases s.len() - e,
    {
        e = e + 1;
    }
    e
}

fn read_subst_exec(
    s: &Vec<char>,
    j: usize,
    params: &Vec<(String, Binding)>,
    positional: &Vec<String>,
) -> (r: Option<(Binding, bool, usize)>)
    requires
        j <= s.len(),
    ensures
        match r {
            Some(t) => read_subst(s@, j as int, param_views(params@), string_views(positional@))
                == Some((t.0@, t.1, t.2 as int)),
            None => read_subst(s@, j as int, param_views(params@), string_views(positional@)) is None,
        },
{
    let braced = j < s.len() && s[j] == '{';
    let start = if braced {
        j + 1
    } else {
        j
    };
    let e = name_end_exec(s, start);
    if e == start {
        if !braced && j < s.len() && (s[j] == '@' || s[j] == '*') {
            Some((Binding::Many(copy_strings(positional)), s[j] == '@', j + 1))
        } else {
            None
        }
    } else if braced && !(e < s.len() && s[e] == '}') {
        None
    } else {
        let next = if braced {
            e + 1
        } else {
            e
        };
        let name = crate::text::slice(s, start, e);
        match lookup_exec(params, positional, &name) {
            Some(b) => Some((b, false, next)),
            None => None,
        }
    }
}

/// Substitute recipe parameters and positional arguments into `text`; see
/// [`substitute`].
pub fn substitute_exec(text: &str, params: &Vec<(String, Binding)>, positional: &Vec<String>) -> (r:
    String)
    ensures
        r@ == substitute(text@, param_views(params@), string_views(positional@)),
{
    let ghost pv = param_views(params@);
    let ghost ps = string_views(positional@);
    let s = chars_of(text);
    let mut out: Vec<char> = Vec::new();
    let mut in_single = false;
    let mut in_double = false;
    let mut i: usize = 0;
    while i < s.len()
        invariant
            0 <= i <= s.len(),
            s@ == text@,
            pv == param_views(params@),
            ps == string_views(positional@),
            out@ + substitute_from(s@, i as int, in_single, in_double, pv, ps) == substitute(
                text@,
                pv,
                ps,
            ),
        decreases s.len() - i,
    {
        let ghost before = out@;
        let ghost (si, sd) = (in_single, in_double);
        let c = s[i];
        if c == '\\' && !in_single {
            out.push(c);
            if i + 1 < s.len() {
                out.push(s[i + 1]);
                assert(out@ =~= before + seq![s@[i as int], s@[i + 1]]);
                i = i + 2;
            } else {
                assert(out@ =~= before + seq![s@[i as int]]);
                assert(substitute_from(s@, i + 1, si, sd, pv, ps) =~= Seq::<char>::empty());
                i = i + 1;
            }
        } else if c == '\'' && !in_double {
            in_single = !in_single;
            out.push(c);
            assert(out@ =~= before + seq![c]);
            i = i + 1;
        } else if c == '"' && !in_single {
            in_double = !in_double;
            out.push(c);
            assert(out@ =~= before + seq![c]);
            i = i + 1;
        } else if c == '$' && !in_single {
            proof {
                lemma_read_subst(s@, i + 1, pv, ps);
            }
            match read_subst_exec(&s, i + 1, params, positional) {
                Some((b, is_at, next)) => {
                    let piece = if in_double && is_at {
                        let q = chars_of(b.quoted().as_str());
                        let mut p: Vec<char> = Vec::new();
                        p.push('"');
                        let mut p = crate::text::concat_chars(&p, &q);
                        p.push('"');
                        assert(p@ =~= seq!['"'] + quoted(b@) + seq!['"']);
                        p
                    } else if in_double {
                        chars_of(b.joined().as_str())
                    } else {
                        chars_of(b.quoted().as_str())
                    };
                    out = crate::text::concat_chars(&out, &piece);
                    i = next;
                },
                None => {
                    out.push('$');
                    assert(out@ =~= before + seq!['$']);
                    i = i + 1;
                },
            }
        } else {
            out.push(c);
            assert(out@ =~= before + seq![c]);
            i = i + 1;
        }
    }
    assert(out@ + seq![] =~= out@);
    string_of(&out)
}

// ---------------------------------------------------------------------------
// Binding parameters
// ---------------------------------------------------------------------------
/// `r` with `x` put in front of its bindings.
pub open spec fn prepend(
    x: (Seq<char>, BindingModel),
    r: Result<Seq<(Seq<char>, BindingModel)>, Seq<char>>,
) -> Result<Seq<(Seq<char>, BindingModel)>, Seq<char>> {
    match r {
        Ok(b) => Ok(seq![x] + b),
        Err(e) => Err(e),
    }
}

/// `r` with `out` put in front of its bindings.
pub open spec fn with_prefix(
    out: Seq<(Seq<char>, BindingModel)>,
    r: Result<Seq<(Seq<char>, BindingModel)>, Seq<char>>,
) -> Result<Seq<(Seq<char>, BindingModel)>, Seq<char>> {
    match r {
        Ok(b) => Ok(out + b),
        Err(e) => Err(e),
    }
}

/// The bindings of parameters `i..` to the arguments from `a` on, in
/// parameter order, or the name of the first parameter left without a value.
///
/// A normal parameter takes the next argument, else its default; a `*`
/// parameter takes all remaining arguments; a `+` parameter takes all
/// remaining arguments and needs at least one.
pub open spec fn bind_from(params: Seq<ParameterModel>, args: Seq<Seq<char>>, i: int, a: int) -> Result<
    Seq<(Seq<char>, BindingModel)>,
    Seq<char>,
>
    decreases params.len() - i,
{
    if i < 0 || i >= params.len() {
        Ok(seq![])
    } else {
        let p = params[i];
        match p.kind {
            ParameterKind::Normal => if 0 <= a < args.len() {
                prepend((p.name, BindingModel::One(args[a])), bind_from(params, args, i + 1, a + 1))
            } else {
                match p.default {
                    Some(d) => prepend(
                        (p.name, BindingModel::One(d)),
                        bind_from(params, args, i + 1, a),
                    ),
                    None => Err(p.name),
                }
            },
            ParameterKind::Variadic => prepend(
                (p.name, BindingModel::Many(args.skip(a))),
                bind_from(params, args, i + 1, args.len() as int),
            ),
            ParameterKind::PlusVariadic => if a >= args.len() {
                Err(p.name)
            } else {
                prepend(
                    (p.name, BindingModel::Many(args.skip(a))),
                    bind_from(params, args, i + 1, args.len() as int),
                )
            },
        }
    }
}

/// The bindings of `params` to `args`; see [`bind_from`].
pub open spec fn bind_parameters(params: Seq<ParameterModel>, args: Seq<Seq<char>>) -> Result<
    Seq<(Seq<char>, BindingModel)>,
    Seq<char>,
> {
    bind_from(params, args, 0, 0)
}

proof fn lemma_bind_normal_from(params: Seq<ParameterModel>, args: Seq<Seq<char>>, i: int)
    requires
        0 <= i <= params.len(),
        params.len() <= args.len(),
        forall|k: int| 0 <= k < params.len() ==> #[trigger] params[k].kind == ParameterKind::Normal,
    ensures
        bind_from(params, args, i, i) == Ok::<Seq<(Seq<char>, BindingModel)>, Seq<char>>(
            Seq::new(
                (params.len() - i) as nat,
                |k: int| (params[i + k].name, BindingModel::One(args[i + k])),
            ),
        ),
    decreases params.len() - i,
{
    if i < params.len() {
        lemma_bind_normal_from(params, args, i + 1);
        assert(params[i].kind == ParameterKind::Normal);
        let rest = Seq::new(
            (params.len() - i - 1) as nat,
            |k: int| (params[i + 1 + k].name, BindingModel::One(args[i + 1 + k])),
        );
        assert(seq![(params[i].name, BindingModel::One(args[i]))] + rest =~= Seq::new(
            (params.len() - i) as nat,
            |k: int| (params[i + k].name, BindingModel::One(args[i + k])),
        ));
    } else {
        assert(Seq::new(
            (params.len() - i) as nat,
            |k: int| (params[i + k].name, BindingModel::One(args[i + k])),
        ) =~= Seq::<(Seq<char>, BindingModel)>::empty());
    }
}

/// Parameters without `*` or `+` take the arguments in order: with at least
/// as many arguments as parameters, parameter `k` is bound to argument `k`.
pub proof fn law_parameters_take_arguments_in_order(
    params: Seq<ParameterModel>,
    args: Seq<Seq<char>>,
)
    requires
        params.len() <= args.len(),
        forall|k: int| 0 <= k < params.len() ==> #[trigger] params[k].kind == ParameterKind::Normal,
    ensures
        bind_parameters(params, args) matches Ok(b) && b.len() == params.len() && forall|k: int|
            0 <= k < params.len() ==> #[trigger] b[k] == (params[k].name, BindingModel::One(args[k])),
{
    lemma_bind_normal_from(params, args, 0);
}

/// A parameter without `*` or `+` and without a default, with no argument
/// left for it, is the missing argument: binding fails with its name when
/// every parameter before it takes an argument.
pub proof fn law_missing_argument_named(params: Seq<ParameterModel>, args: Seq<Seq<char>>)
    requires
        args.len() < params.len(),
        forall|k: int| 0 <= k <= args.len() ==> #[trigger] params[k].kind == ParameterKind::Normal,
        params[args.len() as int].default is None,
    ensures
        bind_parameters(params, args) == Err::<Seq<(Seq<char>, BindingModel)>, Seq<char>>(
            params[args.len() as int].name,
        ),
{
    lemma_bind_missing_from(params, args, 0);
}

proof fn lemma_bind_missing_from(params: Seq<ParameterModel>, args: Seq<Seq<char>>, i: int)
    requires
        0 <= i <= args.len(),
        args.len() < params.len(),
        forall|k: int| 0 <= k <= args.len() ==> #[trigger] params[k].kind == ParameterKind::Normal,
        params[args.len() as int].default is None,
    ensures
        bind_from(params, args, i, i) == Err::<Seq<(Seq<char>, BindingModel)>, Seq<char>>(
            params[args.len() as int].name,
        ),
    decreases args.len() - i,
{
    assert(params[i].kind == ParameterKind::Normal);
    if i < args.len() {
        lemma_bind_missing_from(params, args, i + 1);
    }
}

/// The index of the first `*` or `+` parameter from `i` on, or the number
/// of parameters when there is none.
pub open spec fn first_variadic_from(params: Seq<ParameterModel>, i: int) -> int
    decreases params.len() - i,
{
    if i < 0 || i >= params.len() {
        params.len() as int
    } else if params[i].kind != ParameterKind::Normal {
        i
    } else {
        first_variadic_from(params, i + 1)
    }
}

proof fn lemma_first_variadic(params: Seq<ParameterModel>, i: int)
    requires
        0 <= i <= params.len(),
    ensures
        i <= first_variadic_from(params, i) <= params.len(),
        forall|m: int|
            i <= m < first_variadic_from(params, i) ==> #[trigger] params[m].kind
                == ParameterKind::Normal,
        first_variadic_from(params, i) < params.len() ==> params[first_variadic_from(
            params,
            i,
        )].kind != ParameterKind::Normal,
    decreases params.len() - i,
{
    if i < params.len() && params[i].kind == ParameterKind::Normal {
        lemma_first_variadic(params, i + 1);
    }
}

/// The value parameter `i` of `params` binds to, `None` when it gets none.
/// With `k` the first `*` or `+` parameter: a parameter before `k` takes the
/// argument at its own position, else its default; parameter `k` takes the
/// arguments from position `k` on (a `+` one needs at least one); a later
/// parameter takes its default, or nothing when it is `*`, and a later `+`
/// parameter gets none.
pub open spec fn bound_value(params: Seq<ParameterModel>, args: Seq<Seq<char>>, i: int) -> Option<
    BindingModel,
> {
    let k = first_variadic_from(params, 0);
    let p = params[i];
    if i < k {
        if i < args.len() {
            Some(BindingModel::One(args[i]))
        } else {
            match p.default {
                Some(d) => Some(BindingModel::One(d)),
                None => None,
            }
        }
    } else if i == k {
        if p.kind == ParameterKind::PlusVariadic && args.len() <= k {
            None
        } else {
            Some(BindingModel::Many(args.skip(if k < args.len() { k } else { args.len() as int })))
        }
    } else {
        match p.kind {
            ParameterKind::Normal => match p.default {
                Some(d) => Some(BindingModel::One(d)),
                None => None,
            },
            ParameterKind::Variadic => Some(BindingModel::Many(seq![])),
            ParameterKind::PlusVariadic => None,
        }
    }
}

/// Where the walk over the arguments stands when parameter `i` is reached.
pub open spec fn arg_position(params: Seq<ParameterModel>, args: Seq<Seq<char>>, i: int) -> int {
    let k = first_variadic_from(params, 0);
    if i <= k {
        if i < args.len() {
            i
        } else {
            args.len() as int
        }
    } else {
        args.len() as int
    }
}

proof fn lemma_bind_closed_form(params: Seq<ParameterModel>, args: Seq<Seq<char>>, i: int)
    requires
        0 <= i <= params.len(),
    ensures
        (forall|m: int| i <= m < params.len() ==> #[trigger] bound_value(params, args, m) is Some)
            ==> bind_from(params, args, i, arg_position(params, args, i)) == Ok::<
            Seq<(Seq<char>, BindingModel)>,
            Seq<char>,
        >(
            Seq::new(
                (params.len() - i) as nat,
                |x: int| (params[i + x].name, bound_value(params, args, i + x)->Some_0),
            ),
        ),
        forall|m: int|
            i <= m < params.len() && #[trigger] bound_value(params, args, m) is None && (forall|
                h: int,
            | i <= h < m ==> bound_value(params, args, h) is Some) ==> bind_from(
                params,
                args,
                i,
                arg_position(params, args, i),
            ) == Err::<Seq<(Seq<char>, BindingModel)>, Seq<char>>(params[m].name),
    decreases params.len() - i,
{
    lemma_first_variadic(params, 0);
    let k = first_variadic_from(params, 0);
    if i < params.len() {
        lemma_bind_closed_form(params, args, i + 1);
        let p = params[i];
        let a = arg_position(params, args, i);
        if i < k {
            assert(p.kind == ParameterKind::Normal);
        }
        if i > k && p.kind == ParameterKind::Variadic {
            assert(args.skip(args.len() as int) =~= seq![]);
        }
        assert(arg_position(params, args, i + 1) == if p.kind == ParameterKind::Normal && a
            < args.len() {
            a + 1
        } else if p.kind == ParameterKind::Normal {
            a
        } else {
            args.len() as int
        });
        if forall|m: int| i <= m < params.len() ==> #[trigger] bound_value(params, args, m) is Some {
            assert(bound_value(params, args, i) is Some);
            assert forall|m: int| i + 1 <= m < params.len() implies #[trigger] bound_value(
                params,
                args,
                m,
            ) is Some by {}
            let rest = Seq::new(
                (params.len() - i - 1) as nat,
                |x: int| (params[i + 1 + x].name, bound_value(params, args, i + 1 + x)->Some_0),
            );
            assert(seq![(p.name, bound_value(params, args, i)->Some_0)] + rest =~= Seq::new(
                (params.len() - i) as nat,
                |x: int| (params[i + x].name, bound_value(params, args, i + x)->Some_0),
            ));
        }
        assert forall|m: int|
            i <= m < params.len() && #[trigger] bound_value(params, args, m) is None && (forall|
                h: int,
            | i <= h < m ==> bound_value(params, args, h) is Some) implies bind_from(
            params,
            args,
            i,
            a,
        ) == Err::<Seq<(Seq<char>, BindingModel)>, Seq<char>>(params[m].name) by {
            if m > i {
                assert(bound_value(params, args, i) is Some);
                assert forall|h: int| i + 1 <= h < m implies bound_value(params, args, h) is Some by {
                    assert(i <= h < m);
                }
            }
        }
    } else {
        assert(Seq::new(
            (params.len() - i) as nat,
            |x: int| (params[i + x].name, bound_value(params, args, i + x)->Some_0),
        ) =~= Seq::<(Seq<char>, BindingModel)>::empty());
    }
}

/// How parameters bind, in closed form (see [`bound_value`]): when every
/// parameter gets a value, each is bound to its value in parameter order;
/// otherwise binding fails with the name of the first parameter that gets
/// none.
pub proof fn law_binding_rule(params: Seq<ParameterModel>, args: Seq<Seq<char>>)
    ensures
        (forall|m: int| 0 <= m < params.len() ==> #[trigger] bound_value(params, args, m) is Some)
            ==> bind_parameters(params, args) == Ok::<Seq<(Seq<char>, BindingModel)>, Seq<char>>(
            Seq::new(
                params.len(),
                |x: int| (params[x].name, bound_value(params, args, x)->Some_0),
            ),
        ),
        forall|m: int|
            0 <= m < params.len() && #[trigger] bound_value(params, args, m) is None && (forall|
                h: int,
            | 0 <= h < m ==> bound_value(params, args, h) is Some) ==> bind_parameters(params, args)
                == Err::<Seq<(Seq<char>, BindingModel)>, Seq<char>>(params[m].name),
{
    lemma_bind_closed_form(params, args, 0);
    lemma_first_variadic(params, 0);
    assert(arg_position(params, args, 0) == 0);
    assert(Seq::new(
        (params.len() - 0) as nat,
        |x: int| (params[0 + x].name, bound_value(params, args, 0 + x)->Some_0),
    ) =~= Seq::new(params.len(), |x: int| (params[x].name, bound_value(params, args, x)->Some_0)));
}

/// `args[a..]`, copied.
fn rest_of(args: &Vec<String>, a: usize) -> (r: Vec<String>)
    requires
        a <= args.len(),
    ensures
        string_views(r@) == string_views(args@).skip(a as int),
{
    let mut r: Vec<String> = Vec::new();
    let mut k = a;
    while k < args.len()
        invariant
            a <= k <= args.len(),
            r.len() == k - a,
            string_views(r@) =~= string_views(args@).subrange(a as int, k as int),
        decreases args.len() - k,
    {
        let w = string_of(&chars_of(args[k].as_str()));
        r.push(w);
        assert(string_views(r@) =~= string_views(args@).subrange(a as int, k + 1));
        k = k + 1;
    }
    r
}

/// Bind `params` to `args`: the bindings in parameter order, or the name of
/// the first parameter left without a value.
pub fn bind_exec(params: &Vec<Parameter>, args: &Vec<String>) -> (r: Result<
    Vec<(String, Binding)>,
    String,
>)
    ensures
        match r {
            Ok(b) => bind_parameters(models(params@), string_views(args@)) == Ok::<
                Seq<(Seq<char>, BindingModel)>,
                Seq<char>,
            >(param_views(b@)),
            Err(n) => bind_parameters(models(params@), string_views(args@)) == Err::<
                Seq<(Seq<char>, BindingModel)>,
                Seq<char>,
            >(n@),
        },
{
    let ghost pm = models(params@);
    let ghost av = string_views(args@);
    let mut out: Vec<(String, Binding)> = Vec::new();
    let mut a: usize = 0;
    let mut i: usize = 0;
    while i < params.len()
        invariant
            0 <= i <= params.len(),
            0 <= a <= args.len(),
            pm == models(params@),
            av == string_views(args@),
            bind_from(pm, av, 0, 0) == with_prefix(param_views(out@), bind_from(pm, av, i as int, a as int)),
        decreases params.len() - i,
    {
        let ghost before = param_views(out@);
        let p = &params[i];
        let name = string_of(&chars_of(p.name.as_str()));
        match p.kind {
            ParameterKind::Normal => {
                if a < args.len() {
                    out.push((name, Binding::One(string_of(&chars_of(args[a].as_str())))));
                    a = a + 1;
                } else {
                    match &p.default {
                        Some(d) => {
                            out.push((name, Binding::One(string_of(&chars_of(d.as_str())))));
                        },
                        None => {
                            return Err(name);
                        },
                    }
                }
            },
            ParameterKind::Variadic => {
                out.push((name, Binding::Many(rest_of(args, a))));
                a = args.len();
            },
            ParameterKind::PlusVariadic => {
                if a >= args.len() {
                    return Err(name);
                }
                out.push((name, Binding::Many(rest_of(args, a))));
                a = args.len();
            },
        }
        proof {
            let x = param_views(out@).last();
            assert(param_views(out@) =~= before.push(x));
            let rest = bind_from(pm, av, i + 1, a as int);
            match rest {
                Ok(b) => {
                    assert(before + (seq![x] + b) =~= before.push(x) + b);
                },
                Err(e) => {},
            }
        }
        i = i + 1;
    }
    proof {
        assert(param_views(out@) + seq![] =~= param_views(out@));
    }
    Ok(out)
}

// ---------------------------------------------------------------------------
// Steps of a recipe
// ---------------------------------------------------------------------------
/// One step of running a recipe body line by line.
#[derive(Debug)]
pub enum Step {
    /// `shift`: the positional arguments move; nothing runs. `text` is echoed
    /// when `echo` is set.
    Shift { text: String, echo: bool },
    /// A command for the shell, echoed first when `echo` is set and run when
    /// `run` is set; its failure fails the recipe unless `ignore_errors`.
    Command { text: String, echo: bool, run: bool, ignore_errors: bool },
    /// An assignment, with its value as substituted. When `evaluate` is set
    /// the shell computes the value (see [`assignment_script`]); otherwise the
    /// value is used as it stands. The result is echoed when `echo` is set,
    /// then set for later steps, and exported too when `export` is set.
    Assign { name: String, value: String, export: bool, evaluate: bool, echo: bool },
}

/// The model of a [`Step`].
pub enum StepModel {
    Shift { text: Seq<char>, echo: bool },
    Command { text: Seq<char>, echo: bool, run: bool, ignore_errors: bool },
    Assign { name: Seq<char>, value: Seq<char>, export: bool, evaluate: bool, echo: bool },
}

impl View for Step {
    type V = StepModel;

    open spec fn view(&self) -> StepModel {
        match self {
            Step::Shift { text, echo } => StepModel::Shift { text: text@, echo: *echo },
            Step::Command { text, echo, run, ignore_errors } => StepModel::Command {
                text: text@,
                echo: *echo,
                run: *run,
                ignore_errors: *ignore_errors,
            },
            Step::Assign { name, value, export, evaluate, echo } => StepModel::Assign {
                name: name@,
                value: value@,
                export: *export,
                evaluate: *evaluate,
                echo: *echo,
            },
        }
    }
}

/// How far a substituted command line shifts the positional arguments: a
/// line reading `shift`, or `shift ` and a number (1 when the number does not
/// parse). `None` for any other line.
pub open spec fn shift_amount(e: Seq<char>) -> Option<usize> {
    let t = trim(e);
    if t == "shift"@ || starts_with(t, "shift "@) {
        Some(
            match parse_usize(trim(t.skip(5))) {
                Some(n) => n,
                None => 1,
            },
        )
    } else {
        None
    }
}

/// The positional arguments after shifting `n` of them off.
pub open spec fn shifted(positional: Seq<Seq<char>>, n: usize) -> Seq<Seq<char>> {
    if n <= positional.len() {
        positional.skip(n as int)
    } else {
        seq![]
    }
}

/// The steps for body lines `i..`, with `positional` the positional
/// arguments as earlier `shift` lines left them.
pub open spec fn plan_lines(
    body: Seq<LineModel>,
    i: int,
    params: Seq<(Seq<char>, BindingModel)>,
    positional: Seq<Seq<char>>,
    dry_run: bool,
    quiet: bool,
    recipe_quiet: bool,
) -> Seq<StepModel>
    decreases body.len() - i,
{
    if i < 0 || i >= body.len() {
        seq![]
    } else {
        match body[i] {
            LineModel::Command { text, quiet: line_quiet, ignore_errors } => {
                let e = substitute(text, params, positional);
                let echo = !quiet && !line_quiet && !recipe_quiet;
                match shift_amount(e) {
                    Some(n) => seq![StepModel::Shift { text: e, echo }] + plan_lines(
                        body,
                        i + 1,
                        params,
                        shifted(positional, n),
                        dry_run,
                        quiet,
                        recipe_quiet,
                    ),
                    None => seq![
                        StepModel::Command { text: e, echo, run: !dry_run, ignore_errors },
                    ] + plan_lines(body, i + 1, params, positional, dry_run, quiet, recipe_quiet),
                }
            },
            LineModel::Assignment { name, value } => seq![
                StepModel::Assign {
                    name,
                    value: substitute(value, params, positional),
                    export: false,
                    evaluate: !dry_run,
                    echo: !quiet,
                },
            ] + plan_lines(body, i + 1, params, positional, dry_run, quiet, recipe_quiet),
            LineModel::Export { name, value } => seq![
                StepModel::Assign {
                    name,
                    value: substitute(value, params, positional),
                    export: true,
                    evaluate: !dry_run,
                    echo: !quiet,
                },
            ] + plan_lines(body, i + 1, params, positional, dry_run, quiet, recipe_quiet),
        }
    }
}

fn shift_exec(e: &String) -> (r: Option<usize>)
    ensures
        r == shift_amount(e@),
{
    let t = crate::text::trim_chars(&chars_of(e.as_str()));
    let kw = chars_of("shift");
    let kws = chars_of("shift ");
    proof {
        reveal_strlit("shift");
        reveal_strlit("shift ");
    }
    if crate::text::eq_chars(&t, &kw) || crate::text::has_prefix(&t, &kws) {
        let rest = crate::text::trim_chars(&crate::text::tail(&t, 5));
        assert(t@.subrange(5, t@.len() as int) =~= t@.skip(5));
        match parse_number(&rest) {
            Some(n) => Some(n),
            None => Some(1),
        }
    } else {
        None
    }
}

fn shift_exec_strings(positional: &Vec<String>, n: usize) -> (r: Vec<String>)
    ensures
        string_views(r@) == shifted(string_views(positional@), n),
{
    if n <= positional.len() {
        rest_of(positional, n)
    } else {
        let r: Vec<String> = Vec::new();
        assert(string_views(r@) =~= Seq::<Seq<char>>::empty());
        r
    }
}

fn copy_string(s: &String) -> (r: String)
    ensures
        r@ == s@,
{
    string_of(&chars_of(s.as_str()))
}

/// The steps that run `body` line by line.
fn plan_steps(
    body: &Vec<Line>,
    params: &Vec<(String, Binding)>,
    args: &Vec<String>,
    dry_run: bool,
    quiet: bool,
    recipe_quiet: bool,
) -> (r: Vec<Step>)
    ensures
        models(r@) == plan_lines(
            models(body@),
            0,
            param_views(params@),
            string_views(args@),
            dry_run,
            quiet,
            recipe_quiet,
        ),
{
    let ghost bm = models(body@);
    let ghost pv = param_views(params@);
    let mut positional = copy_strings(args);
    let mut out: Vec<Step> = Vec::new();
    let mut i: usize = 0;
    while i < body.len()
        invariant
            0 <= i <= body.len(),
            bm == models(body@),
            pv == param_views(params@),
            models(out@) + plan_lines(
                bm,
                i as int,
                pv,
                string_views(positional@),
                dry_run,
                quiet,
                recipe_quiet,
            ) == plan_lines(bm, 0, pv, string_views(args@), dry_run, quiet, recipe_quiet),
        decreases body.len() - i,
    {
        let ghost before = models(out@);
        let ghost pos = string_views(positional@);
        match &body[i] {
            Line::Command(cmd) => {
                let e = substitute_exec(cmd.text.as_str(), params, &positional);
                let echo = !quiet && !cmd.quiet && !recipe_quiet;
                match shift_exec(&e) {
                    Some(n) => {
                        positional = shift_exec_strings(&positional, n);
                        out.push(Step::Shift { text: e, echo });
                    },
                    None => {
                        out.push(
                            Step::Command {
                                text: e,
                                echo,
                                run: !dry_run,
                                ignore_errors: cmd.ignore_errors,
                            },
                        );
                    },
                }
            },
            Line::Assignment { name, value } => {
                let e = substitute_exec(value.as_str(), params, &positional);
                out.push(
                    Step::Assign {
                        name: copy_string(name),
                        value: e,
                        export: false,
                        evaluate: !dry_run,
                        echo: !quiet,
                    },
                );
            },
            Line::Export { name, value } => {
                let e = substitute_exec(value.as_str(), params, &positional);
                out.push(
                    Step::Assign {
                        name: copy_string(name),
                        value: e,
                        export: true,
                        evaluate: !dry_run,
                        echo: !quiet,
                    },
                );
            },
        }
        proof {
            let x = models(out@).last();
            assert(models(out@) =~= before.push(x));
            assert(before + plan_lines(bm, i as int, pv, pos, dry_run, quiet, recipe_quiet) =~= before.push(x)
                + plan_lines(
                bm,
                i + 1,
                pv,
                string_views(positional@),
                dry_run,
                quiet,
                recipe_quiet,
            ));
        }
        i = i + 1;
    }
    assert(models(out@) + seq![] =~= models(out@));
    out
}

// ---------------------------------------------------------------------------
// Shebang recipes
// ---------------------------------------------------------------------------
/// Whether a later binding has the same name as binding `i`.
pub open spec fn rebound(params: Seq<(Seq<char>, BindingModel)>, i: int) -> bool {
    exists|j: int| i < j < params.len() && params[j].0 == params[i].0
}

/// `NAME=value` lines assigning the parameters `i..` in the script, each
/// value quoted; a name bound twice is assigned once, its last binding.
pub open spec fn binding_lines(params: Seq<(Seq<char>, BindingModel)>, i: int) -> Seq<char>
    decreases params.len() - i,
{
    if i < 0 || i >= params.len() {
        seq![]
    } else if rebound(params, i) {
        binding_lines(params, i + 1)
    } else {
        params[i].0 + seq!['='] + quote(joined(params[i].1)) + seq!['\n'] + binding_lines(
            params,
            i + 1,
        )
    }
}

/// A body line as it stands in the script.
pub open spec fn line_script(l: LineModel) -> Seq<char> {
    match l {
        LineModel::Command { text, .. } => text + seq!['\n'],
        LineModel::Assignment { name, value } => name + seq!['='] + value + seq!['\n'],
        LineModel::Export { name, value } => "export "@ + name + seq!['='] + value + seq!['\n'],
    }
}

/// Body lines `i..` as they stand in the script.
pub open spec fn body_script(body: Seq<LineModel>, i: int) -> Seq<char>
    decreases body.len() - i,
{
    if i < 0 || i >= body.len() {
        seq![]
    } else {
        line_script(body[i]) + body_script(body, i + 1)
    }
}

/// The single script a shebang recipe runs: the shebang line, the parameter
/// assignments, then the body lines as written.
pub open spec fn shebang_script(
    shebang: Seq<char>,
    params: Seq<(Seq<char>, BindingModel)>,
    body: Seq<LineModel>,
) -> Seq<char> {
    shebang + seq!['\n'] + binding_lines(params, 0) + body_script(body, 0)
}

/// The parameter lines of a shebang script, one binding at a time: a binding
/// whose name is bound again later gets no line (the last binding of a name
/// wins); any other gets the line `NAME=value`, its value quoted for the
/// shell, before the lines of the bindings after it.
pub proof fn law_shebang_binding_lines(params: Seq<(Seq<char>, BindingModel)>, i: int)
    requires
        0 <= i < params.len(),
    ensures
        rebound(params, i) ==> binding_lines(params, i) == binding_lines(params, i + 1),
        !rebound(params, i) ==> binding_lines(params, i) == params[i].0 + seq!['='] + quote(
            joined(params[i].1),
        ) + seq!['\n'] + binding_lines(params, i + 1),
{
}

/// A shebang recipe's script starts with its shebang line and ends with its
/// body, line by line.
pub proof fn law_shebang_script_shape(
    shebang: Seq<char>,
    params: Seq<(Seq<char>, BindingModel)>,
    body: Seq<LineModel>,
)
    ensures
        starts_with(shebang_script(shebang, params, body), shebang + seq!['\n']),
        crate::text::ends_with(shebang_script(shebang, params, body), body_script(body, 0)),
{
    let head = shebang + seq!['\n'];
    let b = binding_lines(params, 0);
    let tail = body_script(body, 0);
    let all = head + b + tail;
    assert(all.subrange(0, head.len() as int) =~= head);
    assert(all.subrange(all.len() - tail.len(), all.len() as int) =~= tail);
}

fn append_str(out: &mut Vec<char>, s: &str)
    ensures
        final(out)@ == old(out)@ + s@,
{
    let c = chars_of(s);
    let r = crate::text::concat_chars(out, &c);
    *out = r;
}

fn shebang_script_exec(shebang: &String, params: &Vec<(String, Binding)>, body: &Vec<Line>) -> (r:
    String)
    ensures
        r@ == shebang_script(shebang@, param_views(params@), models(body@)),
{
    let ghost pv = param_views(params@);
    let ghost bm = models(body@);
    let mut out: Vec<char> = chars_of(shebang.as_str());
    out.push('\n');
    let ghost head = out@;
    let mut i: usize = 0;
    while i < params.len()
        invariant
            0 <= i <= params.len(),
            pv == param_views(params@),
            out@ + binding_lines(pv, i as int) == head + binding_lines(pv, 0),
        decreases params.len() - i,
    {
        let ghost before = out@;
        let mut later = false;
        let mut j = i + 1;
        while j < params.len()
            invariant
                i < j <= params.len(),
                pv == param_views(params@),
                later <==> exists|m: int| i < m < j && pv[m].0 == pv[i as int].0,
            decreases params.len() - j,
        {
            assert(pv[j as int].0 == params@[j as int].0@);
            assert(pv[i as int].0 == params@[i as int].0@);
            if crate::text::str_eq(params[j].0.as_str(), params[i].0.as_str()) {
                later = true;
            }
            assert(later <==> exists|m: int| i < m < j + 1 && pv[m].0 == pv[i as int].0) by {
                if later && !(exists|m: int| i < m < j && pv[m].0 == pv[i as int].0) {
                    assert(pv[j as int].0 == pv[i as int].0);
                }
            }
            j = j + 1;
        }
        if !later {
            append_str(&mut out, params[i].0.as_str());
            out.push('=');
            let v = params[i].1.joined();
            let q = shell_quote(v.as_str());
            append_str(&mut out, q.as_str());
            out.push('\n');
            assert(out@ =~= before + (pv[i as int].0 + seq!['='] + quote(joined(pv[i as int].1))
                + seq!['\n']));
        }
        i = i + 1;
    }
    assert(out@ + seq![] =~= out@);
    let ghost mid = out@;
    let mut k: usize = 0;
    while k < body.len()
        invariant
            0 <= k <= body.len(),
            bm == models(body@),
            out@ + body_script(bm, k as int) == mid + body_script(bm, 0),
        decreases body.len() - k,
    {
        let ghost before = out@;
        match &body[k] {
            Line::Command(cmd) => {
                append_str(&mut out, cmd.text.as_str());
                out.push('\n');
            },
            Line::Assignment { name, value } => {
                append_str(&mut out, name.as_str());
                out.push('=');
                append_str(&mut out, value.as_str());
                out.push('\n');
            },
            Line::Export { name, value } => {
                append_str(&mut out, "export ");
                append_str(&mut out, name.as_str());
                out.push('=');
                append_str(&mut out, value.as_str());
                out.push('\n');
            },
        }
        assert(out@ =~= before + line_script(bm[k as int]));
        k = k + 1;
    }
    assert(out@ + seq![] =~= out@);
    assert(head + binding_lines(pv, 0) + body_script(bm, 0) =~= shebang_script(shebang@, pv, bm));
    string_of(&out)
}

// ---------------------------------------------------------------------------
// Jobs and plans
// ---------------------------------------------------------------------------
/// What running one recipe amounts to.
#[derive(Debug)]
pub enum Action {
    /// The recipe has no body: nothing runs.
    Nothing,
    /// A shebang recipe: one script for the shell, printed instead of run
    /// when `run` is not set.
    Script { script: String, run: bool },
    /// A recipe run line by line: the parameters, passed to every command
    /// through the environment as their joined values, and the steps.
    Lines { params: Vec<(String, String)>, steps: Vec<Step> },
}

/// The model of an [`Action`].
pub enum ActionModel {
    Nothing,
    Script { script: Seq<char>, run: bool },
    Lines { params: Seq<(Seq<char>, Seq<char>)>, steps: Seq<StepModel> },
}

impl View for Action {
    type V = ActionModel;

    open spec fn view(&self) -> ActionModel {
        match self {
            Action::Nothing => ActionModel::Nothing,
            Action::Script { script, run } => ActionModel::Script { script: script@, run: *run },
            Action::Lines { params, steps } => ActionModel::Lines {
                params: string_pairs(params@),
                steps: models(steps@),
            },
        }
    }
}

/// One recipe to run, with the arguments it runs with.
#[derive(Debug)]
pub struct Job {
    pub recipe: String,
    pub args: Vec<String>,
    pub action: Action,
}

/// The model of a [`Job`].
pub struct JobModel {
    pub recipe: Seq<char>,
    pub args: Seq<Seq<char>>,
    pub action: ActionModel,
}

impl View for Job {
    type V = JobModel;

    open spec fn view(&self) -> JobModel {
        JobModel { recipe: self.recipe@, args: string_views(self.args@), action: self.action@ }
    }
}

/// What running a recipe comes to: the jobs to run in order, and the error
/// the run ends with once they have all succeeded, if any. A job that fails
/// ends the run with its own error instead.
#[derive(Debug)]
pub struct Plan {
    pub jobs: Vec<Job>,
    pub error: Option<Error>,
}

/// The model of a [`Plan`].
pub struct PlanModel {
    pub jobs: Seq<JobModel>,
    pub error: Option<ErrorModel>,
}

impl View for Plan {
    type V = PlanModel;

    open spec fn view(&self) -> PlanModel {
        PlanModel { jobs: models(self.jobs@), error: opt_error(self.error) }
    }
}

/// Each binding with its value joined, as it goes into the environment.
pub open spec fn joined_params(b: Seq<(Seq<char>, BindingModel)>) -> Seq<(Seq<char>, Seq<char>)> {
    Seq::new(b.len(), |i: int| (b[i].0, joined(b[i].1)))
}

/// What running recipe `r` with `bindings` and `args` amounts to.
pub open spec fn plan_action(
    r: RecipeModel,
    bindings: Seq<(Seq<char>, BindingModel)>,
    args: Seq<Seq<char>>,
    dry_run: bool,
    quiet: bool,
) -> ActionModel {
    if r.body.len() == 0 {
        ActionModel::Nothing
    } else {
        match r.shebang {
            Some(sb) => ActionModel::Script {
                script: shebang_script(sb, bindings, r.body),
                run: !dry_run,
            },
            None => ActionModel::Lines {
                params: joined_params(bindings),
                steps: plan_lines(r.body, 0, bindings, args, dry_run, quiet, r.quiet),
            },
        }
    }
}

// ---------------------------------------------------------------------------
// Finding recipes
// ---------------------------------------------------------------------------
/// The index of the first recipe from `k` on named `name`.
pub open spec fn first_named(recipes: Seq<RecipeModel>, name: Seq<char>, k: int) -> Option<int>
    decreases recipes.len() - k,
{
    if k < 0 || k >= recipes.len() {
        None
    } else if recipes[k].name == name {
        Some(k)
    } else {
        first_named(recipes, name, k + 1)
    }
}

/// The target of the first alias from `k` on named `name`.
pub open spec fn first_alias(aliases: Seq<(Seq<char>, Seq<char>)>, name: Seq<char>, k: int) -> Option<
    Seq<char>,
>
    decreases aliases.len() - k,
{
    if k < 0 || k >= aliases.len() {
        None
    } else if aliases[k].0 == name {
        Some(aliases[k].1)
    } else {
        first_alias(aliases, name, k + 1)
    }
}

/// The index of the recipe `name` refers to: the recipe of that name, else
/// the recipe an alias of that name points at.
pub open spec fn find_recipe(jf: JustfileModel, name: Seq<char>) -> Option<int> {
    match first_named(jf.recipes, name, 0) {
        Some(k) => Some(k),
        None => match first_alias(jf.aliases, name, 0) {
            Some(t) => first_named(jf.recipes, t, 0),
            None => None,
        },
    }
}

pub proof fn lemma_first_named(recipes: Seq<RecipeModel>, name: Seq<char>, k: int)
    requires
        0 <= k,
    ensures
        match first_named(recipes, name, k) {
            Some(i) => k <= i < recipes.len() && recipes[i].name == name,
            None => true,
        },
    decreases recipes.len() - k,
{
    if k < recipes.len() && recipes[k].name != name {
        lemma_first_named(recipes, name, k + 1);
    }
}

fn first_named_exec(recipes: &Vec<Recipe>, name: &str) -> (r: Option<usize>)
    ensures
        match r {
            Some(k) => k < recipes.len() && first_named(models(recipes@), name@, 0) == Some(
                k as int,
            ),
            None => first_named(models(recipes@), name@, 0) is None,
        },
{
    let ghost rm = models(recipes@);
    let mut k: usize = 0;
    while k < recipes.len()
        invariant
            0 <= k <= recipes.len(),
            rm == models(recipes@),
            first_named(rm, name@, 0) == first_named(rm, name@, k as int),
        decreases recipes.len() - k,
    {
        if crate::text::str_eq(recipes[k].name.as_str(), name) {
            return Some(k);
        }
        k = k + 1;
    }
    None
}

fn first_alias_exec<'b>(aliases: &'b Vec<(String, String)>, name: &str) -> (r: Option<&'b String>)
    ensures
        match r {
            Some(t) => first_alias(alias_views(aliases@), name@, 0) == Some(t@),
            None => first_alias(alias_views(aliases@), name@, 0) is None,
        },
{
    let ghost av = alias_views(aliases@);
    let mut k: usize = 0;
    while k < aliases.len()
        invariant
            0 <= k <= aliases.len(),
            av == alias_views(aliases@),
            first_alias(av, name@, 0) == first_alias(av, name@, k as int),
        decreases aliases.len() - k,
    {
        if crate::text::str_eq(aliases[k].0.as_str(), name) {
            return Some(&aliases[k].1);
        }
        k = k + 1;
    }
    None
}

/// The recipe `name` refers to, directly or through an alias.
fn find_recipe_exec(jf: &Justfile, name: &str) -> (r: Option<usize>)
    ensures
        match r {
            Some(k) => k < jf.recipes.len() && find_recipe(jf@, name@) == Some(k as int),
            None => find_recipe(jf@, name@) is None,
        },
{
    match first_named_exec(&jf.recipes, name) {
        Some(k) => Some(k),
        None => match first_alias_exec(&jf.aliases, name) {
            Some(t) => first_named_exec(&jf.recipes, t.as_str()),
            None => None,
        },
    }
}

// ---------------------------------------------------------------------------
// The dependency walk
// ---------------------------------------------------------------------------
/// The state of a walk: the jobs so far, the (recipe, arguments) runs
/// already started, and the error that stopped the walk, if any.
pub struct PlanState {
    pub jobs: Seq<JobModel>,
    pub ran: Seq<(Seq<char>, Seq<Seq<char>>)>,
    pub error: Option<ErrorModel>,
}

/// `st` stopped by `e`.
pub open spec fn stopped(st: PlanState, e: ErrorModel) -> PlanState {
    PlanState { jobs: st.jobs, ran: st.ran, error: Some(e) }
}

/// The names of every dependency of `recipes`, in order.
pub open spec fn dep_names(recipes: Seq<RecipeModel>) -> Seq<Seq<char>>
    decreases recipes.len(),
{
    if recipes.len() == 0 {
        seq![]
    } else {
        dep_names(recipes.drop_last()) + Seq::new(
            recipes.last().dependencies.len(),
            |j: int| recipes.last().dependencies[j].recipe,
        )
    }
}

/// Every name a walk from `top` can reach: `top` and the dependency names.
pub open spec fn name_universe(jf: JustfileModel, top: Seq<char>) -> Seq<Seq<char>> {
    seq![top] + dep_names(jf.recipes)
}

/// Running recipe `name` with `args`, from state `st`, with `path` the
/// names whose runs are in progress: a name already in progress is a
/// circular dependency; an unknown name is an error; a (recipe, arguments)
/// run already started is not repeated; otherwise the dependencies run first,
/// in order, then the parameters bind and the recipe's job follows them.
///
/// `bound` caps the depth of the walk; no walk from [`run_plan`] reaches it.
pub open spec fn plan_recipe(
    jf: JustfileModel,
    dry_run: bool,
    quiet: bool,
    bound: int,
    name: Seq<char>,
    args: Seq<Seq<char>>,
    path: Seq<Seq<char>>,
    st: PlanState,
) -> PlanState
    decreases bound - path.len(), 0int,
{
    if path.contains(name) {
        stopped(st, ErrorModel::CircularDependency(name))
    } else {
        match find_recipe(jf, name) {
            None => stopped(st, ErrorModel::RecipeNotFound(name)),
            Some(k) => {
                let r = jf.recipes[k];
                if st.ran.contains((r.name, args)) {
                    st
                } else if path.len() + 1 > bound {
                    stopped(st, ErrorModel::CircularDependency(name))
                } else {
                    let after = plan_deps(
                        jf,
                        dry_run,
                        quiet,
                        bound,
                        k,
                        0,
                        path.push(name),
                        PlanState { jobs: st.jobs, ran: st.ran.push((r.name, args)), error: None },
                    );
                    finish_recipe(r, args, dry_run, quiet, after)
                }
            },
        }
    }
}

/// The end of running recipe `r` once its dependencies ran to state
/// `after`: when they all succeeded, the parameters bind and the recipe's
/// job is added, or the run stops on a missing argument.
pub open spec fn finish_recipe(
    r: RecipeModel,
    args: Seq<Seq<char>>,
    dry_run: bool,
    quiet: bool,
    after: PlanState,
) -> PlanState {
    if after.error is Some {
        after
    } else {
        match bind_parameters(r.parameters, args) {
            Err(p) => stopped(after, ErrorModel::MissingArgument(p)),
            Ok(b) => PlanState {
                jobs: after.jobs.push(
                    JobModel { recipe: r.name, args, action: plan_action(r, b, args, dry_run, quiet) },
                ),
                ran: after.ran,
                error: None,
            },
        }
    }
}

/// Running dependencies `j..` of recipe `k` in order, stopping at the first
/// error.
pub open spec fn plan_deps(
    jf: JustfileModel,
    dry_run: bool,
    quiet: bool,
    bound: int,
    k: int,
    j: int,
    path: Seq<Seq<char>>,
    st: PlanState,
) -> PlanState
    decreases bound - path.len(), jf.recipes[k].dependencies.len() - j + 1,
{
    if 0 <= k < jf.recipes.len() && 0 <= j < jf.recipes[k].dependencies.len() {
        let d = jf.recipes[k].dependencies[j];
        let next = plan_recipe(jf, dry_run, quiet, bound, d.recipe, d.arguments, path, st);
        if next.error is Some {
            next
        } else {
            plan_deps(jf, dry_run, quiet, bound, k, j + 1, path, next)
        }
    } else {
        st
    }
}

/// The plan for running `name` with `args`.
pub open spec fn run_plan(
    jf: JustfileModel,
    dry_run: bool,
    quiet: bool,
    name: Seq<char>,
    args: Seq<Seq<char>>,
) -> PlanModel {
    let st = plan_recipe(
        jf,
        dry_run,
        quiet,
        name_universe(jf, name).len() as int,
        name,
        args,
        seq![],
        PlanState { jobs: seq![], ran: seq![], error: None },
    );
    PlanModel { jobs: st.jobs, error: st.error }
}

pub proof fn lemma_dep_name(recipes: Seq<RecipeModel>, k: int, j: int)
    requires
        0 <= k < recipes.len(),
        0 <= j < recipes[k].dependencies.len(),
    ensures
        dep_names(recipes).contains(recipes[k].dependencies[j].recipe),
    decreases recipes.len(),
{
    let pre = dep_names(recipes.drop_last());
    let last = Seq::new(
        recipes.last().dependencies.len(),
        |m: int| recipes.last().dependencies[m].recipe,
    );
    assert(dep_names(recipes) == pre + last);
    if k == recipes.len() - 1 {
        assert(dep_names(recipes)[pre.len() + j] == recipes[k].dependencies[j].recipe);
    } else {
        assert(recipes.drop_last()[k] == recipes[k]);
        lemma_dep_name(recipes.drop_last(), k, j);
        let i = choose|i: int| 0 <= i < pre.len() && pre[i] == recipes[k].dependencies[j].recipe;
        assert(dep_names(recipes)[i] == recipes[k].dependencies[j].recipe);
    }
}

pub proof fn lemma_path_bound(path: Seq<Seq<char>>, names: Seq<Seq<char>>)
    requires
        path.no_duplicates(),
        forall|i: int| 0 <= i < path.len() ==> names.contains(path[i]),
    ensures
        path.len() <= names.len(),
{
    broadcast use vstd::seq_lib::seq_to_set_is_finite;

    path.unique_seq_to_set();
    names.lemma_cardinality_of_set();
    assert(path.to_set().subset_of(names.to_set()));
    vstd::set_lib::lemma_len_subset(path.to_set(), names.to_set());
}

/// The models of the runs already started.
pub open spec fn ran_views(v: Seq<(String, Vec<String>)>) -> Seq<(Seq<char>, Seq<Seq<char>>)> {
    Seq::new(v.len(), |i: int| (v[i].0@, string_views(v[i].1@)))
}

/// Whether two lists hold the same strings.
fn strings_eq(a: &Vec<String>, b: &Vec<String>) -> (r: bool)
    ensures
        r == (string_views(a@) == string_views(b@)),
{
    if a.len() != b.len() {
        assert(string_views(a@).len() != string_views(b@).len());
        return false;
    }
    let mut i: usize = 0;
    while i < a.len()
        invariant
            0 <= i <= a.len(),
            a.len() == b.len(),
            forall|m: int| 0 <= m < i ==> a@[m]@ == b@[m]@,
        decreases a.len() - i,
    {
        if !crate::text::str_eq(a[i].as_str(), b[i].as_str()) {
            assert(string_views(a@)[i as int] != string_views(b@)[i as int]);
            return false;
        }
        i = i + 1;
    }
    assert(string_views(a@) =~= string_views(b@));
    true
}

fn ran_contains(ran: &Vec<(String, Vec<String>)>, name: &String, args: &Vec<String>) -> (r: bool)
    ensures
        r == ran_views(ran@).contains((name@, string_views(args@))),
{
    let ghost key = (name@, string_views(args@));
    let mut i: usize = 0;
    while i < ran.len()
        invariant
            0 <= i <= ran.len(),
            key == (name@, string_views(args@)),
            forall|m: int| 0 <= m < i ==> ran_views(ran@)[m] != key,
        decreases ran.len() - i,
    {
        if crate::text::str_eq(ran[i].0.as_str(), name.as_str()) && strings_eq(&ran[i].1, args) {
            assert(ran_views(ran@)[i as int] == key);
            return true;
        }
        i = i + 1;
    }
    false
}

fn contains_name(v: &Vec<String>, s: &str) -> (r: bool)
    ensures
        r == string_views(v@).contains(s@),
{
    let mut i: usize = 0;
    while i < v.len()
        invariant
            0 <= i <= v.len(),
            forall|m: int| 0 <= m < i ==> string_views(v@)[m] != s@,
        decreases v.len() - i,
    {
        if crate::text::str_eq(v[i].as_str(), s) {
            assert(string_views(v@)[i as int] == s@);
            return true;
        }
        i = i + 1;
    }
    false
}

fn joined_params_exec(b: &Vec<(String, Binding)>) -> (r: Vec<(String, String)>)
    ensures
        string_pairs(r@) == joined_params(param_views(b@)),
{
    let mut r: Vec<(String, String)> = Vec::new();
    let mut i: usize = 0;
    while i < b.len()
        invariant
            0 <= i <= b.len(),
            r.len() == i,
            string_pairs(r@) =~= joined_params(param_views(b@)).take(i as int),
        decreases b.len() - i,
    {
        r.push((copy_string(&b[i].0), b[i].1.joined()));
        assert(string_pairs(r@) =~= joined_params(param_views(b@)).take(
            i + 1,
        ));
        i = i + 1;
    }
    assert(joined_params(param_views(b@)).take(b.len() as int) =~= joined_params(
        param_views(b@),
    ));
    r
}

/// Runs recipes of a justfile against an environment.
pub struct Executor<'a> {
    justfile: &'a Justfile,
    env: &'a Environment,
    dry_run: bool,
    quiet: bool,
}

/// The model of an [`Executor`].
pub struct ExecutorModel {
    pub justfile: JustfileModel,
    pub env: EnvironmentModel,
    pub dry_run: bool,
    pub quiet: bool,
}

impl<'a> View for Executor<'a> {
    type V = ExecutorModel;

    closed spec fn view(&self) -> ExecutorModel {
        ExecutorModel {
            justfile: self.justfile@,
            env: self.env@,
            dry_run: self.dry_run,
            quiet: self.quiet,
        }
    }
}

impl<'a> Executor<'a> {
    /// An executor that runs commands and echoes them.
    pub fn new(justfile: &'a Justfile, env: &'a Environment) -> (r: Self)
        ensures
            r@ == (ExecutorModel { justfile: justfile@, env: env@, dry_run: false, quiet: false }),
    {
        Executor { justfile, env, dry_run: false, quiet: false }
    }

    /// Whether to print commands without running them.
    pub fn dry_run(self, dry_run: bool) -> (r: Self)
        ensures
            r@ == (ExecutorModel { dry_run, ..self@ }),
    {
        Executor { dry_run, ..self }
    }

    /// Whether to stop echoing commands.
    pub fn quiet(self, quiet: bool) -> (r: Self)
        ensures
            r@ == (ExecutorModel { quiet, ..self@ }),
    {
        Executor { quiet, ..self }
    }

    /// Plan running recipe `recipe_name` with `args`: its dependencies first,
    /// each (recipe, arguments) run at most once; see [`run_plan`].
    pub fn run(&self, recipe_name: &str, args: &Vec<String>) -> (r: Plan)
        ensures
            r@ == run_plan(
                self@.justfile,
                self@.dry_run,
                self@.quiet,
                recipe_name@,
                string_views(args@),
            ),
    {
        let ghost names = name_universe(self.justfile@, recipe_name@);
        proof {
            assert(names[0] == recipe_name@);
            assert forall|k: int, j: int|
                0 <= k < self.justfile@.recipes.len() && 0 <= j
                    < self.justfile@.recipes[k].dependencies.len() implies names.contains(
                self.justfile@.recipes[k].dependencies[j].recipe,
            ) by {
                lemma_dep_name(self.justfile@.recipes, k, j);
                let rest = dep_names(self.justfile@.recipes);
                let i = choose|i: int|
                    0 <= i < rest.len() && rest[i] == self.justfile@.recipes[k].dependencies[j].recipe;
                assert(names[i + 1] == rest[i]);
            }
        }
        let mut path: Vec<String> = Vec::new();
        let mut ran: Vec<(String, Vec<String>)> = Vec::new();
        let mut jobs: Vec<Job> = Vec::new();
        proof {
            assert(string_views(path@) =~= Seq::<Seq<char>>::empty());
            assert(ran_views(ran@) =~= Seq::<(Seq<char>, Seq<Seq<char>>)>::empty());
            assert(models(jobs@) =~= Seq::<JobModel>::empty());
        }
        let error = self.plan_recipe_exec(
            recipe_name,
            args,
            &mut path,
            &mut ran,
            &mut jobs,
            Ghost(names),
        );
        Plan { jobs, error }
    }

    fn plan_recipe_exec(
        &self,
        name: &str,
        args: &Vec<String>,
        path: &mut Vec<String>,
        ran: &mut Vec<(String, Vec<String>)>,
        jobs: &mut Vec<Job>,
        Ghost(names): Ghost<Seq<Seq<char>>>,
    ) -> (r: Option<Error>)
        requires
            names.contains(name@),
            string_views(old(path)@).no_duplicates(),
            forall|i: int|
                0 <= i < string_views(old(path)@).len() ==> names.contains(
                    string_views(old(path)@)[i],
                ),
            forall|k: int, j: int|
                0 <= k < self@.justfile.recipes.len() && 0 <= j
                    < self@.justfile.recipes[k].dependencies.len() ==> names.contains(
                    self@.justfile.recipes[k].dependencies[j].recipe,
                ),
        ensures
            ({
                let st = plan_recipe(
                    self@.justfile,
                    self@.dry_run,
                    self@.quiet,
                    names.len() as int,
                    name@,
                    string_views(args@),
                    string_views(old(path)@),
                    PlanState { jobs: models(old(jobs)@), ran: ran_views(old(ran)@), error: None },
                );
                &&& models(final(jobs)@) == st.jobs
                &&& ran_views(final(ran)@) == st.ran
                &&& opt_error(r) == st.error
            }),
            r is None ==> string_views(final(path)@) == string_views(old(path)@),
        decreases names.len() - old(path)@.len(),
    {
        let ghost jf = self@.justfile;
        let ghost bound = names.len() as int;
        let ghost p0 = string_views(path@);
        let ghost st0 = PlanState { jobs: models(jobs@), ran: ran_views(ran@), error: None };
        if contains_name(path, name) {
            return Some(Error::CircularDependency(string_of(&chars_of(name))));
        }
        let k = match find_recipe_exec(self.justfile, name) {
            Some(k) => k,
            None => {
                return Some(Error::RecipeNotFound(string_of(&chars_of(name))));
            },
        };
        let recipe = &self.justfile.recipes[k];
        assert(recipe@ == jf.recipes[k as int]);
        if ran_contains(ran, &recipe.name, args) {
            return None;
        }
        proof {
            let p1 = p0.push(name@);
            assert forall|i: int| 0 <= i < p1.len() implies names.contains(p1[i]) by {
                if i < p0.len() {
                    assert(p1[i] == p0[i]);
                }
            }
            assert(p1.no_duplicates());
            lemma_path_bound(p1, names);
        }
        ran.push((copy_string(&recipe.name), copy_strings(args)));
        path.push(string_of(&chars_of(name)));
        let ghost p1 = string_views(path@);
        assert(p1 =~= p0.push(name@));
        assert(ran_views(ran@) =~= st0.ran.push((jf.recipes[k as int].name, string_views(args@))));
        let ghost st1 = PlanState { jobs: models(jobs@), ran: ran_views(ran@), error: None };
        assert(plan_recipe(jf, self@.dry_run, self@.quiet, bound, name@, string_views(args@), p0, st0)
            == finish_recipe(
            jf.recipes[k as int],
            string_views(args@),
            self@.dry_run,
            self@.quiet,
            plan_deps(jf, self@.dry_run, self@.quiet, bound, k as int, 0, p1, st1),
        ));
        let mut j: usize = 0;
        while j < recipe.dependencies.len()
            invariant
                0 <= j <= recipe.dependencies.len(),
                recipe@ == jf.recipes[k as int],
                jf == self@.justfile,
                bound == names.len(),
                k < jf.recipes.len(),
                string_views(path@) == p1,
                path@.len() == p1.len(),
                p1 == p0.push(name@),
                p0 == string_views(old(path)@),
                st0 == (PlanState { jobs: models(old(jobs)@), ran: ran_views(old(ran)@), error: None }),
                plan_recipe(jf, self@.dry_run, self@.quiet, bound, name@, string_views(args@), p0, st0)
                    == finish_recipe(
                    jf.recipes[k as int],
                    string_views(args@),
                    self@.dry_run,
                    self@.quiet,
                    plan_deps(jf, self@.dry_run, self@.quiet, bound, k as int, 0, p1, st1),
                ),
                p1.no_duplicates(),
                p1.len() <= bound,
                forall|i: int| 0 <= i < p1.len() ==> names.contains(p1[i]),
                forall|kk: int, jj: int|
                    0 <= kk < jf.recipes.len() && 0 <= jj < jf.recipes[kk].dependencies.len()
                        ==> names.contains(jf.recipes[kk].dependencies[jj].recipe),
                plan_deps(jf, self@.dry_run, self@.quiet, bound, k as int, 0, p1, st1) == plan_deps(
                    jf,
                    self@.dry_run,
                    self@.quiet,
                    bound,
                    k as int,
                    j as int,
                    p1,
                    PlanState { jobs: models(jobs@), ran: ran_views(ran@), error: None },
                ),
            decreases recipe.dependencies.len() - j,
        {
            let d = &recipe.dependencies[j];
            assert(d@ == jf.recipes[k as int].dependencies[j as int]);
            assert(string_views(d.arguments@) == d@.arguments);
            let e = self.plan_recipe_exec(
                d.recipe.as_str(),
                &d.arguments,
                path,
                ran,
                jobs,
                Ghost(names),
            );
            if e.is_some() {
                return e;
            }
            j = j + 1;
        }
        let ghost before_pop = path@;
        path.pop();
        assert(path@ =~= before_pop.drop_last());
        assert forall|i: int| 0 <= i < p0.len() implies string_views(path@)[i] == p0[i] by {
            assert(string_views(before_pop)[i] == p1[i]);
        }
        assert(string_views(path@) =~= p0);
        let ghost after = PlanState { jobs: models(jobs@), ran: ran_views(ran@), error: None };
        match bind_exec(&recipe.parameters, args) {
            Err(p) => Some(Error::MissingArgument(p)),
            Ok(b) => {
                let action = self.plan_action_exec(recipe, &b, args);
                let job = Job {
                    recipe: copy_string(&recipe.name),
                    args: copy_strings(args),
                    action,
                };
                let ghost before = models(jobs@);
                jobs.push(job);
                assert(models(jobs@) =~= before.push(job@));
                None
            },
        }
    }

    fn plan_action_exec(&self, recipe: &Recipe, bindings: &Vec<(String, Binding)>, args: &Vec<
        String,
    >) -> (r: Action)
        ensures
            r@ == plan_action(
                recipe@,
                param_views(bindings@),
                string_views(args@),
                self@.dry_run,
                self@.quiet,
            ),
    {
        if recipe.body.len() == 0 {
            return Action::Nothing;
        }
        match &recipe.shebang {
            Some(sb) => Action::Script {
                script: shebang_script_exec(sb, bindings, &recipe.body),
                run: !self.dry_run,
            },
            None => Action::Lines {
                params: joined_params_exec(bindings),
                steps: plan_steps(
                    &recipe.body,
                    bindings,
                    args,
                    self.dry_run,
                    self.quiet,
                    recipe.quiet,
                ),
            },
        }
    }
}

// ---------------------------------------------------------------------------
// The environment of a running recipe
// ---------------------------------------------------------------------------
/// The environment commands of a line-by-line recipe see: the base
/// environment, then the parameters, then variables assigned by earlier body
/// lines, then variables exported by earlier body lines, later layers
/// winning.
pub struct ExecutionState {
    base: Vec<(String, String)>,
    params: Vec<(String, String)>,
    vars: Vec<(String, String)>,
    exports: Vec<(String, String)>,
}

/// The model of an [`ExecutionState`]: its four layers.
pub struct ExecutionStateModel {
    pub base: Map<Seq<char>, Seq<char>>,
    pub params: Map<Seq<char>, Seq<char>>,
    pub vars: Map<Seq<char>, Seq<char>>,
    pub exports: Map<Seq<char>, Seq<char>>,
}

impl View for ExecutionState {
    type V = ExecutionStateModel;

    closed spec fn view(&self) -> ExecutionStateModel {
        ExecutionStateModel {
            base: table_map(self.base@),
            params: map_of_pairs(string_pairs(self.params@)),
            vars: map_of_pairs(string_pairs(self.vars@)),
            exports: map_of_pairs(string_pairs(self.exports@)),
        }
    }
}

/// The variables a command sees in state `m`.
pub open spec fn env_of(m: ExecutionStateModel) -> Map<Seq<char>, Seq<char>> {
    m.base.union_prefer_right(m.params).union_prefer_right(m.vars).union_prefer_right(m.exports)
}

/// Put every pair of `pairs` into the table `t`, in order.
fn merge_into(t: &mut Vec<(String, String)>, pairs: &Vec<(String, String)>)
    requires
        table_wf(old(t)@),
    ensures
        table_wf(final(t)@),
        table_map(final(t)@) == table_map(old(t)@).union_prefer_right(
            map_of_pairs(string_pairs(pairs@)),
        ),
{
    let ghost m0 = table_map(t@);
    let ghost ps = string_pairs(pairs@);
    assert(map_of_pairs(ps.take(0)) =~= Map::<Seq<char>, Seq<char>>::empty());
    assert(m0.union_prefer_right(Map::<Seq<char>, Seq<char>>::empty()) =~= m0);
    let mut i: usize = 0;
    while i < pairs.len()
        invariant
            0 <= i <= pairs.len(),
            ps == string_pairs(pairs@),
            table_wf(t@),
            table_map(t@) == m0.union_prefer_right(map_of_pairs(ps.take(i as int))),
        decreases pairs.len() - i,
    {
        let ghost before = map_of_pairs(ps.take(i as int));
        assert(ps.take(i + 1).drop_last() =~= ps.take(i as int));
        assert(ps.take(i + 1).last() == ps[i as int]);
        table_set(t, copy_string(&pairs[i].0), copy_string(&pairs[i].1));
        assert(m0.union_prefer_right(before).insert(ps[i as int].0, ps[i as int].1)
            =~= m0.union_prefer_right(before.insert(ps[i as int].0, ps[i as int].1)));
        i = i + 1;
    }
    assert(ps.take(pairs.len() as int) =~= ps);
}

impl ExecutionState {
    /// The state's invariant: the base environment holds no name twice.
    pub closed spec fn wf(&self) -> bool {
        table_wf(self.base@)
    }

    /// The state a recipe starts in: `env`'s variables, and the recipe's
    /// parameters (name, joined value) in order.
    pub fn new(env: &Environment, params: &Vec<(String, String)>) -> (r: ExecutionState)
        requires
            env.wf(),
        ensures
            r.wf(),
            r@ == job_start(env@.vars, string_pairs(params@)),
    {
        let base = table_clone(env.vars());
        let mut ps: Vec<(String, String)> = Vec::new();
        let mut i: usize = 0;
        while i < params.len()
            invariant
                0 <= i <= params.len(),
                ps.len() == i,
                string_pairs(ps@) =~= string_pairs(params@).take(i as int),
            decreases params.len() - i,
        {
            ps.push((copy_string(&params[i].0), copy_string(&params[i].1)));
            assert(string_pairs(ps@) =~= string_pairs(params@).take(i + 1));
            i = i + 1;
        }
        assert(string_pairs(params@).take(params.len() as int) =~= string_pairs(params@));
        let vars: Vec<(String, String)> = Vec::new();
        let exports: Vec<(String, String)> = Vec::new();
        assert(string_pairs(vars@) =~= Seq::<(Seq<char>, Seq<char>)>::empty());
        assert(string_pairs(exports@) =~= Seq::<(Seq<char>, Seq<char>)>::empty());
        ExecutionState { base, params: ps, vars, exports }
    }

    /// Record a variable assigned by a body line.
    pub fn set_var(&mut self, name: String, value: String)
        ensures
            final(self).wf() == old(self).wf(),
            final(self)@ == (ExecutionStateModel {
                vars: old(self)@.vars.insert(name@, value@),
                ..old(self)@
            }),
    {
        let ghost before = string_pairs(self.vars@);
        self.vars.push((name, value));
        assert(string_pairs(self.vars@).drop_last() =~= before);
    }

    /// Record a variable exported by a body line.
    pub fn export_var(&mut self, name: String, value: String)
        ensures
            final(self).wf() == old(self).wf(),
            final(self)@ == (ExecutionStateModel {
                exports: old(self)@.exports.insert(name@, value@),
                ..old(self)@
            }),
    {
        let ghost before = string_pairs(self.exports@);
        self.exports.push((name, value));
        assert(string_pairs(self.exports@).drop_last() =~= before);
    }

    /// Record the outcome of an assignment step: the variable is set, and
    /// exported too when `export` is set.
    pub fn assign(&mut self, name: String, value: String, export: bool)
        ensures
            final(self).wf() == old(self).wf(),
            final(self)@ == (ExecutionStateModel {
                vars: old(self)@.vars.insert(name@, value@),
                exports: if export {
                    old(self)@.exports.insert(name@, value@)
                } else {
                    old(self)@.exports
                },
                ..old(self)@
            }),
    {
        if export {
            self.set_var(copy_string(&name), copy_string(&value));
            self.export_var(name, value);
        } else {
            self.set_var(name, value);
        }
    }

    /// The variables a command sees, each name once.
    pub fn env_vars(&self) -> (r: Vec<(String, String)>)
        requires
            self.wf(),
        ensures
            table_wf(r@),
            table_map(r@) == env_of(self@),
    {
        let mut t = table_clone(&self.base);
        assert(table_map(t@) == table_map(self.base@));
        merge_into(&mut t, &self.params);
        merge_into(&mut t, &self.vars);
        merge_into(&mut t, &self.exports);
        t
    }

    /// Take in what the shell did for `step` (`result`) and say whether the
    /// recipe fails there: a command that ran and exited non-zero fails it
    /// unless its errors are ignored, and an assignment whose value the shell
    /// failed to compute fails it. Otherwise an assignment sets its variable,
    /// to the shell's output when the shell computed it, else to its value
    /// as written.
    pub fn after_step(&mut self, step: &Step, result: &StepResult) -> (r: Option<Error>)
        ensures
            opt_error(r) == step_failure(step@, result@),
            final(self).wf() == old(self).wf(),
            final(self)@ == if r is Some {
                old(self)@
            } else {
                step_state(old(self)@, step@, result@)
            },
    {
        match step {
            Step::Shift { .. } => None,
            Step::Command { run, ignore_errors, .. } => match result {
                StepResult::Exited(code) => {
                    if *run && *code != 0 && !*ignore_errors {
                        Some(Error::RecipeFailed(string_of(&chars_of("command")), *code))
                    } else {
                        None
                    }
                },
                _ => None,
            },
            Step::Assign { name, value, export, evaluate, .. } => {
                let v = match result {
                    StepResult::Evaluated(code, out) => {
                        if *evaluate && *code != 0 {
                            return Some(
                                Error::RecipeFailed(string_of(&chars_of("expression")), *code),
                            );
                        }
                        if *evaluate {
                            copy_string(out)
                        } else {
                            copy_string(value)
                        }
                    },
                    _ => copy_string(value),
                };
                self.assign(copy_string(name), v, *export);
                None
            },
        }
    }
}

/// What the shell did for one step.
#[derive(Debug)]
pub enum StepResult {
    /// Nothing ran.
    NotRun,
    /// A command ran and exited with this code.
    Exited(i32),
    /// The shell computed an assignment's value: its exit code and output.
    Evaluated(i32, String),
}

/// The model of a [`StepResult`].
pub enum StepResultModel {
    NotRun,
    Exited(i32),
    Evaluated(i32, Seq<char>),
}

impl View for StepResult {
    type V = StepResultModel;

    open spec fn view(&self) -> StepResultModel {
        match self {
            StepResult::NotRun => StepResultModel::NotRun,
            StepResult::Exited(c) => StepResultModel::Exited(*c),
            StepResult::Evaluated(c, o) => StepResultModel::Evaluated(*c, o@),
        }
    }
}

/// The state a recipe's lines start in: the environment's variables and the
/// recipe's parameters, with no variable assigned or exported yet.
pub open spec fn job_start(
    env: Map<Seq<char>, Seq<char>>,
    params: Seq<(Seq<char>, Seq<char>)>,
) -> ExecutionStateModel {
    ExecutionStateModel {
        base: env,
        params: map_of_pairs(params),
        vars: Map::empty(),
        exports: Map::empty(),
    }
}

/// Where a step fails the recipe, given what the shell did for it.
pub open spec fn step_failure(s: StepModel, r: StepResultModel) -> Option<ErrorModel> {
    match s {
        StepModel::Shift { .. } => None,
        StepModel::Command { run, ignore_errors, .. } => match r {
            StepResultModel::Exited(code) => if run && code != 0 && !ignore_errors {
                Some(ErrorModel::RecipeFailed("command"@, code))
            } else {
                None
            },
            _ => None,
        },
        StepModel::Assign { evaluate, .. } => match r {
            StepResultModel::Evaluated(code, _) => if evaluate && code != 0 {
                Some(ErrorModel::RecipeFailed("expression"@, code))
            } else {
                None
            },
            _ => None,
        },
    }
}

/// The value an assignment step gives its variable: the shell's output when
/// the shell computed it, else the value as written.
pub open spec fn assigned_value(value: Seq<char>, evaluate: bool, r: StepResultModel) -> Seq<char> {
    match r {
        StepResultModel::Evaluated(_, out) => if evaluate {
            out
        } else {
            value
        },
        _ => value,
    }
}

/// The value an assignment step gives its variable, given what the shell
/// did for it; `None` for a step that is not an assignment.
pub fn assignment_value(step: &Step, result: &StepResult) -> (r: Option<String>)
    ensures
        match step@ {
            StepModel::Assign { value, evaluate, .. } => r matches Some(v) && v@ == assigned_value(
                value,
                evaluate,
                result@,
            ),
            _ => r is None,
        },
{
    match step {
        Step::Assign { value, evaluate, .. } => match result {
            StepResult::Evaluated(_, out) => {
                if *evaluate {
                    Some(copy_string(out))
                } else {
                    Some(copy_string(value))
                }
            },
            _ => Some(copy_string(value)),
        },
        _ => None,
    }
}

/// The state after a step that did not fail: an assignment sets its
/// variable (see [`ExecutionState::after_step`]); other steps change nothing.
pub open spec fn step_state(
    m: ExecutionStateModel,
    s: StepModel,
    r: StepResultModel,
) -> ExecutionStateModel {
    match s {
        StepModel::Assign { name, value, export, evaluate, .. } => {
            let v = assigned_value(value, evaluate, r);
            ExecutionStateModel {
                vars: m.vars.insert(name, v),
                exports: if export {
                    m.exports.insert(name, v)
                } else {
                    m.exports
                },
                ..m
            }
        },
        _ => m,
    }
}

/// Running `steps` from state `m`, the shell doing `results[i]` for step
/// `i`: the state at the end and the error the recipe stops with, if any.
/// The first failing step ends the recipe.
pub open spec fn run_lines(
    m: ExecutionStateModel,
    steps: Seq<StepModel>,
    results: Seq<StepResultModel>,
) -> (ExecutionStateModel, Option<ErrorModel>)
    decreases steps.len(),
{
    if steps.len() == 0 {
        (m, None)
    } else {
        match step_failure(steps[0], results[0]) {
            Some(e) => (m, Some(e)),
            None => run_lines(
                step_state(m, steps[0], results[0]),
                steps.drop_first(),
                results.drop_first(),
            ),
        }
    }
}

/// Where a shebang recipe's script fails the recipe: when it ran and exited
/// non-zero, with the recipe's name and the code.
pub open spec fn script_failure_of(recipe: Seq<char>, run: bool, code: i32) -> Option<ErrorModel> {
    if run && code != 0 {
        Some(ErrorModel::RecipeFailed(recipe, code))
    } else {
        None
    }
}

/// Whether a shebang recipe's script run fails the recipe.
pub fn script_failure(recipe: &str, run: bool, exit_code: i32) -> (r: Option<Error>)
    ensures
        opt_error(r) == script_failure_of(recipe@, run, exit_code),
{
    if run && exit_code != 0 {
        Some(Error::RecipeFailed(string_of(&chars_of(recipe)), exit_code))
    } else {
        None
    }
}

/// Each recipe's lines start on a fresh state: the environment and the
/// recipe's own parameters, and no variable assigned or exported by any
/// other recipe (a dependency's included), so its commands see exactly the
/// environment with its parameters on top.
pub proof fn law_each_recipe_starts_fresh(
    env: Map<Seq<char>, Seq<char>>,
    params: Seq<(Seq<char>, Seq<char>)>,
)
    ensures
        job_start(env, params).vars == Map::<Seq<char>, Seq<char>>::empty(),
        job_start(env, params).exports == Map::<Seq<char>, Seq<char>>::empty(),
        env_of(job_start(env, params)) == env.union_prefer_right(map_of_pairs(params)),
{
    let m = job_start(env, params);
    assert(env_of(m) =~= env.union_prefer_right(map_of_pairs(params)));
}

proof fn lemma_run_lines_prefix(
    m: ExecutionStateModel,
    steps: Seq<StepModel>,
    results: Seq<StepResultModel>,
    k: int,
)
    requires
        0 <= k < steps.len(),
        k < results.len(),
        step_failure(steps[k], results[k]) is Some,
        forall|j: int| 0 <= j < k ==> #[trigger] step_failure(steps[j], results[j]) is None,
    ensures
        run_lines(m, steps, results).1 == step_failure(steps[k], results[k]),
        run_lines(m, steps, results) == run_lines(
            m,
            steps.take(k + 1),
            results.take(k + 1),
        ),
    decreases k,
{
    let st = steps.take(k + 1);
    let rt = results.take(k + 1);
    assert(st[0] == steps[0] && rt[0] == results[0]);
    if k > 0 {
        assert(step_failure(steps[0], results[0]) is None);
        let s2 = steps.drop_first();
        let r2 = results.drop_first();
        assert forall|j: int| 0 <= j < k - 1 implies #[trigger] step_failure(s2[j], r2[j]) is None by {
            assert(s2[j] == steps[j + 1] && r2[j] == results[j + 1]);
        }
        assert(s2[k - 1] == steps[k] && r2[k - 1] == results[k]);
        lemma_run_lines_prefix(step_state(m, steps[0], results[0]), s2, r2, k - 1);
        assert(st.drop_first() =~= s2.take(k));
        assert(rt.drop_first() =~= r2.take(k));
    }
}

/// A recipe stops at its first failing step: the recipe's error is that
/// step's, and what the shell does for later steps changes nothing, since
/// they never run.
pub proof fn law_first_failure_stops_the_recipe(
    m: ExecutionStateModel,
    steps: Seq<StepModel>,
    results: Seq<StepResultModel>,
    k: int,
)
    requires
        0 <= k < steps.len(),
        k < results.len(),
        step_failure(steps[k], results[k]) is Some,
        forall|j: int| 0 <= j < k ==> #[trigger] step_failure(steps[j], results[j]) is None,
    ensures
        run_lines(m, steps, results).1 == step_failure(steps[k], results[k]),
        run_lines(m, steps, results) == run_lines(m, steps.take(k + 1), results.take(k + 1)),
{
    lemma_run_lines_prefix(m, steps, results, k);
}

/// A recipe none of whose steps fails runs to the end without error.
pub proof fn law_no_failure_no_error(
    m: ExecutionStateModel,
    steps: Seq<StepModel>,
    results: Seq<StepResultModel>,
)
    requires
        steps.len() <= results.len(),
        forall|j: int| 0 <= j < steps.len() ==> #[trigger] step_failure(steps[j], results[j]) is None,
    ensures
        run_lines(m, steps, results).1 is None,
    decreases steps.len(),
{
    if steps.len() > 0 {
        assert(step_failure(steps[0], results[0]) is None);
        let s2 = steps.drop_first();
        let r2 = results.drop_first();
        assert forall|j: int| 0 <= j < s2.len() implies #[trigger] step_failure(s2[j], r2[j]) is None by {
            assert(s2[j] == steps[j + 1] && r2[j] == results[j + 1]);
        }
        law_no_failure_no_error(step_state(m, steps[0], results[0]), s2, r2);
    }
}

/// An assignment whose value the shell computed sets the variable to the
/// shell's output for every later line (unless an earlier line exported the
/// name and this one does not); one taken as written sets it to its value.
pub proof fn law_evaluated_assignment_persists(
    m: ExecutionStateModel,
    name: Seq<char>,
    value: Seq<char>,
    export: bool,
    evaluate: bool,
    echo: bool,
    code: i32,
    out: Seq<char>,
)
    requires
        !(evaluate && code != 0),
        export || !m.exports.contains_key(name),
    ensures
        ({
            let s = StepModel::Assign { name, value, export, evaluate, echo };
            let r = StepResultModel::Evaluated(code, out);
            &&& step_failure(s, r) is None
            &&& env_of(step_state(m, s, r)).contains_key(name)
            &&& env_of(step_state(m, s, r))[name] == if evaluate {
                out
            } else {
                value
            }
        }),
{
}

/// The script that evaluates an assignment in the shell and prints the
/// value the variable ends up with.
pub open spec fn assignment_script_of(name: Seq<char>, value: Seq<char>) -> Seq<char> {
    name + seq!['='] + value + "\nprintf '%s' \"$"@ + name + seq!['"']
}

/// The script that evaluates `name=value` in the shell and prints the value
/// the variable ends up with, so that quoting, variable references and
/// command substitution mean what they mean in a shell script.
pub fn assignment_script(name: &str, value: &str) -> (r: String)
    ensures
        r@ == assignment_script_of(name@, value@),
{
    let mut out: Vec<char> = chars_of(name);
    out.push('=');
    append_str(&mut out, value);
    append_str(&mut out, "\nprintf '%s' \"$");
    append_str(&mut out, name);
    out.push('"');
    assert(out@ =~= assignment_script_of(name@, value@));
    string_of(&out)
}

/// The line echoed for an assignment step once its value is known.
pub open spec fn assignment_echo_of(name: Seq<char>, value: Seq<char>, export: bool) -> Seq<char> {
    if export {
        "export "@ + name + seq!['='] + value
    } else {
        name + seq!['='] + value
    }
}

/// The line echoed for an assignment step: `NAME=value`, or `export
/// NAME=value` for an export.
pub fn assignment_echo(name: &str, value: &str, export: bool) -> (r: String)
    ensures
        r@ == assignment_echo_of(name@, value@, export),
{
    let mut out: Vec<char> = Vec::new();
    if export {
        append_str(&mut out, "export ");
    }
    append_str(&mut out, name);
    out.push('=');
    append_str(&mut out, value);
    assert(out@ =~= assignment_echo_of(name@, value@, export));
    string_of(&out)
}

// ---------------------------------------------------------------------------
// Listing recipes
// ---------------------------------------------------------------------------
/// A parameter as the listing shows it: `*` or `+` for variadics, the
/// name, and `='default'` when it has one.
pub open spec fn parameter_display(p: ParameterModel) -> Seq<char> {
    let prefix = match p.kind {
        ParameterKind::Variadic => seq!['*'],
        ParameterKind::PlusVariadic => seq!['+'],
        ParameterKind::Normal => seq![],
    };
    match p.default {
        Some(d) => prefix + p.name + seq!['=', '\''] + d + seq!['\''],
        None => prefix + p.name,
    }
}

/// A recipe's line in the listing: indented name, parameters, and ` # doc`
/// when it has a doc comment.
pub open spec fn recipe_listing(r: RecipeModel) -> Seq<char> {
    let shown = Seq::new(r.parameters.len(), |i: int| parameter_display(r.parameters[i]));
    let params = if shown.len() == 0 {
        seq![]
    } else {
        seq![' '] + join_words(shown)
    };
    match r.doc {
        Some(d) => "    "@ + r.name + params + " # "@ + d,
        None => "    "@ + r.name + params,
    }
}

/// The lines of the recipe listing: a heading, one line per recipe, and the
/// aliases when there are any.
pub open spec fn listing(jf: JustfileModel) -> Seq<Seq<char>> {
    let recipes = Seq::new(jf.recipes.len(), |i: int| recipe_listing(jf.recipes[i]));
    let aliases = if jf.aliases.len() == 0 {
        seq![]
    } else {
        seq![seq![], "Aliases:"@] + Seq::new(
            jf.aliases.len(),
            |i: int| "    "@ + jf.aliases[i].0 + " := "@ + jf.aliases[i].1,
        )
    };
    seq!["Available recipes:"@] + recipes + aliases
}

fn parameter_display_exec(p: &Parameter) -> (r: String)
    ensures
        r@ == parameter_display(p@),
{
    let mut out: Vec<char> = Vec::new();
    match p.kind {
        ParameterKind::Variadic => out.push('*'),
        ParameterKind::PlusVariadic => out.push('+'),
        ParameterKind::Normal => {},
    }
    append_str(&mut out, p.name.as_str());
    match &p.default {
        Some(d) => {
            out.push('=');
            out.push('\'');
            append_str(&mut out, d.as_str());
            out.push('\'');
        },
        None => {},
    }
    assert(out@ =~= parameter_display(p@));
    string_of(&out)
}

fn recipe_listing_exec(r: &Recipe) -> (res: String)
    ensures
        res@ == recipe_listing(r@),
{
    let ghost shown = Seq::new(
        r@.parameters.len(),
        |i: int| parameter_display(r@.parameters[i]),
    );
    let mut ds: Vec<String> = Vec::new();
    let mut i: usize = 0;
    while i < r.parameters.len()
        invariant
            0 <= i <= r.parameters.len(),
            ds.len() == i,
            shown == Seq::new(r@.parameters.len(), |i: int| parameter_display(r@.parameters[i])),
            string_views(ds@) =~= shown.take(i as int),
        decreases r.parameters.len() - i,
    {
        ds.push(parameter_display_exec(&r.parameters[i]));
        assert(string_views(ds@) =~= shown.take(i + 1));
        i = i + 1;
    }
    assert(shown.take(r.parameters.len() as int) =~= shown);
    let mut out: Vec<char> = Vec::new();
    append_str(&mut out, "    ");
    append_str(&mut out, r.name.as_str());
    if ds.len() > 0 {
        out.push(' ');
        let j = join_strings(&ds);
        append_str(&mut out, j.as_str());
    }
    match &r.doc {
        Some(d) => {
            append_str(&mut out, " # ");
            append_str(&mut out, d.as_str());
        },
        None => {},
    }
    assert(out@ =~= recipe_listing(r@));
    string_of(&out)
}

proof fn lemma_string_views_push(v: Seq<String>, x: String)
    ensures
        string_views(v.push(x)) == string_views(v).push(x@),
{
    assert(string_views(v.push(x)) =~= string_views(v).push(x@));
}

/// The recipe listing of `justfile`, line by line: `Available recipes:`,
/// each recipe with its parameters and doc comment, then the aliases.
pub fn list_recipes(justfile: &Justfile) -> (r: Vec<String>)
    ensures
        string_views(r@) == listing(justfile@),
{
    let ghost jf = justfile@;
    let mut out: Vec<String> = Vec::new();
    out.push(string_of(&chars_of("Available recipes:")));
    let ghost head = seq!["Available recipes:"@];
    assert(string_views(out@) =~= head);
    let ghost rs = Seq::new(jf.recipes.len(), |i: int| recipe_listing(jf.recipes[i]));
    let mut i: usize = 0;
    while i < justfile.recipes.len()
        invariant
            0 <= i <= justfile.recipes.len(),
            jf == justfile@,
            rs == Seq::new(jf.recipes.len(), |i: int| recipe_listing(jf.recipes[i])),
            out.len() == i + 1,
            head.len() == 1,
            string_views(out@) =~= head + rs.take(i as int),
        decreases justfile.recipes.len() - i,
    {
        let line = recipe_listing_exec(&justfile.recipes[i]);
        assert(line@ == rs[i as int]);
        let ghost before = out@;
        out.push(line);
        proof {
            lemma_string_views_push(before, line);
            assert(head + rs.take(i + 1) =~= (head + rs.take(i as int)).push(rs[i as int]));
        }
        i = i + 1;
    }
    assert(rs.take(justfile.recipes.len() as int) =~= rs);
    if justfile.aliases.len() > 0 {
        let ghost mid = string_views(out@);
        out.push(string_of(&Vec::new()));
        out.push(string_of(&chars_of("Aliases:")));
        let ghost al = Seq::new(
            jf.aliases.len(),
            |i: int| "    "@ + jf.aliases[i].0 + " := "@ + jf.aliases[i].1,
        );
        let ghost mid2 = mid + seq![seq![], "Aliases:"@];
        assert(string_views(out@) =~= mid2);
        let mut k: usize = 0;
        while k < justfile.aliases.len()
            invariant
                0 <= k <= justfile.aliases.len(),
                jf == justfile@,
                al == Seq::new(
                    jf.aliases.len(),
                    |i: int| "    "@ + jf.aliases[i].0 + " := "@ + jf.aliases[i].1,
                ),
                out.len() == mid2.len() + k,
                string_views(out@) =~= mid2 + al.take(k as int),
            decreases justfile.aliases.len() - k,
        {
            let mut line: Vec<char> = Vec::new();
            append_str(&mut line, "    ");
            append_str(&mut line, justfile.aliases[k].0.as_str());
            append_str(&mut line, " := ");
            append_str(&mut line, justfile.aliases[k].1.as_str());
            assert(line@ =~= al[k as int]);
            let ls = string_of(&line);
            let ghost before = out@;
            out.push(ls);
            proof {
                lemma_string_views_push(before, ls);
                assert(mid2 + al.take(k + 1) =~= (mid2 + al.take(k as int)).push(al[k as int]));
            }
            k = k + 1;
        }
        assert(al.take(justfile.aliases.len() as int) =~= al);
    }
    out
}

// ---------------------------------------------------------------------------
// Laws
// ---------------------------------------------------------------------------
/// What identifies a run: the recipe and its arguments.
pub open spec fn job_key(j: JobModel) -> (Seq<char>, Seq<Seq<char>>) {
    (j.recipe, j.args)
}

/// `r` continues walk state `st`: it keeps `st`'s jobs and started runs as
/// prefixes, and every job it adds is a run that was not started in `st`,
/// is started in `r`, and is added once.
pub open spec fn extends(st: PlanState, r: PlanState) -> bool {
    &&& st.jobs.len() <= r.jobs.len()
    &&& r.jobs.take(st.jobs.len() as int) == st.jobs
    &&& st.ran.len() <= r.ran.len()
    &&& r.ran.take(st.ran.len() as int) == st.ran
    &&& forall|i: int|
        #![trigger r.jobs[i]]
        st.jobs.len() <= i < r.jobs.len() ==> r.ran.contains(job_key(r.jobs[i]))
            && !st.ran.contains(job_key(r.jobs[i]))
    &&& forall|i: int, j: int|
        #![trigger r.jobs[i], r.jobs[j]]
        st.jobs.len() <= i < j < r.jobs.len() ==> job_key(r.jobs[i]) != job_key(r.jobs[j])
}

proof fn lemma_prefix_contains<A>(s: Seq<A>, t: Seq<A>, x: A)
    requires
        s.len() <= t.len(),
        t.take(s.len() as int) == s,
        s.contains(x),
    ensures
        t.contains(x),
{
    let i = choose|i: int| 0 <= i < s.len() && s[i] == x;
    assert(t.take(s.len() as int)[i] == t[i]);
}

proof fn lemma_extends_same(st: PlanState, r: PlanState)
    requires
        r.jobs == st.jobs,
        r.ran == st.ran,
    ensures
        extends(st, r),
{
    assert(r.jobs.take(st.jobs.len() as int) =~= st.jobs);
    assert(r.ran.take(st.ran.len() as int) =~= st.ran);
}

proof fn lemma_extends_trans(a: PlanState, b: PlanState, c: PlanState)
    requires
        extends(a, b),
        extends(b, c),
    ensures
        extends(a, c),
{
    assert(c.jobs.take(a.jobs.len() as int) =~= c.jobs.take(b.jobs.len() as int).take(
        a.jobs.len() as int,
    ));
    assert(c.ran.take(a.ran.len() as int) =~= c.ran.take(b.ran.len() as int).take(
        a.ran.len() as int,
    ));
    assert forall|i: int|
        #![trigger c.jobs[i]]
        a.jobs.len() <= i < c.jobs.len() implies c.ran.contains(job_key(c.jobs[i]))
        && !a.ran.contains(job_key(c.jobs[i])) by {
        if i < b.jobs.len() {
            assert(c.jobs.take(b.jobs.len() as int)[i] == c.jobs[i]);
            assert(b.jobs[i] == c.jobs[i]);
            lemma_prefix_contains(b.ran, c.ran, job_key(c.jobs[i]));
        } else {
            if a.ran.contains(job_key(c.jobs[i])) {
                lemma_prefix_contains(a.ran, b.ran, job_key(c.jobs[i]));
            }
        }
    }
    assert forall|i: int, j: int|
        #![trigger c.jobs[i], c.jobs[j]]
        a.jobs.len() <= i < j < c.jobs.len() implies job_key(c.jobs[i]) != job_key(c.jobs[j]) by {
        if j < b.jobs.len() {
            assert(c.jobs.take(b.jobs.len() as int)[i] == c.jobs[i]);
            assert(c.jobs.take(b.jobs.len() as int)[j] == c.jobs[j]);
            assert(b.jobs[i] == c.jobs[i]);
            assert(b.jobs[j] == c.jobs[j]);
        } else if i < b.jobs.len() {
            assert(c.jobs.take(b.jobs.len() as int)[i] == c.jobs[i]);
            assert(b.jobs[i] == c.jobs[i]);
            assert(b.ran.contains(job_key(b.jobs[i])));
        }
    }
}

proof fn lemma_recipe_extends(
    jf: JustfileModel,
    dry_run: bool,
    quiet: bool,
    bound: int,
    name: Seq<char>,
    args: Seq<Seq<char>>,
    path: Seq<Seq<char>>,
    st: PlanState,
)
    requires
        st.error is None,
    ensures
        extends(st, plan_recipe(jf, dry_run, quiet, bound, name, args, path, st)),
    decreases bound - path.len(), 0int,
{
    let res = plan_recipe(jf, dry_run, quiet, bound, name, args, path, st);
    if path.contains(name) {
        lemma_extends_same(st, res);
    } else {
        match find_recipe(jf, name) {
            None => {
                lemma_extends_same(st, res);
            },
            Some(k) => {
                let r = jf.recipes[k];
                let key = (r.name, args);
                if st.ran.contains(key) {
                    lemma_extends_same(st, res);
                } else if path.len() + 1 > bound {
                    lemma_extends_same(st, res);
                } else {
                    let st1 = PlanState { jobs: st.jobs, ran: st.ran.push(key), error: None };
                    assert(st1.ran.take(st.ran.len() as int) =~= st.ran);
                    lemma_extends_same(st, PlanState { jobs: st.jobs, ran: st.ran, error: None });
                    assert(extends(st, st1)) by {
                        assert(st1.jobs.take(st.jobs.len() as int) =~= st.jobs);
                    }
                    lemma_deps_extends(jf, dry_run, quiet, bound, k, 0, path.push(name), st1);
                    let after = plan_deps(jf, dry_run, quiet, bound, k, 0, path.push(name), st1);
                    lemma_extends_trans(st, st1, after);
                    if after.error is None {
                        match bind_parameters(r.parameters, args) {
                            Err(p) => {
                                lemma_extends_same(after, res);
                                lemma_extends_trans(st, after, res);
                            },
                            Ok(b) => {
                                let job = JobModel {
                                    recipe: r.name,
                                    args,
                                    action: plan_action(r, b, args, dry_run, quiet),
                                };
                                assert(res.jobs == after.jobs.push(job));
                                assert(res.jobs.take(st.jobs.len() as int) =~= after.jobs.take(
                                    st.jobs.len() as int,
                                ));
                                assert(st1.ran.contains(key)) by {
                                    assert(st1.ran[st.ran.len() as int] == key);
                                }
                                lemma_prefix_contains(st1.ran, after.ran, key);
                                assert forall|i: int|
                                    #![trigger res.jobs[i]]
                                    st.jobs.len() <= i < res.jobs.len() implies res.ran.contains(
                                    job_key(res.jobs[i]),
                                ) && !st.ran.contains(job_key(res.jobs[i])) by {
                                    if i < after.jobs.len() {
                                        assert(res.jobs[i] == after.jobs[i]);
                                    }
                                }
                                assert forall|i: int, j: int|
                                    #![trigger res.jobs[i], res.jobs[j]]
                                    st.jobs.len() <= i < j < res.jobs.len() implies job_key(
                                    res.jobs[i],
                                ) != job_key(res.jobs[j]) by {
                                    assert(res.jobs[i] == after.jobs[i]);
                                    if j < after.jobs.len() {
                                        assert(res.jobs[j] == after.jobs[j]);
                                    } else {
                                        assert(job_key(res.jobs[j]) == key);
                                        if i < st1.jobs.len() {
                                        } else {
                                            assert(!st1.ran.contains(job_key(after.jobs[i])));
                                        }
                                    }
                                }
                            },
                        }
                    }
                }
            },
        }
    }
}

proof fn lemma_deps_extends(
    jf: JustfileModel,
    dry_run: bool,
    quiet: bool,
    bound: int,
    k: int,
    j: int,
    path: Seq<Seq<char>>,
    st: PlanState,
)
    requires
        st.error is None,
    ensures
        extends(st, plan_deps(jf, dry_run, quiet, bound, k, j, path, st)),
    decreases bound - path.len(), jf.recipes[k].dependencies.len() - j + 1,
{
    if 0 <= k < jf.recipes.len() && 0 <= j < jf.recipes[k].dependencies.len() {
        let d = jf.recipes[k].dependencies[j];
        let next = plan_recipe(jf, dry_run, quiet, bound, d.recipe, d.arguments, path, st);
        lemma_recipe_extends(jf, dry_run, quiet, bound, d.recipe, d.arguments, path, st);
        if next.error is None {
            lemma_deps_extends(jf, dry_run, quiet, bound, k, j + 1, path, next);
            lemma_extends_trans(
                st,
                next,
                plan_deps(jf, dry_run, quiet, bound, k, j + 1, path, next),
            );
        }
    } else {
        lemma_extends_same(st, st);
    }
}

/// A recipe runs at most once per invocation for any one set of arguments:
/// no two jobs of a plan have the same recipe and arguments.
pub proof fn law_each_run_once(
    jf: JustfileModel,
    dry_run: bool,
    quiet: bool,
    name: Seq<char>,
    args: Seq<Seq<char>>,
)
    ensures
        forall|i: int, j: int|
            #![trigger run_plan(jf, dry_run, quiet, name, args).jobs[i], run_plan(jf, dry_run, quiet, name, args).jobs[j]]
            0 <= i < j < run_plan(jf, dry_run, quiet, name, args).jobs.len() ==> job_key(
                run_plan(jf, dry_run, quiet, name, args).jobs[i],
            ) != job_key(run_plan(jf, dry_run, quiet, name, args).jobs[j]),
{
    lemma_recipe_extends(
        jf,
        dry_run,
        quiet,
        name_universe(jf, name).len() as int,
        name,
        args,
        seq![],
        PlanState { jobs: seq![], ran: seq![], error: None },
    );
}

/// Whether a step makes the shell do anything: a command that runs, or an
/// assignment whose value the shell computes.
pub open spec fn step_spawns(s: StepModel) -> bool {
    match s {
        StepModel::Shift { .. } => false,
        StepModel::Command { run, .. } => run,
        StepModel::Assign { evaluate, .. } => evaluate,
    }
}

/// Whether a job makes the shell do anything.
pub open spec fn job_spawns(j: JobModel) -> bool {
    match j.action {
        ActionModel::Nothing => false,
        ActionModel::Script { run, .. } => run,
        ActionModel::Lines { steps, .. } => exists|i: int|
            0 <= i < steps.len() && #[trigger] step_spawns(steps[i]),
    }
}

/// Whether none of `jobs` makes the shell do anything.
pub open spec fn none_spawn(jobs: Seq<JobModel>) -> bool {
    forall|i: int| 0 <= i < jobs.len() ==> !#[trigger] job_spawns(jobs[i])
}

proof fn lemma_dry_lines(
    body: Seq<LineModel>,
    i: int,
    params: Seq<(Seq<char>, BindingModel)>,
    positional: Seq<Seq<char>>,
    quiet: bool,
    recipe_quiet: bool,
)
    ensures
        forall|k: int|
            0 <= k < plan_lines(body, i, params, positional, true, quiet, recipe_quiet).len()
                ==> !#[trigger] step_spawns(
                plan_lines(body, i, params, positional, true, quiet, recipe_quiet)[k],
            ),
    decreases body.len() - i,
{
    if 0 <= i < body.len() {
        match body[i] {
            LineModel::Command { text, .. } => {
                let e = substitute(text, params, positional);
                match shift_amount(e) {
                    Some(n) => {
                        lemma_dry_lines(body, i + 1, params, shifted(positional, n), quiet, recipe_quiet);
                    },
                    None => {
                        lemma_dry_lines(body, i + 1, params, positional, quiet, recipe_quiet);
                    },
                }
            },
            _ => {
                lemma_dry_lines(body, i + 1, params, positional, quiet, recipe_quiet);
            },
        }
        let all = plan_lines(body, i, params, positional, true, quiet, recipe_quiet);
        assert forall|k: int| 0 <= k < all.len() implies !#[trigger] step_spawns(all[k]) by {
            if k > 0 {
                let rest = match body[i] {
                    LineModel::Command { text, .. } => match shift_amount(
                        substitute(text, params, positional),
                    ) {
                        Some(n) => plan_lines(
                            body,
                            i + 1,
                            params,
                            shifted(positional, n),
                            true,
                            quiet,
                            recipe_quiet,
                        ),
                        None => plan_lines(body, i + 1, params, positional, true, quiet, recipe_quiet),
                    },
                    _ => plan_lines(body, i + 1, params, positional, true, quiet, recipe_quiet),
                };
                assert(all[k] == rest[k - 1]);
            }
        }
    }
}

proof fn lemma_dry_action(r: RecipeModel, b: Seq<(Seq<char>, BindingModel)>, args: Seq<Seq<char>>, quiet: bool)
    ensures
        !job_spawns(JobModel { recipe: r.name, args, action: plan_action(r, b, args, true, quiet) }),
{
    lemma_dry_lines(r.body, 0, b, args, quiet, r.quiet);
}

proof fn lemma_recipe_dry(
    jf: JustfileModel,
    quiet: bool,
    bound: int,
    name: Seq<char>,
    args: Seq<Seq<char>>,
    path: Seq<Seq<char>>,
    st: PlanState,
)
    requires
        none_spawn(st.jobs),
    ensures
        none_spawn(plan_recipe(jf, true, quiet, bound, name, args, path, st).jobs),
    decreases bound - path.len(), 0int,
{
    if !path.contains(name) {
        match find_recipe(jf, name) {
            None => {},
            Some(k) => {
                let r = jf.recipes[k];
                if !st.ran.contains((r.name, args)) && path.len() + 1 <= bound {
                    let st1 = PlanState { jobs: st.jobs, ran: st.ran.push((r.name, args)), error: None };
                    lemma_deps_dry(jf, quiet, bound, k, 0, path.push(name), st1);
                    let after = plan_deps(jf, true, quiet, bound, k, 0, path.push(name), st1);
                    if after.error is None {
                        match bind_parameters(r.parameters, args) {
                            Err(p) => {},
                            Ok(b) => {
                                let job = JobModel {
                                    recipe: r.name,
                                    args,
                                    action: plan_action(r, b, args, true, quiet),
                                };
                                lemma_dry_action(r, b, args, quiet);
                                let res = after.jobs.push(job);
                                assert forall|i: int| 0 <= i < res.len() implies !#[trigger] job_spawns(
                                    res[i],
                                ) by {
                                    if i < after.jobs.len() {
                                        assert(res[i] == after.jobs[i]);
                                    }
                                }
                            },
                        }
                    }
                }
            },
        }
    }
}

proof fn lemma_deps_dry(
    jf: JustfileModel,
    quiet: bool,
    bound: int,
    k: int,
    j: int,
    path: Seq<Seq<char>>,
    st: PlanState,
)
    requires
        none_spawn(st.jobs),
    ensures
        none_spawn(plan_deps(jf, true, quiet, bound, k, j, path, st).jobs),
    decreases bound - path.len(), jf.recipes[k].dependencies.len() - j + 1,
{
    if 0 <= k < jf.recipes.len() && 0 <= j < jf.recipes[k].dependencies.len() {
        let d = jf.recipes[k].dependencies[j];
        let next = plan_recipe(jf, true, quiet, bound, d.recipe, d.arguments, path, st);
        lemma_recipe_dry(jf, quiet, bound, d.recipe, d.arguments, path, st);
        if next.error is None {
            lemma_deps_dry(jf, quiet, bound, k, j + 1, path, next);
        }
    }
}

proof fn lemma_recipe_same_outcome(
    jf: JustfileModel,
    d1: bool,
    d2: bool,
    quiet: bool,
    bound: int,
    name: Seq<char>,
    args: Seq<Seq<char>>,
    path: Seq<Seq<char>>,
    s1: PlanState,
    s2: PlanState,
)
    requires
        s1.ran == s2.ran,
        s1.error == s2.error,
    ensures
        plan_recipe(jf, d1, quiet, bound, name, args, path, s1).ran == plan_recipe(
            jf,
            d2,
            quiet,
            bound,
            name,
            args,
            path,
            s2,
        ).ran,
        plan_recipe(jf, d1, quiet, bound, name, args, path, s1).error == plan_recipe(
            jf,
            d2,
            quiet,
            bound,
            name,
            args,
            path,
            s2,
        ).error,
    decreases bound - path.len(), 0int,
{
    if !path.contains(name) {
        match find_recipe(jf, name) {
            None => {},
            Some(k) => {
                let r = jf.recipes[k];
                if !s1.ran.contains((r.name, args)) && path.len() + 1 <= bound {
                    let t1 = PlanState { jobs: s1.jobs, ran: s1.ran.push((r.name, args)), error: None };
                    let t2 = PlanState { jobs: s2.jobs, ran: s2.ran.push((r.name, args)), error: None };
                    lemma_deps_same_outcome(jf, d1, d2, quiet, bound, k, 0, path.push(name), t1, t2);
                }
            },
        }
    }
}

proof fn lemma_deps_same_outcome(
    jf: JustfileModel,
    d1: bool,
    d2: bool,
    quiet: bool,
    bound: int,
    k: int,
    j: int,
    path: Seq<Seq<char>>,
    s1: PlanState,
    s2: PlanState,
)
    requires
        s1.ran == s2.ran,
        s1.error == s2.error,
    ensures
        plan_deps(jf, d1, quiet, bound, k, j, path, s1).ran == plan_deps(
            jf,
            d2,
            quiet,
            bound,
            k,
            j,
            path,
            s2,
        ).ran,
        plan_deps(jf, d1, quiet, bound, k, j, path, s1).error == plan_deps(
            jf,
            d2,
            quiet,
            bound,
            k,
            j,
            path,
            s2,
        ).error,
    decreases bound - path.len(), jf.recipes[k].dependencies.len() - j + 1,
{
    if 0 <= k < jf.recipes.len() && 0 <= j < jf.recipes[k].dependencies.len() {
        let d = jf.recipes[k].dependencies[j];
        lemma_recipe_same_outcome(jf, d1, d2, quiet, bound, d.recipe, d.arguments, path, s1, s2);
        let n1 = plan_recipe(jf, d1, quiet, bound, d.recipe, d.arguments, path, s1);
        let n2 = plan_recipe(jf, d2, quiet, bound, d.recipe, d.arguments, path, s2);
        if n1.error is None {
            lemma_deps_same_outcome(jf, d1, d2, quiet, bound, k, j + 1, path, n1, n2);
        }
    }
}

/// A dry run still reports its errors: whether a plan ends with an error,
/// and which, does not depend on whether it is a dry run.
pub proof fn law_dry_run_keeps_errors(
    jf: JustfileModel,
    quiet: bool,
    name: Seq<char>,
    args: Seq<Seq<char>>,
)
    ensures
        run_plan(jf, true, quiet, name, args).error == run_plan(jf, false, quiet, name, args).error,
{
    let st = PlanState { jobs: seq![], ran: seq![], error: None };
    lemma_recipe_same_outcome(
        jf,
        true,
        false,
        quiet,
        name_universe(jf, name).len() as int,
        name,
        args,
        seq![],
        st,
        st,
    );
}

/// `c` names a cycle of first dependencies, the recipes `ks` it names by
/// their own names: each name is a recipe with a dependency, the first
/// dependency of each recipe names the next one, that of the last names
/// `c[j]` again, and the names and the recipes' names are all distinct.
pub open spec fn first_dependency_cycle(
    jf: JustfileModel,
    c: Seq<Seq<char>>,
    ks: Seq<int>,
    j: int,
) -> bool {
    &&& c.len() >= 1
    &&& ks.len() == c.len()
    &&& 0 <= j < c.len()
    &&& c.no_duplicates()
    &&& forall|i: int|
        0 <= i < c.len() ==> #[trigger] find_recipe(jf, c[i]) == Some(ks[i]) && 0 <= ks[i]
            < jf.recipes.len() && jf.recipes[ks[i]].dependencies.len() > 0
    &&& forall|i: int|
        0 <= i < c.len() - 1 ==> #[trigger] jf.recipes[ks[i]].dependencies[0].recipe == c[i + 1]
    &&& jf.recipes[ks[c.len() - 1]].dependencies[0].recipe == c[j]
    &&& forall|h: int, i: int|
        0 <= h < i < c.len() ==> #[trigger] jf.recipes[ks[h]].name != #[trigger] jf.recipes[ks[i]].name
}

proof fn lemma_cycle_from(
    jf: JustfileModel,
    dry_run: bool,
    quiet: bool,
    c: Seq<Seq<char>>,
    ks: Seq<int>,
    j: int,
    i: int,
    args: Seq<Seq<char>>,
    st: PlanState,
)
    requires
        first_dependency_cycle(jf, c, ks, j),
        0 <= i < c.len(),
        st.error is None,
        forall|m: int|
            0 <= m < st.ran.len() ==> exists|h: int|
                0 <= h < i && (#[trigger] st.ran[m]).0 == jf.recipes[ks[h]].name,
    ensures
        plan_recipe(jf, dry_run, quiet, name_universe(jf, c[0]).len() as int, c[i], args, c.take(i), st).error
            == Some(ErrorModel::CircularDependency(c[j])),
        plan_recipe(jf, dry_run, quiet, name_universe(jf, c[0]).len() as int, c[i], args, c.take(i), st).jobs
            == st.jobs,
    decreases c.len() - i,
{
    let bound = name_universe(jf, c[0]).len() as int;
    let path = c.take(i);
    let k = ks[i];
    let r = jf.recipes[k];
    assert(find_recipe(jf, c[i]) == Some(ks[i]));
    assert(!path.contains(c[i])) by {
        if path.contains(c[i]) {
            let h = choose|h: int| 0 <= h < path.len() && path[h] == c[i];
            assert(c[h] == c[i]);
        }
    }
    assert(!st.ran.contains((r.name, args))) by {
        if st.ran.contains((r.name, args)) {
            let m = choose|m: int| 0 <= m < st.ran.len() && st.ran[m] == (r.name, args);
            let h = choose|h: int| 0 <= h < i && (#[trigger] st.ran[m]).0 == jf.recipes[ks[h]].name;
            assert(jf.recipes[ks[h]].name != jf.recipes[ks[i]].name);
        }
    }
    assert(path.len() + 1 <= bound) by {
        if i > 0 {
            let tail = c.subrange(1, i + 1);
            assert forall|h: int| 0 <= h < tail.len() implies dep_names(jf.recipes).contains(
                tail[h],
            ) by {
                assert(tail[h] == c[h + 1]);
                assert(find_recipe(jf, c[h]) == Some(ks[h]));
                assert(jf.recipes[ks[h]].dependencies[0].recipe == c[h + 1]);
                lemma_dep_name(jf.recipes, ks[h], 0);
            }
            assert(tail.no_duplicates()) by {
                assert forall|a: int, b: int| 0 <= a < b < tail.len() implies tail[a] != tail[b] by {
                    assert(tail[a] == c[a + 1] && tail[b] == c[b + 1]);
                }
            }
            lemma_path_bound(tail, dep_names(jf.recipes));
        }
    }
    let st1 = PlanState { jobs: st.jobs, ran: st.ran.push((r.name, args)), error: None };
    let path1 = path.push(c[i]);
    assert(path1 =~= c.take(i + 1));
    let d = r.dependencies[0];
    let next = plan_recipe(jf, dry_run, quiet, bound, d.recipe, d.arguments, path1, st1);
    if i == c.len() - 1 {
        assert(d.recipe == c[j]);
        assert(path1[j] == c[j]);
        assert(path1.contains(c[j]));
        assert(next == stopped(st1, ErrorModel::CircularDependency(c[j])));
    } else {
        assert(d.recipe == c[i + 1]);
        assert forall|m: int| 0 <= m < st1.ran.len() implies exists|h: int|
            0 <= h < i + 1 && (#[trigger] st1.ran[m]).0 == jf.recipes[ks[h]].name by {
            if m < st.ran.len() {
                assert(st1.ran[m] == st.ran[m]);
            } else {
                assert(st1.ran[m].0 == jf.recipes[ks[i]].name);
            }
        }
        lemma_cycle_from(jf, dry_run, quiet, c, ks, j, i + 1, d.arguments, st1);
    }
    let after = plan_deps(jf, dry_run, quiet, bound, k, 0, path1, st1);
    assert(after == next);
    assert(plan_recipe(jf, dry_run, quiet, bound, c[i], args, path, st) == finish_recipe(
        r,
        args,
        dry_run,
        quiet,
        after,
    ));
}

/// A cycle of dependencies is an error: running the first recipe of a cycle
/// of first dependencies, named by the recipes' own names, ends with
/// `CircularDependency` for the name that closes the cycle, and no recipe of
/// it runs.
pub proof fn law_dependency_cycle_is_an_error(
    jf: JustfileModel,
    dry_run: bool,
    quiet: bool,
    c: Seq<Seq<char>>,
    ks: Seq<int>,
    j: int,
    args: Seq<Seq<char>>,
)
    requires
        first_dependency_cycle(jf, c, ks, j),
    ensures
        run_plan(jf, dry_run, quiet, c[0], args).error == Some(ErrorModel::CircularDependency(c[j])),
        run_plan(jf, dry_run, quiet, c[0], args).jobs.len() == 0,
{
    let st = PlanState { jobs: seq![], ran: seq![], error: None };
    assert(c.take(0) =~= Seq::<Seq<char>>::empty());
    lemma_cycle_from(jf, dry_run, quiet, c, ks, j, 0, args, st);
}

/// A dry run spawns nothing: no job of its plan runs a command, runs a
/// script, or has the shell compute an assignment.
pub proof fn law_dry_run_spawns_nothing(
    jf: JustfileModel,
    quiet: bool,
    name: Seq<char>,
    args: Seq<Seq<char>>,
)
    ensures
        none_spawn(run_plan(jf, true, quiet, name, args).jobs),
{
    lemma_recipe_dry(
        jf,
        quiet,
        name_universe(jf, name).len() as int,
        name,
        args,
        seq![],
        PlanState { jobs: seq![], ran: seq![], error: None },
    );
}

/// A name that is neither a recipe nor an alias of one runs nothing and is
/// answered with `RecipeNotFound` for that name.
pub proof fn law_unknown_recipe(
    jf: JustfileModel,
    dry_run: bool,
    quiet: bool,
    name: Seq<char>,
    args: Seq<Seq<char>>,
)
    requires
        find_recipe(jf, name) is None,
    ensures
        run_plan(jf, dry_run, quiet, name, args) == (PlanModel {
            jobs: seq![],
            error: Some(ErrorModel::RecipeNotFound(name)),
        }),
{
    assert(!Seq::<Seq<char>>::empty().contains(name));
}

proof fn lemma_substitute_plain(
    s: Seq<char>,
    i: int,
    in_single: bool,
    in_double: bool,
    params: Seq<(Seq<char>, BindingModel)>,
    positional: Seq<Seq<char>>,
)
    requires
        0 <= i <= s.len(),
        !s.contains('$'),
    ensures
        substitute_from(s, i, in_single, in_double, params, positional) == s.skip(i),
    decreases s.len() - i,
{
    if i < s.len() {
        assert(s[i] != '$');
        if s[i] == '\\' && !in_single {
            if i + 1 < s.len() {
                lemma_substitute_plain(s, i + 2, in_single, in_double, params, positional);
                assert(seq![s[i], s[i + 1]] + s.skip(i + 2) =~= s.skip(i));
            } else {
                assert(seq![s[i]] =~= s.skip(i));
            }
        } else if s[i] == '\'' && !in_double {
            lemma_substitute_plain(s, i + 1, !in_single, in_double, params, positional);
            assert(seq![s[i]] + s.skip(i + 1) =~= s.skip(i));
        } else if s[i] == '"' && !in_single {
            lemma_substitute_plain(s, i + 1, in_single, !in_double, params, positional);
            assert(seq![s[i]] + s.skip(i + 1) =~= s.skip(i));
        } else {
            lemma_substitute_plain(s, i + 1, in_single, in_double, params, positional);
            assert(seq![s[i]] + s.skip(i + 1) =~= s.skip(i));
        }
    } else {
        assert(s.skip(i) =~= Seq::<char>::empty());
    }
}

/// Text without a `$` has nothing to substitute: it comes back unchanged.
pub proof fn law_plain_text_unchanged(
    text: Seq<char>,
    params: Seq<(Seq<char>, BindingModel)>,
    positional: Seq<Seq<char>>,
)
    requires
        !text.contains('$'),
    ensures
        substitute(text, params, positional) == text,
{
    lemma_substitute_plain(text, 0, false, false, params, positional);
    assert(text.skip(0) =~= text);
}

/// An assignment on a body line reaches every later command: after it, the
/// variable has the assigned value (unless an earlier line exported the name
/// and this one does not), and no other variable changes.
pub proof fn law_assignment_persists(
    m: ExecutionStateModel,
    name: Seq<char>,
    value: Seq<char>,
    export: bool,
)
    ensures
        ({
            let after = ExecutionStateModel {
                vars: m.vars.insert(name, value),
                exports: if export {
                    m.exports.insert(name, value)
                } else {
                    m.exports
                },
                ..m
            };
            &&& (export || !m.exports.contains_key(name)) ==> env_of(after).contains_key(name)
                && env_of(after)[name] == value
            &&& forall|k: Seq<char>|
                k != name ==> (env_of(after).contains_key(k) == env_of(m).contains_key(k) && (
                env_of(m).contains_key(k) ==> env_of(after)[k] == env_of(m)[k]))
        }),
{
}

/// `name` refers to a recipe by that recipe's own name, or to nothing: it is
/// not resolved through an alias.
pub open spec fn resolves_directly(jf: JustfileModel, name: Seq<char>) -> bool {
    first_named(jf.recipes, name, 0) is Some || first_alias(jf.aliases, name, 0) is None
}

/// Every dependency names its recipe directly.
pub open spec fn deps_resolve_directly(jf: JustfileModel) -> bool {
    forall|k: int, j: int|
        0 <= k < jf.recipes.len() && 0 <= j < jf.recipes[k].dependencies.len()
            ==> resolves_directly(jf, #[trigger] jf.recipes[k].dependencies[j].recipe)
}

/// Some job runs recipe and arguments `key`.
pub open spec fn has_job(jobs: Seq<JobModel>, key: (Seq<char>, Seq<Seq<char>>)) -> bool {
    exists|m: int| 0 <= m < jobs.len() && job_key(jobs[m]) == key
}

/// The run a dependency asks for.
pub open spec fn dep_key(d: DependencyModel) -> (Seq<char>, Seq<Seq<char>>) {
    (d.recipe, d.arguments)
}

/// Some job before job `i` runs `key`.
pub open spec fn job_before(jobs: Seq<JobModel>, i: int, key: (Seq<char>, Seq<Seq<char>>)) -> bool {
    exists|m: int| 0 <= m < i && job_key(jobs[m]) == key
}

/// Every dependency of `deps` has a job before job `i`.
pub open spec fn recipe_deps_before(deps: Seq<DependencyModel>, jobs: Seq<JobModel>, i: int) -> bool {
    forall|j: int| 0 <= j < deps.len() ==> job_before(jobs, i, dep_key(#[trigger] deps[j]))
}

/// Every dependency of job `i`'s recipe has a job before it.
pub open spec fn deps_before(jf: JustfileModel, jobs: Seq<JobModel>, i: int) -> bool {
    match first_named(jf.recipes, jobs[i].recipe, 0) {
        Some(k) => recipe_deps_before(jf.recipes[k].dependencies, jobs, i),
        None => true,
    }
}

/// Every job's dependencies have jobs before it.
pub open spec fn deps_first(jf: JustfileModel, jobs: Seq<JobModel>) -> bool {
    forall|i: int| 0 <= i < jobs.len() ==> #[trigger] deps_before(jf, jobs, i)
}

/// Every run started in `st` has a job, or is one whose recipe is on `path`.
pub open spec fn started_accounted(st: PlanState, path: Seq<Seq<char>>) -> bool {
    forall|x: (Seq<char>, Seq<Seq<char>>)|
        #[trigger] st.ran.contains(x) ==> has_job(st.jobs, x) || path.contains(x.0)
}

/// Runs started after `st` in `r` are of recipes not on `path`.
pub open spec fn started_off_path(st: PlanState, r: PlanState, path: Seq<Seq<char>>) -> bool {
    forall|i: int| st.ran.len() <= i < r.ran.len() ==> !path.contains(#[trigger] r.ran[i].0)
}

proof fn lemma_has_job_prefix(a: Seq<JobModel>, b: Seq<JobModel>, key: (Seq<char>, Seq<Seq<char>>))
    requires
        a.len() <= b.len(),
        b.take(a.len() as int) == a,
        has_job(a, key),
    ensures
        has_job(b, key),
{
    let m = choose|m: int| 0 <= m < a.len() && job_key(a[m]) == key;
    assert(b.take(a.len() as int)[m] == b[m]);
}

proof fn lemma_deps_first_push(jf: JustfileModel, jobs: Seq<JobModel>, job: JobModel)
    requires
        deps_first(jf, jobs),
        deps_before(jf, jobs.push(job), jobs.len() as int),
    ensures
        deps_first(jf, jobs.push(job)),
{
    let js = jobs.push(job);
    assert forall|i: int| 0 <= i < js.len() implies #[trigger] deps_before(jf, js, i) by {
        if i < jobs.len() {
            assert(deps_before(jf, jobs, i));
            assert(js[i] == jobs[i]);
            lemma_first_named(jf.recipes, jobs[i].recipe, 0);
            match first_named(jf.recipes, jobs[i].recipe, 0) {
                Some(k) => {
                    lemma_recipe_deps_before_push(jf.recipes[k].dependencies, jobs, job, i);
                },
                None => {},
            }
        }
    }
}

proof fn lemma_recipe_deps_before_push(
    deps: Seq<DependencyModel>,
    jobs: Seq<JobModel>,
    job: JobModel,
    i: int,
)
    requires
        recipe_deps_before(deps, jobs, i),
        0 <= i <= jobs.len(),
    ensures
        recipe_deps_before(deps, jobs.push(job), i),
{
    let js = jobs.push(job);
    assert forall|j: int| 0 <= j < deps.len() implies job_before(js, i, dep_key(#[trigger] deps[j])) by {
        assert(job_before(jobs, i, dep_key(deps[j])));
        let m = choose|m: int| 0 <= m < i && job_key(jobs[m]) == dep_key(deps[j]);
        assert(js[m] == jobs[m]);
    }
}

proof fn lemma_recipe_deps_first(
    jf: JustfileModel,
    dry_run: bool,
    quiet: bool,
    bound: int,
    name: Seq<char>,
    args: Seq<Seq<char>>,
    path: Seq<Seq<char>>,
    st: PlanState,
)
    requires
        st.error is None,
        resolves_directly(jf, name),
        deps_resolve_directly(jf),
        deps_first(jf, st.jobs),
        started_accounted(st, path),
    ensures
        ({
            let r = plan_recipe(jf, dry_run, quiet, bound, name, args, path, st);
            r.error is None ==> {
                &&& deps_first(jf, r.jobs)
                &&& has_job(r.jobs, (name, args))
                &&& started_accounted(r, path)
                &&& started_off_path(st, r, path)
            }
        }),
    decreases bound - path.len(), 0int,
{
    let res = plan_recipe(jf, dry_run, quiet, bound, name, args, path, st);
    lemma_recipe_extends(jf, dry_run, quiet, bound, name, args, path, st);
    if path.contains(name) {
    } else {
        match find_recipe(jf, name) {
            None => {},
            Some(k) => {
                lemma_first_named(jf.recipes, name, 0);
                let r = jf.recipes[k];
                assert(r.name == name);
                let key = (r.name, args);
                if st.ran.contains(key) {
                    assert(has_job(st.jobs, key) || path.contains(key.0));
                } else if path.len() + 1 > bound {
                } else {
                    let p1 = path.push(name);
                    let st1 = PlanState { jobs: st.jobs, ran: st.ran.push(key), error: None };
                    assert(started_accounted(st1, p1)) by {
                        assert forall|x: (Seq<char>, Seq<Seq<char>>)|
                            #[trigger] st1.ran.contains(x) implies has_job(st1.jobs, x)
                            || p1.contains(x.0) by {
                            let i = choose|i: int| 0 <= i < st1.ran.len() && st1.ran[i] == x;
                            if i < st.ran.len() {
                                assert(st.ran[i] == x);
                                assert(st.ran.contains(x));
                                if path.contains(x.0) {
                                    let c = choose|c: int| 0 <= c < path.len() && path[c] == x.0;
                                    assert(p1[c] == x.0);
                                }
                            } else {
                                assert(p1[path.len() as int] == x.0);
                            }
                        }
                    }
                    lemma_deps_deps_first(jf, dry_run, quiet, bound, k, 0, p1, st1);
                    lemma_deps_extends(jf, dry_run, quiet, bound, k, 0, p1, st1);
                    let after = plan_deps(jf, dry_run, quiet, bound, k, 0, p1, st1);
                    if after.error is None {
                        match bind_parameters(r.parameters, args) {
                            Err(p) => {},
                            Ok(b) => {
                                let job = JobModel {
                                    recipe: r.name,
                                    args,
                                    action: plan_action(r, b, args, dry_run, quiet),
                                };
                                let n = after.jobs.len() as int;
                                assert(res.jobs == after.jobs.push(job));
                                assert(deps_before(jf, res.jobs, n)) by {
                                    assert(res.jobs[n] == job);
                                    assert(first_named(jf.recipes, job.recipe, 0) == Some(k));
                                    let deps = jf.recipes[k].dependencies;
                                    assert forall|j: int| 0 <= j < deps.len() implies job_before(
                                        res.jobs,
                                        n,
                                        dep_key(#[trigger] deps[j]),
                                    ) by {
                                        assert(has_job(after.jobs, dep_key(deps[j])));
                                        let m = choose|m: int|
                                            0 <= m < after.jobs.len() && job_key(after.jobs[m])
                                                == dep_key(deps[j]);
                                        assert(res.jobs[m] == after.jobs[m]);
                                    }
                                    assert(recipe_deps_before(deps, res.jobs, n));
                                }
                                lemma_deps_first_push(jf, after.jobs, job);
                                assert(has_job(res.jobs, key)) by {
                                    assert(job_key(res.jobs[n]) == key);
                                }
                                assert(res.jobs.take(n) =~= after.jobs);
                                assert(started_accounted(res, path)) by {
                                    assert forall|x: (Seq<char>, Seq<Seq<char>>)|
                                        #[trigger] res.ran.contains(x) implies has_job(res.jobs, x)
                                        || path.contains(x.0) by {
                                        assert(after.ran.contains(x));
                                        if has_job(after.jobs, x) {
                                            lemma_has_job_prefix(after.jobs, res.jobs, x);
                                        } else {
                                            assert(p1.contains(x.0));
                                            let c = choose|c: int| 0 <= c < p1.len() && p1[c] == x.0;
                                            if c < path.len() {
                                                assert(path[c] == x.0);
                                            } else {
                                                assert(x.0 == name);
                                                let i = choose|i: int|
                                                    0 <= i < after.ran.len() && after.ran[i] == x;
                                                if i < st1.ran.len() {
                                                    assert(after.ran.take(st1.ran.len() as int)[i]
                                                        == after.ran[i]);
                                                    if i < st.ran.len() {
                                                        assert(st.ran[i] == x);
                                                        assert(st.ran.contains(x));
                                                        assert(!path.contains(name));
                                                        assert(has_job(st.jobs, x));
                                                        lemma_has_job_prefix(st.jobs, res.jobs, x);
                                                    } else {
                                                        assert(x == key);
                                                    }
                                                } else {
                                                    assert(!p1.contains(after.ran[i].0));
                                                    assert(p1[path.len() as int] == name);
                                                }
                                            }
                                        }
                                    }
                                }
                                assert(started_off_path(st, res, path)) by {
                                    assert forall|i: int|
                                        st.ran.len() <= i < res.ran.len() implies !path.contains(
                                        #[trigger] res.ran[i].0,
                                    ) by {
                                        if i < st1.ran.len() {
                                            assert(after.ran.take(st1.ran.len() as int)[i]
                                                == after.ran[i]);
                                            assert(res.ran[i] == key);
                                        } else {
                                            assert(!p1.contains(after.ran[i].0));
                                            if path.contains(after.ran[i].0) {
                                                let c = choose|c: int|
                                                    0 <= c < path.len() && path[c]
                                                        == after.ran[i].0;
                                                assert(p1[c] == path[c]);
                                            }
                                        }
                                    }
                                }
                            },
                        }
                    }
                }
            },
        }
    }
}

proof fn lemma_deps_deps_first(
    jf: JustfileModel,
    dry_run: bool,
    quiet: bool,
    bound: int,
    k: int,
    j: int,
    path: Seq<Seq<char>>,
    st: PlanState,
)
    requires
        st.error is None,
        deps_resolve_directly(jf),
        0 <= k < jf.recipes.len(),
        0 <= j,
        deps_first(jf, st.jobs),
        started_accounted(st, path),
    ensures
        ({
            let r = plan_deps(jf, dry_run, quiet, bound, k, j, path, st);
            r.error is None ==> {
                &&& deps_first(jf, r.jobs)
                &&& started_accounted(r, path)
                &&& started_off_path(st, r, path)
                &&& forall|jj: int|
                    #![trigger jf.recipes[k].dependencies[jj]]
                    j <= jj < jf.recipes[k].dependencies.len() ==> has_job(
                        r.jobs,
                        dep_key(jf.recipes[k].dependencies[jj]),
                    )
            }
        }),
    decreases bound - path.len(), jf.recipes[k].dependencies.len() - j + 1,
{
    if j < jf.recipes[k].dependencies.len() {
        let d = jf.recipes[k].dependencies[j];
        let next = plan_recipe(jf, dry_run, quiet, bound, d.recipe, d.arguments, path, st);
        lemma_recipe_deps_first(jf, dry_run, quiet, bound, d.recipe, d.arguments, path, st);
        lemma_recipe_extends(jf, dry_run, quiet, bound, d.recipe, d.arguments, path, st);
        if next.error is None {
            lemma_deps_deps_first(jf, dry_run, quiet, bound, k, j + 1, path, next);
            lemma_deps_extends(jf, dry_run, quiet, bound, k, j + 1, path, next);
            let res = plan_deps(jf, dry_run, quiet, bound, k, j + 1, path, next);
            if res.error is None {
                assert forall|jj: int|
                    #![trigger jf.recipes[k].dependencies[jj]]
                    j <= jj < jf.recipes[k].dependencies.len() implies has_job(
                    res.jobs,
                    dep_key(jf.recipes[k].dependencies[jj]),
                ) by {
                    if jj == j {
                        lemma_has_job_prefix(next.jobs, res.jobs, dep_key(d));
                    }
                }
                assert forall|i: int|
                    st.ran.len() <= i < res.ran.len() implies !path.contains(
                    #[trigger] res.ran[i].0,
                ) by {
                    if i < next.ran.len() {
                        assert(res.ran.take(next.ran.len() as int)[i] == res.ran[i]);
                        assert(!path.contains(next.ran[i].0));
                    }
                }
            }
        }
    }
}

/// Dependencies run before the recipe that needs them: in a plan that ends
/// without error, every dependency of every job's recipe has a job earlier in
/// the plan, when the recipe invoked and every dependency are named by a
/// recipe's own name rather than through an alias.
pub proof fn law_dependencies_first(
    jf: JustfileModel,
    dry_run: bool,
    quiet: bool,
    name: Seq<char>,
    args: Seq<Seq<char>>,
)
    requires
        resolves_directly(jf, name),
        deps_resolve_directly(jf),
    ensures
        run_plan(jf, dry_run, quiet, name, args).error is None ==> deps_first(
            jf,
            run_plan(jf, dry_run, quiet, name, args).jobs,
        ),
{
    let st = PlanState { jobs: seq![], ran: seq![], error: None };
    assert(started_accounted(st, seq![]));
    lemma_recipe_deps_first(
        jf,
        dry_run,
        quiet,
        name_universe(jf, name).len() as int,
        name,
        args,
        seq![],
        st,
    );
}

/// The run a dependency names: its recipe, resolved through an alias when
/// it names one, and its arguments.
pub open spec fn resolved_dep_key(jf: JustfileModel, d: DependencyModel) -> (Seq<char>, Seq<Seq<char>>) {
    match find_recipe(jf, d.recipe) {
        Some(t) => (jf.recipes[t].name, d.arguments),
        None => (d.recipe, d.arguments),
    }
}

/// The dependencies of recipe `k` are recipes without dependencies of their
/// own, found by name or alias, that bind their arguments, are not the
/// invoked name, and are distinct runs, none the run of recipe `k` itself.
pub open spec fn leaf_dependencies(
    jf: JustfileModel,
    name: Seq<char>,
    args: Seq<Seq<char>>,
    k: int,
) -> bool {
    let ds = jf.recipes[k].dependencies;
    &&& forall|i: int|
        0 <= i < ds.len() ==> (#[trigger] find_recipe(jf, ds[i].recipe) matches Some(t) && 0 <= t
            < jf.recipes.len() && jf.recipes[t].dependencies.len() == 0 && bind_parameters(
            jf.recipes[t].parameters,
            ds[i].arguments,
        ) is Ok) && ds[i].recipe != name
    &&& forall|i: int, i2: int|
        0 <= i < i2 < ds.len() ==> #[trigger] resolved_dep_key(jf, ds[i]) != #[trigger] resolved_dep_key(jf, ds[i2])
    &&& forall|i: int| 0 <= i < ds.len() ==> #[trigger] resolved_dep_key(jf, ds[i]) != (jf.recipes[k].name, args)
}

proof fn lemma_leaf_deps(
    jf: JustfileModel,
    dry_run: bool,
    quiet: bool,
    bound: int,
    name: Seq<char>,
    args: Seq<Seq<char>>,
    k: int,
    j: int,
    st: PlanState,
)
    requires
        0 <= k < jf.recipes.len(),
        leaf_dependencies(jf, name, args, k),
        jf.recipes[k].dependencies.len() > 0 ==> bound >= 2,
        0 <= j <= jf.recipes[k].dependencies.len(),
        st.error is None,
        st.jobs.len() == j,
        forall|i: int| 0 <= i < j ==> job_key(#[trigger] st.jobs[i]) == resolved_dep_key(
            jf,
            jf.recipes[k].dependencies[i],
        ),
        forall|m: int|
            0 <= m < st.ran.len() ==> (#[trigger] st.ran[m] == (jf.recipes[k].name, args) || exists|
                i: int,
            | 0 <= i < j && st.ran[m] == resolved_dep_key(jf, jf.recipes[k].dependencies[i])),
    ensures
        plan_deps(jf, dry_run, quiet, bound, k, j, seq![name], st).error is None,
        plan_deps(jf, dry_run, quiet, bound, k, j, seq![name], st).jobs.len()
            == jf.recipes[k].dependencies.len(),
        forall|i: int|
            0 <= i < jf.recipes[k].dependencies.len() ==> job_key(
                #[trigger] plan_deps(jf, dry_run, quiet, bound, k, j, seq![name], st).jobs[i],
            ) == resolved_dep_key(jf, jf.recipes[k].dependencies[i]),
    decreases jf.recipes[k].dependencies.len() - j,
{
    let ds = jf.recipes[k].dependencies;
    if j < ds.len() {
        let d = ds[j];
        assert(find_recipe(jf, d.recipe) is Some);
        let t = find_recipe(jf, d.recipe)->0;
        let rt = jf.recipes[t];
        let path = seq![name];
        assert(!path.contains(d.recipe)) by {
            if path.contains(d.recipe) {
                let h = choose|h: int| 0 <= h < path.len() && path[h] == d.recipe;
                assert(path[h] == name);
            }
        }
        let key = (rt.name, d.arguments);
        assert(key == resolved_dep_key(jf, d));
        assert(!st.ran.contains(key)) by {
            if st.ran.contains(key) {
                let m = choose|m: int| 0 <= m < st.ran.len() && st.ran[m] == key;
                if st.ran[m] != (jf.recipes[k].name, args) {
                    let i = choose|i: int| 0 <= i < j && st.ran[m] == resolved_dep_key(jf, ds[i]);
                    assert(resolved_dep_key(jf, ds[i]) != resolved_dep_key(jf, ds[j]));
                } else {
                    assert(resolved_dep_key(jf, ds[j]) != (jf.recipes[k].name, args));
                }
            }
        }
        let st1 = PlanState { jobs: st.jobs, ran: st.ran.push(key), error: None };
        assert(plan_deps(jf, dry_run, quiet, bound, t, 0, path.push(d.recipe), st1) == st1);
        let b = bind_parameters(rt.parameters, d.arguments)->Ok_0;
        let job = JobModel { recipe: rt.name, args: d.arguments, action: plan_action(rt, b, d.arguments, dry_run, quiet) };
        let next = plan_recipe(jf, dry_run, quiet, bound, d.recipe, d.arguments, path, st);
        assert(next == PlanState { jobs: st.jobs.push(job), ran: st1.ran, error: None });
        assert forall|i: int| 0 <= i < j + 1 implies job_key(#[trigger] next.jobs[i]) == resolved_dep_key(
            jf,
            ds[i],
        ) by {
            if i < j {
                assert(next.jobs[i] == st.jobs[i]);
            }
        }
        assert forall|m: int| 0 <= m < next.ran.len() implies (#[trigger] next.ran[m] == (
        jf.recipes[k].name, args) || exists|i: int|
            0 <= i < j + 1 && next.ran[m] == resolved_dep_key(jf, ds[i])) by {
            if m < st.ran.len() {
                assert(next.ran[m] == st.ran[m]);
            } else {
                assert(next.ran[m] == resolved_dep_key(jf, ds[j]));
            }
        }
        lemma_leaf_deps(jf, dry_run, quiet, bound, name, args, k, j + 1, next);
    }
}

/// Dependencies run before the recipe, in the order they are listed: for a
/// recipe whose dependencies are distinct recipes without dependencies of
/// their own (named directly or through an alias) that bind their
/// arguments, the plan runs each dependency in listed order and then the
/// recipe, and ends without error.
pub proof fn law_dependencies_run_first_in_listed_order(
    jf: JustfileModel,
    dry_run: bool,
    quiet: bool,
    name: Seq<char>,
    args: Seq<Seq<char>>,
    k: int,
)
    requires
        find_recipe(jf, name) == Some(k),
        0 <= k < jf.recipes.len(),
        leaf_dependencies(jf, name, args, k),
        bind_parameters(jf.recipes[k].parameters, args) is Ok,
    ensures
        run_plan(jf, dry_run, quiet, name, args).error is None,
        run_plan(jf, dry_run, quiet, name, args).jobs.len() == jf.recipes[k].dependencies.len() + 1,
        forall|i: int|
            0 <= i < jf.recipes[k].dependencies.len() ==> job_key(
                #[trigger] run_plan(jf, dry_run, quiet, name, args).jobs[i],
            ) == resolved_dep_key(jf, jf.recipes[k].dependencies[i]),
        job_key(
            run_plan(jf, dry_run, quiet, name, args).jobs[jf.recipes[k].dependencies.len() as int],
        ) == (jf.recipes[k].name, args),
{
    let r = jf.recipes[k];
    let bound = name_universe(jf, name).len() as int;
    if r.dependencies.len() > 0 {
        lemma_dep_name(jf.recipes, k, 0);
    }
    let st0 = PlanState { jobs: seq![], ran: seq![], error: None };
    assert(!seq![].contains(name));
    let st1 = PlanState { jobs: seq![], ran: seq![(r.name, args)], error: None };
    assert(st0.ran.push((r.name, args)) =~= st1.ran);
    assert(seq![].push(name) =~= seq![name]);
    lemma_leaf_deps(jf, dry_run, quiet, bound, name, args, k, 0, st1);
    let after = plan_deps(jf, dry_run, quiet, bound, k, 0, seq![name], st1);
    let b = bind_parameters(r.parameters, args)->Ok_0;
    let job = JobModel { recipe: r.name, args, action: plan_action(r, b, args, dry_run, quiet) };
    let res = plan_recipe(jf, dry_run, quiet, bound, name, args, seq![], st0);
    assert(res.jobs == after.jobs.push(job));
    assert forall|i: int| 0 <= i < r.dependencies.len() implies job_key(#[trigger] res.jobs[i])
        == resolved_dep_key(jf, r.dependencies[i]) by {
        assert(res.jobs[i] == after.jobs[i]);
    }
}

/// The listing's shape: `Available recipes:`, then one line per recipe in
/// order, each the recipe's name indented by four spaces, then, when there
/// are aliases, a blank line, `Aliases:` and one line per alias.
pub proof fn law_listing_shape(jf: JustfileModel)
    ensures
        listing(jf)[0] == "Available recipes:"@,
        listing(jf).len() == 1 + jf.recipes.len() + if jf.aliases.len() == 0 {
            0
        } else {
            2 + jf.aliases.len()
        },
        forall|i: int|
            0 <= i < jf.recipes.len() ==> #[trigger] listing(jf)[1 + i] == recipe_listing(
                jf.recipes[i],
            ) && starts_with(listing(jf)[1 + i], "    "@ + jf.recipes[i].name),
        forall|i: int|
            0 <= i < jf.aliases.len() ==> #[trigger] listing(jf)[3 + jf.recipes.len() + i] == "    "@
                + jf.aliases[i].0 + " := "@ + jf.aliases[i].1,
{
    let l = listing(jf);
    let n = jf.recipes.len() as int;
    assert forall|i: int| 0 <= i < jf.recipes.len() implies #[trigger] l[1 + i] == recipe_listing(
        jf.recipes[i],
    ) && starts_with(l[1 + i], "    "@ + jf.recipes[i].name) by {
        let r = jf.recipes[i];
        let head = "    "@ + r.name;
        let x = recipe_listing(r);
        assert(x.subrange(0, head.len() as int) =~= head);
    }
    assert forall|i: int| 0 <= i < jf.aliases.len() implies #[trigger] l[3 + n + i] == "    "@
        + jf.aliases[i].0 + " := "@ + jf.aliases[i].1 by {}
}

/// Joining words puts exactly one space between neighbours: one word is
/// itself, and each further word follows a single space.
pub proof fn law_join_words_single_spaces(ws: Seq<Seq<char>>, w: Seq<char>)
    ensures
        join_words(seq![w]) == w,
        ws.len() > 0 ==> join_words(ws.push(w)) == join_words(ws) + seq![' '] + w,
        join_words(Seq::<Seq<char>>::empty()) == Seq::<char>::empty(),
{
    if ws.len() > 0 {
        assert(ws.push(w).drop_last() =~= ws);
    }
}

/// Inside double quotes a parameter reference `$NAME` is replaced by the
/// parameter's raw value, and a variadic parameter's by its arguments joined
/// with single spaces, so that the quoted text stays one word; only `"$@"`
/// stays a list. Here `NAME` is the whole name after the `$` and names a
/// parameter or a positional argument.
pub proof fn law_double_quoted_reference_is_raw(
    name: Seq<char>,
    rest: Seq<char>,
    params: Seq<(Seq<char>, BindingModel)>,
    positional: Seq<Seq<char>>,
)
    requires
        name.len() > 0,
        name[0] != '{',
        forall|m: int| 0 <= m < name.len() ==> unicode_alphanumeric(#[trigger] name[m]) || name[m] == '_',
        rest.len() > 0 ==> !(unicode_alphanumeric(rest[0]) || rest[0] == '_'),
        lookup(params, positional, name) is Some,
    ensures
        substitute(seq!['"', '$'] + name + rest, params, positional) == seq!['"'] + match lookup(
            params,
            positional,
            name,
        ) {
            Some(BindingModel::One(v)) => v,
            Some(BindingModel::Many(vs)) => join_words(vs),
            None => Seq::<char>::empty(),
        } + substitute_from(
            seq!['"', '$'] + name + rest,
            2 + name.len() as int,
            false,
            true,
            params,
            positional,
        ),
{
    let s = seq!['"', '$'] + name + rest;
    let e: int = 2 + name.len() as int;
    assert(s[0] == '"');
    assert(s[1] == '$');
    assert(s[2] == name[0]);
    assert forall|m: int| 2 <= m < e implies unicode_alphanumeric(#[trigger] s[m]) || s[m] == '_' by {
        assert(s[m] == name[m - 2]);
    }
    if e < s.len() {
        assert(s[e] == rest[0]);
    }
    lemma_name_end_at(s, 2, e);
    assert(s.subrange(2, e) =~= name);
    lemma_read_subst(s, 2, params, positional);
    let b = lookup(params, positional, name)->0;
    assert(read_subst(s, 2, params, positional) == Some((b, false, e)));
    assert(substitute_from(s, 1, false, true, params, positional) == joined(b) + substitute_from(
        s,
        e,
        false,
        true,
        params,
        positional,
    ));
}

/// In the listing a parameter shows its kind: `+NAME` for one that needs at
/// least one argument, `*NAME` for one that takes any number, `NAME` for
/// one that takes a single argument; then `='default'` when it has a default.
pub proof fn law_parameter_display_shows_kind(p: ParameterModel)
    ensures
        p.kind == ParameterKind::PlusVariadic ==> starts_with(parameter_display(p), seq!['+'] + p.name),
        p.kind == ParameterKind::Variadic ==> starts_with(parameter_display(p), seq!['*'] + p.name),
        p.kind == ParameterKind::Normal ==> starts_with(parameter_display(p), p.name),
        p.default is None ==> parameter_display(p) == (match p.kind {
            ParameterKind::PlusVariadic => seq!['+'],
            ParameterKind::Variadic => seq!['*'],
            ParameterKind::Normal => Seq::<char>::empty(),
        }) + p.name,
        p.default matches Some(d) ==> parameter_display(p) == (match p.kind {
            ParameterKind::PlusVariadic => seq!['+'],
            ParameterKind::Variadic => seq!['*'],
            ParameterKind::Normal => Seq::<char>::empty(),
        }) + p.name + seq!['=', '\''] + d + seq!['\''],
{
    let x = parameter_display(p);
    match p.kind {
        ParameterKind::PlusVariadic => {
            assert(x.subrange(0, p.name.len() + 1int) =~= seq!['+'] + p.name);
        },
        ParameterKind::Variadic => {
            assert(x.subrange(0, p.name.len() + 1int) =~= seq!['*'] + p.name);
        },
        ParameterKind::Normal => {
            assert(x.subrange(0, p.name.len() as int) =~= p.name);
        },
    }
}

/// A recipe with one parameter and no doc comment is listed as its name and
/// that parameter, kind prefix first: `    test +FILES` for `test +FILES:`.
pub proof fn law_listing_shows_parameter_kind(r: RecipeModel)
    requires
        r.parameters.len() == 1,
        r.parameters[0].default is None,
        r.doc is None,
    ensures
        recipe_listing(r) == "    "@ + r.name + seq![' '] + (match r.parameters[0].kind {
            ParameterKind::PlusVariadic => seq!['+'],
            ParameterKind::Variadic => seq!['*'],
            ParameterKind::Normal => Seq::<char>::empty(),
        }) + r.parameters[0].name,
{
    let shown = Seq::new(r.parameters.len(), |i: int| parameter_display(r.parameters[i]));
    assert(shown =~= seq![parameter_display(r.parameters[0])]);
    law_join_words_single_spaces(Seq::<Seq<char>>::empty(), parameter_display(r.parameters[0]));
}

/// The value of decimal digits: each further digit multiplies what came
/// before by ten and adds its own value.
pub proof fn law_decimal_value_digits(d: Seq<char>, c: char)
    requires
        '0' <= c <= '9',
    ensures
        decimal_value(Seq::<char>::empty()) == 0,
        decimal_value(d.push(c)) == decimal_value(d) * 10 + ((c as int) - ('0' as int)),
{
    assert(d.push(c).drop_last() =~= d);
}

proof fn lemma_shift_number(d: Seq<char>)
    requires
        d.len() > 0,
        forall|m: int| 0 <= m < d.len() ==> '0' <= #[trigger] d[m] <= '9',
        decimal_value(d) <= usize::MAX,
    ensures
        shift_amount("shift "@ + d) == Some(decimal_value(d) as usize),
        !("shift "@ + d).contains('$'),
{
    reveal_strlit("shift ");
    reveal_strlit("shift");
    let e = "shift "@ + d;
    assert(e[0] == 's');
    assert(e[e.len() - 1] == d[d.len() - 1]);
    crate::text::lemma_trim_unchanged(e);
    let t = trim(e);
    assert(t.len() > 5);
    assert(t != "shift"@);
    assert(t.subrange(0, 6) =~= "shift "@);
    let u = t.skip(5);
    assert(u =~= seq![' '] + d);
    assert(u[0] == ' ');
    assert(u[1] == d[0]);
    assert(crate::text::ws_run_end(u, 1) == 1);
    assert(crate::text::ws_run_end(u, 0) == 1);
    assert(crate::text::trim_start(u) =~= d);
    crate::text::lemma_trim_unchanged(d);
    assert(trim(u) == d);
    assert(unsigned_part(d) == d);
    assert(all_digits(d));
    assert forall|m: int| 0 <= m < e.len() implies e[m] != '$' by {
        if m >= 6 {
            assert(e[m] == d[m - 6]);
        }
    }
}

/// A body line `shift N`, with `N` decimal digits, shifts the positional
/// arguments by exactly `N`; `shift` alone shifts them by one.
pub proof fn law_shift_amount(d: Seq<char>)
    requires
        d.len() > 0,
        forall|m: int| 0 <= m < d.len() ==> '0' <= #[trigger] d[m] <= '9',
        decimal_value(d) <= usize::MAX,
    ensures
        shift_amount("shift "@ + d) == Some(decimal_value(d) as usize),
        shift_amount("shift"@) == Some(1usize),
{
    lemma_shift_number(d);
    reveal_strlit("shift");
    let s = "shift"@;
    assert(s[0] == 's' && s[4] == 't');
    crate::text::lemma_trim_unchanged(s);
    assert(s.skip(5) =~= Seq::<char>::empty());
    assert(crate::text::trim(Seq::<char>::empty()) =~= Seq::<char>::empty());
}

/// Shifting drops that many positional arguments from the front: the rest
/// keep their order, and shifting by more than there are leaves none.
pub proof fn law_shifted_drops_front(positional: Seq<Seq<char>>, n: usize)
    ensures
        n <= positional.len() ==> shifted(positional, n).len() == positional.len() - n && forall|i: int|
            0 <= i < positional.len() - n ==> #[trigger] shifted(positional, n)[i] == positional[i
                + n],
        n > positional.len() ==> shifted(positional, n).len() == 0,
{
}

/// In a recipe body, a line `shift N` is a shift step, and the lines after
/// it see the positional arguments without their first `N`.
pub proof fn law_shift_line_drops_arguments(
    body: Seq<LineModel>,
    i: int,
    d: Seq<char>,
    params: Seq<(Seq<char>, BindingModel)>,
    positional: Seq<Seq<char>>,
    dry_run: bool,
    quiet: bool,
    recipe_quiet: bool,
)
    requires
        0 <= i < body.len(),
        body[i] matches LineModel::Command { text, .. } && text == "shift "@ + d,
        d.len() > 0,
        forall|m: int| 0 <= m < d.len() ==> '0' <= #[trigger] d[m] <= '9',
        decimal_value(d) <= usize::MAX,
    ensures
        ({
            let n = decimal_value(d);
            let rest = if n <= positional.len() {
                positional.subrange(n as int, positional.len() as int)
            } else {
                Seq::<Seq<char>>::empty()
            };
            &&& plan_lines(body, i, params, positional, dry_run, quiet, recipe_quiet).len() > 0
            &&& plan_lines(body, i, params, positional, dry_run, quiet, recipe_quiet)[0] is Shift
            &&& plan_lines(body, i, params, positional, dry_run, quiet, recipe_quiet).drop_first()
                == plan_lines(body, i + 1, params, rest, dry_run, quiet, recipe_quiet)
        }),
{
    lemma_shift_number(d);
    law_plain_text_unchanged("shift "@ + d, params, positional);
    let n = decimal_value(d);
    let rest = if n <= positional.len() {
        positional.subrange(n as int, positional.len() as int)
    } else {
        Seq::<Seq<char>>::empty()
    };
    assert(shifted(positional, n as usize) =~= rest);
    let all = plan_lines(body, i, params, positional, dry_run, quiet, recipe_quiet);
    let tail = plan_lines(body, i + 1, params, rest, dry_run, quiet, recipe_quiet);
    assert(all.drop_first() =~= tail);
}

} // verus!
