//! The environment V2 recipes run in: the process environment, the `.env`
//! file, `node_modules/.bin`, cargo's `target/debug`, a Python virtualenv and
//! the justfile's own exports.
//!
//! Looking at the disk is the caller's part: the functions here say which
//! paths matter, and take back which of them exist and what the `.env` file
//! holds.
use vstd::prelude::*;

use crate::paths::{ancestors, ancestors_of, join, join_path};
use crate::text::{
    char_is_alphanumeric, chars_of, starts_with, concat_chars, find, lines, lines_of, slice, split_once,
    split_once_ch, split_once_str, string_of, string_views, strip_prefix, tail, trim, trim_chars,
    trim_end, trim_end_chars, unicode_alphanumeric, views, str_eq,
};
use crate::v2::ast::{alias_views, models, opt_view, Export, ExportModel, Settings, SettingsModel};
use crate::v2::parser::string_pairs;
use crate::vars::{table_contains, table_get, table_map, table_remove, table_set, table_wf, to_map};

verus! {

// ---------------------------------------------------------------------------
// `.env` files
// ---------------------------------------------------------------------------
/// The `.env` files that may apply to `dir`, in search order: `.env.local`
/// then `.env`, in `dir` and then in each ancestor.
pub open spec fn dotenv_search(dirs: Seq<Seq<char>>) -> Seq<Seq<char>>
    decreases dirs.len(),
{
    if dirs.len() == 0 {
        seq![]
    } else {
        seq![join(dirs[0], ".env.local"@), join(dirs[0], ".env"@)] + dotenv_search(
            dirs.drop_first(),
        )
    }
}

/// The `.env` files that may apply to `dir`, in search order.
pub open spec fn spec_dotenv_candidates(dir: Seq<char>) -> Seq<Seq<char>> {
    dotenv_search(ancestors(dir))
}

/// The `.env` files that may apply to `dir`, in search order: `.env.local`
/// then `.env`, walking up the directory tree.
pub fn dotenv_candidates(dir: &str) -> (r: Vec<String>)
    ensures
        string_views(r@) == spec_dotenv_candidates(dir@),
{
    let dirs = ancestors_of(dir);
    let ghost ds = string_views(dirs@);
    let mut r: Vec<String> = Vec::new();
    let mut i: usize = 0;
    assert(ds.skip(0) =~= ds);
    assert(string_views(r@) + dotenv_search(ds) =~= dotenv_search(ds));
    while i < dirs.len()
        invariant
            0 <= i <= dirs.len(),
            ds == string_views(dirs@),
            ds == ancestors(dir@),
            string_views(r@) + dotenv_search(ds.skip(i as int)) == dotenv_search(ds),
        decreases dirs.len() - i,
    {
        let ghost old_r = string_views(r@);
        let a = join_path(dirs[i].as_str(), ".env.local");
        let b = join_path(dirs[i].as_str(), ".env");
        r.push(a);
        r.push(b);
        proof {
            assert(ds.skip(i as int)[0] == dirs@[i as int]@);
            assert(ds.skip(i as int).drop_first() =~= ds.skip(i + 1));
            assert(string_views(r@) =~= old_r + seq![a@, b@]);
            assert(string_views(r@) + dotenv_search(ds.skip(i + 1)) =~= old_r + dotenv_search(
                ds.skip(i as int),
            ));
        }
        i = i + 1;
    }
    assert(ds.skip(ds.len() as int) =~= seq![]);
    assert(string_views(r@) + seq![] =~= string_views(r@));
    r
}

/// The first of `candidates` that is among `existing`.
pub open spec fn first_existing(candidates: Seq<Seq<char>>, existing: Seq<Seq<char>>) -> Option<
    Seq<char>,
>
    decreases candidates.len(),
{
    if candidates.len() == 0 {
        None
    } else if existing.contains(candidates[0]) {
        Some(candidates[0])
    } else {
        first_existing(candidates.drop_first(), existing)
    }
}

fn contains_string(v: &Vec<String>, s: &str) -> (r: bool)
    ensures
        r == string_views(v@).contains(s@),
{
    let mut i: usize = 0;
    while i < v.len()
        invariant
            0 <= i <= v.len(),
            forall|m: int| 0 <= m < i ==> v@[m]@ != s@,
        decreases v.len() - i,
    {
        if str_eq(v[i].as_str(), s) {
            assert(string_views(v@)[i as int] == s@);
            return true;
        }
        i = i + 1;
    }
    proof {
        if string_views(v@).contains(s@) {
            let k = choose|k: int| 0 <= k < string_views(v@).len() && string_views(v@)[k] == s@;
            assert(v@[k]@ == s@);
        }
    }
    false
}

/// Find the `.env` file that applies to `dir`, given the paths among
/// [`dotenv_candidates`] that exist: `.env.local`, then `.env`, walking up the
/// directory tree and stopping at the first directory that holds either.
pub fn find_dotenv(dir: &str, existing: &Vec<String>) -> (r: Option<String>)
    ensures
        r matches Some(p) ==> first_existing(spec_dotenv_candidates(dir@), string_views(existing@))
            == Some(p@),
        r is None ==> first_existing(spec_dotenv_candidates(dir@), string_views(existing@))
            is None,
{
    let cands = dotenv_candidates(dir);
    let ghost cs = string_views(cands@);
    let ghost ex = string_views(existing@);
    let mut i: usize = 0;
    assert(cs.skip(0) =~= cs);
    while i < cands.len()
        invariant
            0 <= i <= cands.len(),
            cs == string_views(cands@),
            cs == spec_dotenv_candidates(dir@),
            ex == string_views(existing@),
            first_existing(cs, ex) == first_existing(cs.skip(i as int), ex),
        decreases cands.len() - i,
    {
        proof {
            assert(cs.skip(i as int)[0] == cands@[i as int]@);
            assert(cs.skip(i as int).drop_first() =~= cs.skip(i + 1));
        }
        if contains_string(existing, cands[i].as_str()) {
            return Some(cands[i].clone());
        }
        i = i + 1;
    }
    assert(cs.skip(i as int) =~= seq![]);
    None
}

/// An unquoted `.env` value without a ` #` or `\t#` comment.
pub open spec fn strip_dotenv_comment(value: Seq<char>) -> Seq<char> {
    match split_once(value, " #"@) {
        Some((v, _c)) => trim_end(v),
        None => match split_once(value, "\t#"@) {
            Some((v, _c)) => trim_end(v),
            None => value,
        },
    }
}

/// Unwrap a `.env` value: strip a matching pair of quotes, dropping anything
/// after the closing one; an unterminated quote is kept as written; an
/// unquoted value ends at a ` #` comment.
pub open spec fn dotenv_value(value: Seq<char>) -> Seq<char> {
    if value.len() > 0 && (value[0] == '"' || value[0] == '\'') {
        let rest = value.drop_first();
        match find(rest, seq![value[0]]) {
            Some(end) => rest.subrange(0, end),
            None => value,
        }
    } else {
        strip_dotenv_comment(value)
    }
}

/// One line of a `.env` file as a key and value, or `None` for a blank line,
/// a comment, or a line without `=` or without a key.
pub open spec fn dotenv_line(line: Seq<char>) -> Option<(Seq<char>, Seq<char>)> {
    let t = trim(line);
    if t.len() == 0 || t[0] == '#' {
        None
    } else {
        match split_once(t, seq!['=']) {
            None => None,
            Some((k, v)) => {
                let key = trim(k);
                if key.len() == 0 {
                    None
                } else {
                    Some((key, dotenv_value(trim(v))))
                }
            },
        }
    }
}

/// The entries of the `.env` lines `ls`, in order.
pub open spec fn dotenv_entries(ls: Seq<Seq<char>>) -> Seq<(Seq<char>, Seq<char>)>
    decreases ls.len(),
{
    if ls.len() == 0 {
        seq![]
    } else {
        let prev = dotenv_entries(ls.drop_last());
        match dotenv_line(ls.last()) {
            Some(e) => prev.push(e),
            None => prev,
        }
    }
}

fn dotenv_value_exec(value: &Vec<char>) -> (r: Vec<char>)
    ensures
        r@ == dotenv_value(value@),
{
    if value.len() > 0 && (value[0] == '"' || value[0] == '\'') {
        let rest = tail(value, 1);
        assert(rest@ =~= value@.drop_first());
        let q = vec![value[0]];
        assert(q@ =~= seq![value@[0]]);
        match crate::text::find_exec(&rest, &q, 0) {
            Some(end) => {
                proof {
                    crate::text::lemma_find_from(rest@, q@, 0);
                    assert(crate::text::occurs_at(rest@, q@, end as int));
                }
                return slice(&rest, 0, end);
            },
            None => return crate::text::copy_chars(value),
        }
    }
    match split_once_str(value, " #") {
        Some((v, _c)) => trim_end_chars(&v),
        None => match split_once_str(value, "\t#") {
            Some((v, _c)) => trim_end_chars(&v),
            None => crate::text::copy_chars(value),
        },
    }
}

fn dotenv_line_exec(line: &Vec<char>) -> (r: Option<(Vec<char>, Vec<char>)>)
    ensures
        r matches Some((k, v)) ==> dotenv_line(line@) == Some((k@, v@)),
        r is None ==> dotenv_line(line@) is None,
{
    let t = trim_chars(line);
    if t.len() == 0 || t[0] == '#' {
        return None;
    }
    match split_once_ch(&t, '=') {
        None => None,
        Some((k, v)) => {
            let key = trim_chars(&k);
            if key.len() == 0 {
                return None;
            }
            let tv = trim_chars(&v);
            Some((key, dotenv_value_exec(&tv)))
        },
    }
}

/// Unwrap one `.env` value: a value in matching quotes loses them and
/// anything after the closing one, an unterminated quote is kept as
/// written, and an unquoted value ends at a ` #` (or else `\t#`) comment.
pub fn parse_dotenv_value(value: &str) -> (r: String)
    ensures
        r@ == dotenv_value(value@),
{
    let v = chars_of(value);
    string_of(&dotenv_value_exec(&v))
}

/// Parse one line of a `.env` file into a key and value. A line this does
/// not understand is skipped rather than guessed at.
pub fn parse_dotenv_line(line: &str) -> (r: Option<(String, String)>)
    ensures
        r matches Some((k, v)) ==> dotenv_line(line@) == Some((k@, v@)),
        r is None ==> dotenv_line(line@) is None,
{
    let l = chars_of(line);
    match dotenv_line_exec(&l) {
        Some((k, v)) => Some((string_of(&k), string_of(&v))),
        None => None,
    }
}

/// The key/value pairs of a `.env` file's text, in file order.
pub fn parse_dotenv(content: &str) -> (r: Vec<(String, String)>)
    ensures
        string_pairs(r@) == dotenv_entries(lines(content@)),
{
    let text = chars_of(content);
    let ls = lines_of(&text);
    let ghost lsv = views(ls@);
    let mut r: Vec<(String, String)> = Vec::new();
    let mut i: usize = 0;
    assert(string_pairs(r@) =~= seq![]);
    assert(lsv.take(0) =~= seq![]);
    while i < ls.len()
        invariant
            0 <= i <= ls.len(),
            lsv == views(ls@),
            lsv == lines(content@),
            string_pairs(r@) == dotenv_entries(lsv.take(i as int)),
        decreases ls.len() - i,
    {
        proof {
            assert(lsv.take(i + 1).drop_last() =~= lsv.take(i as int));
            assert(lsv.take(i + 1).last() == ls@[i as int]@);
        }
        match dotenv_line_exec(&ls[i]) {
            Some((k, v)) => {
                let ghost old_r = string_pairs(r@);
                r.push((string_of(&k), string_of(&v)));
                assert(string_pairs(r@) =~= old_r.push((k@, v@)));
            },
            None => {},
        }
        i = i + 1;
    }
    assert(lsv.take(ls.len() as int) =~= lsv);
    r
}

// ---------------------------------------------------------------------------
// The environment
// ---------------------------------------------------------------------------
/// The model of an [`Environment`].
pub struct EnvironmentModel {
    /// The variables recipes see.
    pub vars: Map<Seq<char>, Seq<char>>,
    /// The directory recipes run in.
    pub working_dir: Seq<char>,
    /// Whether virtualenvs keep their programs in `Scripts` (Windows) rather
    /// than `bin`.
    pub windows: bool,
}

/// Environment for recipe execution.
pub struct Environment {
    vars: Vec<(String, String)>,
    working_dir: String,
    windows: bool,
}

impl View for Environment {
    type V = EnvironmentModel;

    closed spec fn view(&self) -> EnvironmentModel {
        EnvironmentModel {
            vars: table_map(self.vars@),
            working_dir: self.working_dir@,
            windows: self.windows,
        }
    }
}

/// The map `pairs` builds when inserted in order, later entries winning.
pub open spec fn map_of_pairs(pairs: Seq<(Seq<char>, Seq<char>)>) -> Map<Seq<char>, Seq<char>>
    decreases pairs.len(),
{
    if pairs.len() == 0 {
        Map::empty()
    } else {
        map_of_pairs(pairs.drop_last()).insert(pairs.last().0, pairs.last().1)
    }
}

/// The variables a new environment starts from: the process environment,
/// with `PWD` following the working directory and no `OLDPWD`.
pub open spec fn initial_vars(process: Seq<(Seq<char>, Seq<char>)>, working_dir: Seq<char>) -> Map<
    Seq<char>,
    Seq<char>,
> {
    map_of_pairs(process).insert("PWD"@, working_dir).remove("OLDPWD"@)
}

/// The value of `name` in `vars`, or empty.
pub open spec fn var_or_empty(vars: Map<Seq<char>, Seq<char>>, name: Seq<char>) -> Seq<char> {
    if vars.contains_key(name) {
        vars[name]
    } else {
        seq![]
    }
}

/// The end of a `${...}` name starting at `i`: the first `}` or the end.
pub open spec fn brace_end(s: Seq<char>, i: int) -> int
    decreases s.len() - i,
{
    if 0 <= i < s.len() && s[i] != '}' {
        brace_end(s, i + 1)
    } else {
        i
    }
}

/// The end of a `$NAME` name starting at `i`: the first character that is
/// neither alphanumeric nor `_`, or the end.
pub open spec fn name_end(s: Seq<char>, i: int) -> int
    decreases s.len() - i,
{
    if 0 <= i < s.len() && (unicode_alphanumeric(s[i]) || s[i] == '_') {
        name_end(s, i + 1)
    } else {
        i
    }
}

pub proof fn lemma_brace_end(s: Seq<char>, i: int)
    requires
        0 <= i <= s.len(),
    ensures
        i <= brace_end(s, i) <= s.len(),
        brace_end(s, i) < s.len() ==> s[brace_end(s, i)] == '}',
    decreases s.len() - i,
{
    if i < s.len() && s[i] != '}' {
        lemma_brace_end(s, i + 1);
    }
}

pub proof fn lemma_name_end(s: Seq<char>, i: int)
    requires
        0 <= i <= s.len(),
    ensures
        i <= name_end(s, i) <= s.len(),
    decreases s.len() - i,
{
    if i < s.len() && (unicode_alphanumeric(s[i]) || s[i] == '_') {
        lemma_name_end(s, i + 1);
    }
}

/// A name ends where [`name_end`] says: every character before it is
/// alphanumeric or `_`, and the one at it, if any, is neither.
pub proof fn lemma_name_end_chars(s: Seq<char>, i: int)
    requires
        0 <= i <= s.len(),
    ensures
        forall|m: int| i <= m < name_end(s, i) ==> unicode_alphanumeric(#[trigger] s[m]) || s[m] == '_',
        name_end(s, i) < s.len() ==> !(unicode_alphanumeric(s[name_end(s, i)]) || s[name_end(s, i)]
            == '_'),
    decreases s.len() - i,
{
    lemma_name_end(s, i);
    if i < s.len() && (unicode_alphanumeric(s[i]) || s[i] == '_') {
        lemma_name_end_chars(s, i + 1);
    }
}

/// `s` from index `i` on with each `$NAME` and `${NAME}` replaced by the
/// variable's value, or by nothing when it is not set.
pub open spec fn expand_from(s: Seq<char>, i: int, vars: Map<Seq<char>, Seq<char>>) -> Seq<char>
    decreases s.len() - i,
{
    if i < 0 || i >= s.len() {
        seq![]
    } else if s[i] == '$' {
        if i + 1 < s.len() && s[i + 1] == '{' {
            let e = brace_end(s, i + 2);
            proof {
                lemma_brace_end(s, i + 2);
            }
            let next = if e < s.len() {
                e + 1
            } else {
                e
            };
            var_or_empty(vars, s.subrange(i + 2, e)) + expand_from(s, next, vars)
        } else {
            let e = name_end(s, i + 1);
            proof {
                lemma_name_end(s, i + 1);
            }
            var_or_empty(vars, s.subrange(i + 1, e)) + expand_from(s, e, vars)
        }
    } else {
        seq![s[i]] + expand_from(s, i + 1, vars)
    }
}

/// `value` with its variable references expanded from `vars`.
pub open spec fn expand(value: Seq<char>, vars: Map<Seq<char>, Seq<char>>) -> Seq<char> {
    expand_from(value, 0, vars)
}

impl Environment {
    /// The environment's invariant: no variable is held twice.
    pub closed spec fn wf(&self) -> bool {
        table_wf(self.vars@)
    }

    /// A new environment for recipes that run in `working_dir` (absolute),
    /// starting from the process environment `process_vars`: `PWD` follows
    /// the working directory, and `OLDPWD` is dropped.
    pub fn new(working_dir: String, process_vars: Vec<(String, String)>) -> (r: Environment)
        ensures
            r.wf(),
            r@.working_dir == working_dir@,
            r@.vars == initial_vars(string_pairs(process_vars@), working_dir@),
            !r@.windows,
    {
        let mut vars: Vec<(String, String)> = Vec::new();
        let ghost ps = string_pairs(process_vars@);
        assert(table_map(vars@) =~= map_of_pairs(ps.take(0)));
        let mut i: usize = 0;
        while i < process_vars.len()
            invariant
                0 <= i <= process_vars.len(),
                ps == string_pairs(process_vars@),
                table_wf(vars@),
                table_map(vars@) == map_of_pairs(ps.take(i as int)),
            decreases process_vars.len() - i,
        {
            proof {
                assert(ps.take(i + 1).drop_last() =~= ps.take(i as int));
                assert(ps.take(i + 1).last() == (process_vars@[i as int].0@, process_vars@[
                    i as int
                ].1@));
            }
            table_set(&mut vars, process_vars[i].0.clone(), process_vars[i].1.clone());
            i = i + 1;
        }
        assert(ps.take(ps.len() as int) =~= ps);
        table_set(&mut vars, string_of(&chars_of("PWD")), working_dir.clone());
        table_remove(&mut vars, "OLDPWD");
        Environment { vars, working_dir, windows: false }
    }

    /// Say whether the platform is Windows, where a virtualenv keeps its
    /// programs in `Scripts` rather than `bin`.
    pub fn set_windows(&mut self, windows: bool)
        ensures
            final(self)@ == (EnvironmentModel { windows, ..old(self)@ }),
            final(self).wf() == old(self).wf(),
    {
        self.windows = windows;
    }

    /// Set a variable.
    pub fn set(&mut self, key: String, value: String)
        requires
            old(self).wf(),
        ensures
            final(self).wf(),
            final(self)@.vars == old(self)@.vars.insert(key@, value@),
            final(self)@.working_dir == old(self)@.working_dir,
    {
        table_set(&mut self.vars, key, value);
    }

    /// Get a variable.
    pub fn get(&self, key: &str) -> (r: Option<&String>)
        requires
            self.wf(),
        ensures
            match r {
                Some(v) => self@.vars.contains_key(key@) && self@.vars[key@] == v@,
                None => !self@.vars.contains_key(key@),
            },
    {
        table_get(&self.vars, key)
    }

    /// All variables, each name once.
    pub fn vars(&self) -> (r: &Vec<(String, String)>)
        requires
            self.wf(),
        ensures
            table_wf(r@),
            table_map(r@) == self@.vars,
    {
        &self.vars
    }

    /// The working directory.
    pub fn working_dir(&self) -> (r: &str)
        ensures
            r@ == self@.working_dir,
    {
        self.working_dir.as_str()
    }

    /// Expand environment variables in a value: `$NAME` and `${NAME}` become
    /// the variable's value, or nothing when it is unset.
    pub fn expand_value(&self, value: &str) -> (r: String)
        requires
            self.wf(),
        ensures
            r@ == expand(value@, self@.vars),
    {
        let s = chars_of(value);
        let mut out: Vec<char> = Vec::new();
        let mut i: usize = 0;
        while i < s.len()
            invariant
                0 <= i <= s.len(),
                self.wf(),
                s@ == value@,
                out@ + expand_from(s@, i as int, self@.vars) == expand(value@, self@.vars),
            decreases s.len() - i,
        {
            let ghost before = out@;
            if s[i] == '$' {
                let (start, end, next) = if i + 1 < s.len() && s[i + 1] == '{' {
                    let mut e = i + 2;
                    while e < s.len() && s[e] != '}'
                        invariant
                            i + 2 <= e <= s.len(),
                            brace_end(s@, i + 2) == brace_end(s@, e as int),
                        decreases s.len() - e,
                    {
                        e = e + 1;
                    }
                    let next = if e < s.len() {
                        e + 1
                    } else {
                        e
                    };
                    (i + 2, e, next)
                } else {
                    let mut e = i + 1;
                    while e < s.len() && (char_is_alphanumeric(s[e]) || s[e] == '_')
                        invariant
                            i + 1 <= e <= s.len(),
                            name_end(s@, i + 1) == name_end(s@, e as int),
                        decreases s.len() - e,
                    {
                        e = e + 1;
                    }
                    (i + 1, e, e)
                };
                let name = string_of(&slice(&s, start, end));
                let ghost val = var_or_empty(self@.vars, name@);
                match table_get(&self.vars, name.as_str()) {
                    Some(v) => {
                        let vc = chars_of(v.as_str());
                        out = concat_chars(&out, &vc);
                    },
                    None => {},
                }
                assert(out@ =~= before + val);
                assert(out@ + expand_from(s@, next as int, self@.vars) =~= before + expand_from(
                    s@,
                    i as int,
                    self@.vars,
                ));
                i = next;
            } else {
                out.push(s[i]);
                assert(out@ + expand_from(s@, i + 1, self@.vars) =~= before + expand_from(
                    s@,
                    i as int,
                    self@.vars,
                ));
                i = i + 1;
            }
        }
        assert(out@ + seq![] =~= out@);
        string_of(&out)
    }
}

// ---------------------------------------------------------------------------
// Automatic setup
// ---------------------------------------------------------------------------
/// `vars` after loading `.env` entries in order: an entry whose name is
/// already set, by the environment or by an earlier entry, changes nothing.
pub open spec fn load_entries(
    vars: Map<Seq<char>, Seq<char>>,
    entries: Seq<(Seq<char>, Seq<char>)>,
) -> Map<Seq<char>, Seq<char>>
    decreases entries.len(),
{
    if entries.len() == 0 {
        vars
    } else {
        let m = load_entries(vars, entries.drop_last());
        if m.contains_key(entries.last().0) {
            m
        } else {
            m.insert(entries.last().0, entries.last().1)
        }
    }
}

/// `node_modules/.bin` of the working directory.
pub open spec fn node_bin(wd: Seq<char>) -> Seq<char> {
    join(wd, "node_modules/.bin"@)
}

/// Cargo's debug output directory: under `CARGO_TARGET_DIR` when that is
/// set, else `target/debug` of the working directory.
pub open spec fn cargo_bin(vars: Map<Seq<char>, Seq<char>>, wd: Seq<char>) -> Seq<char> {
    if vars.contains_key("CARGO_TARGET_DIR"@) {
        join(vars["CARGO_TARGET_DIR"@], "debug"@)
    } else {
        join(wd, "target/debug"@)
    }
}

/// `vars` with `dir` put in front of `PATH`.
pub open spec fn prepend_path(vars: Map<Seq<char>, Seq<char>>, dir: Seq<char>) -> Map<
    Seq<char>,
    Seq<char>,
> {
    vars.insert("PATH"@, dir + seq![':'] + var_or_empty(vars, "PATH"@))
}

/// `vars` with `dir` put at the end of `PATH`.
pub open spec fn append_path(vars: Map<Seq<char>, Seq<char>>, dir: Seq<char>) -> Map<
    Seq<char>,
    Seq<char>,
> {
    vars.insert("PATH"@, var_or_empty(vars, "PATH"@) + seq![':'] + dir)
}

/// The virtualenv directories looked for when none is set, in order.
pub open spec fn venv_names() -> Seq<Seq<char>> {
    seq![".venv"@, "venv"@, ".uv/venv"@]
}

/// Whether `dir` looks like a virtualenv: it has `bin/activate` or
/// `Scripts/activate`.
pub open spec fn is_venv(dir: Seq<char>, ex: Seq<Seq<char>>) -> bool {
    ex.contains(join(dir, "bin/activate"@)) || ex.contains(join(dir, "Scripts/activate"@))
}

/// The first of `names`, under `wd`, that looks like a virtualenv.
pub open spec fn first_venv(wd: Seq<char>, names: Seq<Seq<char>>, ex: Seq<Seq<char>>) -> Option<
    Seq<char>,
>
    decreases names.len(),
{
    if names.len() == 0 {
        None
    } else if is_venv(join(wd, names[0]), ex) {
        Some(join(wd, names[0]))
    } else {
        first_venv(wd, names.drop_first(), ex)
    }
}

/// The virtualenv to activate: the one `set venv` names, if it exists, else
/// the first of `.venv`, `venv`, `.uv/venv` that looks like one.
pub open spec fn venv_dir(settings: SettingsModel, wd: Seq<char>, ex: Seq<Seq<char>>) -> Option<
    Seq<char>,
> {
    match settings.venv {
        Some(p) => if ex.contains(join(wd, p)) {
            Some(join(wd, p))
        } else {
            None
        },
        None => first_venv(wd, venv_names(), ex),
    }
}

/// The directory of a virtualenv that holds its programs: `Scripts` on
/// Windows, `bin` elsewhere.
pub open spec fn venv_bin(venv: Seq<char>, windows: bool) -> Seq<char> {
    join(
        venv,
        if windows {
            "Scripts"@
        } else {
            "bin"@
        },
    )
}

/// `vars` with the virtualenv `venv` activated: its programs' directory (see
/// [`venv_bin`]) in front of `PATH` when that exists, `VIRTUAL_ENV` set,
/// `PYTHONHOME` unset.
pub open spec fn with_venv(
    vars: Map<Seq<char>, Seq<char>>,
    venv: Option<Seq<char>>,
    ex: Seq<Seq<char>>,
    windows: bool,
) -> Map<Seq<char>, Seq<char>> {
    match venv {
        None => vars,
        Some(v) => {
            let bin = venv_bin(v, windows);
            let m = if ex.contains(bin) {
                prepend_path(vars, bin)
            } else {
                vars
            };
            m.insert("VIRTUAL_ENV"@, v).remove("PYTHONHOME"@)
        },
    }
}

/// `vars` after the justfile's exports, each value expanded against the
/// variables as they stand when it is reached.
pub open spec fn with_exports(vars: Map<Seq<char>, Seq<char>>, exports: Seq<ExportModel>) -> Map<
    Seq<char>,
    Seq<char>,
>
    decreases exports.len(),
{
    if exports.len() == 0 {
        vars
    } else {
        let m = with_exports(vars, exports.drop_last());
        m.insert(exports.last().name, expand(exports.last().value, m))
    }
}

/// The variables after loading the `.env` file when enabled.
pub open spec fn after_dotenv(
    vars: Map<Seq<char>, Seq<char>>,
    settings: SettingsModel,
    dotenv: Seq<(Seq<char>, Seq<char>)>,
) -> Map<Seq<char>, Seq<char>> {
    if settings.dotenv {
        load_entries(vars, dotenv)
    } else {
        vars
    }
}

/// `vars` with `node_modules/.bin` of `wd` in front of `PATH`, when that
/// directory exists.
pub open spec fn node_step(vars: Map<Seq<char>, Seq<char>>, wd: Seq<char>, ex: Seq<Seq<char>>) -> Map<
    Seq<char>,
    Seq<char>,
> {
    if ex.contains(node_bin(wd)) {
        prepend_path(vars, node_bin(wd))
    } else {
        vars
    }
}

/// `vars` with cargo's debug directory (see [`cargo_bin`]) at the end of
/// `PATH`, when that directory exists.
pub open spec fn cargo_step(vars: Map<Seq<char>, Seq<char>>, wd: Seq<char>, ex: Seq<Seq<char>>) -> Map<
    Seq<char>,
    Seq<char>,
> {
    if ex.contains(cargo_bin(vars, wd)) {
        append_path(vars, cargo_bin(vars, wd))
    } else {
        vars
    }
}

/// `vars` with the virtualenv that applies (see [`venv_dir`]) activated.
pub open spec fn venv_step(
    vars: Map<Seq<char>, Seq<char>>,
    settings: SettingsModel,
    wd: Seq<char>,
    ex: Seq<Seq<char>>,
    windows: bool,
) -> Map<Seq<char>, Seq<char>> {
    with_venv(vars, venv_dir(settings, wd, ex), ex, windows)
}

/// The variables before the justfile's exports: the `.env` file, then
/// `node_modules/.bin`, then cargo's debug directory, then the virtualenv.
pub open spec fn pre_export_vars(
    vars: Map<Seq<char>, Seq<char>>,
    wd: Seq<char>,
    settings: SettingsModel,
    dotenv: Seq<(Seq<char>, Seq<char>)>,
    ex: Seq<Seq<char>>,
    windows: bool,
) -> Map<Seq<char>, Seq<char>> {
    venv_step(
        cargo_step(node_step(after_dotenv(vars, settings, dotenv), wd, ex), wd, ex),
        settings,
        wd,
        ex,
        windows,
    )
}

/// The variables after the whole setup, given the `.env` entries `dotenv`
/// and the paths `ex` that exist.
pub open spec fn setup_vars(
    vars: Map<Seq<char>, Seq<char>>,
    wd: Seq<char>,
    settings: SettingsModel,
    exports: Seq<ExportModel>,
    dotenv: Seq<(Seq<char>, Seq<char>)>,
    ex: Seq<Seq<char>>,
    windows: bool,
) -> Map<Seq<char>, Seq<char>> {
    with_exports(pre_export_vars(vars, wd, settings, dotenv, ex, windows), exports)
}

/// The paths whose existence the setup depends on.
pub open spec fn setup_probes(
    vars: Map<Seq<char>, Seq<char>>,
    wd: Seq<char>,
    settings: SettingsModel,
    dotenv: Seq<(Seq<char>, Seq<char>)>,
    windows: bool,
) -> Seq<Seq<char>> {
    let m1 = after_dotenv(vars, settings, dotenv);
    let venv = match settings.venv {
        Some(p) => seq![join(wd, p), venv_bin(join(wd, p), windows)],
        None => venv_probes(wd, venv_names(), windows),
    };
    seq![node_bin(wd), cargo_bin(m1, wd)] + venv
}

/// The paths that decide whether each of `names` under `wd` is a virtualenv,
/// and its `bin`.
pub open spec fn venv_probes(wd: Seq<char>, names: Seq<Seq<char>>, windows: bool) -> Seq<Seq<char>>
    decreases names.len(),
{
    if names.len() == 0 {
        seq![]
    } else {
        let d = join(wd, names[0]);
        seq![join(d, "bin/activate"@), join(d, "Scripts/activate"@), venv_bin(d, windows)]
            + venv_probes(wd, names.drop_first(), windows)
    }
}

fn lit(s: &str) -> (r: String)
    ensures
        r@ == s@,
{
    string_of(&chars_of(s))
}

fn venv_names_exec() -> (r: Vec<String>)
    ensures
        string_views(r@) == venv_names(),
{
    let r = vec![lit(".venv"), lit("venv"), lit(".uv/venv")];
    assert(string_views(r@) =~= venv_names());
    r
}

/// `a`, then `b`, then `c`.
fn concat3(a: &str, b: &str, c: &str) -> (r: String)
    ensures
        r@ == a@ + b@ + c@,
{
    let x = chars_of(a);
    let y = chars_of(b);
    let z = chars_of(c);
    let xy = concat_chars(&x, &y);
    string_of(&concat_chars(&xy, &z))
}

/// The `.env` file the setup loads for working directory `wd`: the one
/// `set dotenv` names, under `wd`, with no search; else the first of the
/// `.env` candidates of `wd` that is among `existing`.
pub open spec fn dotenv_file_of(settings: SettingsModel, wd: Seq<char>, existing: Seq<Seq<char>>) -> Option<
    Seq<char>,
> {
    match settings.dotenv_path {
        Some(d) => Some(join(wd, d)),
        None => first_existing(spec_dotenv_candidates(wd), existing),
    }
}

impl Environment {
    /// The `.env` file the setup loads: the one `set dotenv` names, under the
    /// working directory, else the first of [`dotenv_candidates`] that is
    /// among `existing`.
    pub fn dotenv_file(&self, settings: &Settings, existing: &Vec<String>) -> (r: Option<String>)
        ensures
            opt_view(r) == dotenv_file_of(settings@, self@.working_dir, string_views(existing@)),
    {
        match &settings.dotenv_path {
            Some(d) => Some(join_path(self.working_dir.as_str(), d.as_str())),
            None => find_dotenv(self.working_dir.as_str(), existing),
        }
    }

    fn load_entries_exec(&mut self, dotenv: &Vec<(String, String)>)
        requires
            old(self).wf(),
        ensures
            final(self).wf(),
            final(self)@.working_dir == old(self)@.working_dir,
            final(self)@.windows == old(self)@.windows,
            final(self)@.vars == load_entries(old(self)@.vars, string_pairs(dotenv@)),
    {
        let ghost es = string_pairs(dotenv@);
        let ghost start = self@.vars;
        let mut i: usize = 0;
        assert(es.take(0) =~= seq![]);
        while i < dotenv.len()
            invariant
                0 <= i <= dotenv.len(),
                es == string_pairs(dotenv@),
                self.wf(),
                self@.working_dir == old(self)@.working_dir,
                self@.windows == old(self)@.windows,
                start == old(self)@.vars,
                self@.vars == load_entries(start, es.take(i as int)),
            decreases dotenv.len() - i,
        {
            proof {
                assert(es.take(i + 1).drop_last() =~= es.take(i as int));
                assert(es.take(i + 1).last() == (dotenv@[i as int].0@, dotenv@[i as int].1@));
            }
            if !table_contains(&self.vars, dotenv[i].0.as_str()) {
                table_set(&mut self.vars, dotenv[i].0.clone(), dotenv[i].1.clone());
            }
            i = i + 1;
        }
        assert(es.take(es.len() as int) =~= es);
    }

    fn prepend_path(&mut self, dir: &str)
        requires
            old(self).wf(),
        ensures
            final(self).wf(),
            final(self)@.working_dir == old(self)@.working_dir,
            final(self)@.windows == old(self)@.windows,
            final(self)@.vars == prepend_path(old(self)@.vars, dir@),
    {
        let current = match table_get(&self.vars, "PATH") {
            Some(p) => p.clone(),
            None => lit(""),
        };
        proof {
            reveal_strlit("");
        }
        let new_path = concat3(dir, ":", current.as_str());
        proof {
            reveal_strlit(":");
            assert(":"@ =~= seq![':']);
        }
        table_set(&mut self.vars, lit("PATH"), new_path);
    }

    fn append_path(&mut self, dir: &str)
        requires
            old(self).wf(),
        ensures
            final(self).wf(),
            final(self)@.working_dir == old(self)@.working_dir,
            final(self)@.windows == old(self)@.windows,
            final(self)@.vars == append_path(old(self)@.vars, dir@),
    {
        let current = match table_get(&self.vars, "PATH") {
            Some(p) => p.clone(),
            None => lit(""),
        };
        proof {
            reveal_strlit("");
        }
        let new_path = concat3(current.as_str(), ":", dir);
        proof {
            reveal_strlit(":");
            assert(":"@ =~= seq![':']);
        }
        table_set(&mut self.vars, lit("PATH"), new_path);
    }

    /// Cargo's debug output directory for the current variables.
    fn cargo_bin_exec(&self) -> (r: String)
        requires
            self.wf(),
        ensures
            r@ == cargo_bin(self@.vars, self@.working_dir),
    {
        match table_get(&self.vars, "CARGO_TARGET_DIR") {
            Some(t) => join_path(t.as_str(), "debug"),
            None => join_path(self.working_dir.as_str(), "target/debug"),
        }
    }

    #[verifier::loop_isolation(false)]
    fn venv_dir_exec(&self, settings: &Settings, existing: &Vec<String>) -> (r: Option<String>)
        ensures
            opt_view(r) == venv_dir(settings@, self@.working_dir, string_views(existing@)),
    {
        let ghost ex = string_views(existing@);
        match &settings.venv {
            Some(p) => {
                let path = join_path(self.working_dir.as_str(), p.as_str());
                if contains_string(existing, path.as_str()) {
                    Some(path)
                } else {
                    None
                }
            },
            None => {
                let names = venv_names_exec();
                let ghost ns = string_views(names@);
                let mut i: usize = 0;
                assert(ns.skip(0) =~= ns);
                while i < names.len()
                    invariant
                        0 <= i <= names.len(),
                        ns == string_views(names@),
                        ns == venv_names(),
                        ex == string_views(existing@),
                        first_venv(self@.working_dir, ns, ex) == first_venv(
                            self@.working_dir,
                            ns.skip(i as int),
                            ex,
                        ),
                    decreases names.len() - i,
                {
                    proof {
                        assert(ns.skip(i as int)[0] == names@[i as int]@);
                        assert(ns.skip(i as int).drop_first() =~= ns.skip(i + 1));
                    }
                    let d = join_path(self.working_dir.as_str(), names[i].as_str());
                    let a = join_path(d.as_str(), "bin/activate");
                    let b = join_path(d.as_str(), "Scripts/activate");
                    if contains_string(existing, a.as_str()) || contains_string(
                        existing,
                        b.as_str(),
                    ) {
                        proof {
                            assert(is_venv(d@, ex));
                            assert(d@ == join(self@.working_dir, ns.skip(i as int)[0]));
                            assert(first_venv(self@.working_dir, ns.skip(i as int), ex) == Some(
                                d@,
                            ));
                        }
                        return Some(d);
                    }
                    i = i + 1;
                }
                assert(ns.skip(i as int) =~= seq![]);
                None
            },
        }
    }

    /// The name of a virtualenv's programs directory on this platform.
    fn bin_dir_name(&self) -> (r: &'static str)
        ensures
            r@ == if self@.windows {
                "Scripts"@
            } else {
                "bin"@
            },
    {
        if self.windows {
            "Scripts"
        } else {
            "bin"
        }
    }

    /// The paths whose existence [`Environment::setup`] depends on, given
    /// the `.env` entries it will load.
    pub fn setup_probes(&self, settings: &Settings, dotenv: &Vec<(String, String)>) -> (r: Vec<
        String,
    >)
        requires
            self.wf(),
        ensures
            string_views(r@) == setup_probes(
                self@.vars,
                self@.working_dir,
                settings@,
                string_pairs(dotenv@),
                self@.windows,
            ),
    {
        let mut scratch = Environment { vars: crate::vars::table_clone(&self.vars), working_dir: self.working_dir.clone(), windows: self.windows };
        if settings.dotenv {
            scratch.load_entries_exec(dotenv);
        }
        let mut r: Vec<String> = Vec::new();
        r.push(join_path(self.working_dir.as_str(), "node_modules/.bin"));
        r.push(scratch.cargo_bin_exec());
        let ghost head = string_views(r@);
        match &settings.venv {
            Some(p) => {
                let path = join_path(self.working_dir.as_str(), p.as_str());
                let bin = join_path(path.as_str(), self.bin_dir_name());
                r.push(path);
                r.push(bin);
            },
            None => {
                let names = venv_names_exec();
                let ghost ns = string_views(names@);
                let mut i: usize = 0;
                assert(ns.skip(0) =~= ns);
                assert(string_views(r@) + venv_probes(self@.working_dir, ns.skip(0), self@.windows) =~= head
                    + venv_probes(self@.working_dir, ns, self@.windows));
                while i < names.len()
                    invariant
                        0 <= i <= names.len(),
                        ns == string_views(names@),
                        string_views(r@) + venv_probes(self@.working_dir, ns.skip(i as int), self@.windows)
                            == head + venv_probes(self@.working_dir, ns, self@.windows),
                    decreases names.len() - i,
                {
                    proof {
                        assert(ns.skip(i as int)[0] == names@[i as int]@);
                        assert(ns.skip(i as int).drop_first() =~= ns.skip(i + 1));
                    }
                    let ghost before = string_views(r@);
                    let d = join_path(self.working_dir.as_str(), names[i].as_str());
                    let a = join_path(d.as_str(), "bin/activate");
                    let b = join_path(d.as_str(), "Scripts/activate");
                    let c = join_path(d.as_str(), self.bin_dir_name());
                    r.push(a);
                    r.push(b);
                    r.push(c);
                    assert(string_views(r@) =~= before + seq![a@, b@, c@]);
                    assert(string_views(r@) + venv_probes(self@.working_dir, ns.skip(i + 1), self@.windows)
                        =~= before + venv_probes(self@.working_dir, ns.skip(i as int), self@.windows));
                    i = i + 1;
                }
                assert(ns.skip(i as int) =~= seq![]);
                assert(string_views(r@) + seq![] =~= string_views(r@));
            },
        }
        proof {
            assert(string_views(r@) =~= setup_probes(
                self@.vars,
                self@.working_dir,
                settings@,
                string_pairs(dotenv@),
                self@.windows,
            ));
        }
        r
    }

    /// Set up the environment the way a V2 justfile asks: load the `.env`
    /// entries `dotenv` (when enabled) without overriding anything already
    /// set, put `node_modules/.bin` in front of `PATH` and cargo's debug
    /// directory at its end when they exist, activate a virtualenv, and apply
    /// the justfile's exports. `existing` lists the paths among
    /// [`Environment::setup_probes`] that exist.
    pub fn setup(
        &mut self,
        settings: &Settings,
        exports: &Vec<Export>,
        dotenv: &Vec<(String, String)>,
        existing: &Vec<String>,
    )
        requires
            old(self).wf(),
        ensures
            final(self).wf(),
            final(self)@.working_dir == old(self)@.working_dir,
            final(self)@.vars == setup_vars(
                old(self)@.vars,
                old(self)@.working_dir,
                settings@,
                models(exports@),
                string_pairs(dotenv@),
                string_views(existing@),
                old(self)@.windows,
            ),
            final(self)@.windows == old(self)@.windows,
    {
        let ghost ex = string_views(existing@);
        if settings.dotenv {
            self.load_entries_exec(dotenv);
        }
        let node = join_path(self.working_dir.as_str(), "node_modules/.bin");
        if contains_string(existing, node.as_str()) {
            self.prepend_path(node.as_str());
        }
        let cargo = self.cargo_bin_exec();
        if contains_string(existing, cargo.as_str()) {
            self.append_path(cargo.as_str());
        }
        let ghost m3 = self@.vars;
        match self.venv_dir_exec(settings, existing) {
            None => {},
            Some(venv) => {
                let bin = join_path(venv.as_str(), self.bin_dir_name());
                if contains_string(existing, bin.as_str()) {
                    self.prepend_path(bin.as_str());
                }
                table_set(&mut self.vars, lit("VIRTUAL_ENV"), venv);
                table_remove(&mut self.vars, "PYTHONHOME");
            },
        }
        let ghost m4 = self@.vars;
        assert(m4 == with_venv(m3, venv_dir(settings@, self@.working_dir, ex), ex, self@.windows));
        let ghost es = models(exports@);
        let mut i: usize = 0;
        assert(es.take(0) =~= seq![]);
        while i < exports.len()
            invariant
                0 <= i <= exports.len(),
                es == models(exports@),
                self.wf(),
                self@.working_dir == old(self)@.working_dir,
                self@.windows == old(self)@.windows,
                self@.vars == with_exports(m4, es.take(i as int)),
            decreases exports.len() - i,
        {
            proof {
                assert(es.take(i + 1).drop_last() =~= es.take(i as int));
                assert(es.take(i + 1).last() == exports@[i as int]@);
            }
            let value = self.expand_value(exports[i].value.as_str());
            table_set(&mut self.vars, exports[i].name.clone(), value);
            i = i + 1;
        }
        assert(es.take(es.len() as int) =~= es);
    }
}

// ---------------------------------------------------------------------------
// Laws
// ---------------------------------------------------------------------------
/// Existing environment variables are never overwritten by a `.env` file:
/// loading entries keeps every variable that was already set.
pub proof fn law_dotenv_keeps_existing(
    vars: Map<Seq<char>, Seq<char>>,
    entries: Seq<(Seq<char>, Seq<char>)>,
    name: Seq<char>,
)
    requires
        vars.contains_key(name),
    ensures
        load_entries(vars, entries).contains_key(name),
        load_entries(vars, entries)[name] == vars[name],
    decreases entries.len(),
{
    if entries.len() > 0 {
        law_dotenv_keeps_existing(vars, entries.drop_last(), name);
    }
}

/// Within a `.env` file the first entry for a name wins: a name not set
/// before loading gets the value of its first entry.
pub proof fn law_dotenv_first_entry_wins(
    vars: Map<Seq<char>, Seq<char>>,
    entries: Seq<(Seq<char>, Seq<char>)>,
    i: int,
)
    requires
        0 <= i < entries.len(),
        !vars.contains_key(entries[i].0),
        forall|j: int| 0 <= j < i ==> entries[j].0 != entries[i].0,
    ensures
        load_entries(vars, entries).contains_key(entries[i].0),
        load_entries(vars, entries)[entries[i].0] == entries[i].1,
    decreases entries.len(),
{
    let name = entries[i].0;
    if i == entries.len() - 1 {
        assert(!load_entries(vars, entries.drop_last()).contains_key(name)) by {
            lemma_load_entries_absent(vars, entries.drop_last(), name);
        }
    } else {
        assert(entries.drop_last()[i] == entries[i]);
        law_dotenv_first_entry_wins(vars, entries.drop_last(), i);
    }
}

proof fn lemma_load_entries_absent(
    vars: Map<Seq<char>, Seq<char>>,
    entries: Seq<(Seq<char>, Seq<char>)>,
    name: Seq<char>,
)
    requires
        !vars.contains_key(name),
        forall|j: int| 0 <= j < entries.len() ==> entries[j].0 != name,
    ensures
        !load_entries(vars, entries).contains_key(name),
    decreases entries.len(),
{
    if entries.len() > 0 {
        lemma_load_entries_absent(vars, entries.drop_last(), name);
    }
}

/// `.env.local` takes precedence over `.env`: when the directory itself
/// holds a `.env.local`, that is the file found.
pub proof fn law_dotenv_local_first(dir: Seq<char>, existing: Seq<Seq<char>>)
    requires
        existing.contains(join(dir, ".env.local"@)),
    ensures
        first_existing(spec_dotenv_candidates(dir), existing) == Some(join(dir, ".env.local"@)),
{
    let a = ancestors(dir);
    assert(a[0] == dir);
    assert(spec_dotenv_candidates(dir)[0] == join(dir, ".env.local"@));
}

/// The `.env` search walks up from the directory one directory at a time:
/// the first directory that holds a `.env.local` or a `.env` decides, and
/// within it `.env.local` comes before `.env`.
pub open spec fn nearest_dotenv(dirs: Seq<Seq<char>>, existing: Seq<Seq<char>>) -> Option<
    Seq<char>,
>
    decreases dirs.len(),
{
    if dirs.len() == 0 {
        None
    } else if existing.contains(join(dirs[0], ".env.local"@)) {
        Some(join(dirs[0], ".env.local"@))
    } else if existing.contains(join(dirs[0], ".env"@)) {
        Some(join(dirs[0], ".env"@))
    } else {
        nearest_dotenv(dirs.drop_first(), existing)
    }
}

/// [`find_dotenv`] finds the `.env` file of the nearest directory, from
/// `dir` up through its ancestors, that holds one, preferring `.env.local`
/// there; it finds none when no such directory exists.
pub proof fn law_dotenv_nearest_directory_wins(dirs: Seq<Seq<char>>, existing: Seq<Seq<char>>)
    ensures
        first_existing(dotenv_search(dirs), existing) == nearest_dotenv(dirs, existing),
    decreases dirs.len(),
{
    if dirs.len() > 0 {
        let a = join(dirs[0], ".env.local"@);
        let b = join(dirs[0], ".env"@);
        let rest = dotenv_search(dirs.drop_first());
        let all = dotenv_search(dirs);
        assert(all == seq![a, b] + rest);
        assert(all[0] == a);
        assert(all.drop_first() =~= seq![b] + rest);
        assert(all.drop_first()[0] == b);
        assert(all.drop_first().drop_first() =~= rest);
        law_dotenv_nearest_directory_wins(dirs.drop_first(), existing);
        let second = first_existing(all.drop_first(), existing);
        assert(second == if existing.contains(b) {
            Some(b)
        } else {
            first_existing(rest, existing)
        });
        assert(first_existing(all, existing) == if existing.contains(a) {
            Some(a)
        } else {
            second
        });
    }
}

proof fn lemma_exports_keep_other(
    vars: Map<Seq<char>, Seq<char>>,
    exports: Seq<ExportModel>,
    name: Seq<char>,
)
    requires
        forall|j: int| 0 <= j < exports.len() ==> #[trigger] exports[j].name != name,
    ensures
        with_exports(vars, exports).contains_key(name) == vars.contains_key(name),
        vars.contains_key(name) ==> with_exports(vars, exports)[name] == vars[name],
    decreases exports.len(),
{
    if exports.len() > 0 {
        assert(exports.last().name != name);
        lemma_exports_keep_other(vars, exports.drop_last(), name);
    }
}

proof fn lemma_setup_keeps_loaded(
    vars: Map<Seq<char>, Seq<char>>,
    wd: Seq<char>,
    settings: SettingsModel,
    exports: Seq<ExportModel>,
    dotenv: Seq<(Seq<char>, Seq<char>)>,
    ex: Seq<Seq<char>>,
    windows: bool,
    name: Seq<char>,
)
    requires
        after_dotenv(vars, settings, dotenv).contains_key(name),
        name != "PATH"@,
        name != "VIRTUAL_ENV"@,
        name != "PYTHONHOME"@,
        forall|j: int| 0 <= j < exports.len() ==> #[trigger] exports[j].name != name,
    ensures
        setup_vars(vars, wd, settings, exports, dotenv, ex, windows).contains_key(name),
        setup_vars(vars, wd, settings, exports, dotenv, ex, windows)[name] == after_dotenv(
            vars,
            settings,
            dotenv,
        )[name],
{
    let m1 = after_dotenv(vars, settings, dotenv);
    let m4 = pre_export_vars(vars, wd, settings, dotenv, ex, windows);
    assert(m4.contains_key(name) && m4[name] == m1[name]);
    lemma_exports_keep_other(m4, exports, name);
}

/// A real environment variable beats the `.env` file: after the setup, a
/// variable that was set before keeps its value, whatever the `.env` file
/// assigns to it, unless the setup itself owns it (`PATH`, `VIRTUAL_ENV`,
/// `PYTHONHOME`) or the justfile exports it.
pub proof fn law_real_variable_beats_dotenv(
    vars: Map<Seq<char>, Seq<char>>,
    wd: Seq<char>,
    settings: SettingsModel,
    exports: Seq<ExportModel>,
    dotenv: Seq<(Seq<char>, Seq<char>)>,
    ex: Seq<Seq<char>>,
    windows: bool,
    name: Seq<char>,
)
    requires
        vars.contains_key(name),
        name != "PATH"@,
        name != "VIRTUAL_ENV"@,
        name != "PYTHONHOME"@,
        forall|j: int| 0 <= j < exports.len() ==> #[trigger] exports[j].name != name,
    ensures
        setup_vars(vars, wd, settings, exports, dotenv, ex, windows).contains_key(name),
        setup_vars(vars, wd, settings, exports, dotenv, ex, windows)[name] == vars[name],
{
    law_dotenv_keeps_existing(vars, dotenv, name);
    lemma_setup_keeps_loaded(vars, wd, settings, exports, dotenv, ex, windows, name);
}

/// With `.env` loading on, a variable that was not set before the setup
/// takes the value of its first entry in the `.env` file, unless the setup
/// itself owns it or the justfile exports it.
pub proof fn law_dotenv_fills_unset_variable(
    vars: Map<Seq<char>, Seq<char>>,
    wd: Seq<char>,
    settings: SettingsModel,
    exports: Seq<ExportModel>,
    dotenv: Seq<(Seq<char>, Seq<char>)>,
    ex: Seq<Seq<char>>,
    windows: bool,
    i: int,
)
    requires
        settings.dotenv,
        0 <= i < dotenv.len(),
        !vars.contains_key(dotenv[i].0),
        forall|j: int| 0 <= j < i ==> dotenv[j].0 != dotenv[i].0,
        dotenv[i].0 != "PATH"@,
        dotenv[i].0 != "VIRTUAL_ENV"@,
        dotenv[i].0 != "PYTHONHOME"@,
        forall|j: int| 0 <= j < exports.len() ==> #[trigger] exports[j].name != dotenv[i].0,
    ensures
        setup_vars(vars, wd, settings, exports, dotenv, ex, windows).contains_key(dotenv[i].0),
        setup_vars(vars, wd, settings, exports, dotenv, ex, windows)[dotenv[i].0] == dotenv[i].1,
{
    law_dotenv_first_entry_wins(vars, dotenv, i);
    lemma_setup_keeps_loaded(vars, wd, settings, exports, dotenv, ex, windows, dotenv[i].0);
}

proof fn lemma_last_export_wins(
    vars: Map<Seq<char>, Seq<char>>,
    exports: Seq<ExportModel>,
    i: int,
)
    requires
        0 <= i < exports.len(),
        forall|j: int| i < j < exports.len() ==> #[trigger] exports[j].name != exports[i].name,
    ensures
        with_exports(vars, exports).contains_key(exports[i].name),
        with_exports(vars, exports)[exports[i].name] == expand(
            exports[i].value,
            with_exports(vars, exports.take(i)),
        ),
    decreases exports.len(),
{
    if i == exports.len() - 1 {
        assert(exports.drop_last() =~= exports.take(i));
    } else {
        let d = exports.drop_last();
        assert(d[i] == exports[i]);
        assert(d.take(i) =~= exports.take(i));
        assert forall|j: int| i < j < d.len() implies #[trigger] d[j].name != d[i].name by {
            assert(d[j] == exports[j]);
        }
        lemma_last_export_wins(vars, d, i);
        assert(exports.last() == exports[exports.len() - 1]);
    }
}

/// The justfile's exports are applied last and in order: an exported name
/// ends with the value of its last export, expanded against the variables
/// as the `.env` file, the `PATH` and virtualenv setup and the exports
/// before it left them.
pub proof fn law_exports_applied_last_in_order(
    vars: Map<Seq<char>, Seq<char>>,
    wd: Seq<char>,
    settings: SettingsModel,
    exports: Seq<ExportModel>,
    dotenv: Seq<(Seq<char>, Seq<char>)>,
    ex: Seq<Seq<char>>,
    windows: bool,
    i: int,
)
    requires
        0 <= i < exports.len(),
        forall|j: int| i < j < exports.len() ==> #[trigger] exports[j].name != exports[i].name,
    ensures
        setup_vars(vars, wd, settings, exports, dotenv, ex, windows).contains_key(exports[i].name),
        setup_vars(vars, wd, settings, exports, dotenv, ex, windows)[exports[i].name] == expand(
            exports[i].value,
            setup_vars(vars, wd, settings, exports.take(i), dotenv, ex, windows),
        ),
{
    lemma_last_export_wins(pre_export_vars(vars, wd, settings, dotenv, ex, windows), exports, i);
}

proof fn lemma_expand_from_plain(s: Seq<char>, i: int, vars: Map<Seq<char>, Seq<char>>)
    requires
        0 <= i <= s.len(),
        !s.contains('$'),
    ensures
        expand_from(s, i, vars) == s.subrange(i, s.len() as int),
    decreases s.len() - i,
{
    if i < s.len() {
        assert(s[i] != '$');
        lemma_expand_from_plain(s, i + 1, vars);
        assert(s.subrange(i, s.len() as int) =~= seq![s[i]] + s.subrange(i + 1, s.len() as int));
    } else {
        assert(s.subrange(i, s.len() as int) =~= seq![]);
    }
}

proof fn lemma_brace_end_shift(a: Seq<char>, b: Seq<char>, i: int)
    requires
        0 <= i <= b.len(),
    ensures
        brace_end(a + b, a.len() + i) == a.len() + brace_end(b, i),
    decreases b.len() - i,
{
    if i < b.len() {
        assert((a + b)[a.len() + i] == b[i]);
        if b[i] != '}' {
            lemma_brace_end_shift(a, b, i + 1);
        }
    }
}

proof fn lemma_name_end_shift(a: Seq<char>, b: Seq<char>, i: int)
    requires
        0 <= i <= b.len(),
    ensures
        name_end(a + b, a.len() + i) == a.len() + name_end(b, i),
    decreases b.len() - i,
{
    if i < b.len() {
        assert((a + b)[a.len() + i] == b[i]);
        if unicode_alphanumeric(b[i]) || b[i] == '_' {
            lemma_name_end_shift(a, b, i + 1);
        }
    }
}

proof fn lemma_expand_shift(a: Seq<char>, b: Seq<char>, i: int, vars: Map<Seq<char>, Seq<char>>)
    requires
        0 <= i <= b.len(),
    ensures
        expand_from(a + b, a.len() + i, vars) == expand_from(b, i, vars),
    decreases b.len() - i,
{
    let s = a + b;
    let j = a.len() + i;
    if i < b.len() {
        assert(s[j] == b[i]);
        if b[i] == '$' {
            if i + 1 < b.len() && b[i + 1] == '{' {
                assert(s[j + 1] == b[i + 1]);
                lemma_brace_end(b, i + 2);
                lemma_brace_end_shift(a, b, i + 2);
                let e = brace_end(b, i + 2);
                assert(s.subrange(j + 2, a.len() + e) =~= b.subrange(i + 2, e));
                let next = if e < b.len() {
                    e + 1
                } else {
                    e
                };
                lemma_expand_shift(a, b, next, vars);
            } else {
                lemma_name_end(b, i + 1);
                lemma_name_end_shift(a, b, i + 1);
                let e = name_end(b, i + 1);
                assert(s.subrange(j + 1, a.len() + e) =~= b.subrange(i + 1, e));
                lemma_expand_shift(a, b, e, vars);
            }
        } else {
            lemma_expand_shift(a, b, i + 1, vars);
        }
    }
}

proof fn lemma_expand_plain_prefix_from(
    p: Seq<char>,
    rest: Seq<char>,
    i: int,
    vars: Map<Seq<char>, Seq<char>>,
)
    requires
        0 <= i <= p.len(),
        !p.contains('$'),
    ensures
        expand_from(p + rest, i, vars) == p.subrange(i, p.len() as int) + expand(rest, vars),
    decreases p.len() - i,
{
    let s = p + rest;
    if i < p.len() {
        assert(s[i] == p[i]);
        assert(p[i] != '$');
        lemma_expand_plain_prefix_from(p, rest, i + 1, vars);
        assert(p.subrange(i, p.len() as int) =~= seq![p[i]] + p.subrange(i + 1, p.len() as int));
    } else {
        lemma_expand_shift(p, rest, 0, vars);
        assert(p.subrange(i, p.len() as int) =~= seq![]);
        assert(seq![] + expand(rest, vars) =~= expand(rest, vars));
    }
}

/// Expansion copies text without a `$` as it stands and goes on with what
/// follows it.
pub proof fn law_expand_plain_prefix(p: Seq<char>, rest: Seq<char>, vars: Map<Seq<char>, Seq<char>>)
    requires
        !p.contains('$'),
    ensures
        expand(p + rest, vars) == p + expand(rest, vars),
{
    lemma_expand_plain_prefix_from(p, rest, 0, vars);
    assert(p.subrange(0, p.len() as int) =~= p);
}

/// `$NAME`, with `NAME` the longest run of alphanumerics and `_` after the
/// `$`, expands to the variable's value, or to nothing when it is unset. (A
/// `{` right after the `$` opens a braced reference instead; see
/// [`law_expand_braced_reference`].)
pub proof fn law_expand_named_reference(
    name: Seq<char>,
    rest: Seq<char>,
    vars: Map<Seq<char>, Seq<char>>,
)
    requires
        name.len() > 0,
        name[0] != '{',
        forall|m: int| 0 <= m < name.len() ==> unicode_alphanumeric(#[trigger] name[m]) || name[m] == '_',
        rest.len() > 0 ==> !(unicode_alphanumeric(rest[0]) || rest[0] == '_'),
    ensures
        expand(seq!['$'] + name + rest, vars) == var_or_empty(vars, name) + expand(rest, vars),
{
    let s = seq!['$'] + name + rest;
    let head = seq!['$'] + name;
    assert(s =~= head + rest);
    assert(s[1] == name[0]);
    lemma_name_end_at(s, 1, name.len() + 1int);
    assert(s.subrange(1, name.len() + 1int) =~= name);
    lemma_expand_shift(head, rest, 0, vars);
}

pub proof fn lemma_name_end_at(s: Seq<char>, i: int, e: int)
    requires
        0 <= i <= e <= s.len(),
        forall|m: int| i <= m < e ==> unicode_alphanumeric(#[trigger] s[m]) || s[m] == '_',
        e < s.len() ==> !(unicode_alphanumeric(s[e]) || s[e] == '_'),
    ensures
        name_end(s, i) == e,
    decreases e - i,
{
    if i < e {
        lemma_name_end_at(s, i + 1, e);
    }
}

/// `${NAME}` expands to the variable's value, or to nothing when it is
/// unset.
pub proof fn law_expand_braced_reference(
    name: Seq<char>,
    rest: Seq<char>,
    vars: Map<Seq<char>, Seq<char>>,
)
    requires
        !name.contains('}'),
    ensures
        expand(seq!['$', '{'] + name + seq!['}'] + rest, vars) == var_or_empty(vars, name) + expand(
            rest,
            vars,
        ),
{
    let head = seq!['$', '{'] + name + seq!['}'];
    let s = head + rest;
    assert(seq!['$', '{'] + name + seq!['}'] + rest =~= s);
    lemma_brace_end_at(s, 2, name.len() + 2int);
    assert(s.subrange(2, name.len() + 2int) =~= name);
    assert(head.len() == name.len() + 3);
    lemma_expand_shift(head, rest, 0, vars);
}

proof fn lemma_brace_end_at(s: Seq<char>, i: int, e: int)
    requires
        0 <= i <= e < s.len(),
        forall|m: int| i <= m < e ==> #[trigger] s[m] != '}',
        s[e] == '}',
    ensures
        brace_end(s, i) == e,
    decreases e - i,
{
    if i < e {
        lemma_brace_end_at(s, i + 1, e);
    }
}

/// Text without a `$` comes back from expansion unchanged.
pub proof fn law_expand_plain_text_unchanged(value: Seq<char>, vars: Map<Seq<char>, Seq<char>>)
    requires
        !value.contains('$'),
    ensures
        expand(value, vars) == value,
{
    lemma_expand_from_plain(value, 0, vars);
    assert(value.subrange(0, value.len() as int) =~= value);
}

/// A `.env` value in matching quotes is the text between them; what follows
/// the closing quote is dropped.
pub proof fn law_dotenv_quoted_value(q: char, inner: Seq<char>, rest: Seq<char>)
    requires
        q == '"' || q == '\'',
        !inner.contains(q),
    ensures
        dotenv_value(seq![q] + inner + seq![q] + rest) == inner,
{
    let v = seq![q] + inner + seq![q] + rest;
    let r = v.drop_first();
    assert(r =~= inner + seq![q] + rest);
    let n = inner.len() as int;
    crate::text::lemma_find_from(r, seq![q], 0);
    assert(r.subrange(n, n + 1) =~= seq![q]);
    assert(crate::text::occurs_at(r, seq![q], n));
    match find(r, seq![q]) {
        Some(k) => {
            if k < n {
                assert(r.subrange(k, k + 1)[0] == r[k]);
                assert(r[k] == inner[k]);
                assert(inner.contains(q));
            }
            assert(k == n);
            assert(r.subrange(0, n) =~= inner);
        },
        None => {},
    }
}

/// An unquoted `.env` value without a ` #` or `\t#` comment is taken as
/// written.
pub proof fn law_dotenv_plain_value_unchanged(value: Seq<char>)
    requires
        !(value.len() > 0 && (value[0] == '"' || value[0] == '\'')),
        !crate::text::contains(value, " #"@),
        !crate::text::contains(value, "\t#"@),
    ensures
        dotenv_value(value) == value,
{
}

/// The setup's steps, in order: the `.env` file, `node_modules/.bin`, cargo's
/// debug directory, the virtualenv, and last the justfile's exports.
pub proof fn law_setup_steps_in_order(
    vars: Map<Seq<char>, Seq<char>>,
    wd: Seq<char>,
    settings: SettingsModel,
    exports: Seq<ExportModel>,
    dotenv: Seq<(Seq<char>, Seq<char>)>,
    ex: Seq<Seq<char>>,
    windows: bool,
)
    ensures
        setup_vars(vars, wd, settings, exports, dotenv, ex, windows) == with_exports(
            venv_step(
                cargo_step(node_step(after_dotenv(vars, settings, dotenv), wd, ex), wd, ex),
                settings,
                wd,
                ex,
                windows,
            ),
            exports,
        ),
{
}

/// `node_modules/.bin` goes first on `PATH`: when it exists, `PATH` becomes
/// it, `:`, and the old `PATH` (empty when unset), and nothing else changes;
/// otherwise nothing changes.
pub proof fn law_node_modules_bin_first(
    vars: Map<Seq<char>, Seq<char>>,
    wd: Seq<char>,
    ex: Seq<Seq<char>>,
)
    ensures
        ex.contains(join(wd, "node_modules/.bin"@)) ==> node_step(vars, wd, ex) == vars.insert(
            "PATH"@,
            join(wd, "node_modules/.bin"@) + seq![':'] + var_or_empty(vars, "PATH"@),
        ),
        !ex.contains(join(wd, "node_modules/.bin"@)) ==> node_step(vars, wd, ex) == vars,
{
}

/// Cargo's debug directory goes last on `PATH`: it is `CARGO_TARGET_DIR`'s
/// `debug` when that variable is set, else `target/debug` of the working
/// directory; when it exists, `PATH` becomes the old `PATH`, `:`, and it,
/// and nothing else changes; otherwise nothing changes.
pub proof fn law_cargo_debug_last(
    vars: Map<Seq<char>, Seq<char>>,
    wd: Seq<char>,
    ex: Seq<Seq<char>>,
)
    ensures
        ({
            let cb = if vars.contains_key("CARGO_TARGET_DIR"@) {
                join(vars["CARGO_TARGET_DIR"@], "debug"@)
            } else {
                join(wd, "target/debug"@)
            };
            &&& ex.contains(cb) ==> cargo_step(vars, wd, ex) == vars.insert(
                "PATH"@,
                var_or_empty(vars, "PATH"@) + seq![':'] + cb,
            )
            &&& !ex.contains(cb) ==> cargo_step(vars, wd, ex) == vars
        }),
{
}

/// Virtualenv activation: the virtualenv is the one `set venv` names when it
/// exists, else the first of `.venv`, `venv`, `.uv/venv` holding
/// `bin/activate` or `Scripts/activate`. When there is one, its programs
/// directory (`Scripts` on Windows, else `bin`) goes first on `PATH` when it
/// exists, `VIRTUAL_ENV` names it and `PYTHONHOME` is unset; when there is
/// none nothing changes.
pub proof fn law_venv_activation(
    vars: Map<Seq<char>, Seq<char>>,
    settings: SettingsModel,
    wd: Seq<char>,
    ex: Seq<Seq<char>>,
    windows: bool,
)
    ensures
        match venv_dir(settings, wd, ex) {
            Some(d) => venv_step(vars, settings, wd, ex, windows) == (if ex.contains(
                venv_bin(d, windows),
            ) {
                vars.insert("PATH"@, venv_bin(d, windows) + seq![':'] + var_or_empty(vars, "PATH"@))
            } else {
                vars
            }).insert("VIRTUAL_ENV"@, d).remove("PYTHONHOME"@),
            None => venv_step(vars, settings, wd, ex, windows) == vars,
        },
        venv_dir(settings, wd, ex) == match settings.venv {
            Some(p) => if ex.contains(join(wd, p)) {
                Some(join(wd, p))
            } else {
                None
            },
            None => first_venv(wd, seq![".venv"@, "venv"@, ".uv/venv"@], ex),
        },
{
}

/// The `PATH` the setup leaves when no virtualenv applies and the justfile
/// does not export `PATH`: `node_modules/.bin` in front when it exists, the
/// `PATH` as the `.env` step left it, and cargo's debug directory at the end
/// when it exists.
pub proof fn law_path_without_venv(
    vars: Map<Seq<char>, Seq<char>>,
    wd: Seq<char>,
    settings: SettingsModel,
    exports: Seq<ExportModel>,
    dotenv: Seq<(Seq<char>, Seq<char>)>,
    ex: Seq<Seq<char>>,
    windows: bool,
)
    requires
        venv_dir(settings, wd, ex) is None,
        forall|j: int| 0 <= j < exports.len() ==> #[trigger] exports[j].name != "PATH"@,
    ensures
        ({
            let m1 = after_dotenv(vars, settings, dotenv);
            let cb = cargo_bin(m1, wd);
            let with_node = if ex.contains(node_bin(wd)) {
                node_bin(wd) + seq![':'] + var_or_empty(m1, "PATH"@)
            } else {
                var_or_empty(m1, "PATH"@)
            };
            let full = if ex.contains(cb) {
                with_node + seq![':'] + cb
            } else {
                with_node
            };
            setup_vars(vars, wd, settings, exports, dotenv, ex, windows).contains_key("PATH"@) == (
            ex.contains(node_bin(wd)) || ex.contains(cb) || m1.contains_key("PATH"@))
                && (setup_vars(vars, wd, settings, exports, dotenv, ex, windows).contains_key(
                "PATH"@,
            ) ==> setup_vars(vars, wd, settings, exports, dotenv, ex, windows)["PATH"@] == full)
        }),
{
    reveal_strlit("PATH");
    reveal_strlit("CARGO_TARGET_DIR");
    let m1 = after_dotenv(vars, settings, dotenv);
    let m2 = node_step(m1, wd, ex);
    assert("CARGO_TARGET_DIR"@.len() != "PATH"@.len());
    assert(m2.contains_key("CARGO_TARGET_DIR"@) == m1.contains_key("CARGO_TARGET_DIR"@));
    assert(cargo_bin(m2, wd) == cargo_bin(m1, wd));
    let m4 = pre_export_vars(vars, wd, settings, dotenv, ex, windows);
    assert(m4 == cargo_step(m2, wd, ex));
    lemma_exports_keep_other(m4, exports, "PATH"@);
}

/// When a virtualenv applies and the justfile exports none of these names,
/// the setup activates it: `VIRTUAL_ENV` names it, `PYTHONHOME` is unset,
/// and its programs directory, when that exists, comes first on `PATH`.
pub proof fn law_venv_activated(
    vars: Map<Seq<char>, Seq<char>>,
    wd: Seq<char>,
    settings: SettingsModel,
    exports: Seq<ExportModel>,
    dotenv: Seq<(Seq<char>, Seq<char>)>,
    ex: Seq<Seq<char>>,
    windows: bool,
    venv: Seq<char>,
)
    requires
        venv_dir(settings, wd, ex) == Some(venv),
        forall|j: int|
            0 <= j < exports.len() ==> #[trigger] exports[j].name != "PATH"@ && exports[j].name
                != "VIRTUAL_ENV"@ && exports[j].name != "PYTHONHOME"@,
    ensures
        setup_vars(vars, wd, settings, exports, dotenv, ex, windows).contains_key("VIRTUAL_ENV"@),
        setup_vars(vars, wd, settings, exports, dotenv, ex, windows)["VIRTUAL_ENV"@] == venv,
        !setup_vars(vars, wd, settings, exports, dotenv, ex, windows).contains_key("PYTHONHOME"@),
        ex.contains(venv_bin(venv, windows)) ==> setup_vars(
            vars,
            wd,
            settings,
            exports,
            dotenv,
            ex,
            windows,
        ).contains_key("PATH"@) && starts_with(
            setup_vars(vars, wd, settings, exports, dotenv, ex, windows)["PATH"@],
            venv_bin(venv, windows) + seq![':'],
        ),
{
    reveal_strlit("PATH");
    reveal_strlit("VIRTUAL_ENV");
    reveal_strlit("PYTHONHOME");
    let m4 = pre_export_vars(vars, wd, settings, dotenv, ex, windows);
    assert("VIRTUAL_ENV"@.len() != "PYTHONHOME"@.len());
    assert("PATH"@.len() != "PYTHONHOME"@.len());
    assert("PATH"@.len() != "VIRTUAL_ENV"@.len());
    lemma_exports_keep_other(m4, exports, "PATH"@);
    lemma_exports_keep_other(m4, exports, "VIRTUAL_ENV"@);
    lemma_exports_keep_other(m4, exports, "PYTHONHOME"@);
    if ex.contains(venv_bin(venv, windows)) {
        let bin = venv_bin(venv, windows);
        let m3 = cargo_step(node_step(after_dotenv(vars, settings, dotenv), wd, ex), wd, ex);
        let p = bin + seq![':'] + var_or_empty(m3, "PATH"@);
        assert(m4["PATH"@] == p);
        assert(p.subrange(0, bin.len() + 1int) =~= bin + seq![':']);
    }
}

/// Loading a `.env` file removes nothing and adds only its own names: after
/// loading, a name is set exactly when it was set before or some entry
/// names it.
pub proof fn law_dotenv_removes_nothing(
    vars: Map<Seq<char>, Seq<char>>,
    entries: Seq<(Seq<char>, Seq<char>)>,
    name: Seq<char>,
)
    ensures
        load_entries(vars, entries).contains_key(name) <==> (vars.contains_key(name) || exists|i: int|
            0 <= i < entries.len() && #[trigger] entries[i].0 == name),
    decreases entries.len(),
{
    if entries.len() > 0 {
        let d = entries.drop_last();
        law_dotenv_removes_nothing(vars, d, name);
        if exists|i: int| 0 <= i < d.len() && #[trigger] d[i].0 == name {
            let i = choose|i: int| 0 <= i < d.len() && #[trigger] d[i].0 == name;
            assert(entries[i] == d[i]);
        }
        if exists|i: int| 0 <= i < entries.len() && #[trigger] entries[i].0 == name {
            let i = choose|i: int| 0 <= i < entries.len() && #[trigger] entries[i].0 == name;
            if i < d.len() {
                assert(d[i] == entries[i]);
            }
        }
    }
}
/// Loading the `.env` file, as a whole: the file is the one `set dotenv`
/// names under the working directory, whatever exists (no search), else the
/// nearest `.env.local` or `.env` walking up; loading it keeps every
/// variable that was set, gives each unset name the value of its first
/// entry, and removes nothing.
pub proof fn law_load_dotenv(
    settings: SettingsModel,
    wd: Seq<char>,
    existing: Seq<Seq<char>>,
    other: Seq<Seq<char>>,
    vars: Map<Seq<char>, Seq<char>>,
    entries: Seq<(Seq<char>, Seq<char>)>,
    name: Seq<char>,
)
    ensures
        settings.dotenv_path matches Some(d) ==> dotenv_file_of(settings, wd, existing) == Some(
            join(wd, d),
        ) && dotenv_file_of(settings, wd, other) == dotenv_file_of(settings, wd, existing),
        settings.dotenv_path is None ==> dotenv_file_of(settings, wd, existing) == nearest_dotenv(
            ancestors(wd),
            existing,
        ),
        vars.contains_key(name) ==> load_entries(vars, entries).contains_key(name) && load_entries(
            vars,
            entries,
        )[name] == vars[name],
        load_entries(vars, entries).contains_key(name) <==> (vars.contains_key(name) || exists|i: int|
            0 <= i < entries.len() && #[trigger] entries[i].0 == name),
        forall|i: int|
            0 <= i < entries.len() && #[trigger] entries[i].0 == name && !vars.contains_key(name) && (
            forall|j: int| 0 <= j < i ==> entries[j].0 != name) ==> load_entries(vars, entries)[name]
                == entries[i].1,
{
    law_dotenv_nearest_directory_wins(ancestors(wd), existing);
    if vars.contains_key(name) {
        law_dotenv_keeps_existing(vars, entries, name);
    }
    law_dotenv_removes_nothing(vars, entries, name);
    assert forall|i: int|
        0 <= i < entries.len() && #[trigger] entries[i].0 == name && !vars.contains_key(name) && (
        forall|j: int| 0 <= j < i ==> entries[j].0 != name) implies load_entries(vars, entries)[name]
        == entries[i].1 by {
        law_dotenv_first_entry_wins(vars, entries, i);
    }
}

} // verus!
