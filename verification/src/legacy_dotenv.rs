//! `.env` loading for justfiles that route to the upstream engine.
//!
//! Upstream `just` loads a `.env` only when told to, so a justfile that routes
//! to it would silently lose its `.env`. Before handing over, the `.env` is put
//! into the process environment, except when the justfile or the command line
//! configures dotenv itself; variables already set are never overwritten.
use vstd::prelude::*;

use crate::v2::environment::map_of_pairs;
use crate::v2::parser::string_pairs;
use crate::text::{
    chars_of, lines, lines_of, split_once, split_once_ch, starts_with, string_of, string_views,
    strip_prefix, trim, trim_chars, trim_start, trim_start_chars, views,
};

verus! {

/// Whether a line is a `set dotenv-…` setting.
pub open spec fn is_dotenv_setting(line: Seq<char>) -> bool {
    match strip_prefix(trim(line), "set"@) {
        Some(rest) => starts_with(trim_start(rest), "dotenv-"@),
        None => false,
    }
}

/// Whether a justfile has a `set dotenv-…` line of its own.
pub open spec fn spec_configures_dotenv(content: Seq<char>) -> bool {
    exists|i: int| 0 <= i < lines(content).len() && is_dotenv_setting(lines(content)[i])
}

fn is_dotenv_setting_exec(line: &Vec<char>) -> (r: bool)
    ensures
        r == is_dotenv_setting(line@),
{
    let t = trim_chars(line);
    match crate::text::strip_prefix_str(&t, "set") {
        Some(rest) => {
            let r = trim_start_chars(&rest);
            crate::text::starts_with_str(&r, "dotenv-")
        },
        None => false,
    }
}

/// Whether a justfile has a `set dotenv-…` line of its own.
pub fn configures_dotenv(content: &str) -> (r: bool)
    ensures
        r == spec_configures_dotenv(content@),
{
    let ls = lines_of(&chars_of(content));
    let ghost lv = views(ls@);
    let mut i: usize = 0;
    while i < ls.len()
        invariant
            0 <= i <= ls.len(),
            lv == views(ls@),
            lv == lines(content@),
            forall|k: int| 0 <= k < i ==> !is_dotenv_setting(lv[k]),
        decreases ls.len() - i,
    {
        if is_dotenv_setting_exec(&ls[i]) {
            assert(is_dotenv_setting(lv[i as int]));
            return true;
        }
        i = i + 1;
    }
    false
}

/// The flag name in `arg`, with any `=value` cut off; `None` for an
/// argument that does not start with `--`.
pub open spec fn spec_flag_name(arg: Seq<char>) -> Option<Seq<char>> {
    if !starts_with(arg, "--"@) {
        None
    } else {
        match split_once(arg, "="@) {
            Some((name, _)) => Some(name),
            None => Some(arg),
        }
    }
}

/// The flag name in `arg`, with any `=value` cut off. `None` for positionals.
pub fn flag_name(arg: &str) -> (r: Option<String>)
    ensures
        match r {
            Some(n) => spec_flag_name(arg@) == Some(n@),
            None => spec_flag_name(arg@) is None,
        },
{
    let a = chars_of(arg);
    if !crate::text::starts_with_str(&a, "--") {
        return None;
    }
    match crate::text::split_once_str(&a, "=") {
        Some((name, _)) => Some(string_of(&name)),
        None => Some(string_of(&a)),
    }
}

/// Upstream flags that put dotenv handling under the invocation's control.
pub open spec fn dotenv_flags() -> Seq<Seq<char>> {
    seq!["--no-dotenv"@, "--dotenv-command"@, "--dotenv-filename"@, "--dotenv-path"@]
}

/// Whether an argument is one of the dotenv flags, alone or with `=value`.
pub open spec fn is_dotenv_flag(arg: Seq<char>) -> bool {
    match spec_flag_name(arg) {
        Some(n) => dotenv_flags().contains(n),
        None => false,
    }
}

/// Whether any argument configures dotenv handling for upstream.
pub fn has_dotenv_flag(args: &Vec<String>) -> (r: bool)
    ensures
        r == exists|i: int| 0 <= i < args.len() && is_dotenv_flag(args@[i]@),
{
    let flags = vec![
        string_of(&chars_of("--no-dotenv")),
        string_of(&chars_of("--dotenv-command")),
        string_of(&chars_of("--dotenv-filename")),
        string_of(&chars_of("--dotenv-path")),
    ];
    assert(string_views(flags@) =~= dotenv_flags());
    let mut i: usize = 0;
    while i < args.len()
        invariant
            0 <= i <= args.len(),
            string_views(flags@) == dotenv_flags(),
            forall|k: int| 0 <= k < i ==> !is_dotenv_flag(args@[k]@),
        decreases args.len() - i,
    {
        match flag_name(args[i].as_str()) {
            Some(n) => {
                let mut j: usize = 0;
                while j < flags.len()
                    invariant
                        0 <= j <= flags.len(),
                        i < args.len(),
                        spec_flag_name(args@[i as int]@) == Some(n@),
                        string_views(flags@) == dotenv_flags(),
                        forall|m: int| 0 <= m < j ==> flags@[m]@ != n@,
                    decreases flags.len() - j,
                {
                    if crate::text::str_eq(flags[j].as_str(), n.as_str()) {
                        assert(dotenv_flags()[j as int] == n@);
                        assert(is_dotenv_flag(args@[i as int]@));
                        return true;
                    }
                    j = j + 1;
                }
                assert(!dotenv_flags().contains(n@)) by {
                    if dotenv_flags().contains(n@) {
                        let m = choose|m: int| 0 <= m < dotenv_flags().len() && dotenv_flags()[m] == n@;
                        assert(flags@[m]@ == dotenv_flags()[m]);
                    }
                }
            },
            None => {},
        }
        i = i + 1;
    }
    false
}

/// The `.env` entries to put into a process environment in which the
/// variables named in `set` exist: in file order, each entry whose name is
/// neither set already nor given by an earlier entry.
pub open spec fn dotenv_additions(set: Seq<Seq<char>>, entries: Seq<(Seq<char>, Seq<char>)>) -> Seq<
    (Seq<char>, Seq<char>),
>
    decreases entries.len(),
{
    if entries.len() == 0 {
        seq![]
    } else {
        let prev = dotenv_additions(set, entries.drop_last());
        let e = entries.last();
        if set.contains(e.0) || (exists|i: int| 0 <= i < entries.len() - 1 && entries[i].0 == e.0) {
            prev
        } else {
            prev.push(e)
        }
    }
}

/// The `.env` entries to put into the process environment, given the names
/// among them that are set already: existing variables are never
/// overwritten, and the first entry for a name wins.
pub fn preload_entries(set: &Vec<String>, entries: &Vec<(String, String)>) -> (r: Vec<
    (String, String),
>)
    ensures
        string_pairs(r@) == dotenv_additions(string_views(set@), string_pairs(entries@)),
{
    let ghost sv = string_views(set@);
    let ghost ev = string_pairs(entries@);
    let mut out: Vec<(String, String)> = Vec::new();
    let mut i: usize = 0;
    assert(ev.take(0) =~= Seq::<(Seq<char>, Seq<char>)>::empty());
    assert(string_pairs(out@) =~= Seq::<(Seq<char>, Seq<char>)>::empty());
    while i < entries.len()
        invariant
            0 <= i <= entries.len(),
            sv == string_views(set@),
            ev == string_pairs(entries@),
            string_pairs(out@) == dotenv_additions(sv, ev.take(i as int)),
        decreases entries.len() - i,
    {
        let name = entries[i].0.as_str();
        let mut taken = false;
        let mut k: usize = 0;
        while k < set.len()
            invariant
                0 <= k <= set.len(),
                i < entries.len(),
                sv == string_views(set@),
                name@ == entries@[i as int].0@,
                taken <==> exists|m: int| 0 <= m < k && sv[m] == name@,
            decreases set.len() - k,
        {
            assert(sv[k as int] == set@[k as int]@);
            if crate::text::str_eq(set[k].as_str(), name) {
                taken = true;
            }
            k = k + 1;
        }
        let mut j: usize = 0;
        let mut earlier = false;
        while j < i
            invariant
                0 <= j <= i,
                i < entries.len(),
                ev == string_pairs(entries@),
                name@ == entries@[i as int].0@,
                earlier <==> exists|m: int| 0 <= m < j && ev[m].0 == name@,
            decreases i - j,
        {
            assert(ev[j as int].0 == entries@[j as int].0@);
            if crate::text::str_eq(entries[j].0.as_str(), name) {
                earlier = true;
            }
            j = j + 1;
        }
        let ghost t = ev.take(i + 1);
        proof {
            assert(t.drop_last() =~= ev.take(i as int));
            assert(t.last() == ev[i as int]);
            assert(ev[i as int].0 == name@);
            assert(sv.contains(name@) <==> taken);
            assert((exists|m: int| 0 <= m < t.len() - 1 && t[m].0 == t.last().0) <==> earlier) by {
                if earlier {
                    let m = choose|m: int| 0 <= m < i && ev[m].0 == name@;
                    assert(t[m] == ev[m]);
                }
                if exists|m: int| 0 <= m < t.len() - 1 && t[m].0 == t.last().0 {
                    let m = choose|m: int| 0 <= m < t.len() - 1 && t[m].0 == t.last().0;
                    assert(t[m] == ev[m]);
                }
            }
        }
        if !taken && !earlier {
            let ghost before = string_pairs(out@);
            out.push((
                crate::text::string_of(&chars_of(name)),
                crate::text::string_of(&chars_of(entries[i].1.as_str())),
            ));
            assert(string_pairs(out@) =~= before.push(ev[i as int]));
        }
        i = i + 1;
    }
    assert(ev.take(entries.len() as int) =~= ev);
    out
}

/// A preloaded `.env` never overwrites a variable that is set: no addition
/// names a variable in `set`.
pub proof fn law_preload_keeps_existing(set: Seq<Seq<char>>, entries: Seq<(Seq<char>, Seq<char>)>)
    ensures
        forall|i: int|
            0 <= i < dotenv_additions(set, entries).len() ==> !set.contains(
                #[trigger] dotenv_additions(set, entries)[i].0,
            ),
    decreases entries.len(),
{
    if entries.len() > 0 {
        law_preload_keeps_existing(set, entries.drop_last());
        let prev = dotenv_additions(set, entries.drop_last());
        let all = dotenv_additions(set, entries);
        assert forall|i: int| 0 <= i < all.len() implies !set.contains(#[trigger] all[i].0) by {
            if i < prev.len() {
                assert(all[i] == prev[i]);
            }
        }
    }
}

proof fn lemma_additions_from_entries(set: Seq<Seq<char>>, entries: Seq<(Seq<char>, Seq<char>)>)
    ensures
        forall|k: int|
            0 <= k < dotenv_additions(set, entries).len() ==> exists|m: int|
                0 <= m < entries.len() && entries[m] == #[trigger] dotenv_additions(set, entries)[k],
    decreases entries.len(),
{
    if entries.len() > 0 {
        let d = entries.drop_last();
        lemma_additions_from_entries(set, d);
        let prev = dotenv_additions(set, d);
        let all = dotenv_additions(set, entries);
        assert forall|k: int| 0 <= k < all.len() implies exists|m: int|
            0 <= m < entries.len() && entries[m] == #[trigger] all[k] by {
            if k < prev.len() {
                assert(all[k] == prev[k]);
                let m = choose|m: int| 0 <= m < d.len() && d[m] == #[trigger] prev[k];
                assert(entries[m] == d[m]);
            } else {
                assert(all[k] == entries[entries.len() - 1]);
            }
        }
    }
}

/// Within a preloaded `.env` file the first entry for a name wins: an entry
/// whose name is not set and not given earlier in the file is added, and
/// every addition for that name is that entry.
pub proof fn law_preload_first_entry_wins(
    set: Seq<Seq<char>>,
    entries: Seq<(Seq<char>, Seq<char>)>,
    i: int,
)
    requires
        0 <= i < entries.len(),
        !set.contains(entries[i].0),
        forall|j: int| 0 <= j < i ==> entries[j].0 != entries[i].0,
    ensures
        dotenv_additions(set, entries).contains(entries[i]),
        forall|k: int|
            0 <= k < dotenv_additions(set, entries).len() && (#[trigger] dotenv_additions(
                set,
                entries,
            )[k]).0 == entries[i].0 ==> dotenv_additions(set, entries)[k] == entries[i],
    decreases entries.len(),
{
    let d = entries.drop_last();
    let e = entries.last();
    let prev = dotenv_additions(set, d);
    let all = dotenv_additions(set, entries);
    let name = entries[i].0;
    if i == entries.len() - 1 {
        lemma_additions_from_entries(set, d);
        assert(!(exists|j: int| 0 <= j < entries.len() - 1 && entries[j].0 == e.0));
        assert(all == prev.push(e));
        assert(all[prev.len() as int] == entries[i]);
        assert forall|k: int| 0 <= k < all.len() && (#[trigger] all[k]).0 == name implies all[k]
            == entries[i] by {
            if k < prev.len() {
                assert(all[k] == prev[k]);
                let m = choose|m: int| 0 <= m < d.len() && d[m] == #[trigger] prev[k];
                assert(d[m] == entries[m]);
            }
        }
    } else {
        assert(d[i] == entries[i]);
        law_preload_first_entry_wins(set, d, i);
        let k0 = choose|k: int| 0 <= k < prev.len() && prev[k] == entries[i];
        if e.0 == name {
            assert(entries[i].0 == e.0 && i < entries.len() - 1);
            assert(all == prev);
        } else {
            assert(all == prev || all == prev.push(e));
            assert(all[k0] == prev[k0]);
        }
        assert forall|k: int| 0 <= k < all.len() && (#[trigger] all[k]).0 == name implies all[k]
            == entries[i] by {
            if k < prev.len() {
                assert(all[k] == prev[k]);
            }
        }
    }
}

/// Whether a `.env` is preloaded for a justfile read as `content` (`None`
/// when it could not be read) under command line `args`: no dotenv flag on
/// the command line, and a readable justfile with no dotenv setting.
pub open spec fn preload_applies_to(args: Seq<Seq<char>>, content: Option<Seq<char>>) -> bool {
    &&& !exists|i: int| 0 <= i < args.len() && is_dotenv_flag(#[trigger] args[i])
    &&& content matches Some(c) && !spec_configures_dotenv(c)
}

/// Whether a `.env` is preloaded: no dotenv flag on the command line, and
/// the justfile was read and holds no dotenv setting.
pub fn preload_applies(args: &Vec<String>, content: Option<&str>) -> (r: bool)
    ensures
        r == preload_applies_to(string_views(args@), match content {
            Some(c) => Some(c@),
            None => None,
        }),
{
    if has_dotenv_flag(args) {
        proof {
            let i = choose|i: int| 0 <= i < args.len() && is_dotenv_flag(args@[i]@);
            assert(string_views(args@)[i] == args@[i]@);
        }
        return false;
    }
    assert forall|i: int| 0 <= i < args.len() implies !is_dotenv_flag(
        #[trigger] string_views(args@)[i],
    ) by {
        assert(string_views(args@)[i] == args@[i]@);
    }
    match content {
        Some(c) => !configures_dotenv(c),
        None => false,
    }
}

/// The process environment `env` after preloading: unchanged when preloading
/// does not apply, else with the additions of the `.env` `entries` (see
/// [`dotenv_additions`]), `set` being the entry names `env` already holds.
pub open spec fn preloaded(
    env: Map<Seq<char>, Seq<char>>,
    applies: bool,
    set: Seq<Seq<char>>,
    entries: Seq<(Seq<char>, Seq<char>)>,
) -> Map<Seq<char>, Seq<char>> {
    if applies {
        env.union_prefer_right(map_of_pairs(dotenv_additions(set, entries)))
    } else {
        env
    }
}

proof fn lemma_map_of_pairs_key(pairs: Seq<(Seq<char>, Seq<char>)>, k: Seq<char>, v: Seq<char>)
    requires
        forall|i: int| 0 <= i < pairs.len() && (#[trigger] pairs[i]).0 == k ==> pairs[i].1 == v,
    ensures
        map_of_pairs(pairs).contains_key(k) <==> exists|i: int|
            0 <= i < pairs.len() && (#[trigger] pairs[i]).0 == k,
        map_of_pairs(pairs).contains_key(k) ==> map_of_pairs(pairs)[k] == v,
    decreases pairs.len(),
{
    if pairs.len() > 0 {
        let d = pairs.drop_last();
        assert forall|i: int| 0 <= i < d.len() && (#[trigger] d[i]).0 == k implies d[i].1 == v by {
            assert(d[i] == pairs[i]);
        }
        lemma_map_of_pairs_key(d, k, v);
        if exists|i: int| 0 <= i < d.len() && (#[trigger] d[i]).0 == k {
            let i = choose|i: int| 0 <= i < d.len() && (#[trigger] d[i]).0 == k;
            assert(pairs[i] == d[i]);
        }
        if exists|i: int| 0 <= i < pairs.len() && (#[trigger] pairs[i]).0 == k {
            let i = choose|i: int| 0 <= i < pairs.len() && (#[trigger] pairs[i]).0 == k;
            if i < d.len() {
                assert(d[i] == pairs[i]);
            }
        }
        assert(pairs.last() == pairs[pairs.len() - 1]);
    }
}

/// Preloading a `.env`: when it does not apply the environment is
/// unchanged; when it does, a variable that was set keeps its value, an
/// unset one takes the value of its first entry in the `.env` file, and one
/// the file does not name stays unset.
pub proof fn law_preload(
    env: Map<Seq<char>, Seq<char>>,
    applies: bool,
    set: Seq<Seq<char>>,
    entries: Seq<(Seq<char>, Seq<char>)>,
    k: Seq<char>,
)
    requires
        forall|i: int| 0 <= i < entries.len() ==> (set.contains(
            #[trigger] entries[i].0,
        ) <==> env.contains_key(entries[i].0)),
    ensures
        !applies ==> preloaded(env, applies, set, entries) == env,
        env.contains_key(k) ==> preloaded(env, applies, set, entries).contains_key(k) && preloaded(
            env,
            applies,
            set,
            entries,
        )[k] == env[k],
        applies && !env.contains_key(k) ==> (preloaded(env, applies, set, entries).contains_key(k)
            <==> exists|i: int| 0 <= i < entries.len() && (#[trigger] entries[i]).0 == k),
        forall|i: int|
            0 <= i < entries.len() && applies && !env.contains_key(k) && (#[trigger] entries[i]).0
                == k && (forall|j: int| 0 <= j < i ==> entries[j].0 != k) ==> preloaded(
                env,
                applies,
                set,
                entries,
            )[k] == entries[i].1,
{
    let adds = dotenv_additions(set, entries);
    law_preload_keeps_existing(set, entries);
    lemma_additions_from_entries(set, entries);
    if applies {
        let m = map_of_pairs(adds);
        if env.contains_key(k) {
            assert forall|i: int| 0 <= i < adds.len() implies (#[trigger] adds[i]).0 != k by {
                let j = choose|j: int| 0 <= j < entries.len() && entries[j] == #[trigger] adds[i];
                if adds[i].0 == k {
                    assert(set.contains(entries[j].0));
                }
            }
            lemma_map_of_pairs_key(adds, k, seq![]);
        } else if exists|i: int| 0 <= i < entries.len() && (#[trigger] entries[i]).0 == k {
            let i0 = choose|i: int| 0 <= i < entries.len() && (#[trigger] entries[i]).0 == k;
            let first = first_index_named(entries, k, i0);
            assert(!set.contains(entries[first].0));
            law_preload_first_entry_wins(set, entries, first);
            lemma_map_of_pairs_key(adds, k, entries[first].1);
            let a = choose|a: int| 0 <= a < adds.len() && adds[a] == entries[first];
            assert(adds[a].0 == k);
            assert forall|i: int|
                0 <= i < entries.len() && (#[trigger] entries[i]).0 == k && (forall|j: int|
                    0 <= j < i ==> entries[j].0 != k) implies m[k] == entries[i].1 by {
                if i < first {
                } else if i > first {
                    assert(entries[first].0 == k);
                }
            }
        } else {
            assert forall|i: int| 0 <= i < adds.len() implies (#[trigger] adds[i]).0 != k by {
                let j = choose|j: int| 0 <= j < entries.len() && entries[j] == #[trigger] adds[i];
            }
            lemma_map_of_pairs_key(adds, k, seq![]);
        }
    }
}

/// The first index up to `i` of an entry named `k`, given that entry `i` is.
proof fn first_index_named(entries: Seq<(Seq<char>, Seq<char>)>, k: Seq<char>, i: int) -> (r: int)
    requires
        0 <= i < entries.len(),
        entries[i].0 == k,
    ensures
        0 <= r <= i,
        entries[r].0 == k,
        forall|j: int| 0 <= j < r ==> entries[j].0 != k,
    decreases i,
{
    if exists|j: int| 0 <= j < i && entries[j].0 == k {
        let j = choose|j: int| 0 <= j < i && entries[j].0 == k;
        first_index_named(entries, k, j)
    } else {
        i
    }
}

} // verus!
