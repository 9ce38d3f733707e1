//! Locating a justfile: which directory entry is the justfile, and which
//! directory, walking up from a start, holds the first one.
//!
//! Like upstream, `justfile` and `.justfile` are recognised in any ASCII
//! case. The directory listings themselves are read by the caller.
use vstd::prelude::*;

use crate::text::chars_of;

verus! {

/// The code of `c` with ASCII upper case folded to lower case.
pub open spec fn ascii_folded(c: char) -> int {
    if 'A' <= c && c <= 'Z' {
        (c as int) + 32
    } else {
        c as int
    }
}

/// `str::eq_ignore_ascii_case`: same length, and the same characters once
/// ASCII letters are folded to one case.
pub open spec fn eq_ignore_ascii_case(a: Seq<char>, b: Seq<char>) -> bool {
    a.len() == b.len() && forall|i: int| 0 <= i < a.len() ==> ascii_folded(a[i]) == ascii_folded(b[i])
}

/// Whether `name` names a justfile: `justfile` or `.justfile`, ignoring
/// ASCII case.
pub open spec fn justfile_name(name: Seq<char>) -> bool {
    eq_ignore_ascii_case(name, "justfile"@) || eq_ignore_ascii_case(name, ".justfile"@)
}

fn folded(c: char) -> (r: u32)
    ensures
        r as int == ascii_folded(c),
{
    if 'A' <= c && c <= 'Z' {
        (c as u32) + 32
    } else {
        c as u32
    }
}

fn eq_ignore_case_exec(a: &Vec<char>, b: &Vec<char>) -> (r: bool)
    ensures
        r == eq_ignore_ascii_case(a@, b@),
{
    if a.len() != b.len() {
        return false;
    }
    let mut i: usize = 0;
    while i < a.len()
        invariant
            0 <= i <= a.len(),
            a.len() == b.len(),
            forall|k: int| 0 <= k < i ==> ascii_folded(a@[k]) == ascii_folded(b@[k]),
        decreases a.len() - i,
    {
        if folded(a[i]) != folded(b[i]) {
            return false;
        }
        i = i + 1;
    }
    true
}

/// Whether `name` is a justfile name, ignoring case.
pub fn is_justfile_name(name: &str) -> (r: bool)
    ensures
        r == justfile_name(name@),
{
    let n = chars_of(name);
    let a = chars_of("justfile");
    let b = chars_of(".justfile");
    eq_ignore_case_exec(&n, &a) || eq_ignore_case_exec(&n, &b)
}

/// Whether `a` sorts strictly before `b`: the order of `String`, character by
/// character, a proper prefix first.
pub open spec fn sorts_before(a: Seq<char>, b: Seq<char>) -> bool
    decreases a.len(),
{
    if a.len() == 0 {
        b.len() > 0
    } else if b.len() == 0 {
        false
    } else if a[0] != b[0] {
        a[0] < b[0]
    } else {
        sorts_before(a.drop_first(), b.drop_first())
    }
}

fn sorts_before_exec(a: &Vec<char>, b: &Vec<char>) -> (r: bool)
    ensures
        r == sorts_before(a@, b@),
{
    let mut i: usize = 0;
    assert(a@.skip(0) =~= a@);
    assert(b@.skip(0) =~= b@);
    while i < a.len() && i < b.len() && a[i] == b[i]
        invariant
            0 <= i <= a.len(),
            i <= b.len(),
            sorts_before(a@, b@) == sorts_before(a@.skip(i as int), b@.skip(i as int)),
        decreases a.len() - i,
    {
        assert(a@.skip(i as int).drop_first() =~= a@.skip(i + 1));
        assert(b@.skip(i as int).drop_first() =~= b@.skip(i + 1));
        i = i + 1;
    }
    assert(a@.skip(i as int).len() == a.len() - i);
    assert(b@.skip(i as int).len() == b.len() - i);
    if i == a.len() {
        i < b.len()
    } else if i == b.len() {
        false
    } else {
        assert(a@.skip(i as int)[0] == a@[i as int]);
        assert(b@.skip(i as int)[0] == b@[i as int]);
        a[i] < b[i]
    }
}

/// An entry that is the justfile: a file with a justfile name.
pub open spec fn is_candidate(e: (Seq<char>, bool)) -> bool {
    e.1 && justfile_name(e.0)
}

/// `n` is the name of a candidate entry and sorts before every other
/// candidate's name.
pub open spec fn is_first_candidate(entries: Seq<(Seq<char>, bool)>, n: Seq<char>) -> bool {
    &&& exists|i: int| 0 <= i < entries.len() && is_candidate(entries[i]) && entries[i].0 == n
    &&& forall|j: int|
        0 <= j < entries.len() && is_candidate(entries[j]) && entries[j].0 != n ==> sorts_before(
            n,
            entries[j].0,
        )
}

/// The justfile among the directory entries `entries` (name, whether it is a
/// file): of the files with a justfile name, the one whose name sorts first.
pub open spec fn chosen_justfile(entries: Seq<(Seq<char>, bool)>) -> Option<Seq<char>> {
    if exists|i: int| 0 <= i < entries.len() && is_candidate(entries[i]) {
        Some(choose|n: Seq<char>| is_first_candidate(entries, n))
    } else {
        None
    }
}

/// The models of directory entries.
pub open spec fn entry_views(v: Seq<(String, bool)>) -> Seq<(Seq<char>, bool)> {
    Seq::new(v.len(), |i: int| (v[i].0@, v[i].1))
}

proof fn lemma_sorts_before_total(a: Seq<char>, b: Seq<char>)
    ensures
        a != b ==> (sorts_before(a, b) || sorts_before(b, a)),
        !(sorts_before(a, b) && sorts_before(b, a)),
    decreases a.len(),
{
    if a.len() > 0 && b.len() > 0 && a[0] == b[0] {
        lemma_sorts_before_total(a.drop_first(), b.drop_first());
        if a != b {
            assert(a =~= seq![a[0]] + a.drop_first());
            assert(b =~= seq![b[0]] + b.drop_first());
        }
    }
    if a.len() == 0 && b.len() == 0 {
        assert(a =~= b);
    }
}

proof fn lemma_sorts_before_trans(a: Seq<char>, b: Seq<char>, c: Seq<char>)
    requires
        sorts_before(a, b),
        sorts_before(b, c),
    ensures
        sorts_before(a, c),
    decreases a.len(),
{
    if a.len() > 0 && b.len() > 0 && c.len() > 0 && a[0] == b[0] && b[0] == c[0] {
        lemma_sorts_before_trans(a.drop_first(), b.drop_first(), c.drop_first());
    }
}

/// Find the justfile among the entries of a directory, given as (name,
/// whether it is a file): of the files with a justfile name, the one whose
/// name sorts first, or `None`.
pub fn choose_justfile(entries: &Vec<(String, bool)>) -> (r: Option<String>)
    ensures
        match r {
            Some(n) => chosen_justfile(entry_views(entries@)) == Some(n@),
            None => chosen_justfile(entry_views(entries@)) is None,
        },
{
    let ghost ev = entry_views(entries@);
    let mut best: Option<usize> = None;
    let mut i: usize = 0;
    while i < entries.len()
        invariant
            0 <= i <= entries.len(),
            ev == entry_views(entries@),
            match best {
                Some(b) => b < i && is_candidate(ev[b as int]) && forall|j: int|
                    0 <= j < i && is_candidate(ev[j]) && ev[j].0 != ev[b as int].0 ==> sorts_before(
                        ev[b as int].0,
                        ev[j].0,
                    ),
                None => forall|j: int| 0 <= j < i ==> !is_candidate(ev[j]),
            },
        decreases entries.len() - i,
    {
        if entries[i].1 && is_justfile_name(entries[i].0.as_str()) {
            assert(is_candidate(ev[i as int]));
            match best {
                None => {
                    best = Some(i);
                },
                Some(b) => {
                    let x = chars_of(entries[i].0.as_str());
                    let y = chars_of(entries[b].0.as_str());
                    if sorts_before_exec(&x, &y) {
                        proof {
                            assert forall|j: int|
                                0 <= j < i + 1 && is_candidate(ev[j]) && ev[j].0 != ev[i as int].0
                                    implies sorts_before(ev[i as int].0, ev[j].0) by {
                                if j < i {
                                    if ev[j].0 != ev[b as int].0 {
                                        lemma_sorts_before_trans(ev[i as int].0, ev[b as int].0, ev[j].0);
                                    }
                                }
                            }
                        }
                        best = Some(i);
                    } else {
                        proof {
                            lemma_sorts_before_total(ev[i as int].0, ev[b as int].0);
                        }
                    }
                },
            }
        }
        i = i + 1;
    }
    match best {
        Some(b) => {
            proof {
                let n = ev[b as int].0;
                assert(exists|k: int| 0 <= k < ev.len() && is_candidate(ev[k]) && ev[k].0 == n);
                assert(is_first_candidate(ev, n));
                let c = choose|c: Seq<char>| is_first_candidate(ev, c);
                let k = choose|k: int| 0 <= k < ev.len() && is_candidate(ev[k]) && ev[k].0 == c;
                if c != n {
                    lemma_sorts_before_total(c, n);
                    assert(sorts_before(c, n));
                    assert(sorts_before(n, ev[k].0));
                }
            }
            Some(crate::text::string_of(&chars_of(entries[b].0.as_str())))
        },
        None => None,
    }
}

/// Which of the directories walked (the start, then each ancestor in turn)
/// holds the first justfile: its position and name.
pub open spec fn first_justfile(listings: Seq<Seq<(Seq<char>, bool)>>, i: int) -> Option<(int, Seq<char>)>
    decreases listings.len() - i,
{
    if i < 0 || i >= listings.len() {
        None
    } else {
        match chosen_justfile(listings[i]) {
            Some(n) => Some((i, n)),
            None => first_justfile(listings, i + 1),
        }
    }
}

/// Find a justfile walking up: given the listings of the start directory and
/// each of its ancestors in order (see `paths::ancestors_of`), the position
/// of the first directory that holds one, and the justfile's name.
pub fn justfile_from(listings: &Vec<Vec<(String, bool)>>) -> (r: Option<(usize, String)>)
    ensures
        match r {
            Some((i, n)) => first_justfile(
                Seq::new(listings@.len(), |k: int| entry_views(listings@[k]@)),
                0,
            ) == Some((i as int, n@)),
            None => first_justfile(
                Seq::new(listings@.len(), |k: int| entry_views(listings@[k]@)),
                0,
            ) is None,
        },
{
    let ghost ls = Seq::new(listings@.len(), |k: int| entry_views(listings@[k]@));
    let mut i: usize = 0;
    while i < listings.len()
        invariant
            0 <= i <= listings.len(),
            ls == Seq::new(listings@.len(), |k: int| entry_views(listings@[k]@)),
            first_justfile(ls, 0) == first_justfile(ls, i as int),
        decreases listings.len() - i,
    {
        assert(ls[i as int] == entry_views(listings@[i as int]@));
        match choose_justfile(&listings[i]) {
            Some(n) => {
                return Some((i, n));
            },
            None => {},
        }
        i = i + 1;
    }
    None
}

proof fn lemma_first_candidate_exists(entries: Seq<(Seq<char>, bool)>)
    requires
        exists|i: int| 0 <= i < entries.len() && is_candidate(entries[i]),
    ensures
        exists|n: Seq<char>| is_first_candidate(entries, n),
    decreases entries.len(),
{
    let d = entries.drop_last();
    let last = entries.last();
    if exists|i: int| 0 <= i < d.len() && is_candidate(d[i]) {
        lemma_first_candidate_exists(d);
        let n0 = choose|n: Seq<char>| is_first_candidate(d, n);
        let i0 = choose|i: int| 0 <= i < d.len() && is_candidate(d[i]) && d[i].0 == n0;
        assert(entries[i0] == d[i0]);
        if is_candidate(last) && last.0 != n0 && !sorts_before(n0, last.0) {
            lemma_sorts_before_total(n0, last.0);
            let m = last.0;
            assert(is_candidate(entries[entries.len() - 1]));
            assert forall|j: int|
                0 <= j < entries.len() && is_candidate(entries[j]) && entries[j].0 != m implies sorts_before(
                m,
                entries[j].0,
            ) by {
                assert(j < d.len());
                assert(entries[j] == d[j]);
                if entries[j].0 != n0 {
                    lemma_sorts_before_trans(m, n0, entries[j].0);
                }
            }
            assert(is_first_candidate(entries, m));
        } else {
            assert forall|j: int|
                0 <= j < entries.len() && is_candidate(entries[j]) && entries[j].0 != n0 implies sorts_before(
                n0,
                entries[j].0,
            ) by {
                if j < d.len() {
                    assert(entries[j] == d[j]);
                }
            }
            assert(is_first_candidate(entries, n0));
        }
    } else {
        let m = last.0;
        assert(is_candidate(last)) by {
            let i = choose|i: int| 0 <= i < entries.len() && is_candidate(entries[i]);
            if i < d.len() {
                assert(entries[i] == d[i]);
            }
        }
        assert(is_candidate(entries[entries.len() - 1]));
        assert forall|j: int|
            0 <= j < entries.len() && is_candidate(entries[j]) && entries[j].0 != m implies sorts_before(
            m,
            entries[j].0,
        ) by {
            if j < d.len() {
                assert(entries[j] == d[j]);
            }
        }
        assert(is_first_candidate(entries, m));
    }
}

/// The justfile chosen in a directory is a file with a justfile name whose
/// name sorts before every other such file's; there is none exactly when
/// the directory holds no such file.
pub proof fn law_chosen_justfile_sorts_first(entries: Seq<(Seq<char>, bool)>)
    ensures
        chosen_justfile(entries) matches Some(n) ==> is_first_candidate(entries, n),
        chosen_justfile(entries) is None <==> forall|i: int|
            0 <= i < entries.len() ==> !#[trigger] is_candidate(entries[i]),
{
    if exists|i: int| 0 <= i < entries.len() && is_candidate(entries[i]) {
        lemma_first_candidate_exists(entries);
    }
}

/// Walking up finds the justfile of the nearest directory that holds one:
/// the directory found holds the chosen justfile, and no directory before
/// it holds any; nothing is found when no directory holds one.
pub proof fn law_nearest_justfile_wins(listings: Seq<Seq<(Seq<char>, bool)>>, i: int)
    requires
        0 <= i <= listings.len(),
    ensures
        first_justfile(listings, i) matches Some((k, n)) ==> i <= k < listings.len()
            && chosen_justfile(listings[k]) == Some(n) && forall|h: int|
            i <= h < k ==> #[trigger] chosen_justfile(listings[h]) is None,
        first_justfile(listings, i) is None ==> forall|h: int|
            i <= h < listings.len() ==> #[trigger] chosen_justfile(listings[h]) is None,
    decreases listings.len() - i,
{
    if i < listings.len() {
        law_nearest_justfile_wins(listings, i + 1);
    }
}

} // verus!
