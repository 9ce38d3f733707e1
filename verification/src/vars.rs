//! Variable tables: string-keyed maps held as vectors of name/value pairs
//! with no name twice.
use vstd::prelude::*;

use crate::v2::ast::{alias_views, aliases_unique};

verus! {

/// The map a list of distinct-named pairs stands for.
pub open spec fn to_map(v: Seq<(Seq<char>, Seq<char>)>) -> Map<Seq<char>, Seq<char>> {
    Map::new(
        |k: Seq<char>| exists|i: int| 0 <= i < v.len() && v[i].0 == k,
        |k: Seq<char>| v[choose|i: int| 0 <= i < v.len() && v[i].0 == k].1,
    )
}

/// The map a table stands for.
pub open spec fn table_map(v: Seq<(String, String)>) -> Map<Seq<char>, Seq<char>> {
    to_map(alias_views(v))
}

/// No name occurs twice in the table.
pub open spec fn table_wf(v: Seq<(String, String)>) -> bool {
    aliases_unique(alias_views(v))
}

pub proof fn lemma_to_map_index(v: Seq<(Seq<char>, Seq<char>)>, i: int)
    requires
        aliases_unique(v),
        0 <= i < v.len(),
    ensures
        to_map(v).contains_key(v[i].0),
        to_map(v)[v[i].0] == v[i].1,
{
    let k = v[i].0;
    assert(exists|j: int| 0 <= j < v.len() && v[j].0 == k);
    let c = choose|j: int| 0 <= j < v.len() && v[j].0 == k;
    assert(c == i);
}

/// The value of `key` in the table, if any.
pub fn table_get<'a>(v: &'a Vec<(String, String)>, key: &str) -> (r: Option<&'a String>)
    requires
        table_wf(v@),
    ensures
        match r {
            Some(val) => table_map(v@).contains_key(key@) && table_map(v@)[key@] == val@,
            None => !table_map(v@).contains_key(key@),
        },
{
    let mut i: usize = 0;
    while i < v.len()
        invariant
            0 <= i <= v.len(),
            table_wf(v@),
            forall|m: int| 0 <= m < i ==> v@[m].0@ != key@,
        decreases v.len() - i,
    {
        if crate::text::str_eq(v[i].0.as_str(), key) {
            proof {
                assert(alias_views(v@)[i as int].0 == key@);
                lemma_to_map_index(alias_views(v@), i as int);
            }
            return Some(&v[i].1);
        }
        i = i + 1;
    }
    proof {
        if table_map(v@).contains_key(key@) {
            let j = choose|j: int| 0 <= j < alias_views(v@).len() && alias_views(v@)[j].0 == key@;
            assert(v@[j].0@ == key@);
        }
    }
    None
}

/// Whether the table has `key`.
pub fn table_contains(v: &Vec<(String, String)>, key: &str) -> (r: bool)
    requires
        table_wf(v@),
    ensures
        r == table_map(v@).contains_key(key@),
{
    table_get(v, key).is_some()
}

/// Set `key` to `value`: replace the existing entry in place, or append.
pub fn table_set(v: &mut Vec<(String, String)>, key: String, value: String)
    requires
        table_wf(old(v)@),
    ensures
        table_wf(final(v)@),
        table_map(final(v)@) == table_map(old(v)@).insert(key@, value@),
{
    let ghost a = alias_views(v@);
    crate::v2::ast::insert_alias(v, key, value);
    proof {
        let b = alias_views(v@);
        let m = to_map(a).insert(key@, value@);
        assert forall|k: Seq<char>| #[trigger] to_map(b).contains_key(k) == m.contains_key(k) by {
            if to_map(b).contains_key(k) {
                let j = choose|j: int| 0 <= j < b.len() && b[j].0 == k;
                if k != key@ {
                    if exists|c: int| 0 <= c < a.len() && a[c].0 == key@ {
                        let c = choose|c: int| 0 <= c < a.len() && a[c].0 == key@;
                        assert(b == a.update(c, (key@, value@)));
                        assert(j != c);
                        assert(a[j].0 == k);
                    } else {
                        assert(b == a.push((key@, value@)));
                        assert(a[j].0 == k);
                    }
                }
            }
            if m.contains_key(k) && k != key@ {
                let j = choose|j: int| 0 <= j < a.len() && a[j].0 == k;
                if exists|c: int| 0 <= c < a.len() && a[c].0 == key@ {
                    let c = choose|c: int| 0 <= c < a.len() && a[c].0 == key@;
                    assert(b == a.update(c, (key@, value@)));
                    assert(b[j].0 == k);
                } else {
                    assert(b[j].0 == k);
                }
            }
            if k == key@ {
                if exists|c: int| 0 <= c < a.len() && a[c].0 == key@ {
                    let c = choose|c: int| 0 <= c < a.len() && a[c].0 == key@;
                    assert(b[c].0 == k);
                } else {
                    assert(b[a.len() as int].0 == k);
                }
            }
        }
        assert forall|k: Seq<char>| #[trigger] to_map(b).contains_key(k) implies to_map(b)[k]
            == m[k] by {
            let j = choose|j: int| 0 <= j < b.len() && b[j].0 == k;
            lemma_to_map_index(b, j);
            if k == key@ {
                if exists|c: int| 0 <= c < a.len() && a[c].0 == key@ {
                    let c = choose|c: int| 0 <= c < a.len() && a[c].0 == key@;
                    assert(b == a.update(c, (key@, value@)));
                    assert(j == c);
                } else {
                    assert(b == a.push((key@, value@)));
                    assert(j == a.len());
                }
            } else {
                if exists|c: int| 0 <= c < a.len() && a[c].0 == key@ {
                    let c = choose|c: int| 0 <= c < a.len() && a[c].0 == key@;
                    assert(b == a.update(c, (key@, value@)));
                    assert(a[j] == b[j]);
                } else {
                    assert(b == a.push((key@, value@)));
                    assert(a[j] == b[j]);
                }
                lemma_to_map_index(a, j);
            }
        }
        assert(to_map(b) =~= m);
    }
}

/// Remove `key` from the table, if it is there.
pub fn table_remove(v: &mut Vec<(String, String)>, key: &str)
    requires
        table_wf(old(v)@),
    ensures
        table_wf(final(v)@),
        table_map(final(v)@) == table_map(old(v)@).remove(key@),
{
    let ghost a = alias_views(v@);
    let mut i: usize = 0;
    while i < v.len()
        invariant
            0 <= i <= v.len(),
            a == alias_views(v@),
            a == alias_views(old(v)@),
            aliases_unique(a),
            forall|m: int| 0 <= m < i ==> a[m].0 != key@,
        decreases v.len() - i,
    {
        if crate::text::str_eq(v[i].0.as_str(), key) {
            assert(a[i as int].0 == key@);
            v.remove(i);
            proof {
                let b = alias_views(v@);
                assert(b =~= a.remove(i as int));
                assert forall|x: int, y: int|
                    0 <= x < b.len() && 0 <= y < b.len() && x != y implies b[x].0 != b[y].0 by {
                    let xa = if x < i {
                        x
                    } else {
                        x + 1
                    };
                    let ya = if y < i {
                        y
                    } else {
                        y + 1
                    };
                    assert(b[x] == a[xa]);
                    assert(b[y] == a[ya]);
                }
                let m = to_map(a).remove(key@);
                assert forall|k: Seq<char>| #[trigger] to_map(b).contains_key(k) == m.contains_key(
                    k,
                ) by {
                    if to_map(b).contains_key(k) {
                        let j = choose|j: int| 0 <= j < b.len() && b[j].0 == k;
                        let ja = if j < i {
                            j
                        } else {
                            j + 1
                        };
                        assert(b[j] == a[ja]);
                        assert(ja != i);
                        assert(a[ja].0 == k);
                        assert(k != key@);
                        assert(to_map(a).contains_key(k));
                    }
                    if m.contains_key(k) {
                        let j = choose|j: int| 0 <= j < a.len() && a[j].0 == k;
                        assert(j != i);
                        let jb = if j < i {
                            j
                        } else {
                            j - 1
                        };
                        assert(b[jb] == a[j]);
                    }
                }
                assert forall|k: Seq<char>| #[trigger] to_map(b).contains_key(k) implies to_map(
                    b,
                )[k] == m[k] by {
                    let j = choose|j: int| 0 <= j < b.len() && b[j].0 == k;
                    lemma_to_map_index(b, j);
                    let ja = if j < i {
                        j
                    } else {
                        j + 1
                    };
                    assert(b[j] == a[ja]);
                    lemma_to_map_index(a, ja);
                }
                assert(to_map(b) =~= m);
            }
            return ;
        }
        i = i + 1;
    }
    proof {
        assert(!to_map(a).contains_key(key@));
        assert(to_map(a).remove(key@) =~= to_map(a));
    }
}

/// A copy of a table.
pub fn table_clone(v: &Vec<(String, String)>) -> (r: Vec<(String, String)>)
    ensures
        alias_views(r@) == alias_views(v@),
{
    let mut r: Vec<(String, String)> = Vec::new();
    let mut i: usize = 0;
    while i < v.len()
        invariant
            0 <= i <= v.len(),
            r@.len() == i,
            forall|k: int| 0 <= k < i ==> (#[trigger] r@[k]).0@ == v@[k].0@ && r@[k].1@ == v@[k].1@,
        decreases v.len() - i,
    {
        r.push((v[i].0.clone(), v[i].1.clone()));
        i = i + 1;
    }
    assert(alias_views(r@) =~= alias_views(v@));
    r
}

} // verus!
