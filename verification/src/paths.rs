//! Unix path text: joining and taking parents, for paths made of plain
//! components (no `.` or `..`).
use vstd::prelude::*;

use crate::text::{chars_of, concat_chars, slice, string_of};

verus! {

/// `base` joined with `rel` as `Path::join` does on Unix: an absolute `rel`
/// replaces `base`, otherwise a `/` separates them unless `base` is empty or
/// already ends with one.
pub open spec fn join(base: Seq<char>, rel: Seq<char>) -> Seq<char> {
    if rel.len() > 0 && rel[0] == '/' {
        rel
    } else if base.len() == 0 {
        rel
    } else if base.last() == '/' {
        base + rel
    } else {
        base + seq!['/'] + rel
    }
}

/// `base` joined with `rel`.
pub fn join_path(base: &str, rel: &str) -> (r: String)
    ensures
        r@ == join(base@, rel@),
{
    let b = chars_of(base);
    let mut rl = chars_of(rel);
    if rl.len() > 0 && rl[0] == '/' {
        return string_of(&rl);
    }
    if b.len() == 0 {
        return string_of(&rl);
    }
    if b[b.len() - 1] == '/' {
        return string_of(&concat_chars(&b, &rl));
    }
    let mut sep = b.clone();
    sep.push('/');
    let r = concat_chars(&sep, &rl);
    assert(r@ =~= b@ + seq!['/'] + rl@);
    string_of(&r)
}

/// The index just past the last character of `p` that is not a trailing `/`.
pub open spec fn trailing_slashes_start(p: Seq<char>, j: int) -> int
    decreases j,
{
    if 0 < j <= p.len() && p[j - 1] == '/' {
        trailing_slashes_start(p, j - 1)
    } else {
        j
    }
}

proof fn lemma_trailing(p: Seq<char>, j: int)
    requires
        0 <= j <= p.len(),
    ensures
        0 <= trailing_slashes_start(p, j) <= j,
        forall|k: int| trailing_slashes_start(p, j) <= k < j ==> p[k] == '/',
        trailing_slashes_start(p, j) > 0 ==> p[trailing_slashes_start(p, j) - 1] != '/',
    decreases j,
{
    if 0 < j && p[j - 1] == '/' {
        lemma_trailing(p, j - 1);
    }
}

/// `p` without trailing `/`s.
pub open spec fn strip_trailing(p: Seq<char>) -> Seq<char> {
    p.subrange(0, trailing_slashes_start(p, p.len() as int))
}

/// The index of the last `/` before `j`, if any.
pub open spec fn last_slash_before(p: Seq<char>, j: int) -> int
    decreases j,
{
    if j <= 0 || j > p.len() {
        -1
    } else if p[j - 1] == '/' {
        j - 1
    } else {
        last_slash_before(p, j - 1)
    }
}

proof fn lemma_last_slash(p: Seq<char>, j: int)
    requires
        0 <= j <= p.len(),
    ensures
        -1 <= last_slash_before(p, j) < j,
        last_slash_before(p, j) >= 0 ==> p[last_slash_before(p, j)] == '/',
    decreases j,
{
    if j > 0 && p[j - 1] != '/' {
        lemma_last_slash(p, j - 1);
    }
}

/// The parent of `p`, as `Path::parent` gives it for paths of plain
/// components: `None` for the root and the empty path, `""` for a single
/// relative component.
pub open spec fn parent(p: Seq<char>) -> Option<Seq<char>> {
    let t = strip_trailing(p);
    if t.len() == 0 {
        None
    } else {
        let k = last_slash_before(t, t.len() as int);
        if k < 0 {
            Some(seq![])
        } else {
            let d = strip_trailing(t.subrange(0, k));
            if d.len() == 0 {
                Some(seq!['/'])
            } else {
                Some(d)
            }
        }
    }
}

pub proof fn lemma_parent_shorter(p: Seq<char>)
    ensures
        parent(p) matches Some(q) ==> q.len() < p.len(),
{
    let t = strip_trailing(p);
    lemma_trailing(p, p.len() as int);
    if t.len() > 0 {
        let k = last_slash_before(t, t.len() as int);
        lemma_last_slash(t, t.len() as int);
        if k >= 0 {
            let d0 = t.subrange(0, k);
            lemma_trailing(d0, d0.len() as int);
            if strip_trailing(d0).len() == 0 {
                assert(t.len() >= 2 || t.len() == 1);
                if t.len() == 1 {
                    assert(t[0] == '/');
                    assert(p[0] == '/');
                    assert(trailing_slashes_start(p, p.len() as int) > 0 ==> p[0] != '/');
                }
            }
        }
    }
}

fn strip_trailing_exec(p: &Vec<char>) -> (r: Vec<char>)
    ensures
        r@ == strip_trailing(p@),
{
    let mut j = p.len();
    while j > 0 && p[j - 1] == '/'
        invariant
            0 <= j <= p.len(),
            trailing_slashes_start(p@, p@.len() as int) == trailing_slashes_start(p@, j as int),
        decreases j,
    {
        j = j - 1;
    }
    slice(p, 0, j)
}

/// The parent of `p`.
pub fn parent_path(p: &str) -> (r: Option<String>)
    ensures
        r matches Some(q) ==> parent(p@) == Some(q@),
        r is None ==> parent(p@) is None,
{
    let v = chars_of(p);
    let t = strip_trailing_exec(&v);
    if t.len() == 0 {
        return None;
    }
    let mut j = t.len();
    while j > 0 && t[j - 1] != '/'
        invariant
            0 <= j <= t.len(),
            last_slash_before(t@, t@.len() as int) == last_slash_before(t@, j as int),
        decreases j,
    {
        j = j - 1;
    }
    if j == 0 {
        let e: Vec<char> = Vec::new();
        assert(e@ =~= seq![]);
        return Some(string_of(&e));
    }
    let d0 = slice(&t, 0, j - 1);
    let d = strip_trailing_exec(&d0);
    if d.len() == 0 {
        let root = vec!['/'];
        assert(root@ =~= seq!['/']);
        Some(string_of(&root))
    } else {
        Some(string_of(&d))
    }
}

/// `dir` and its ancestors, nearest first.
pub open spec fn ancestors(dir: Seq<char>) -> Seq<Seq<char>>
    decreases dir.len(),
{
    match parent(dir) {
        Some(q) => {
            proof {
                lemma_parent_shorter(dir);
            }
            seq![dir] + ancestors(q)
        },
        None => seq![dir],
    }
}

/// `dir` and its ancestors, nearest first.
pub fn ancestors_of(dir: &str) -> (r: Vec<String>)
    ensures
        crate::text::string_views(r@) == ancestors(dir@),
{
    let mut r: Vec<String> = Vec::new();
    let mut cur = dir.to_owned();
    loop
        invariant
            crate::text::string_views(r@) + ancestors(cur@) == ancestors(dir@),
        decreases cur@.len(),
    {
        let ghost old_r = crate::text::string_views(r@);
        let ghost c = cur@;
        let next = parent_path(cur.as_str());
        r.push(cur);
        assert(crate::text::string_views(r@) =~= old_r.push(c));
        match next {
            Some(q) => {
                proof {
                    lemma_parent_shorter(c);
                    assert(ancestors(c) == seq![c] + ancestors(q@));
                    assert(crate::text::string_views(r@) + ancestors(q@) =~= old_r + ancestors(c));
                }
                cur = q;
            },
            None => {
                assert(crate::text::string_views(r@) =~= old_r + ancestors(c));
                return r;
            },
        }
    }
}

} // verus!
