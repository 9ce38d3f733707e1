//! Command-line decisions of the V2 engine: folder-scoped recipe arguments
//! and which recipe an invocation runs.
use vstd::prelude::*;

use crate::dispatch::{spec_split_folder_argument, split_folder_argument};
use crate::text::{chars_of, string_of, string_views};
use crate::v2::ast::Justfile;
use crate::v2::executor::copy_strings;

verus! {

/// Split a `<folder>/<recipe>` argument into its directory and recipe parts.
///
/// Returns `None` when there is no argument, or it has no `/` (a plain
/// recipe name) or an empty folder part.
pub fn split_folder_recipe(argument: Option<&str>) -> (r: Option<(String, String)>)
    ensures
        match argument {
            None => r is None,
            Some(a) => match r {
                Some((d, rc)) => spec_split_folder_argument(a@) == Some((d@, rc@)),
                None => spec_split_folder_argument(a@) is None,
            },
        },
{
    match argument {
        Some(a) => split_folder_argument(a),
        None => None,
    }
}

/// The arguments once a folder-scoped first argument is resolved: with an
/// empty recipe part (`<folder>/`) the argument is dropped so the folder's
/// default recipe runs; otherwise it is replaced by the recipe part.
pub fn folder_arguments(arguments: &Vec<String>, recipe: &str) -> (r: Vec<String>)
    requires
        arguments.len() > 0,
    ensures
        recipe@.len() == 0 ==> string_views(r@) == string_views(arguments@).drop_first(),
        recipe@.len() > 0 ==> string_views(r@) == string_views(arguments@).update(0, recipe@),
{
    let mut out = copy_strings(arguments);
    let ghost v = string_views(out@);
    assert(out.len() == string_views(out@).len());
    let rc = chars_of(recipe);
    if rc.len() == 0 {
        out.remove(0);
        assert(string_views(out@) =~= v.drop_first());
    } else {
        out.set(0, string_of(&rc));
        assert(string_views(out@) =~= v.update(0, recipe@));
    }
    out
}

/// The recipe an invocation runs and its arguments: the first argument and
/// the rest, or, with no arguments, the justfile's first recipe with none;
/// `None` when there are neither arguments nor recipes.
pub fn recipe_invocation(justfile: &Justfile, arguments: &Vec<String>) -> (r: Option<
    (String, Vec<String>),
>)
    ensures
        arguments.len() > 0 ==> (r matches Some((name, args)) && name@ == arguments@[0]@
            && string_views(args@) == string_views(arguments@).drop_first()),
        arguments.len() == 0 && justfile.recipes.len() > 0 ==> (r matches Some((name, args))
            && name@ == justfile.recipes@[0].name@ && args.len() == 0),
        arguments.len() == 0 && justfile.recipes.len() == 0 ==> r is None,
{
    if arguments.len() > 0 {
        let mut rest = copy_strings(arguments);
        let ghost v = string_views(rest@);
        assert(rest.len() == string_views(rest@).len());
        rest.remove(0);
        assert(string_views(rest@) =~= v.drop_first());
        Some((string_of(&chars_of(arguments[0].as_str())), rest))
    } else if justfile.recipes.len() > 0 {
        Some((string_of(&chars_of(justfile.recipes[0].name.as_str())), Vec::new()))
    } else {
        None
    }
}

/// `<folder>/<recipe>` names the recipe in that folder: for a non-empty
/// folder and a recipe part without `/` (possibly empty, for the folder's
/// default recipe), the argument splits back into exactly those parts.
pub proof fn law_folder_argument_splits(folder: Seq<char>, recipe: Seq<char>)
    requires
        folder.len() > 0,
        !recipe.contains('/'),
    ensures
        spec_split_folder_argument(folder + seq!['/'] + recipe) == Some((folder, recipe)),
{
    let s = folder + seq!['/'] + recipe;
    let n = folder.len() as int;
    assert(s[n] == '/');
    let k = choose|k: int| 0 <= k < s.len() && s[k] == '/' && forall|m: int| k < m < s.len() ==> s[m] != '/';
    if k > n {
        assert(recipe[k - n - 1] == s[k]);
        assert(recipe.contains('/'));
    }
    if k < n {
        assert(s[n] == '/');
    }
    assert(s.subrange(0, n) =~= folder);
    assert(s.subrange(n + 1, s.len() as int) =~= recipe);
}

} // verus!
