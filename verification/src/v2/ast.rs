//! The V2 justfile syntax tree, and its mathematical model.
use vstd::prelude::*;

verus! {

/// A complete justfile.
#[derive(Debug)]
pub struct Justfile {
    /// Settings like `set dotenv`, `set export`.
    pub settings: Settings,
    /// Top-level exports.
    pub exports: Vec<Export>,
    /// Recipe definitions.
    pub recipes: Vec<Recipe>,
    /// Aliases, alias name first, each name once, in order of first
    /// definition.
    pub aliases: Vec<(String, String)>,
}

/// Parsed settings from `set` statements.
#[derive(Debug)]
pub struct Settings {
    /// Force next mode.
    pub next: bool,
    /// Load .env files (default: true).
    pub dotenv: bool,
    /// Custom dotenv path.
    pub dotenv_path: Option<String>,
    /// Export all variables (default: true).
    pub export: bool,
    /// Enable positional arguments (default: true).
    pub positional_arguments: bool,
    /// Custom venv path.
    pub venv: Option<String>,
    /// Shell to use.
    pub shell: Option<Vec<String>>,
}

/// Export statement: `export PATH="..."`.
#[derive(Debug)]
pub struct Export {
    pub name: String,
    pub value: String,
}

/// A recipe definition.
#[derive(Debug)]
pub struct Recipe {
    pub name: String,
    pub doc: Option<String>,
    pub parameters: Vec<Parameter>,
    pub dependencies: Vec<Dependency>,
    pub body: Vec<Line>,
    /// Whether the recipe runs in quiet mode (`@`).
    pub quiet: bool,
    /// Shebang if present (`#!/bin/bash`).
    pub shebang: Option<String>,
}

/// A recipe parameter.
#[derive(Debug)]
pub struct Parameter {
    pub name: String,
    pub kind: ParameterKind,
    pub default: Option<String>,
}

/// How a parameter takes arguments.
#[derive(Debug, Clone, Copy, PartialEq, Eq, Structural)]
pub enum ParameterKind {
    /// Regular parameter.
    Normal,
    /// Variadic (`*args`).
    Variadic,
    /// Plus variadic (`+args`): requires at least one.
    PlusVariadic,
}

/// A recipe dependency.
#[derive(Debug)]
pub struct Dependency {
    pub recipe: String,
    pub arguments: Vec<String>,
}

/// A line in a recipe body.
#[derive(Debug)]
pub enum Line {
    /// Regular command.
    Command(Command),
    /// Variable assignment within the recipe: `FOO=bar`.
    Assignment { name: String, value: String },
    /// Export within the recipe: `export FOO=bar`.
    Export { name: String, value: String },
}

/// A command line.
#[derive(Debug)]
pub struct Command {
    /// The raw command text.
    pub text: String,
    /// Quiet (`@`) prefix.
    pub quiet: bool,
    /// Error suppression (`-`) prefix.
    pub ignore_errors: bool,
}

// ---------------------------------------------------------------------------
// Models
// ---------------------------------------------------------------------------
/// The model of [`Settings`].
pub struct SettingsModel {
    pub next: bool,
    pub dotenv: bool,
    pub dotenv_path: Option<Seq<char>>,
    pub export: bool,
    pub positional_arguments: bool,
    pub venv: Option<Seq<char>>,
    pub shell: Option<Seq<Seq<char>>>,
}

/// The model of [`Export`].
pub struct ExportModel {
    pub name: Seq<char>,
    pub value: Seq<char>,
}

/// The model of [`Parameter`].
pub struct ParameterModel {
    pub name: Seq<char>,
    pub kind: ParameterKind,
    pub default: Option<Seq<char>>,
}

/// The model of [`Dependency`].
pub struct DependencyModel {
    pub recipe: Seq<char>,
    pub arguments: Seq<Seq<char>>,
}

/// The model of [`Line`].
pub enum LineModel {
    Command { text: Seq<char>, quiet: bool, ignore_errors: bool },
    Assignment { name: Seq<char>, value: Seq<char> },
    Export { name: Seq<char>, value: Seq<char> },
}

/// The model of [`Recipe`].
pub struct RecipeModel {
    pub name: Seq<char>,
    pub doc: Option<Seq<char>>,
    pub parameters: Seq<ParameterModel>,
    pub dependencies: Seq<DependencyModel>,
    pub body: Seq<LineModel>,
    pub quiet: bool,
    pub shebang: Option<Seq<char>>,
}

/// The model of [`Justfile`].
pub struct JustfileModel {
    pub settings: SettingsModel,
    pub exports: Seq<ExportModel>,
    pub recipes: Seq<RecipeModel>,
    pub aliases: Seq<(Seq<char>, Seq<char>)>,
}

/// The characters of an optional string.
pub open spec fn opt_view(o: Option<String>) -> Option<Seq<char>> {
    match o {
        Some(s) => Some(s@),
        None => None,
    }
}

/// The characters of each string of an optional list.
pub open spec fn opt_list_view(o: Option<Vec<String>>) -> Option<Seq<Seq<char>>> {
    match o {
        Some(v) => Some(Seq::new(v@.len(), |i: int| v@[i]@)),
        None => None,
    }
}

impl View for Settings {
    type V = SettingsModel;

    open spec fn view(&self) -> SettingsModel {
        SettingsModel {
            next: self.next,
            dotenv: self.dotenv,
            dotenv_path: opt_view(self.dotenv_path),
            export: self.export,
            positional_arguments: self.positional_arguments,
            venv: opt_view(self.venv),
            shell: opt_list_view(self.shell),
        }
    }
}

impl View for Export {
    type V = ExportModel;

    open spec fn view(&self) -> ExportModel {
        ExportModel { name: self.name@, value: self.value@ }
    }
}

impl View for Parameter {
    type V = ParameterModel;

    open spec fn view(&self) -> ParameterModel {
        ParameterModel { name: self.name@, kind: self.kind, default: opt_view(self.default) }
    }
}

impl View for Dependency {
    type V = DependencyModel;

    open spec fn view(&self) -> DependencyModel {
        DependencyModel {
            recipe: self.recipe@,
            arguments: Seq::new(self.arguments@.len(), |i: int| self.arguments@[i]@),
        }
    }
}

impl View for Line {
    type V = LineModel;

    open spec fn view(&self) -> LineModel {
        match self {
            Line::Command(c) => LineModel::Command {
                text: c.text@,
                quiet: c.quiet,
                ignore_errors: c.ignore_errors,
            },
            Line::Assignment { name, value } => LineModel::Assignment {
                name: name@,
                value: value@,
            },
            Line::Export { name, value } => LineModel::Export { name: name@, value: value@ },
        }
    }
}

/// The models of a sequence of viewable values.
pub open spec fn models<T: View>(v: Seq<T>) -> Seq<T::V> {
    Seq::new(v.len(), |i: int| v[i]@)
}

impl View for Recipe {
    type V = RecipeModel;

    open spec fn view(&self) -> RecipeModel {
        RecipeModel {
            name: self.name@,
            doc: opt_view(self.doc),
            parameters: models(self.parameters@),
            dependencies: models(self.dependencies@),
            body: models(self.body@),
            quiet: self.quiet,
            shebang: opt_view(self.shebang),
        }
    }
}

impl View for Justfile {
    type V = JustfileModel;

    open spec fn view(&self) -> JustfileModel {
        JustfileModel {
            settings: self.settings@,
            exports: models(self.exports@),
            recipes: models(self.recipes@),
            aliases: alias_views(self.aliases@),
        }
    }
}

/// The name/target character sequences of a list of aliases.
pub open spec fn alias_views(v: Seq<(String, String)>) -> Seq<(Seq<char>, Seq<char>)> {
    Seq::new(v.len(), |i: int| (v[i].0@, v[i].1@))
}

/// The settings of a justfile with no `set` statements.
pub open spec fn default_settings() -> SettingsModel {
    SettingsModel {
        next: false,
        dotenv: true,
        dotenv_path: None,
        export: true,
        positional_arguments: true,
        venv: None,
        shell: None,
    }
}

impl Settings {
    /// The settings of a justfile with no `set` statements: dotenv loading,
    /// exporting and positional arguments on, nothing else set.
    pub fn new() -> (r: Settings)
        ensures
            r@ == default_settings(),
    {
        Settings {
            next: false,
            dotenv: true,
            dotenv_path: None,
            export: true,
            positional_arguments: true,
            venv: None,
            shell: None,
        }
    }
}

impl Default for Settings {
    fn default() -> (r: Settings)
        ensures
            r@ == default_settings(),
    {
        Settings::new()
    }
}

/// An empty justfile.
pub open spec fn empty_justfile() -> JustfileModel {
    JustfileModel {
        settings: default_settings(),
        exports: seq![],
        recipes: seq![],
        aliases: seq![],
    }
}

impl Justfile {
    /// An empty justfile with default settings.
    pub fn new() -> (r: Justfile)
        ensures
            r@ == empty_justfile(),
    {
        let r = Justfile {
            settings: Settings::new(),
            exports: Vec::new(),
            recipes: Vec::new(),
            aliases: Vec::new(),
        };
        assert(r@.exports =~= seq![]);
        assert(r@.recipes =~= seq![]);
        assert(r@.aliases =~= seq![]);
        r
    }
}

impl Default for Justfile {
    fn default() -> (r: Justfile)
        ensures
            r@ == empty_justfile(),
    {
        Justfile::new()
    }
}

/// No alias name occurs twice.
pub open spec fn aliases_unique(aliases: Seq<(Seq<char>, Seq<char>)>) -> bool {
    forall|i: int, j: int|
        0 <= i < aliases.len() && 0 <= j < aliases.len() && i != j ==> aliases[i].0
            != aliases[j].0
}

/// `aliases` with `name` mapped to `target`: the existing entry replaced in
/// place, or a new entry appended.
pub open spec fn alias_insert(
    aliases: Seq<(Seq<char>, Seq<char>)>,
    name: Seq<char>,
    target: Seq<char>,
) -> Seq<(Seq<char>, Seq<char>)> {
    if exists|k: int| 0 <= k < aliases.len() && aliases[k].0 == name {
        let k = choose|k: int| 0 <= k < aliases.len() && aliases[k].0 == name;
        aliases.update(k, (name, target))
    } else {
        aliases.push((name, target))
    }
}

/// Map `name` to `target` in `aliases`: replace the existing entry in place,
/// or append a new one.
pub fn insert_alias(aliases: &mut Vec<(String, String)>, name: String, target: String)
    requires
        aliases_unique(alias_views(old(aliases)@)),
    ensures
        alias_views(final(aliases)@) == alias_insert(alias_views(old(aliases)@), name@, target@),
        aliases_unique(alias_views(final(aliases)@)),
{
    let ghost a = alias_views(aliases@);
    let mut k: usize = 0;
    while k < aliases.len()
        invariant
            0 <= k <= aliases.len(),
            a == alias_views(aliases@),
            a == alias_views(old(aliases)@),
            aliases_unique(a),
            forall|m: int| 0 <= m < k ==> a[m].0 != name@,
        decreases aliases.len() - k,
    {
        if aliases[k].0 == name {
            proof {
                assert(a[k as int].0 == name@);
                let c = choose|c: int| 0 <= c < a.len() && a[c].0 == name@;
                assert(c == k);
            }
            aliases.set(k, (name, target));
            proof {
                assert(alias_views(aliases@) =~= a.update(k as int, (name@, target@)));
            }
            return ;
        }
        k = k + 1;
    }
    aliases.push((name, target));
    proof {
        assert(!exists|c: int| 0 <= c < a.len() && a[c].0 == name@);
        assert(alias_views(aliases@) =~= a.push((name@, target@)));
    }
}

} // verus!
