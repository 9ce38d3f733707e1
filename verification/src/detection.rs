//! The coarse justfile style check: explicit `set next`, else any legacy
//! pattern anywhere in the text.
use vstd::prelude::*;

use crate::text::{chars_of, contains, contains_str};

verus! {

/// Style of justfile detected.
#[derive(Debug, Clone, Copy, PartialEq, Eq, Structural)]
pub enum JustfileStyle {
    /// Old just syntax detected.
    Legacy,
    /// Next style.
    Next,
}

/// Whether `content` holds a pattern that indicates legacy just syntax:
/// `:=` assignments, built-in functions, conditionals, `error(`, old setting
/// names, imports and modules.
pub open spec fn has_legacy_pattern(c: Seq<char>) -> bool {
    contains(c, ":="@) || contains(c, "env_var("@) || contains(c, "env_var_or_default("@)
        || contains(c, "env("@) || contains(c, "invocation_directory("@) || contains(
        c,
        "justfile("@,
    ) || contains(c, "justfile_directory("@) || contains(c, "just_executable("@) || contains(
        c,
        "source_directory("@,
    ) || contains(c, "source_file("@) || contains(c, "if "@) || contains(c, "else "@)
        || contains(c, "error("@) || contains(c, "dotenv-load"@) || contains(c, "set fallback"@)
        || contains(c, "set ignore-comments"@) || contains(c, "set allow-duplicate-recipes"@)
        || contains(c, "set tempdir"@) || contains(c, "set windows-powershell"@) || contains(
        c,
        "set windows-shell"@,
    ) || contains(c, "import "@) || contains(c, "mod "@)
}

/// The style [`detect_style`] reports for `content`.
pub open spec fn spec_detect_style(c: Seq<char>) -> JustfileStyle {
    if contains(c, "set next"@) {
        JustfileStyle::Next
    } else if has_legacy_pattern(c) {
        JustfileStyle::Legacy
    } else {
        JustfileStyle::Next
    }
}

/// Detect the style of a justfile.
pub fn detect_style(content: &str) -> (r: JustfileStyle)
    ensures
        r == spec_detect_style(content@),
{
    let c = chars_of(content);
    if contains_str(&c, "set next") {
        return JustfileStyle::Next;
    }
    let legacy = contains_str(&c, ":=") || contains_str(&c, "env_var(") || contains_str(
        &c,
        "env_var_or_default(",
    ) || contains_str(&c, "env(") || contains_str(&c, "invocation_directory(") || contains_str(
        &c,
        "justfile(",
    ) || contains_str(&c, "justfile_directory(") || contains_str(&c, "just_executable(")
        || contains_str(&c, "source_directory(") || contains_str(&c, "source_file(")
        || contains_str(&c, "if ") || contains_str(&c, "else ") || contains_str(&c, "error(")
        || contains_str(&c, "dotenv-load") || contains_str(&c, "set fallback") || contains_str(
        &c,
        "set ignore-comments",
    ) || contains_str(&c, "set allow-duplicate-recipes") || contains_str(&c, "set tempdir")
        || contains_str(&c, "set windows-powershell") || contains_str(&c, "set windows-shell")
        || contains_str(&c, "import ") || contains_str(&c, "mod ");
    if legacy {
        JustfileStyle::Legacy
    } else {
        JustfileStyle::Next
    }
}

} // verus!
