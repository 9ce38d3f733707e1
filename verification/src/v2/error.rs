//! The V2 engine's errors.
use vstd::prelude::*;

verus! {

/// Everything that can go wrong reading or running a V2 justfile.
#[derive(Debug)]
pub enum Error {
    /// A line the parser does not understand.
    Parse { line: usize, message: String },
    /// No recipe or alias has this name.
    RecipeNotFound(String),
    /// A required parameter got no argument.
    MissingArgument(String),
    /// A command or recipe exited unsuccessfully, with this exit code.
    RecipeFailed(String, i32),
    /// A command could not be started.
    ExecFailed(String),
    /// No justfile was found searching up from the working directory.
    NoJustfile,
    /// A folder named on the command line holds no justfile.
    NoJustfileInDir(String),
    /// A justfile could not be read.
    ReadFailed { path: String, message: String },
    /// A recipe depends on itself, directly or through others.
    CircularDependency(String),
}

/// The model of an [`Error`]: the same variants over character sequences.
pub enum ErrorModel {
    Parse { line: usize, message: Seq<char> },
    RecipeNotFound(Seq<char>),
    MissingArgument(Seq<char>),
    RecipeFailed(Seq<char>, i32),
    ExecFailed(Seq<char>),
    NoJustfile,
    NoJustfileInDir(Seq<char>),
    ReadFailed { path: Seq<char>, message: Seq<char> },
    CircularDependency(Seq<char>),
}

impl View for Error {
    type V = ErrorModel;

    open spec fn view(&self) -> ErrorModel {
        match self {
            Error::Parse { line, message } => ErrorModel::Parse { line: *line, message: message@ },
            Error::RecipeNotFound(n) => ErrorModel::RecipeNotFound(n@),
            Error::MissingArgument(n) => ErrorModel::MissingArgument(n@),
            Error::RecipeFailed(n, c) => ErrorModel::RecipeFailed(n@, *c),
            Error::ExecFailed(m) => ErrorModel::ExecFailed(m@),
            Error::NoJustfile => ErrorModel::NoJustfile,
            Error::NoJustfileInDir(d) => ErrorModel::NoJustfileInDir(d@),
            Error::ReadFailed { path, message } => ErrorModel::ReadFailed {
                path: path@,
                message: message@,
            },
            Error::CircularDependency(n) => ErrorModel::CircularDependency(n@),
        }
    }
}

/// The model of an optional error.
pub open spec fn opt_error(e: Option<Error>) -> Option<ErrorModel> {
    match e {
        Some(e) => Some(e@),
        None => None,
    }
}

} // verus!
