use vstd::prelude::*;

verus! {

/// The command line of the searcher: what to search for, where, and how to
/// show what was found.
pub struct Args {
    /// Pattern to search for.
    pub target: String,
    /// Files or directories to search in.
    pub directory: Vec<String>,
    /// Stop searching a file once this many lines were selected.
    pub max_count: Option<usize>,
    /// Match whole words only.
    pub whole: bool,
    /// Ignore ASCII case.
    pub insensitive: bool,
    /// Descend into subdirectories.
    pub recursive: bool,
    /// Show line numbers.
    pub line_numbers: bool,
    /// Show the number of selected lines.
    pub count: bool,
    /// Show only the matched part of a line.
    pub only: bool,
    /// Select the lines that do not match.
    pub invert: bool,
    /// Show only the files with at least one selected line.
    pub files_with_matches: bool,
    /// Show only the files without a selected line.
    pub files_without_matches: bool,
    /// Show nothing for files with a selected line.
    pub quiet: bool,
    /// Lines of context before and after a selected line.
    pub context: Option<usize>,
    /// Lines of context before a selected line.
    pub before_context: Option<usize>,
    /// Lines of context after a selected line.
    pub after_context: Option<usize>,
}

/// How many lines around a selected line are shown.
#[derive(Debug, Clone, Copy, PartialEq, Eq, Structural)]
pub enum Context {
    /// This many lines before and after.
    Full(usize),
    /// This many lines after.
    Right(usize),
    /// This many lines before.
    Left(usize),
}

/// The options that decide which lines of one file are selected.
#[derive(Debug, Clone, Copy, PartialEq, Eq, Structural)]
pub struct PossibleArgs {
    pub whole: bool,
    pub insensitive: bool,
    pub only: bool,
    pub invert: bool,
    pub max_count: Option<usize>,
    pub context: Option<Context>,
}

impl Default for PossibleArgs {
    /// Substring search, case sensitive, whole lines, no cap, no context.
    fn default() -> (r: Self)
        ensures
            r == (PossibleArgs {
                whole: false,
                insensitive: false,
                only: false,
                invert: false,
                max_count: None,
                context: None,
            }),
    {
        Self {
            whole: false,
            insensitive: false,
            only: false,
            invert: false,
            max_count: None,
            context: None,
        }
    }
}

impl PossibleArgs {
    /// Whole words, any case, only the matched word, at most `count` lines.
    pub fn all_only_args(count: usize) -> (r: Self)
        ensures
            r == (PossibleArgs {
                whole: true,
                insensitive: true,
                only: true,
                invert: false,
                max_count: Some(count),
                context: None,
            }),
    {
        Self {
            whole: true,
            insensitive: true,
            only: true,
            invert: false,
            max_count: Some(count),
            context: None,
        }
    }

    /// Lines without the whole word in any case, at most `count` lines.
    pub fn all_invert_args(count: usize) -> (r: Self)
        ensures
            r == (PossibleArgs {
                whole: true,
                insensitive: true,
                only: false,
                invert: true,
                max_count: Some(count),
                context: None,
            }),
    {
        Self {
            whole: true,
            insensitive: true,
            only: false,
            invert: true,
            max_count: Some(count),
            context: None,
        }
    }
}

/// The context that the command line asks for: `context` wins over
/// `after_context`, which wins over `before_context`.
pub open spec fn spec_select_context(
    context: Option<usize>,
    after: Option<usize>,
    before: Option<usize>,
) -> Option<Context> {
    if let Some(full) = context {
        Some(Context::Full(full))
    } else if let Some(right) = after {
        Some(Context::Right(right))
    } else if let Some(left) = before {
        Some(Context::Left(left))
    } else {
        None
    }
}

impl Args {
    /// The context that these arguments ask for.
    pub fn select_context(&self) -> (r: Option<Context>)
        ensures
            r == spec_select_context(self.context, self.after_context, self.before_context),
    {
        if let Some(full) = self.context {
            Some(Context::Full(full))
        } else if let Some(right) = self.after_context {
            Some(Context::Right(right))
        } else if let Some(left) = self.before_context {
            Some(Context::Left(left))
        } else {
            None
        }
    }

    /// The per-file search options that these arguments ask for.
    pub fn possible_args(&self) -> (r: PossibleArgs)
        ensures
            r == (PossibleArgs {
                whole: self.whole,
                insensitive: self.insensitive,
                only: self.only,
                invert: self.invert,
                max_count: self.max_count,
                context: spec_select_context(self.context, self.after_context, self.before_context),
            }),
    {
        PossibleArgs {
            whole: self.whole,
            insensitive: self.insensitive,
            only: self.only,
            invert: self.invert,
            max_count: self.max_count,
            context: self.select_context(),
        }
    }
}

} // verus!
