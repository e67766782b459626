//! What loading means: the mapping that a file stands for, given what every
//! path holds, by recursion over inclusions.
use crate::error::ConfigErrorView;
use crate::line::{line_of, IncludeView};
use crate::text::lines_of;
use vstd::prelude::*;

verus! {

/// What a path holds.
pub ghost enum FileView {
    /// No file exists there.
    Missing,
    /// A file exists there but cannot be read as text.
    Unreadable,
    /// A file with this text.
    Text(Seq<char>),
}

/// What every path holds.
pub type Files = spec_fn(Seq<char>) -> FileView;

/// How a load ends.
pub ghost enum Outcome {
    /// With this mapping.
    Loaded(Map<Seq<char>, Seq<char>>),
    /// With this error.
    Failed(ConfigErrorView),
    /// Undecided: inclusions nest deeper than the depth that was allowed.
    TooDeep,
}

/// `entries` after an optional assignment.
pub open spec fn assign(
    entries: Map<Seq<char>, Seq<char>>,
    assignment: Option<(Seq<char>, Seq<char>)>,
) -> Map<Seq<char>, Seq<char>> {
    match assignment {
        Some((key, value)) => entries.insert(key, value),
        None => entries,
    }
}

/// The outcome of loading the file at `path` where `files` says what every
/// path holds and inclusions may nest `depth` deep.
pub open spec fn load(files: Files, path: Seq<char>, depth: nat) -> Outcome
    decreases depth, 1nat, 0nat,
{
    match files(path) {
        FileView::Missing => Outcome::Failed(ConfigErrorView::FileNotFound { path }),
        FileView::Unreadable => Outcome::Failed(ConfigErrorView::ReadError { path }),
        FileView::Text(text) => load_lines(files, path, lines_of(text), 0, Map::empty(), depth),
    }
}

/// The outcome of going through `lines`, the lines of the file at `path`,
/// from line index `at` on, with `entries` gathered so far. An inclusion loads
/// its target, takes over the target's properties, and only then does the
/// line's own assignment count; the first failure ends everything.
pub open spec fn load_lines(
    files: Files,
    path: Seq<char>,
    lines: Seq<Seq<char>>,
    at: nat,
    entries: Map<Seq<char>, Seq<char>>,
    depth: nat,
) -> Outcome
    decreases depth, 0nat, lines.len() - at,
{
    if at >= lines.len() {
        Outcome::Loaded(entries)
    } else {
        let line = line_of(lines[at as int]);
        match line.inclusion {
            IncludeView::Absent => load_lines(
                files,
                path,
                lines,
                at + 1,
                assign(entries, line.assignment),
                depth,
            ),
            IncludeView::MissingPath => Outcome::Failed(
                ConfigErrorView::MissingIncludePath { file: path, line: at + 1 },
            ),
            IncludeView::Relative(token) => Outcome::Failed(
                ConfigErrorView::RelativePathNotAllowed { file: path, line: at + 1, token },
            ),
            IncludeView::Absolute(target) => if depth == 0 {
                Outcome::TooDeep
            } else {
                match load(files, target, (depth - 1) as nat) {
                    Outcome::Loaded(included) => load_lines(
                        files,
                        path,
                        lines,
                        at + 1,
                        assign(entries.union_prefer_right(included), line.assignment),
                        depth,
                    ),
                    other => other,
                }
            },
        }
    }
}

} // verus!
