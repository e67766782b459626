//! The meaning of one line of configuration text.
use crate::config_map::Entry;
use crate::text::{
    find_char, find_marker, is_blank, lemma_blank_trimmed_start, position_of, second_word,
    split_word, to_string, trim, trim_start, trimmed, without_comment,
};
use vstd::prelude::*;
use vstd::slice::*;

verus! {

/// What a line says about including another file.
#[derive(Debug, PartialEq, Eq)]
pub enum Include {
    /// The line is no inclusion.
    Absent,
    /// The line is an inclusion that names no file.
    MissingPath,
    /// The line is an inclusion whose target does not start with `/`.
    Relative(String),
    /// The line is an inclusion of the file at this absolute path.
    Absolute(String),
}

/// An `Include` as a mathematical value.
pub ghost enum IncludeView {
    Absent,
    MissingPath,
    Relative(Seq<char>),
    Absolute(Seq<char>),
}

impl View for Include {
    type V = IncludeView;

    open spec fn view(&self) -> IncludeView {
        match self {
            Include::Absent => IncludeView::Absent,
            Include::MissingPath => IncludeView::MissingPath,
            Include::Relative(t) => IncludeView::Relative(t@),
            Include::Absolute(t) => IncludeView::Absolute(t@),
        }
    }
}

/// The meaning of a line: the inclusion it asks for, and the property it
/// sets once that inclusion is done.
#[derive(Debug, PartialEq, Eq)]
pub struct Line {
    pub inclusion: Include,
    pub assignment: Option<Entry>,
}

/// A `Line` as a mathematical value; an assignment is a name and a value.
pub ghost struct LineView {
    pub inclusion: IncludeView,
    pub assignment: Option<(Seq<char>, Seq<char>)>,
}

impl View for Line {
    type V = LineView;

    open spec fn view(&self) -> LineView {
        LineView {
            inclusion: self.inclusion@,
            assignment: match self.assignment {
                Some(e) => Some((e.key@, e.value@)),
                None => None,
            },
        }
    }
}

/// The word that an inclusion line starts with.
pub open spec fn include_keyword() -> Seq<char> {
    seq!['%', 'i', 'n', 'c', 'l', 'u', 'd', 'e']
}

/// Whether `line` is a comment line: its first character is `*`.
pub open spec fn is_comment(line: Seq<char>) -> bool {
    line.len() > 0 && line[0] == '*'
}

/// Whether `line` is skipped whole: it is blank or a comment line.
pub open spec fn is_skipped(line: Seq<char>) -> bool {
    is_blank(line) || is_comment(line)
}

/// Whether `point`, a line without its trailing comment, is an inclusion:
/// it starts with the keyword and goes on after it.
pub open spec fn is_include(point: Seq<char>) -> bool {
    point.len() > 8 && point.subrange(0, 8) == include_keyword()
}

/// The inclusion that `point`, a line without its trailing comment, asks
/// for. The target is the second white-space-delimited token.
pub open spec fn include_of(point: Seq<char>) -> IncludeView {
    if !is_include(point) {
        IncludeView::Absent
    } else {
        let target = second_word(point);
        if target.len() == 0 {
            IncludeView::MissingPath
        } else if target[0] == '/' {
            IncludeView::Absolute(target)
        } else {
            IncludeView::Relative(target)
        }
    }
}

/// The property that `point`, a line without its trailing comment, sets:
/// the text is split at its first `=`, and both sides are trimmed.
pub open spec fn assignment_of(point: Seq<char>) -> Option<(Seq<char>, Seq<char>)> {
    let i = position_of(point, '=');
    if i < point.len() {
        Some((trimmed(point.subrange(0, i)), trimmed(point.subrange(i + 1, point.len() as int))))
    } else {
        None
    }
}

/// The meaning of a line.
pub open spec fn line_of(line: Seq<char>) -> LineView {
    if is_skipped(line) {
        LineView { inclusion: IncludeView::Absent, assignment: None }
    } else {
        let point = without_comment(line);
        LineView { inclusion: include_of(point), assignment: assignment_of(point) }
    }
}

/// Whether `point` starts with the inclusion keyword and goes on after it.
fn starts_include(point: &[char]) -> (b: bool)
    ensures
        b == is_include(point@),
{
    if point.len() > 8 {
        let b = point[0] == '%' && point[1] == 'i' && point[2] == 'n' && point[3] == 'c'
            && point[4] == 'l' && point[5] == 'u' && point[6] == 'd' && point[7] == 'e';
        proof {
            let head = point@.subrange(0, 8);
            if b {
                assert(head =~= include_keyword());
            } else {
                assert(head[0] == point@[0] && head[1] == point@[1] && head[2] == point@[2]
                    && head[3] == point@[3] && head[4] == point@[4] && head[5] == point@[5]
                    && head[6] == point@[6] && head[7] == point@[7]);
            }
        }
        b
    } else {
        false
    }
}

/// Reads the inclusion that `point`, a line without its trailing comment,
/// asks for.
pub fn parse_include(point: &[char]) -> (out: Include)
    ensures
        out@ == include_of(point@),
{
    if !starts_include(point) {
        return Include::Absent;
    }
    let (_, rest) = split_word(point);
    let (target, _) = split_word(rest);
    if target.len() == 0 {
        Include::MissingPath
    } else if target[0] == '/' {
        Include::Absolute(to_string(target))
    } else {
        Include::Relative(to_string(target))
    }
}

/// Reads the property that `point`, a line without its trailing comment,
/// sets.
pub fn parse_assignment(point: &[char]) -> (out: Option<Entry>)
    ensures
        match out {
            Some(e) => assignment_of(point@) == Some((e.key@, e.value@)),
            None => assignment_of(point@) is None,
        },
{
    let i = find_char(point, '=');
    if i < point.len() {
        let key = to_string(trim(slice_subrange(point, 0, i)));
        let value = to_string(trim(slice_subrange(point, i + 1, point.len())));
        Some(Entry { key, value })
    } else {
        None
    }
}

/// Reads the meaning of a line.
pub fn parse_line(line: &[char]) -> (out: Line)
    ensures
        out@ == line_of(line@),
{
    proof {
        lemma_blank_trimmed_start(line@);
    }
    if trim_start(line).len() == 0 || line[0] == '*' {
        return Line { inclusion: Include::Absent, assignment: None };
    }
    let point = slice_subrange(line, 0, find_marker(line));
    Line { inclusion: parse_include(point), assignment: parse_assignment(point) }
}

} // verus!
