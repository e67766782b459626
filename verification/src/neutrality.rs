//! Blank lines and comment lines are neutral: files that differ only in such
//! lines load to the same mapping.
use crate::error::ConfigErrorView;
use crate::line::{is_skipped, line_of, IncludeView};
use crate::semantics::{assign, load, load_lines, FileView, Files, Outcome};
use crate::text::{
    after_first_line, first_line, is_blank, is_space, lemma_position_from, lemma_position_is,
    lines_of, position_of,
};
use vstd::prelude::*;

verus! {

/// The lines from index `at` on that are not skipped, in order.
pub open spec fn significant(lines: Seq<Seq<char>>, at: nat) -> Seq<Seq<char>>
    decreases lines.len() - at,
{
    if at >= lines.len() {
        Seq::empty()
    } else if is_skipped(lines[at as int]) {
        significant(lines, at + 1)
    } else {
        seq![lines[at as int]] + significant(lines, at + 1)
    }
}

/// Whether two paths hold the same but for skipped lines.
pub open spec fn alike(a: FileView, b: FileView) -> bool {
    match (a, b) {
        (FileView::Missing, FileView::Missing) => true,
        (FileView::Unreadable, FileView::Unreadable) => true,
        (FileView::Text(s), FileView::Text(t)) => significant(lines_of(s), 0) == significant(
            lines_of(t),
            0,
        ),
        _ => false,
    }
}

/// Whether two errors are the same but for the line number.
pub open spec fn same_but_line(a: ConfigErrorView, b: ConfigErrorView) -> bool {
    match (a, b) {
        (
            ConfigErrorView::MissingIncludePath { file: f, .. },
            ConfigErrorView::MissingIncludePath { file: g, .. },
        ) => f == g,
        (
            ConfigErrorView::RelativePathNotAllowed { file: f, token: t, .. },
            ConfigErrorView::RelativePathNotAllowed { file: g, token: u, .. },
        ) => f == g && t == u,
        _ => a == b,
    }
}

/// Whether two loads end alike: with the same mapping, with errors that are
/// the same but for the line number, or both undecided.
pub open spec fn ends_alike(a: Outcome, b: Outcome) -> bool {
    match (a, b) {
        (Outcome::Loaded(m), Outcome::Loaded(n)) => m == n,
        (Outcome::Failed(e), Outcome::Failed(f)) => same_but_line(e, f),
        (Outcome::TooDeep, Outcome::TooDeep) => true,
        _ => false,
    }
}

/// Going through two files whose remaining lines are the same but for
/// skipped ones, from the same properties, ends alike.
pub proof fn lemma_lines_alike(
    f: Files,
    g: Files,
    path: Seq<char>,
    lines1: Seq<Seq<char>>,
    at1: nat,
    lines2: Seq<Seq<char>>,
    at2: nat,
    entries: Map<Seq<char>, Seq<char>>,
    depth: nat,
)
    requires
        forall|p: Seq<char>| alike(#[trigger] f(p), g(p)),
        significant(lines1, at1) == significant(lines2, at2),
    ensures
        ends_alike(
            load_lines(f, path, lines1, at1, entries, depth),
            load_lines(g, path, lines2, at2, entries, depth),
        ),
    decreases depth, 0nat, (if at1 < lines1.len() {
            lines1.len() - at1
        } else {
            0
        }) + (if at2 < lines2.len() {
            lines2.len() - at2
        } else {
            0
        }),
{
    if at1 < lines1.len() && is_skipped(lines1[at1 as int]) {
        lemma_lines_alike(f, g, path, lines1, at1 + 1, lines2, at2, entries, depth);
    } else if at2 < lines2.len() && is_skipped(lines2[at2 as int]) {
        lemma_lines_alike(f, g, path, lines1, at1, lines2, at2 + 1, entries, depth);
    } else if at1 >= lines1.len() {
        assert(significant(lines2, at2).len() == 0);
    } else {
        let rest1 = significant(lines1, at1 + 1);
        let rest2 = significant(lines2, at2 + 1);
        assert(significant(lines1, at1).len() > 0);
        assert(at2 < lines2.len());
        assert(significant(lines1, at1)[0] == lines1[at1 as int]);
        assert(significant(lines2, at2)[0] == lines2[at2 as int]);
        assert(rest1 == significant(lines1, at1).drop_first());
        assert(rest2 == significant(lines2, at2).drop_first());
        let line = line_of(lines1[at1 as int]);
        match line.inclusion {
            IncludeView::Absent => {
                lemma_lines_alike(
                    f,
                    g,
                    path,
                    lines1,
                    at1 + 1,
                    lines2,
                    at2 + 1,
                    assign(entries, line.assignment),
                    depth,
                );
            },
            IncludeView::Absolute(target) => {
                if depth > 0 {
                    law_skipped_lines_are_neutral(f, g, target, (depth - 1) as nat);
                    match load(f, target, (depth - 1) as nat) {
                        Outcome::Loaded(included) => {
                            lemma_lines_alike(
                                f,
                                g,
                                path,
                                lines1,
                                at1 + 1,
                                lines2,
                                at2 + 1,
                                assign(entries.union_prefer_right(included), line.assignment),
                                depth,
                            );
                        },
                        _ => {},
                    }
                }
            },
            _ => {},
        }
    }
}

/// Skipped lines are neutral: where `f` and `g` hold the same at every path
/// but for blank lines and comment lines, loading any file ends alike under
/// both.
pub proof fn law_skipped_lines_are_neutral(
    f: Files,
    g: Files,
    path: Seq<char>,
    depth: nat,
)
    requires
        forall|p: Seq<char>| alike(#[trigger] f(p), g(p)),
    ensures
        ends_alike(load(f, path, depth), load(g, path, depth)),
    decreases depth, 1nat, 0nat,
{
    assert(alike(f(path), g(path)));
    match (f(path), g(path)) {
        (FileView::Text(s), FileView::Text(t)) => {
            lemma_lines_alike(f, g, path, lines_of(s), 0, lines_of(t), 0, Map::empty(), depth);
        },
        _ => {},
    }
}

/// The lines of two texts put together are the lines of the first and then
/// those of the second, where the first ends with a line end or is empty.
pub proof fn lemma_lines_of_concat(a: Seq<char>, b: Seq<char>)
    requires
        a.len() == 0 || a.last() == '\n',
    ensures
        lines_of(a + b) == lines_of(a) + lines_of(b),
    decreases a.len(),
{
    if a.len() == 0 {
        assert(a + b == b);
        assert(lines_of(a) + lines_of(b) == lines_of(b));
    } else {
        lemma_position_from(a, '\n', 0);
        let e = position_of(a, '\n');
        assert(e < a.len()) by {
            if e >= a.len() {
                assert(a[a.len() - 1] != '\n');
            }
        }
        let whole = a + b;
        lemma_position_is(whole, '\n', 0, e);
        assert(first_line(whole) == first_line(a));
        let rest = after_first_line(a);
        assert(after_first_line(whole) == rest + b);
        if rest.len() > 0 {
            assert(rest.last() == a.last());
        }
        lemma_lines_of_concat(rest, b);
        assert(lines_of(whole) == seq![first_line(a)] + (lines_of(rest) + lines_of(b)));
        assert(lines_of(a) + lines_of(b) == seq![first_line(a)] + (lines_of(rest) + lines_of(b)));
    }
}

/// The lines that are not skipped of two sequences of lines put together,
/// seen from within the second.
proof fn lemma_significant_shift(a: Seq<Seq<char>>, b: Seq<Seq<char>>, k: nat)
    ensures
        significant(a + b, a.len() + k) == significant(b, k),
    decreases b.len() - k,
{
    if k < b.len() {
        assert((a + b)[(a.len() + k) as int] == b[k as int]);
        lemma_significant_shift(a, b, k + 1);
    }
}

/// The lines that are not skipped of two sequences of lines put together
/// are those of the first and then those of the second.
pub proof fn lemma_significant_concat(a: Seq<Seq<char>>, b: Seq<Seq<char>>, at: nat)
    requires
        at <= a.len(),
    ensures
        significant(a + b, at) == significant(a, at) + significant(b, 0),
    decreases a.len() - at,
{
    if at == a.len() {
        lemma_significant_shift(a, b, 0);
        assert(significant(a, at) + significant(b, 0) == significant(b, 0));
    } else {
        assert((a + b)[at as int] == a[at as int]);
        lemma_significant_concat(a, b, at + 1);
        if !is_skipped(a[at as int]) {
            assert(seq![a[at as int]] + (significant(a, at + 1) + significant(b, 0)) == (seq![
                a[at as int],
            ] + significant(a, at + 1)) + significant(b, 0));
        }
    }
}

/// A blank line or comment line, with its line end, is one skipped line.
pub proof fn lemma_skipped_line_alone(extra: Seq<char>)
    requires
        is_skipped(extra),
        forall|i: int| 0 <= i < extra.len() ==> extra[i] != '\n',
    ensures
        significant(lines_of(extra + seq!['\n']), 0) == Seq::<Seq<char>>::empty(),
{
    let text = extra + seq!['\n'];
    lemma_position_is(text, '\n', 0, extra.len() as int);
    let line = first_line(text);
    assert(after_first_line(text) == Seq::<char>::empty());
    assert(lines_of(after_first_line(text)) == Seq::<Seq<char>>::empty());
    assert(lines_of(text) == seq![line]);
    assert(is_skipped(line)) by {
        if is_blank(extra) {
            assert forall|i: int| 0 <= i < line.len() implies is_space(#[trigger] line[i]) by {
                assert(line[i] == extra[i]);
            }
        } else {
            assert(extra[0] == '*');
            assert(line.len() > 0 && line[0] == '*');
        }
    }
    assert(significant(seq![line], 1) == Seq::<Seq<char>>::empty());
}

/// Putting a blank line or a comment line between two lines of a file
/// changes nothing but line numbers: where `g` holds what `f` holds, but for
/// the line `extra` put in at a line start of the file at `path`, loading
/// any file ends alike under both.
pub proof fn law_skipped_line_is_neutral(
    f: Files,
    g: Files,
    path: Seq<char>,
    head: Seq<char>,
    extra: Seq<char>,
    tail: Seq<char>,
    root: Seq<char>,
    depth: nat,
)
    requires
        head.len() == 0 || head.last() == '\n',
        is_skipped(extra),
        forall|i: int| 0 <= i < extra.len() ==> extra[i] != '\n',
        f(path) == FileView::Text(head + tail),
        g(path) == FileView::Text(head + (extra + seq!['\n']) + tail),
        forall|p: Seq<char>| p != path ==> #[trigger] g(p) == f(p),
    ensures
        ends_alike(load(f, root, depth), load(g, root, depth)),
{
    let line = extra + seq!['\n'];
    lemma_lines_of_concat(head, tail);
    assert(head + line + tail == head + (line + tail));
    lemma_lines_of_concat(head, line + tail);
    lemma_lines_of_concat(line, tail);
    lemma_skipped_line_alone(extra);
    lemma_significant_concat(lines_of(head), lines_of(tail), 0);
    lemma_significant_concat(lines_of(head), lines_of(line) + lines_of(tail), 0);
    lemma_significant_concat(lines_of(line), lines_of(tail), 0);
    assert(significant(lines_of(line), 0) + significant(lines_of(tail), 0) == significant(
        lines_of(tail),
        0,
    ));
    assert(alike(f(path), g(path)));
    assert forall|p: Seq<char>| alike(#[trigger] f(p), g(p)) by {
        if p != path {
            assert(g(p) == f(p));
        }
    }
    law_skipped_lines_are_neutral(f, g, root, depth);
}

} // verus!
