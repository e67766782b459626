//! Last write wins: the mapping that a load ends with is what is left when
//! every assignment of the file and of the files it includes, each expanded
//! where its inclusion stands, is made in order of appearance.
use crate::line::{line_of, IncludeView};
use crate::semantics::{assign, load, load_lines, FileView, Files, Outcome};
use crate::text::lines_of;
use vstd::prelude::*;

verus! {

/// An optional assignment as a sequence of none or one.
pub open spec fn written(
    assignment: Option<(Seq<char>, Seq<char>)>,
) -> Seq<(Seq<char>, Seq<char>)> {
    match assignment {
        Some(pair) => seq![pair],
        None => Seq::empty(),
    }
}

/// `entries` after the assignments `writes`, made from first to last.
pub open spec fn replay(
    entries: Map<Seq<char>, Seq<char>>,
    writes: Seq<(Seq<char>, Seq<char>)>,
) -> Map<Seq<char>, Seq<char>>
    decreases writes.len(),
{
    if writes.len() == 0 {
        entries
    } else {
        replay(entries, writes.drop_last()).insert(writes.last().0, writes.last().1)
    }
}

/// The assignments of the file at `path` in order of appearance, those of
/// an included file standing where its inclusion stands. (Of use where the
/// load ends with a mapping.)
pub open spec fn writes_of(
    files: Files,
    path: Seq<char>,
    depth: nat,
) -> Seq<(Seq<char>, Seq<char>)>
    decreases depth, 1nat, 0nat,
{
    match files(path) {
        FileView::Text(text) => writes_in(files, lines_of(text), 0, depth),
        _ => Seq::empty(),
    }
}

/// The assignments of `lines` from line index `at` on, in order of
/// appearance, those of an included file standing where its inclusion
/// stands, before the including line's own assignment.
pub open spec fn writes_in(
    files: Files,
    lines: Seq<Seq<char>>,
    at: nat,
    depth: nat,
) -> Seq<(Seq<char>, Seq<char>)>
    decreases depth, 0nat, lines.len() - at,
{
    if at >= lines.len() {
        Seq::empty()
    } else {
        let line = line_of(lines[at as int]);
        let included = match line.inclusion {
            IncludeView::Absolute(target) if depth > 0 => writes_of(
                files,
                target,
                (depth - 1) as nat,
            ),
            _ => Seq::empty(),
        };
        included + written(line.assignment) + writes_in(files, lines, at + 1, depth)
    }
}

/// Making two runs of assignments one after the other is making them all.
pub proof fn lemma_replay_concat(
    entries: Map<Seq<char>, Seq<char>>,
    first: Seq<(Seq<char>, Seq<char>)>,
    second: Seq<(Seq<char>, Seq<char>)>,
)
    ensures
        replay(entries, first + second) == replay(replay(entries, first), second),
    decreases second.len(),
{
    if second.len() == 0 {
        assert(first + second == first);
    } else {
        assert((first + second).drop_last() == first + second.drop_last());
        assert((first + second).last() == second.last());
        lemma_replay_concat(entries, first, second.drop_last());
    }
}

/// Taking over the result of assignments made from nothing is making those
/// assignments.
pub proof fn lemma_replay_merge(
    entries: Map<Seq<char>, Seq<char>>,
    writes: Seq<(Seq<char>, Seq<char>)>,
)
    ensures
        entries.union_prefer_right(replay(Map::empty(), writes)) == replay(entries, writes),
    decreases writes.len(),
{
    if writes.len() == 0 {
        assert(entries.union_prefer_right(Map::empty()) == entries);
    } else {
        lemma_replay_merge(entries, writes.drop_last());
        let before = replay(Map::<Seq<char>, Seq<char>>::empty(), writes.drop_last());
        let (key, value) = writes.last();
        assert(entries.union_prefer_right(before.insert(key, value)) == entries.union_prefer_right(
            before,
        ).insert(key, value));
    }
}

/// An optional assignment is the replay of what it writes.
proof fn lemma_replay_written(
    entries: Map<Seq<char>, Seq<char>>,
    assignment: Option<(Seq<char>, Seq<char>)>,
)
    ensures
        replay(entries, written(assignment)) == assign(entries, assignment),
{
    match assignment {
        Some(pair) => {
            assert(seq![pair].drop_last() == Seq::<(Seq<char>, Seq<char>)>::empty());
            assert(replay(entries, seq![pair].drop_last()) == entries);
        },
        None => {},
    }
}

/// Where going through lines ends with a mapping, that mapping is what the
/// assignments made in order of appearance leave of the properties gathered
/// before.
pub proof fn lemma_lines_replay(
    files: Files,
    path: Seq<char>,
    lines: Seq<Seq<char>>,
    at: nat,
    entries: Map<Seq<char>, Seq<char>>,
    depth: nat,
)
    requires
        load_lines(files, path, lines, at, entries, depth) is Loaded,
    ensures
        load_lines(files, path, lines, at, entries, depth) == Outcome::Loaded(
            replay(entries, writes_in(files, lines, at, depth)),
        ),
    decreases depth, 0nat, lines.len() - at,
{
    if at < lines.len() {
        let line = line_of(lines[at as int]);
        let rest = writes_in(files, lines, at + 1, depth);
        match line.inclusion {
            IncludeView::Absent => {
                let next = assign(entries, line.assignment);
                lemma_lines_replay(files, path, lines, at + 1, next, depth);
                lemma_replay_written(entries, line.assignment);
                lemma_replay_concat(entries, written(line.assignment), rest);
                assert(Seq::<(Seq<char>, Seq<char>)>::empty() + written(line.assignment) == written(
                    line.assignment,
                ));
            },
            IncludeView::Absolute(target) => {
                let below = (depth - 1) as nat;
                law_last_write_wins(files, target, below);
                let included = writes_of(files, target, below);
                let merged = entries.union_prefer_right(replay(Map::empty(), included));
                let next = assign(merged, line.assignment);
                lemma_lines_replay(files, path, lines, at + 1, next, depth);
                lemma_replay_merge(entries, included);
                lemma_replay_written(merged, line.assignment);
                lemma_replay_concat(entries, included, written(line.assignment));
                lemma_replay_concat(entries, included + written(line.assignment), rest);
            },
            _ => {},
        }
    }
}

/// Last write wins, across inclusions: where loading the file at `path`
/// ends with a mapping, that mapping is what is left when the assignments of
/// the file and of every file it includes, directly or not, are made from
/// nothing in order of appearance.
pub proof fn law_last_write_wins(files: Files, path: Seq<char>, depth: nat)
    requires
        load(files, path, depth) is Loaded,
    ensures
        load(files, path, depth) == Outcome::Loaded(
            replay(Map::empty(), writes_of(files, path, depth)),
        ),
    decreases depth, 1nat, 0nat,
{
    match files(path) {
        FileView::Text(text) => {
            lemma_lines_replay(files, path, lines_of(text), 0, Map::empty(), depth);
        },
        _ => {},
    }
}

} // verus!
