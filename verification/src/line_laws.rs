//! What holds of the meaning of every line.
use crate::line::{
    assignment_of, include_keyword, include_of, is_comment, is_include, line_of, IncludeView,
    LineView,
};
use crate::semantics::{load, load_lines, FileView, Files, Outcome};
use crate::text::{
    after_first_line, after_first_word, first_line, first_word, is_blank, is_space,
    lemma_blank_trimmed_start, lemma_marker_from, lemma_position_from, lemma_position_is,
    lemma_trimmed_padded, lemma_word_len_concat, lines_of, marker_at, marker_from, position_of,
    second_word, trimmed_start, without_comment, word_len,
};
use vstd::prelude::*;

verus! {

/// The meaning of a line that asks for nothing and sets nothing.
pub open spec fn nothing() -> LineView {
    LineView { inclusion: IncludeView::Absent, assignment: None }
}

/// The trailing-comment marker: a space and two slashes.
pub open spec fn marker() -> Seq<char> {
    seq![' ', '/', '/']
}

/// A comment line means nothing, whatever follows the `*`.
pub proof fn law_comment_line_means_nothing(line: Seq<char>)
    requires
        line.len() > 0,
        line[0] == '*',
    ensures
        line_of(line) == nothing(),
{
}

/// A blank line means nothing.
pub proof fn law_blank_line_means_nothing(line: Seq<char>)
    requires
        is_blank(line),
    ensures
        line_of(line) == nothing(),
{
}

/// A text without a marker is cut nowhere.
proof fn lemma_no_marker(s: Seq<char>)
    requires
        forall|j: int| 0 <= j < s.len() ==> !marker_at(s, j),
    ensures
        marker_from(s, 0) == s.len(),
        without_comment(s) == s,
{
    lemma_marker_from(s, 0);
    assert(s.subrange(0, s.len() as int) == s);
}

/// A blank text asks for nothing and sets nothing.
proof fn lemma_blank_point(point: Seq<char>)
    requires
        is_blank(point),
    ensures
        include_of(point) == IncludeView::Absent,
        assignment_of(point) is None,
{
    lemma_position_from(point, '=', 0);
    let i = position_of(point, '=');
    if i < point.len() {
        assert(is_space(point[i]));
    }
    if is_include(point) {
        assert(point.subrange(0, 8)[0] == point[0]);
        assert(include_keyword()[0] == '%');
        assert(is_space(point[0]));
    }
}

/// A trailing comment changes nothing: a line means the same with and
/// without a marker and any text after it, where the line itself holds no
/// marker.
pub proof fn law_trailing_comment_is_cut(line: Seq<char>, comment: Seq<char>)
    requires
        marker_from(line, 0) == line.len(),
    ensures
        line_of(line + marker() + comment) == line_of(line),
{
    let whole = line + marker() + comment;
    let n = line.len() as int;
    lemma_marker_from(line, 0);
    assert(whole[n] == ' ' && whole[n + 1] == '/' && whole[n + 2] == '/');
    assert(marker_at(whole, n));
    assert forall|j: int| 0 <= j < n implies !marker_at(whole, j) by {
        if j + 3 <= n {
            assert(!marker_at(line, j));
            assert(whole[j] == line[j] && whole[j + 1] == line[j + 1] && whole[j + 2] == line[j
                + 2]);
        }
    }
    lemma_marker_is(whole, 0, n);
    assert(without_comment(whole) == line);
    assert(without_comment(line) == line) by {
        assert(line.subrange(0, n) == line);
    }
    assert(!is_blank(whole)) by {
        assert(!is_space(whole[n + 1]));
    }
    if is_comment(line) {
        assert(whole[0] == line[0]);
    } else if is_blank(line) {
        lemma_blank_point(line);
        if n > 0 {
            assert(whole[0] == line[0]);
            assert(is_space(line[0]));
        }
    } else {
        assert(whole[0] == line[0]);
    }
}

/// The first marker at or after `from` starts at `i` if one starts there
/// and none before it.
proof fn lemma_marker_is(s: Seq<char>, from: int, i: int)
    requires
        0 <= from <= i < s.len(),
        marker_at(s, i),
        forall|j: int| from <= j < i ==> !marker_at(s, j),
    ensures
        marker_from(s, from) == i,
    decreases i - from,
{
    if from < i {
        lemma_marker_is(s, from + 1, i);
    }
}

/// The line made of a name, `=` and a value, with padding around each.
pub open spec fn assignment_line(
    pad1: Seq<char>,
    key: Seq<char>,
    pad2: Seq<char>,
    pad3: Seq<char>,
    value: Seq<char>,
    pad4: Seq<char>,
) -> Seq<char> {
    pad1 + key + pad2 + seq!['='] + (pad3 + value + pad4)
}

/// A name, `=` and a value, with any white space around each, set that name
/// to that value: such a line assigns the value to the name, both without
/// the padding, where the line is no comment line and holds no marker; and
/// unless it is an inclusion as well, that is all it means.
pub proof fn law_assignment_line(
    pad1: Seq<char>,
    key: Seq<char>,
    pad2: Seq<char>,
    pad3: Seq<char>,
    value: Seq<char>,
    pad4: Seq<char>,
)
    requires
        is_blank(pad1),
        is_blank(pad2),
        is_blank(pad3),
        is_blank(pad4),
        key.len() > 0 ==> !is_space(key[0]) && !is_space(key.last()),
        value.len() > 0 ==> !is_space(value[0]) && !is_space(value.last()),
        forall|i: int| 0 <= i < key.len() ==> key[i] != '=',
        !is_comment(assignment_line(pad1, key, pad2, pad3, value, pad4)),
        forall|j: int| !marker_at(assignment_line(pad1, key, pad2, pad3, value, pad4), j),
    ensures
        line_of(assignment_line(pad1, key, pad2, pad3, value, pad4)).assignment == Some(
            (key, value),
        ),
        !is_include(assignment_line(pad1, key, pad2, pad3, value, pad4)) ==> line_of(
            assignment_line(pad1, key, pad2, pad3, value, pad4),
        ).inclusion == IncludeView::Absent,
{
    let left = pad1 + key + pad2;
    let right = pad3 + value + pad4;
    let line = left + seq!['='] + right;
    let n = left.len() as int;
    assert(line[n] == '=');
    assert(!is_blank(line)) by {
        assert(!is_space(line[n]));
    }
    lemma_no_marker(line);
    assert forall|j: int| 0 <= j < n implies line[j] != '=' by {
        assert(line[j] == left[j]);
        if j < pad1.len() {
            assert(is_space(pad1[j]));
        } else if j < pad1.len() + key.len() {
            assert(left[j] == key[j - pad1.len()]);
        } else {
            assert(left[j] == pad2[j - pad1.len() - key.len()]);
            assert(is_space(pad2[j - pad1.len() - key.len()]));
        }
    }
    lemma_position_is(line, '=', 0, n);
    assert(line.subrange(0, n) == left);
    assert(line.subrange(n + 1, line.len() as int) == right);
    lemma_trimmed_padded(pad1, key, pad2);
    lemma_trimmed_padded(pad3, value, pad4);
}

/// A file that holds one assignment loads to that one property: where the
/// text at `path` is a name, `=` and a value on one line, with any white
/// space around each and with or without a line end, and the line is no
/// comment line, no inclusion and holds no marker, loading it gives the
/// mapping of the name to the value and nothing else.
pub proof fn law_one_assignment_loads(
    files: Files,
    path: Seq<char>,
    depth: nat,
    pad1: Seq<char>,
    key: Seq<char>,
    pad2: Seq<char>,
    pad3: Seq<char>,
    value: Seq<char>,
    pad4: Seq<char>,
)
    requires
        is_blank(pad1),
        is_blank(pad2),
        is_blank(pad3),
        is_blank(pad4),
        key.len() > 0 ==> !is_space(key[0]) && !is_space(key.last()),
        value.len() > 0 ==> !is_space(value[0]) && !is_space(value.last()),
        forall|i: int| 0 <= i < key.len() ==> key[i] != '=',
        !is_comment(assignment_line(pad1, key, pad2, pad3, value, pad4)),
        !is_include(assignment_line(pad1, key, pad2, pad3, value, pad4)),
        forall|j: int| !marker_at(assignment_line(pad1, key, pad2, pad3, value, pad4), j),
        forall|j: int|
            0 <= j < assignment_line(pad1, key, pad2, pad3, value, pad4).len()
                ==> assignment_line(pad1, key, pad2, pad3, value, pad4)[j] != '\n',
        files(path) == FileView::Text(assignment_line(pad1, key, pad2, pad3, value, pad4))
            || files(path) == FileView::Text(
            assignment_line(pad1, key, pad2, pad3, value, pad4) + seq!['\n'],
        ),
    ensures
        load(files, path, depth) == Outcome::Loaded(Map::empty().insert(key, value)),
{
    let line = assignment_line(pad1, key, pad2, pad3, value, pad4);
    law_assignment_line(pad1, key, pad2, pad3, value, pad4);
    let n = line.len() as int;
    assert(line[(pad1 + key + pad2).len() as int] == '=');
    let text = files(path)->Text_0;
    let first = first_line(text);
    lemma_position_from(text, '\n', 0);
    if text == line {
        if position_of(text, '\n') < n {
            assert(line[position_of(text, '\n')] != '\n');
        }
        assert(first == line);
    } else {
        lemma_position_is(text, '\n', 0, n);
        assert(text.subrange(n + 1, text.len() as int) == Seq::<char>::empty());
        if line[n - 1] == '\r' {
            // The carriage return before the line end is padding; the line
            // without it is an assignment line with one character less.
            let short = line.drop_last();
            assert(text[n - 1] == line[n - 1]);
            assert(first == short);
            assert(is_space('\r'));
            assert(short[0] == line[0]);
            assert forall|j: int| !marker_at(short, j) by {
                if marker_at(short, j) {
                    assert(short[j] == line[j] && short[j + 1] == line[j + 1] && short[j + 2]
                        == line[j + 2]);
                    assert(marker_at(line, j));
                }
            }
            if is_include(short) {
                assert(short.subrange(0, 8) == line.subrange(0, 8));
            }
            if pad4.len() > 0 {
                let less = pad4.drop_last();
                assert(short == assignment_line(pad1, key, pad2, pad3, value, less));
                assert forall|i: int| 0 <= i < less.len() implies is_space(#[trigger] less[i]) by {
                    assert(is_space(pad4[i]));
                }
                law_assignment_line(pad1, key, pad2, pad3, value, less);
            } else {
                if value.len() > 0 {
                    assert(line[n - 1] == value.last());
                }
                if pad3.len() == 0 {
                    assert(line[n - 1] == '=');
                }
                let less = pad3.drop_last();
                assert(short == assignment_line(pad1, key, pad2, less, value, pad4));
                assert forall|i: int| 0 <= i < less.len() implies is_space(#[trigger] less[i]) by {
                    assert(is_space(pad3[i]));
                }
                law_assignment_line(pad1, key, pad2, less, value, pad4);
            }
        } else {
            assert(text[n - 1] == line[n - 1]);
            assert(text.subrange(0, n) == line);
        }
    }
    assert(after_first_line(text) == Seq::<char>::empty());
    assert(lines_of(after_first_line(text)) == Seq::<Seq<char>>::empty());
    let lines = lines_of(text);
    assert(lines == seq![first]);
    assert(lines[0] == first);
    let entries = Map::<Seq<char>, Seq<char>>::empty().insert(key, value);
    assert(load_lines(files, path, lines, 1, entries, depth) == Outcome::Loaded(entries));
    assert(load_lines(files, path, lines, 0, Map::empty(), depth) == Outcome::Loaded(entries));
}

/// The keyword with only white space after it is an inclusion that names no
/// file.
pub proof fn law_keyword_without_path(pad: Seq<char>)
    requires
        pad.len() > 0,
        is_blank(pad),
    ensures
        line_of(include_keyword() + pad).inclusion == IncludeView::MissingPath,
{
    let word = include_keyword();
    let line = word + pad;
    assert(line[0] == '%');
    assert(!is_space(line[0]));
    assert forall|j: int| 0 <= j < line.len() implies !marker_at(line, j) by {
        if j + 3 <= line.len() {
            if j + 1 < 8 {
                assert(line[j + 1] == word[j + 1]);
            } else {
                assert(line[j + 1] == pad[j + 1 - 8]);
                assert(is_space(pad[j + 1 - 8]));
            }
        }
    }
    lemma_no_marker(line);
    assert(line.subrange(0, 8) == word);
    assert(is_include(line));
    assert(trimmed_start(line) == line);
    assert forall|i: int| 0 <= i < word.len() implies !is_space(#[trigger] word[i]) by {}
    lemma_word_len_concat(word, pad);
    assert(is_space(pad[0]));
    assert(word_len(pad) == 0);
    assert(word_len(line) == 8);
    assert(after_first_word(line) == pad);
    lemma_blank_trimmed_start(pad);
    assert(first_word(pad).len() == 0);
    assert(second_word(line).len() == 0);
}

/// The keyword with nothing after it is no inclusion: such a line means
/// nothing.
pub proof fn law_bare_keyword_means_nothing()
    ensures
        line_of(include_keyword()) == nothing(),
{
    let line = include_keyword();
    assert(line[0] == '%');
    assert(!is_space(line[0]));
    assert forall|j: int| 0 <= j < line.len() implies !marker_at(line, j) by {}
    lemma_no_marker(line);
    lemma_position_from(line, '=', 0);
    let i = position_of(line, '=');
    if i < line.len() {
        assert(line[i] == '=');
    }
}

/// An inclusion names a file only by an absolute path.
pub proof fn law_included_path_is_absolute(line: Seq<char>)
    ensures
        match line_of(line).inclusion {
            IncludeView::Absolute(target) => target.len() > 0 && target[0] == '/',
            IncludeView::Relative(token) => token.len() > 0 && token[0] != '/',
            _ => true,
        },
{
}

} // verus!
