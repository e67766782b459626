//! Character-level text model: whitespace, trimming, searching, tokens and
//! line splitting, each as a spec function on `Seq<char>` with an executable
//! counterpart on `&[char]`.
use vstd::prelude::*;
use vstd::slice::*;
use vstd::std_specs::iter::IteratorSpec;
use vstd::string::*;

verus! {

/// `String::push` appends exactly the given character to the string.
pub assume_specification[ String::push ](s: &mut String, c: char)
    ensures
        final(s)@ == old(s)@.push(c),
;

/// Whether `c` is a white-space character (the Unicode `White_Space` set).
pub open spec fn is_space(c: char) -> bool {
    let n = c as u32;
    ||| 0x09 <= n <= 0x0D
    ||| n == 0x20
    ||| n == 0x85
    ||| n == 0xA0
    ||| n == 0x1680
    ||| 0x2000 <= n <= 0x200A
    ||| n == 0x2028
    ||| n == 0x2029
    ||| n == 0x202F
    ||| n == 0x205F
    ||| n == 0x3000
}

/// `s` without its leading white space.
pub open spec fn trimmed_start(s: Seq<char>) -> Seq<char>
    decreases s.len(),
{
    if s.len() > 0 && is_space(s[0]) {
        trimmed_start(s.drop_first())
    } else {
        s
    }
}

/// `s` without its trailing white space.
pub open spec fn trimmed_end(s: Seq<char>) -> Seq<char>
    decreases s.len(),
{
    if s.len() > 0 && is_space(s.last()) {
        trimmed_end(s.drop_last())
    } else {
        s
    }
}

/// `s` without its leading and trailing white space.
pub open spec fn trimmed(s: Seq<char>) -> Seq<char> {
    trimmed_end(trimmed_start(s))
}

/// Whether `s` holds nothing but white space.
pub open spec fn is_blank(s: Seq<char>) -> bool {
    forall|i: int| 0 <= i < s.len() ==> is_space(#[trigger] s[i])
}

/// The index of the first `c` in `s` at or after `from`, or `s.len()` if
/// there is none.
pub open spec fn position_from(s: Seq<char>, c: char, from: int) -> int
    decreases s.len() - from,
{
    if from >= s.len() {
        s.len() as int
    } else if s[from] == c {
        from
    } else {
        position_from(s, c, from + 1)
    }
}

/// The index of the first `c` in `s`, or `s.len()` if there is none.
pub open spec fn position_of(s: Seq<char>, c: char) -> int {
    position_from(s, c, 0)
}

/// Whether the trailing-comment marker (a space and two slashes) starts at
/// index `i` of `s`.
pub open spec fn marker_at(s: Seq<char>, i: int) -> bool {
    &&& 0 <= i
    &&& i + 3 <= s.len()
    &&& s[i] == ' '
    &&& s[i + 1] == '/'
    &&& s[i + 2] == '/'
}

/// The index at which the first trailing-comment marker of `s` at or after
/// `from` starts, or `s.len()` if there is none.
pub open spec fn marker_from(s: Seq<char>, from: int) -> int
    decreases s.len() - from,
{
    if from >= s.len() {
        s.len() as int
    } else if marker_at(s, from) {
        from
    } else {
        marker_from(s, from + 1)
    }
}

/// `s` cut before its first trailing-comment marker.
pub open spec fn without_comment(s: Seq<char>) -> Seq<char> {
    s.subrange(0, marker_from(s, 0))
}

/// The length of the run of non-white-space characters that `s` starts with.
pub open spec fn word_len(s: Seq<char>) -> int
    decreases s.len(),
{
    if s.len() > 0 && !is_space(s[0]) {
        1 + word_len(s.drop_first())
    } else {
        0
    }
}

/// The first white-space-delimited token of `s`; empty if `s` is blank.
pub open spec fn first_word(s: Seq<char>) -> Seq<char> {
    let t = trimmed_start(s);
    t.subrange(0, word_len(t))
}

/// What follows the first white-space-delimited token of `s`.
pub open spec fn after_first_word(s: Seq<char>) -> Seq<char> {
    let t = trimmed_start(s);
    t.subrange(word_len(t), t.len() as int)
}

/// The second white-space-delimited token of `s`; empty if there is none.
pub open spec fn second_word(s: Seq<char>) -> Seq<char> {
    first_word(after_first_word(s))
}

/// The first line of a non-empty text: what precedes the first line feed,
/// less a carriage return that directly precedes that line feed.
pub open spec fn first_line(s: Seq<char>) -> Seq<char> {
    let e = position_of(s, '\n');
    if 0 < e < s.len() && s[e - 1] == '\r' {
        s.subrange(0, e - 1)
    } else {
        s.subrange(0, e)
    }
}

/// What follows the first line of a text.
pub open spec fn after_first_line(s: Seq<char>) -> Seq<char> {
    let e = position_of(s, '\n');
    if e < s.len() {
        s.subrange(e + 1, s.len() as int)
    } else {
        Seq::empty()
    }
}

/// The lines of a text. Lines end at a line feed or at a carriage return
/// followed by a line feed; the end of the last line is optional, so a text
/// that ends in a line end has no empty last line.
pub open spec fn lines_of(s: Seq<char>) -> Seq<Seq<char>>
    decreases s.len(),
    via lines_of_decreases
{
    if s.len() == 0 {
        Seq::empty()
    } else {
        seq![first_line(s)] + lines_of(after_first_line(s))
    }
}

/// The lines held by a vector of character vectors.
pub open spec fn lines_view(lines: Seq<Vec<char>>) -> Seq<Seq<char>> {
    Seq::new(lines.len(), |i: int| lines[i]@)
}

#[via_fn]
proof fn lines_of_decreases(s: Seq<char>) {
    lemma_position_from(s, '\n', 0);
}

/// `position_from` stays within `s`, names a `c` unless it is `s.len()`,
/// and no `c` stands between `from` and it.
pub proof fn lemma_position_from(s: Seq<char>, c: char, from: int)
    requires
        0 <= from <= s.len(),
    ensures
        from <= position_from(s, c, from) <= s.len(),
        position_from(s, c, from) < s.len() ==> s[position_from(s, c, from)] == c,
        forall|j: int| from <= j < position_from(s, c, from) ==> s[j] != c,
    decreases s.len() - from,
{
    if from < s.len() && s[from] != c {
        lemma_position_from(s, c, from + 1);
    }
}

/// `marker_from` stays within `s`, names a marker unless it is `s.len()`,
/// and no marker starts between `from` and it.
pub proof fn lemma_marker_from(s: Seq<char>, from: int)
    requires
        0 <= from <= s.len(),
    ensures
        from <= marker_from(s, from) <= s.len(),
        marker_from(s, from) < s.len() ==> marker_at(s, marker_from(s, from)),
        forall|j: int| from <= j < marker_from(s, from) ==> !marker_at(s, j),
    decreases s.len() - from,
{
    if from < s.len() && !marker_at(s, from) {
        lemma_marker_from(s, from + 1);
    }
}

/// The first `c` at or after `from` is at `i` if a `c` is there and none is
/// before it.
pub proof fn lemma_position_is(s: Seq<char>, c: char, from: int, i: int)
    requires
        0 <= from <= i < s.len(),
        s[i] == c,
        forall|j: int| from <= j < i ==> s[j] != c,
    ensures
        position_from(s, c, from) == i,
    decreases i - from,
{
    if from < i {
        lemma_position_is(s, c, from + 1, i);
    }
}

/// Leading white space does not count: trimming the start of `pad + s`
/// gives what trimming the start of `s` gives, where `pad` is blank.
pub proof fn lemma_trimmed_start_pad(pad: Seq<char>, s: Seq<char>)
    requires
        is_blank(pad),
    ensures
        trimmed_start(pad + s) == trimmed_start(s),
    decreases pad.len(),
{
    if pad.len() == 0 {
        assert(pad + s == s);
    } else {
        let rest = pad.drop_first();
        assert(is_space(pad[0]));
        assert((pad + s)[0] == pad[0]);
        assert((pad + s).drop_first() == rest + s);
        assert forall|i: int| 0 <= i < rest.len() implies is_space(#[trigger] rest[i]) by {
            assert(is_space(pad[i + 1]));
        }
        lemma_trimmed_start_pad(rest, s);
    }
}

/// Trailing white space does not count: trimming the end of `s + pad` gives
/// what trimming the end of `s` gives, where `pad` is blank.
pub proof fn lemma_trimmed_end_pad(s: Seq<char>, pad: Seq<char>)
    requires
        is_blank(pad),
    ensures
        trimmed_end(s + pad) == trimmed_end(s),
    decreases pad.len(),
{
    if pad.len() == 0 {
        assert(s + pad == s);
    } else {
        let rest = pad.drop_last();
        assert(is_space(pad[pad.len() - 1]));
        assert((s + pad).last() == pad.last());
        assert((s + pad).drop_last() == s + rest);
        assert forall|i: int| 0 <= i < rest.len() implies is_space(#[trigger] rest[i]) by {
            assert(is_space(pad[i]));
        }
        lemma_trimmed_end_pad(s, rest);
    }
}

/// A text is blank exactly when nothing is left of it once its leading
/// white space is gone.
pub proof fn lemma_blank_trimmed_start(s: Seq<char>)
    ensures
        is_blank(s) <==> trimmed_start(s).len() == 0,
    decreases s.len(),
{
    if s.len() > 0 && is_space(s[0]) {
        let t = s.drop_first();
        lemma_blank_trimmed_start(t);
        if is_blank(s) {
            assert forall|i: int| 0 <= i < t.len() implies is_space(#[trigger] t[i]) by {
                assert(is_space(s[i + 1]));
            }
        } else {
            let i = choose|i: int| 0 <= i < s.len() && !is_space(#[trigger] s[i]);
            assert(!is_space(t[i - 1]));
        }
    } else if s.len() > 0 {
        assert(!is_space(s[0]));
    }
}

/// Trimming undoes padding: a text that neither starts nor ends with white
/// space is what is left of it when blank text around it is trimmed away.
pub proof fn lemma_trimmed_padded(before: Seq<char>, s: Seq<char>, after: Seq<char>)
    requires
        is_blank(before),
        is_blank(after),
        s.len() > 0 ==> !is_space(s[0]) && !is_space(s.last()),
    ensures
        trimmed(before + s + after) == s,
{
    assert(before + s + after == before + (s + after));
    lemma_trimmed_start_pad(before, s + after);
    if s.len() == 0 {
        assert(s + after == after);
        lemma_blank_trimmed_start(after);
        assert(trimmed_start(after) == s);
    } else {
        assert((s + after)[0] == s[0]);
        lemma_trimmed_end_pad(s, after);
    }
}

/// A run of characters that are not white space is a word as far as it
/// goes.
pub proof fn lemma_word_len_concat(word: Seq<char>, rest: Seq<char>)
    requires
        forall|i: int| 0 <= i < word.len() ==> !is_space(#[trigger] word[i]),
    ensures
        word_len(word + rest) == word.len() + word_len(rest),
    decreases word.len(),
{
    if word.len() == 0 {
        assert(word + rest == rest);
    } else {
        assert(!is_space(word[0]));
        assert((word + rest)[0] == word[0]);
        assert((word + rest).drop_first() == word.drop_first() + rest);
        assert forall|i: int| 0 <= i < word.drop_first().len() implies !is_space(
            #[trigger] word.drop_first()[i],
        ) by {
            assert(!is_space(word[i + 1]));
        }
        lemma_word_len_concat(word.drop_first(), rest);
    }
}

/// The characters of `s`, in order.
pub fn to_chars(s: &str) -> (out: Vec<char>)
    ensures
        out@ == s@,
{
    broadcast use group_string_axioms;

    let mut out: Vec<char> = Vec::new();
    let mut it = s.chars();
    loop
        invariant
            out@ + it.remaining() == s@,
            it.obeys_prophetic_iter_laws(),
            it.decrease() is Some,
        ensures
            it.remaining().len() == 0,
        decreases it.decrease()->0,
    {
        match it.next() {
            Some(c) => {
                out.push(c);
            },
            None => {
                break ;
            },
        }
    }
    out
}

/// The string made of the characters of `chars`.
pub fn to_string(chars: &[char]) -> (out: String)
    ensures
        out@ == chars@,
{
    let mut out = String::new();
    let mut i: usize = 0;
    while i < chars.len()
        invariant
            i <= chars.len(),
            out@ == chars@.subrange(0, i as int),
        decreases chars.len() - i,
    {
        out.push(chars[i]);
        i += 1;
    }
    out
}

/// Tests `c` for white space.
pub fn is_whitespace(c: char) -> (b: bool)
    ensures
        b == is_space(c),
{
    let n: u32 = c as u32;
    (0x09 <= n && n <= 0x0D) || n == 0x20 || n == 0x85 || n == 0xA0 || n == 0x1680 || (0x2000 <= n
        && n <= 0x200A) || n == 0x2028 || n == 0x2029 || n == 0x202F || n == 0x205F || n == 0x3000
}

/// Drops the leading white space of `s`.
pub fn trim_start(s: &[char]) -> (out: &[char])
    ensures
        out@ == trimmed_start(s@),
{
    let mut i: usize = 0;
    assert(s@.subrange(0, s.len() as int) == s@);
    while i < s.len() && is_whitespace(s[i])
        invariant
            i <= s.len(),
            trimmed_start(s@) == trimmed_start(s@.subrange(i as int, s.len() as int)),
        decreases s.len() - i,
    {
        proof {
            let t = s@.subrange(i as int, s.len() as int);
            assert(t.drop_first() == s@.subrange(i + 1, s.len() as int));
        }
        i += 1;
    }
    slice_subrange(s, i, s.len())
}

/// Drops the trailing white space of `s`.
pub fn trim_end(s: &[char]) -> (out: &[char])
    ensures
        out@ == trimmed_end(s@),
{
    let mut n: usize = s.len();
    assert(s@.subrange(0, s.len() as int) == s@);
    while n > 0 && is_whitespace(s[n - 1])
        invariant
            n <= s.len(),
            trimmed_end(s@) == trimmed_end(s@.subrange(0, n as int)),
        decreases n,
    {
        proof {
            let t = s@.subrange(0, n as int);
            assert(t.drop_last() == s@.subrange(0, n - 1));
        }
        n -= 1;
    }
    slice_subrange(s, 0, n)
}

/// Drops the leading and trailing white space of `s`.
pub fn trim(s: &[char]) -> (out: &[char])
    ensures
        out@ == trimmed(s@),
{
    trim_end(trim_start(s))
}

/// Finds the first `c` in `s`; gives `s.len()` if there is none.
pub fn find_char(s: &[char], c: char) -> (i: usize)
    ensures
        i == position_of(s@, c),
        i <= s.len(),
{
    let mut i: usize = 0;
    while i < s.len() && s[i] != c
        invariant
            i <= s.len(),
            position_of(s@, c) == position_from(s@, c, i as int),
        decreases s.len() - i,
    {
        i += 1;
    }
    i
}

/// Finds the start of the first trailing-comment marker in `s`; gives
/// `s.len()` if there is none.
pub fn find_marker(s: &[char]) -> (i: usize)
    ensures
        i == marker_from(s@, 0),
        i <= s.len(),
{
    let n = s.len();
    let mut i: usize = 0;
    while i < n
        invariant
            n == s.len(),
            i <= n,
            marker_from(s@, 0) == marker_from(s@, i as int),
        decreases n - i,
    {
        if n - i >= 3 && s[i] == ' ' && s[i + 1] == '/' && s[i + 2] == '/' {
            return i;
        }
        i += 1;
    }
    i
}

/// Splits `s` after its first white-space-delimited token.
pub fn split_word(s: &[char]) -> (out: (&[char], &[char]))
    ensures
        out.0@ == first_word(s@),
        out.1@ == after_first_word(s@),
{
    let t = trim_start(s);
    let mut i: usize = 0;
    assert(t@.subrange(0, t.len() as int) == t@);
    while i < t.len() && !is_whitespace(t[i])
        invariant
            i <= t.len(),
            word_len(t@) == i + word_len(t@.subrange(i as int, t.len() as int)),
        decreases t.len() - i,
    {
        proof {
            let u = t@.subrange(i as int, t.len() as int);
            assert(u.drop_first() == t@.subrange(i + 1, t.len() as int));
        }
        i += 1;
    }
    (slice_subrange(t, 0, i), slice_subrange(t, i, t.len()))
}

/// Splits a text into its lines.
pub fn split_lines(text: &[char]) -> (out: Vec<Vec<char>>)
    ensures
        lines_view(out@) == lines_of(text@),
{
    let mut out: Vec<Vec<char>> = Vec::new();
    let mut rest: &[char] = text;
    while rest.len() > 0
        invariant
            lines_of(text@) == lines_view(out@) + lines_of(rest@),
        decreases rest.len(),
    {
        let e = find_char(rest, '\n');
        proof {
            lemma_position_from(rest@, '\n', 0);
        }
        let line = if 0 < e && e < rest.len() && rest[e - 1] == '\r' {
            slice_subrange(rest, 0, e - 1)
        } else {
            slice_subrange(rest, 0, e)
        };
        let ghost before = lines_view(out@);
        let ghost old_rest = rest@;
        out.push(slice_to_vec(line));
        if e < rest.len() {
            rest = slice_subrange(rest, e + 1, rest.len());
        } else {
            rest = slice_subrange(rest, 0, 0);
        }
        proof {
            assert(line@ == first_line(old_rest));
            assert(rest@ == after_first_line(old_rest));
            assert(lines_view(out@) == before + seq![first_line(old_rest)]);
        }
    }
    out
}

} // verus!
