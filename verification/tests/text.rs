use onlyati_config::text::{
    find_char, find_marker, is_whitespace, split_lines, split_word, to_chars, to_string, trim,
    trim_end, trim_start,
};

fn chars(s: &str) -> Vec<char> {
    s.chars().collect()
}

fn text(c: &[char]) -> String {
    c.iter().collect()
}

#[test]
fn to_chars_gives_each_character_once() {
    assert_eq!(to_chars(""), Vec::<char>::new());
    assert_eq!(to_chars("a=b"), vec!['a', '=', 'b']);
    assert_eq!(to_chars("\u{e9}\u{20ac}\u{1f600}z"), vec!['\u{e9}', '\u{20ac}', '\u{1f600}', 'z']);
}

#[test]
fn to_string_keeps_every_character() {
    assert_eq!(to_string(&[]), "");
    assert_eq!(to_string(&['k', 'e', 'y']), "key");
    let sample = "A\u{dc}=\u{263a} /\u{1f600}";
    assert_eq!(to_string(&to_chars(sample)), sample);
}

#[test]
fn whitespace_is_what_the_standard_library_calls_whitespace() {
    let mut code: u32 = 0;
    while code <= 0x10ffff {
        if let Some(c) = char::from_u32(code) {
            assert_eq!(is_whitespace(c), c.is_whitespace(), "U+{:04X}", code);
        }
        code += 1;
    }
}

#[test]
fn trimming_removes_only_outer_whitespace() {
    assert_eq!(text(trim(&chars("  a b \t"))), "a b");
    assert_eq!(text(trim_start(&chars("  a b \t"))), "a b \t");
    assert_eq!(text(trim_end(&chars("  a b \t"))), "  a b");
    assert_eq!(text(trim(&chars(" \u{a0}\u{3000}\r\n"))), "");
    assert_eq!(text(trim(&chars(""))), "");
    assert_eq!(text(trim(&chars("x"))), "x");
}

#[test]
fn trimming_agrees_with_the_standard_library() {
    for s in ["", " ", "a", " a", "a ", "\ta\u{2003}b\u{85}", "\u{feff}a ", "\u{200b} x", " = "] {
        assert_eq!(text(trim(&chars(s))), s.trim());
        assert_eq!(text(trim_start(&chars(s))), s.trim_start());
        assert_eq!(text(trim_end(&chars(s))), s.trim_end());
    }
}

#[test]
fn find_char_gives_first_index_or_length() {
    assert_eq!(find_char(&chars("a=b=c"), '='), 1);
    assert_eq!(find_char(&chars("=b"), '='), 0);
    assert_eq!(find_char(&chars("abc"), '='), 3);
    assert_eq!(find_char(&chars(""), '='), 0);
    assert_eq!(find_char(&chars("\u{e9}\u{e9}="), '='), 2);
}

#[test]
fn find_marker_gives_first_marker_or_length() {
    assert_eq!(find_marker(&chars("port = 1 // x // y")), 8);
    assert_eq!(find_marker(&chars(" //")), 0);
    assert_eq!(find_marker(&chars("http://host")), 11);
    assert_eq!(find_marker(&chars("a /")), 3);
    assert_eq!(find_marker(&chars("a / /")), 5);
    assert_eq!(find_marker(&chars("a\t//")), 4);
    assert_eq!(find_marker(&chars("")), 0);
    assert_eq!(find_marker(&chars("  //")), 1);
}

#[test]
fn split_word_takes_the_first_token() {
    let line = chars("  %include \t /etc/x.conf  tail");
    let (first, rest) = split_word(&line);
    assert_eq!(text(first), "%include");
    assert_eq!(text(rest), " \t /etc/x.conf  tail");
    let (second, rest) = split_word(rest);
    assert_eq!(text(second), "/etc/x.conf");
    assert_eq!(text(rest), "  tail");
    let (none, rest) = split_word(&[' ', '\t']);
    assert_eq!(text(none), "");
    assert_eq!(text(rest), "");
}

#[test]
fn split_word_agrees_with_split_whitespace() {
    for s in ["a b c", "  a\u{3000}b", "", "   ", "one", "\ttwo  words\n"] {
        let c = chars(s);
        let (first, rest) = split_word(&c);
        let (second, _) = split_word(rest);
        let mut words = s.split_whitespace();
        assert_eq!(text(first), words.next().unwrap_or(""));
        assert_eq!(text(second), words.next().unwrap_or(""));
    }
}

fn lines(s: &str) -> Vec<String> {
    split_lines(&chars(s)).iter().map(|l| text(l)).collect()
}

#[test]
fn split_lines_ends_lines_at_line_feeds() {
    assert_eq!(lines(""), Vec::<String>::new());
    assert_eq!(lines("a"), vec!["a"]);
    assert_eq!(lines("a\n"), vec!["a"]);
    assert_eq!(lines("a\nb"), vec!["a", "b"]);
    assert_eq!(lines("\n"), vec![""]);
    assert_eq!(lines("\n\nb\n"), vec!["", "", "b"]);
    assert_eq!(lines("a\r\nb\r\n"), vec!["a", "b"]);
    assert_eq!(lines("a\rb\n"), vec!["a\rb"]);
    assert_eq!(lines("a\r\r\n"), vec!["a\r"]);
    assert_eq!(lines("a\nb\r"), vec!["a", "b\r"]);
    assert_eq!(lines("\r\n"), vec![""]);
}

#[test]
fn split_lines_agrees_with_the_standard_library() {
    for s in ["", "x", "x\n", "x\r\n", "\r", "\r\n\r\n", "a\n\nb", "a\r\n\nb\r", "k = v // c\n* c\n", "\n\r\n\r"]
    {
        let expected: Vec<String> = s.lines().map(|l| l.to_string()).collect();
        assert_eq!(lines(s), expected, "{:?}", s);
    }
}
