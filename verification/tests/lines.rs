use onlyati_config::line::{parse_assignment, parse_include, parse_line, Include, Line};

fn chars(s: &str) -> Vec<char> {
    s.chars().collect()
}

fn parse(s: &str) -> Line {
    parse_line(&chars(s))
}

fn assignment(line: &Line) -> Option<(&str, &str)> {
    line.assignment.as_ref().map(|e| (e.key.as_str(), e.value.as_str()))
}

#[test]
fn blank_and_comment_lines_mean_nothing() {
    for s in ["", "   ", "\t", "* a = b", "*", "*%include /x", "\u{2003}"] {
        let line = parse(s);
        assert!(matches!(line.inclusion, Include::Absent), "{:?}", s);
        assert!(line.assignment.is_none(), "{:?}", s);
    }
}

#[test]
fn assignment_splits_at_the_first_equals_sign() {
    assert_eq!(assignment(&parse("key = value")), Some(("key", "value")));
    assert_eq!(assignment(&parse("key=value")), Some(("key", "value")));
    assert_eq!(assignment(&parse("\tkey \t=  value with  spaces  ")), Some(("key", "value with  spaces")));
    assert_eq!(assignment(&parse("a = b = c")), Some(("a", "b = c")));
    assert_eq!(assignment(&parse("a==")), Some(("a", "=")));
    assert_eq!(assignment(&parse("=")), Some(("", "")));
    assert_eq!(assignment(&parse("two words = x")), Some(("two words", "x")));
    assert_eq!(assignment(&parse("no equals sign")), None);
}

#[test]
fn trailing_comment_is_cut_before_the_split() {
    assert_eq!(assignment(&parse("port = 2022     // note")), Some(("port", "2022")));
    assert_eq!(assignment(&parse("port = 2022 // a = b // c")), Some(("port", "2022")));
    assert_eq!(assignment(&parse("port // = 2022")), None);
    assert_eq!(assignment(&parse("port = a//b")), Some(("port", "a//b")));
    assert_eq!(assignment(&parse("port =\t// x")), Some(("port", "// x")));
}

#[test]
fn inclusion_takes_the_second_token() {
    match parse("%include /etc/a.conf").inclusion {
        Include::Absolute(p) => assert_eq!(p, "/etc/a.conf"),
        other => panic!("unexpected: {:?}", other),
    }
    match parse("%include \t /etc/a.conf   trailing words").inclusion {
        Include::Absolute(p) => assert_eq!(p, "/etc/a.conf"),
        other => panic!("unexpected: {:?}", other),
    }
    match parse("%include /etc/a.conf // the rest").inclusion {
        Include::Absolute(p) => assert_eq!(p, "/etc/a.conf"),
        other => panic!("unexpected: {:?}", other),
    }
    match parse("%included /etc/b.conf").inclusion {
        Include::Absolute(p) => assert_eq!(p, "/etc/b.conf"),
        other => panic!("unexpected: {:?}", other),
    }
    match parse("%include a.conf").inclusion {
        Include::Relative(p) => assert_eq!(p, "a.conf"),
        other => panic!("unexpected: {:?}", other),
    }
    match parse("%include ./a.conf /etc/b.conf").inclusion {
        Include::Relative(p) => assert_eq!(p, "./a.conf"),
        other => panic!("unexpected: {:?}", other),
    }
}

#[test]
fn inclusion_without_second_token_names_no_path() {
    for s in ["%include ", "%include\t\t", "%include/etc/a.conf", "%include  // /etc/a.conf", "%includes"] {
        assert!(matches!(parse(s).inclusion, Include::MissingPath), "{:?}", s);
    }
}

#[test]
fn keyword_must_start_the_line_and_be_followed() {
    for s in [
        "%include",
        "%include // /etc/a.conf",
        " %include /etc/a.conf",
        "%INCLUDE /etc/a.conf",
        "%includ /etc/a.conf",
        "include /x",
    ] {
        assert!(matches!(parse(s).inclusion, Include::Absent), "{:?}", s);
    }
    assert!(matches!(parse_include(&chars("%include")), Include::Absent));
    assert!(matches!(parse_include(&chars("%include x")), Include::Relative(_)));
}

#[test]
fn a_line_may_both_include_and_assign() {
    let line = parse("%include /etc/a=b.conf");
    match &line.inclusion {
        Include::Absolute(p) => assert_eq!(p, "/etc/a=b.conf"),
        other => panic!("unexpected: {:?}", other),
    }
    assert_eq!(assignment(&line), Some(("%include /etc/a", "b.conf")));
}

#[test]
fn parse_assignment_reads_a_bare_point() {
    let e = parse_assignment(&chars(" a = b ")).unwrap();
    assert_eq!((e.key.as_str(), e.value.as_str()), ("a", "b"));
    assert!(parse_assignment(&chars("a b")).is_none());
    let e = parse_assignment(&chars("* a = b")).unwrap();
    assert_eq!((e.key.as_str(), e.value.as_str()), ("* a", "b"));
}
