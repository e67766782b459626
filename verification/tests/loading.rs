use onlyati_config::config_map::ConfigMap;
use onlyati_config::error::ConfigError;
use onlyati_config::loader::{FileContent, Loader, Step};

/// Runs a load against files held in memory. `None` stands for a file that
/// exists but cannot be read. Returns the result and the paths asked for.
fn load_from(
    files: &[(&str, Option<&str>)],
    root: &str,
) -> (Result<ConfigMap, ConfigError>, Vec<String>) {
    let mut asked: Vec<String> = Vec::new();
    let mut loader = Loader::new(root);
    loop {
        let path = loader.pending().to_string();
        let content = match files.iter().find(|(p, _)| *p == path) {
            None => FileContent::Missing,
            Some((_, None)) => FileContent::Unreadable,
            Some((_, Some(text))) => FileContent::Text(text.to_string()),
        };
        asked.push(path);
        match loader.supply(content) {
            Step::Read(next) => loader = next,
            Step::Done(entries) => return (Ok(entries), asked),
            Step::Failed(error) => return (Err(error), asked),
        }
    }
}

fn load_text(text: &str) -> Result<ConfigMap, ConfigError> {
    load_from(&[("/etc/app.conf", Some(text))], "/etc/app.conf").0
}

fn pairs(map: &ConfigMap) -> Vec<(String, String)> {
    let mut out: Vec<(String, String)> =
        map.entries().iter().map(|e| (e.key.clone(), e.value.clone())).collect();
    out.sort();
    out
}

fn owned(items: &[(&str, &str)]) -> Vec<(String, String)> {
    let mut out: Vec<(String, String)> =
        items.iter().map(|(k, v)| (k.to_string(), v.to_string())).collect();
    out.sort();
    out
}

#[test]
fn key_value_is_trimmed_whatever_the_spacing() {
    let texts = ["key = value", "key=value", "  key   =\tvalue  ", "key =value\n", "key= value\r\n"];
    for text in texts {
        let map = load_text(text).unwrap();
        assert_eq!(map.len(), 1);
        assert_eq!(map.get("key").map(|v| v.as_str()), Some("value"));
    }
}

#[test]
fn comment_line_sets_nothing() {
    let map = load_text("* port = 1\n*port=2\n").unwrap();
    assert!(map.is_empty());
    assert_eq!(map.len(), 0);
    assert!(!map.contains_key("* port"));
    assert!(!map.contains_key("port"));
}

#[test]
fn star_after_leading_space_is_no_comment() {
    let map = load_text(" * port = 1").unwrap();
    assert_eq!(pairs(&map), owned(&[("* port", "1")]));
}

#[test]
fn trailing_comment_is_cut() {
    let map = load_text("port = 2022     // note").unwrap();
    assert_eq!(map.get("port").map(|v| v.as_str()), Some("2022"));
    assert_eq!(map.len(), 1);
}

#[test]
fn trailing_comment_needs_the_space() {
    let map = load_text("url = http://host // real comment = x").unwrap();
    assert_eq!(pairs(&map), owned(&[("url", "http://host")]));
}

#[test]
fn line_that_is_only_a_trailing_comment_sets_nothing() {
    let map = load_text("x // a = b\n // c = d\n").unwrap();
    assert!(map.is_empty());
}

#[test]
fn blank_lines_change_nothing() {
    let plain = load_text("a = 1\nb = 2\n").unwrap();
    let spaced = load_text("\n  \na = 1\n\t\n\n\u{a0}\u{3000}\nb = 2\n   \n").unwrap();
    assert_eq!(pairs(&plain), owned(&[("a", "1"), ("b", "2")]));
    assert_eq!(pairs(&spaced), pairs(&plain));
}

#[test]
fn value_keeps_later_equals_signs() {
    let map = load_text("api_key = XY=Z\nempty =\n= lonely\n").unwrap();
    assert_eq!(pairs(&map), owned(&[("", "lonely"), ("api_key", "XY=Z"), ("empty", "")]));
}

#[test]
fn later_assignment_wins() {
    let map = load_text("port = 1\nport = 2\nport = 3\n").unwrap();
    assert_eq!(pairs(&map), owned(&[("port", "3")]));
}

#[test]
fn line_without_equals_is_ignored() {
    let map = load_text("just some words\n%include\n%inclusion /x\n").unwrap();
    assert!(map.is_empty());
}

#[test]
fn included_value_overrides_earlier_base_value() {
    let files = [
        ("/abs/B.conf", Some("port=2022\n%include /abs/I.conf\n")),
        ("/abs/I.conf", Some("port=3800\n")),
    ];
    let (result, asked) = load_from(&files, "/abs/B.conf");
    let map = result.unwrap();
    assert_eq!(map.get("port").map(|v| v.as_str()), Some("3800"));
    assert_eq!(asked, vec!["/abs/B.conf".to_string(), "/abs/I.conf".to_string()]);
}

#[test]
fn base_value_after_the_inclusion_overrides_included_value() {
    let files = [
        ("/abs/B.conf", Some("%include /abs/I.conf\nport=2022\n")),
        ("/abs/I.conf", Some("port=3800\nthreads=8\n")),
    ];
    let map = load_from(&files, "/abs/B.conf").0.unwrap();
    assert_eq!(pairs(&map), owned(&[("port", "2022"), ("threads", "8")]));
}

#[test]
fn missing_file_fails_with_file_not_found() {
    let (result, asked) = load_from(&[], "/nonexistent/path.conf");
    match result {
        Err(ConfigError::FileNotFound { path }) => assert_eq!(path, "/nonexistent/path.conf"),
        other => panic!("unexpected: {:?}", other),
    }
    assert_eq!(asked.len(), 1);
}

#[test]
fn unreadable_file_fails_with_read_error() {
    let result = load_from(&[("/etc/app.conf", None)], "/etc/app.conf").0;
    match result {
        Err(ConfigError::ReadError { path }) => assert_eq!(path, "/etc/app.conf"),
        other => panic!("unexpected: {:?}", other),
    }
}

#[test]
fn relative_inclusion_is_rejected_and_never_read() {
    let files = [
        ("/etc/app.conf", Some("a = 1\n\n%include relative.conf\nb = 2\n")),
        ("relative.conf", Some("c = 3\n")),
    ];
    let (result, asked) = load_from(&files, "/etc/app.conf");
    match result {
        Err(ConfigError::RelativePathNotAllowed { file, line, token }) => {
            assert_eq!(file, "/etc/app.conf");
            assert_eq!(line, 3);
            assert_eq!(token, "relative.conf");
        },
        other => panic!("unexpected: {:?}", other),
    }
    assert_eq!(asked, vec!["/etc/app.conf".to_string()]);
}

#[test]
fn inclusion_without_a_path_is_rejected() {
    for text in ["%include ", "a = 1\n%include \t \n", "%include   // which one?"] {
        match load_text(text) {
            Err(ConfigError::MissingIncludePath { file, line }) => {
                assert_eq!(file, "/etc/app.conf");
                assert_eq!(line, if text.starts_with("a") { 2 } else { 1 });
            },
            other => panic!("unexpected: {:?}", other),
        }
    }
}

#[test]
fn bare_keyword_with_nothing_after_it_is_ignored() {
    let map = load_text("%include\na = 1\n%include\r\n").unwrap();
    assert_eq!(pairs(&map), owned(&[("a", "1")]));
}

#[test]
fn failure_in_an_included_file_ends_the_load() {
    let files = [
        ("/a.conf", Some("x = 1\n%include /b.conf\ny = 2\n")),
        ("/b.conf", Some("z = 3\n%include /missing.conf\n")),
    ];
    let (result, asked) = load_from(&files, "/a.conf");
    match result {
        Err(ConfigError::FileNotFound { path }) => assert_eq!(path, "/missing.conf"),
        other => panic!("unexpected: {:?}", other),
    }
    assert_eq!(asked.len(), 3);
}

#[test]
fn error_names_the_included_file_and_its_line() {
    let files = [
        ("/a.conf", Some("%include /b.conf\n")),
        ("/b.conf", Some("* header\n\nz = 3\n%include other.conf\n")),
    ];
    match load_from(&files, "/a.conf").0 {
        Err(ConfigError::RelativePathNotAllowed { file, line, token }) => {
            assert_eq!(file, "/b.conf");
            assert_eq!(line, 4);
            assert_eq!(token, "other.conf");
        },
        other => panic!("unexpected: {:?}", other),
    }
}

#[test]
fn inclusion_line_with_equals_also_assigns() {
    let files = [
        ("/a.conf", Some("%include /dir/k=v.conf\n")),
        ("/dir/k=v.conf", Some("%include /dir/k = overridden\n")),
    ];
    let (result, asked) = load_from(&files, "/a.conf");
    match result {
        Err(ConfigError::FileNotFound { path }) => assert_eq!(path, "/dir/k"),
        other => panic!("unexpected: {:?}", other),
    }
    assert_eq!(asked, vec!["/a.conf", "/dir/k=v.conf", "/dir/k"]);

    let files = [("/a.conf", Some("%include /dir/k=v.conf\n")), ("/dir/k=v.conf", Some("x = 1\n"))];
    let map = load_from(&files, "/a.conf").0.unwrap();
    assert_eq!(pairs(&map), owned(&[("%include /dir/k", "v.conf"), ("x", "1")]));
}

#[test]
fn nested_inclusions_merge_in_order_of_appearance() {
    let files = [
        ("/tmp/a.conf", Some("* comment\nusername = vajk\napi_key = XY=Z\n\n%include /tmp/b.conf")),
        ("/tmp/b.conf", Some("port = 3800")),
    ];
    let map = load_from(&files, "/tmp/a.conf").0.unwrap();
    assert_eq!(pairs(&map), owned(&[("api_key", "XY=Z"), ("port", "3800"), ("username", "vajk")]));
}

#[test]
fn documented_example_with_two_inclusions() {
    let base = "* This is a comment line\n\
                \n\
                * Network settings\n\
                port = 2022     // after the marker\n\
                threads=8     // no space needed\n\
                \n\
                %include /home/user/test-security.conf\n\
                %include /home/user/test-user.conf\n";
    let security = "username = vajk\napi_key = ASDKJAKLSDNKJA()=FNK+JKLKOL+\u{dc})CSA\n";
    let files = [
        ("/home/user/test.conf", Some(base)),
        ("/home/user/test-security.conf", Some(security)),
        ("/home/user/test-user.conf", Some("port = 3800\n")),
    ];
    let map = load_from(&files, "/home/user/test.conf").0.unwrap();
    assert_eq!(
        pairs(&map),
        owned(&[
            ("api_key", "ASDKJAKLSDNKJA()=FNK+JKLKOL+\u{dc})CSA"),
            ("port", "3800"),
            ("threads", "8"),
            ("username", "vajk"),
        ])
    );
}

#[test]
fn multi_byte_first_characters_are_handled() {
    let map = load_text("\u{e9}t\u{e9} = \u{263a}\n\u{20ac}\n").unwrap();
    assert_eq!(pairs(&map), owned(&[("\u{e9}t\u{e9}", "\u{263a}")]));
    let files = [("/a.conf", Some("%include \u{e9}.conf\n"))];
    match load_from(&files, "/a.conf").0 {
        Err(ConfigError::RelativePathNotAllowed { token, .. }) => assert_eq!(token, "\u{e9}.conf"),
        other => panic!("unexpected: {:?}", other),
    }
}

#[test]
fn empty_file_gives_empty_map() {
    assert!(load_text("").unwrap().is_empty());
    assert!(load_text("\n\n").unwrap().is_empty());
}

#[test]
fn loader_reports_pending_path_and_depth() {
    let loader = Loader::new("/a.conf");
    assert_eq!(loader.pending(), "/a.conf");
    assert_eq!(loader.depth(), 0);
    match loader.supply(FileContent::Text("%include /b.conf\n".to_string())) {
        Step::Read(next) => {
            assert_eq!(next.pending(), "/b.conf");
            assert_eq!(next.depth(), 1);
        },
        _ => panic!("the loader should ask for the included file"),
    }
}

#[test]
fn file_included_twice_is_read_twice() {
    let files = [
        ("/a.conf", Some("x = a\n%include /c.conf\n%include /b.conf\nz = a\n")),
        ("/b.conf", Some("%include /c.conf\ny = b\n")),
        ("/c.conf", Some("x = c\ny = c\nz = c\n")),
    ];
    let (result, asked) = load_from(&files, "/a.conf");
    assert_eq!(pairs(&result.unwrap()), owned(&[("x", "c"), ("y", "b"), ("z", "a")]));
    assert_eq!(asked, vec!["/a.conf", "/c.conf", "/b.conf", "/c.conf"]);
}

#[test]
fn three_levels_merge_where_each_inclusion_stands() {
    let files = [
        ("/1.conf", Some("a = 1\nb = 1\nc = 1\n%include /2.conf\nc = one\n")),
        ("/2.conf", Some("b = 2\nc = 2\nd = 2\n%include /3.conf\nd = two\n")),
        ("/3.conf", Some("c = 3\nd = 3\ne = 3\n")),
    ];
    let (result, asked) = load_from(&files, "/1.conf");
    assert_eq!(
        pairs(&result.unwrap()),
        owned(&[("a", "1"), ("b", "2"), ("c", "one"), ("d", "two"), ("e", "3")])
    );
    assert_eq!(asked.len(), 3);
}

#[test]
fn skipped_lines_move_only_the_line_number_of_an_error() {
    let plain = load_text("a = 1\n%include b.conf\n");
    let spaced = load_text("* head\n\na = 1\n   \n* more\n%include b.conf\n");
    match (plain, spaced) {
        (
            Err(ConfigError::RelativePathNotAllowed { file: f1, line: l1, token: t1 }),
            Err(ConfigError::RelativePathNotAllowed { file: f2, line: l2, token: t2 }),
        ) => {
            assert_eq!((f1, t1), (f2, t2));
            assert_eq!((l1, l2), (2, 6));
        },
        other => panic!("unexpected: {:?}", other),
    }
}

#[test]
fn comment_lines_in_an_included_file_change_nothing() {
    let base = "%include /i.conf\nlast = 1\n";
    let plain = [("/a.conf", Some(base)), ("/i.conf", Some("k = v\n"))];
    let noisy = [("/a.conf", Some(base)), ("/i.conf", Some("* k = w\nk = v\n*k=x\n\n"))];
    let a = load_from(&plain, "/a.conf").0.unwrap();
    let b = load_from(&noisy, "/a.conf").0.unwrap();
    assert_eq!(pairs(&a), pairs(&b));
    assert_eq!(pairs(&a), owned(&[("k", "v"), ("last", "1")]));
}

#[test]
fn failed_load_gives_its_message() {
    let files = [("/etc/app.conf", Some("\n\n%include conf.d/a.conf\n"))];
    let error = load_from(&files, "/etc/app.conf").0.unwrap_err();
    assert_eq!(
        error.message(),
        "/etc/app.conf:3 -> Only absolute path be specify behind %include statement: conf.d/a.conf"
    );
    let error = load_from(&[], "/etc/app.conf").0.unwrap_err();
    assert_eq!(error.message(), "Config file does not exist.");
}

#[test]
fn cloned_map_holds_the_same_properties() {
    let map = load_text("a = 1\nb = 2\n").unwrap();
    let copy = map.clone();
    assert_eq!(pairs(&copy), pairs(&map));
}
