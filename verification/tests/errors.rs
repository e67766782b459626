use onlyati_config::error::ConfigError;

#[test]
fn message_of_a_missing_file() {
    let e = ConfigError::FileNotFound { path: "/nonexistent/path.conf".to_string() };
    assert_eq!(e.message(), "Config file does not exist.");
}

#[test]
fn message_of_an_unreadable_file_names_the_path() {
    let e = ConfigError::ReadError { path: "/etc/app.conf".to_string() };
    assert_eq!(e.message(), "Error during reading: /etc/app.conf");
}

#[test]
fn message_of_a_missing_inclusion_path() {
    let e = ConfigError::MissingIncludePath { file: "/etc/app.conf".to_string(), line: 3 };
    assert_eq!(e.message(), "No file specified after %include statement");
}

#[test]
fn message_of_a_relative_inclusion_names_file_line_and_token() {
    let e = ConfigError::RelativePathNotAllowed {
        file: "/etc/app.conf".to_string(),
        line: 12,
        token: "relative.conf".to_string(),
    };
    assert_eq!(
        e.message(),
        "/etc/app.conf:12 -> Only absolute path be specify behind %include statement: relative.conf"
    );
}

#[test]
fn line_numbers_are_written_in_decimal() {
    for line in [0usize, 1, 9, 10, 11, 99, 100, 101, 1000, 4096, 65535, 1234567890, usize::MAX] {
        let e = ConfigError::RelativePathNotAllowed { file: "f".to_string(), line, token: "t".to_string() };
        assert_eq!(
            e.message(),
            format!("f:{} -> Only absolute path be specify behind %include statement: t", line)
        );
    }
}

#[test]
fn errors_compare_by_their_fields() {
    let a = ConfigError::MissingIncludePath { file: "f".to_string(), line: 1 };
    let b = ConfigError::MissingIncludePath { file: "f".to_string(), line: 1 };
    let c = ConfigError::MissingIncludePath { file: "f".to_string(), line: 2 };
    assert_eq!(a, b);
    assert_ne!(a, c);
    assert_ne!(a, ConfigError::FileNotFound { path: "f".to_string() });
}
