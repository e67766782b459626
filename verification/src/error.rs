//! The ways in which loading can fail.
use vstd::prelude::*;
use vstd::string::*;

verus! {

/// Why a load failed. Every failure ends the whole load.
#[derive(Debug, PartialEq, Eq)]
pub enum ConfigError {
    /// No file exists at `path`.
    FileNotFound { path: String },
    /// The file at `path` exists but could not be read as text.
    ReadError { path: String },
    /// Line `line` of `file` is an inclusion that names no file.
    MissingIncludePath { file: String, line: usize },
    /// Line `line` of `file` is an inclusion whose target `token` does not
    /// start with `/`.
    RelativePathNotAllowed { file: String, line: usize, token: String },
}

/// A `ConfigError` as a mathematical value.
pub ghost enum ConfigErrorView {
    FileNotFound { path: Seq<char> },
    ReadError { path: Seq<char> },
    MissingIncludePath { file: Seq<char>, line: nat },
    RelativePathNotAllowed { file: Seq<char>, line: nat, token: Seq<char> },
}

impl View for ConfigError {
    type V = ConfigErrorView;

    open spec fn view(&self) -> ConfigErrorView {
        match self {
            ConfigError::FileNotFound { path } => ConfigErrorView::FileNotFound { path: path@ },
            ConfigError::ReadError { path } => ConfigErrorView::ReadError { path: path@ },
            ConfigError::MissingIncludePath { file, line } => ConfigErrorView::MissingIncludePath {
                file: file@,
                line: *line as nat,
            },
            ConfigError::RelativePathNotAllowed {
                file,
                line,
                token,
            } => ConfigErrorView::RelativePathNotAllowed {
                file: file@,
                line: *line as nat,
                token: token@,
            },
        }
    }
}

/// The decimal digit for `d`, where `d` is less than ten.
pub open spec fn digit(d: nat) -> char {
    if d == 0 {
        '0'
    } else if d == 1 {
        '1'
    } else if d == 2 {
        '2'
    } else if d == 3 {
        '3'
    } else if d == 4 {
        '4'
    } else if d == 5 {
        '5'
    } else if d == 6 {
        '6'
    } else if d == 7 {
        '7'
    } else if d == 8 {
        '8'
    } else {
        '9'
    }
}

/// `n` in decimal digits, without leading zeros.
pub open spec fn decimal(n: nat) -> Seq<char>
    decreases n,
{
    if n < 10 {
        seq![digit(n)]
    } else {
        decimal(n / 10).push(digit(n % 10))
    }
}

/// The message that describes an error.
pub open spec fn message_of(error: ConfigErrorView) -> Seq<char> {
    match error {
        ConfigErrorView::FileNotFound { .. } => "Config file does not exist."@,
        ConfigErrorView::ReadError { path } => "Error during reading: "@ + path,
        ConfigErrorView::MissingIncludePath { .. } => "No file specified after %include statement"@,
        ConfigErrorView::RelativePathNotAllowed { file, line, token } => file + ":"@ + decimal(line)
            + " -> Only absolute path be specify behind %include statement: "@ + token,
    }
}

/// The decimal digit for `d`.
fn digit_of(d: usize) -> (c: char)
    requires
        d < 10,
    ensures
        c == digit(d as nat),
{
    if d == 0 {
        '0'
    } else if d == 1 {
        '1'
    } else if d == 2 {
        '2'
    } else if d == 3 {
        '3'
    } else if d == 4 {
        '4'
    } else if d == 5 {
        '5'
    } else if d == 6 {
        '6'
    } else if d == 7 {
        '7'
    } else if d == 8 {
        '8'
    } else {
        '9'
    }
}

/// Appends `n` in decimal digits to `out`.
fn push_decimal(out: &mut String, n: usize)
    ensures
        final(out)@ == old(out)@ + decimal(n as nat),
    decreases n,
{
    if n >= 10 {
        push_decimal(out, n / 10);
    }
    out.push(digit_of(n % 10));
}

impl ConfigError {
    /// A message that describes the error.
    pub fn message(&self) -> (out: String)
        ensures
            out@ == message_of(self@),
    {
        match self {
            ConfigError::FileNotFound { .. } => String::from_str("Config file does not exist."),
            ConfigError::ReadError { path } => {
                let mut out = String::from_str("Error during reading: ");
                out.append(path.as_str());
                out
            },
            ConfigError::MissingIncludePath { .. } => String::from_str(
                "No file specified after %include statement",
            ),
            ConfigError::RelativePathNotAllowed { file, line, token } => {
                let mut out = String::from_str(file.as_str());
                out.append(":");
                push_decimal(&mut out, *line);
                out.append(" -> Only absolute path be specify behind %include statement: ");
                out.append(token.as_str());
                out
            },
        }
    }
}

} // verus!
