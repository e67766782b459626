//! Loading as a sequence of steps: the loader names the file it needs next,
//! the caller reads that file and hands over what it found, until the loader
//! is done. The loader itself reads no file.
use crate::config_map::{ConfigMap, Entry};
use crate::error::{ConfigError, ConfigErrorView};
use crate::line::{line_of, parse_line, Include, IncludeView};
use crate::semantics::{assign, FileView};
use crate::text::{lines_of, lines_view, split_lines, to_chars};
use vstd::prelude::*;

verus! {

/// What the caller found at the path that the loader asked for.
#[derive(Debug, PartialEq, Eq)]
pub enum FileContent {
    /// No file exists there.
    Missing,
    /// A file exists there but could not be read as text.
    Unreadable,
    /// The text of the file.
    Text(String),
}

impl View for FileContent {
    type V = FileView;

    open spec fn view(&self) -> FileView {
        match self {
            FileContent::Missing => FileView::Missing,
            FileContent::Unreadable => FileView::Unreadable,
            FileContent::Text(text) => FileView::Text(text@),
        }
    }
}

/// A file in the course of being gone through, as a mathematical value:
/// its path, its lines, the index of the line that is next or that waits for
/// its inclusion, and the properties gathered in it so far.
pub ghost struct FrameView {
    pub path: Seq<char>,
    pub lines: Seq<Seq<char>>,
    pub at: nat,
    pub entries: Map<Seq<char>, Seq<char>>,
}

/// A loader as a mathematical value: the files that wait for an inclusion,
/// outermost first, and the path of the file that is needed next.
pub ghost struct LoaderView {
    pub stack: Seq<FrameView>,
    pub pending: Seq<char>,
}

/// A step as a mathematical value.
pub ghost enum StepView {
    Read(LoaderView),
    Done(Map<Seq<char>, Seq<char>>),
    Failed(ConfigErrorView),
}

/// A loader that has read nothing yet and is to load the file at `path`.
pub open spec fn start(path: Seq<char>) -> LoaderView {
    LoaderView { stack: Seq::empty(), pending: path }
}

/// The frame of a file whose text has just arrived.
pub open spec fn opened(path: Seq<char>, text: Seq<char>) -> FrameView {
    FrameView { path, lines: lines_of(text), at: 0, entries: Map::empty() }
}

/// The frame `parent`, which waited for an inclusion, once that inclusion
/// has ended with `included`: it takes over the included properties, then
/// makes the waiting line's own assignment and moves to the next line.
pub open spec fn resumed(parent: FrameView, included: Map<Seq<char>, Seq<char>>) -> FrameView {
    FrameView {
        at: parent.at + 1,
        entries: assign(
            parent.entries.union_prefer_right(included),
            line_of(parent.lines[parent.at as int]).assignment,
        ),
        ..parent
    }
}

/// Where going through `current` leads, with `stack` waiting behind it: to
/// the next inclusion of an absolute path, which suspends the file and asks
/// for the target; to the first failure; or to the end of the outermost file.
/// A file that ends hands its properties to the file that waited for it.
pub open spec fn run(stack: Seq<FrameView>, current: FrameView) -> StepView
    decreases stack.len(), current.lines.len() - current.at,
{
    if current.at >= current.lines.len() {
        if stack.len() == 0 {
            StepView::Done(current.entries)
        } else {
            run(stack.drop_last(), resumed(stack.last(), current.entries))
        }
    } else {
        let line = line_of(current.lines[current.at as int]);
        match line.inclusion {
            IncludeView::Absent => run(
                stack,
                FrameView {
                    at: current.at + 1,
                    entries: assign(current.entries, line.assignment),
                    ..current
                },
            ),
            IncludeView::MissingPath => StepView::Failed(
                ConfigErrorView::MissingIncludePath { file: current.path, line: current.at + 1 },
            ),
            IncludeView::Relative(token) => StepView::Failed(
                ConfigErrorView::RelativePathNotAllowed {
                    file: current.path,
                    line: current.at + 1,
                    token,
                },
            ),
            IncludeView::Absolute(target) => StepView::Read(
                LoaderView { stack: stack.push(current), pending: target },
            ),
        }
    }
}

/// The step that a loader takes when it is handed `content` for the path it
/// asked for.
pub open spec fn supplied(loader: LoaderView, content: FileView) -> StepView {
    match content {
        FileView::Missing => StepView::Failed(
            ConfigErrorView::FileNotFound { path: loader.pending },
        ),
        FileView::Unreadable => StepView::Failed(
            ConfigErrorView::ReadError { path: loader.pending },
        ),
        FileView::Text(text) => run(loader.stack, opened(loader.pending, text)),
    }
}

/// Going through a file never asks for a file by a relative path.
pub proof fn lemma_run_asks_absolute(stack: Seq<FrameView>, current: FrameView)
    ensures
        match run(stack, current) {
            StepView::Read(next) => next.pending.len() > 0 && next.pending[0] == '/',
            _ => true,
        },
    decreases stack.len(), current.lines.len() - current.at,
{
    if current.at >= current.lines.len() {
        if stack.len() > 0 {
            lemma_run_asks_absolute(stack.drop_last(), resumed(stack.last(), current.entries));
        }
    } else {
        let line = line_of(current.lines[current.at as int]);
        if line.inclusion is Absent {
            lemma_run_asks_absolute(
                stack,
                FrameView {
                    at: current.at + 1,
                    entries: assign(current.entries, line.assignment),
                    ..current
                },
            );
        }
    }
}

/// A loader asks only for absolute paths after the first: whatever it is
/// handed, the file it needs next, if any, is named by a path that starts
/// with `/`. An inclusion of a relative path fails and is never asked for.
pub proof fn law_asks_only_for_absolute_paths(loader: LoaderView, content: FileView)
    ensures
        match supplied(loader, content) {
            StepView::Read(next) => next.pending.len() > 0 && next.pending[0] == '/',
            _ => true,
        },
{
    match content {
        FileView::Text(text) => {
            lemma_run_asks_absolute(loader.stack, opened(loader.pending, text));
        },
        _ => {},
    }
}

/// A file that waits for the inclusion on its line `at`.
#[derive(Debug)]
struct Frame {
    path: String,
    lines: Vec<Vec<char>>,
    at: usize,
    entries: ConfigMap,
    /// The waiting line's own assignment, made once the inclusion is done.
    resume: Option<Entry>,
}

impl Frame {
    #[verifier::type_invariant]
    spec fn well_formed(&self) -> bool {
        &&& self.at < self.lines@.len()
        &&& line_of(self.lines@[self.at as int]@).assignment == match self.resume {
            Some(e) => Some((e.key@, e.value@)),
            None => None,
        }
    }
}

impl View for Frame {
    type V = FrameView;

    closed spec fn view(&self) -> FrameView {
        FrameView {
            path: self.path@,
            lines: lines_view(self.lines@),
            at: self.at as nat,
            entries: self.entries@,
        }
    }
}

/// A load under way. It waits for the content of the file at `pending`.
///
/// Inclusions are not checked for cycles: handed a file that includes
/// itself, directly or through other files, a loader asks for the same files
/// again and again, and `depth` grows without end.
#[derive(Debug)]
pub struct Loader {
    stack: Vec<Frame>,
    pending: String,
}

/// The frames held by a vector of waiting files.
spec fn frames_view(stack: Seq<Frame>) -> Seq<FrameView> {
    Seq::new(stack.len(), |i: int| stack[i]@)
}

/// The frame of the file that is being gone through.
spec fn frame_view(
    path: &String,
    lines: &Vec<Vec<char>>,
    at: usize,
    entries: &ConfigMap,
) -> FrameView {
    FrameView { path: path@, lines: lines_view(lines@), at: at as nat, entries: entries@ }
}

impl View for Loader {
    type V = LoaderView;

    closed spec fn view(&self) -> LoaderView {
        LoaderView { stack: frames_view(self.stack@), pending: self.pending@ }
    }
}

/// What a loader has come to after it was handed a file's content.
#[derive(Debug)]
pub enum Step {
    /// It needs another file: the one at the `pending` path of this loader.
    Read(Loader),
    /// The load is complete, with these properties.
    Done(ConfigMap),
    /// The load has failed.
    Failed(ConfigError),
}

impl View for Step {
    type V = StepView;

    open spec fn view(&self) -> StepView {
        match self {
            Step::Read(loader) => StepView::Read(loader@),
            Step::Done(entries) => StepView::Done(entries@),
            Step::Failed(error) => StepView::Failed(error@),
        }
    }
}

impl Loader {
    /// A loader for the file at `path`. Nothing has been read yet.
    pub fn new(path: &str) -> (out: Loader)
        ensures
            out@ == start(path@),
    {
        let out = Loader { stack: Vec::new(), pending: path.to_owned() };
        assert(out@.stack == Seq::<FrameView>::empty());
        out
    }

    /// The path of the file that the loader needs next.
    pub fn pending(&self) -> (out: &str)
        ensures
            out@ == self@.pending,
    {
        self.pending.as_str()
    }

    /// How many files wait for an inclusion to end.
    pub fn depth(&self) -> (out: usize)
        ensures
            out == self@.stack.len(),
    {
        self.stack.len()
    }

    /// Hands the loader what was found at its pending path. With a text the
    /// loader goes through its lines, and through what is left of the files
    /// that waited for it, until it needs another file, is done, or fails.
    pub fn supply(self, content: FileContent) -> (step: Step)
        ensures
            step@ == supplied(self@, content@),
    {
        let ghost before = self@;
        let Loader { stack, pending } = self;
        assert(before.stack == frames_view(stack@));
        match content {
            FileContent::Missing => Step::Failed(ConfigError::FileNotFound { path: pending }),
            FileContent::Unreadable => Step::Failed(ConfigError::ReadError { path: pending }),
            FileContent::Text(text) => {
                let chars = to_chars(text.as_str());
                let lines = split_lines(chars.as_slice());
                go(stack, pending, lines, 0, ConfigMap::new())
            },
        }
    }
}

/// Goes through the file at `path` from line `at` on, and through the files
/// on `stack` as far as each inclusion ends.
#[verifier::loop_isolation(false)]
fn go(
    stack: Vec<Frame>,
    path: String,
    lines: Vec<Vec<char>>,
    at: usize,
    entries: ConfigMap,
) -> (step: Step)
    ensures
        step@ == run(frames_view(stack@), frame_view(&path, &lines, at, &entries)),
{
    let ghost goal = run(frames_view(stack@), frame_view(&path, &lines, at, &entries));
    let mut stack = stack;
    let mut path = path;
    let mut lines = lines;
    let mut at = at;
    let mut entries = entries;
    loop
        invariant
            goal == run(frames_view(stack@), frame_view(&path, &lines, at, &entries)),
        decreases stack@.len(), lines@.len() - at,
    {
        let ghost waiting = frames_view(stack@);
        let ghost current = frame_view(&path, &lines, at, &entries);
        if at >= lines.len() {
            match stack.pop() {
                None => {
                    return Step::Done(entries);
                },
                Some(frame) => {
                    proof {
                        use_type_invariant(&frame);
                        assert(waiting.last() == frame@);
                        assert(waiting.drop_last() == frames_view(stack@));
                    }
                    let Frame { path: p, lines: l, at: a, entries: e, resume } = frame;
                    let mut e = e;
                    assert(a < l.len());
                    e.merge(&entries);
                    match resume {
                        Some(x) => {
                            e.insert(x.key, x.value);
                        },
                        None => {},
                    }
                    path = p;
                    lines = l;
                    at = a + 1;
                    entries = e;
                },
            }
        } else {
            let line = parse_line(lines[at].as_slice());
            match line.inclusion {
                Include::Absent => {
                    match line.assignment {
                        Some(x) => {
                            entries.insert(x.key, x.value);
                        },
                        None => {},
                    }
                    at = at + 1;
                },
                Include::MissingPath => {
                    let line = at + 1;
                    return Step::Failed(ConfigError::MissingIncludePath { file: path, line });
                },
                Include::Relative(token) => {
                    let line = at + 1;
                    return Step::Failed(
                        ConfigError::RelativePathNotAllowed { file: path, line, token },
                    );
                },
                Include::Absolute(target) => {
                    let frame = Frame { path, lines, at, entries, resume: line.assignment };
                    assert(frame@ == current);
                    stack.push(frame);
                    let loader = Loader { stack, pending: target };
                    assert(loader@.stack == waiting.push(current));
                    return Step::Read(loader);
                },
            }
        }
    }
}

} // verus!
