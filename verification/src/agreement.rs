//! The loader agrees with the meaning of loading: every step it takes leaves
//! the outcome that the load is heading for unchanged.
use crate::line::{line_of, IncludeView};
use crate::loader::{opened, resumed, run, start, supplied, FrameView, LoaderView, StepView};
use crate::semantics::{assign, load, load_lines, FileView, Files, Outcome};
use vstd::prelude::*;

verus! {

/// The outcome of going on in `frame`, where inclusions may nest `depth`
/// deep below it.
pub open spec fn proceed(files: Files, frame: FrameView, depth: nat) -> Outcome {
    load_lines(files, frame.path, frame.lines, frame.at, frame.entries, depth)
}

/// The outcome of the whole load once the inclusion that the innermost file
/// of `stack` waits for has ended with `result`: a failure ends everything;
/// a mapping lets the waiting file go on, and its end is handed further out
/// in the same way. Below the innermost file inclusions may nest `depth` deep.
pub open spec fn unwind(
    files: Files,
    stack: Seq<FrameView>,
    result: Outcome,
    depth: nat,
) -> Outcome
    decreases stack.len(),
{
    if stack.len() == 0 {
        result
    } else {
        match result {
            Outcome::Loaded(included) => unwind(
                files,
                stack.drop_last(),
                proceed(files, resumed(stack.last(), included), depth),
                depth + 1,
            ),
            other => other,
        }
    }
}

/// The outcome that `loader` is heading for, where `files` says what every
/// path holds and inclusions may nest `depth` deep below the outermost file.
pub open spec fn heading_for(
    files: Files,
    loader: LoaderView,
    depth: nat,
) -> Outcome {
    if depth < loader.stack.len() {
        Outcome::TooDeep
    } else {
        let below = (depth - loader.stack.len()) as nat;
        unwind(files, loader.stack, load(files, loader.pending, below), below + 1)
    }
}

/// The outcome that a step has reached or is heading for.
pub open spec fn after(files: Files, step: StepView, depth: nat) -> Outcome {
    match step {
        StepView::Read(loader) => heading_for(files, loader, depth),
        StepView::Done(entries) => Outcome::Loaded(entries),
        StepView::Failed(error) => Outcome::Failed(error),
    }
}

/// Going through a file, with the files that wait behind it, leads to the
/// outcome that the rest of that file and of the waiting files stands for.
pub proof fn lemma_run_agrees(
    files: Files,
    stack: Seq<FrameView>,
    current: FrameView,
    below: nat,
)
    ensures
        after(files, run(stack, current), below + stack.len()) == unwind(
            files,
            stack,
            proceed(files, current, below),
            below + 1,
        ),
    decreases stack.len(), current.lines.len() - current.at,
{
    if current.at >= current.lines.len() {
        if stack.len() > 0 {
            let parent = resumed(stack.last(), current.entries);
            lemma_run_agrees(files, stack.drop_last(), parent, below + 1);
        }
    } else {
        let line = line_of(current.lines[current.at as int]);
        match line.inclusion {
            IncludeView::Absent => {
                let next = FrameView {
                    at: current.at + 1,
                    entries: assign(current.entries, line.assignment),
                    ..current
                };
                lemma_run_agrees(files, stack, next, below);
            },
            IncludeView::Absolute(target) => {
                let waiting = stack.push(current);
                assert(waiting.drop_last() == stack);
                assert(waiting.last() == current);
            },
            _ => {},
        }
    }
}

/// A loader that has read nothing yet is heading for the outcome of loading
/// its file.
pub proof fn law_start_agrees(files: Files, path: Seq<char>, depth: nat)
    ensures
        heading_for(files, start(path), depth) == load(files, path, depth),
{
}

/// A step keeps the outcome: when a loader is handed what its pending path
/// holds, the step it takes has reached, or is heading for, the outcome that
/// the loader was heading for. (Where the allowed depth is less than the
/// number of files that already wait, that outcome is undecided.)
pub proof fn law_step_agrees(files: Files, loader: LoaderView, depth: nat)
    requires
        depth >= loader.stack.len(),
    ensures
        after(files, supplied(loader, files(loader.pending)), depth) == heading_for(
            files,
            loader,
            depth,
        ),
{
    let below = (depth - loader.stack.len()) as nat;
    match files(loader.pending) {
        FileView::Text(text) => {
            lemma_run_agrees(files, loader.stack, opened(loader.pending, text), below);
        },
        _ => {},
    }
}

/// The outcome of handing `loader` what `files` holds at each path it asks
/// for, until it is done; `None` if `reads` files do not suffice.
pub open spec fn drive(
    files: Files,
    loader: LoaderView,
    reads: nat,
) -> Option<Outcome>
    decreases reads,
{
    if reads == 0 {
        None
    } else {
        match supplied(loader, files(loader.pending)) {
            StepView::Read(next) => drive(files, next, (reads - 1) as nat),
            StepView::Done(entries) => Some(Outcome::Loaded(entries)),
            StepView::Failed(error) => Some(Outcome::Failed(error)),
        }
    }
}

/// How many files are read in loading the file at `path`, itself included.
pub open spec fn reads_of(files: Files, path: Seq<char>, depth: nat) -> nat
    decreases depth, 1nat, 0nat,
{
    match files(path) {
        FileView::Text(text) => 1 + reads_in(files, opened(path, text), depth),
        _ => 1,
    }
}

/// How many files are read in going on in `frame`.
pub open spec fn reads_in(files: Files, frame: FrameView, depth: nat) -> nat
    decreases depth, 0nat, frame.lines.len() - frame.at,
{
    if frame.at >= frame.lines.len() {
        0
    } else {
        let line = line_of(frame.lines[frame.at as int]);
        match line.inclusion {
            IncludeView::Absent => reads_in(
                files,
                FrameView {
                    at: frame.at + 1,
                    entries: assign(frame.entries, line.assignment),
                    ..frame
                },
                depth,
            ),
            IncludeView::Absolute(target) => if depth == 0 {
                0
            } else {
                reads_of(files, target, (depth - 1) as nat) + match load(
                    files,
                    target,
                    (depth - 1) as nat,
                ) {
                    Outcome::Loaded(included) => reads_in(files, resumed(frame, included), depth),
                    _ => 0,
                }
            },
            _ => 0,
        }
    }
}

/// How many files are read after the inclusion that the innermost file of
/// `stack` waits for has ended with `result`.
pub open spec fn reads_after(
    files: Files,
    stack: Seq<FrameView>,
    result: Outcome,
    depth: nat,
) -> nat
    decreases stack.len(),
{
    if stack.len() == 0 {
        0
    } else {
        match result {
            Outcome::Loaded(included) => reads_in(files, resumed(stack.last(), included), depth)
                + reads_after(
                files,
                stack.drop_last(),
                proceed(files, resumed(stack.last(), included), depth),
                depth + 1,
            ),
            _ => 0,
        }
    }
}

/// How many files `loader` has yet to be handed.
pub open spec fn reads_left(
    files: Files,
    loader: LoaderView,
    depth: nat,
) -> nat {
    if depth < loader.stack.len() {
        0
    } else {
        let below = (depth - loader.stack.len()) as nat;
        reads_of(files, loader.pending, below) + reads_after(
            files,
            loader.stack,
            load(files, loader.pending, below),
            below + 1,
        )
    }
}

/// How many files are yet to be read after a step.
pub open spec fn reads_left_after(
    files: Files,
    step: StepView,
    depth: nat,
) -> nat {
    match step {
        StepView::Read(loader) => reads_left(files, loader, depth),
        _ => 0,
    }
}

/// Going through a file, with the files that wait behind it, leaves as many
/// files to read as the rest of that file and of the waiting files asks for.
pub proof fn lemma_run_reads(
    files: Files,
    stack: Seq<FrameView>,
    current: FrameView,
    below: nat,
)
    ensures
        reads_left_after(files, run(stack, current), below + stack.len()) == reads_in(
            files,
            current,
            below,
        ) + reads_after(files, stack, proceed(files, current, below), below + 1),
    decreases stack.len(), current.lines.len() - current.at,
{
    if current.at >= current.lines.len() {
        if stack.len() > 0 {
            let parent = resumed(stack.last(), current.entries);
            lemma_run_reads(files, stack.drop_last(), parent, below + 1);
        }
    } else {
        let line = line_of(current.lines[current.at as int]);
        match line.inclusion {
            IncludeView::Absent => {
                let next = FrameView {
                    at: current.at + 1,
                    entries: assign(current.entries, line.assignment),
                    ..current
                };
                lemma_run_reads(files, stack, next, below);
            },
            IncludeView::Absolute(target) => {
                let waiting = stack.push(current);
                assert(waiting.drop_last() == stack);
                assert(waiting.last() == current);
            },
            _ => {},
        }
    }
}

/// Each step reads one file: a loader that is handed what its pending path
/// holds has one file less to read.
pub proof fn law_step_reads_one(files: Files, loader: LoaderView, depth: nat)
    requires
        depth >= loader.stack.len(),
    ensures
        reads_left(files, loader, depth) == 1 + reads_left_after(
            files,
            supplied(loader, files(loader.pending)),
            depth,
        ),
{
    let below = (depth - loader.stack.len()) as nat;
    match files(loader.pending) {
        FileView::Text(text) => {
            lemma_run_reads(files, loader.stack, opened(loader.pending, text), below);
        },
        _ => {},
    }
}

/// The loader completes every load that is decided: where the outcome that
/// `loader` is heading for is decided within `depth`, handing it the files
/// it asks for ends, after exactly `reads_left` files, with that outcome.
pub proof fn law_drive_completes(files: Files, loader: LoaderView, depth: nat)
    requires
        heading_for(files, loader, depth) != Outcome::TooDeep,
    ensures
        drive(files, loader, reads_left(files, loader, depth)) == Some(
            heading_for(files, loader, depth),
        ),
    decreases reads_left(files, loader, depth),
{
    law_step_agrees(files, loader, depth);
    law_step_reads_one(files, loader, depth);
    match supplied(loader, files(loader.pending)) {
        StepView::Read(next) => {
            law_drive_completes(files, next, depth);
        },
        _ => {},
    }
}

/// The loader computes what loading means: where loading the file at `path`
/// has an outcome that is decided within `depth`, a fresh loader that is
/// handed the files it asks for ends with exactly that outcome, after as
/// many files as the load reads.
pub proof fn law_loader_computes_load(files: Files, path: Seq<char>, depth: nat)
    requires
        load(files, path, depth) != Outcome::TooDeep,
    ensures
        drive(files, start(path), reads_of(files, path, depth)) == Some(load(files, path, depth)),
{
    law_drive_completes(files, start(path), depth);
}

/// Whatever the loader ends with is what loading means: where handing
/// `loader` the files it asks for ends with `outcome`, every allowed depth at
/// which the outcome it is heading for is decided gives that same outcome.
pub proof fn law_drive_is_sound(
    files: Files,
    loader: LoaderView,
    reads: nat,
    depth: nat,
)
    requires
        drive(files, loader, reads) is Some,
    ensures
        drive(files, loader, reads)->0 != Outcome::TooDeep,
        heading_for(files, loader, depth) == Outcome::TooDeep || heading_for(files, loader, depth)
            == drive(files, loader, reads)->0,
    decreases reads,
{
    if depth >= loader.stack.len() {
        law_step_agrees(files, loader, depth);
    }
    match supplied(loader, files(loader.pending)) {
        StepView::Read(next) => {
            law_drive_is_sound(files, next, (reads - 1) as nat, depth);
        },
        _ => {},
    }
}

} // verus!
