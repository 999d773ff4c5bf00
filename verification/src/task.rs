//! The task-line grammar: one task per physical line, classified by its
//! leading marker character.
//!
//! Markers: `+` marks a finished task, `-` a blocked one, `*` one not yet
//! begun, and `>` one that was started.  The task text is the remainder of
//! the line after the marker, kept exactly as written.  A line that begins
//! with no recognized marker is not a task; classification never fails.

use vstd::prelude::*;
use vstd::slice::{slice_subrange, slice_to_vec};

verus! {

/// Marker byte of a finished task: `+`.
pub const MARK_DONE: u8 = 43;

/// Marker byte of a blocked task: `-`.
pub const MARK_BLOCKED: u8 = 45;

/// Marker byte of a task not yet begun: `*`.
pub const MARK_TODO: u8 = 42;

/// Marker byte of a started task: `>`.
pub const MARK_STARTED: u8 = 62;

/// The line separator: `\n`.
pub const NEWLINE: u8 = 10;

/// The four states a task can be in.
#[derive(Clone, Copy, PartialEq, Eq, Structural, Debug)]
pub enum TaskStatus {
    ToDo,
    Started,
    Blocked,
    Done,
}

/// The mathematical image of a [`Task`]: its status and the bytes of its text.
#[verifier::ext_equal]
pub ghost struct TaskView {
    pub status: TaskStatus,
    pub text: Seq<u8>,
}

impl TaskView {
    /// A task is line-shaped: its text holds no newline, so it can be
    /// written back as a single line.
    pub open spec fn wf(self) -> bool {
        forall|i: int| 0 <= i < self.text.len() ==> self.text[i] != NEWLINE
    }
}

/// A single parsed task line.
#[derive(Debug)]
pub struct Task {
    status: TaskStatus,
    text: Vec<u8>,
}

impl View for Task {
    type V = TaskView;

    closed spec fn view(&self) -> TaskView {
        TaskView { status: self.status, text: self.text@ }
    }
}

/// The status a marker byte stands for, if it is a marker at all.
pub open spec fn status_of_marker(c: u8) -> Option<TaskStatus> {
    if c == MARK_DONE {
        Some(TaskStatus::Done)
    } else if c == MARK_BLOCKED {
        Some(TaskStatus::Blocked)
    } else if c == MARK_TODO {
        Some(TaskStatus::ToDo)
    } else if c == MARK_STARTED {
        Some(TaskStatus::Started)
    } else {
        None
    }
}

/// The marker byte that renders a status.
pub open spec fn marker_of(s: TaskStatus) -> u8 {
    match s {
        TaskStatus::Done => MARK_DONE,
        TaskStatus::Blocked => MARK_BLOCKED,
        TaskStatus::ToDo => MARK_TODO,
        TaskStatus::Started => MARK_STARTED,
    }
}

/// What a line parses to: a task when it starts with a marker, nothing
/// otherwise.  Total: every line is classified, none is an error.
pub open spec fn parse_line_spec(line: Seq<u8>) -> Option<TaskView> {
    if line.len() > 0 && status_of_marker(line[0]) is Some {
        Some(TaskView { status: status_of_marker(line[0]).unwrap(), text: line.skip(1) })
    } else {
        None
    }
}

/// The line a task is written back as: its marker followed by its text.
pub open spec fn render_line_spec(t: TaskView) -> Seq<u8> {
    seq![marker_of(t.status)] + t.text
}

impl Task {
    /// Builds a task from its parts.
    pub fn new(status: TaskStatus, text: Vec<u8>) -> (r: Task)
        ensures
            r@ == (TaskView { status, text: text@ }),
    {
        Task { status, text }
    }

    /// The task's status.
    pub fn status(&self) -> (r: TaskStatus)
        ensures
            r == self@.status,
    {
        self.status
    }

    /// The task's text, the remainder of its line after the marker.
    pub fn text(&self) -> (r: &Vec<u8>)
        ensures
            r@ == self@.text,
    {
        &self.text
    }

    /// Renders the task back into a line: marker, then text.
    pub fn to_line(&self) -> (r: Vec<u8>)
        ensures
            r@ == render_line_spec(self@),
    {
        let mut out: Vec<u8> = Vec::new();
        out.push(marker_byte(self.status));
        let mut rest = slice_to_vec(self.text.as_slice());
        out.append(&mut rest);
        proof {
            assert(out@ =~= render_line_spec(self@));
        }
        out
    }
}

impl PartialEq for Task {
    fn eq(&self, other: &Task) -> (r: bool) {
        self.status == other.status && {
            let a = self.text.as_slice();
            let b = other.text.as_slice();
            if a.len() != b.len() {
                false
            } else {
                let mut i: usize = 0;
                let mut same = true;
                while i < a.len()
                    invariant
                        0 <= i <= a.len(),
                        a.len() == b.len(),
                        same <==> a@.subrange(0, i as int) =~= b@.subrange(0, i as int),
                    decreases a.len() - i,
                {
                    if a[i] != b[i] {
                        proof {
                            assert(a@.subrange(0, i + 1)[i as int] != b@.subrange(0, i + 1)[
                                i as int
                            ]);
                        }
                        same = false;
                    } else {
                        proof {
                            if same {
                                assert(a@.subrange(0, i + 1) =~= b@.subrange(0, i + 1));
                            } else {
                                let j = choose|j: int|
                                    0 <= j < i && a@.subrange(0, i as int)[j] != b@.subrange(
                                        0,
                                        i as int,
                                    )[j];
                                assert(a@.subrange(0, i + 1)[j] != b@.subrange(0, i + 1)[j]);
                            }
                        }
                    }
                    i = i + 1;
                }
                proof {
                    if same {
                        assert(a@ =~= a@.subrange(0, a@.len() as int));
                        assert(b@ =~= b@.subrange(0, b@.len() as int));
                    }
                }
                same
            }
        }
    }
}

impl vstd::std_specs::cmp::PartialEqSpecImpl for Task {
    open spec fn obeys_eq_spec() -> bool {
        true
    }

    open spec fn eq_spec(&self, other: &Task) -> bool {
        self@.status == other@.status && self@.text == other@.text
    }
}

/// The marker byte for a status, as executable code.
pub fn marker_byte(s: TaskStatus) -> (r: u8)
    ensures
        r == marker_of(s),
{
    match s {
        TaskStatus::Done => MARK_DONE,
        TaskStatus::Blocked => MARK_BLOCKED,
        TaskStatus::ToDo => MARK_TODO,
        TaskStatus::Started => MARK_STARTED,
    }
}

/// Classifies one line.  Returns the parsed task for a marker line and
/// nothing for any other line; it never fails.
pub fn parse_line(line: &[u8]) -> (r: Option<Task>)
    ensures
        r is Some <==> parse_line_spec(line@) is Some,
        r matches Some(t) ==> parse_line_spec(line@) == Some(t@),
{
    if line.len() == 0 {
        return None;
    }
    let c = line[0];
    let status = if c == MARK_DONE {
        TaskStatus::Done
    } else if c == MARK_BLOCKED {
        TaskStatus::Blocked
    } else if c == MARK_TODO {
        TaskStatus::ToDo
    } else if c == MARK_STARTED {
        TaskStatus::Started
    } else {
        return None;
    };
    let text = slice_to_vec(slice_subrange(line, 1, line.len()));
    proof {
        assert(text@ =~= line@.skip(1));
    }
    Some(Task { status, text })
}

/// Every line whose first byte is a marker parses to a task with the
/// matching status, the text being the rest of the line exactly as written.
pub proof fn lemma_marker_line_parses(line: Seq<u8>)
    requires
        line.len() > 0,
    ensures
        line[0] == MARK_DONE ==> parse_line_spec(line) == Some(
            TaskView { status: TaskStatus::Done, text: line.skip(1) },
        ),
        line[0] == MARK_BLOCKED ==> parse_line_spec(line) == Some(
            TaskView { status: TaskStatus::Blocked, text: line.skip(1) },
        ),
        line[0] == MARK_TODO ==> parse_line_spec(line) == Some(
            TaskView { status: TaskStatus::ToDo, text: line.skip(1) },
        ),
        line[0] == MARK_STARTED ==> parse_line_spec(line) == Some(
            TaskView { status: TaskStatus::Started, text: line.skip(1) },
        ),
{
}

/// Every line that does not begin with a recognized marker, the empty line
/// included, parses to nothing.
pub proof fn lemma_unmarked_line_ignored(line: Seq<u8>)
    requires
        line.len() == 0 || status_of_marker(line[0]) is None,
    ensures
        parse_line_spec(line) is None,
{
}

/// Rendering a task and parsing the line back yields the task unchanged,
/// whatever its status and text.
pub proof fn lemma_line_round_trip(t: TaskView)
    ensures
        parse_line_spec(render_line_spec(t)) == Some(t),
{
    let line = render_line_spec(t);
    assert(line[0] == marker_of(t.status));
    assert(status_of_marker(marker_of(t.status)) == Some(t.status));
    assert(line.skip(1) =~= t.text);
    assert(parse_line_spec(line).unwrap() =~= t);
}

/// A line that parses to a task is rendered back, byte for byte, by that
/// task: nothing of a task line is lost in parsing.
pub proof fn lemma_parse_line_exact(line: Seq<u8>)
    ensures
        parse_line_spec(line) matches Some(t) ==> render_line_spec(t) == line,
{
    if parse_line_spec(line) is Some {
        let t = parse_line_spec(line).unwrap();
        assert(render_line_spec(t) =~= line);
    }
}

} // verus!
