//! The devlog entry loader: splits a file's bytes into lines and parses the
//! task lines, leaving out everything inside fenced code regions.
//!
//! A line that starts with three backticks toggles the fence; lines inside an
//! open fence are never parsed as tasks, and an unterminated fence exempts
//! the rest of the file.  Lines are separated by `\n`.

use crate::task::{parse_line, parse_line_spec, Task, TaskView, NEWLINE};
use vstd::prelude::*;
use vstd::slice::slice_subrange;

verus! {

/// The backtick byte that delimits fenced regions.
pub const BACKTICK: u8 = 96;

/// Whether a line toggles the fenced (free-form) region: it starts with
/// three backticks.
pub open spec fn is_fence(line: Seq<u8>) -> bool {
    line.len() >= 3 && line[0] == BACKTICK && line[1] == BACKTICK && line[2] == BACKTICK
}

/// The index of the first newline in `s`, or `s.len()` if there is none.
pub open spec fn first_newline(s: Seq<u8>) -> int
    decreases s.len(),
{
    if s.len() == 0 {
        0
    } else if s[0] == NEWLINE {
        0
    } else {
        1 + first_newline(s.skip(1))
    }
}

pub proof fn lemma_first_newline(s: Seq<u8>)
    ensures
        0 <= first_newline(s) <= s.len(),
        first_newline(s) < s.len() ==> s[first_newline(s)] == NEWLINE,
        forall|i: int| 0 <= i < first_newline(s) ==> s[i] != NEWLINE,
    decreases s.len(),
{
    if s.len() > 0 && s[0] != NEWLINE {
        lemma_first_newline(s.skip(1));
        let k = first_newline(s.skip(1));
        assert forall|i: int| 0 <= i < first_newline(s) implies s[i] != NEWLINE by {
            if i > 0 {
                assert(s.skip(1)[i - 1] != NEWLINE);
            }
        }
    }
}

/// The first newline stands where the newline-free prefix ends: `k` is the
/// index of the first newline if nothing before it is one and either a
/// newline stands there or the sequence ends there.
pub proof fn lemma_first_newline_at(s: Seq<u8>, k: int)
    requires
        0 <= k <= s.len(),
        forall|i: int| 0 <= i < k ==> s[i] != NEWLINE,
        k < s.len() ==> s[k] == NEWLINE,
    ensures
        first_newline(s) == k,
{
    lemma_first_newline(s);
}

/// The lines of a byte sequence, separated by `\n`.  A trailing newline ends
/// the last line rather than opening an empty one, as a line-by-line reader
/// sees a text file.
pub open spec fn lines_of(s: Seq<u8>) -> Seq<Seq<u8>>
    decreases s.len(),
    via lines_of_decreases
{
    if s.len() == 0 {
        Seq::empty()
    } else {
        let i = first_newline(s);
        if i == s.len() {
            seq![s]
        } else {
            seq![s.take(i)] + lines_of(s.skip(i + 1))
        }
    }
}

#[via_fn]
proof fn lines_of_decreases(s: Seq<u8>) {
    lemma_first_newline(s);
}

/// The tasks of a sequence of lines, given whether a fence is already open:
/// a fence line toggles the fence and is never a task; a line inside an open
/// fence is skipped; any other line contributes its parse, if it is a task.
pub open spec fn tasks_of_lines(lines: Seq<Seq<u8>>, fenced: bool) -> Seq<TaskView>
    decreases lines.len(),
{
    if lines.len() == 0 {
        Seq::empty()
    } else {
        let rest = lines.skip(1);
        if is_fence(lines[0]) {
            tasks_of_lines(rest, !fenced)
        } else if fenced {
            tasks_of_lines(rest, fenced)
        } else {
            match parse_line_spec(lines[0]) {
                Some(t) => seq![t] + tasks_of_lines(rest, fenced),
                None => tasks_of_lines(rest, fenced),
            }
        }
    }
}

/// The tasks of a whole file's bytes: its lines, read with no fence open.
pub open spec fn tasks_of_content(s: Seq<u8>) -> Seq<TaskView> {
    tasks_of_lines(lines_of(s), false)
}

/// A line as the splitter produces it: it holds no newline.
pub open spec fn line_wf(l: Seq<u8>) -> bool {
    forall|i: int| 0 <= i < l.len() ==> l[i] != NEWLINE
}

/// Every line the splitter produces is newline-free.
pub proof fn lemma_lines_no_newline(s: Seq<u8>)
    ensures
        forall|k: int| 0 <= k < lines_of(s).len() ==> line_wf(#[trigger] lines_of(s)[k]),
    decreases s.len(),
{
    lemma_first_newline(s);
    if s.len() > 0 {
        let i = first_newline(s);
        if i == s.len() {
            assert(line_wf(s));
        } else {
            assert(line_wf(s.take(i)));
            lemma_lines_no_newline(s.skip(i + 1));
            assert forall|k: int| 0 <= k < lines_of(s).len() implies line_wf(
                #[trigger] lines_of(s)[k],
            ) by {
                if k > 0 {
                    assert(lines_of(s)[k] == lines_of(s.skip(i + 1))[k - 1]);
                }
            }
        }
    }
}

/// Every task parsed from newline-free lines is line-shaped.
pub proof fn lemma_tasks_of_lines_wf(lines: Seq<Seq<u8>>, fenced: bool)
    requires
        forall|k: int| 0 <= k < lines.len() ==> line_wf(#[trigger] lines[k]),
    ensures
        forall|j: int|
            0 <= j < tasks_of_lines(lines, fenced).len() ==> (#[trigger] tasks_of_lines(
                lines,
                fenced,
            )[j]).wf(),
    decreases lines.len(),
{
    if lines.len() > 0 {
        let rest = lines.skip(1);
        assert(forall|k: int| 0 <= k < rest.len() ==> rest[k] == lines[k + 1]);
        if is_fence(lines[0]) {
            lemma_tasks_of_lines_wf(rest, !fenced);
            assert(tasks_of_lines(lines, fenced) == tasks_of_lines(rest, !fenced));
        } else if fenced {
            lemma_tasks_of_lines_wf(rest, fenced);
            assert(tasks_of_lines(lines, fenced) == tasks_of_lines(rest, fenced));
        } else {
            lemma_tasks_of_lines_wf(rest, fenced);
            match parse_line_spec(lines[0]) {
                Some(t) => {
                    assert(t.wf()) by {
                        assert(forall|i: int|
                            0 <= i < t.text.len() ==> t.text[i] == lines[0][i + 1]);
                    }
                    assert(tasks_of_lines(lines, fenced) == seq![t] + tasks_of_lines(
                        rest,
                        fenced,
                    ));
                    assert forall|j: int|
                        0 <= j < tasks_of_lines(lines, fenced).len() implies (
                    #[trigger] tasks_of_lines(lines, fenced)[j]).wf() by {
                        if j == 0 {
                            assert(tasks_of_lines(lines, fenced)[0] == t);
                        } else {
                            assert(tasks_of_lines(lines, fenced)[j] == tasks_of_lines(
                                rest,
                                fenced,
                            )[j - 1]);
                        }
                    }
                },
                None => {
                    assert(tasks_of_lines(lines, fenced) == tasks_of_lines(rest, fenced));
                },
            }
        }
    }
}

/// Every task a file's bytes parse to is line-shaped: its text holds no
/// newline, so it can be rendered back onto one line.
pub proof fn lemma_loaded_tasks_wf(s: Seq<u8>)
    ensures
        forall|j: int|
            0 <= j < tasks_of_content(s).len() ==> (#[trigger] tasks_of_content(s)[j]).wf(),
{
    lemma_lines_no_newline(s);
    lemma_tasks_of_lines_wf(lines_of(s), false);
}

/// Whether a fence is open when line `i` is reached: the parity of the
/// fence-marker lines among the first `i` lines.
pub open spec fn fence_open(lines: Seq<Seq<u8>>, i: int) -> bool
    decreases i,
{
    if i <= 0 {
        false
    } else if is_fence(lines[i - 1]) {
        !fence_open(lines, i - 1)
    } else {
        fence_open(lines, i - 1)
    }
}

/// What one line contributes to the parsed sequence: nothing when it is a
/// fence marker or stands inside an open fence, its parsed task otherwise.
pub open spec fn line_contribution(lines: Seq<Seq<u8>>, i: int) -> Seq<TaskView> {
    if is_fence(lines[i]) || fence_open(lines, i) {
        Seq::empty()
    } else {
        match parse_line_spec(lines[i]) {
            Some(t) => seq![t],
            None => Seq::empty(),
        }
    }
}

/// The concatenated contributions of the lines from `i` on.
pub open spec fn contributions_from(lines: Seq<Seq<u8>>, i: int) -> Seq<TaskView>
    decreases lines.len() - i when 0 <= i <= lines.len()
{
    if i >= lines.len() {
        Seq::empty()
    } else {
        line_contribution(lines, i) + contributions_from(lines, i + 1)
    }
}

proof fn lemma_contributions_from(lines: Seq<Seq<u8>>, i: int)
    requires
        0 <= i <= lines.len(),
    ensures
        tasks_of_lines(lines.skip(i), fence_open(lines, i)) == contributions_from(lines, i),
    decreases lines.len() - i,
{
    if i < lines.len() {
        lemma_contributions_from(lines, i + 1);
        let rest = lines.skip(i);
        assert(rest[0] == lines[i]);
        assert(rest.skip(1) =~= lines.skip(i + 1));
        assert(tasks_of_lines(lines.skip(i), fence_open(lines, i)) =~= contributions_from(
            lines,
            i,
        ));
    } else {
        assert(lines.skip(i) =~= Seq::<Seq<u8>>::empty());
    }
}

/// The fenced-code exemption, line by line: the parsed sequence is exactly
/// the concatenation of each line's contribution, and a task-shaped line
/// contributes its task when it stands outside every fence, and nothing at
/// all when it stands strictly inside one, however many complete fence
/// pairs come before it.
pub proof fn lemma_fence_exclusion(lines: Seq<Seq<u8>>)
    ensures
        tasks_of_lines(lines, false) == contributions_from(lines, 0),
        forall|i: int|
            0 <= i < lines.len() && (is_fence(lines[i]) || fence_open(lines, i))
                ==> #[trigger] line_contribution(lines, i) == Seq::<TaskView>::empty(),
        forall|i: int|
            0 <= i < lines.len() && !is_fence(lines[i]) && !fence_open(lines, i)
                && parse_line_spec(lines[i]) is Some ==> #[trigger] line_contribution(lines, i)
                == seq![parse_line_spec(lines[i]).unwrap()],
{
    lemma_contributions_from(lines, 0);
    assert(lines.skip(0) =~= lines);
}

/// Splits content into its lines.
pub fn split_lines(content: &[u8]) -> (r: Vec<Vec<u8>>)
    ensures
        r.deep_view() == lines_of(content@),
{
    let mut r: Vec<Vec<u8>> = Vec::new();
    let mut pos: usize = 0;
    proof {
        assert(content@.skip(0) =~= content@);
        assert(r.deep_view() =~~= Seq::<Seq<u8>>::empty());
        assert(r.deep_view() + lines_of(content@) =~= lines_of(content@));
    }
    while pos < content.len()
        invariant
            0 <= pos <= content@.len(),
            lines_of(content@) == r.deep_view() + lines_of(content@.skip(pos as int)),
        decreases content@.len() - pos,
    {
        let ghost rest = content@.skip(pos as int);
        let mut end: usize = pos;
        while end < content.len() && content[end] != NEWLINE
            invariant
                0 <= pos <= end <= content@.len(),
                forall|i: int| pos <= i < end ==> content@[i] != NEWLINE,
            decreases content@.len() - end,
        {
            end = end + 1;
        }
        proof {
            lemma_first_newline(rest);
            assert(forall|i: int| 0 <= i < rest.len() ==> rest[i] == content@[pos + i]);
            if end < content@.len() {
                assert(rest[end - pos] == NEWLINE);
            }
            assert(first_newline(rest) == end - pos);
        }
        let line = slice_subrange(content, pos, end);
        let owned: Vec<u8> = vstd::slice::slice_to_vec(line);
        let ghost pre_deep = r.deep_view();
        r.push(owned);
        proof {
            assert(r.deep_view() =~~= pre_deep + seq![owned@]);
            assert(owned@ =~= rest.take(end - pos));
            if end == content@.len() {
                assert(rest =~= rest.take(end - pos));
                assert(lines_of(rest) == seq![owned@]);
                assert(content@.skip(content@.len() as int) =~= Seq::<u8>::empty());
                assert(lines_of(content@.skip(content@.len() as int)) == Seq::<Seq<u8>>::empty());
            } else {
                assert(rest.skip(end - pos + 1) =~= content@.skip(end + 1));
                assert(lines_of(rest) == seq![owned@] + lines_of(content@.skip(end + 1)));
            }
        }
        if end == content.len() {
            pos = end;
            proof {
                assert(lines_of(content@) =~= r.deep_view() + lines_of(
                    content@.skip(pos as int),
                ));
            }
        } else {
            pos = end + 1;
            proof {
                assert(lines_of(content@) =~= r.deep_view() + lines_of(
                    content@.skip(pos as int),
                ));
            }
        }
    }
    proof {
        assert(content@.skip(pos as int) =~= Seq::<u8>::empty());
        assert(lines_of(content@) =~= r.deep_view());
    }
    r
}

/// A devlog entry file, reduced to its ordered sequence of tasks.
pub struct LogFile {
    tasks: Vec<Task>,
}

impl View for LogFile {
    type V = Seq<TaskView>;

    closed spec fn view(&self) -> Seq<TaskView> {
        self.tasks@.map_values(|t: Task| t@)
    }
}

impl LogFile {
    /// Parses a file's bytes: splits it into lines and collects the task
    /// lines that stand outside every fenced region, in file order.
    pub fn parse(content: &[u8]) -> (r: LogFile)
        ensures
            r@ == tasks_of_content(content@),
    {
        let lines = split_lines(content);
        let ghost all = lines.deep_view();
        let mut tasks: Vec<Task> = Vec::new();
        let mut fenced = false;
        let mut i: usize = 0;
        proof {
            assert(all.skip(0) =~= all);
            assert(tasks@.map_values(|t: Task| t@) =~= Seq::<TaskView>::empty());
            assert(tasks@.map_values(|t: Task| t@) + tasks_of_lines(all, false) =~= tasks_of_lines(
                all,
                false,
            ));
        }
        while i < lines.len()
            invariant
                0 <= i <= lines@.len(),
                all == lines.deep_view(),
                all.len() == lines@.len(),
                forall|j: int| 0 <= j < all.len() ==> all[j] == lines@[j]@,
                tasks_of_content(content@) == tasks@.map_values(|t: Task| t@) + tasks_of_lines(
                    all.skip(i as int),
                    fenced,
                ),
            decreases lines@.len() - i,
        {
            let ghost pre = tasks@.map_values(|t: Task| t@);
            let ghost rest = all.skip(i as int);
            proof {
                assert(rest.len() > 0);
                assert(rest[0] == all[i as int]);
                assert(rest.skip(1) =~= all.skip(i as int + 1));
            }
            let line = &lines[i];
            let fence = line.len() >= 3 && {
                let s = line.as_slice();
                s[0] == BACKTICK && s[1] == BACKTICK && s[2] == BACKTICK
            };
            proof {
                assert(fence == is_fence(all[i as int]));
            }
            if fence {
                fenced = !fenced;
            } else if !fenced {
                match parse_line(line.as_slice()) {
                    Some(t) => {
                        tasks.push(t);
                        proof {
                            assert(tasks@.map_values(|t: Task| t@) =~= pre + seq![t@]);
                            assert(seq![t@] + tasks_of_lines(rest.skip(1), fenced) =~= seq![t@]
                                + tasks_of_lines(all.skip(i as int + 1), fenced));
                        }
                    },
                    None => {
                    },
                }
            }
            i = i + 1;
        }
        proof {
            assert(all.skip(i as int) =~= Seq::<Seq<u8>>::empty());
            assert(tasks@.map_values(|t: Task| t@) =~= tasks_of_content(content@));
        }
        LogFile { tasks }
    }

    /// Builds an in-memory entry from already-parsed tasks.
    pub fn from_tasks(tasks: Vec<Task>) -> (r: LogFile)
        ensures
            r@ == tasks@.map_values(|t: Task| t@),
    {
        LogFile { tasks }
    }

    /// The tasks contained in the devlog entry file, in file order.
    pub fn tasks(&self) -> (r: &[Task])
        ensures
            r@.map_values(|t: Task| t@) == self@,
    {
        self.tasks.as_slice()
    }
}

} // verus!
