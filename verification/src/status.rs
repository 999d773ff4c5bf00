//! The status aggregator: picks the log file a back-offset points at and
//! renders its tasks, grouped by status.
//!
//! A report holds one labelled section per selected status, each section
//! listing that status's tasks in file order.  A selected group with no
//! tasks still renders its labelled, empty section, so a reader can tell
//! "no such tasks" from "no such status".

use crate::error::Error;
use crate::repository::{tail, LogName};
use crate::rollover::render_file_spec;
use crate::task::{Task, TaskStatus, TaskView, NEWLINE};
use vstd::prelude::*;
use vstd::seq_lib::*;

verus! {

/// The byte that ends a section label: `:`.
pub const COLON: u8 = 58;

/// What a status report shows: every group, or a single named one.
#[derive(Clone, Copy, PartialEq, Eq, Structural, Debug)]
pub enum DisplayMode {
    ShowAll,
    ShowOnly(TaskStatus),
}

/// The label of a status's section.
pub open spec fn label_of(st: TaskStatus) -> Seq<u8> {
    match st {
        TaskStatus::ToDo => seq![84u8, 111u8, 32u8, 68u8, 111u8],  // "To Do"
        TaskStatus::Started => seq![83u8, 116u8, 97u8, 114u8, 116u8, 101u8, 100u8],  // "Started"
        TaskStatus::Blocked => seq![66u8, 108u8, 111u8, 99u8, 107u8, 101u8, 100u8],  // "Blocked"
        TaskStatus::Done => seq![68u8, 111u8, 110u8, 101u8],  // "Done"
    }
}

/// One status's group: the tasks of that status, in their original order.
pub open spec fn group_of(ts: Seq<TaskView>, st: TaskStatus) -> Seq<TaskView> {
    ts.filter(|t: TaskView| t.status == st)
}

/// One rendered section: the label line, then the group's task lines, then
/// a blank line.  An empty group still renders its labelled section.
pub open spec fn section_spec(ts: Seq<TaskView>, st: TaskStatus) -> Seq<u8> {
    label_of(st) + seq![COLON, NEWLINE] + render_file_spec(group_of(ts, st)) + seq![NEWLINE]
}

/// The whole report: all four sections in status order, or the single
/// selected one.
pub open spec fn report_spec(ts: Seq<TaskView>, mode: DisplayMode) -> Seq<u8> {
    match mode {
        DisplayMode::ShowAll => section_spec(ts, TaskStatus::ToDo) + section_spec(
            ts,
            TaskStatus::Started,
        ) + section_spec(ts, TaskStatus::Blocked) + section_spec(ts, TaskStatus::Done),
        DisplayMode::ShowOnly(st) => section_spec(ts, st),
    }
}

/// Selects the tasks of one status, preserving their order.
fn filter_status(tasks: &[Task], st: TaskStatus) -> (r: Vec<Task>)
    ensures
        r@.map_values(|t: Task| t@) == group_of(tasks@.map_values(|t: Task| t@), st),
{
    let ghost views = tasks@.map_values(|t: Task| t@);
    let mut out: Vec<Task> = Vec::new();
    let mut i: usize = 0;
    proof {
        reveal(Seq::filter);
        assert(views.take(0) =~= Seq::<TaskView>::empty());
        assert(out@.map_values(|t: Task| t@) =~= group_of(views.take(0), st));
    }
    while i < tasks.len()
        invariant
            0 <= i <= views.len(),
            views == tasks@.map_values(|t: Task| t@),
            out@.map_values(|t: Task| t@) == group_of(views.take(i as int), st),
        decreases views.len() - i,
    {
        let ghost pre = out@.map_values(|t: Task| t@);
        let t = &tasks[i];
        proof {
            assert(views[i as int] == tasks@[i as int]@);
            assert(views.take(i + 1).drop_last() =~= views.take(i as int));
            assert(views.take(i + 1).last() == views[i as int]);
        }
        if t.status() == st {
            let copy = Task::new(t.status(), vstd::slice::slice_to_vec(t.text().as_slice()));
            proof {
                assert(copy@ =~= t@);
            }
            out.push(copy);
            proof {
                reveal(Seq::filter);
                assert(out@.map_values(|t: Task| t@) =~= pre.push(copy@));
                assert(group_of(views.take(i + 1), st) == group_of(views.take(i as int), st).push(
                    views[i as int],
                ));
            }
        } else {
            proof {
                reveal(Seq::filter);
                assert(group_of(views.take(i + 1), st) == group_of(views.take(i as int), st));
            }
        }
        i = i + 1;
    }
    proof {
        assert(views.take(views.len() as int) =~= views);
    }
    out
}

/// The label of a status's section, as bytes.
fn status_label(st: TaskStatus) -> (r: Vec<u8>)
    ensures
        r@ == label_of(st),
{
    let mut out: Vec<u8> = Vec::new();
    match st {
        TaskStatus::ToDo => {
            out.push(84);
            out.push(111);
            out.push(32);
            out.push(68);
            out.push(111);
        },
        TaskStatus::Started => {
            out.push(83);
            out.push(116);
            out.push(97);
            out.push(114);
            out.push(116);
            out.push(101);
            out.push(100);
        },
        TaskStatus::Blocked => {
            out.push(66);
            out.push(108);
            out.push(111);
            out.push(99);
            out.push(107);
            out.push(101);
            out.push(100);
        },
        TaskStatus::Done => {
            out.push(68);
            out.push(111);
            out.push(110);
            out.push(101);
        },
    }
    proof {
        assert(out@ =~= label_of(st));
    }
    out
}

/// Renders one status's section of the report.
pub fn render_section(tasks: &[Task], st: TaskStatus) -> (r: Vec<u8>)
    ensures
        r@ == section_spec(tasks@.map_values(|t: Task| t@), st),
{
    let mut out = status_label(st);
    out.push(COLON);
    out.push(NEWLINE);
    let group = filter_status(tasks, st);
    let mut body = crate::rollover::render_file(group.as_slice());
    out.append(&mut body);
    out.push(NEWLINE);
    proof {
        assert(out@ =~= section_spec(tasks@.map_values(|t: Task| t@), st));
    }
    out
}

/// Renders the report for one file's tasks: all four status sections in
/// order, or only the selected one.  A selected group without tasks still
/// gets its labelled, empty section.
pub fn render_report(tasks: &[Task], mode: DisplayMode) -> (r: Vec<u8>)
    ensures
        r@ == report_spec(tasks@.map_values(|t: Task| t@), mode),
{
    match mode {
        DisplayMode::ShowAll => {
            let mut out = render_section(tasks, TaskStatus::ToDo);
            let mut s2 = render_section(tasks, TaskStatus::Started);
            let mut s3 = render_section(tasks, TaskStatus::Blocked);
            let mut s4 = render_section(tasks, TaskStatus::Done);
            out.append(&mut s2);
            out.append(&mut s3);
            out.append(&mut s4);
            proof {
                assert(out@ =~= report_spec(tasks@.map_values(|t: Task| t@), mode));
            }
            out
        },
        DisplayMode::ShowOnly(st) => render_section(tasks, st),
    }
}

/// Resolves a back-offset to a log file: 0 is the latest, 1 the one before,
/// and so on.  Fails distinctly when the offset reaches past the available
/// files; on success the returned name has exactly `back` more recent names
/// above it.
pub fn select_back(names: &Vec<LogName>, back: usize) -> (r: Result<LogName, Error>)
    requires
        back < usize::MAX,
        forall|i: int| 0 <= i < names@.len() ==> names@[i].wf(),
        forall|i: int, j: int| 0 <= i < j < names@.len() ==> names@[i].key() != names@[j].key(),
    ensures
        r is Ok <==> back < names@.len(),
        r matches Err(e) ==> e is InvalidArg,
        r matches Ok(n) ==> names@.contains(n) && names@.to_set().filter(
            |y: LogName| y.key() > n.key(),
        ).len() == back as int,
{
    let sel = tail(names, back + 1);
    if sel.len() <= back {
        return Err(Error::InvalidArg("back offset exceeds the number of devlog files"));
    }
    let n = sel[back];
    proof {
        broadcast use vstd::seq_lib::seq_to_set_is_finite;

        let nsq = names@;
        let t = sel@;
        let bigger = |y: LogName| y.key() > n.key();
        assert(t.len() == back + 1);
        let front = t.take(back as int);
        assert(front.no_duplicates()) by {
            assert forall|i: int, j: int|
                0 <= i < front.len() && 0 <= j < front.len() && i != j implies front[i]
                != front[j] by {
                if i < j {
                    assert(t[j].key() < t[i].key());
                } else {
                    assert(t[i].key() < t[j].key());
                }
            }
        }
        front.unique_seq_to_set();
        assert(nsq.to_set().filter(bigger) =~= front.to_set()) by {
            assert forall|x: LogName| #[trigger] nsq.to_set().filter(bigger).contains(x) implies
                front.to_set().contains(x) by {
                assert(nsq.contains(x) && x.key() > n.key());
                assert(t.contains(x));
                let j = choose|j: int| 0 <= j < t.len() && t[j] == x;
                assert(j < back as int) by {
                    if j == back as int {
                        assert(x == n);
                    }
                }
                assert(front[j] == x);
            }
            assert forall|x: LogName| #[trigger] front.to_set().contains(x) implies nsq.to_set()
                .filter(bigger).contains(x) by {
                assert(front.contains(x));
                let j = choose|j: int| 0 <= j < front.len() && front[j] == x;
                assert(t[j] == x);
                assert(t[j].key() > t[back as int].key());
                assert(nsq.contains(x));
            }
        }
    }
    Ok(n)
}

} // verus!
