//! The rollover engine: carries unfinished work forward into a new dated
//! file.
//!
//! Only to-do and blocked tasks survive a rollover; done tasks are finished
//! and started tasks are deliberately treated as abandoned.  The carried
//! tasks are re-rendered with their original marker and text, in their
//! original order, into the content of a fresh file whose name sorts
//! strictly after the current one.  Writing the bytes to disk is the
//! caller's business, so a failed write can leave no half-rolled state here.

use crate::error::Error;
use crate::file::{lines_of, tasks_of_content, tasks_of_lines, is_fence, lemma_first_newline_at};
use crate::repository::{next_name, Date, LogName};
use crate::task::{
    lemma_line_round_trip, marker_of, parse_line_spec, render_line_spec, Task, TaskStatus,
    TaskView, NEWLINE,
};
use vstd::prelude::*;
use vstd::slice::slice_to_vec;

verus! {

/// Whether a task survives a rollover: only not-yet-begun and blocked work
/// is carried forward.
pub open spec fn is_carried(t: TaskView) -> bool {
    t.status == TaskStatus::ToDo || t.status == TaskStatus::Blocked
}

/// The tasks a rollover carries: the carried ones, in their original order.
pub open spec fn carried_of(ts: Seq<TaskView>) -> Seq<TaskView> {
    ts.filter(|t: TaskView| is_carried(t))
}

/// The bytes of a file that holds the given tasks, one rendered line each.
pub open spec fn render_file_spec(ts: Seq<TaskView>) -> Seq<u8>
    decreases ts.len(),
{
    if ts.len() == 0 {
        Seq::empty()
    } else {
        render_line_spec(ts[0]) + seq![NEWLINE] + render_file_spec(ts.skip(1))
    }
}

/// Selects the tasks a rollover carries, preserving their order.
pub fn carry_tasks(tasks: &[Task]) -> (r: Vec<Task>)
    ensures
        r@.map_values(|t: Task| t@) == carried_of(tasks@.map_values(|t: Task| t@)),
{
    let ghost views = tasks@.map_values(|t: Task| t@);
    let mut out: Vec<Task> = Vec::new();
    let mut i: usize = 0;
    proof {
        assert(views.take(0) =~= Seq::<TaskView>::empty());
        assert(out@.map_values(|t: Task| t@) =~= carried_of(views.take(0)));
    }
    while i < tasks.len()
        invariant
            0 <= i <= views.len(),
            views == tasks@.map_values(|t: Task| t@),
            out@.map_values(|t: Task| t@) == carried_of(views.take(i as int)),
        decreases views.len() - i,
    {
        let ghost pre = out@.map_values(|t: Task| t@);
        let t = &tasks[i];
        let st = t.status();
        proof {
            assert(views[i as int] == tasks@[i as int]@);
            assert(views.take(i + 1).drop_last() =~= views.take(i as int));
            assert(views.take(i + 1).last() == views[i as int]);
        }
        if st == TaskStatus::ToDo || st == TaskStatus::Blocked {
            let copy = Task::new(st, slice_to_vec(t.text().as_slice()));
            proof {
                assert(copy@ =~= t@);
                assert(is_carried(views[i as int]));
            }
            out.push(copy);
            proof {
                reveal(Seq::filter);
                assert(out@.map_values(|t: Task| t@) =~= pre.push(copy@));
                assert(carried_of(views.take(i + 1)) == carried_of(views.take(i as int)).push(
                    views[i as int],
                ));
            }
        } else {
            proof {
                reveal(Seq::filter);
                assert(!is_carried(views[i as int]));
                assert(carried_of(views.take(i + 1)) == carried_of(views.take(i as int)));
            }
        }
        i = i + 1;
    }
    proof {
        assert(views.take(views.len() as int) =~= views);
    }
    out
}

/// Renders tasks into file content, one line per task, each ended by a
/// newline.
pub fn render_file(tasks: &[Task]) -> (r: Vec<u8>)
    ensures
        r@ == render_file_spec(tasks@.map_values(|t: Task| t@)),
{
    let ghost views = tasks@.map_values(|t: Task| t@);
    let mut out: Vec<u8> = Vec::new();
    let mut i: usize = 0;
    proof {
        assert(views.skip(0) =~= views);
        assert(out@ + render_file_spec(views) =~= render_file_spec(views));
    }
    while i < tasks.len()
        invariant
            0 <= i <= views.len(),
            views == tasks@.map_values(|t: Task| t@),
            render_file_spec(views) == out@ + render_file_spec(views.skip(i as int)),
        decreases views.len() - i,
    {
        let ghost rest = views.skip(i as int);
        proof {
            assert(rest[0] == views[i as int]);
            assert(rest.skip(1) =~= views.skip(i + 1));
        }
        let mut line = tasks[i].to_line();
        out.append(&mut line);
        out.push(NEWLINE);
        proof {
            assert(render_file_spec(views) =~= out@ + render_file_spec(views.skip(i + 1)));
        }
        i = i + 1;
    }
    proof {
        assert(views.skip(views.len() as int) =~= Seq::<TaskView>::empty());
        assert(out@ =~= render_file_spec(views));
    }
    out
}

/// Plans a rollover of the given tasks: the name of the new file, its
/// content, and how many tasks it carries.  Fails exactly when no further
/// file name is left for the day; the caller writes the content, whole or
/// not at all.
pub fn rollover_plan(tasks: &[Task], latest: &Option<LogName>, today: Date) -> (r: Result<
    (LogName, Vec<u8>, usize),
    Error,
>)
    requires
        today.wf(),
        latest matches Some(l) ==> l.wf(),
    ensures
        r is Err <==> (latest matches Some(l) && l.date.key() >= today.key() && l.seq == 999),
        r matches Err(e) ==> e is LogFileLimitExceeded,
        r matches Ok(p) ==> {
            let carried = carried_of(tasks@.map_values(|t: Task| t@));
            &&& p.0.wf()
            &&& p.0.date.key() >= today.key()
            &&& (latest matches Some(l) ==> p.0.key() > l.key())
            &&& (latest is None ==> p.0 == (LogName { date: today, seq: 0 }))
            &&& p.1@ == render_file_spec(carried)
            &&& p.2 == carried.len()
        },
{
    let name = match next_name(latest, today) {
        Ok(n) => n,
        Err(e) => {
            return Err(e);
        },
    };
    let carried = carry_tasks(tasks);
    let content = render_file(carried.as_slice());
    let count = carried.len();
    Ok((name, content, count))
}

/// The lines of rendered file content are exactly the rendered task lines.
proof fn lemma_lines_of_render(ts: Seq<TaskView>)
    requires
        forall|i: int| 0 <= i < ts.len() ==> (#[trigger] ts[i]).wf(),
    ensures
        lines_of(render_file_spec(ts)) == ts.map_values(|t: TaskView| render_line_spec(t)),
    decreases ts.len(),
{
    if ts.len() == 0 {
        assert(lines_of(render_file_spec(ts)) =~= ts.map_values(
            |t: TaskView| render_line_spec(t),
        ));
    } else {
        let t0 = ts[0];
        let line0 = render_line_spec(t0);
        let rest = render_file_spec(ts.skip(1));
        let content = render_file_spec(ts);
        assert(content =~= line0 + seq![NEWLINE] + rest);
        assert(marker_of(t0.status) != NEWLINE);
        assert forall|i: int| 0 <= i < line0.len() implies content[i] != NEWLINE by {
            if i > 0 {
                assert(line0[i] == t0.text[i - 1]);
            }
        }
        assert(content[line0.len() as int] == NEWLINE);
        lemma_first_newline_at(content, line0.len() as int);
        assert(content.take(line0.len() as int) =~= line0);
        assert(content.skip(line0.len() as int + 1) =~= rest);
        assert(forall|i: int| 0 <= i < ts.skip(1).len() ==> (#[trigger] ts.skip(1)[i]) == ts[i
            + 1]);
        lemma_lines_of_render(ts.skip(1));
        assert(ts.skip(1).map_values(|t: TaskView| render_line_spec(t)) =~= ts.map_values(
            |t: TaskView| render_line_spec(t),
        ).skip(1));
        assert(lines_of(content) =~= ts.map_values(|t: TaskView| render_line_spec(t)));
    }
}

/// Parsing rendered task lines, with no fence open, yields the tasks back.
proof fn lemma_tasks_of_render_lines(ts: Seq<TaskView>)
    ensures
        tasks_of_lines(ts.map_values(|t: TaskView| render_line_spec(t)), false) == ts,
    decreases ts.len(),
{
    let lines = ts.map_values(|t: TaskView| render_line_spec(t));
    if ts.len() == 0 {
        assert(tasks_of_lines(lines, false) =~= ts);
    } else {
        let t0 = ts[0];
        let line0 = render_line_spec(t0);
        assert(lines[0] == line0);
        assert(line0[0] == marker_of(t0.status));
        assert(!is_fence(line0));
        lemma_line_round_trip(t0);
        assert(parse_line_spec(line0) == Some(t0));
        lemma_tasks_of_render_lines(ts.skip(1));
        assert(lines.skip(1) =~= ts.skip(1).map_values(|t: TaskView| render_line_spec(t)));
        assert(tasks_of_lines(lines, false) =~= ts);
    }
}

/// Rendering tasks into file content and loading that content back yields
/// the tasks unchanged.
pub proof fn lemma_render_file_round_trip(ts: Seq<TaskView>)
    requires
        forall|i: int| 0 <= i < ts.len() ==> (#[trigger] ts[i]).wf(),
    ensures
        tasks_of_content(render_file_spec(ts)) == ts,
{
    lemma_lines_of_render(ts);
    lemma_tasks_of_render_lines(ts);
}

/// Rollover is carry-complete and carry-exact: the file it writes parses
/// back to exactly the to-do and blocked tasks of the source, in their
/// original relative order, nothing lost, nothing duplicated; done and
/// started tasks never appear in it.
pub proof fn lemma_rollover_carry_exact(ts: Seq<TaskView>)
    requires
        forall|i: int| 0 <= i < ts.len() ==> (#[trigger] ts[i]).wf(),
    ensures
        tasks_of_content(render_file_spec(carried_of(ts))) == carried_of(ts),
        forall|i: int| 0 <= i < carried_of(ts).len() ==> is_carried(#[trigger] carried_of(ts)[i]),
{
    broadcast use vstd::seq_lib::group_filter_ensures;

    lemma_carried_wf(ts);
    lemma_render_file_round_trip(carried_of(ts));
}

/// File to file: the new file a rollover writes for a source file parses
/// back to exactly the to-do and blocked tasks of that source file.
pub proof fn lemma_rollover_of_file(content: Seq<u8>)
    ensures
        tasks_of_content(render_file_spec(carried_of(tasks_of_content(content))))
            == carried_of(tasks_of_content(content)),
{
    crate::file::lemma_loaded_tasks_wf(content);
    lemma_rollover_carry_exact(tasks_of_content(content));
}

/// Carrying keeps tasks line-shaped: the carried tasks of line-shaped tasks
/// are line-shaped.
proof fn lemma_carried_wf(ts: Seq<TaskView>)
    requires
        forall|i: int| 0 <= i < ts.len() ==> (#[trigger] ts[i]).wf(),
    ensures
        forall|j: int| 0 <= j < carried_of(ts).len() ==> (#[trigger] carried_of(ts)[j]).wf(),
    decreases ts.len(),
{
    reveal(Seq::filter);
    if ts.len() > 0 {
        assert(forall|i: int|
            0 <= i < ts.drop_last().len() ==> (#[trigger] ts.drop_last()[i]) == ts[i]);
        lemma_carried_wf(ts.drop_last());
        if is_carried(ts.last()) {
            assert(carried_of(ts) == carried_of(ts.drop_last()).push(ts.last()));
            assert forall|j: int| 0 <= j < carried_of(ts).len() implies (#[trigger] carried_of(
                ts,
            )[j]).wf() by {
                if j < carried_of(ts).len() - 1 {
                    assert(carried_of(ts)[j] == carried_of(ts.drop_last())[j]);
                } else {
                    assert(carried_of(ts)[j] == ts.last());
                }
            }
        } else {
            assert(carried_of(ts) == carried_of(ts.drop_last()));
        }
    }
}

} // verus!
