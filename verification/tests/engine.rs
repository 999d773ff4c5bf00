use devlog::error::Error;
use devlog::file::LogFile;
use devlog::hook::{is_executable, is_valid, HookType};
use devlog::repository::{init_name, latest, next_name, parse_name, tail, Date, LogName};
use devlog::rollover::{carry_tasks, render_file, rollover_plan};
use devlog::status::{render_report, select_back, DisplayMode};
use devlog::task::TaskStatus;

fn name(year: u16, month: u8, day: u8, seq: u16) -> LogName {
    LogName { date: Date { year, month, day }, seq }
}

#[test]
fn test_file_name_rendering() {
    let n = name(2023, 7, 5, 12);
    assert_eq!(n.file_name().as_slice(), b"2023-07-05-012.devlog");
    let n = name(980, 12, 31, 999);
    assert_eq!(n.file_name().as_slice(), b"0980-12-31-999.devlog");
}

#[test]
fn test_parse_name_round_trip() {
    let n = name(2023, 7, 5, 12);
    assert_eq!(parse_name(n.file_name().as_slice()), Some(n));
    assert_eq!(parse_name(b"2024-01-31-000.devlog"), Some(name(2024, 1, 31, 0)));
}

#[test]
fn test_parse_name_rejects_malformed() {
    assert!(parse_name(b"2023-13-05-000.devlog").is_none()); // month out of range
    assert!(parse_name(b"2023-00-05-000.devlog").is_none()); // month zero
    assert!(parse_name(b"2023-07-32-000.devlog").is_none()); // day out of range
    assert!(parse_name(b"2023-07-05-000.txt").is_none()); // wrong extension
    assert!(parse_name(b"2023-07-05.devlog").is_none()); // missing sequence
    assert!(parse_name(b"notes.devlog").is_none());
    assert!(parse_name(b"").is_none());
}

#[test]
fn test_latest_picks_chronological_max() {
    assert_eq!(latest(&Vec::new()), None);
    let names = vec![name(2023, 7, 5, 0), name(2023, 7, 6, 1), name(2023, 7, 6, 0)];
    assert_eq!(latest(&names), Some(name(2023, 7, 6, 1)));
}

#[test]
fn test_tail_descending_and_capped() {
    let names = vec![name(2023, 7, 5, 0), name(2023, 7, 7, 0), name(2023, 7, 6, 0)];
    let t = tail(&names, 2);
    assert_eq!(t, vec![name(2023, 7, 7, 0), name(2023, 7, 6, 0)]);
}

#[test]
fn test_tail_returns_all_when_fewer() {
    let names = vec![name(2023, 7, 5, 0), name(2023, 7, 6, 0)];
    let t = tail(&names, 10);
    assert_eq!(t, vec![name(2023, 7, 6, 0), name(2023, 7, 5, 0)]);
    let t = tail(&Vec::new(), 3);
    assert!(t.is_empty());
}

#[test]
fn test_next_name_fresh_repository() {
    let today = Date { year: 2023, month: 7, day: 5 };
    assert_eq!(next_name(&None, today).unwrap(), name(2023, 7, 5, 0));
}

#[test]
fn test_next_name_new_day_and_same_day() {
    let today = Date { year: 2023, month: 7, day: 6 };
    let n = next_name(&Some(name(2023, 7, 5, 3)), today).unwrap();
    assert_eq!(n, name(2023, 7, 6, 0));
    let n = next_name(&Some(name(2023, 7, 6, 3)), today).unwrap();
    assert_eq!(n, name(2023, 7, 6, 4));
}

#[test]
fn test_next_name_stays_after_future_dated_latest() {
    // A latest file dated after today (clock moved back) still yields a
    // name that sorts strictly after it.
    let today = Date { year: 2023, month: 7, day: 6 };
    let n = next_name(&Some(name(2023, 7, 7, 0)), today).unwrap();
    assert_eq!(n, name(2023, 7, 7, 1));
}

#[test]
fn test_file_name_smallest_date() {
    let n = name(0, 1, 1, 0);
    assert_eq!(n.file_name().as_slice(), b"0000-01-01-000.devlog");
    assert_eq!(parse_name(b"0000-01-01-000.devlog"), Some(n));
}

#[test]
fn test_next_name_limit_exceeded() {
    let today = Date { year: 2023, month: 7, day: 6 };
    let r = next_name(&Some(name(2023, 7, 6, 999)), today);
    assert!(matches!(r, Err(Error::LogFileLimitExceeded)));
}

#[test]
fn test_init_name() {
    let today = Date { year: 2023, month: 7, day: 6 };
    let names = vec![name(2023, 7, 5, 0)];
    assert_eq!(init_name(&names, today), (name(2023, 7, 6, 0), true));
    let names = vec![name(2023, 7, 5, 0), name(2023, 7, 6, 0), name(2023, 7, 6, 2)];
    assert_eq!(init_name(&names, today), (name(2023, 7, 6, 2), false));
}

#[test]
fn test_rollover_scenario() {
    let content = b"+ Ship feature\n- Waiting on review\n* Write tests\n```\n* Should not appear\n```\n";
    let source = content.to_vec();
    let lf = LogFile::parse(&source);
    let today = Date { year: 2023, month: 7, day: 6 };
    let cur = name(2023, 7, 5, 0);
    let (new_name, new_content, count) =
        rollover_plan(lf.tasks(), &Some(cur), today).unwrap();
    assert_eq!(count, 2);
    assert_eq!(new_content.as_slice(), b"- Waiting on review\n* Write tests\n");
    assert_eq!(new_name, name(2023, 7, 6, 0));
    // the source bytes are untouched
    assert_eq!(source.as_slice(), &content[..]);
}

#[test]
fn test_rollover_empty_file_still_creates() {
    let lf = LogFile::parse(b"");
    let today = Date { year: 2023, month: 7, day: 5 };
    let cur = name(2023, 7, 5, 0);
    let (new_name, new_content, count) =
        rollover_plan(lf.tasks(), &Some(cur), today).unwrap();
    assert_eq!(count, 0);
    assert!(new_content.is_empty());
    // the new file becomes the new latest
    let names = vec![cur, new_name];
    assert_eq!(latest(&names), Some(new_name));
}

#[test]
fn test_carry_drops_done_and_started() {
    let lf = LogFile::parse(b"+ done\n> started\n- blocked\n* todo\n");
    let carried = carry_tasks(lf.tasks());
    assert_eq!(carried.len(), 2);
    assert_eq!(carried[0].status(), TaskStatus::Blocked);
    assert_eq!(carried[0].text().as_slice(), b" blocked");
    assert_eq!(carried[1].status(), TaskStatus::ToDo);
    assert_eq!(carried[1].text().as_slice(), b" todo");
}

#[test]
fn test_render_file_round_trip() {
    let lf = LogFile::parse(b"* one\n- two\n");
    let bytes = render_file(lf.tasks());
    assert_eq!(bytes.as_slice(), b"* one\n- two\n");
    let reparsed = LogFile::parse(&bytes);
    assert_eq!(reparsed.tasks(), lf.tasks());
}

#[test]
fn test_status_empty_done_section_is_explicit() {
    let lf = LogFile::parse(b"* pending work\n");
    let report = render_report(lf.tasks(), DisplayMode::ShowOnly(TaskStatus::Done));
    assert_eq!(report.as_slice(), b"Done:\n\n");
}

#[test]
fn test_status_show_only_with_tasks() {
    let lf = LogFile::parse(b"+ shipped\n* pending\n+ reviewed\n");
    let report = render_report(lf.tasks(), DisplayMode::ShowOnly(TaskStatus::Done));
    assert_eq!(report.as_slice(), b"Done:\n+ shipped\n+ reviewed\n\n");
}

#[test]
fn test_status_show_all_sections() {
    let lf = LogFile::parse(b"+ d\n> s\n- b\n* t\n");
    let report = render_report(lf.tasks(), DisplayMode::ShowAll);
    let expected: Vec<u8> =
        b"To Do:\n* t\n\nStarted:\n> s\n\nBlocked:\n- b\n\nDone:\n+ d\n\n".to_vec();
    assert_eq!(report, expected);
}

#[test]
fn test_select_back() {
    let names = vec![name(2023, 7, 5, 0), name(2023, 7, 7, 0), name(2023, 7, 6, 0)];
    assert_eq!(select_back(&names, 0).unwrap(), name(2023, 7, 7, 0));
    assert_eq!(select_back(&names, 2).unwrap(), name(2023, 7, 5, 0));
}

#[test]
fn test_select_back_beyond_files_fails_distinctly() {
    let names = vec![name(2023, 7, 5, 0)];
    assert!(matches!(select_back(&names, 1), Err(Error::InvalidArg(_))));
    assert!(matches!(select_back(&Vec::new(), 0), Err(Error::InvalidArg(_))));
}

#[test]
fn test_hook_names() {
    assert_eq!(HookType::BeforeEdit.name(), "before-edit");
    assert_eq!(HookType::AfterEdit.name(), "after-edit");
    assert_eq!(HookType::BeforeRollover.name(), "before-rollover");
    assert_eq!(HookType::AfterRollover.name(), "after-rollover");
}

#[test]
fn test_hook_validity() {
    assert!(is_executable(0o755));
    assert!(!is_executable(0o644));
    assert!(is_valid(true, 0o555));
    assert!(!is_valid(true, 0o644));
    assert!(!is_valid(false, 0o555));
}

#[test]
fn test_error_from_io() {
    let io = std::io::Error::new(std::io::ErrorKind::NotFound, "missing");
    let e = Error::from(io);
    assert!(matches!(e, Error::IOError(_)));
}
