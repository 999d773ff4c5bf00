use devlog::file::LogFile;
use devlog::task::{parse_line, Task, TaskStatus};

#[test]
fn test_load() {
    let mut content = Vec::new();
    content.extend_from_slice(b"+ DONE\n");
    content.extend_from_slice(b"- BLOCKED\n");
    content.extend_from_slice(b"* INCOMPLETE\n");
    content.extend_from_slice(b"COMMENT\n");

    let lf = LogFile::parse(&content);
    let expected = vec![
        Task::new(TaskStatus::Done, b" DONE".to_vec()),
        Task::new(TaskStatus::Blocked, b" BLOCKED".to_vec()),
        Task::new(TaskStatus::ToDo, b" INCOMPLETE".to_vec()),
    ];
    assert_eq!(lf.tasks(), &expected[..]);
}

#[test]
fn test_parse_line_markers() {
    let t = parse_line(b"+ Ship feature").unwrap();
    assert_eq!(t.status(), TaskStatus::Done);
    assert_eq!(t.text().as_slice(), b" Ship feature");

    let t = parse_line(b"- Waiting on review").unwrap();
    assert_eq!(t.status(), TaskStatus::Blocked);
    assert_eq!(t.text().as_slice(), b" Waiting on review");

    let t = parse_line(b"* Write tests").unwrap();
    assert_eq!(t.status(), TaskStatus::ToDo);
    assert_eq!(t.text().as_slice(), b" Write tests");

    let t = parse_line(b"> Refactor parser").unwrap();
    assert_eq!(t.status(), TaskStatus::Started);
    assert_eq!(t.text().as_slice(), b" Refactor parser");
}

#[test]
fn test_parse_line_keeps_text_as_written() {
    let t = parse_line(b"+no space").unwrap();
    assert_eq!(t.text().as_slice(), b"no space");
    let t = parse_line(b"*  padded  ").unwrap();
    assert_eq!(t.text().as_slice(), b"  padded  ");
    let t = parse_line(b"-").unwrap();
    assert_eq!(t.text().as_slice(), b"");
}

#[test]
fn test_parse_line_ignores_unmarked() {
    assert!(parse_line(b"").is_none());
    assert!(parse_line(b"COMMENT").is_none());
    assert!(parse_line(b"  + indented marker").is_none());
    assert!(parse_line(b"notes: nothing here").is_none());
}

#[test]
fn test_line_round_trip() {
    let line = b"> Refactor parser";
    let t = parse_line(line).unwrap();
    assert_eq!(t.to_line().as_slice(), &line[..]);

    let t = Task::new(TaskStatus::Blocked, b" waiting".to_vec());
    assert_eq!(t.to_line().as_slice(), b"- waiting");
}

#[test]
fn test_fenced_block_excluded() {
    let content = b"* before\n```\n* inside\n+ also inside\n```\n* after\n";
    let lf = LogFile::parse(content);
    let tasks = lf.tasks();
    assert_eq!(tasks.len(), 2);
    assert_eq!(tasks[0].text().as_slice(), b" before");
    assert_eq!(tasks[1].text().as_slice(), b" after");
}

#[test]
fn test_unterminated_fence_exempts_rest() {
    let content = b"* kept\n```\n* lost\n+ lost too\n";
    let lf = LogFile::parse(content);
    let tasks = lf.tasks();
    assert_eq!(tasks.len(), 1);
    assert_eq!(tasks[0].text().as_slice(), b" kept");
}

#[test]
fn test_fence_pairs_do_not_leak() {
    let content = b"```\n* one\n```\n* two\n```\n* three\n```\n* four\n";
    let lf = LogFile::parse(content);
    let tasks = lf.tasks();
    assert_eq!(tasks.len(), 2);
    assert_eq!(tasks[0].text().as_slice(), b" two");
    assert_eq!(tasks[1].text().as_slice(), b" four");
}

#[test]
fn test_parse_empty_file() {
    let lf = LogFile::parse(b"");
    assert_eq!(lf.tasks().len(), 0);
}

#[test]
fn test_parse_no_trailing_newline() {
    let lf = LogFile::parse(b"+ a\n- b");
    let tasks = lf.tasks();
    assert_eq!(tasks.len(), 2);
    assert_eq!(tasks[1].status(), TaskStatus::Blocked);
    assert_eq!(tasks[1].text().as_slice(), b" b");
}
