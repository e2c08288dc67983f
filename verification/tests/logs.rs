use llama_monitor::logs::{
    expand_tilde, expand_tilde_with, join_path, same_file, split_lines, ExternalLogTailer,
    FileIdentity, FileState, FollowStep, LogBuffer, LogSourceInfo, LogSourceKind, LogSourceStatus,
    TailSeed, INITIAL_TAIL_LINES, MAX_LINE_BYTES,
};
use llama_monitor::state::{
    change_log_file, clear_log_view, default_port, initial_log_source, resolve_external_log_path,
    resolve_external_log_path_with, seed_external_log, show_log_file, UiSettings,
};

struct Disk {
    ino: u64,
    content: Option<Vec<u8>>,
    readable: bool,
}

impl Disk {
    fn holding(text: &str) -> Disk {
        Disk { ino: 1, content: Some(text.as_bytes().to_vec()), readable: true }
    }

    fn append(&mut self, text: &str) {
        self.content.as_mut().unwrap().extend_from_slice(text.as_bytes());
    }

    fn id(&self) -> FileIdentity {
        let len = self.content.as_ref().map_or(0, |c| c.len() as u64);
        FileIdentity { dev: 9, ino: self.ino, len }
    }
}

fn seed_of(content: &[u8], max_lines: usize) -> TailSeed {
    let mut seed = TailSeed::new(content.len() as u64);
    while let Some((at, size)) = seed.next_read(max_lines) {
        seed.feed(&content[at as usize..(at + size) as usize].to_vec());
    }
    seed
}

fn last_lines_of(content: &[u8], max_lines: usize) -> Vec<String> {
    seed_of(content, max_lines).finish(max_lines)
}

fn poll(tail: &mut ExternalLogTailer, disk: &Disk, buffer: &mut LogBuffer) -> Vec<String> {
    let state = match &disk.content {
        None => FileState::Missing,
        Some(_) => FileState::Present(disk.id()),
    };
    let step = tail.on_file(state);
    if step == FollowStep::Rest {
        return Vec::new();
    }
    if !disk.readable {
        tail.on_failure("open: permission denied".to_string());
        return Vec::new();
    }
    let content = disk.content.as_ref().unwrap();
    let mut lines = Vec::new();
    if step == FollowStep::OpenAndSeed {
        lines = tail.on_opened(disk.id(), &seed_of(content, INITIAL_TAIL_LINES), buffer);
    }
    if step == FollowStep::Open {
        tail.on_reopened(disk.id());
    }
    let from = (tail.offset as usize).min(content.len());
    lines.extend(tail.on_read(&content[from..].to_vec(), buffer));
    tail.on_polled(disk.id());
    lines
}

#[test]
fn expand_tilde_home() {
    let p = expand_tilde("~/foo/bar.log");
    assert!(p.ends_with(b"foo/bar.log"));
    assert!(!p.starts_with(b"~"));
}

#[test]
fn split_lines_crlf_and_partial() {
    let mut buf = b"a\r\nb\r\nc".to_vec();
    let lines = split_lines(&mut buf);
    assert_eq!(lines, vec!["a", "b"]);
    assert_eq!(buf, b"c");
}

#[test]
fn lossy_invalid_utf8() {
    let mut buf = vec![b'h', b'i', 0xff, b'\n'];
    let lines = split_lines(&mut buf);
    assert_eq!(lines.len(), 1);
    assert!(lines[0].starts_with("hi"));
    assert_eq!(buf.len(), 0);
    assert_eq!(lines[0], "hi\u{fffd}");
}

#[test]
fn buffer_max_lines() {
    let mut b = LogBuffer::new(3);
    b.push_line("1".into());
    b.push_line("2".into());
    b.push_line("3".into());
    b.push_line("4".into());
    assert_eq!(b.snapshot(), vec!["2", "3", "4"]);
}

#[test]
fn buffer_truncates_long_line() {
    let mut b = LogBuffer::new(10);
    let long = "x".repeat(MAX_LINE_BYTES + 100);
    b.push_line(long);
    let s = &b.snapshot()[0];
    assert!(s.len() < MAX_LINE_BYTES + 20);
    assert!(s.ends_with("…[truncated]"));
}

#[test]
fn buffer_cuts_between_characters() {
    let mut b = LogBuffer::new(10);
    let mut long = "x".repeat(MAX_LINE_BYTES - 1);
    long.push('é');
    long.push('y');
    b.push_line(long);
    let mut cut = "x".repeat(MAX_LINE_BYTES - 1);
    cut.push_str("…[truncated]");
    assert_eq!(b.snapshot(), vec![cut]);
    let exact = "x".repeat(MAX_LINE_BYTES);
    b.push_line(exact.clone());
    assert_eq!(b.snapshot()[1], exact);
}

#[test]
fn buffer_of_no_lines_keeps_one() {
    let mut b = LogBuffer::new(0);
    b.push_line("1".into());
    b.push_line("2".into());
    assert_eq!(b.snapshot(), vec!["2"]);
}

#[test]
fn read_last_lines_large_file() {
    let mut content = Vec::new();
    for i in 0..2000 {
        content.extend_from_slice(format!("line-{i}\n").as_bytes());
    }
    let lines = last_lines_of(&content, 500);
    assert_eq!(lines.len(), 500);
    assert_eq!(lines.first().unwrap(), "line-1500");
    assert_eq!(lines.last().unwrap(), "line-1999");
}

#[test]
fn empty_file_seed() {
    let lines = last_lines_of(b"", 500);
    assert!(lines.is_empty());
}

#[test]
fn seed_takes_complete_lines_only() {
    assert_eq!(last_lines_of(b"a\r\nb\nhalf", 500), vec!["a", "b"]);
    assert_eq!(last_lines_of(b"a\nb\nc\n", 2), vec!["b", "c"]);
    assert!(last_lines_of(b"half", 500).is_empty());
}

#[test]
fn tailer_append_full_line() {
    let mut disk = Disk::holding("one\n");
    let mut buf = LogBuffer::new(2000);
    let mut tail = ExternalLogTailer::new();
    assert_eq!(poll(&mut tail, &disk, &mut buf), vec!["one"]);
    assert_eq!(buf.snapshot(), vec!["one"]);
    assert_eq!(tail.status(), LogSourceStatus::Connected);
    disk.append("two\n");
    assert_eq!(poll(&mut tail, &disk, &mut buf), vec!["two"]);
    assert_eq!(buf.snapshot(), vec!["one", "two"]);
}

#[test]
fn tailer_partial_line_then_complete() {
    let mut disk = Disk::holding("");
    let mut buf = LogBuffer::new(2000);
    let mut tail = ExternalLogTailer::new();
    poll(&mut tail, &disk, &mut buf);
    assert_eq!(buf.len(), 0);
    disk.append("hel");
    poll(&mut tail, &disk, &mut buf);
    assert_eq!(buf.len(), 0);
    disk.append("lo\n");
    poll(&mut tail, &disk, &mut buf);
    assert_eq!(buf.snapshot(), vec!["hello"]);
}

#[test]
fn tailer_waiting_then_create() {
    let mut disk = Disk { ino: 1, content: None, readable: true };
    let mut buf = LogBuffer::new(2000);
    let mut tail = ExternalLogTailer::new();
    poll(&mut tail, &disk, &mut buf);
    assert_eq!(tail.status(), LogSourceStatus::WaitingForFile);
    disk.content = Some(b"appeared\n".to_vec());
    poll(&mut tail, &disk, &mut buf);
    assert_eq!(tail.status(), LogSourceStatus::Connected);
    assert_eq!(buf.snapshot(), vec!["appeared"]);
}

#[test]
fn tailer_truncation() {
    let mut disk = Disk::holding("a\nb\nc\n");
    let mut buf = LogBuffer::new(2000);
    let mut tail = ExternalLogTailer::new();
    poll(&mut tail, &disk, &mut buf);
    assert_eq!(buf.len(), 3);
    disk.content = Some(Vec::new());
    poll(&mut tail, &disk, &mut buf);
    disk.append("fresh\n");
    poll(&mut tail, &disk, &mut buf);
    assert_eq!(buf.snapshot().last().map(String::as_str), Some("fresh"));
}

#[test]
fn tailer_replace_file_no_dup_seed() {
    let mut disk = Disk::holding("old1\nold2\n");
    let mut buf = LogBuffer::new(2000);
    let mut tail = ExternalLogTailer::new();
    poll(&mut tail, &disk, &mut buf);
    assert_eq!(buf.snapshot(), vec!["old1", "old2"]);
    disk.ino = 2;
    disk.content = Some(b"new1\n".to_vec());
    poll(&mut tail, &disk, &mut buf);
    let snap = buf.snapshot();
    assert_eq!(snap.iter().filter(|l| *l == "new1").count(), 1);
}

#[test]
fn tailer_no_permission() {
    let mut disk = Disk::holding("secret\n");
    disk.readable = false;
    let mut buf = LogBuffer::new(2000);
    let mut tail = ExternalLogTailer::new();
    poll(&mut tail, &disk, &mut buf);
    assert_eq!(tail.status(), LogSourceStatus::Error);
    assert_eq!(tail.error(), Some("open: permission denied"));
    disk.readable = true;
    poll(&mut tail, &disk, &mut buf);
    assert_eq!(tail.status(), LogSourceStatus::Connected);
    assert_eq!(tail.error(), None);
}

#[test]
fn tailer_unusable_file() {
    let mut tail = ExternalLogTailer::new();
    let step = tail.on_file(FileState::Unusable("x is not a regular file".to_string()));
    assert_eq!(step, FollowStep::Rest);
    assert_eq!(tail.status(), LogSourceStatus::Error);
    assert_eq!(tail.error(), Some("x is not a regular file"));
}

#[test]
fn tailer_crlf() {
    let disk = Disk::holding("a\r\nb\r\n");
    let mut buf = LogBuffer::new(2000);
    let mut tail = ExternalLogTailer::new();
    poll(&mut tail, &disk, &mut buf);
    assert_eq!(buf.snapshot(), vec!["a", "b"]);
}

#[test]
fn managed_process_buffer_still_works() {
    let mut buf = LogBuffer::new(2000);
    buf.push_line("[monitor] started".into());
    buf.push_line("slot update".into());
    assert_eq!(buf.len(), 2);
    buf.clear();
    assert_eq!(buf.len(), 0);
}

#[test]
fn tailer_invalid_utf8_line() {
    let mut disk = Disk::holding("");
    disk.content = Some(vec![b'o', b'k', 0xff, b'\n']);
    let mut buf = LogBuffer::new(2000);
    let mut tail = ExternalLogTailer::new();
    poll(&mut tail, &disk, &mut buf);
    assert_eq!(buf.len(), 1);
    assert!(buf.snapshot()[0].starts_with("ok"));
}

#[test]
fn endless_line_is_cut_and_its_rest_dropped() {
    let mut disk = Disk::holding("");
    let mut buf = LogBuffer::new(10);
    let mut tail = ExternalLogTailer::new();
    poll(&mut tail, &disk, &mut buf);
    disk.append(&"z".repeat(MAX_LINE_BYTES + 1));
    let mut cut = "z".repeat(MAX_LINE_BYTES);
    cut.push_str("…[truncated]");
    assert_eq!(poll(&mut tail, &disk, &mut buf), vec![cut]);
    disk.append("zzz");
    assert!(poll(&mut tail, &disk, &mut buf).is_empty());
    disk.append("zzz\nnext\n");
    assert_eq!(poll(&mut tail, &disk, &mut buf), vec!["next"]);
}

#[test]
fn pieces_of_a_log_give_the_same_lines() {
    let whole = b"first\nsecond\r\nthird".to_vec();
    let mut all = whole.clone();
    let at_once = split_lines(&mut all);
    for cut in 0..whole.len() {
        let mut pending = whole[..cut].to_vec();
        let mut lines = split_lines(&mut pending);
        pending.extend_from_slice(&whole[cut..]);
        lines.extend(split_lines(&mut pending));
        assert_eq!(lines, at_once);
        assert_eq!(pending, all);
    }
}

#[test]
fn same_file_looks_at_device_and_number() {
    let a = FileIdentity { dev: 1, ino: 2, len: 3 };
    assert!(same_file(&a, &FileIdentity { dev: 1, ino: 2, len: 9 }));
    assert!(!same_file(&a, &FileIdentity { dev: 1, ino: 3, len: 3 }));
    assert!(!same_file(&a, &FileIdentity { dev: 2, ino: 2, len: 3 }));
}

#[test]
fn tilde_stands_for_the_home_directory() {
    let home = Some(b"/home/u".as_slice());
    assert_eq!(expand_tilde_with(" ~/a.log ", home), b"/home/u/a.log");
    assert_eq!(expand_tilde_with("~", home), b"/home/u");
    assert_eq!(expand_tilde_with("~", None), b".");
    assert_eq!(expand_tilde_with("~/a", None), b"./a");
    assert_eq!(expand_tilde_with("~u/a", home), b"~u/a");
    assert_eq!(expand_tilde_with("  ", home), b"");
    assert_eq!(expand_tilde_with("/x/y", home), b"/x/y");
    assert_eq!(expand_tilde_with("~//x", home), b"/x");
    assert_eq!(expand_tilde_with("~/ż", Some(b"/home/\xff/".as_slice())), b"/home/\xff/\xc5\xbc");
    assert_eq!(join_path(b"/a/", b"b"), b"/a/b");
    assert_eq!(join_path(b"/a", b"/b"), b"/b");
    assert_eq!(join_path(b"", b"b"), b"b");
    let home = dirs::home_dir().map(|p| p.into_os_string().into_encoded_bytes());
    assert_eq!(expand_tilde("~"), home.unwrap_or(b".".to_vec()));
}

#[test]
fn setting_goes_before_the_command_line() {
    let mut ui = UiSettings::default();
    assert_eq!(ui.port, default_port());
    assert_eq!(default_port(), 8080);
    assert_eq!(resolve_external_log_path(&ui, None), None);
    assert_eq!(
        resolve_external_log_path(&ui, Some(b"/cli.log\xfe")),
        Some(b"/cli.log\xfe".to_vec())
    );
    assert_eq!(resolve_external_log_path(&ui, Some(b"")), None);
    seed_external_log(&mut ui, Some("~/cli.log"));
    assert_eq!(ui.external_log_file, "~/cli.log");
    assert_eq!(
        resolve_external_log_path_with(&ui, Some(b"/cli.log"), Some(b"/home/u")),
        Some(b"/home/u/cli.log".to_vec())
    );
    seed_external_log(&mut ui, Some("/other.log"));
    assert_eq!(ui.external_log_file, "~/cli.log");
}

#[test]
fn log_view_at_the_start_and_after_clearing() {
    let none = initial_log_source(false, Some("a.log".to_string()));
    assert_eq!(none.kind, LogSourceKind::Unset);
    assert_eq!(none.file_name, None);
    let mut source = initial_log_source(true, Some("a.log".to_string()));
    assert_eq!(source.kind, LogSourceKind::ExternalFile);
    assert_eq!(source.status, LogSourceStatus::WaitingForFile);
    source.line_count = 4;
    let mut buf = LogBuffer::new(5);
    buf.push_line("x".into());
    clear_log_view(&mut buf, &mut source);
    assert_eq!(buf.len(), 0);
    assert_eq!(source.line_count, 0);
    assert_eq!(source.file_name, Some("a.log".to_string()));
    assert_eq!(LogSourceInfo::default().status, LogSourceStatus::Idle);
}

#[test]
fn a_log_is_read_as_it_was_written() {
    let lines = vec!["", "plain", "zażółć gęślą jaźń", "\u{1f980} \r inside", "tab\t"];
    let mut bytes = Vec::new();
    for line in &lines {
        bytes.extend_from_slice(line.as_bytes());
        bytes.push(b'\n');
    }
    assert_eq!(split_lines(&mut bytes), lines);
    assert!(bytes.is_empty());
}

#[test]
fn a_buffer_keeps_the_newest_lines_in_order() {
    let mut b = LogBuffer::new(4);
    for i in 0..11 {
        b.push_line(format!("{i}"));
        assert!(b.len() <= 4);
    }
    assert_eq!(b.snapshot(), vec!["7", "8", "9", "10"]);
}

#[test]
fn two_log_files_never_mix() {
    let mut buf = LogBuffer::new(5);
    buf.push_line("old".into());
    let mut source = initial_log_source(true, Some("a.log".to_string()));
    change_log_file(&mut buf, &mut source, true);
    assert_eq!(buf.len(), 0);
    assert_eq!(source.file_name, Some("a.log".to_string()));
    change_log_file(&mut buf, &mut source, false);
    assert_eq!(source.kind, LogSourceKind::Unset);
    assert_eq!(source.file_name, None);
    let mut managed = LogSourceInfo { kind: LogSourceKind::ManagedProcess, ..source };
    change_log_file(&mut buf, &mut managed, false);
    assert_eq!(managed.kind, LogSourceKind::ManagedProcess);
}

#[test]
fn the_followed_file_is_shown() {
    let mut source = LogSourceInfo::default();
    let mut tail = ExternalLogTailer::new();
    tail.on_failure("open: denied".to_string());
    show_log_file(&mut source, &tail, Some("b.log".to_string()), 7);
    assert_eq!(source.kind, LogSourceKind::ExternalFile);
    assert_eq!(source.status, LogSourceStatus::Error);
    assert_eq!(source.error.as_deref(), Some("open: denied"));
    assert_eq!(source.file_name.as_deref(), Some("b.log"));
    assert_eq!(source.line_count, 7);
}

#[test]
fn a_line_half_written_at_opening_comes_whole() {
    let mut disk = Disk::holding("a\nb");
    let mut buf = LogBuffer::new(2000);
    let mut tail = ExternalLogTailer::new();
    assert_eq!(poll(&mut tail, &disk, &mut buf), vec!["a"]);
    disk.append("c\n");
    assert_eq!(poll(&mut tail, &disk, &mut buf), vec!["bc"]);
    assert_eq!(buf.snapshot(), vec!["a", "bc"]);
}

#[test]
fn a_first_file_without_a_newline_is_not_lost() {
    let mut disk = Disk::holding("hel");
    let mut buf = LogBuffer::new(2000);
    let mut tail = ExternalLogTailer::new();
    assert!(poll(&mut tail, &disk, &mut buf).is_empty());
    disk.append("lo\nnext");
    assert_eq!(poll(&mut tail, &disk, &mut buf), vec!["hello"]);
    disk.append("\n");
    assert_eq!(poll(&mut tail, &disk, &mut buf), vec!["next"]);
}

#[test]
fn a_file_that_took_the_place_of_another_is_seeded() {
    let mut disk = Disk::holding("old\nhalf");
    let mut buf = LogBuffer::new(2000);
    let mut tail = ExternalLogTailer::new();
    assert_eq!(poll(&mut tail, &disk, &mut buf), vec!["old"]);
    disk.ino = 2;
    disk.content = Some(Vec::new());
    for i in 1..=600 {
        disk.append(&format!("m{i}\n"));
    }
    disk.append("m601");
    let lines = poll(&mut tail, &disk, &mut buf);
    assert_eq!(lines.len(), INITIAL_TAIL_LINES);
    assert_eq!(lines.first().unwrap(), "m101");
    assert_eq!(lines.last().unwrap(), "m600");
    disk.append("!\n");
    assert_eq!(poll(&mut tail, &disk, &mut buf), vec!["m601!"]);
    assert_eq!(buf.snapshot().first().unwrap(), "old");
}

#[test]
fn reads_of_any_size_give_the_lines_of_the_file() {
    let whole = "one\ntwo\r\nthree\n\nfive";
    for first in 0..whole.len() {
        for second in first..whole.len() {
            let mut disk = Disk::holding(&whole[..first]);
            let mut buf = LogBuffer::new(2000);
            let mut tail = ExternalLogTailer::new();
            let mut lines = poll(&mut tail, &disk, &mut buf);
            disk.append(&whole[first..second]);
            lines.extend(poll(&mut tail, &disk, &mut buf));
            disk.append(&whole[second..]);
            lines.extend(poll(&mut tail, &disk, &mut buf));
            assert_eq!(lines, vec!["one", "two", "three", ""]);
            disk.append("\n");
            assert_eq!(poll(&mut tail, &disk, &mut buf), vec!["five"]);
        }
    }
}

#[test]
fn an_endless_line_without_a_start_is_skipped() {
    let mut seed = TailSeed::new(100);
    seed.feed(&b"zzzz".to_vec());
    let mut buf = LogBuffer::new(10);
    let mut tail = ExternalLogTailer::new();
    let id = FileIdentity { dev: 1, ino: 1, len: 100 };
    assert!(tail.on_opened(id, &seed, &mut buf).is_empty());
    assert_eq!(tail.offset, 100);
    assert_eq!(tail.on_read(&b"zz\nnext\n".to_vec(), &mut buf), vec!["next"]);
}

#[test]
fn a_file_that_could_not_be_read_is_read_again_from_its_start() {
    let mut disk = Disk::holding("");
    for i in 1..=600 {
        disk.append(&format!("m{i}\n"));
    }
    let mut buf = LogBuffer::new(2000);
    let mut tail = ExternalLogTailer::new();
    assert_eq!(poll(&mut tail, &disk, &mut buf).len(), INITIAL_TAIL_LINES);
    tail.on_failure("read: broken".to_string());
    disk.append("half");
    let lines = poll(&mut tail, &disk, &mut buf);
    assert_eq!(lines.len(), 600);
    assert_eq!(lines.first().unwrap(), "m1");
    disk.append("!\n");
    assert_eq!(poll(&mut tail, &disk, &mut buf), vec!["half!"]);
}

#[test]
fn a_replaced_file_that_cannot_be_opened_is_seeded_later() {
    let mut disk = Disk::holding("old\n");
    let mut buf = LogBuffer::new(2000);
    let mut tail = ExternalLogTailer::new();
    poll(&mut tail, &disk, &mut buf);
    disk.ino = 2;
    disk.content = Some(Vec::new());
    for i in 1..=501 {
        disk.append(&format!("m{i}\n"));
    }
    disk.readable = false;
    assert!(poll(&mut tail, &disk, &mut buf).is_empty());
    disk.readable = true;
    let lines = poll(&mut tail, &disk, &mut buf);
    assert_eq!(lines.len(), INITIAL_TAIL_LINES);
    assert_eq!(lines.first().unwrap(), "m2");
}

#[test]
fn a_seed_of_the_longest_lines_is_complete() {
    let line = "y".repeat(MAX_LINE_BYTES);
    let mut content = Vec::new();
    for _ in 0..5 {
        content.extend_from_slice(line.as_bytes());
        content.push(b'\n');
    }
    content.extend_from_slice(line.as_bytes());
    assert_eq!(last_lines_of(&content, 3), vec![line.clone(), line.clone(), line]);
}

#[test]
fn a_buffer_without_a_limit_keeps_one_line() {
    let mut b = LogBuffer::default();
    assert_eq!(b.len(), 0);
    b.push_line("1".into());
    b.push_line("2".into());
    assert_eq!(b.snapshot(), vec!["2"]);
}
