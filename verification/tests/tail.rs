use piano_midi::calendar::Date;
use piano_midi::event::capture_path;
use piano_midi::sink::{ends_mid_line, JsonlSink};
use piano_midi::tail::{Action, Reply, Tail};
use std::collections::BTreeMap;

/// A file system of capture logs: where each path leads, and what each file holds.
#[derive(Default)]
struct Files {
    paths: BTreeMap<String, u64>,
    contents: BTreeMap<u64, Vec<u8>>,
    next: u64,
}

impl Files {
    fn append(&mut self, date: Date, text: &str) {
        let path = capture_path(date);
        let ino = match self.paths.get(&path) {
            Some(ino) => *ino,
            None => {
                self.next += 1;
                self.paths.insert(path, self.next);
                self.next
            }
        };
        self.contents.entry(ino).or_default().extend(text.as_bytes());
    }

    fn truncate(&mut self, date: Date) {
        let ino = self.paths[&capture_path(date)];
        self.contents.insert(ino, Vec::new());
    }

    fn remove(&mut self, date: Date) {
        self.paths.remove(&capture_path(date));
    }

    fn text(&self, date: Date) -> String {
        let ino = self.paths[&capture_path(date)];
        String::from_utf8(self.contents[&ino].clone()).unwrap()
    }
}

/// A tail with the file that it holds open.
struct Follower {
    tail: Tail,
    ino: u64,
    pos: usize,
}

impl Follower {
    fn new(files: &Files, today: Date) -> Self {
        match files.paths.get(&capture_path(today)) {
            Some(ino) => {
                let data = files.contents[ino].clone();
                let pos = data.len();
                Follower { tail: Tail::new(today, Some((*ino, data))), ino: *ino, pos }
            }
            None => Follower { tail: Tail::new(today, None), ino: 0, pos: 0 },
        }
    }

    /// The clocks of the events that a poll brings; lines that do not parse are
    /// skipped.
    fn poll(&mut self, files: &Files, today: Date) -> Vec<u64> {
        let mut events = Vec::new();
        let mut action = self.tail.poll(today);
        loop {
            let reply = match action {
                Action::Stat(date) => Reply::Status(
                    files
                        .paths
                        .get(&capture_path(date))
                        .map(|ino| (*ino, files.contents[&self.ino].len() as u64)),
                ),
                Action::Open(date) => {
                    let found = files.paths.get(&capture_path(date)).copied();
                    if let Some(ino) = found {
                        self.ino = ino;
                        self.pos = 0;
                    }
                    Reply::Opened(found)
                }
                Action::Read => {
                    let data = files.contents[&self.ino][self.pos..].to_vec();
                    self.pos += data.len();
                    Reply::Data(data)
                }
                Action::Probe(date) => Reply::Exists(files.paths.contains_key(&capture_path(date))),
                Action::Done => return events,
            };
            let (next, lines) = self.tail.step(reply);
            for line in lines {
                if let Ok(value) = serde_json::from_slice::<serde_json::Value>(&line) {
                    events.push(value["t_mono_ns"].as_u64().unwrap());
                }
            }
            action = next;
        }
    }
}

fn line(t_mono_ns: u64) -> String {
    format!(
        "{{\"t_mono_ns\":{t_mono_ns},\"t_wall\":\"2026-07-11T21:30:00+09:00\",\"src\":\"24:0\",\"group\":0,\"kind\":\"note_on\",\"ch\":0,\"note\":21,\"vel\":55}}\n"
    )
}

fn d1() -> Date {
    Date::from_ymd_opt(2026, 7, 11).unwrap()
}

fn d2() -> Date {
    Date::from_ymd_opt(2026, 7, 12).unwrap()
}

fn d3() -> Date {
    Date::from_ymd_opt(2026, 7, 13).unwrap()
}

#[test]
fn attach_skips_existing_and_sees_appends() {
    let mut files = Files::default();
    files.append(d1(), &line(1));
    files.append(d1(), &line(2));

    let mut tail = Follower::new(&files, d1());
    assert!(tail.poll(&files, d1()).is_empty());

    files.append(d1(), &line(3));
    assert_eq!(tail.poll(&files, d1()), vec![3]);
}

#[test]
fn file_created_after_attach_is_read_from_start() {
    let mut files = Files::default();
    let mut tail = Follower::new(&files, d1());
    assert!(tail.poll(&files, d1()).is_empty());

    files.append(d1(), &line(1));
    files.append(d1(), &line(2));
    assert_eq!(tail.poll(&files, d1()).len(), 2);
}

#[test]
fn partial_line_is_carried_until_complete() {
    let mut files = Files::default();
    files.append(d1(), "");
    let mut tail = Follower::new(&files, d1());

    let full = line(1);
    let (head, rest) = full.split_at(10);
    files.append(d1(), head);
    assert!(tail.poll(&files, d1()).is_empty());

    files.append(d1(), rest);
    assert_eq!(tail.poll(&files, d1()), vec![1]);
}

#[test]
fn trailing_partial_at_attach_still_parses() {
    let mut files = Files::default();
    let full = line(1);
    let (head, rest) = full.split_at(10);
    files.append(d1(), &line(7));
    files.append(d1(), head);

    let mut tail = Follower::new(&files, d1());
    files.append(d1(), rest);
    assert_eq!(tail.poll(&files, d1()), vec![1]);
}

#[test]
fn bad_line_is_skipped_not_fatal() {
    let mut files = Files::default();
    files.append(d1(), "");
    let mut tail = Follower::new(&files, d1());

    files.append(d1(), "not json\n");
    files.append(d1(), &line(1));
    assert_eq!(tail.poll(&files, d1()), vec![1]);
}

#[test]
fn day_rollover_drains_old_then_reads_new_from_start() {
    let mut files = Files::default();
    files.append(d1(), "");
    let mut tail = Follower::new(&files, d1());

    files.append(d1(), &line(1));
    // New day, but its file is not there yet: the old file stays watched.
    assert_eq!(tail.poll(&files, d2()).len(), 1);

    files.append(d1(), &line(2));
    files.append(d2(), &line(3));
    assert_eq!(tail.poll(&files, d2()), vec![2, 3]);

    // Old file is no longer watched; only the new one is.
    files.append(d2(), &line(4));
    assert_eq!(tail.poll(&files, d2()), vec![4]);
}

#[test]
fn file_first_written_just_before_midnight_is_not_lost() {
    let mut files = Files::default();
    let mut tail = Follower::new(&files, d1());
    assert!(tail.poll(&files, d1()).is_empty());

    files.append(d1(), &line(1));
    assert_eq!(tail.poll(&files, d2()), vec![1]);
}

#[test]
fn backward_clock_step_does_not_replay() {
    let mut files = Files::default();
    files.append(d1(), "");
    let mut tail = Follower::new(&files, d1());

    files.append(d1(), &line(1));
    files.append(d2(), &line(2));
    assert_eq!(tail.poll(&files, d2()), vec![1, 2]);

    // Clock steps back to the day before: already-counted files are not replayed.
    assert!(tail.poll(&files, d1()).is_empty());
}

#[test]
fn catches_up_across_a_silent_day() {
    let mut files = Files::default();
    files.append(d1(), "");
    let mut tail = Follower::new(&files, d1());

    files.append(d1(), &line(1));
    files.append(d3(), &line(3));
    assert_eq!(tail.poll(&files, d3()), vec![1, 3]);
}

#[test]
fn truncated_file_is_reread_from_its_new_start() {
    let mut files = Files::default();
    files.append(d1(), &line(1));
    let mut tail = Follower::new(&files, d1());
    files.append(d1(), &line(2));
    assert_eq!(tail.poll(&files, d1()), vec![2]);

    files.truncate(d1());
    files.append(d1(), &line(3));
    assert_eq!(tail.poll(&files, d1()), vec![3]);
}

#[test]
fn replaced_file_is_reopened() {
    let mut files = Files::default();
    files.append(d1(), &line(1));
    let mut tail = Follower::new(&files, d1());

    files.remove(d1());
    files.append(d1(), &line(2));
    assert_eq!(tail.poll(&files, d1()), vec![2]);
}

#[test]
fn a_poll_looks_at_each_later_day_up_to_today() {
    let mut tail = Tail::new(d1(), None);
    assert!(matches!(tail.poll(d3()), Action::Open(d) if d.same(&d1())));
    let (next, _) = tail.step(Reply::Opened(None));
    assert!(matches!(next, Action::Probe(d) if d.same(&d2())));
    let (next, _) = tail.step(Reply::Exists(false));
    assert!(matches!(next, Action::Probe(d) if d.same(&d3())));
    let (next, _) = tail.step(Reply::Exists(false));
    assert!(matches!(next, Action::Done));
}

#[test]
fn empty_lines_are_no_events_and_bytes_are_counted() {
    let mut tail = Tail::new(d1(), Some((9, b"old\nhalf".to_vec())));
    assert_eq!(tail.consumed(), 8);
    assert!(matches!(tail.poll(d1()), Action::Stat(d) if d.same(&d1())));
    let (next, lines) = tail.step(Reply::Status(Some((9, 8))));
    assert!(matches!(next, Action::Read) && lines.is_empty());
    let (next, lines) = tail.step(Reply::Data(b" a line\n\n\nb\nrest".to_vec()));
    assert!(matches!(next, Action::Done));
    assert_eq!(lines, vec![b"half a line".to_vec(), b"b".to_vec()]);
    assert_eq!(tail.consumed(), 24);
}

#[test]
fn a_path_that_is_gone_is_opened_anew() {
    let mut tail = Tail::new(d1(), Some((9, Vec::new())));
    tail.poll(d1());
    let (next, _) = tail.step(Reply::Status(None));
    assert!(matches!(next, Action::Open(d) if d.same(&d1())));
    let (next, _) = tail.step(Reply::Opened(Some(10)));
    assert!(matches!(next, Action::Read));
    assert_eq!(tail.consumed(), 0);
}

/// Writes an event the way the sink says.
fn write(sink: &mut JsonlSink, files: &mut Files, date: Date, json: &str) {
    let last = if sink.rotates(date) {
        files.append(date, "");
        files.text(date).bytes().last()
    } else {
        None
    };
    let append = sink.append(json.as_bytes().to_vec(), date, last);
    if append.close_torn {
        files.append(date, "\n");
    }
    files.append(date, std::str::from_utf8(&append.line).unwrap());
}

#[test]
fn rotates_by_day_and_stays_readable() {
    let d9 = Date::from_ymd_opt(2026, 7, 9).unwrap();
    let d10 = Date::from_ymd_opt(2026, 7, 10).unwrap();
    let mut files = Files::default();
    let mut sink = JsonlSink::new();
    write(&mut sink, &mut files, d9, line(1).trim_end());
    write(&mut sink, &mut files, d9, line(2).trim_end());
    write(&mut sink, &mut files, d10, line(3).trim_end());

    let day1 = files.contents[&files.paths["2026/07/09.jsonl"]].clone();
    let day1 = String::from_utf8(day1).unwrap();
    assert_eq!(day1.lines().count(), 2);
    assert_eq!(day1.lines().next().unwrap(), line(1).trim_end());

    let day2 = files.contents[&files.paths["2026/07/10.jsonl"]].clone();
    assert_eq!(String::from_utf8(day2).unwrap().lines().count(), 1);
}

#[test]
fn a_torn_trailing_line_is_closed_before_the_next_append() {
    let d = Date::from_ymd_opt(2026, 7, 9).unwrap();
    let mut files = Files::default();
    files.append(d, r#"{"t_mono_ns":1,"kind":"note"#);

    write(&mut JsonlSink::new(), &mut files, d, line(2).trim_end());

    let body = files.text(d);
    let lines: Vec<&str> = body.lines().collect();
    assert_eq!(lines.len(), 2);
    assert_eq!(lines[1], line(2).trim_end());
}

#[test]
fn only_a_file_that_was_just_opened_is_looked_at() {
    assert!(!ends_mid_line(None));
    assert!(!ends_mid_line(Some(b'\n')));
    assert!(ends_mid_line(Some(b'}')));
    let mut sink = JsonlSink::new();
    assert!(sink.rotates(d1()));
    assert!(sink.append(b"{}".to_vec(), d1(), Some(b'x')).close_torn);
    assert!(!sink.rotates(d1()) && sink.rotates(d2()));
    let append = sink.append(b"{}".to_vec(), d1(), Some(b'x'));
    assert!(!append.close_torn);
    assert_eq!(append.line, b"{}\n");
}

#[test]
fn what_is_written_is_followed() {
    let mut files = Files::default();
    files.append(d1(), &line(1));
    files.append(d1(), r#"{"t_mono_ns":1,"kind":"note"#);
    let mut tail = Follower::new(&files, d1());
    let mut sink = JsonlSink::new();

    write(&mut sink, &mut files, d1(), line(2).trim_end());
    write(&mut sink, &mut files, d1(), line(3).trim_end());
    assert_eq!(tail.poll(&files, d1()), [2, 3]);

    write(&mut sink, &mut files, d2(), line(4).trim_end());
    assert_eq!(tail.poll(&files, d2()), [4]);
    assert!(tail.poll(&files, d2()).is_empty());
}

#[test]
fn a_whole_run_brings_each_line_once() {
    let days = [d1(), d2(), d3()];
    for seed in 0..50u64 {
        let mut state = seed;
        let mut pick = |n: u64| {
            state = state.wrapping_mul(6364136223846793005).wrapping_add(1442695040888963407);
            (state >> 33) % n
        };
        let mut files = Files::default();
        files.append(d1(), &line(1));
        let torn = line(2);
        files.append(d1(), &torn[..10]);
        let mut tail = Follower::new(&files, d1());
        files.append(d1(), &torn[10..]);

        let mut expected = vec![2];
        let mut seen = Vec::new();
        let mut day = 0;
        for t in 3..40 {
            if day < 2 && pick(12) == 0 {
                day += 1 + pick(2 - day as u64) as usize;
            }
            let text = line(t);
            let cut = pick(text.len() as u64) as usize;
            expected.push(t);
            files.append(days[day], &text[..cut]);
            if pick(3) == 0 {
                seen.extend(tail.poll(&files, days[pick(3) as usize]));
            }
            files.append(days[day], &text[cut..]);
            if pick(3) == 0 {
                seen.extend(tail.poll(&files, days[pick(3) as usize]));
            }
        }
        seen.extend(tail.poll(&files, d3()));
        seen.extend(tail.poll(&files, d1()));
        assert_eq!(seen, expected, "seed {seed}");
    }
}
