//! Following the capture log: attach at the end of today's file and advance
//! across the files of later days without reading anything twice.
//!
//! A [`Tail`] decides and an outer loop acts: each [`Action`] asks for one look
//! at the file system, and each [`Reply`] tells what was found.

use crate::calendar;
use crate::calendar::Date;
use crate::text;
use vstd::prelude::*;

verus! {

/// The byte that ends a line.
pub const NEWLINE: u8 = 10;

// ---------------------------------------------------------------------------
// Lines
// ---------------------------------------------------------------------------

/// The lines of a list that hold anything.
pub open spec fn nonempty(lines: Seq<Seq<u8>>) -> Seq<Seq<u8>>
    decreases lines.len(),
{
    if lines.len() == 0 {
        Seq::empty()
    } else if lines.last().len() == 0 {
        nonempty(lines.drop_last())
    } else {
        nonempty(lines.drop_last()).push(lines.last())
    }
}

/// The complete lines that hold anything.
pub open spec fn lines_of(bytes: Seq<u8>) -> Seq<Seq<u8>> {
    nonempty(text::pieces(bytes, NEWLINE).drop_last())
}

/// What follows the last newline: a line that is not complete.
pub open spec fn rest_of(bytes: Seq<u8>) -> Seq<u8> {
    text::pieces(bytes, NEWLINE).last()
}

/// The contents of each line of a list.
pub open spec fn lines_view(list: Seq<Vec<u8>>) -> Seq<Seq<u8>> {
    list.map_values(|l: Vec<u8>| l@)
}

/// The complete lines that hold anything, and what follows them.
fn take_lines(bytes: &Vec<u8>) -> (r: (Vec<Vec<u8>>, Vec<u8>))
    ensures
        lines_view(r.0@) == lines_of(bytes@),
        r.1@ == rest_of(bytes@),
{
    let mut lines: Vec<Vec<u8>> = Vec::new();
    let mut rest: Vec<u8> = Vec::new();
    let mut i: usize = 0;
    proof {
        assert(bytes@.take(0) =~= Seq::empty());
        assert(lines_view(lines@) =~= Seq::empty());
        assert(text::pieces(bytes@.take(0), NEWLINE).drop_last() =~= Seq::empty());
        assert(rest@ =~= Seq::empty());
    }
    while i < bytes.len()
        invariant
            i <= bytes.len(),
            text::pieces(bytes@.take(i as int), NEWLINE).len() >= 1,
            lines_view(lines@) == lines_of(bytes@.take(i as int)),
            rest@ == rest_of(bytes@.take(i as int)),
        decreases bytes.len() - i,
    {
        let b = bytes[i];
        let ghost before = text::pieces(bytes@.take(i as int), NEWLINE);
        let ghost after = text::pieces(bytes@.take(i + 1), NEWLINE);
        proof {
            assert(bytes@.take(i + 1).drop_last() =~= bytes@.take(i as int));
            assert(bytes@.take(i + 1).last() == b);
        }
        if b == NEWLINE {
            proof {
                assert(after =~= before.push(Seq::empty()));
                assert(after.drop_last() =~= before);
            }
            let mut line: Vec<u8> = Vec::new();
            std::mem::swap(&mut line, &mut rest);
            if line.len() > 0 {
                let ghost list = lines_view(lines@);
                lines.push(line);
                assert(lines_view(lines@) =~= list.push(before.last()));
            }
            assert(rest@ =~= Seq::empty());
        } else {
            rest.push(b);
            assert(after.drop_last() =~= before.drop_last());
        }
        i = i + 1;
    }
    assert(bytes@.take(bytes@.len() as int) =~= bytes@);
    (lines, rest)
}

// ---------------------------------------------------------------------------
// The file that is followed
// ---------------------------------------------------------------------------

/// A file that is being read.
struct OpenFile {
    /// The inode, to notice that the path leads to another file.
    ino: u64,
    /// How many bytes were read, to notice that the file was cut.
    read: u64,
    /// The bytes after the last newline.
    partial: Vec<u8>,
}

/// The contents of a file that is being read.
pub struct OpenView {
    pub ino: u64,
    pub read: nat,
    pub partial: Seq<u8>,
}

impl View for OpenFile {
    type V = OpenView;

    closed spec fn view(&self) -> OpenView {
        OpenView { ino: self.ino, read: self.read as nat, partial: self.partial@ }
    }
}

impl OpenView {
    /// A file from which nothing was read yet.
    pub open spec fn fresh(ino: u64) -> OpenView {
        OpenView { ino, read: 0, partial: Seq::empty() }
    }

    /// A file whose contents so far are passed over; a line that is not complete
    /// stays pending.
    pub open spec fn attached(ino: u64, existing: Seq<u8>) -> OpenView {
        OpenView { ino, read: existing.len(), partial: rest_of(existing) }
    }

    /// Whether the file is no longer the one at its path: the path is gone or
    /// leads to another file, or the file is shorter than what was read of it.
    pub open spec fn stale(self, seen: Option<(u64, u64)>) -> bool {
        match seen {
            Some((ino, len)) => ino != self.ino || len < self.read,
            None => true,
        }
    }

    /// The file after more of it was read.
    pub open spec fn appended(self, data: Seq<u8>) -> OpenView {
        OpenView {
            ino: self.ino,
            read: self.read + data.len(),
            partial: rest_of(self.partial + data),
        }
    }

    /// The lines that more of the file completes.
    pub open spec fn completed(self, data: Seq<u8>) -> Seq<Seq<u8>> {
        lines_of(self.partial + data)
    }
}

impl OpenFile {
    fn stale(&self, seen: Option<(u64, u64)>) -> (r: bool)
        ensures
            r == self@.stale(seen),
    {
        match seen {
            Some((ino, len)) => ino != self.ino || len < self.read,
            None => true,
        }
    }

    /// Takes what is already in the file as read; a line that is not complete
    /// stays pending.
    fn skip_existing(&mut self, data: Vec<u8>)
        requires
            old(self)@.read + data@.len() <= u64::MAX,
        ensures
            final(self)@ == (OpenView {
                ino: old(self)@.ino,
                read: old(self)@.read + data@.len(),
                partial: rest_of(data@),
            }),
    {
        self.read = self.read + data.len() as u64;
        let (_, rest) = take_lines(&data);
        self.partial = rest;
    }

    /// Takes more of the file and returns the lines that it completes.
    fn read_appended(&mut self, data: Vec<u8>) -> (lines: Vec<Vec<u8>>)
        requires
            old(self)@.read + data@.len() <= u64::MAX,
        ensures
            final(self)@ == old(self)@.appended(data@),
            lines_view(lines@) == old(self)@.completed(data@),
    {
        self.read = self.read + data.len() as u64;
        let mut more = data;
        self.partial.append(&mut more);
        assert(self.partial@ =~= old(self).partial@ + data@);
        let (lines, rest) = take_lines(&self.partial);
        self.partial = rest;
        lines
    }
}

// ---------------------------------------------------------------------------
// The decisions
// ---------------------------------------------------------------------------

/// Why the current file is being read.
#[derive(Debug, Clone, Copy)]
pub enum Stage {
    /// A poll starts.
    First,
    /// A later day has a file, so this one is final: what is left of it.
    Drain,
    /// The date has just moved.
    Fresh,
}

#[derive(Debug, Clone, Copy)]
enum Phase {
    Idle,
    Stat(Stage),
    Open(Stage),
    Read(Stage),
    Probe(Date),
}

/// What a tail waits for.
pub enum PhaseView {
    Idle,
    Stat(Stage),
    Open(Stage),
    Read(Stage),
    Probe(calendar::Day),
}

impl View for Phase {
    type V = PhaseView;

    closed spec fn view(&self) -> PhaseView {
        match *self {
            Phase::Idle => PhaseView::Idle,
            Phase::Stat(s) => PhaseView::Stat(s),
            Phase::Open(s) => PhaseView::Open(s),
            Phase::Read(s) => PhaseView::Read(s),
            Phase::Probe(d) => PhaseView::Probe(d@),
        }
    }
}

/// What to do next.
#[derive(Debug, Clone, Copy)]
pub enum Action {
    /// Look at the path of this day's file, and at the file that is open.
    Stat(Date),
    /// Open this day's file.
    Open(Date),
    /// Read the open file to its end.
    Read,
    /// See whether this day has a file.
    Probe(Date),
    /// Nothing more until the next poll.
    Done,
}

/// The contents of an action.
pub enum ActionView {
    Stat(calendar::Day),
    Open(calendar::Day),
    Read,
    Probe(calendar::Day),
    Done,
}

impl View for Action {
    type V = ActionView;

    open spec fn view(&self) -> ActionView {
        match *self {
            Action::Stat(d) => ActionView::Stat(d@),
            Action::Open(d) => ActionView::Open(d@),
            Action::Read => ActionView::Read,
            Action::Probe(d) => ActionView::Probe(d@),
            Action::Done => ActionView::Done,
        }
    }
}

/// What was found.
#[derive(Debug)]
pub enum Reply {
    /// The inode at the path and the length of the open file; none where the
    /// path is gone.
    Status(Option<(u64, u64)>),
    /// The inode of the file that was opened; none where there is no file.
    Opened(Option<u64>),
    /// What was read.
    Data(Vec<u8>),
    /// Whether the day has a file.
    Exists(bool),
}

/// Follows the capture log.
pub struct Tail {
    date: Date,
    today: Date,
    open: Option<OpenFile>,
    phase: Phase,
}

/// What a tail remembers: the day whose file it follows, the day of the present
/// poll, the file, and what it waits for.
pub struct TailView {
    pub date: calendar::Day,
    pub today: calendar::Day,
    pub open: Option<OpenView>,
    pub phase: PhaseView,
}

impl View for Tail {
    type V = TailView;

    closed spec fn view(&self) -> TailView {
        TailView {
            date: self.date@,
            today: self.today@,
            open: match self.open {
                Some(f) => Some(f@),
                None => None,
            },
            phase: self.phase@,
        }
    }
}

impl TailView {
    /// A tail at the end of what today's file holds already, where there is one:
    /// its inode and contents.
    pub open spec fn attached(
        today: calendar::Day,
        existing: Option<(u64, Seq<u8>)>,
    ) -> TailView {
        TailView {
            date: today,
            today,
            open: match existing {
                Some((ino, data)) => Some(OpenView::attached(ino, data)),
                None => None,
            },
            phase: PhaseView::Idle,
        }
    }

    /// Whether the last of a file is being read, because a later day has one.
    pub open spec fn draining(self) -> bool {
        self.phase == PhaseView::Stat(Stage::Drain) || self.phase == PhaseView::Open(Stage::Drain)
            || self.phase == PhaseView::Read(Stage::Drain)
    }

    /// What holds of every tail: its days are on the calendar; it probes only
    /// days after the one that it follows and up to today; and it drains a file
    /// only where today is later.
    pub open spec fn valid(self) -> bool {
        &&& self.date.valid()
        &&& self.today.valid()
        &&& self.phase matches PhaseView::Probe(d) ==> d.valid() && self.date.before(d)
            && !self.today.before(d)
        &&& self.draining() ==> self.date.before(self.today)
        &&& (self.phase matches PhaseView::Stat(_)) || (self.phase matches PhaseView::Read(_))
            ==> self.open is Some
        &&& self.phase matches PhaseView::Open(_) ==> self.open is None
    }

    /// Whether `reply` answers what the tail waits for, and what was read can be
    /// counted.
    pub open spec fn awaits(self, reply: Reply) -> bool {
        match (self.phase, reply) {
            (PhaseView::Stat(_), Reply::Status(_)) => true,
            (PhaseView::Open(_), Reply::Opened(_)) => true,
            (PhaseView::Read(_), Reply::Data(data)) => self.open->0.read + data@.len() <= u64::MAX,
            (PhaseView::Probe(_), Reply::Exists(_)) => true,
            _ => false,
        }
    }

    /// Begins to read the current file: look at it where it is open, else open it.
    pub open spec fn reading(self, stage: Stage) -> (TailView, ActionView) {
        if self.open is Some {
            (
                TailView { phase: PhaseView::Stat(stage), ..self },
                ActionView::Stat(self.date),
            )
        } else {
            (
                TailView { phase: PhaseView::Open(stage), ..self },
                ActionView::Open(self.date),
            )
        }
    }

    /// Looks for a file of a day after `from`, up to today.
    pub open spec fn probing(self, from: calendar::Day) -> (TailView, ActionView) {
        match from.next() {
            Some(n) => if self.today.before(n) {
                (TailView { phase: PhaseView::Idle, ..self }, ActionView::Done)
            } else {
                (TailView { phase: PhaseView::Probe(n), ..self }, ActionView::Probe(n))
            },
            None => (TailView { phase: PhaseView::Idle, ..self }, ActionView::Done),
        }
    }

    /// What follows once the current file was read: from the old file on to the
    /// next day's, else on to look for a later file, where today is later.
    pub open spec fn finished(self, stage: Stage) -> (TailView, ActionView) {
        match stage {
            Stage::Drain => (TailView {
                date: match self.date.next() {
                    Some(n) => n,
                    None => self.today,
                },
                open: None,
                ..self
            }).reading(Stage::Fresh),
            _ => if self.date.before(self.today) {
                self.probing(self.date)
            } else {
                (TailView { phase: PhaseView::Idle, ..self }, ActionView::Done)
            },
        }
    }

    /// The start of a poll.
    pub open spec fn begun(self, today: calendar::Day) -> (TailView, ActionView) {
        (TailView { today, ..self }).reading(Stage::First)
    }

    /// What a reply leads to.
    pub open spec fn after(self, reply: Reply) -> (TailView, ActionView) {
        match (self.phase, reply) {
            (PhaseView::Stat(stage), Reply::Status(seen)) => if self.open->0.stale(seen) {
                (TailView { open: None, ..self }).reading(stage)
            } else {
                (TailView { phase: PhaseView::Read(stage), ..self }, ActionView::Read)
            },
            (PhaseView::Open(stage), Reply::Opened(ino)) => match ino {
                Some(ino) => (
                    TailView {
                        open: Some(OpenView::fresh(ino)),
                        phase: PhaseView::Read(stage),
                        ..self
                    },
                    ActionView::Read,
                ),
                None => self.finished(stage),
            },
            (PhaseView::Read(stage), Reply::Data(data)) => (TailView {
                open: Some(self.open->0.appended(data@)),
                ..self
            }).finished(stage),
            (PhaseView::Probe(d), Reply::Exists(there)) => if there {
                self.reading(Stage::Drain)
            } else {
                self.probing(d)
            },
            _ => (self, ActionView::Done),
        }
    }

    /// The lines that a reply completes.
    pub open spec fn lines(self, reply: Reply) -> Seq<Seq<u8>> {
        match (self.phase, reply) {
            (PhaseView::Read(_), Reply::Data(data)) => self.open->0.completed(data@),
            _ => Seq::empty(),
        }
    }
}

impl Tail {
    #[verifier::type_invariant]
    spec fn consistent(self) -> bool {
        self@.valid()
    }

    /// A tail at the end of what today's file holds already, where there is one:
    /// its inode and contents. A line that is not complete stays pending.
    pub fn new(today: Date, existing: Option<(u64, Vec<u8>)>) -> (r: Self)
        ensures
            r@ == TailView::attached(
                today@,
                match existing {
                    Some((ino, data)) => Some((ino, data@)),
                    None => None,
                },
            ),
    {
        proof {
            use_type_invariant(&today);
        }
        let open = match existing {
            Some((ino, data)) => {
                assert(data@.len() == data.len());
                let mut file = OpenFile { ino, read: 0, partial: Vec::new() };
                file.skip_existing(data);
                Some(file)
            },
            None => None,
        };
        Tail { date: today, today, open, phase: Phase::Idle }
    }

    /// Starts a poll on the given day.
    pub fn poll(&mut self, today: Date) -> (r: Action)
        ensures
            (final(self)@, r@) == old(self)@.begun(today@),
    {
        proof {
            use_type_invariant(&*self);
            use_type_invariant(&today);
        }
        self.phase = Phase::Idle;
        self.today = today;
        self.read_current(Stage::First)
    }

    /// How many bytes of the open file were read.
    pub fn consumed(&self) -> (r: u64)
        ensures
            r == (match self@.open {
                Some(file) => file.read,
                None => 0,
            }),
    {
        match &self.open {
            Some(file) => file.read,
            None => 0,
        }
    }

    fn read_current(&mut self, stage: Stage) -> (r: Action)
        requires
            old(self)@.date.valid(),
            old(self)@.today.valid(),
            stage == Stage::Drain ==> old(self)@.date.before(old(self)@.today),
        ensures
            (final(self)@, r@) == old(self)@.reading(stage),
    {
        let date = self.date;
        if self.open.is_some() {
            self.phase = Phase::Stat(stage);
            Action::Stat(date)
        } else {
            self.phase = Phase::Open(stage);
            Action::Open(date)
        }
    }

    fn later_file(&mut self, from: Date) -> (r: Action)
        requires
            old(self)@.date.valid(),
            old(self)@.today.valid(),
            from@.valid(),
            old(self)@.date == from@ || old(self)@.date.before(from@),
        ensures
            (final(self)@, r@) == old(self)@.probing(from@),
    {
        proof {
            calendar::lemma_next_valid(from@);
        }
        if let Some(next) = from.succ_opt() {
            if !self.today.is_before(&next) {
                self.phase = Phase::Probe(next);
                return Action::Probe(next);
            }
        }
        self.phase = Phase::Idle;
        Action::Done
    }

    fn finish(&mut self, stage: Stage) -> (r: Action)
        requires
            old(self)@.date.valid(),
            old(self)@.today.valid(),
            stage == Stage::Drain ==> old(self)@.date.before(old(self)@.today),
        ensures
            (final(self)@, r@) == old(self)@.finished(stage),
    {
        match stage {
            Stage::Drain => {
                let today = self.today;
                let next = match self.date.succ_opt() {
                    Some(next) => next,
                    None => today,
                };
                proof {
                    use_type_invariant(&next);
                }
                self.phase = Phase::Idle;
                self.date = next;
                self.open = None;
                self.read_current(Stage::Fresh)
            },
            _ => {
                if self.date.is_before(&self.today) {
                    let date = self.date;
                    self.later_file(date)
                } else {
                    self.phase = Phase::Idle;
                    Action::Done
                }
            },
        }
    }

    /// Takes a reply; returns what to do next and the lines that it completes.
    pub fn step(&mut self, reply: Reply) -> (r: (Action, Vec<Vec<u8>>))
        requires
            old(self)@.awaits(reply),
        ensures
            (final(self)@, r.0@) == old(self)@.after(reply),
            lines_view(r.1@) == old(self)@.lines(reply),
    {
        proof {
            use_type_invariant(&*self);
        }
        let mut lines: Vec<Vec<u8>> = Vec::new();
        assert(lines_view(lines@) =~= Seq::empty());
        let phase = self.phase;
        let action = match (phase, reply) {
            (Phase::Stat(stage), Reply::Status(seen)) => {
                let stale = match &self.open {
                    Some(file) => file.stale(seen),
                    None => true,
                };
                self.phase = Phase::Idle;
                if stale {
                    self.open = None;
                    self.read_current(stage)
                } else {
                    self.phase = Phase::Read(stage);
                    Action::Read
                }
            },
            (Phase::Open(stage), Reply::Opened(ino)) => {
                match ino {
                    Some(ino) => {
                        self.phase = Phase::Idle;
                        let file = OpenFile { ino, read: 0, partial: Vec::new() };
                        assert(file.partial@ =~= Seq::empty());
                        self.open = Some(file);
                        self.phase = Phase::Read(stage);
                        Action::Read
                    },
                    None => self.finish(stage),
                }
            },
            (Phase::Read(stage), Reply::Data(data)) => {
                self.phase = Phase::Idle;
                let mut open: Option<OpenFile> = None;
                std::mem::swap(&mut open, &mut self.open);
                if let Some(mut file) = open {
                    lines = file.read_appended(data);
                    self.open = Some(file);
                }
                self.finish(stage)
            },
            (Phase::Probe(date), Reply::Exists(there)) => {
                if there {
                    self.read_current(Stage::Drain)
                } else {
                    self.later_file(date)
                }
            },
            _ => Action::Done,
        };
        (action, lines)
    }
}

// ---------------------------------------------------------------------------
// Laws
// ---------------------------------------------------------------------------

proof fn lemma_nonempty_append(a: Seq<Seq<u8>>, b: Seq<Seq<u8>>)
    ensures
        nonempty(a + b) == nonempty(a) + nonempty(b),
    decreases b.len(),
{
    if b.len() == 0 {
        assert(a + b =~= a);
        assert(nonempty(a) + nonempty(b) =~= nonempty(a));
    } else {
        lemma_nonempty_append(a, b.drop_last());
        assert((a + b).drop_last() =~= a + b.drop_last());
        assert((a + b).last() == b.last());
        assert(nonempty(a + b) =~= nonempty(a) + nonempty(b));
    }
}

/// How the bytes of a file are cut into reads makes no difference: two reads
/// give the lines of one read that holds both, and leave the same file.
pub proof fn law_reads_can_be_cut_anywhere(file: OpenView, first: Seq<u8>, second: Seq<u8>)
    ensures
        file.completed(first + second) == file.completed(first) + file.appended(first).completed(
            second,
        ),
        file.appended(first + second) == file.appended(first).appended(second),
{
    let so_far = file.partial + first;
    let head = text::pieces(so_far, NEWLINE);
    let rest = rest_of(so_far);
    let tail = text::pieces(rest + second, NEWLINE);
    assert(file.partial + (first + second) =~= so_far + second);
    text::lemma_pieces_append(so_far, second, NEWLINE);
    text::lemma_pieces_nonempty(so_far, NEWLINE);
    text::lemma_pieces_nonempty(rest + second, NEWLINE);
    let whole = head.drop_last() + tail;
    assert(whole.drop_last() =~= head.drop_last() + tail.drop_last());
    assert(whole.last() == tail.last());
    lemma_nonempty_append(head.drop_last(), tail.drop_last());
}

/// A file that is attached to hands out what is new and nothing that was there
/// before: its lines are those of the whole file that the old contents alone do
/// not have.
pub proof fn law_attaching_passes_history_over(ino: u64, existing: Seq<u8>, more: Seq<u8>)
    ensures
        lines_of(existing + more) == lines_of(existing) + OpenView::attached(
            ino,
            existing,
        ).completed(more),
        OpenView::attached(ino, existing).appended(more) == OpenView::attached(
            ino,
            existing + more,
        ),
{
    let file = OpenView::fresh(ino);
    law_reads_can_be_cut_anywhere(file, existing, more);
    assert(file.partial + existing =~= existing);
    assert(file.partial + (existing + more) =~= existing + more);
}

/// What is pending never holds a newline, and a line that is handed out holds
/// something and no newline.
pub proof fn law_lines_are_complete(file: OpenView, data: Seq<u8>)
    ensures
        !file.appended(data).partial.contains(NEWLINE),
        forall|k: int|
            0 <= k < file.completed(data).len() ==> (#[trigger] file.completed(data)[k]).len() > 0
                && !file.completed(data)[k].contains(NEWLINE),
{
    let all = text::pieces(file.partial + data, NEWLINE);
    text::law_pieces_join(file.partial + data, NEWLINE);
    assert(!all[all.len() - 1].contains(NEWLINE));
    let lines = all.drop_last();
    assert forall|k: int| 0 <= k < lines.len() implies !(#[trigger] lines[k]).contains(NEWLINE) by {
        assert(lines[k] == all[k]);
    }
    lemma_nonempty_lines(lines);
}

proof fn lemma_nonempty_lines(lines: Seq<Seq<u8>>)
    requires
        forall|k: int| 0 <= k < lines.len() ==> !(#[trigger] lines[k]).contains(NEWLINE),
    ensures
        forall|k: int|
            0 <= k < nonempty(lines).len() ==> (#[trigger] nonempty(lines)[k]).len() > 0
                && !nonempty(lines)[k].contains(NEWLINE),
    decreases lines.len(),
{
    if lines.len() > 0 {
        let before = lines.drop_last();
        assert forall|k: int| 0 <= k < before.len() implies !(#[trigger] before[k]).contains(
            NEWLINE,
        ) by {
            assert(before[k] == lines[k]);
        }
        lemma_nonempty_lines(before);
        let last = lines[lines.len() - 1];
        let kept = nonempty(before);
        assert(!last.contains(NEWLINE) && lines.last() == last);
        assert forall|k: int| 0 <= k < nonempty(lines).len() implies (#[trigger] nonempty(
            lines,
        )[k]).len() > 0 && !nonempty(lines)[k].contains(NEWLINE) by {
            if k < kept.len() {
                assert(nonempty(lines)[k] == kept[k]);
            }
        }
    }
}

/// A line that holds something comes out once its newline has come, however it
/// was cut before.
pub proof fn law_line_comes_out_when_complete(ino: u64, line: Seq<u8>, cut: int)
    requires
        line.len() > 0,
        !line.contains(NEWLINE),
        0 <= cut <= line.len(),
    ensures
        ({
            let file = OpenView::fresh(ino);
            let torn = file.appended(line.take(cut));
            &&& file.completed(line.take(cut)) == Seq::<Seq<u8>>::empty()
            &&& torn.completed(line.skip(cut).push(NEWLINE)) == seq![line]
            &&& torn.appended(line.skip(cut).push(NEWLINE)).partial == Seq::<u8>::empty()
        }),
{
    let file = OpenView::fresh(ino);
    let head = line.take(cut);
    let more = line.skip(cut).push(NEWLINE);
    assert(file.partial + head =~= head);
    assert(!head.contains(NEWLINE)) by {
        if head.contains(NEWLINE) {
            let i = choose|i: int| 0 <= i < head.len() && head[i] == NEWLINE;
            assert(line[i] == NEWLINE);
        }
    }
    text::lemma_one_piece(head, NEWLINE);
    assert(seq![head].drop_last() =~= Seq::empty());
    assert(head + more =~= line.push(NEWLINE));
    text::lemma_one_piece(line, NEWLINE);
    let all = text::pieces(line.push(NEWLINE), NEWLINE);
    assert(line.push(NEWLINE).drop_last() =~= line);
    assert(all =~= seq![line, Seq::empty()]);
    assert(all.drop_last() =~= seq![line]);
    assert(seq![line].drop_last() =~= Seq::empty());
    reveal_with_fuel(nonempty, 2);
    assert(nonempty(seq![line]) =~= seq![line]);
}

/// The day that is followed only moves forward and never past today. It moves only
/// once a later day was seen to have a file, and after that the old file was read
/// to its end or is not there.
pub proof fn law_date_only_moves_forward(tail: TailView, reply: Reply)
    requires
        tail.valid(),
        tail.awaits(reply),
    ensures
        ({
            let next = tail.after(reply).0;
            &&& next.valid()
            &&& next.today == tail.today
            &&& next.date != tail.date ==> {
                &&& tail.date.next() == Some(next.date)
                &&& tail.date.before(next.date) && !tail.today.before(next.date)
                &&& tail.phase == PhaseView::Read(Stage::Drain) || (tail.phase == PhaseView::Open(
                    Stage::Drain,
                ) && reply == Reply::Opened(None))
            }
            &&& next.draining() ==> tail.draining() || (tail.phase matches PhaseView::Probe(d)
                && tail.date.before(d) && !tail.today.before(d) && reply == Reply::Exists(true))
        }),
{
    calendar::lemma_next_valid(tail.date);
    if tail.date.before(tail.today) {
        calendar::law_next_day_is_adjacent(tail.date, tail.today);
    }
    if let PhaseView::Probe(d) = tail.phase {
        calendar::lemma_next_valid(d);
    }
}

/// A poll on a day that is not later than the one followed looks for no other
/// file and moves nowhere: the file is read and the poll is over.
pub proof fn law_backward_clock_is_ignored(tail: TailView, reply: Reply)
    requires
        tail.valid(),
        tail.awaits(reply),
        !tail.date.before(tail.today),
        tail.phase == PhaseView::Stat(Stage::First) || tail.phase == PhaseView::Open(Stage::First)
            || tail.phase == PhaseView::Read(Stage::First),
    ensures
        ({
            let (next, action) = tail.after(reply);
            &&& next.date == tail.date
            &&& !(action is Probe)
            &&& action is Done || next.phase == PhaseView::Stat(Stage::First) || next.phase
                == PhaseView::Open(Stage::First) || next.phase == PhaseView::Read(Stage::First)
        }),
{
}

/// A poll starts with the file that is followed, whatever day it is.
pub proof fn law_poll_starts_with_the_current_file(tail: TailView, today: calendar::Day)
    requires
        tail.valid(),
        today.valid(),
    ensures
        ({
            let (next, action) = tail.begun(today);
            &&& next.valid()
            &&& next.date == tail.date && next.open == tail.open && !next.draining()
            &&& action == ActionView::Stat(tail.date) || action == ActionView::Open(tail.date)
        }),
{
}

/// A file is read from where it was left: the same file stays open exactly while
/// the path leads to it and it has not shrunk; else it is opened anew, and a file
/// that was just opened is read from its start.
pub proof fn law_file_is_read_on_while_it_is_the_same(tail: TailView, stage: Stage, seen: Option<(u64, u64)>)
    requires
        tail.valid(),
        tail.phase == PhaseView::Stat(stage),
    ensures
        ({
            let (next, action) = tail.after(Reply::Status(seen));
            let file = tail.open->0;
            if seen matches Some((ino, len)) && ino == file.ino && file.read <= len {
                action is Read && next.open == tail.open
            } else {
                action == ActionView::Open(tail.date) && next.open is None
            }
        }),
{
}

/// Lines come out in their order, and of the complete ones only the empty ones are
/// passed over.
pub proof fn law_only_empty_lines_are_passed_over(bytes: Seq<u8>)
    ensures
        lines_of(bytes) == text::pieces(bytes, 10u8).drop_last().filter(|l: Seq<u8>| l.len() > 0),
{
    lemma_nonempty(text::pieces(bytes, 10u8).drop_last());
}

proof fn lemma_nonempty(lines: Seq<Seq<u8>>)
    ensures
        nonempty(lines) == lines.filter(|l: Seq<u8>| l.len() > 0),
    decreases lines.len(),
{
    reveal(Seq::filter);
    if lines.len() > 0 {
        lemma_nonempty(lines.drop_last());
    }
}

/// What stays pending is what follows the last newline, and all of it.
pub proof fn law_pending_follows_the_last_newline(bytes: Seq<u8>)
    ensures
        ({
            let rest = rest_of(bytes);
            let n = bytes.len() - rest.len();
            &&& n >= 0
            &&& bytes.skip(n) == rest
            &&& !rest.contains(10u8)
            &&& n > 0 ==> bytes[n - 1] == 10u8
        }),
    decreases bytes.len(),
{
    let rest = rest_of(bytes);
    let n = bytes.len() - rest.len();
    if bytes.len() == 0 {
        assert(bytes.skip(0) =~= rest);
    } else {
        let before = bytes.drop_last();
        text::lemma_pieces_nonempty(before, NEWLINE);
        law_pending_follows_the_last_newline(before);
        if bytes.last() == NEWLINE {
            assert(bytes.skip(n) =~= rest);
        } else {
            let held = rest_of(before);
            assert(rest == held.push(bytes.last()));
            assert(bytes.skip(n) =~= rest) by {
                assert(before.skip(n) == held);
                assert forall|i: int| 0 <= i < rest.len() implies bytes.skip(n)[i] == rest[i] by {
                    if i < held.len() {
                        assert(before.skip(n)[i] == held[i]);
                    }
                }
            }
            assert forall|i: int| 0 <= i < rest.len() implies rest[i] != 10u8 by {
                if i < held.len() {
                    assert(held.contains(held[i]));
                }
            }
        }
    }
}

} // verus!
