//! What a [`Tail`](crate::tail::Tail) brings of a log that grows.
//!
//! The log is modelled as it stands on disk from moment to moment. Whoever writes
//! it only appends, and never to a day once a later day has a file. A tail that is
//! told the truth at each step then hands out every line that was not complete
//! when it attached, day by day, and each exactly once.

use crate::calendar;
use crate::tail;
use crate::tail::{Reply, Stage};
use crate::text;
use vstd::prelude::*;

verus! {

// ---------------------------------------------------------------------------
// The log on disk
// ---------------------------------------------------------------------------

/// The file of a day.
pub struct LogFile {
    pub ino: u64,
    pub contents: Seq<u8>,
}

/// The files of the log, by day.
pub struct Disk {
    pub files: Map<calendar::Day, LogFile>,
}

impl Disk {
    /// Whether the day has a file.
    pub open spec fn has(self, d: calendar::Day) -> bool {
        self.files.contains_key(d)
    }

    /// What the file of a day holds; nothing where there is none.
    pub open spec fn contents(self, d: calendar::Day) -> Seq<u8> {
        if self.has(d) {
            self.files[d].contents
        } else {
            Seq::empty()
        }
    }

    /// Whether `later` is what became of this log: files were only appended to,
    /// and none that comes before another was touched or created.
    pub open spec fn grew_to(self, later: Disk) -> bool {
        &&& forall|d: calendar::Day| #[trigger]
            self.has(d) ==> later.has(d) && later.files[d].ino == self.files[d].ino
                && self.contents(d).is_prefix_of(later.contents(d))
        &&& forall|d: calendar::Day, e: calendar::Day| #[trigger]
            later.has(d) && #[trigger] self.has(e) && d.before(e) ==> self.has(d)
                && self.contents(d) == later.contents(d)
    }

    /// The complete lines of the days from `from` up to but without `to`, day by
    /// day.
    pub open spec fn lines_before(self, from: calendar::Day, to: calendar::Day) -> Seq<Seq<u8>>
        decreases rank(to) - rank(from),
    {
        if from.valid() && to.valid() && from.before(to) {
            proof {
                calendar::law_next_day_is_adjacent(from, to);
                lemma_rank(from, from.next()->0);
                lemma_rank(from.next()->0, to);
            }
            tail::lines_of(self.contents(from)) + self.lines_before(from.next()->0, to)
        } else {
            Seq::empty()
        }
    }

    /// The complete lines of the days from `from` to `to`, day by day.
    pub open spec fn lines(self, from: calendar::Day, to: calendar::Day) -> Seq<Seq<u8>> {
        self.lines_before(from, to) + tail::lines_of(self.contents(to))
    }
}

/// A number that grows with the day.
pub open spec fn rank(d: calendar::Day) -> int {
    d.year * 372 + d.month * 31 + d.day
}

/// A day that comes later has a greater number.
pub proof fn lemma_rank(a: calendar::Day, b: calendar::Day)
    requires
        a.valid(),
        b.valid(),
        a == b || a.before(b),
    ensures
        rank(a) <= rank(b),
        a != b ==> rank(a) < rank(b),
{
}

/// The later of two days.
pub open spec fn later(a: calendar::Day, b: calendar::Day) -> calendar::Day {
    if a.before(b) {
        b
    } else {
        a
    }
}

// ---------------------------------------------------------------------------
// Runs
// ---------------------------------------------------------------------------

/// What happens to a tail.
pub enum Move {
    /// A poll starts on this day.
    Poll(calendar::Day),
    /// A reply comes in.
    Step(Reply),
}

/// What happens to a tail, and the log as it stands then.
pub struct Moment {
    pub disk: Disk,
    pub what: Move,
}

/// A tail and the lines that it has handed out.
pub struct Course {
    pub tail: tail::TailView,
    pub out: Seq<Seq<u8>>,
}

/// Whether a reply tells how the log stands.
pub open spec fn is_true(disk: Disk, tail: tail::TailView, reply: Reply) -> bool {
    match reply {
        Reply::Status(Some((ino, len))) => disk.has(tail.date) && ino == disk.files[tail.date].ino
            && len == disk.contents(tail.date).len(),
        Reply::Status(None) => !disk.has(tail.date),
        Reply::Opened(Some(ino)) => disk.has(tail.date) && ino == disk.files[tail.date].ino,
        Reply::Opened(None) => !disk.has(tail.date),
        Reply::Data(data) => data@ == disk.contents(tail.date).skip(tail.open->0.read as int),
        Reply::Exists(there) => tail.phase matches tail::PhaseView::Probe(d) && there == disk.has(
            d,
        ),
    }
}

/// Whether this can happen to the tail while the log stands so.
pub open spec fn can_happen(tail: tail::TailView, moment: Moment) -> bool {
    match moment.what {
        Move::Poll(today) => today.valid(),
        Move::Step(reply) => tail.awaits(reply) && is_true(moment.disk, tail, reply),
    }
}

impl Course {
    /// Right after a tail attached to the file of `today`.
    pub open spec fn start(disk: Disk, today: calendar::Day) -> Course {
        Course {
            tail: tail::TailView::attached(
                today,
                if disk.has(today) {
                    Some((disk.files[today].ino, disk.contents(today)))
                } else {
                    None
                },
            ),
            out: Seq::empty(),
        }
    }

    /// The course after one more move.
    pub open spec fn after(self, what: Move) -> Course {
        match what {
            Move::Poll(today) => Course { tail: self.tail.begun(today).0, out: self.out },
            Move::Step(reply) => Course {
                tail: self.tail.after(reply).0,
                out: self.out + self.tail.lines(reply),
            },
        }
    }
}

/// The course of a tail that attached on `today` and to which this happened.
pub open spec fn course(first: Disk, today: calendar::Day, moments: Seq<Moment>) -> Course
    decreases moments.len(),
{
    if moments.len() == 0 {
        Course::start(first, today)
    } else {
        course(first, today, moments.drop_last()).after(moments.last().what)
    }
}

/// The log as it stands at the end.
pub open spec fn last_disk(first: Disk, moments: Seq<Moment>) -> Disk {
    if moments.len() == 0 {
        first
    } else {
        moments.last().disk
    }
}

/// Whether all this can happen to a tail that attached on `today`, while the log
/// only grows.
pub open spec fn is_history(first: Disk, today: calendar::Day, moments: Seq<Moment>) -> bool
    decreases moments.len(),
{
    if moments.len() == 0 {
        true
    } else {
        let before = moments.drop_last();
        &&& is_history(first, today, before)
        &&& last_disk(first, before).grew_to(moments.last().disk)
        &&& can_happen(course(first, today, before).tail, moments.last())
    }
}

/// What of the present day's file was read.
pub open spec fn read_part(disk: Disk, tail: tail::TailView) -> Seq<u8> {
    match tail.open {
        Some(file) => disk.contents(tail.date).take(file.read as int),
        None => Seq::empty(),
    }
}

// ---------------------------------------------------------------------------
// The lines of a log
// ---------------------------------------------------------------------------

/// Nothing holds no lines.
proof fn lemma_no_lines()
    ensures
        tail::lines_of(Seq::<u8>::empty()) == Seq::<Seq<u8>>::empty(),
{
    assert(text::pieces(Seq::<u8>::empty(), tail::NEWLINE).drop_last() =~= Seq::empty());
}

/// Contents that grow keep their complete lines.
proof fn lemma_lines_grow(short: Seq<u8>, long: Seq<u8>)
    requires
        short.is_prefix_of(long),
    ensures
        tail::lines_of(short).is_prefix_of(tail::lines_of(long)),
{
    let more = long.skip(short.len() as int);
    assert(short + more =~= long);
    tail::law_attaching_passes_history_over(0, short, more);
}

/// The lines up to a day and those of the day are the lines up to the day after.
proof fn lemma_next_day(disk: Disk, from: calendar::Day, mid: calendar::Day, next: calendar::Day)
    requires
        from.valid(),
        mid.valid(),
        mid.next() == Some(next),
        from == mid || from.before(mid),
    ensures
        disk.lines_before(from, next) == disk.lines(from, mid),
    decreases rank(mid) - rank(from),
{
    calendar::lemma_next_valid(mid);
    if from == mid {
        assert(disk.lines_before(next, next) =~= Seq::empty());
        assert(disk.lines_before(mid, mid) =~= Seq::empty());
        assert(disk.lines_before(from, next) =~= disk.lines(from, mid));
    } else {
        calendar::law_next_day_is_adjacent(from, mid);
        let second = from.next()->0;
        lemma_rank(from, second);
        lemma_rank(second, mid);
        lemma_next_day(disk, second, mid, next);
        assert(from.before(next));
        assert(disk.lines_before(from, next) =~= disk.lines(from, mid));
    }
}

/// Logs that agree on the days have the same lines.
proof fn lemma_same_days(a: Disk, b: Disk, from: calendar::Day, to: calendar::Day)
    requires
        forall|d: calendar::Day| #[trigger]
            a.contents(d) == b.contents(d) || !d.before(to) || d.before(from),
    ensures
        a.lines_before(from, to) == b.lines_before(from, to),
    decreases rank(to) - rank(from),
{
    if from.valid() && to.valid() && from.before(to) {
        calendar::law_next_day_is_adjacent(from, to);
        let second = from.next()->0;
        lemma_rank(from, second);
        lemma_rank(second, to);
        assert(a.contents(from) == b.contents(from));
        lemma_same_days(a, b, second, to);
    }
}

/// Days without a file have no lines.
proof fn lemma_days_without_files(disk: Disk, from: calendar::Day, to: calendar::Day)
    requires
        forall|d: calendar::Day| #[trigger]
            disk.has(d) && d.valid() ==> !d.before(to) || d.before(from),
    ensures
        disk.lines_before(from, to) == Seq::<Seq<u8>>::empty(),
    decreases rank(to) - rank(from),
{
    if from.valid() && to.valid() && from.before(to) {
        calendar::law_next_day_is_adjacent(from, to);
        let second = from.next()->0;
        lemma_rank(from, second);
        lemma_rank(second, to);
        assert(!disk.has(from));
        lemma_days_without_files(disk, second, to);
        lemma_no_lines();
        assert(disk.lines_before(from, to) =~= Seq::empty());
    }
}

/// The days from `mid` on may be added to those before it.
proof fn lemma_split_days(disk: Disk, from: calendar::Day, mid: calendar::Day, to: calendar::Day)
    requires
        from.valid(),
        mid.valid(),
        to.valid(),
        from == mid || from.before(mid),
        mid == to || mid.before(to),
    ensures
        disk.lines_before(from, to) == disk.lines_before(from, mid) + disk.lines_before(mid, to),
    decreases rank(mid) - rank(from),
{
    if from == mid {
        assert(disk.lines_before(from, to) =~= disk.lines_before(from, mid) + disk.lines_before(
            mid,
            to,
        ));
    } else {
        calendar::law_next_day_is_adjacent(from, mid);
        let second = from.next()->0;
        lemma_rank(from, second);
        lemma_rank(second, mid);
        lemma_split_days(disk, second, mid, to);
        assert(disk.lines_before(from, to) =~= disk.lines_before(from, mid) + disk.lines_before(
            mid,
            to,
        ));
    }
}

/// Growing is transitive.
proof fn lemma_grew_on(a: Disk, b: Disk, c: Disk)
    requires
        a.grew_to(b),
        b.grew_to(c),
    ensures
        a.grew_to(c),
{
    assert forall|d: calendar::Day| #[trigger] a.has(d) implies c.has(d) && c.files[d].ino
        == a.files[d].ino && a.contents(d).is_prefix_of(c.contents(d)) by {
        assert(b.has(d));
    }
    assert forall|d: calendar::Day, e: calendar::Day| #[trigger]
        c.has(d) && #[trigger] a.has(e) && d.before(e) implies a.has(d) && a.contents(d)
        == c.contents(d) by {
        assert(b.has(e));
        assert(b.has(d));
    }
}

/// A log that grows keeps its lines: what it had comes first.
pub proof fn law_log_is_only_appended_to(a: Disk, b: Disk, from: calendar::Day, to: calendar::Day)
    requires
        a.grew_to(b),
        from.valid(),
        to.valid(),
        from == to || from.before(to),
    ensures
        a.lines(from, to).is_prefix_of(b.lines(from, to)),
    decreases rank(to) - rank(from),
{
    lemma_no_lines();
    if a.has(from) {
        lemma_lines_grow(a.contents(from), b.contents(from));
    }
    if from == to {
        assert(a.lines_before(from, to) =~= Seq::empty());
        assert(b.lines_before(from, to) =~= Seq::empty());
        assert(a.lines(from, to) =~= tail::lines_of(a.contents(from)));
        assert(b.lines(from, to) =~= tail::lines_of(b.contents(from)));
    } else {
        calendar::law_next_day_is_adjacent(from, to);
        let second = from.next()->0;
        lemma_rank(from, second);
        lemma_rank(second, to);
        let head_a = tail::lines_of(a.contents(from));
        let head_b = tail::lines_of(b.contents(from));
        assert(a.lines(from, to) =~= head_a + a.lines(second, to));
        assert(b.lines(from, to) =~= head_b + b.lines(second, to));
        if exists|e: calendar::Day| #[trigger] a.has(e) && from.before(e) && !to.before(e) {
            let e = choose|e: calendar::Day| #[trigger] a.has(e) && from.before(e) && !to.before(e);
            assert(b.has(from) ==> a.has(from) && a.contents(from) == b.contents(from));
            assert(a.has(from) ==> b.has(from));
            assert(head_a == head_b);
            law_log_is_only_appended_to(a, b, second, to);
        } else {
            assert forall|d: calendar::Day| #[trigger] a.has(d) implies !d.before(to) || d.before(
                second,
            ) by {
                if d.before(to) && !d.before(second) {
                    assert(from.before(d) && !to.before(d));
                }
            }
            lemma_days_without_files(a, second, to);
            assert(!a.has(to));
            assert(a.lines(second, to) =~= Seq::empty());
            assert(a.lines(from, to) =~= head_a);
        }
    }
}

// ---------------------------------------------------------------------------
// Every line comes out once
// ---------------------------------------------------------------------------

/// What holds of a tail at every moment: what it read of the present day's file is
/// how the file begins, the days before it are settled, and their lines and those
/// of what was read are the lines that were there at the start and those that have
/// come out.
spec fn keeps_track(first: Disk, start: calendar::Day, disk: Disk, c: Course) -> bool {
    &&& c.tail.valid()
    &&& start.valid()
    &&& start == c.tail.date || start.before(c.tail.date)
    &&& c.tail.open matches Some(file) ==> {
        &&& disk.has(c.tail.date)
        &&& file.ino == disk.files[c.tail.date].ino
        &&& file.read <= disk.contents(c.tail.date).len()
        &&& file.partial == tail::rest_of(disk.contents(c.tail.date).take(file.read as int))
    }
    &&& start == c.tail.date || exists|e: calendar::Day|
        e.valid() && #[trigger] disk.has(e) && !e.before(c.tail.date)
    &&& c.tail.draining() ==> exists|e: calendar::Day|
        e.valid() && #[trigger] disk.has(e) && c.tail.date.before(e)
    &&& tail::lines_of(first.contents(start)) + c.out == disk.lines_before(start, c.tail.date)
        + tail::lines_of(read_part(disk, c.tail))
}

proof fn lemma_track_at_start(first: Disk, start: calendar::Day)
    requires
        start.valid(),
    ensures
        keeps_track(first, start, first, Course::start(first, start)),
{
    let c = Course::start(first, start);
    lemma_no_lines();
    assert(first.lines_before(start, start) =~= Seq::empty());
    if first.has(start) {
        assert(first.contents(start).take(first.contents(start).len() as int) =~= first.contents(
            start,
        ));
    }
    assert(tail::lines_of(first.contents(start)) + c.out =~= first.lines_before(start, start)
        + tail::lines_of(read_part(first, c.tail)));
}

proof fn lemma_track_while_growing(
    first: Disk,
    start: calendar::Day,
    before: Disk,
    after: Disk,
    c: Course,
)
    requires
        keeps_track(first, start, before, c),
        before.grew_to(after),
    ensures
        keeps_track(first, start, after, c),
{
    let date = c.tail.date;
    if let Some(file) = c.tail.open {
        assert(before.has(date));
        assert(after.contents(date).take(file.read as int) =~= before.contents(date).take(
            file.read as int,
        ));
    }
    if start != date {
        let e = choose|e: calendar::Day| e.valid() && #[trigger] before.has(e) && !e.before(date);
        assert(after.has(e));
        assert forall|d: calendar::Day| #[trigger]
            before.contents(d) == after.contents(d) || !d.before(date) || d.before(start) by {
            if d.before(date) {
                assert(d.before(e));
                assert(before.has(d) ==> after.has(d));
                assert(after.has(d) ==> before.has(d));
            }
        }
        lemma_same_days(before, after, start, date);
    } else {
        assert(before.lines_before(start, date) =~= after.lines_before(start, date));
    }
    if c.tail.draining() {
        let e = choose|e: calendar::Day| e.valid() && #[trigger] before.has(e) && date.before(e);
        assert(after.has(e));
    }
}

/// After the present day's file was read to its end, or is not there.
proof fn lemma_track_when_finished(
    first: Disk,
    start: calendar::Day,
    disk: Disk,
    c: Course,
    stage: Stage,
)
    requires
        keeps_track(first, start, disk, Course { tail: c.tail, out: c.out }),
        read_part(disk, c.tail) == disk.contents(c.tail.date),
        c.tail.finished(stage).0.valid(),
        stage == Stage::Drain ==> c.tail.draining(),
    ensures
        keeps_track(first, start, disk, Course { tail: c.tail.finished(stage).0, out: c.out }),
{
    let date = c.tail.date;
    let next = c.tail.finished(stage).0;
    if stage == Stage::Drain {
        calendar::law_next_day_is_adjacent(date, c.tail.today);
        assert(next.date == date.next()->0);
        let e = choose|e: calendar::Day| e.valid() && #[trigger] disk.has(e) && date.before(e);
        calendar::law_next_day_is_adjacent(date, e);
        assert(!e.before(next.date));
        lemma_next_day(disk, start, date, next.date);
        lemma_no_lines();
        assert(disk.lines_before(start, next.date) + Seq::<Seq<u8>>::empty()
            =~= disk.lines_before(start, next.date));
    }
}

proof fn lemma_track_after_a_move(first: Disk, start: calendar::Day, moment: Moment, c: Course)
    requires
        keeps_track(first, start, moment.disk, c),
        can_happen(c.tail, moment),
    ensures
        keeps_track(first, start, moment.disk, c.after(moment.what)),
{
    let disk = moment.disk;
    let date = c.tail.date;
    match moment.what {
        Move::Poll(today) => {},
        Move::Step(reply) => {
            tail::law_date_only_moves_forward(c.tail, reply);
            lemma_no_lines();
            assert(c.out + Seq::<Seq<u8>>::empty() =~= c.out);
            match (c.tail.phase, reply) {
                (tail::PhaseView::Stat(stage), Reply::Status(seen)) => {
                    assert(!c.tail.open->0.stale(seen));
                },
                (tail::PhaseView::Open(stage), Reply::Opened(ino)) => {
                    match ino {
                        Some(ino) => {
                            assert(disk.contents(date).take(0) =~= Seq::empty());
                        },
                        None => {
                            lemma_track_when_finished(first, start, disk, c, stage);
                        },
                    }
                },
                (tail::PhaseView::Read(stage), Reply::Data(data)) => {
                    let file = c.tail.open->0;
                    let had = disk.contents(date).take(file.read as int);
                    assert(had + data@ =~= disk.contents(date));
                    assert(file == tail::OpenView::attached(file.ino, had));
                    tail::law_attaching_passes_history_over(file.ino, had, data@);
                    let read = tail::TailView { open: Some(file.appended(data@)), ..c.tail };
                    let out = c.out + c.tail.lines(reply);
                    assert(disk.contents(date).take(disk.contents(date).len() as int)
                        =~= disk.contents(date));
                    assert(tail::lines_of(first.contents(start)) + out
                        =~= disk.lines_before(start, date) + tail::lines_of(had)
                        + c.tail.lines(reply));
                    assert(disk.lines_before(start, date) + tail::lines_of(had)
                        + c.tail.lines(reply) =~= disk.lines_before(start, date)
                        + tail::lines_of(disk.contents(date)));
                    lemma_track_when_finished(first, start, disk, Course { tail: read, out }, stage);
                },
                (tail::PhaseView::Probe(d), Reply::Exists(there)) => {
                    if there {
                        assert(disk.has(d));
                    }
                },
                _ => {},
            }
        },
    }
}

proof fn lemma_track(first: Disk, start: calendar::Day, moments: Seq<Moment>)
    requires
        start.valid(),
        is_history(first, start, moments),
    ensures
        keeps_track(first, start, last_disk(first, moments), course(first, start, moments)),
    decreases moments.len(),
{
    if moments.len() == 0 {
        lemma_track_at_start(first, start);
    } else {
        let before = moments.drop_last();
        lemma_track(first, start, before);
        let c = course(first, start, before);
        lemma_track_while_growing(
            first,
            start,
            last_disk(first, before),
            moments.last().disk,
            c,
        );
        lemma_track_after_a_move(first, start, moments.last(), c);
    }
}

/// Every line comes out once: whatever polls there were and however the log grew
/// between and during them, the lines that were complete when the tail attached
/// and those that it has handed out since are, in order, the complete lines of the
/// days before the present one and those of what was read of the present day's
/// file. So no line is lost before midnight, and none is handed out again, whatever
/// the clock does.
pub proof fn law_each_line_comes_out_once(
    first: Disk,
    start: calendar::Day,
    moments: Seq<Moment>,
)
    requires
        start.valid(),
        is_history(first, start, moments),
    ensures
        ({
            let c = course(first, start, moments);
            let disk = last_disk(first, moments);
            &&& start == c.tail.date || start.before(c.tail.date)
            &&& read_part(disk, c.tail).is_prefix_of(disk.contents(c.tail.date))
            &&& tail::lines_of(first.contents(start)) + c.out == disk.lines_before(
                start,
                c.tail.date,
            ) + tail::lines_of(read_part(disk, c.tail))
        }),
{
    lemma_track(first, start, moments);
}

// ---------------------------------------------------------------------------
// A poll brings all there is
// ---------------------------------------------------------------------------

/// Whether all was read that `disk` held of the present day's file.
spec fn caught_up(disk: Disk, t: tail::TailView) -> bool {
    disk.has(t.date) ==> t.open is Some && disk.contents(t.date).len() <= t.open->0.read
}

/// Whether a tail that has come as far as this in a poll has looked for what there
/// was when the poll started, as `disk` shows it.
spec fn has_looked(disk: Disk, t: tail::TailView) -> bool {
    match t.phase {
        tail::PhaseView::Idle => caught_up(disk, t) && forall|d: calendar::Day| #[trigger]
            disk.has(d) && d.valid() && t.date.before(d) ==> t.today.before(d),
        tail::PhaseView::Probe(next) => caught_up(disk, t) && forall|d: calendar::Day| #[trigger]
            disk.has(d) && d.valid() && t.date.before(d) ==> !d.before(next),
        _ => true,
    }
}

proof fn lemma_looking_on(disk: Disk, t: tail::TailView, from: calendar::Day)
    requires
        t.date.valid(),
        t.today.valid(),
        from.valid(),
        t.date == from || t.date.before(from),
        caught_up(disk, t),
        forall|d: calendar::Day| #[trigger]
            disk.has(d) && d.valid() && t.date.before(d) ==> from.before(d),
    ensures
        has_looked(disk, t.probing(from).0),
{
    let next = t.probing(from).0;
    assert forall|d: calendar::Day| #[trigger] disk.has(d) && d.valid() && t.date.before(d) implies (
    from.next() matches Some(n) && !d.before(n)) by {
        calendar::law_next_day_is_adjacent(from, d);
    }
    if let Some(n) = from.next() {
        calendar::lemma_next_valid(from);
        if t.today.before(n) {
            assert forall|d: calendar::Day| #[trigger]
                disk.has(d) && d.valid() && t.date.before(d) implies t.today.before(d) by {
                assert(!d.before(n));
            }
        }
    }
}

proof fn lemma_looked_when_finished(disk: Disk, t: tail::TailView, stage: Stage)
    requires
        t.date.valid(),
        t.today.valid(),
        caught_up(disk, t),
    ensures
        has_looked(disk, t.finished(stage).0),
{
    if stage != Stage::Drain {
        if t.date.before(t.today) {
            lemma_looking_on(disk, t, t.date);
        }
    }
}

proof fn lemma_looked_after_a_step(
    first: Disk,
    start: calendar::Day,
    polled: Disk,
    disk: Disk,
    c: Course,
    reply: Reply,
)
    requires
        keeps_track(first, start, disk, c),
        c.tail.awaits(reply),
        is_true(disk, c.tail, reply),
        polled.grew_to(disk),
        has_looked(polled, c.tail),
    ensures
        has_looked(polled, c.tail.after(reply).0),
{
    let t = c.tail;
    match (t.phase, reply) {
        (tail::PhaseView::Open(stage), Reply::Opened(None)) => {
            assert(!polled.has(t.date));
            lemma_looked_when_finished(polled, t, stage);
        },
        (tail::PhaseView::Read(stage), Reply::Data(data)) => {
            let read = tail::TailView { open: Some(t.open->0.appended(data@)), ..t };
            assert(caught_up(polled, read));
            lemma_looked_when_finished(polled, read, stage);
        },
        (tail::PhaseView::Probe(d), Reply::Exists(false)) => {
            assert(!polled.has(d));
            assert forall|e: calendar::Day| #[trigger]
                polled.has(e) && e.valid() && t.date.before(e) implies d.before(e) by {
                assert(!e.before(d));
                assert(e != d);
            }
            lemma_looking_on(polled, t, d);
        },
        _ => {},
    }
}

/// Whether the latest poll began with moment `p`.
pub open spec fn is_latest_poll(moments: Seq<Moment>, p: int) -> bool {
    &&& 0 <= p < moments.len()
    &&& moments[p].what is Poll
    &&& forall|i: int| p < i < moments.len() ==> (#[trigger] moments[i]).what is Step
}

proof fn lemma_looked(first: Disk, start: calendar::Day, moments: Seq<Moment>, p: int)
    requires
        start.valid(),
        is_history(first, start, moments),
        is_latest_poll(moments, p),
    ensures
        has_looked(moments[p].disk, course(first, start, moments).tail),
        moments[p].disk.grew_to(last_disk(first, moments)),
        course(first, start, moments).tail.today == moments[p].what->Poll_0,
    decreases moments.len(),
{
    let before = moments.drop_last();
    let n = moments.len() - 1;
    assert(moments.last() == moments[n]);
    if p < n {
        assert(is_latest_poll(before, p)) by {
            assert(before[p] == moments[p]);
            assert forall|i: int| p < i < before.len() implies (#[trigger] before[i]).what is Step by {
                assert(before[i] == moments[i]);
            }
        }
        lemma_looked(first, start, before, p);
        assert(before[p] == moments[p]);
        let c = course(first, start, before);
        let disk = moments[n].disk;
        lemma_track(first, start, before);
        lemma_track_while_growing(first, start, last_disk(first, before), disk, c);
        lemma_grew_on(moments[p].disk, last_disk(first, before), disk);
        assert(moments[n].what is Step);
        let reply = moments[n].what->Step_0;
        lemma_looked_after_a_step(first, start, moments[p].disk, disk, c, reply);
        tail::law_date_only_moves_forward(c.tail, reply);
    }
}

/// The log as far as a tail has read it.
spec fn as_read(disk: Disk, t: tail::TailView) -> Disk {
    Disk {
        files: match t.open {
            Some(file) => disk.files.insert(
                t.date,
                LogFile { ino: file.ino, contents: read_part(disk, t) },
            ),
            None => disk.files.remove(t.date),
        },
    }
}

/// The lines up to a later day, where the days after `date` have no files.
proof fn lemma_nothing_after(
    disk: Disk,
    start: calendar::Day,
    date: calendar::Day,
    today: calendar::Day,
)
    requires
        start.valid(),
        date.valid(),
        today.valid(),
        start == date || start.before(date),
        forall|d: calendar::Day| #[trigger]
            disk.has(d) && d.valid() && date.before(d) ==> today.before(d),
    ensures
        disk.lines(start, later(date, today)) == disk.lines(start, date),
{
    if date.before(today) {
        calendar::law_next_day_is_adjacent(date, today);
        let next = date.next()->0;
        lemma_next_day(disk, start, date, next);
        lemma_split_days(disk, start, next, today);
        assert forall|d: calendar::Day| #[trigger] disk.has(d) && d.valid() implies !d.before(today)
            || d.before(next) by {
            if !d.before(next) {
                assert(date.before(d));
            }
        }
        lemma_days_without_files(disk, next, today);
        assert(!disk.has(today));
        lemma_no_lines();
        assert(disk.lines(start, today) =~= disk.lines(start, date));
    }
}

/// Lines up to a day come first among those up to a later day.
proof fn lemma_more_days(
    disk: Disk,
    start: calendar::Day,
    date: calendar::Day,
    today: calendar::Day,
)
    requires
        start.valid(),
        date.valid(),
        today.valid(),
        start == date || start.before(date),
    ensures
        disk.lines(start, date).is_prefix_of(disk.lines(start, later(date, today))),
{
    if date.before(today) {
        calendar::law_next_day_is_adjacent(date, today);
        let next = date.next()->0;
        lemma_next_day(disk, start, date, next);
        lemma_split_days(disk, start, next, today);
    }
}

/// A poll brings all there is: once it has ended, everything has come out that the
/// log held when it started, of every day from the first one to the day of the
/// poll, and nothing that the log does not hold now. Where the log did not change
/// meanwhile, what has come out is exactly what it holds. Days without a file are
/// passed over.
pub proof fn law_poll_brings_all_there_is(
    first: Disk,
    start: calendar::Day,
    moments: Seq<Moment>,
    p: int,
)
    requires
        start.valid(),
        is_history(first, start, moments),
        is_latest_poll(moments, p),
        course(first, start, moments).tail.phase is Idle,
    ensures
        ({
            let c = course(first, start, moments);
            let polled = moments[p].disk;
            let disk = last_disk(first, moments);
            let to = later(c.tail.date, moments[p].what->Poll_0);
            let all = tail::lines_of(first.contents(start)) + c.out;
            &&& polled.lines(start, to).is_prefix_of(all)
            &&& all.is_prefix_of(disk.lines(start, to))
            &&& polled == disk ==> all == disk.lines(start, to)
        }),
{
    let c = course(first, start, moments);
    let t = c.tail;
    let polled = moments[p].disk;
    let disk = last_disk(first, moments);
    let all = tail::lines_of(first.contents(start)) + c.out;
    lemma_track(first, start, moments);
    lemma_looked(first, start, moments, p);
    let seen = as_read(disk, t);
    assert(seen.contents(t.date) =~= read_part(disk, t));
    assert forall|d: calendar::Day| d != t.date implies #[trigger] seen.has(d) == disk.has(d)
        && seen.contents(d) == disk.contents(d) by {}
    assert forall|d: calendar::Day| #[trigger]
        disk.contents(d) == seen.contents(d) || !d.before(t.date) || d.before(start) by {}
    lemma_same_days(disk, seen, start, t.date);
    assert(all == seen.lines(start, t.date));
    assert(polled.grew_to(seen)) by {
        assert forall|d: calendar::Day| #[trigger] polled.has(d) implies seen.has(d)
            && seen.files[d].ino == polled.files[d].ino && polled.contents(d).is_prefix_of(
            seen.contents(d),
        ) by {
            assert(disk.has(d));
        }
        assert forall|d: calendar::Day, e: calendar::Day| #[trigger]
            seen.has(d) && #[trigger] polled.has(e) && d.before(e) implies polled.has(d)
            && polled.contents(d) == seen.contents(d) by {
            assert(disk.has(d));
            if d == t.date {
                assert(polled.contents(d) == disk.contents(d));
                assert(read_part(disk, t) =~= disk.contents(d));
            }
        }
    }
    law_log_is_only_appended_to(polled, seen, start, t.date);
    lemma_nothing_after(polled, start, t.date, t.today);
    if t.open is Some {
        lemma_lines_grow(read_part(disk, t), disk.contents(t.date));
    } else {
        lemma_no_lines();
    }
    assert(all.is_prefix_of(disk.lines(start, t.date)));
    lemma_more_days(disk, start, t.date, t.today);
    if polled == disk {
        assert(all =~= disk.lines(start, later(t.date, t.today)));
    }
}

} // verus!
