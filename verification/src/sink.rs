//! Writing the capture log: one line per event, one file per day.

use crate::calendar;
use crate::calendar::Date;
use crate::tail;
use crate::tail::NEWLINE;
use crate::text;
use vstd::prelude::*;

verus! {

/// What is written for one event.
#[derive(Debug)]
pub struct Append {
    /// Whether a line that was left incomplete is ended first.
    pub close_torn: bool,
    /// The event's line, with its newline.
    pub line: Vec<u8>,
}

/// Decides what is written to the capture log, and to which file.
pub struct JsonlSink {
    open: Option<Date>,
}

/// Whether a file that ends with this byte ends in the middle of a line; an
/// empty file does not.
pub open spec fn torn_after(last: Option<u8>) -> bool {
    last matches Some(b) && b != NEWLINE
}

/// Whether a file that ends with this byte ends in the middle of a line.
pub fn ends_mid_line(last: Option<u8>) -> (r: bool)
    ensures
        r == torn_after(last),
{
    match last {
        Some(b) => b != NEWLINE,
        None => false,
    }
}

impl JsonlSink {
    /// The day whose file is open.
    pub closed spec fn day(&self) -> Option<calendar::Day> {
        calendar::day_option(self.open)
    }

    /// A sink that has no file open.
    pub fn new() -> (r: Self)
        ensures
            r.day() is None,
    {
        JsonlSink { open: None }
    }

    /// Whether the file of `date` has to be opened before an event of that day
    /// is written.
    pub fn rotates(&self, date: Date) -> (r: bool)
        ensures
            r == (self.day() != Some(date@)),
    {
        match &self.open {
            Some(open) => !open.same(&date),
            None => true,
        }
    }

    /// What is written for an event of `date`. Where the file had to be opened,
    /// `last` is its last byte: an earlier process may have died in the middle of
    /// a line, which is then ended, so that the event has a line of its own.
    pub fn append(&mut self, json: Vec<u8>, date: Date, last: Option<u8>) -> (r: Append)
        ensures
            final(self).day() == Some(date@),
            r.close_torn == (old(self).day() != Some(date@) && torn_after(last)),
            r.line@ == json@.push(NEWLINE),
    {
        let close_torn = self.rotates(date) && ends_mid_line(last);
        self.open = Some(date);
        let mut line = json;
        line.push(NEWLINE);
        Append { close_torn, line }
    }
}

// ---------------------------------------------------------------------------
// Laws
// ---------------------------------------------------------------------------

/// The last byte of a file.
pub open spec fn last_byte(contents: Seq<u8>) -> Option<u8> {
    if contents.len() == 0 {
        None
    } else {
        Some(contents.last())
    }
}

/// A file after an append.
pub open spec fn written(contents: Seq<u8>, close_torn: bool, line: Seq<u8>) -> Seq<u8> {
    (if close_torn {
        contents.push(NEWLINE)
    } else {
        contents
    }) + line
}

/// An event that is written to a file that was just opened, whatever the file
/// held, adds one complete line: the file then ends at the end of a line, the
/// event's is the last, and every line before it is as it was, the torn one among
/// them.
pub proof fn law_event_has_a_line_of_its_own(contents: Seq<u8>, json: Seq<u8>)
    requires
        !json.contains(NEWLINE),
    ensures
        ({
            let after = written(
                contents,
                torn_after(last_byte(contents)),
                json.push(NEWLINE),
            );
            let old_lines = text::pieces(contents, NEWLINE);
            let new_lines = text::pieces(after, NEWLINE);
            let kept = if tail::rest_of(contents).len() == 0 {
                old_lines.drop_last()
            } else {
                old_lines
            };
            &&& last_byte(after) == Some(NEWLINE)
            &&& new_lines == kept.push(json).push(Seq::empty())
        }),
{
    let torn = torn_after(last_byte(contents));
    let line = json.push(NEWLINE);
    let base = if torn {
        contents.push(NEWLINE)
    } else {
        contents
    };
    let after = base + line;
    let old_lines = text::pieces(contents, NEWLINE);
    text::law_pieces_join(contents, NEWLINE);
    text::lemma_pieces_append(base, line, NEWLINE);
    text::lemma_one_piece(json, NEWLINE);
    assert(line.drop_last() =~= json);
    let fresh = text::pieces(line, NEWLINE);
    assert(fresh =~= seq![json, Seq::empty()]);
    let based = text::pieces(base, NEWLINE);
    if torn {
        assert(base.drop_last() =~= contents);
        assert(based =~= old_lines.push(Seq::empty()));
        assert(tail::rest_of(contents).len() > 0);
        assert(based.drop_last() =~= old_lines);
    } else if contents.len() == 0 {
        assert(old_lines =~= seq![Seq::empty()]);
    } else {
        assert(old_lines.last().len() == 0);
    }
    assert(based.last() + line =~= line);
    assert(text::pieces(after, NEWLINE) =~= based.drop_last() + fresh);
    assert(after.last() == NEWLINE);
}

/// Events of the day whose file is open go into it line after line: nothing is
/// ended and nothing but the line is written.
pub proof fn law_open_file_grows_by_lines(contents: Seq<u8>, json: Seq<u8>)
    requires
        !json.contains(NEWLINE),
        tail::rest_of(contents).len() == 0,
    ensures
        text::pieces(written(contents, false, json.push(NEWLINE)), NEWLINE) == text::pieces(
            contents,
            NEWLINE,
        ).drop_last().push(json).push(Seq::empty()),
{
    text::law_pieces_join(contents, NEWLINE);
    if torn_after(last_byte(contents)) {
        let before = text::pieces(contents.drop_last(), NEWLINE);
        text::lemma_pieces_nonempty(contents.drop_last(), NEWLINE);
        assert(text::pieces(contents, NEWLINE).last().len() > 0);
    }
    law_event_has_a_line_of_its_own(contents, json);
}

/// What is written for an event comes out of the file for whoever follows it: a
/// line that was left incomplete first, then the event's own, and nothing stays
/// pending.
pub proof fn law_written_event_is_followed(ino: u64, contents: Seq<u8>, json: Seq<u8>)
    requires
        !json.contains(NEWLINE),
        json.len() > 0,
    ensures
        ({
            let torn = torn_after(last_byte(contents));
            let more = written(Seq::empty(), torn, json.push(NEWLINE));
            let file = tail::OpenView::attached(ino, contents);
            &&& contents + more == written(contents, torn, json.push(NEWLINE))
            &&& file.completed(more) == (if torn {
                seq![tail::rest_of(contents), json]
            } else {
                seq![json]
            })
            &&& file.appended(more).partial.len() == 0
        }),
{
    let torn = torn_after(last_byte(contents));
    let line = json.push(NEWLINE);
    let more = written(Seq::empty(), torn, line);
    let rest = tail::rest_of(contents);
    let all = text::pieces(contents, NEWLINE);
    text::law_pieces_join(contents, NEWLINE);
    assert(!all[all.len() - 1].contains(NEWLINE));
    text::lemma_one_piece(json, NEWLINE);
    assert(line.drop_last() =~= json);
    let fresh = text::pieces(line, NEWLINE);
    assert(fresh =~= seq![json, Seq::empty()]);
    assert(contents + more =~= written(contents, torn, line));
    reveal_with_fuel(tail::nonempty, 3);
    if torn {
        let ended = rest.push(NEWLINE);
        text::lemma_one_piece(rest, NEWLINE);
        assert(ended.drop_last() =~= rest);
        assert(text::pieces(ended, NEWLINE) =~= seq![rest, Seq::empty()]);
        assert(rest + more =~= ended + line);
        text::lemma_pieces_append(ended, line, NEWLINE);
        assert(Seq::<u8>::empty() + line =~= line);
        let both = text::pieces(rest + more, NEWLINE);
        assert(both =~= seq![rest, json, Seq::empty()]);
        assert(rest.len() > 0);
        assert(both.drop_last() =~= seq![rest, json]);
        assert(seq![rest, json].drop_last() =~= seq![rest]);
        assert(seq![rest].drop_last() =~= Seq::empty());
        assert(tail::nonempty(seq![rest, json]) =~= seq![rest, json]);
    } else {
        assert(rest.len() == 0);
        assert(rest + more =~= line);
        assert(fresh.drop_last() =~= seq![json]);
        assert(seq![json].drop_last() =~= Seq::empty());
        assert(tail::nonempty(seq![json]) =~= seq![json]);
    }
}

} // verus!
