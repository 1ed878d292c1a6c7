//! Folding lines of text into the table of stations.
//!
//! A chunk of text is split into lines. A line `key;measurement` is a reading
//! at the station `key`; a line without a `;` is skipped; a line whose
//! measurement cannot be read ends the run. Lines end at `\n` or `\r\n`, and a
//! last line need not be terminated.

use vstd::prelude::*;
use vstd::slice::slice_subrange;
use vstd::string::*;
use vstd::utf8::encode_utf8;
use crate::bytes::{find_byte, first_from, lemma_first_from, lemma_first_from_tail};
use crate::chunking::NEWLINE;
use crate::error::PipelineError;
use crate::fixed_point::{measurement_value, parse_measurement};
use crate::stats::Summary;
use crate::table::{observe, Ledger, StationTable};

verus! {

/// Parts a key from its measurement.
pub const SEPARATOR: u8 = 59;

pub const CARRIAGE_RETURN: u8 = 13;

/// What one line of input amounts to.
pub enum LineOutcome {
    /// The line has no `;`: it is passed over.
    Skipped,
    /// The line has a `;`, and what follows it is no measurement.
    Malformed,
    /// A reading of `value` tenths at the station `key`.
    Reading { key: Seq<u8>, value: int },
}

/// Reads one line: the key is what stands before the first `;`, the
/// measurement all that follows it.
pub open spec fn parse_line(line: Seq<u8>) -> LineOutcome {
    let at = first_from(line, SEPARATOR, 0);
    if at >= line.len() {
        LineOutcome::Skipped
    } else {
        match measurement_value(line.subrange(at + 1, line.len() as int)) {
            Some(value) => LineOutcome::Reading { key: line.subrange(0, at), value },
            None => LineOutcome::Malformed,
        }
    }
}

/// How far a run has come: the ledger and the number of the readings taken,
/// and whether a malformed measurement has ended it.
pub struct Tally {
    pub ledger: Ledger,
    pub readings: nat,
    pub failed: bool,
}

impl Tally {
    /// A run that has taken nothing yet.
    pub open spec fn start() -> Tally {
        Tally { ledger: Map::empty(), readings: 0, failed: false }
    }

    /// What the run comes to: its ledger and the number of its readings,
    /// unless it has failed.
    pub open spec fn settled(self) -> Option<(Ledger, nat)> {
        if self.failed {
            None
        } else {
            Some((self.ledger, self.readings))
        }
    }
}

impl StationTable {
    /// The run that has brought the table to where it is, failed or not.
    pub open spec fn tally(&self, failed: bool) -> Tally {
        Tally { ledger: self@, readings: self.spec_readings(), failed }
    }
}

/// The run after one more line. A run that has failed takes no more lines.
pub open spec fn fold_line(tally: Tally, line: Seq<u8>) -> Tally {
    if tally.failed {
        tally
    } else {
        match parse_line(line) {
            LineOutcome::Skipped => tally,
            LineOutcome::Malformed => Tally { failed: true, ..tally },
            LineOutcome::Reading { key, value } => Tally {
                ledger: observe(tally.ledger, key, value),
                readings: tally.readings + 1,
                failed: false,
            },
        }
    }
}

/// The first line of a text that is not empty, without its terminator.
pub open spec fn first_line(text: Seq<u8>) -> Seq<u8> {
    let end = first_from(text, NEWLINE, 0);
    if 0 < end < text.len() && text[end - 1] == CARRIAGE_RETURN {
        text.subrange(0, end - 1)
    } else {
        text.subrange(0, end)
    }
}

/// What follows the first line of a text and its terminator.
pub open spec fn after_first_line(text: Seq<u8>) -> Seq<u8> {
    let end = first_from(text, NEWLINE, 0);
    if end < text.len() {
        text.subrange(end + 1, text.len() as int)
    } else {
        Seq::empty()
    }
}

/// The lines of a text, in order.
pub open spec fn lines_of(text: Seq<u8>) -> Seq<Seq<u8>>
    decreases text.len(),
{
    if text.len() == 0 {
        Seq::empty()
    } else {
        proof {
            lemma_first_from(text, NEWLINE, 0);
        }
        seq![first_line(text)] + lines_of(after_first_line(text))
    }
}

/// `fold_line` as a step of a fold.
pub open spec fn line_step() -> spec_fn(Tally, Seq<u8>) -> Tally {
    |tally: Tally, line: Seq<u8>| fold_line(tally, line)
}

/// The run after the given lines, taken in order.
pub open spec fn fold_lines(tally: Tally, lines: Seq<Seq<u8>>) -> Tally {
    lines.fold_left(tally, line_step())
}

/// The run after the lines of `text`.
pub open spec fn fold_text(tally: Tally, text: Seq<u8>) -> Tally {
    fold_lines(tally, lines_of(text))
}

/// `fold_text` as a step of a fold.
pub open spec fn text_step() -> spec_fn(Tally, Seq<u8>) -> Tally {
    |tally: Tally, text: Seq<u8>| fold_text(tally, text)
}

/// The run after the given chunks of text, taken in order.
pub open spec fn fold_chunks(tally: Tally, chunks: Seq<Seq<u8>>) -> Tally {
    chunks.fold_left(tally, text_step())
}

/// The bytes of each of the given texts.
pub open spec fn bytes_of(texts: Seq<String>) -> Seq<Seq<u8>> {
    texts.map_values(|text: String| encode_utf8(text@))
}

/// A run that has failed stays as it is, whatever lines follow.
pub proof fn lemma_failed_run_is_over(tally: Tally, lines: Seq<Seq<u8>>)
    requires
        tally.failed,
    ensures
        fold_lines(tally, lines) == tally,
    decreases lines.len(),
{
    if lines.len() > 0 {
        lemma_failed_run_is_over(tally, lines.drop_last());
    }
}

/// Folding a text is folding its first line and then the rest of it.
pub proof fn lemma_fold_text_unfold(tally: Tally, text: Seq<u8>)
    ensures
        text.len() == 0 ==> fold_text(tally, text) == tally,
        text.len() > 0 ==> fold_text(tally, text) == fold_text(
            fold_line(tally, first_line(text)),
            after_first_line(text),
        ),
{
    if text.len() > 0 {
        let lines = lines_of(text);
        let rest = lines_of(after_first_line(text));
        assert(lines == seq![first_line(text)] + rest);
        lines.lemma_fold_left_split(tally, line_step(), 1);
        assert(lines.subrange(0, 1) =~= seq![first_line(text)]);
        assert(lines.subrange(1, lines.len() as int) =~= rest);
        reveal_with_fuel(Seq::fold_left, 2);
        assert(seq![first_line(text)].drop_last() =~= Seq::<Seq<u8>>::empty());
        assert(seq![first_line(text)].fold_left(tally, line_step()) == fold_line(
            tally,
            first_line(text),
        ));
    }
}

/// Takes one line into the table.
///
/// A line `key;measurement` is a reading at the station `key`. A line without
/// a `;` is passed over. A line with a `;` whose measurement cannot be read
/// is a `MalformedMeasurement`, and leaves the table as it was.
pub fn process_line_bytes(line: &[u8], table: &mut StationTable) -> (done: Result<
    (),
    PipelineError,
>)
    requires
        old(table).wf(),
        old(table).spec_readings() < u64::MAX,
    ensures
        final(table).wf(),
        final(table).tally(done is Err) == fold_line(old(table).tally(false), line@),
        done is Err ==> done == Err::<(), PipelineError>(PipelineError::MalformedMeasurement),
{
    let at: usize = find_byte(line, SEPARATOR, 0);
    if at >= line.len() {
        return Ok(());
    }
    let value: i64 = match parse_measurement(slice_subrange(line, at + 1, line.len())) {
        Ok(value) => value,
        Err(e) => {
            return Err(e);
        },
    };
    table.record(slice_subrange(line, 0, at), value);
    Ok(())
}

/// Takes one line of text into the table; see `process_line_bytes`.
pub fn process_line(line: &str, table: &mut StationTable) -> (done: Result<(), PipelineError>)
    requires
        old(table).wf(),
        old(table).spec_readings() < u64::MAX,
    ensures
        final(table).wf(),
        final(table).tally(done is Err) == fold_line(old(table).tally(false), line.spec_bytes()),
        done is Err ==> done == Err::<(), PipelineError>(PipelineError::MalformedMeasurement),
{
    process_line_bytes(line.as_bytes(), table)
}

/// Takes the lines of one chunk into the table, in order.
///
/// The run ends at the first malformed measurement: the table then holds the
/// readings of the lines before it.
pub fn process_chunk_bytes(chunk: &[u8], table: &mut StationTable) -> (done: Result<
    (),
    PipelineError,
>)
    requires
        old(table).wf(),
        old(table).spec_readings() + chunk@.len() <= u64::MAX,
    ensures
        final(table).wf(),
        final(table).tally(done is Err) == fold_text(old(table).tally(false), chunk@),
        done is Err ==> done == Err::<(), PipelineError>(PipelineError::MalformedMeasurement),
        final(table).spec_readings() <= old(table).spec_readings() + chunk@.len(),
{
    let ghost start = table.tally(false);
    let ghost taken = table.spec_readings();
    let mut pos: usize = 0;
    proof {
        assert(chunk@.subrange(0, chunk@.len() as int) =~= chunk@);
    }
    while pos < chunk.len()
        invariant
            pos <= chunk@.len(),
            table.wf(),
            start == old(table).tally(false),
            taken == old(table).spec_readings(),
            taken + chunk@.len() <= u64::MAX,
            table.spec_readings() <= taken + pos,
            fold_text(start, chunk@) == fold_text(
                table.tally(false),
                chunk@.subrange(pos as int, chunk@.len() as int),
            ),
        decreases chunk@.len() - pos,
    {
        let ghost rest = chunk@.subrange(pos as int, chunk@.len() as int);
        let ghost now = table.tally(false);
        let end: usize = find_byte(chunk, NEWLINE, pos);
        let stop: usize = if pos < end && end < chunk.len() && chunk[end - 1] == CARRIAGE_RETURN {
            end - 1
        } else {
            end
        };
        let next: usize = if end < chunk.len() {
            end + 1
        } else {
            end
        };
        let line: &[u8] = slice_subrange(chunk, pos, stop);
        proof {
            lemma_first_from_tail(chunk@, NEWLINE, pos as int);
            lemma_fold_text_unfold(now, rest);
            assert(line@ =~= first_line(rest));
            assert(chunk@.subrange(next as int, chunk@.len() as int) =~= after_first_line(rest));
        }
        match process_line_bytes(line, table) {
            Ok(()) => {},
            Err(e) => {
                proof {
                    lemma_failed_run_is_over(
                        fold_line(now, line@),
                        lines_of(after_first_line(rest)),
                    );
                }
                return Err(e);
            },
        }
        pos = next;
    }
    proof {
        lemma_fold_text_unfold(table.tally(false), chunk@.subrange(pos as int, pos as int));
    }
    Ok(())
}

/// Takes the lines of one chunk of text into the table; see
/// `process_chunk_bytes`.
pub fn process_chunk(chunk: &str, table: &mut StationTable) -> (done: Result<(), PipelineError>)
    requires
        old(table).wf(),
        old(table).spec_readings() + chunk.spec_bytes().len() <= u64::MAX,
    ensures
        final(table).wf(),
        final(table).tally(done is Err) == fold_text(old(table).tally(false), chunk.spec_bytes()),
        done is Err ==> done == Err::<(), PipelineError>(PipelineError::MalformedMeasurement),
        final(table).spec_readings() <= old(table).spec_readings() + chunk.spec_bytes().len(),
{
    process_chunk_bytes(chunk.as_bytes(), table)
}

/// A run that has failed stays as it is, whatever chunks follow.
pub proof fn lemma_failed_run_takes_no_chunks(tally: Tally, chunks: Seq<Seq<u8>>)
    requires
        tally.failed,
    ensures
        fold_chunks(tally, chunks) == tally,
    decreases chunks.len(),
{
    if chunks.len() > 0 {
        lemma_failed_run_takes_no_chunks(tally, chunks.drop_last());
        lemma_failed_run_is_over(tally, lines_of(chunks.last()));
    }
}

/// The chunks before chunk `i`, and chunk `i` itself, are part of the whole.
proof fn lemma_bytes_before(chunks: Seq<Seq<u8>>, i: int)
    requires
        0 <= i < chunks.len(),
    ensures
        chunks.take(i + 1).flatten().len() == chunks.take(i).flatten().len() + chunks[i].len(),
        chunks.take(i + 1).flatten().len() <= chunks.flatten().len(),
{
    let one = seq![chunks[i]];
    assert(chunks.take(i + 1) =~= chunks.take(i) + one);
    vstd::seq_lib::lemma_flatten_concat(chunks.take(i), one);
    one.lemma_flatten_one_element();
    assert(chunks =~= chunks.take(i + 1) + chunks.skip(i + 1));
    vstd::seq_lib::lemma_flatten_concat(chunks.take(i + 1), chunks.skip(i + 1));
}

/// Folds the lines of all the chunks, in the order given, into a new table.
///
/// The run ends at the first malformed measurement, and no table comes of
/// it.
pub fn process_file_chunks(chunks: &Vec<String>) -> (done: Result<StationTable, PipelineError>)
    requires
        bytes_of(chunks@).flatten().len() <= u64::MAX,
    ensures
        match done {
            Ok(table) => table.wf() && table.tally(false) == fold_chunks(
                Tally::start(),
                bytes_of(chunks@),
            ),
            Err(e) => e == PipelineError::MalformedMeasurement && fold_chunks(
                Tally::start(),
                bytes_of(chunks@),
            ).failed,
        },
{
    let ghost start = Tally::start();
    let ghost all = bytes_of(chunks@);
    let mut table = StationTable::new();
    let mut i: usize = 0;
    while i < chunks.len()
        invariant
            i <= chunks@.len(),
            all == bytes_of(chunks@),
            start == Tally::start(),
            all.flatten().len() <= u64::MAX,
            table.wf(),
            table.spec_readings() <= all.take(i as int).flatten().len(),
            fold_chunks(start, all.take(i as int)) == table.tally(false),
        decreases chunks@.len() - i,
    {
        proof {
            lemma_bytes_before(all, i as int);
            assert(all.take(i as int + 1).drop_last() =~= all.take(i as int));
        }
        match process_chunk(chunks[i].as_str(), &mut table) {
            Ok(()) => {},
            Err(e) => {
                proof {
                    let so_far = fold_chunks(start, all.take(i as int + 1));
                    all.lemma_fold_left_split(start, text_step(), i as int + 1);
                    assert(all.subrange(0, i as int + 1) =~= all.take(i as int + 1));
                    lemma_failed_run_takes_no_chunks(
                        so_far,
                        all.subrange(i as int + 1, all.len() as int),
                    );
                }
                return Err(e);
            },
        }
        i = i + 1;
    }
    proof {
        assert(all.take(i as int) =~= all);
    }
    Ok(table)
}

} // verus!
