//! What a file journal computes between reading and writing its file.
use crate::buffer::{
    count_lines, lemma_lines_of_line_then, lemma_lines_of_no_breaks, line_at, lines_of, no_breaks,
    strip_break,
};
use crate::iter::record_at;
use crate::record::{
    lemma_record_round_trip, lemma_record_text_no_breaks, record_text, writable, Record,
    RecordView,
};
use crate::text::push_char;
use vstd::prelude::*;

verus! {

/// The text that adding `record` appends to a journal: its line and a line feed.
pub fn journal_line(record: &Record) -> (r: String)
    ensures
        r@ == record_text(record@) + seq!['\n'],
{
    let mut line = record.to_string();
    push_char(&mut line, '\n');
    line
}

/// Two records added one after the other to an empty journal make a journal of two
/// lines: the first record's line, then the second's, each reading back as its record
/// where the record can be written. A note with a line break in it is left out: it
/// would split its record over two lines.
pub proof fn lemma_two_adds(r1: RecordView, r2: RecordView)
    requires
        no_breaks(r1.note),
        no_breaks(r2.note),
    ensures
        ({
            let l1 = record_text(r1) + seq!['\n'];
            let l2 = record_text(r2) + seq!['\n'];
            let t = l1 + l2;
            &&& count_lines(t) == 2
            &&& line_at(t, 0) == l1
            &&& line_at(t, 1) == l2
            &&& writable(r1) ==> record_at(t, 0) == Some(r1)
            &&& writable(r2) ==> record_at(t, 1) == Some(r2)
        }),
{
    let a1 = record_text(r1);
    let a2 = record_text(r2);
    lemma_record_text_no_breaks(r1);
    lemma_record_text_no_breaks(r2);
    let l1 = a1 + seq!['\n'];
    let l2 = a2 + seq!['\n'];
    assert(l1 =~= a1.push('\n'));
    assert(l2 =~= a2.push('\n'));
    let e = Seq::<char>::empty();
    lemma_lines_of_line_then(a1, l2);
    lemma_lines_of_line_then(a2, e);
    assert(l2 + e =~= l2);
    lemma_lines_of_no_breaks(e);
    let t = l1 + l2;
    assert(lines_of(t) =~= seq![l1, l2, e]);
    assert(strip_break(l1) =~= a1);
    assert(strip_break(l2) =~= a2);
    if writable(r1) {
        lemma_record_round_trip(r1);
    }
    if writable(r2) {
        lemma_record_round_trip(r2);
    }
}

/// The steps of writing a journal file back: copy it to a backup, write the new text
/// over it, put the backup back if the write failed, then remove the backup.
#[derive(Debug, Clone, Copy, PartialEq, Eq, Structural)]
pub enum FlushStep {
    /// Copy the journal file to the backup file.
    Backup,
    /// Write the new text over the journal file.
    Write,
    /// Copy the backup file back over the journal file.
    Restore,
    /// Remove the backup file; `written` tells whether the new text was written.
    Cleanup { written: bool },
    /// Nothing more to do; `ok` tells whether the journal file holds the new text and
    /// no error is to be reported.
    Finished { ok: bool },
}

/// The step after `step`, which succeeded or failed.
pub open spec fn next_step(step: FlushStep, succeeded: bool) -> FlushStep {
    match step {
        FlushStep::Backup => if succeeded {
            FlushStep::Write
        } else {
            FlushStep::Finished { ok: false }
        },
        FlushStep::Write => if succeeded {
            FlushStep::Cleanup { written: true }
        } else {
            FlushStep::Restore
        },
        FlushStep::Restore => if succeeded {
            FlushStep::Cleanup { written: false }
        } else {
            FlushStep::Finished { ok: false }
        },
        FlushStep::Cleanup { written } => FlushStep::Finished { ok: succeeded && written },
        FlushStep::Finished { ok } => FlushStep::Finished { ok },
    }
}

/// The step that follows `step` once it has succeeded or failed.
pub fn flush_next(step: FlushStep, succeeded: bool) -> (r: FlushStep)
    ensures
        r == next_step(step, succeeded),
{
    match step {
        FlushStep::Backup => if succeeded {
            FlushStep::Write
        } else {
            FlushStep::Finished { ok: false }
        },
        FlushStep::Write => if succeeded {
            FlushStep::Cleanup { written: true }
        } else {
            FlushStep::Restore
        },
        FlushStep::Restore => if succeeded {
            FlushStep::Cleanup { written: false }
        } else {
            FlushStep::Finished { ok: false }
        },
        FlushStep::Cleanup { written } => FlushStep::Finished { ok: succeeded && written },
        FlushStep::Finished { ok } => FlushStep::Finished { ok },
    }
}

/// What the journal file and its backup hold.
pub struct Files {
    pub journal: Seq<char>,
    pub backup: Option<Seq<char>>,
}

/// What a step does to the files: a failed write leaves `torn` in the journal file, and
/// any other failed step changes nothing.
pub open spec fn step_effect(
    step: FlushStep,
    succeeded: bool,
    f: Files,
    text: Seq<char>,
    torn: Seq<char>,
) -> Files {
    match step {
        FlushStep::Backup => if succeeded {
            Files { journal: f.journal, backup: Some(f.journal) }
        } else {
            f
        },
        FlushStep::Write => if succeeded {
            Files { journal: text, backup: f.backup }
        } else {
            Files { journal: torn, backup: f.backup }
        },
        FlushStep::Restore => if succeeded && f.backup is Some {
            Files { journal: f.backup->0, backup: f.backup }
        } else {
            f
        },
        FlushStep::Cleanup { .. } => if succeeded {
            Files { journal: f.journal, backup: None }
        } else {
            f
        },
        FlushStep::Finished { .. } => f,
    }
}

/// Where a flush from `step` ends, and what the files then hold, when the steps it
/// takes succeed or fail as `outcomes` says.
pub open spec fn flush_run(
    step: FlushStep,
    f: Files,
    outcomes: Seq<bool>,
    text: Seq<char>,
    torn: Seq<char>,
) -> (FlushStep, Files)
    decreases outcomes.len(),
{
    if outcomes.len() == 0 || step is Finished {
        (step, f)
    } else {
        flush_run(
            next_step(step, outcomes[0]),
            step_effect(step, outcomes[0], f, text, torn),
            outcomes.drop_first(),
            text,
            torn,
        )
    }
}

/// A flush never leaves a torn journal behind without its backup: once it is finished,
/// the journal file holds its old text or the new one, or the backup holds the old text.
/// Where it reports success, the journal file holds the new text and no backup is left;
/// where the write failed and the backup was put back, it holds the old text.
pub proof fn lemma_flush_durable(
    old_text: Seq<char>,
    text: Seq<char>,
    torn: Seq<char>,
    outcomes: Seq<bool>,
)
    ensures
        ({
            let (step, f) = flush_run(
                FlushStep::Backup,
                Files { journal: old_text, backup: None },
                outcomes,
                text,
                torn,
            );
            &&& step is Finished ==> f.journal == old_text || f.journal == text || f.backup
                == Some(old_text)
            &&& step == (FlushStep::Finished { ok: true }) ==> f.journal == text && f.backup is None
            &&& outcomes.len() >= 3 && outcomes[0] && !outcomes[1] && outcomes[2]
                ==> f.journal == old_text && step != (FlushStep::Finished { ok: true })
            &&& outcomes.len() >= 4 ==> step is Finished
        }),
{
    let f0 = Files { journal: old_text, backup: None };
    if outcomes.len() >= 1 {
        let o1 = outcomes.drop_first();
        if outcomes.len() >= 2 {
            let o2 = o1.drop_first();
            if outcomes.len() >= 3 {
                let o3 = o2.drop_first();
                if outcomes.len() >= 4 {
                    let o4 = o3.drop_first();
                    assert(o1[0] == outcomes[1]);
                    assert(o2[0] == outcomes[2]);
                    assert(o3[0] == outcomes[3]);
                    reveal_with_fuel(flush_run, 5);
                } else {
                    assert(o1[0] == outcomes[1]);
                    assert(o2[0] == outcomes[2]);
                    assert(o3.len() == 0);
                    reveal_with_fuel(flush_run, 4);
                }
            } else {
                assert(o1[0] == outcomes[1]);
                assert(o2.len() == 0);
                reveal_with_fuel(flush_run, 3);
            }
        } else {
            assert(o1.len() == 0);
            reveal_with_fuel(flush_run, 2);
        }
    }
}

} // verus!
