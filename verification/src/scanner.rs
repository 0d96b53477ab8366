//! Gathers what reading the candidates gave: the documents that were read,
//! and in the record a warning for each block that did not parse as it stood
//! and a failure for each candidate that could not be read.

use vstd::prelude::*;
use crate::frontmatter::{
    extracted, metadata_title, optional_text, parse_frontmatter_from_text, Note, NoteView,
    ParseResult,
};
use crate::yaml_compat::Metadata;
use crate::logger::{shown_line, ErrorLevel, LogEntryView, Logger};
use crate::text::concat_text;

verus! {

/// The message that records a candidate that could not be read.
pub open spec fn unreadable_message(path: Seq<char>) -> Seq<char> {
    "Failed to parse file: Failed to read file: "@ + path
}

/// The event that one candidate leaves in the record: a warning where its
/// block did not parse as it stood, a failure where it could not be read,
/// and none where all went well.
pub open spec fn recorded_event(path: Seq<char>, result: Option<ParseResult>) -> Option<
    LogEntryView,
> {
    match result {
        Some(parsed) => match parsed.frontmatter_warning {
            Some(w) => Some(
                LogEntryView { level: ErrorLevel::Warning, message: w@, file_path: Some(path) },
            ),
            None => None,
        },
        None => Some(
            LogEntryView {
                level: ErrorLevel::Critical,
                message: unreadable_message(path),
                file_path: Some(path),
            },
        ),
    }
}

/// The document that one candidate gives, if it gives one.
pub open spec fn gathered_note(result: Option<ParseResult>) -> Option<Note> {
    match result {
        Some(parsed) => parsed.note,
        None => None,
    }
}

/// The line that is shown for an event: a failure always, a warning in a
/// verbose run.
pub open spec fn shown_event(event: Option<LogEntryView>, verbose: bool) -> Option<Seq<char>> {
    match event {
        Some(e) => if e.level == ErrorLevel::Critical {
            Some(shown_line("Error: "@, e.message, e.file_path))
        } else if verbose {
            Some(shown_line("Warning: "@, e.message, e.file_path))
        } else {
            None
        },
        None => None,
    }
}

/// A sequence with one more element where there is one.
pub open spec fn with_optional<T>(s: Seq<T>, item: Option<T>) -> Seq<T> {
    match item {
        Some(x) => s.push(x),
        None => s,
    }
}

/// Takes in what reading the candidate at `path` gave; `None` stands for a
/// candidate that could not be read. The document, if there is one, joins
/// `notes`; the event, if there is one, joins the record; the line that is
/// to be shown for it is returned.
pub fn collect_result(
    logger: &mut Logger,
    notes: &mut Vec<Note>,
    path: &str,
    result: Option<ParseResult>,
) -> (shown: Option<String>)
    ensures
        final(notes)@ == with_optional(old(notes)@, gathered_note(result)),
        final(logger).entries() == with_optional(
            old(logger).entries(),
            recorded_event(path@, result),
        ),
        final(logger).is_verbose() == old(logger).is_verbose(),
        optional_text(shown) == shown_event(recorded_event(path@, result), old(logger).is_verbose()),
{
    match result {
        Some(parsed) => {
            let ParseResult { note, frontmatter_warning } = parsed;
            let shown = match frontmatter_warning {
                Some(w) => logger.log_warning(w, Some(path.to_owned())),
                None => None,
            };
            match note {
                Some(n) => {
                    notes.push(n);
                },
                None => {},
            }
            shown
        },
        None => {
            let message = concat_text("Failed to parse file: Failed to read file: ", path);
            Some(logger.log_critical(message, Some(path.to_owned())))
        },
    }
}

/// The documents that the results give, in their order.
pub open spec fn gathered_notes(results: Seq<(String, Option<ParseResult>)>) -> Seq<Note>
    decreases results.len(),
{
    if results.len() == 0 {
        Seq::empty()
    } else {
        with_optional(gathered_notes(results.drop_last()), gathered_note(results.last().1))
    }
}

/// The events that the results leave in the record, in their order.
pub open spec fn recorded_events(results: Seq<(String, Option<ParseResult>)>) -> Seq<LogEntryView>
    decreases results.len(),
{
    if results.len() == 0 {
        Seq::empty()
    } else {
        with_optional(
            recorded_events(results.drop_last()),
            recorded_event(results.last().0@, results.last().1),
        )
    }
}

/// The lines that are shown for the results, in their order.
pub open spec fn shown_events(results: Seq<(String, Option<ParseResult>)>, verbose: bool) -> Seq<
    Seq<char>,
>
    decreases results.len(),
{
    if results.len() == 0 {
        Seq::empty()
    } else {
        with_optional(
            shown_events(results.drop_last(), verbose),
            shown_event(recorded_event(results.last().0@, results.last().1), verbose),
        )
    }
}

/// Takes in what reading the candidates gave, each with its path, in their
/// order. Returns the documents that were read and the lines to be shown.
pub fn collect_results(logger: &mut Logger, results: Vec<(String, Option<ParseResult>)>) -> (r: (
    Vec<Note>,
    Vec<String>,
))
    ensures
        r.0@ == gathered_notes(results@),
        final(logger).entries() == old(logger).entries() + recorded_events(results@),
        final(logger).is_verbose() == old(logger).is_verbose(),
        r.1@.map_values(|l: String| l@) == shown_events(results@, old(logger).is_verbose()),
{
    let mut notes: Vec<Note> = Vec::new();
    let mut shown: Vec<String> = Vec::new();
    let ghost all = results@;
    proof {
        assert(all.take(0) =~= Seq::<(String, Option<ParseResult>)>::empty());
        assert(logger.entries() =~= old(logger).entries() + recorded_events(all.take(0)));
        assert(shown@.map_values(|l: String| l@) =~= Seq::<Seq<char>>::empty());
    }
    for item in it: results
        invariant
            it.seq() == all,
            notes@ == gathered_notes(all.take(it.index() as int)),
            logger.entries() == old(logger).entries() + recorded_events(
                all.take(it.index() as int),
            ),
            logger.is_verbose() == old(logger).is_verbose(),
            shown@.map_values(|l: String| l@) == shown_events(
                all.take(it.index() as int),
                old(logger).is_verbose(),
            ),
    {
        let ghost at = it.index() as int;
        let ghost before = shown@.map_values(|l: String| l@);
        let ghost recorded = logger.entries();
        assert(item == all[at]);
        let (path, result) = item;
        let line = collect_result(logger, &mut notes, path.as_str(), result);
        match line {
            Some(l) => {
                shown.push(l);
                assert(shown@.map_values(|l: String| l@) =~= before.push(l@));
            },
            None => {},
        }
        proof {
            assert(all.take(at + 1).drop_last() =~= all.take(at));
            assert(all.take(at + 1).last() == all[at]);
            assert(logger.entries() =~= old(logger).entries() + recorded_events(
                all.take(at + 1),
            ));
        }
    }
    proof {
        assert(all.take(all.len() as int) =~= all);
    }
    (notes, shown)
}

/// The candidates that could be read, each as its path and its text, in
/// their order.
pub open spec fn readable(candidates: Seq<(String, Option<String>)>) -> Seq<(Seq<char>, Seq<char>)>
    decreases candidates.len(),
{
    if candidates.len() == 0 {
        Seq::empty()
    } else {
        with_optional(
            readable(candidates.drop_last()),
            match candidates.last().1 {
                Some(text) => Some((candidates.last().0@, text@)),
                None => None,
            },
        )
    }
}

/// The metadata of the document that a candidate gives: that of its block,
/// or none where it has no block or the block could not be read.
pub open spec fn metadata_read(path: Seq<char>, text: Seq<char>, lenient: bool) -> Metadata {
    match extracted(text, path, lenient).0 {
        Some(m) => m,
        None => Seq::empty(),
    }
}

/// The event that a candidate leaves in the record.
pub open spec fn event_read(path: Seq<char>, text: Option<Seq<char>>, lenient: bool) -> Option<
    LogEntryView,
> {
    match text {
        Some(t) => match extracted(t, path, lenient).1 {
            Some(w) => Some(
                LogEntryView { level: ErrorLevel::Warning, message: w, file_path: Some(path) },
            ),
            None => None,
        },
        None => Some(
            LogEntryView {
                level: ErrorLevel::Critical,
                message: unreadable_message(path),
                file_path: Some(path),
            },
        ),
    }
}

/// The events that the candidates leave in the record, in their order.
pub open spec fn events_read(candidates: Seq<(String, Option<String>)>, lenient: bool) -> Seq<
    LogEntryView,
>
    decreases candidates.len(),
{
    if candidates.len() == 0 {
        Seq::empty()
    } else {
        with_optional(
            events_read(candidates.drop_last(), lenient),
            event_read(candidates.last().0@, optional_text(candidates.last().1), lenient),
        )
    }
}

/// The lines that are shown for the candidates, in their order.
pub open spec fn lines_shown(
    candidates: Seq<(String, Option<String>)>,
    verbose: bool,
    lenient: bool,
) -> Seq<Seq<char>>
    decreases candidates.len(),
{
    if candidates.len() == 0 {
        Seq::empty()
    } else {
        with_optional(
            lines_shown(candidates.drop_last(), verbose, lenient),
            shown_event(
                event_read(candidates.last().0@, optional_text(candidates.last().1), lenient),
                verbose,
            ),
        )
    }
}

/// Whether a document is the one that the candidate at `path` with the text
/// `text` gives.
pub open spec fn is_note_read(note: NoteView, path: Seq<char>, text: Seq<char>, lenient: bool) -> bool {
    &&& note.path == path
    &&& note.frontmatter == metadata_read(path, text, lenient)
    &&& metadata_title(note.frontmatter) is Some ==> note.title == metadata_title(note.frontmatter)
}

/// Reads the documents of a batch. Each candidate comes with its path and,
/// if it could be read, its text. A candidate that could be read gives a
/// document, whatever became of its block, and a warning where the block did
/// not parse as it stood; one that could not be read gives no document and a
/// failure in the record. No candidate bears on what another gives. Returns
/// the documents, in the order of the candidates, and the lines to be shown.
pub fn scan(logger: &mut Logger, candidates: Vec<(String, Option<String>)>, lenient: bool) -> (r: (
    Vec<Note>,
    Vec<String>,
))
    ensures
        r.0@.len() == readable(candidates@).len(),
        forall|k: int|
            0 <= k < r.0@.len() ==> is_note_read(
                (#[trigger] r.0@[k])@,
                readable(candidates@)[k].0,
                readable(candidates@)[k].1,
                lenient,
            ),
        final(logger).entries() == old(logger).entries() + events_read(candidates@, lenient),
        final(logger).is_verbose() == old(logger).is_verbose(),
        r.1@.map_values(|l: String| l@) == lines_shown(
            candidates@,
            old(logger).is_verbose(),
            lenient,
        ),
{
    let mut notes: Vec<Note> = Vec::new();
    let mut shown: Vec<String> = Vec::new();
    let ghost all = candidates@;
    let ghost verbose = logger.is_verbose();
    proof {
        assert(all.take(0) =~= Seq::<(String, Option<String>)>::empty());
        assert(logger.entries() =~= old(logger).entries() + events_read(all.take(0), lenient));
        assert(shown@.map_values(|l: String| l@) =~= Seq::<Seq<char>>::empty());
    }
    let mut i: usize = 0;
    while i < candidates.len()
        invariant
            i <= candidates.len(),
            all == candidates@,
            verbose == old(logger).is_verbose(),
            logger.is_verbose() == verbose,
            notes@.len() == readable(all.take(i as int)).len(),
            forall|k: int|
                0 <= k < notes@.len() ==> is_note_read(
                    (#[trigger] notes@[k])@,
                    readable(all.take(i as int))[k].0,
                    readable(all.take(i as int))[k].1,
                    lenient,
                ),
            logger.entries() == old(logger).entries() + events_read(all.take(i as int), lenient),
            shown@.map_values(|l: String| l@) == lines_shown(all.take(i as int), verbose, lenient),
        decreases candidates.len() - i,
    {
        let ghost before_shown = shown@.map_values(|l: String| l@);
        let ghost before_notes = notes@;
        let ghost prev = all.take(i as int);
        let ghost next = all.take(i + 1);
        let path = candidates[i].0.as_str();
        let result = match &candidates[i].1 {
            Some(text) => Some(parse_frontmatter_from_text(path, text.as_str(), false, lenient)),
            None => None,
        };
        let line = collect_result(logger, &mut notes, path, result);
        match line {
            Some(l) => {
                shown.push(l);
                assert(shown@.map_values(|l: String| l@) =~= before_shown.push(l@));
            },
            None => {},
        }
        proof {
            assert(next.drop_last() =~= prev);
            assert(next.last() == all[i as int]);
            assert(recorded_event(path@, result) == event_read(
                path@,
                optional_text(all[i as int].1),
                lenient,
            ));
            assert(logger.entries() =~= old(logger).entries() + events_read(next, lenient));
            assert forall|k: int| 0 <= k < notes@.len() implies is_note_read(
                (#[trigger] notes@[k])@,
                readable(next)[k].0,
                readable(next)[k].1,
                lenient,
            ) by {
                if k < before_notes.len() {
                    assert(notes@[k] == before_notes[k]);
                    assert(readable(next)[k] == readable(prev)[k]);
                }
            }
        }
        i += 1;
    }
    proof {
        assert(all.take(i as int) =~= all);
    }
    (notes, shown)
}

} // verus!
