//! The record of what went wrong while documents were read: what is kept,
//! what is shown at once, and the summary at the end.

use vstd::prelude::*;
use crate::string_map::{
    count_of, lemma_index_of_key_is_first, lemma_with_entry, lookup, with_entry, StringMap,
};
use crate::text::{chars_of, concat_text, contains, digits, digits_chars, is_substring, text_of};

verus! {

/// How much an event matters.
#[derive(Debug, Clone, Copy, PartialEq, Eq, Structural)]
pub enum ErrorLevel {
    Critical,
    Warning,
    Info,
}

/// One event: its level, its message, and the file it is about, if any.
#[derive(Debug, Clone)]
pub struct LogEntry {
    pub level: ErrorLevel,
    pub message: String,
    pub file_path: Option<String>,
}

/// One event as contracts speak of it.
pub struct LogEntryView {
    pub level: ErrorLevel,
    pub message: Seq<char>,
    pub file_path: Option<Seq<char>>,
}

impl View for LogEntry {
    type V = LogEntryView;

    open spec fn view(&self) -> LogEntryView {
        LogEntryView {
            level: self.level,
            message: self.message@,
            file_path: match self.file_path {
                Some(p) => Some(p@),
                None => None,
            },
        }
    }
}

/// The views of the events held in a vector.
pub open spec fn entry_views(entries: Seq<LogEntry>) -> Seq<LogEntryView> {
    entries.map_values(|e: LogEntry| e@)
}

/// Whether a message says that a block was read after a repair.
pub open spec fn is_repair_notice(message: Seq<char>) -> bool {
    is_substring("Used lenient parsing"@, message)
}

/// The category under which the summary counts a warning.
pub open spec fn warning_type(message: Seq<char>) -> Seq<char> {
    if is_substring("frontmatter"@, message) {
        "Frontmatter parsing errors"@
    } else if is_substring("Failed to parse"@, message) {
        "File parsing errors"@
    } else if is_substring("Failed to read"@, message) {
        "File read errors"@
    } else {
        "Other errors"@
    }
}

/// Whether an event is a warning that reports a repair.
pub open spec fn is_repair(e: LogEntryView) -> bool {
    e.level == ErrorLevel::Warning && is_repair_notice(e.message)
}

/// Whether an event is a warning that reports a failure.
pub open spec fn is_failure(e: LogEntryView) -> bool {
    e.level == ErrorLevel::Warning && !is_repair_notice(e.message)
}

/// How many of the events meet `p`.
pub open spec fn count_where(entries: Seq<LogEntryView>, p: spec_fn(LogEntryView) -> bool) -> nat
    decreases entries.len(),
{
    if entries.len() == 0 {
        0
    } else {
        count_where(entries.drop_last(), p) + if p(entries.last()) {
            1nat
        } else {
            0nat
        }
    }
}

/// How many of the events have the level `level`.
pub open spec fn level_total(entries: Seq<LogEntryView>, level: ErrorLevel) -> nat {
    count_where(entries, |e: LogEntryView| e.level == level)
}

/// How many of the events report a repair.
pub open spec fn repaired_total(entries: Seq<LogEntryView>) -> nat {
    count_where(entries, |e: LogEntryView| is_repair(e))
}

/// How many of the events report a failure.
pub open spec fn failure_total(entries: Seq<LogEntryView>) -> nat {
    count_where(entries, |e: LogEntryView| is_failure(e))
}

/// How many of the events report a failure of the category `category`.
pub open spec fn category_total(entries: Seq<LogEntryView>, category: Seq<char>) -> nat {
    count_where(entries, |e: LogEntryView| is_failure(e) && warning_type(e.message) == category)
}

/// No more events meet a condition than there are events.
pub proof fn lemma_count_where_bound(entries: Seq<LogEntryView>, p: spec_fn(LogEntryView) -> bool)
    ensures
        count_where(entries, p) <= entries.len(),
    decreases entries.len(),
{
    if entries.len() > 0 {
        lemma_count_where_bound(entries.drop_last(), p);
    }
}

/// One more event counts for one more where it meets the condition.
pub proof fn lemma_count_where_push(
    entries: Seq<LogEntryView>,
    e: LogEntryView,
    p: spec_fn(LogEntryView) -> bool,
)
    ensures
        count_where(entries.push(e), p) == count_where(entries, p) + if p(e) {
            1nat
        } else {
            0nat
        },
{
    assert(entries.push(e).drop_last() =~= entries);
}

/// A line of the summary that states a number.
pub open spec fn count_line(lead: Seq<char>, n: nat, tail: Seq<char>) -> Seq<char> {
    lead + digits(n) + tail
}

/// The line of the summary that states the failures of one category.
pub open spec fn category_line(category: (Seq<char>, usize)) -> Seq<char> {
    "  - "@ + category.0 + ": "@ + digits(category.1 as nat) + " files"@
}

/// The lines of the summary that state the failures by category.
pub open spec fn category_lines(categories: Seq<(Seq<char>, usize)>) -> Seq<Seq<char>> {
    categories.map_values(|c: (Seq<char>, usize)| category_line(c))
}

/// The summary of a run in which `succeeded` documents were read: their
/// number; the number of repairs, if there were any; and, if there were
/// failures, their number, the failures by category, and a hint at the
/// verbose mode where the run was not verbose.
pub open spec fn summary_lines(
    entries: Seq<LogEntryView>,
    categories: Seq<(Seq<char>, usize)>,
    verbose: bool,
    succeeded: nat,
) -> Seq<Seq<char>> {
    let head = seq![count_line("Successfully parsed "@, succeeded, " notes"@)];
    let repairs = if repaired_total(entries) > 0 {
        seq![
            count_line(
                "Fixed "@,
                repaired_total(entries),
                " files with lenient parsing (frontmatter with colons in values)"@,
            ),
        ]
    } else {
        Seq::empty()
    };
    let hint = if verbose {
        Seq::empty()
    } else {
        seq!["Use --verbose/-v to see detailed error messages"@]
    };
    let failures = if failure_total(entries) > 0 {
        seq![
            count_line("Skipped "@, failure_total(entries), " files due to parsing errors:"@),
        ] + category_lines(categories) + hint
    } else {
        Seq::empty()
    };
    head + repairs + failures
}

/// Whether `pattern` occurs in `message`.
fn holds(message: &Vec<char>, pattern: &str) -> (b: bool)
    ensures
        b == is_substring(pattern@, message@),
{
    contains(message, &chars_of(pattern))
}

/// The category under which the summary counts a warning.
pub fn extract_warning_type(message: &str) -> (r: String)
    ensures
        r@ == warning_type(message@),
{
    let chars = chars_of(message);
    if holds(&chars, "frontmatter") {
        "Frontmatter parsing errors".to_owned()
    } else if holds(&chars, "Failed to parse") {
        "File parsing errors".to_owned()
    } else if holds(&chars, "Failed to read") {
        "File read errors".to_owned()
    } else {
        "Other errors".to_owned()
    }
}

/// The line that shows an event: a label, the message, and the file in
/// brackets where the event is about one.
pub open spec fn shown_line(label: Seq<char>, message: Seq<char>, file_path: Option<Seq<char>>) -> Seq<
    char,
> {
    match file_path {
        Some(p) => label + message + " ("@ + p + ")"@,
        None => label + message,
    }
}

/// The line that shows an event.
fn line_for(label: &str, message: &str, file_path: &Option<String>) -> (r: String)
    ensures
        r@ == shown_line(
            label@,
            message@,
            match file_path {
                Some(p) => Some(p@),
                None => None,
            },
        ),
{
    let head = concat_text(label, message);
    match file_path {
        Some(p) => {
            let a = concat_text(head.as_str(), " (");
            let b = concat_text(a.as_str(), p.as_str());
            concat_text(b.as_str(), ")")
        },
        None => head,
    }
}

/// The record of one run. It keeps every event in the order of arrival and
/// counts the warnings as they come: those that report a repair, and those
/// that report a failure, by category.
#[derive(Debug)]
pub struct Logger {
    verbose: bool,
    entries: Vec<LogEntry>,
    error_counts: StringMap<usize>,
    lenient_parsing_count: usize,
    failure_count: usize,
}

impl Logger {
    /// The events recorded so far.
    pub closed spec fn entries(&self) -> Seq<LogEntryView> {
        entry_views(self.entries@)
    }

    /// Whether warnings and notes are shown as they come.
    pub closed spec fn is_verbose(&self) -> bool {
        self.verbose
    }

    /// The categories of failure met so far, in the order in which each was
    /// first met, with the number of failures of each.
    pub closed spec fn categories(&self) -> Seq<(Seq<char>, usize)> {
        self.error_counts.entries()
    }

    /// The counts are those of the events.
    #[verifier::type_invariant]
    pub closed spec fn wf(&self) -> bool {
        &&& self.error_counts.wf()
        &&& self.lenient_parsing_count == repaired_total(self.entries())
        &&& self.failure_count == failure_total(self.entries())
        &&& forall|category: Seq<char>|
            count_of(self.error_counts.entries(), category) == #[trigger] category_total(
                self.entries(),
                category,
            )
        &&& forall|i: int|
            0 <= i < self.error_counts.entries().len() ==> (
            #[trigger] self.error_counts.entries()[i]).1 > 0
    }

    /// A record without events.
    pub fn new(verbose: bool) -> (r: Self)
        ensures
            r.entries() == Seq::<LogEntryView>::empty(),
            r.is_verbose() == verbose,
            r.categories() == Seq::<(Seq<char>, usize)>::empty(),
    {
        let r = Logger {
            verbose,
            entries: Vec::new(),
            error_counts: StringMap::new(),
            lenient_parsing_count: 0,
            failure_count: 0,
        };
        assert(r.entries() =~= Seq::<LogEntryView>::empty());
        r
    }

    /// Records one event.
    fn record(&mut self, entry: LogEntry)
        ensures
            final(self).entries() == old(self).entries().push(entry@),
            final(self).is_verbose() == old(self).is_verbose(),
            final(self).categories() == if is_failure(entry@) {
                with_entry(
                    old(self).categories(),
                    warning_type(entry@.message),
                    (count_of(old(self).categories(), warning_type(entry@.message)) + 1) as usize,
                )
            } else {
                old(self).categories()
            },
    {
        proof {
            use_type_invariant(&*self);
        }
        let ghost before = self.entries();
        let ghost counts_before = self.error_counts.entries();
        let mut taken = Logger::new(self.verbose);
        std::mem::swap(self, &mut taken);
        let verbose = taken.verbose;
        let mut entries = taken.entries;
        let mut error_counts = taken.error_counts;
        let mut lenient_parsing_count = taken.lenient_parsing_count;
        let mut failure_count = taken.failure_count;
        let message = chars_of(entry.message.as_str());
        let is_warning = entry.level == ErrorLevel::Warning;
        let ghost e = entry@;
        entries.push(entry);
        let recorded = entries.len();
        proof {
            assert(entry_views(entries@) =~= before.push(e));
            lemma_count_where_bound(before, |x: LogEntryView| is_repair(x));
            lemma_count_where_bound(before, |x: LogEntryView| is_failure(x));
            lemma_count_where_push(before, e, |x: LogEntryView| is_repair(x));
            lemma_count_where_push(before, e, |x: LogEntryView| is_failure(x));
            assert forall|c: Seq<char>| #[trigger]
                category_total(before.push(e), c) == category_total(before, c) + if is_failure(
                    e,
                ) && warning_type(e.message) == c {
                    1nat
                } else {
                    0nat
                } by {
                lemma_count_where_push(
                    before,
                    e,
                    |x: LogEntryView| is_failure(x) && warning_type(x.message) == c,
                );
            }
        }
        if is_warning {
            if holds(&message, "Used lenient parsing") {
                lenient_parsing_count = lenient_parsing_count + 1;
            } else {
                let category = extract_warning_type(text_of(&message).as_str());
                proof {
                    lemma_count_where_bound(
                        before,
                        |x: LogEntryView| is_failure(x) && warning_type(x.message) == category@,
                    );
                    assert(count_of(counts_before, category@) == category_total(before, category@));
                }
                error_counts.add_one(category.as_str());
                failure_count = failure_count + 1;
                proof {
                    let n = (count_of(counts_before, category@) + 1) as usize;
                    let after = error_counts.entries();
                    assert forall|c: Seq<char>|
                        count_of(after, c) == #[trigger] category_total(before.push(e), c) by {
                        lemma_with_entry(counts_before, category@, n, c);
                        assert(count_of(counts_before, c) == category_total(before, c));
                    }
                    assert forall|i: int| 0 <= i < after.len() implies (#[trigger] after[i]).1
                        > 0 by {
                        if i < counts_before.len() {
                            assert(counts_before[i].1 > 0);
                        }
                    }
                }
            }
        }
        *self = Logger { verbose, entries, error_counts, lenient_parsing_count, failure_count };
    }

    /// Records a failure that cost a document. The line that is returned is
    /// shown whether or not the run is verbose.
    pub fn log_critical(&mut self, message: String, file_path: Option<String>) -> (line: String)
        ensures
            final(self).entries() == old(self).entries().push(
                LogEntryView {
                    level: ErrorLevel::Critical,
                    message: message@,
                    file_path: match file_path {
                        Some(p) => Some(p@),
                        None => None,
                    },
                },
            ),
            final(self).is_verbose() == old(self).is_verbose(),
            final(self).categories() == old(self).categories(),
            line@ == shown_line(
                "Error: "@,
                message@,
                match file_path {
                    Some(p) => Some(p@),
                    None => None,
                },
            ),
    {
        let line = line_for("Error: ", message.as_str(), &file_path);
        self.record(LogEntry { level: ErrorLevel::Critical, message, file_path });
        line
    }

    /// Records a warning. It counts as a repair if its message says so, and
    /// else as a failure of the category that its message names. The line
    /// that is returned is shown; a run that is not verbose shows none.
    pub fn log_warning(&mut self, message: String, file_path: Option<String>) -> (line: Option<
        String,
    >)
        ensures
            final(self).entries() == old(self).entries().push(
                LogEntryView {
                    level: ErrorLevel::Warning,
                    message: message@,
                    file_path: match file_path {
                        Some(p) => Some(p@),
                        None => None,
                    },
                },
            ),
            final(self).is_verbose() == old(self).is_verbose(),
            final(self).categories() == if is_repair_notice(message@) {
                old(self).categories()
            } else {
                with_entry(
                    old(self).categories(),
                    warning_type(message@),
                    (count_of(old(self).categories(), warning_type(message@)) + 1) as usize,
                )
            },
            match line {
                Some(l) => old(self).is_verbose() && l@ == shown_line(
                    "Warning: "@,
                    message@,
                    match file_path {
                        Some(p) => Some(p@),
                        None => None,
                    },
                ),
                None => !old(self).is_verbose(),
            },
    {
        let line = if self.verbose {
            Some(line_for("Warning: ", message.as_str(), &file_path))
        } else {
            None
        };
        self.record(LogEntry { level: ErrorLevel::Warning, message, file_path });
        line
    }

    /// Records a note on the progress of the run. The line that is returned
    /// is shown; a run that is not verbose shows none.
    pub fn log_info(&mut self, message: String, file_path: Option<String>) -> (line: Option<String>)
        ensures
            final(self).entries() == old(self).entries().push(
                LogEntryView {
                    level: ErrorLevel::Info,
                    message: message@,
                    file_path: match file_path {
                        Some(p) => Some(p@),
                        None => None,
                    },
                },
            ),
            final(self).is_verbose() == old(self).is_verbose(),
            final(self).categories() == old(self).categories(),
            match line {
                Some(l) => old(self).is_verbose() && l@ == message@,
                None => !old(self).is_verbose(),
            },
    {
        let line = if self.verbose {
            Some(message.clone())
        } else {
            None
        };
        self.record(LogEntry { level: ErrorLevel::Info, message, file_path });
        line
    }

    /// How many of the events have the level `level`.
    fn count_level(&self, level: ErrorLevel) -> (n: usize)
        ensures
            n == level_total(self.entries(), level),
    {
        let mut n: usize = 0;
        let mut i: usize = 0;
        let ghost p = |e: LogEntryView| e.level == level;
        let ghost all = self.entries();
        while i < self.entries.len()
            invariant
                i <= self.entries.len(),
                all == self.entries(),
                p == (|e: LogEntryView| e.level == level),
                n == count_where(all.take(i as int), p),
                n <= i,
            decreases self.entries.len() - i,
        {
            proof {
                assert(all.take(i + 1).drop_last() =~= all.take(i as int));
                assert(all.take(i + 1).last() == self.entries@[i as int]@);
            }
            if self.entries[i].level == level {
                n = n + 1;
            }
            i += 1;
        }
        assert(all.take(i as int) =~= all);
        n
    }

    /// The number of warnings recorded.
    pub fn get_warning_count(&self) -> (n: usize)
        ensures
            n == level_total(self.entries(), ErrorLevel::Warning),
    {
        self.count_level(ErrorLevel::Warning)
    }

    /// The number of failures recorded that cost a document.
    pub fn get_critical_count(&self) -> (n: usize)
        ensures
            n == level_total(self.entries(), ErrorLevel::Critical),
    {
        self.count_level(ErrorLevel::Critical)
    }

    /// The number of warnings recorded that report a repair.
    pub fn lenient_parsing_count(&self) -> (n: usize)
        ensures
            n == repaired_total(self.entries()),
    {
        proof {
            use_type_invariant(self);
        }
        self.lenient_parsing_count
    }

    /// The number of failures recorded for each category met.
    pub fn error_counts(&self) -> (r: &StringMap<usize>)
        ensures
            r.entries() == self.categories(),
            forall|category: Seq<char>|
                count_of(r.entries(), category) == #[trigger] category_total(
                    self.entries(),
                    category,
                ),
            forall|category: Seq<char>|
                lookup(r.entries(), category) is Some <==> #[trigger] category_total(
                    self.entries(),
                    category,
                ) > 0,
    {
        proof {
            use_type_invariant(self);
            assert forall|category: Seq<char>|
                lookup(self.error_counts.entries(), category) is Some <==> #[trigger] category_total(
                    self.entries(),
                    category,
                ) > 0 by {
                lemma_index_of_key_is_first(
                    self.error_counts.entries(),
                    category,
                );
                assert(count_of(self.error_counts.entries(), category) == category_total(
                    self.entries(),
                    category,
                ));
            }
        }
        &self.error_counts
    }

    /// The summary of the run, line by line, given the number of documents
    /// that were read.
    pub fn summary(&self, _total_files: usize, successful_files: usize) -> (r: Vec<String>)
        ensures
            r@.map_values(|l: String| l@) == summary_lines(
                self.entries(),
                self.categories(),
                self.is_verbose(),
                successful_files as nat,
            ),
    {
        proof {
            use_type_invariant(self);
        }
        let mut out: Vec<String> = Vec::new();
        out.push(numbered("Successfully parsed ", successful_files, " notes"));
        if self.lenient_parsing_count > 0 {
            out.push(
                numbered(
                    "Fixed ",
                    self.lenient_parsing_count,
                    " files with lenient parsing (frontmatter with colons in values)",
                ),
            );
        }
        let ghost head = out@.map_values(|l: String| l@);
        if self.failure_count > 0 {
            out.push(numbered("Skipped ", self.failure_count, " files due to parsing errors:"));
            let ghost first = out@.map_values(|l: String| l@);
            let ghost categories = self.error_counts.entries();
            let mut i: usize = 0;
            while i < self.error_counts.len()
                invariant
                    i <= self.error_counts.entries().len(),
                    categories == self.error_counts.entries(),
                    out@.map_values(|l: String| l@) == first + category_lines(
                        categories.take(i as int),
                    ),
                decreases self.error_counts.entries().len() - i,
            {
                let ghost before = out@.map_values(|l: String| l@);
                let a = concat_text("  - ", self.error_counts.key_at(i).as_str());
                let lead = concat_text(a.as_str(), ": ");
                let b = numbered(lead.as_str(), *self.error_counts.value_at(i), " files");
                assert(b@ =~= category_line(categories[i as int]));
                out.push(b);
                proof {
                    assert(categories.take(i + 1) =~= categories.take(i as int).push(
                        categories[i as int],
                    ));
                    assert(out@.map_values(|l: String| l@) =~= before.push(b@));
                    assert(category_lines(categories.take(i + 1)) =~= category_lines(
                        categories.take(i as int),
                    ).push(category_line(categories[i as int])));
                }
                i += 1;
            }
            assert(categories.take(i as int) =~= categories);
            if !self.verbose {
                let ghost before = out@.map_values(|l: String| l@);
                out.push("Use --verbose/-v to see detailed error messages".to_owned());
                assert(out@.map_values(|l: String| l@) =~= before.push(
                    "Use --verbose/-v to see detailed error messages"@,
                ));
            }
        }
        proof {
            assert(out@.map_values(|l: String| l@) =~= summary_lines(
                self.entries(),
                self.categories(),
                self.is_verbose(),
                successful_files as nat,
            ));
        }
        out
    }
}

/// A line that states a number between two texts.
fn numbered(lead: &str, n: usize, tail: &str) -> (r: String)
    ensures
        r@ == count_line(lead@, n as nat, tail@),
{
    let number = text_of(&digits_chars(n as u64));
    let a = concat_text(lead, number.as_str());
    concat_text(a.as_str(), tail)
}

} // verus!
