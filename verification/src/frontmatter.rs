//! The metadata block at the head of a document: where it stands, what it
//! holds, and how a block that does not parse is repaired and read again.

use vstd::prelude::*;
use crate::string_map::{lookup, lookup_ignoring_case, StringMap};
use crate::text::{
    append_range, chars_of, concat_text, copy_range, find, find_char, is_tidy, is_whitespace,
    join_lines, join_range, keeps_line_ends, leading_whitespace, lemma_find, lemma_find_is_first,
    lemma_leading_whitespace, lemma_leading_whitespace_is_first, lemma_lines_hold_no_line_feed,
    lemma_lines_of_joined, lemma_trailing_whitespace, lemma_trailing_whitespace_is_last,
    line_views, lines, skip_whitespace, skip_whitespace_back, split_lines, text_of,
    trailing_whitespace, trim, trim_end, trim_start,
};
use crate::yaml_compat::{
    as_text, contains_text, contains_text_ignoring_case, is_outcome, lemma_metadata_view_keys,
    lemma_metadata_view_keys_ignoring_case, metadata_view, parse_yaml_frontmatter,
    parsed_metadata, yaml_contains_str, yaml_contains_str_case_insensitive, Metadata, ParseError,
    ParseErrorView, Value, ValueView,
};

verus! {

/// The character that parts a key from its value.
pub open spec fn separator() -> char {
    ':'
}

/// The part of a trimmed line that follows its first separator, without the
/// whitespace it begins with.
pub open spec fn value_part(trimmed: Seq<char>) -> Seq<char> {
    trim_start(trimmed.skip(find(trimmed, separator()) as int + 1))
}

/// Whether a text begins as a quoted scalar, a flow sequence or a flow mapping.
pub open spec fn begins_structured(value: Seq<char>) -> bool {
    value.len() > 0 && (value[0] == '[' || value[0] == '{' || value[0] == '"' || value[0] == '\'')
}

/// Whether a line is rewritten by the repair: it is no comment and not blank,
/// it has a separator, and what follows the separator is a plain scalar with a
/// further separator in it.
pub open spec fn needs_quotes(line: Seq<char>) -> bool {
    let trimmed = trim(line);
    let value = value_part(trimmed);
    &&& trimmed.len() > 0
    &&& trimmed[0] != '#'
    &&& find(trimmed, separator()) < trimmed.len()
    &&& value.len() > 0
    &&& !begins_structured(value)
    &&& find(value, separator()) < value.len()
}

/// A line with its value in double quotes: the indentation of the line, the
/// key, a separator and a space, and the whole value between quotes.
pub open spec fn quoted_line(line: Seq<char>) -> Seq<char> {
    let trimmed = trim(line);
    line.take(leading_whitespace(line) as int) + trimmed.take(find(trimmed, separator()) as int)
        + seq![':', ' ', '"'] + value_part(trimmed) + seq!['"']
}

/// What the repair makes of one line.
pub open spec fn repair_line(line: Seq<char>) -> Seq<char> {
    if needs_quotes(line) {
        quoted_line(line)
    } else {
        line
    }
}

/// What the repair makes of each of the lines.
pub open spec fn repair_lines(ls: Seq<Seq<char>>) -> Seq<Seq<char>> {
    ls.map_values(|l: Seq<char>| repair_line(l))
}

/// What the repair makes of a block: each line repaired, the lines joined by
/// line feeds.
pub open spec fn repaired(content: Seq<char>) -> Seq<char> {
    join_lines(repair_lines(lines(content)))
}

/// What a quoted line is once it is trimmed: the key, a separator and a space,
/// and the value between quotes.
pub open spec fn quoted_core(line: Seq<char>) -> Seq<char> {
    let trimmed = trim(line);
    trimmed.take(find(trimmed, separator()) as int) + seq![':', ' ', '"'] + value_part(trimmed)
        + seq!['"']
}

/// A line that the repair rewrote begins, once it is trimmed, with its key
/// and holds its value in quotes, so that the repair rewrites it no more.
pub proof fn lemma_quoted_line_needs_no_quotes(line: Seq<char>)
    requires
        needs_quotes(line),
    ensures
        !needs_quotes(quoted_line(line)),
        quoted_line(line).len() > 0,
        quoted_line(line).last() == '"',
{
    let lead = leading_whitespace(line) as int;
    let trimmed = trim(line);
    let colon = find(trimmed, separator()) as int;
    let value = value_part(trimmed);
    let core = quoted_core(line);
    let q = quoted_line(line);
    lemma_leading_whitespace_is_first(line);
    lemma_find_is_first(trimmed, separator());
    assert(q =~= line.take(lead) + core);
    let rest = trim_start(line);
    assert(rest =~= line.skip(lead));
    lemma_trailing_whitespace_is_last(rest);
    assert(trimmed =~= rest.take(rest.len() - trailing_whitespace(rest)));
    assert(trimmed[0] == line[lead]);
    assert(!is_whitespace(trimmed[0]));
    assert(core[0] == if colon > 0 {
        trimmed[0]
    } else {
        ':'
    });
    assert(!is_whitespace(core[0]));
    assert forall|j: int| 0 <= j < lead implies is_whitespace(#[trigger] q[j]) by {
        assert(q[j] == line[j]);
    }
    assert(q[lead] == core[0]);
    lemma_leading_whitespace(q, lead);
    assert(trim_start(q) =~= core);
    assert(core.last() == '"');
    lemma_trailing_whitespace(core, 0);
    assert(trim_end(core) =~= core);
    assert(trim(q) == core);
    assert forall|j: int| 0 <= j < colon implies core[j] != separator() by {
        assert(core[j] == trimmed[j]);
    }
    assert(core[colon] == ':');
    lemma_find(core, separator(), colon);
    let after = core.skip(colon + 1);
    assert(after =~= seq![' ', '"'] + value + seq!['"']);
    assert(after[0] == ' ' && after[1] == '"');
    lemma_leading_whitespace(after, 1);
    assert(value_part(core) =~= seq!['"'] + value + seq!['"']);
    assert(value_part(core)[0] == '"');
}

/// The value that the repair puts in quotes is all that follows the first
/// separator of the line, trimmed.
pub proof fn lemma_quoted_value_is_the_rest_trimmed(line: Seq<char>)
    requires
        needs_quotes(line),
    ensures
        find(line, separator()) < line.len(),
        value_part(trim(line)) == trim(line.skip(find(line, separator()) as int + 1)),
{
    let lead = leading_whitespace(line) as int;
    let trimmed = trim(line);
    let colon = find(trimmed, separator()) as int;
    let value = value_part(trimmed);
    lemma_leading_whitespace_is_first(line);
    lemma_find_is_first(trimmed, separator());
    let start = trim_start(line);
    assert(start =~= line.skip(lead));
    lemma_trailing_whitespace_is_last(start);
    let end = line.len() - trailing_whitespace(start);
    assert(trimmed =~= line.subrange(lead, end));
    assert forall|j: int| 0 <= j < lead + colon implies line[j] != separator() by {
        if j >= lead {
            assert(line[j] == trimmed[j - lead]);
        }
    }
    assert(line[lead + colon] == trimmed[colon]);
    lemma_find(line, separator(), lead + colon);
    let rest = line.skip(lead + colon + 1);
    let tail = trimmed.skip(colon + 1);
    assert(tail =~= line.subrange(lead + colon + 1, end));
    lemma_leading_whitespace_is_first(tail);
    let k = leading_whitespace(tail) as int;
    assert(value =~= tail.skip(k));
    assert(k < tail.len());
    assert forall|j: int| 0 <= j < k implies is_whitespace(#[trigger] rest[j]) by {
        assert(rest[j] == tail[j]);
    }
    assert(rest[k] == tail[k]);
    lemma_leading_whitespace(rest, k);
    let kept = trim_start(rest);
    assert(kept =~= rest.skip(k));
    let spare = line.len() - end;
    assert forall|j: int| kept.len() - spare <= j < kept.len() implies is_whitespace(
        #[trigger] kept[j],
    ) by {
        assert(kept[j] == line[lead + colon + 1 + k + j]);
        assert(line[lead + colon + 1 + k + j] == start[colon + 1 + k + j]);
    }
    assert(kept.len() - spare == value.len());
    assert(kept[kept.len() - spare - 1] == line[end - 1]);
    assert(line[end - 1] == start[end - 1 - lead]);
    lemma_trailing_whitespace(kept, spare);
    assert(trim_end(kept) =~= value);
}

/// Repairing a line that was repaired changes nothing.
pub proof fn lemma_repair_line_is_idempotent(line: Seq<char>)
    ensures
        repair_line(repair_line(line)) == repair_line(line),
{
    if needs_quotes(line) {
        lemma_quoted_line_needs_no_quotes(line);
    }
}

/// Repairing lines that were repaired changes nothing.
pub proof fn lemma_repair_lines_is_idempotent(ls: Seq<Seq<char>>)
    ensures
        repair_lines(repair_lines(ls)) == repair_lines(ls),
{
    assert forall|i: int| 0 <= i < ls.len() implies repair_lines(repair_lines(ls))[i]
        == repair_lines(ls)[i] by {
        lemma_repair_line_is_idempotent(ls[i]);
    }
    assert(repair_lines(repair_lines(ls)) =~= repair_lines(ls));
}

/// A line without a line feed has none once it is repaired.
proof fn lemma_repair_adds_no_line_feed(line: Seq<char>)
    requires
        find(line, '\n') == line.len(),
    ensures
        find(repair_line(line), '\n') == repair_line(line).len(),
{
    if needs_quotes(line) {
        let lead = leading_whitespace(line) as int;
        let trimmed = trim(line);
        let colon = find(trimmed, separator()) as int;
        let value = value_part(trimmed);
        let q = quoted_line(line);
        lemma_find_is_first(line, '\n');
        lemma_find_is_first(trimmed, separator());
        lemma_leading_whitespace_is_first(line);
        let rest = trim_start(line);
        assert(rest =~= line.skip(lead));
        lemma_trailing_whitespace_is_last(rest);
        let end = lead + rest.len() - trailing_whitespace(rest);
        assert(trimmed =~= line.subrange(lead, end));
        let tail = trimmed.skip(colon + 1);
        lemma_leading_whitespace_is_first(tail);
        let start = lead + colon + 1 + leading_whitespace(tail);
        assert(value =~= line.subrange(start, end));
        assert forall|j: int| 0 <= j < q.len() implies q[j] != '\n' by {
            if j < lead {
                assert(q[j] == line[j]);
            } else if j < lead + colon {
                assert(q[j] == trimmed[j - lead]);
                assert(trimmed[j - lead] == line[j]);
            } else if j < lead + colon + 3 {
            } else if j < lead + colon + 3 + value.len() {
                assert(q[j] == value[j - lead - colon - 3]);
                assert(value[j - lead - colon - 3] == line[start + (j - lead - colon - 3)]);
            } else {
            }
        }
        lemma_find(q, '\n', q.len() as int);
    }
}

/// Repairing a block that was repaired changes nothing, if joining the
/// repaired lines loses none of them: if none of them but the last ends in a
/// carriage return, and the last is not empty unless it is the only one.
pub proof fn lemma_repair_is_idempotent(content: Seq<char>)
    requires
        keeps_line_ends(repair_lines(lines(content))),
    ensures
        repaired(repaired(content)) == repaired(content),
{
    let ls = lines(content);
    let fixed = repair_lines(ls);
    if fixed.len() == 1 && fixed[0].len() == 0 {
        assert(join_lines(fixed) =~= Seq::<char>::empty());
        assert(lines(Seq::<char>::empty()) =~= Seq::<Seq<char>>::empty());
        assert(repair_lines(Seq::<Seq<char>>::empty()) =~= Seq::<Seq<char>>::empty());
    } else {
        lemma_lines_hold_no_line_feed(content);
        assert(is_tidy(fixed)) by {
            assert forall|i: int| 0 <= i < fixed.len() implies find(#[trigger] fixed[i], '\n')
                == fixed[i].len() by {
                assert(find(ls[i], '\n') == ls[i].len());
                lemma_repair_adds_no_line_feed(ls[i]);
            }
        }
        lemma_lines_of_joined(fixed);
        lemma_repair_lines_is_idempotent(ls);
    }
}

/// The bounds of a line once it is trimmed.
fn trimmed_bounds(line: &Vec<char>) -> (r: (usize, usize))
    ensures
        r.0 <= r.1 <= line.len(),
        r.0 == leading_whitespace(line@),
        trim(line@) == line@.subrange(r.0 as int, r.1 as int),
{
    let len = line.len();
    let from = skip_whitespace(line, 0, len);
    let to = skip_whitespace_back(line, from, len);
    proof {
        assert(line@.subrange(0, len as int) =~= line@);
        assert(trim_start(line@) =~= line@.subrange(from as int, len as int));
        assert(trim(line@) =~= line@.subrange(from as int, to as int));
    }
    (from, to)
}

/// Where the first separator of `line[from..to]` stands, and where the value
/// after it begins.
fn value_bounds(line: &Vec<char>, from: usize, to: usize) -> (r: (usize, usize))
    requires
        from <= to <= line.len(),
    ensures
        from <= r.0 <= to,
        r.0 == from + find(line@.subrange(from as int, to as int), separator()),
        r.0 < to ==> r.0 < r.1 <= to && value_part(line@.subrange(from as int, to as int))
            == line@.subrange(r.1 as int, to as int),
{
    let colon = find_char(line, ':', from, to);
    if colon == to {
        return (colon, to);
    }
    let value_start = skip_whitespace(line, colon + 1, to);
    proof {
        let trimmed = line@.subrange(from as int, to as int);
        assert(trimmed.skip(colon - from + 1) =~= line@.subrange(colon + 1, to as int));
        assert(line@.subrange(colon + 1, to as int).skip(value_start - colon - 1)
            =~= line@.subrange(value_start as int, to as int));
    }
    (colon, value_start)
}

/// What the repair makes of one line.
fn fix_line(line: &Vec<char>) -> (out: Vec<char>)
    ensures
        out@ == repair_line(line@),
{
    let (lead, end) = trimmed_bounds(line);
    if lead == end || line[lead] == '#' {
        return copy_line(line);
    }
    let (colon, value_start) = value_bounds(line, lead, end);
    if colon == end || value_start == end {
        return copy_line(line);
    }
    let first = line[value_start];
    if first == '[' || first == '{' || first == '"' || first == '\'' {
        return copy_line(line);
    }
    let next = find_char(line, ':', value_start, end);
    if next == end {
        return copy_line(line);
    }
    let mut out: Vec<char> = Vec::new();
    append_range(&mut out, line, 0, lead);
    append_range(&mut out, line, lead, colon);
    out.push(':');
    out.push(' ');
    out.push('"');
    append_range(&mut out, line, value_start, end);
    out.push('"');
    proof {
        let trimmed = trim(line@);
        assert(line@.take(lead as int) =~= line@.subrange(0, lead as int));
        assert(trimmed.take(colon - lead) =~= line@.subrange(lead as int, colon as int));
        assert(needs_quotes(line@));
        assert(out@ =~= quoted_line(line@));
    }
    out
}

/// The line as it is.
fn copy_line(line: &Vec<char>) -> (out: Vec<char>)
    ensures
        out@ == line@,
{
    let mut out: Vec<char> = Vec::new();
    append_range(&mut out, line, 0, line.len());
    assert(line@.subrange(0, line@.len() as int) =~= line@);
    out
}

/// Repairs a block line by line: a plain scalar value with a separator in it
/// is put in double quotes; every other line stays as it is.
pub fn fix_yaml_issues(content: &str) -> (r: String)
    ensures
        r@ == repaired(content@),
{
    let chars = chars_of(content);
    let ls = split_lines(&chars);
    let mut fixed: Vec<Vec<char>> = Vec::new();
    let mut i: usize = 0;
    while i < ls.len()
        invariant
            i <= ls.len(),
            fixed.len() == i,
            forall|j: int| 0 <= j < i ==> (#[trigger] fixed@[j])@ == repair_line(ls@[j]@),
        decreases ls.len() - i,
    {
        fixed.push(fix_line(&ls[i]));
        i += 1;
    }
    let joined = join_range(&fixed, 0, fixed.len());
    proof {
        let all = line_views(fixed@);
        assert(all.subrange(0, fixed@.len() as int) =~= all);
        assert(all =~= repair_lines(line_views(ls@)));
    }
    text_of(&joined)
}

/// A document: where it was read, the metadata of its block, and its title.
#[derive(Debug)]
pub struct Note {
    pub path: String,
    pub frontmatter: StringMap<Value>,
    pub title: Option<String>,
}

/// A document as contracts speak of it.
pub struct NoteView {
    pub path: Seq<char>,
    pub frontmatter: Metadata,
    pub title: Option<Seq<char>>,
}

/// What reading one document gave: the document, and a warning where its
/// block did not parse as it stood.
#[derive(Debug)]
pub struct ParseResult {
    pub note: Option<Note>,
    pub frontmatter_warning: Option<String>,
}

/// The view of a text that may be absent.
pub open spec fn optional_text(t: Option<String>) -> Option<Seq<char>> {
    match t {
        Some(s) => Some(s@),
        None => None,
    }
}

impl View for Note {
    type V = NoteView;

    open spec fn view(&self) -> NoteView {
        NoteView {
            path: self.path@,
            frontmatter: metadata_view(self.frontmatter.entries()),
            title: optional_text(self.title),
        }
    }
}

impl Clone for Note {
    /// A document that holds what this one holds.
    fn clone(&self) -> (r: Self)
        ensures
            r@ == self@,
    {
        let frontmatter = self.frontmatter.clone();
        let title = match &self.title {
            Some(t) => Some(t.clone()),
            None => None,
        };
        proof {
            let a = metadata_view(self.frontmatter.entries());
            let b = metadata_view(frontmatter.entries());
            assert forall|i: int| 0 <= i < a.len() implies a[i] == b[i] by {
                assert(cloned(self.frontmatter.entries()[i].1, frontmatter.entries()[i].1));
            }
            assert(a =~= b);
        }
        Note { path: self.path.clone(), frontmatter, title }
    }
}

/// The title that the metadata names: the value under `title`, if it is a text.
pub open spec fn metadata_title(m: Metadata) -> Option<Seq<char>> {
    match lookup(m, "title"@) {
        Some(v) => as_text(v),
        None => None,
    }
}

/// The title of a document: the one that its metadata names, or else the stem
/// of its file name.
pub open spec fn derived_title(m: Metadata, stem: Option<Seq<char>>) -> Option<Seq<char>> {
    match metadata_title(m) {
        Some(t) => Some(t),
        None => stem,
    }
}

/// Whether the value under `key` holds `search`.
pub open spec fn matches_exactly(m: Metadata, key: Seq<char>, search: Seq<char>) -> bool {
    match lookup(m, key) {
        Some(v) => contains_text(v, search),
        None => false,
    }
}

/// Whether the value under `key` holds `search`, letters of either case
/// counting as the same in the key and in the value.
pub open spec fn matches_ignoring_case(m: Metadata, key: Seq<char>, search: Seq<char>) -> bool {
    match lookup_ignoring_case(m, key) {
        Some(v) => contains_text_ignoring_case(v, search),
        None => false,
    }
}

/// Whether the metadata meets one constraint.
pub open spec fn matches_constraint(
    m: Metadata,
    key: Seq<char>,
    search: Seq<char>,
    case_sensitive: bool,
) -> bool {
    if case_sensitive {
        matches_exactly(m, key, search)
    } else {
        matches_ignoring_case(m, key, search)
    }
}

/// `Path::file_stem`, which takes the last component of a path and leaves off
/// its extension. Nothing is claimed of what it returns.
#[verifier::external_body]
fn file_stem(path: &str) -> Option<String> {
    std::path::Path::new(path).file_stem().and_then(|s| s.to_str()).map(|s| s.to_string())
}

impl Note {
    /// The document at `path` with the metadata `frontmatter`, given the stem
    /// of its file name.
    pub fn with_file_stem(path: String, frontmatter: StringMap<Value>, stem: Option<String>) -> (note:
        Note)
        ensures
            note.path == path,
            note.frontmatter == frontmatter,
            note@.title == derived_title(metadata_view(frontmatter.entries()), optional_text(stem)),
    {
        let named: Option<String> = match frontmatter.get("title") {
            Some(Value::String(s)) => Some(s.clone()),
            _ => None,
        };
        proof {
            lemma_lookup_view(frontmatter.entries(), "title"@);
        }
        let title = match named {
            Some(t) => Some(t),
            None => stem,
        };
        Note { path, frontmatter, title }
    }

    /// The document at `path` with the metadata `frontmatter`. Its title is
    /// the one that the metadata names, or else the stem of the file name as
    /// the platform's path rules give it.
    pub fn new(path: String, frontmatter: StringMap<Value>) -> (note: Note)
        ensures
            note.path == path,
            note.frontmatter == frontmatter,
            metadata_title(metadata_view(frontmatter.entries())) is Some ==> note@.title
                == metadata_title(metadata_view(frontmatter.entries())),
    {
        let stem = file_stem(path.as_str());
        Note::with_file_stem(path, frontmatter, stem)
    }

    /// The value under `key`.
    pub fn get_frontmatter_value(&self, key: &str) -> (r: Option<&Value>)
        ensures
            match r {
                Some(v) => lookup(self@.frontmatter, key@) == Some(v@),
                None => lookup(self@.frontmatter, key@) is None,
            },
    {
        proof {
            lemma_lookup_view(self.frontmatter.entries(), key@);
        }
        self.frontmatter.get(key)
    }

    /// The value under `key` whatever the case of its letters.
    pub fn get_frontmatter_value_case_insensitive(&self, key: &str) -> (r: Option<&Value>)
        ensures
            match r {
                Some(v) => lookup_ignoring_case(self@.frontmatter, key@) == Some(v@),
                None => lookup_ignoring_case(self@.frontmatter, key@) is None,
            },
    {
        proof {
            lemma_lookup_view(self.frontmatter.entries(), key@);
        }
        self.frontmatter.get_ignoring_case(key)
    }

    /// Whether the value under `key` holds `value`.
    pub fn matches_filter(&self, key: &str, value: &str) -> (r: bool)
        ensures
            r == matches_exactly(self@.frontmatter, key@, value@),
    {
        match self.get_frontmatter_value(key) {
            Some(found) => yaml_contains_str(found, value),
            None => false,
        }
    }

    /// Whether the document meets the constraint that the value under `key`
    /// holds `value`, with or without regard to the case of letters.
    pub fn matches_filter_with_case_sensitivity(
        &self,
        key: &str,
        value: &str,
        case_sensitive: bool,
    ) -> (r: bool)
        ensures
            r == matches_constraint(self@.frontmatter, key@, value@, case_sensitive),
    {
        if case_sensitive {
            self.matches_filter(key, value)
        } else {
            match self.get_frontmatter_value_case_insensitive(key) {
                Some(found) => yaml_contains_str_case_insensitive(found, value),
                None => false,
            }
        }
    }
}

/// Looking a key up in the views gives the view of what the values hold.
pub proof fn lemma_lookup_view(m: Seq<(Seq<char>, Value)>, key: Seq<char>)
    ensures
        lookup(metadata_view(m), key) == match lookup(m, key) {
            Some(v) => Some(v@),
            None => None,
        },
        lookup_ignoring_case(metadata_view(m), key) == match lookup_ignoring_case(m, key) {
            Some(v) => Some(v@),
            None => None,
        },
{
    lemma_metadata_view_keys(m, key);
    lemma_metadata_view_keys_ignoring_case(m, key);
}

/// The line that opens and closes a metadata block.
pub open spec fn delimiter() -> Seq<char> {
    seq!['-', '-', '-']
}

/// The index of the first line from `from` on that is the delimiter once
/// trimmed, or the number of lines where there is none.
pub open spec fn next_delimiter(ls: Seq<Seq<char>>, from: int) -> int
    decreases ls.len() - from,
{
    if from < 0 || from >= ls.len() {
        ls.len() as int
    } else if trim(ls[from]) == delimiter() {
        from
    } else {
        next_delimiter(ls, from + 1)
    }
}

/// Whether a document opens with the delimiter once it is trimmed.
pub open spec fn has_opening_delimiter(content: Seq<char>) -> bool {
    delimiter().is_prefix_of(trim(content))
}

/// What reading the block of a document gives: its metadata, if it has a
/// block, and a warning, if the block did not parse as it stood.
pub type Extraction = (Option<Metadata>, Option<Seq<char>>);

/// The warning that names a file and the error of its strict parse.
pub open spec fn warning_text(lead: Seq<char>, path: Seq<char>, link: Seq<char>, error: Seq<char>) -> Seq<
    char,
> {
    lead + path + link + error
}

/// What becomes of a block whose strict parse failed with `error`. Without a
/// second parse the metadata is empty; after one that succeeded it is what
/// the repaired block holds; after one that failed it is empty again. Each
/// way the warning names the file and the first error.
pub open spec fn failure_outcome(
    path: Seq<char>,
    error: Seq<char>,
    retried: Option<Result<Metadata, ParseErrorView>>,
) -> Extraction {
    match retried {
        None => (
            Some(Seq::empty()),
            Some(warning_text("Failed to parse frontmatter in file "@, path, ": "@, error)),
        ),
        Some(Ok(m)) => (
            Some(m),
            Some(
                warning_text(
                    "Used lenient parsing for frontmatter in file "@,
                    path,
                    " due to: "@,
                    error,
                ),
            ),
        ),
        Some(Err(_)) => (
            Some(Seq::empty()),
            Some(
                warning_text(
                    "Failed to parse frontmatter in file "@,
                    path,
                    " even with lenient parsing: "@,
                    error,
                ),
            ),
        ),
    }
}

/// What the content of a block gives. Where the strict parse succeeds, its
/// metadata. Where the content is well formed but its root is neither a
/// mapping nor null, nothing, as if there were no block. Where the content
/// is not well formed, what becomes of the failure, with a second parse of
/// the repaired block where `lenient` asks for one.
pub open spec fn block_outcome(block: Seq<char>, path: Seq<char>, lenient: bool) -> Extraction {
    match parsed_metadata(block) {
        Ok(m) => (Some(m), None),
        Err(ParseErrorView::Root(_)) => (None, None),
        Err(ParseErrorView::Syntax(error)) => failure_outcome(
            path,
            error,
            if lenient {
                Some(parsed_metadata(repaired(block)))
            } else {
                None
            },
        ),
    }
}

/// The block of a document, if it has one. It has one if, once trimmed, it
/// opens with the delimiter, has three lines or more, and one of its lines
/// after the first is the delimiter again once it is trimmed; the block is
/// what stands between the two, its lines joined by line feeds.
pub open spec fn block_of(content: Seq<char>) -> Option<Seq<char>> {
    let ls = lines(trim(content));
    let end = next_delimiter(ls, 1);
    if !has_opening_delimiter(content) || ls.len() < 3 || end >= ls.len() {
        None
    } else {
        Some(join_lines(ls.subrange(1, end)))
    }
}

/// What a document gives: nothing without a block, empty metadata for a
/// block that is blank, and else what the content of the block gives.
pub open spec fn extracted(content: Seq<char>, path: Seq<char>, lenient: bool) -> Extraction {
    match block_of(content) {
        None => (None, None),
        Some(block) => if trim(block).len() == 0 {
            (Some(Seq::empty()), None)
        } else {
            block_outcome(block, path, lenient)
        },
    }
}

/// A document that does not open with the delimiter gives no metadata and
/// no warning.
pub proof fn lemma_no_delimiter_no_metadata(content: Seq<char>, path: Seq<char>, lenient: bool)
    requires
        !has_opening_delimiter(content),
    ensures
        extracted(content, path, lenient) == (None::<Metadata>, None::<Seq<char>>),
{
}

/// A block that parses as it stands is read without repair: the metadata is
/// that of the strict parse and there is no warning, whether or not the
/// repair is at hand.
pub proof fn lemma_sound_block_needs_no_repair(content: Seq<char>, path: Seq<char>, lenient: bool)
    requires
        block_of(content) is Some,
        parsed_metadata(block_of(content)->0) is Ok,
    ensures
        extracted(content, path, lenient).1 is None,
        extracted(content, path, lenient) == extracted(content, path, !lenient),
        trim(block_of(content)->0).len() > 0 ==> extracted(content, path, lenient).0 == Some(
            parsed_metadata(block_of(content)->0)->Ok_0,
        ),
{
}

/// A block that is well formed but whose root is neither a mapping nor null
/// gives what a document without a block gives: no metadata and no warning,
/// whether or not the repair is at hand.
pub proof fn lemma_foreign_root_is_no_block(content: Seq<char>, path: Seq<char>, lenient: bool)
    requires
        block_of(content) is Some,
        trim(block_of(content)->0).len() > 0,
        parsed_metadata(block_of(content)->0) matches Err(e) && e is Root,
    ensures
        extracted(content, path, lenient) == (None::<Metadata>, None::<Seq<char>>),
{
}

/// A block that is not well formed gives, without the repair, empty metadata
/// and a warning that names the file and the error.
pub proof fn lemma_strict_failure_degrades(content: Seq<char>, path: Seq<char>, error: Seq<char>)
    requires
        block_of(content) is Some,
        trim(block_of(content)->0).len() > 0,
        parsed_metadata(block_of(content)->0) == Err::<Metadata, ParseErrorView>(
            ParseErrorView::Syntax(error),
        ),
    ensures
        extracted(content, path, false) == (
            Some(Seq::<(Seq<char>, ValueView)>::empty()),
            Some("Failed to parse frontmatter in file "@ + path + ": "@ + error),
        ),
{
}

/// A block that is not well formed but parses once it is repaired gives,
/// with the repair, the metadata of the repaired block and a warning that
/// names the file and the error of the strict parse.
pub proof fn lemma_repair_recovers(content: Seq<char>, path: Seq<char>, error: Seq<char>)
    requires
        block_of(content) is Some,
        trim(block_of(content)->0).len() > 0,
        parsed_metadata(block_of(content)->0) == Err::<Metadata, ParseErrorView>(
            ParseErrorView::Syntax(error),
        ),
        parsed_metadata(repaired(block_of(content)->0)) is Ok,
    ensures
        extracted(content, path, true) == (
            Some(parsed_metadata(repaired(block_of(content)->0))->Ok_0),
            Some("Used lenient parsing for frontmatter in file "@ + path + " due to: "@ + error),
        ),
{
}

/// Whether metadata and warning are those that the model gives.
pub open spec fn is_extraction(r: (Option<StringMap<Value>>, Option<String>), model: Extraction) -> bool {
    &&& match r.0 {
        Some(map) => model.0 == Some(metadata_view(map.entries())),
        None => model.0 is None,
    }
    &&& optional_text(r.1) == model.1
}

/// Whether a line is the delimiter once it is trimmed.
fn is_delimiter_line(line: &Vec<char>) -> (b: bool)
    ensures
        b == (trim(line@) == delimiter()),
{
    let (from, to) = trimmed_bounds(line);
    if to - from != 3 {
        assert(trim(line@).len() != delimiter().len());
        return false;
    }
    let b = line[from] == '-' && line[from + 1] == '-' && line[from + 2] == '-';
    proof {
        let t = trim(line@);
        if b {
            assert(t =~= delimiter());
        } else {
            assert(t[0] == line@[from as int]);
            assert(t[1] == line@[from + 1]);
            assert(t[2] == line@[from + 2]);
        }
    }
    b
}

/// Metadata without entries.
fn empty_metadata() -> (m: StringMap<Value>)
    ensures
        metadata_view(m.entries()) == Seq::<(Seq<char>, ValueView)>::empty(),
{
    let m: StringMap<Value> = StringMap::new();
    assert(metadata_view(m.entries()) =~= Seq::<(Seq<char>, ValueView)>::empty());
    m
}

/// The warning that names a file and the error of its strict parse.
fn warning(lead: &str, path: &str, link: &str, error: &str) -> (r: String)
    ensures
        r@ == warning_text(lead@, path@, link@, error@),
{
    let a = concat_text(lead, path);
    let b = concat_text(a.as_str(), link);
    concat_text(b.as_str(), error)
}

/// What becomes of a block of the file `file_path` whose strict parse failed
/// with `error`, given the outcome of the second parse, if one was made.
pub fn degraded_outcome(
    file_path: &str,
    error: &str,
    retried: Option<Result<StringMap<Value>, ParseError>>,
) -> (r: (Option<StringMap<Value>>, Option<String>))
    ensures
        is_extraction(
            r,
            failure_outcome(
                file_path@,
                error@,
                match retried {
                    None => None,
                    Some(Ok(map)) => Some(
                        Ok::<Metadata, ParseErrorView>(metadata_view(map.entries())),
                    ),
                    Some(Err(e)) => Some(Err::<Metadata, ParseErrorView>(e@)),
                },
            ),
        ),
{
    match retried {
        None => (
            Some(empty_metadata()),
            Some(warning("Failed to parse frontmatter in file ", file_path, ": ", error)),
        ),
        Some(Ok(map)) => (
            Some(map),
            Some(
                warning(
                    "Used lenient parsing for frontmatter in file ",
                    file_path,
                    " due to: ",
                    error,
                ),
            ),
        ),
        Some(Err(_)) => (
            Some(empty_metadata()),
            Some(
                warning(
                    "Failed to parse frontmatter in file ",
                    file_path,
                    " even with lenient parsing: ",
                    error,
                ),
            ),
        ),
    }
}

/// The metadata that a block gives once it is repaired.
pub fn try_lenient_parse(frontmatter_content: &str) -> (r: Result<StringMap<Value>, ParseError>)
    ensures
        is_outcome(r, parsed_metadata(repaired(frontmatter_content@))),
{
    let fixed_content = fix_yaml_issues(frontmatter_content);
    parse_yaml_frontmatter(fixed_content.as_str())
}

/// Reads the metadata block of a document. Without a block there is no
/// metadata and no warning, and so it is where the content of the block is
/// well formed but its root is neither a mapping nor null. A block that
/// parses gives its metadata; one that is not well formed gives a warning
/// and, where `lenient` is set and the repaired block parses, the metadata of
/// the repaired block, or else empty metadata.
pub fn extract_frontmatter_with_options(
    content: &str,
    file_path: &str,
    _verbose: bool,
    lenient: bool,
) -> (r: (Option<StringMap<Value>>, Option<String>))
    ensures
        is_extraction(r, extracted(content@, file_path@, lenient)),
        !has_opening_delimiter(content@) ==> r.0 is None && r.1 is None,
{
    let all = chars_of(content);
    let from = skip_whitespace(&all, 0, all.len());
    let to = skip_whitespace_back(&all, from, all.len());
    let text = copy_range(&all, from, to);
    proof {
        assert(all@.subrange(0, all@.len() as int) =~= all@);
        assert(trim_start(all@) =~= all@.subrange(from as int, all@.len() as int));
        assert(text@ =~= trim(content@));
    }
    if text.len() < 3 || text[0] != '-' || text[1] != '-' || text[2] != '-' {
        return (None, None);
    }
    assert(delimiter().is_prefix_of(text@)) by {
        assert(text@.subrange(0, 3) =~= delimiter());
    }
    let ls = split_lines(&text);
    proof {
        assert(line_views(ls@).len() == ls@.len());
    }
    if ls.len() < 3 {
        return (None, None);
    }
    let ghost model = line_views(ls@);
    let mut end: usize = 1;
    while end < ls.len() && !is_delimiter_line(&ls[end])
        invariant
            1 <= end <= ls.len(),
            model == line_views(ls@),
            next_delimiter(model, 1) == next_delimiter(model, end as int),
        decreases ls.len() - end,
    {
        end += 1;
    }
    if end == ls.len() {
        return (None, None);
    }
    let block = join_range(&ls, 1, end);
    let start = skip_whitespace(&block, 0, block.len());
    let stop = skip_whitespace_back(&block, start, block.len());
    proof {
        assert(block@.subrange(0, block@.len() as int) =~= block@);
        assert(trim_start(block@) =~= block@.subrange(start as int, block@.len() as int));
        assert(trim(block@) =~= block@.subrange(start as int, stop as int));
    }
    if start == stop {
        return (Some(empty_metadata()), None);
    }
    let frontmatter_content = text_of(&block);
    match parse_yaml_frontmatter(frontmatter_content.as_str()) {
        Ok(parsed) => (Some(parsed), None),
        Err(ParseError::Root(_)) => (None, None),
        Err(ParseError::Syntax(e)) => {
            let retried = if lenient {
                Some(try_lenient_parse(frontmatter_content.as_str()))
            } else {
                None
            };
            degraded_outcome(file_path, e.as_str(), retried)
        },
    }
}

/// Reads the metadata block of a document, with the repair at hand.
pub fn extract_frontmatter(content: &str, file_path: &str, verbose: bool) -> (r: (
    Option<StringMap<Value>>,
    Option<String>,
))
    ensures
        is_extraction(r, extracted(content@, file_path@, true)),
{
    extract_frontmatter_with_options(content, file_path, verbose, true)
}

/// What reading the document at `path` gives, once its text `content` is at
/// hand: the document with the metadata of its block, or with none where it
/// has no block or the block could not be read, and the warning of the block.
pub fn parse_frontmatter_from_text(path: &str, content: &str, verbose: bool, lenient: bool) -> (r:
    ParseResult)
    ensures
        r.note is Some,
        r.note->0@.path == path@,
        r.note->0@.frontmatter == match extracted(content@, path@, lenient).0 {
            Some(m) => m,
            None => Seq::empty(),
        },
        metadata_title(r.note->0@.frontmatter) is Some ==> r.note->0@.title == metadata_title(
            r.note->0@.frontmatter,
        ),
        optional_text(r.frontmatter_warning) == extracted(content@, path@, lenient).1,
{
    let (found, frontmatter_warning) = extract_frontmatter_with_options(
        content,
        path,
        verbose,
        lenient,
    );
    let frontmatter = match found {
        Some(map) => map,
        None => empty_metadata(),
    };
    let note = Note::new(path.to_owned(), frontmatter);
    ParseResult { note: Some(note), frontmatter_warning }
}

} // verus!
