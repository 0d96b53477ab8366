//! Queries over many documents: a predicate that selects documents, the
//! fields that occur, and the values of one field.

use vstd::prelude::*;
use crate::frontmatter::{matches_constraint, Note, NoteView};
use crate::string_map::{
    has_key, has_key_before, index_ignoring_case, index_of_key, lemma_index_ignoring_case,
    lemma_index_of_key_is_first, lookup,
};
use crate::text::{
    chars_of, concat_text, find, find_char, insert_sorted, line_views, lowercase,
    lowercase_chars, same_text, strictly_ascending, text_of_range, texts_of,
};
use crate::yaml_compat::{
    collect_yaml_strings, collected_texts, metadata_view, string_views, Metadata, ValueView,
};

verus! {

/// A conjunction of constraints, each a key and a text that the value under
/// the key is to hold, with or without regard to the case of letters.
pub struct FilterCriteria {
    filters: Vec<(String, String)>,
    case_sensitive: bool,
}

/// The constraints held in a vector, keys and texts taken by their views.
pub open spec fn constraint_views(filters: Seq<(String, String)>) -> Seq<(Seq<char>, Seq<char>)> {
    filters.map_values(|f: (String, String)| (f.0@, f.1@))
}

/// Whether the metadata meets every constraint.
pub open spec fn meets_all(
    m: Metadata,
    constraints: Seq<(Seq<char>, Seq<char>)>,
    case_sensitive: bool,
) -> bool {
    forall|i: int|
        0 <= i < constraints.len() ==> matches_constraint(
            m,
            (#[trigger] constraints[i]).0,
            constraints[i].1,
            case_sensitive,
        )
}

/// The views of the documents held in a slice.
pub open spec fn note_views(notes: Seq<Note>) -> Seq<NoteView> {
    notes.map_values(|n: Note| n@)
}

/// The documents that references point to.
pub open spec fn referents(refs: Seq<&Note>) -> Seq<Note> {
    refs.map_values(|n: &Note| *n)
}

impl FilterCriteria {
    /// The constraints of the predicate.
    pub closed spec fn constraints(&self) -> Seq<(Seq<char>, Seq<char>)> {
        constraint_views(self.filters@)
    }

    /// Whether the predicate tells letters of different case apart.
    pub closed spec fn is_case_sensitive(&self) -> bool {
        self.case_sensitive
    }

    /// Whether a document is selected.
    pub open spec fn selects(&self, note: Note) -> bool {
        meets_all(note@.frontmatter, self.constraints(), self.is_case_sensitive())
    }

    /// The predicate that matches keys and texts as they are written.
    pub fn new(filters: Vec<(String, String)>) -> (r: Self)
        ensures
            r.constraints() == constraint_views(filters@),
            r.is_case_sensitive(),
    {
        FilterCriteria { filters, case_sensitive: true }
    }

    /// The predicate that matches keys and texts whatever the case of letters.
    pub fn new_case_insensitive(filters: Vec<(String, String)>) -> (r: Self)
        ensures
            r.constraints() == constraint_views(filters@),
            !r.is_case_sensitive(),
    {
        FilterCriteria { filters, case_sensitive: false }
    }

    /// Whether a document meets every constraint.
    pub fn matches_all_filters(&self, note: &Note) -> (r: bool)
        ensures
            r == self.selects(*note),
    {
        let mut i: usize = 0;
        while i < self.filters.len()
            invariant
                i <= self.filters.len(),
                forall|j: int|
                    0 <= j < i ==> matches_constraint(
                        note@.frontmatter,
                        (#[trigger] self.constraints()[j]).0,
                        self.constraints()[j].1,
                        self.is_case_sensitive(),
                    ),
            decreases self.filters.len() - i,
        {
            let key = &self.filters[i].0;
            let value = &self.filters[i].1;
            if !note.matches_filter_with_case_sensitivity(
                key.as_str(),
                value.as_str(),
                self.case_sensitive,
            ) {
                assert(self.constraints()[i as int] == (key@, value@));
                return false;
            }
            assert(self.constraints()[i as int] == (key@, value@));
            i += 1;
        }
        true
    }

    /// The documents that meet every constraint, in the order in which they
    /// stand in `notes`. A predicate without constraints selects them all.
    pub fn apply_filters<'a>(&self, notes: &'a [Note]) -> (r: Vec<&'a Note>)
        ensures
            referents(r@) == notes@.filter(|n: Note| self.selects(n)),
            self.constraints().len() == 0 ==> referents(r@) == notes@,
    {
        let mut out: Vec<&'a Note> = Vec::new();
        let ghost wanted = |n: Note| self.selects(n);
        let mut i: usize = 0;
        proof {
            assert(notes@.take(0) =~= Seq::<Note>::empty());
            assert(referents(out@) =~= Seq::<Note>::empty());
            reveal(Seq::filter);
            assert(Seq::<Note>::empty().filter(wanted) =~= Seq::<Note>::empty());
        }
        while i < notes.len()
            invariant
                i <= notes.len(),
                wanted == (|n: Note| self.selects(n)),
                referents(out@) == notes@.take(i as int).filter(wanted),
                self.constraints().len() == 0 ==> referents(out@) == notes@.take(i as int),
            decreases notes.len() - i,
        {
            let ghost before = referents(out@);
            let note = &notes[i];
            proof {
                assert(notes@.take(i + 1) =~= notes@.take(i as int).push(notes@[i as int]));
                notes@.take(i as int).lemma_filter_push(notes@[i as int], wanted);
            }
            if self.matches_all_filters(note) {
                out.push(note);
                assert(referents(out@) =~= before.push(notes@[i as int]));
            }
            i += 1;
        }
        assert(notes@.take(i as int) =~= notes@);
        out
    }
}

/// Whether some document has the key.
pub open spec fn is_field(notes: Seq<NoteView>, key: Seq<char>) -> bool {
    exists|i: int| 0 <= i < notes.len() && has_key((#[trigger] notes[i]).frontmatter, key)
}

/// The texts that a value under some key contributes, if there is a value.
pub open spec fn texts_under(found: Option<ValueView>) -> Seq<Seq<char>> {
    match found {
        Some(v) => collected_texts(v),
        None => Seq::empty(),
    }
}

/// Whether `text` is among the texts that some document holds under `field`.
pub open spec fn is_field_value(notes: Seq<NoteView>, field: Seq<char>, text: Seq<char>) -> bool {
    exists|i: int|
        0 <= i < notes.len() && texts_under(
            lookup((#[trigger] notes[i]).frontmatter, field),
        ).contains(text)
}

/// Whether one of the first `n` entries of the metadata has a key that is
/// `field` in lowercase and a value that contributes `text`.
pub open spec fn holds_under_any_spelling(
    m: Metadata,
    n: int,
    field: Seq<char>,
    text: Seq<char>,
) -> bool {
    exists|e: int|
        0 <= e < n && e < m.len() && lowercase((#[trigger] m[e]).0) == lowercase(field)
            && collected_texts(m[e].1).contains(text)
}

/// Whether `text` is among the texts that some document holds under some key
/// that is `field` in lowercase: what stands under any spelling of the key, in
/// one document or in several, comes together.
pub open spec fn is_field_value_ignoring_case(
    notes: Seq<NoteView>,
    field: Seq<char>,
    text: Seq<char>,
) -> bool {
    exists|i: int|
        0 <= i < notes.len() && holds_under_any_spelling(
            (#[trigger] notes[i]).frontmatter,
            notes[i].frontmatter.len() as int,
            field,
            text,
        )
}

/// The index of the first document from `from` on that has a key that is
/// `field` in lowercase, or the number of documents.
pub open spec fn first_holder(notes: Seq<NoteView>, field: Seq<char>, from: int) -> int
    decreases notes.len() - from,
{
    if from < 0 || from >= notes.len() {
        notes.len() as int
    } else if index_ignoring_case(notes[from].frontmatter, field) < notes[from].frontmatter.len() {
        from
    } else {
        first_holder(notes, field, from + 1)
    }
}

/// The key as it is written where it is first met: in the first document
/// that has a key that is `field` in lowercase, the first such key; `field`
/// itself where no document has one.
pub open spec fn written_key(notes: Seq<NoteView>, field: Seq<char>) -> Seq<char> {
    let at = first_holder(notes, field, 0);
    if at < notes.len() {
        notes[at].frontmatter[index_ignoring_case(notes[at].frontmatter, field) as int].0
    } else {
        field
    }
}

/// The values of a field are the same under every query that agrees with
/// another in lowercase.
pub proof fn lemma_values_merge_across_spellings(
    notes: Seq<NoteView>,
    first: Seq<char>,
    second: Seq<char>,
    text: Seq<char>,
)
    requires
        lowercase(first) == lowercase(second),
    ensures
        is_field_value_ignoring_case(notes, first, text) == is_field_value_ignoring_case(
            notes,
            second,
            text,
        ),
{
    assert forall|i: int| 0 <= i < notes.len() implies holds_under_any_spelling(
        (#[trigger] notes[i]).frontmatter,
        notes[i].frontmatter.len() as int,
        first,
        text,
    ) == holds_under_any_spelling(
        notes[i].frontmatter,
        notes[i].frontmatter.len() as int,
        second,
        text,
    ) by {}
}

/// A text that a document holds under some spelling of a key is among the
/// values of the field under every query that is the key in lowercase,
/// whatever else the document holds under other spellings.
pub proof fn lemma_value_under_any_spelling_is_collected(
    notes: Seq<NoteView>,
    at: int,
    key: Seq<char>,
    query: Seq<char>,
    text: Seq<char>,
)
    requires
        0 <= at < notes.len(),
        lowercase(query) == lowercase(key),
        texts_under(lookup(notes[at].frontmatter, key)).contains(text),
    ensures
        is_field_value_ignoring_case(notes, query, text),
{
    let m = notes[at].frontmatter;
    lemma_index_of_key_is_first(m, key);
    if !has_key(m, key) {
        assert(texts_under(lookup(m, key)) =~= Seq::<Seq<char>>::empty());
    }
    let e = index_of_key(m, key) as int;
    assert(lowercase(m[e].0) == lowercase(query) && collected_texts(m[e].1).contains(text));
    assert(holds_under_any_spelling(m, m.len() as int, query, text));
}

/// Puts each of `texts` in its place among the texts in ascending order.
fn add_texts(sorted: &mut Vec<Vec<char>>, texts: &Vec<String>)
    requires
        strictly_ascending(line_views(old(sorted)@)),
    ensures
        strictly_ascending(line_views(final(sorted)@)),
        forall|t: Seq<char>|
            line_views(final(sorted)@).contains(t) <==> (line_views(old(sorted)@).contains(t)
                || string_views(texts@).contains(t)),
{
    let mut i: usize = 0;
    let ghost all = string_views(texts@);
    while i < texts.len()
        invariant
            i <= texts.len(),
            all == string_views(texts@),
            strictly_ascending(line_views(sorted@)),
            forall|t: Seq<char>|
                line_views(sorted@).contains(t) <==> (line_views(old(sorted)@).contains(t)
                    || all.take(i as int).contains(t)),
        decreases texts.len() - i,
    {
        let ghost before = line_views(sorted@);
        insert_sorted(sorted, chars_of(texts[i].as_str()));
        proof {
            let prev = all.take(i as int);
            let next = all.take(i + 1);
            assert(next =~= prev.push(all[i as int]));
            assert forall|t: Seq<char>|
                line_views(sorted@).contains(t) <==> (line_views(old(sorted)@).contains(t)
                    || next.contains(t)) by {
                if next.contains(t) {
                    let k = choose|k: int| 0 <= k < next.len() && next[k] == t;
                    if k < i {
                        assert(prev[k] == t);
                    }
                }
                if prev.contains(t) {
                    let k = choose|k: int| 0 <= k < prev.len() && prev[k] == t;
                    assert(next[k] == t);
                }
                if t == all[i as int] {
                    assert(next[i as int] == t);
                }
            }
        }
        i += 1;
    }
    assert(all.take(i as int) =~= all);
}

/// The keys that occur in the documents, each once, in ascending order.
pub fn collect_all_fields(notes: &[Note]) -> (fields: Vec<String>)
    ensures
        strictly_ascending(string_views(fields@)),
        forall|key: Seq<char>|
            string_views(fields@).contains(key) <==> is_field(note_views(notes@), key),
{
    let mut sorted: Vec<Vec<char>> = Vec::new();
    let ghost all = note_views(notes@);
    let mut i: usize = 0;
    assert(all.take(0) =~= Seq::<NoteView>::empty());
    while i < notes.len()
        invariant
            i <= notes.len(),
            all == note_views(notes@),
            strictly_ascending(line_views(sorted@)),
            forall|key: Seq<char>|
                line_views(sorted@).contains(key) <==> is_field(all.take(i as int), key),
        decreases notes.len() - i,
    {
        let note = &notes[i];
        let ghost m = all[i as int].frontmatter;
        let ghost outer = line_views(sorted@);
        let mut j: usize = 0;
        while j < note.frontmatter.len()
            invariant
                j <= note.frontmatter.entries().len(),
                i < notes.len(),
                all == note_views(notes@),
                note == &notes@[i as int],
                m == all[i as int].frontmatter,
                m == note@.frontmatter,
                strictly_ascending(line_views(sorted@)),
                forall|key: Seq<char>|
                    #[trigger] line_views(sorted@).contains(key) <==> (outer.contains(key)
                        || has_key_before(m, j as int, key)),
            decreases note.frontmatter.entries().len() - j,
        {
            let key = note.frontmatter.key_at(j);
            let ghost before = line_views(sorted@);
            insert_sorted(&mut sorted, chars_of(key.as_str()));
            proof {
                assert(m[j as int].0 == key@);
                assert forall|k: Seq<char>|
                    #[trigger] line_views(sorted@).contains(k) <==> (outer.contains(k)
                        || has_key_before(m, j + 1, k)) by {
                    lemma_index_of_key_is_first(m, k);
                    assert(before.contains(k) <==> (outer.contains(k) || has_key_before(
                        m,
                        j as int,
                        k,
                    )));
                    if k == key@ {
                        if index_of_key(m, k) > j {
                            assert(m[j as int].0 != k);
                        }
                    }
                }
            }
            j += 1;
        }
        proof {
            let prev = all.take(i as int);
            let next = all.take(i + 1);
            assert(next =~= prev.push(all[i as int]));
            assert forall|key: Seq<char>|
                line_views(sorted@).contains(key) <==> is_field(next, key) by {
                lemma_index_of_key_is_first(m, key);
                assert(outer.contains(key) <==> is_field(prev, key));
                if is_field(next, key) {
                    let w = choose|w: int|
                        0 <= w < next.len() && has_key((#[trigger] next[w]).frontmatter, key);
                    if w < i {
                        assert(has_key(prev[w].frontmatter, key));
                    }
                }
                if is_field(prev, key) {
                    let w = choose|w: int|
                        0 <= w < prev.len() && has_key((#[trigger] prev[w]).frontmatter, key);
                    assert(has_key(next[w].frontmatter, key));
                }
                if has_key(m, key) {
                    assert(has_key(next[i as int].frontmatter, key));
                }
            }
        }
        i += 1;
    }
    assert(all.take(i as int) =~= all);
    let fields = texts_of(&sorted);
    assert(string_views(fields@) =~= line_views(sorted@));
    fields
}

/// The texts that the documents hold under `field`, each once, in ascending
/// order.
pub fn collect_field_values(notes: &[Note], field: &str) -> (values: Vec<String>)
    ensures
        strictly_ascending(string_views(values@)),
        forall|text: Seq<char>|
            string_views(values@).contains(text) <==> is_field_value(
                note_views(notes@),
                field@,
                text,
            ),
{
    let mut sorted: Vec<Vec<char>> = Vec::new();
    let ghost all = note_views(notes@);
    let mut i: usize = 0;
    assert(all.take(0) =~= Seq::<NoteView>::empty());
    while i < notes.len()
        invariant
            i <= notes.len(),
            all == note_views(notes@),
            strictly_ascending(line_views(sorted@)),
            forall|text: Seq<char>|
                line_views(sorted@).contains(text) <==> is_field_value(
                    all.take(i as int),
                    field@,
                    text,
                ),
        decreases notes.len() - i,
    {
        let ghost before = line_views(sorted@);
        let ghost found = lookup(all[i as int].frontmatter, field@);
        match notes[i].get_frontmatter_value(field) {
            Some(value) => {
                let strings = collect_yaml_strings(value);
                add_texts(&mut sorted, &strings);
            },
            None => {},
        }
        proof {
            let prev = all.take(i as int);
            let next = all.take(i + 1);
            assert(next =~= prev.push(all[i as int]));
            assert forall|text: Seq<char>|
                line_views(sorted@).contains(text) <==> is_field_value(next, field@, text) by {
                if is_field_value(next, field@, text) {
                    let w = choose|w: int|
                        0 <= w < next.len() && texts_under(
                            lookup((#[trigger] next[w]).frontmatter, field@),
                        ).contains(text);
                    if w < i {
                        assert(texts_under(lookup(prev[w].frontmatter, field@)).contains(text));
                    }
                }
                if is_field_value(prev, field@, text) {
                    let w = choose|w: int|
                        0 <= w < prev.len() && texts_under(
                            lookup((#[trigger] prev[w]).frontmatter, field@),
                        ).contains(text);
                    assert(texts_under(lookup(next[w].frontmatter, field@)).contains(text));
                }
                if texts_under(found).contains(text) {
                    assert(texts_under(lookup(next[i as int].frontmatter, field@)).contains(text));
                }
            }
        }
        i += 1;
    }
    assert(all.take(i as int) =~= all);
    let values = texts_of(&sorted);
    assert(string_views(values@) =~= line_views(sorted@));
    values
}

/// The texts that the documents hold under any key that is `field` in
/// lowercase, each once, in ascending order; and the key as it is written
/// where it is first met.
pub fn collect_field_values_case_insensitive(notes: &[Note], field: &str) -> (r: (
    Vec<String>,
    String,
))
    ensures
        strictly_ascending(string_views(r.0@)),
        forall|text: Seq<char>|
            string_views(r.0@).contains(text) <==> is_field_value_ignoring_case(
                note_views(notes@),
                field@,
                text,
            ),
        r.1@ == written_key(note_views(notes@), field@),
{
    let mut sorted: Vec<Vec<char>> = Vec::new();
    let mut actual_field_name: String = field.to_owned();
    let mut found_field = false;
    let wanted = lowercase_chars(field);
    let ghost all = note_views(notes@);
    let mut i: usize = 0;
    assert(all.take(0) =~= Seq::<NoteView>::empty());
    while i < notes.len()
        invariant
            i <= notes.len(),
            all == note_views(notes@),
            wanted@ == lowercase(field@),
            strictly_ascending(line_views(sorted@)),
            forall|text: Seq<char>|
                #[trigger] line_views(sorted@).contains(text) <==> is_field_value_ignoring_case(
                    all.take(i as int),
                    field@,
                    text,
                ),
            found_field ==> first_holder(all, field@, 0) < i && actual_field_name@ == written_key(
                all,
                field@,
            ),
            !found_field ==> first_holder(all, field@, 0) == first_holder(all, field@, i as int)
                && actual_field_name@ == field@,
        decreases notes.len() - i,
    {
        let note = &notes[i];
        let ghost m = all[i as int].frontmatter;
        let ghost outer = line_views(sorted@);
        let ghost found_before = found_field;
        let mut j: usize = 0;
        while j < note.frontmatter.len()
            invariant
                j <= note.frontmatter.entries().len(),
                i < notes.len(),
                all == note_views(notes@),
                note == &notes@[i as int],
                m == all[i as int].frontmatter,
                m == metadata_view(note.frontmatter.entries()),
                wanted@ == lowercase(field@),
                strictly_ascending(line_views(sorted@)),
                forall|text: Seq<char>|
                    #[trigger] line_views(sorted@).contains(text) <==> (outer.contains(text)
                        || holds_under_any_spelling(m, j as int, field@, text)),
                found_field ==> first_holder(all, field@, 0) <= i && actual_field_name@
                    == written_key(all, field@),
                !found_field ==> first_holder(all, field@, 0) == first_holder(
                    all,
                    field@,
                    i as int,
                ) && actual_field_name@ == field@ && forall|e: int|
                    0 <= e < j ==> lowercase((#[trigger] m[e]).0) != lowercase(field@),
            decreases note.frontmatter.entries().len() - j,
        {
            let key = note.frontmatter.key_at(j);
            let value = note.frontmatter.value_at(j);
            let ghost before = line_views(sorted@);
            assert(m[j as int] == (key@, value@));
            let spelled = lowercase_chars(key.as_str());
            if same_text(&spelled, &wanted) {
                if !found_field {
                    proof {
                        lemma_index_ignoring_case(m, field@, j as int);
                    }
                    actual_field_name = key.clone();
                    found_field = true;
                }
                let strings = collect_yaml_strings(value);
                add_texts(&mut sorted, &strings);
            }
            proof {
                assert forall|text: Seq<char>|
                    #[trigger] line_views(sorted@).contains(text) <==> (outer.contains(text)
                        || holds_under_any_spelling(m, j + 1, field@, text)) by {
                    assert(before.contains(text) <==> (outer.contains(text)
                        || holds_under_any_spelling(m, j as int, field@, text)));
                    if holds_under_any_spelling(m, j + 1, field@, text) {
                        let e = choose|e: int|
                            0 <= e < j + 1 && e < m.len() && lowercase((#[trigger] m[e]).0)
                                == lowercase(field@) && collected_texts(m[e].1).contains(text);
                        if e < j {
                            assert(holds_under_any_spelling(m, j as int, field@, text));
                        }
                    }
                    if holds_under_any_spelling(m, j as int, field@, text) {
                        let e = choose|e: int|
                            0 <= e < j && e < m.len() && lowercase((#[trigger] m[e]).0)
                                == lowercase(field@) && collected_texts(m[e].1).contains(text);
                        assert(holds_under_any_spelling(m, j + 1, field@, text));
                    }
                    if lowercase(key@) == lowercase(field@) && collected_texts(value@).contains(
                        text,
                    ) {
                        assert(lowercase(m[j as int].0) == lowercase(field@));
                        assert(holds_under_any_spelling(m, j + 1, field@, text));
                    }
                }
            }
            j += 1;
        }
        proof {
            let prev = all.take(i as int);
            let next = all.take(i + 1);
            assert(next =~= prev.push(all[i as int]));
            if !found_field {
                lemma_index_ignoring_case(m, field@, m.len() as int);
            }
            assert forall|text: Seq<char>|
                #[trigger] line_views(sorted@).contains(text) <==> is_field_value_ignoring_case(
                    next,
                    field@,
                    text,
                ) by {
                assert(outer.contains(text) <==> is_field_value_ignoring_case(prev, field@, text));
                if is_field_value_ignoring_case(next, field@, text) {
                    let w = choose|w: int|
                        0 <= w < next.len() && holds_under_any_spelling(
                            (#[trigger] next[w]).frontmatter,
                            next[w].frontmatter.len() as int,
                            field@,
                            text,
                        );
                    if w < i {
                        assert(holds_under_any_spelling(
                            prev[w].frontmatter,
                            prev[w].frontmatter.len() as int,
                            field@,
                            text,
                        ));
                    }
                }
                if is_field_value_ignoring_case(prev, field@, text) {
                    let w = choose|w: int|
                        0 <= w < prev.len() && holds_under_any_spelling(
                            (#[trigger] prev[w]).frontmatter,
                            prev[w].frontmatter.len() as int,
                            field@,
                            text,
                        );
                    assert(holds_under_any_spelling(
                        next[w].frontmatter,
                        next[w].frontmatter.len() as int,
                        field@,
                        text,
                    ));
                }
                if holds_under_any_spelling(m, m.len() as int, field@, text) {
                    assert(holds_under_any_spelling(
                        next[i as int].frontmatter,
                        next[i as int].frontmatter.len() as int,
                        field@,
                        text,
                    ));
                }
            }
        }
        i += 1;
    }
    assert(all.take(i as int) =~= all);
    let values = texts_of(&sorted);
    assert(string_views(values@) =~= line_views(sorted@));
    (values, actual_field_name)
}

/// What a constraint written as `field=value` says: the key before the first
/// `=` and the text after it; or, without a `=`, the complaint.
pub open spec fn parsed_filter(s: Seq<char>) -> Result<(Seq<char>, Seq<char>), Seq<char>> {
    let at = find(s, '=');
    if at < s.len() {
        Ok((s.take(at as int), s.skip(at as int + 1)))
    } else {
        Err("Invalid filter format: '"@ + s + "'. Use field=value"@)
    }
}

/// Reads a constraint written as `field=value`.
pub fn parse_filter(s: &str) -> (r: Result<(String, String), String>)
    ensures
        match r {
            Ok(pair) => parsed_filter(s@) == Ok::<(Seq<char>, Seq<char>), Seq<char>>(
                (pair.0@, pair.1@),
            ),
            Err(e) => parsed_filter(s@) == Err::<(Seq<char>, Seq<char>), Seq<char>>(e@),
        },
{
    let chars = chars_of(s);
    let at = find_char(&chars, '=', 0, chars.len());
    assert(chars@.subrange(0, chars@.len() as int) =~= chars@);
    if at < chars.len() {
        let key = text_of_range(&chars, 0, at);
        let value = text_of_range(&chars, at + 1, chars.len());
        Ok((key, value))
    } else {
        let head = concat_text("Invalid filter format: '", s);
        Err(concat_text(head.as_str(), "'. Use field=value"))
    }
}

} // verus!
