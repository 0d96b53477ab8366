//! Statistics by field: for each key, how many values stand under it, which
//! texts they are, and how often each.

use vstd::prelude::*;
use crate::filter::{is_field, note_views};
use crate::frontmatter::{Note, NoteView};
use crate::string_map::{
    count_of, has_key, has_key_before, index_of_key, keys_of, lemma_count_within_sum,
    lemma_index_of_key, lemma_index_of_key_is_first, lemma_sum_of_counts_add_one,
    lemma_with_entry, lookup, sum_of_counts, with_entry, StringMap,
};
use crate::yaml_compat::{
    lemma_array_view, metadata_view, rendering, string_views, yaml_to_string, yaml_views,
    Metadata, Value, ValueView,
};

verus! {

/// The renderings of the elements of a sequence, one for each, in their
/// order.
pub open spec fn rendered_items(items: Seq<ValueView>) -> Seq<Seq<char>> {
    items.map_values(|v: ValueView| rendering(v))
}

/// The texts that a value adds to the statistics of its field: a sequence
/// the rendering of each of its elements, none left out; anything else its
/// own rendering.
pub open spec fn counted_texts(v: ValueView) -> Seq<Seq<char>> {
    match v {
        ValueView::Array(items) => rendered_items(items),
        _ => seq![rendering(v)],
    }
}

/// How often `text` stands in `texts`.
pub open spec fn occurrences(texts: Seq<Seq<char>>, text: Seq<char>) -> nat
    decreases texts.len(),
{
    if texts.len() == 0 {
        0
    } else {
        occurrences(texts.drop_last(), text) + if texts.last() == text {
            1nat
        } else {
            0nat
        }
    }
}

/// How often `text` is counted for the value under `key`, if there is one.
pub open spec fn counted_in(m: Metadata, key: Seq<char>, text: Seq<char>) -> nat {
    match lookup(m, key) {
        Some(v) => occurrences(counted_texts(v), text),
        None => 0,
    }
}

/// How many texts are counted for the value under `key`, if there is one.
pub open spec fn weight_in(m: Metadata, key: Seq<char>) -> nat {
    match lookup(m, key) {
        Some(v) => counted_texts(v).len(),
        None => 0,
    }
}

/// How many texts are counted under `key` over all the documents: for each
/// document that has the key, one for each element of a sequence, and one for
/// any other value.
pub open spec fn weight_total(notes: Seq<NoteView>, key: Seq<char>) -> nat
    decreases notes.len(),
{
    if notes.len() == 0 {
        0
    } else {
        weight_total(notes.drop_last(), key) + weight_in(notes.last().frontmatter, key)
    }
}

/// In how many of the documents the key occurs.
pub open spec fn holders(notes: Seq<NoteView>, key: Seq<char>) -> nat
    decreases notes.len(),
{
    if notes.len() == 0 {
        0
    } else {
        holders(notes.drop_last(), key) + if has_key(notes.last().frontmatter, key) {
            1nat
        } else {
            0nat
        }
    }
}

/// How often `text` is counted under `key` over all the documents.
pub open spec fn value_total(notes: Seq<NoteView>, key: Seq<char>, text: Seq<char>) -> nat
    decreases notes.len(),
{
    if notes.len() == 0 {
        0
    } else {
        value_total(notes.drop_last(), key, text) + counted_in(notes.last().frontmatter, key, text)
    }
}

/// How many texts the metadata of one document adds to the statistics.
pub open spec fn metadata_weight(m: Metadata) -> nat
    decreases m.len(),
{
    if m.len() == 0 {
        0
    } else {
        metadata_weight(m.drop_last()) + counted_texts(m.last().1).len()
    }
}

/// How many texts the documents add to the statistics, all fields together.
pub open spec fn total_weight(notes: Seq<NoteView>) -> nat
    decreases notes.len(),
{
    if notes.len() == 0 {
        0
    } else {
        total_weight(notes.drop_last()) + metadata_weight(notes.last().frontmatter)
    }
}

/// The statistics of one field.
#[derive(Debug)]
pub struct FieldStats {
    /// How many values were counted under the field: one for each element of
    /// a sequence, one for any other value.
    pub total_count: usize,
    /// The texts that stand under the field, each once, in the order in which
    /// they were first met.
    pub unique_values: Vec<String>,
    /// How often each of the texts stands under the field.
    pub value_counts: StringMap<usize>,
}

impl FieldStats {
    /// How often `text` was counted.
    pub open spec fn count(&self, text: Seq<char>) -> nat {
        count_of(self.value_counts.entries(), text)
    }

    /// How many texts were counted, all together.
    pub open spec fn counted(&self) -> nat {
        sum_of_counts(self.value_counts.entries())
    }

    /// The count of the field is the sum of the counts of its texts, the
    /// list of texts is the list of the texts that were counted, and none of
    /// them was counted zero times.
    pub open spec fn is_consistent(&self) -> bool {
        &&& self.value_counts.wf()
        &&& self.total_count == self.counted()
        &&& string_views(self.unique_values@) == keys_of(self.value_counts.entries())
        &&& forall|i: int|
            0 <= i < self.value_counts.entries().len() ==> (
            #[trigger] self.value_counts.entries()[i]).1 > 0
    }

    /// Whether these are the statistics of the field `key` over `notes`.
    pub open spec fn describes(&self, notes: Seq<NoteView>, key: Seq<char>) -> bool {
        &&& self.is_consistent()
        &&& self.total_count == weight_total(notes, key)
        &&& forall|text: Seq<char>| #[trigger] self.count(text) == value_total(notes, key, text)
    }
}

/// One more text counts for one more where it is the text asked for.
pub proof fn lemma_occurrences_push(texts: Seq<Seq<char>>, last: Seq<char>, text: Seq<char>)
    ensures
        occurrences(texts.push(last), text) == occurrences(texts, text) + if last == text {
            1nat
        } else {
            0nat
        },
{
    assert(texts.push(last).drop_last() =~= texts);
}

/// The value at any place weighs no more than the whole metadata.
pub proof fn lemma_metadata_weight_bound(m: Metadata, i: int)
    requires
        0 <= i < m.len(),
    ensures
        counted_texts(m[i].1).len() <= metadata_weight(m),
    decreases m.len(),
{
    if i < m.len() - 1 {
        lemma_metadata_weight_bound(m.drop_last(), i);
    }
}

/// No more texts are counted under one key than under all together.
pub proof fn lemma_weight_total_bound(notes: Seq<NoteView>, key: Seq<char>)
    ensures
        weight_total(notes, key) <= total_weight(notes),
    decreases notes.len(),
{
    if notes.len() > 0 {
        lemma_weight_total_bound(notes.drop_last(), key);
        let m = notes.last().frontmatter;
        lemma_index_of_key_is_first(m, key);
        if has_key(m, key) {
            lemma_metadata_weight_bound(m, index_of_key(m, key) as int);
        }
    }
}

/// The first documents weigh no more than all of them.
pub proof fn lemma_total_weight_prefix(notes: Seq<NoteView>, n: int)
    requires
        0 <= n <= notes.len(),
    ensures
        total_weight(notes.take(n)) <= total_weight(notes),
    decreases notes.len(),
{
    if n < notes.len() {
        lemma_total_weight_prefix(notes.drop_last(), n);
        assert(notes.drop_last().take(n) =~= notes.take(n));
    } else {
        assert(notes.take(n) =~= notes);
    }
}

/// A key that no document has occurs in none, and nothing is counted under it.
pub proof fn lemma_absent_field(notes: Seq<NoteView>, key: Seq<char>, text: Seq<char>)
    requires
        !is_field(notes, key),
    ensures
        holders(notes, key) == 0,
        weight_total(notes, key) == 0,
        value_total(notes, key, text) == 0,
    decreases notes.len(),
{
    if notes.len() > 0 {
        let rest = notes.drop_last();
        assert(!has_key(notes[notes.len() - 1].frontmatter, key));
        assert(!is_field(rest, key)) by {
            if is_field(rest, key) {
                let w = choose|w: int|
                    0 <= w < rest.len() && has_key((#[trigger] rest[w]).frontmatter, key);
                assert(has_key(notes[w].frontmatter, key));
            }
        }
        lemma_absent_field(rest, key, text);
    }
}

impl FieldStats {
    /// The statistics of a field before anything was counted.
    pub fn new() -> (r: Self)
        ensures
            r.total_count == 0,
            r.unique_values@.len() == 0,
            r.value_counts.entries().len() == 0,
            r.is_consistent(),
            r.counted() == 0,
            forall|text: Seq<char>| #[trigger] r.count(text) == 0,
    {
        let r = FieldStats {
            total_count: 0,
            unique_values: Vec::new(),
            value_counts: StringMap::new(),
        };
        assert(string_views(r.unique_values@) =~= keys_of(r.value_counts.entries()));
        r
    }

    /// Counts `text` once more.
    fn add_text(&mut self, text: &String)
        requires
            old(self).is_consistent(),
            old(self).total_count < usize::MAX,
        ensures
            final(self).is_consistent(),
            final(self).total_count == old(self).total_count + 1,
            forall|t: Seq<char>|
                #[trigger] final(self).count(t) == old(self).count(t) + if t == text@ {
                    1nat
                } else {
                    0nat
                },
    {
        let ghost before = self.value_counts.entries();
        let ghost n = (count_of(before, text@) + 1) as usize;
        proof {
            lemma_index_of_key_is_first(before, text@);
            lemma_count_within_sum(before, text@);
        }
        if !self.value_counts.contains_key(text.as_str()) {
            self.unique_values.push(text.clone());
        }
        self.value_counts.add_one(text.as_str());
        self.total_count = self.total_count + 1;
        proof {
            let after = self.value_counts.entries();
            assert(after == with_entry(before, text@, n));
            lemma_sum_of_counts_add_one(before, text@);
            if has_key(before, text@) {
                assert(before[index_of_key(before, text@) as int].0 == text@);
                assert(keys_of(after) =~= keys_of(before));
            } else {
                assert(keys_of(after) =~= keys_of(before).push(text@));
                assert(string_views(self.unique_values@) =~= string_views(
                    old(self).unique_values@,
                ).push(text@));
            }
            assert forall|i: int| 0 <= i < after.len() implies (#[trigger] after[i]).1 > 0 by {
                if i < before.len() {
                    assert(before[i].1 > 0);
                }
            }
            assert forall|t: Seq<char>|
                #[trigger] self.count(t) == old(self).count(t) + if t == text@ {
                    1nat
                } else {
                    0nat
                } by {
                lemma_with_entry(before, text@, n, t);
            }
        }
    }

    /// Takes one more value that stands under the field into the statistics:
    /// each element of a sequence as its rendering, any other value as its
    /// own.
    pub fn increment(&mut self, value: &Value)
        requires
            old(self).is_consistent(),
            old(self).total_count + counted_texts(value@).len() <= usize::MAX,
        ensures
            final(self).is_consistent(),
            final(self).total_count == old(self).total_count + counted_texts(value@).len(),
            forall|t: Seq<char>|
                #[trigger] final(self).count(t) == old(self).count(t) + occurrences(
                    counted_texts(value@),
                    t,
                ),
    {
        let texts: Vec<String> = match value {
            Value::Array(items) => rendered_elements(items),
            _ => {
                let mut one: Vec<String> = Vec::new();
                let shown = yaml_to_string(value);
                one.push(shown);
                assert(string_views(one@) =~= seq![rendering(value@)]);
                one
            },
        };
        let ghost all = string_views(texts@);
        proof {
            if let Value::Array(items) = value {
                lemma_array_view(*items);
            }
            assert(all == counted_texts(value@));
            assert(all.take(0) =~= Seq::<Seq<char>>::empty());
        }
        let mut i: usize = 0;
        while i < texts.len()
            invariant
                i <= texts.len(),
                all == string_views(texts@),
                self.is_consistent(),
                old(self).total_count + texts.len() <= usize::MAX,
                self.total_count == old(self).total_count + i,
                forall|t: Seq<char>|
                    #[trigger] self.count(t) == old(self).count(t) + occurrences(
                        all.take(i as int),
                        t,
                    ),
            decreases texts.len() - i,
        {
            let ghost seen = all.take(i as int);
            let ghost next = all.take(i + 1);
            let ghost text = texts@[i as int]@;
            let ghost mid = *self;
            proof {
                assert(next =~= seen.push(text));
            }
            self.add_text(&texts[i]);
            proof {
                assert forall|t: Seq<char>|
                    #[trigger] self.count(t) == old(self).count(t) + occurrences(next, t) by {
                    lemma_occurrences_push(seen, text, t);
                    assert(mid.count(t) == old(self).count(t) + occurrences(seen, t));
                }
            }
            i += 1;
        }
        assert(all.take(i as int) =~= all);
    }
}

/// The renderings of the elements of a sequence.
fn rendered_elements(items: &Vec<Value>) -> (texts: Vec<String>)
    ensures
        string_views(texts@) == rendered_items(yaml_views(items@)),
{
    let mut texts: Vec<String> = Vec::new();
    let mut i: usize = 0;
    while i < items.len()
        invariant
            i <= items.len(),
            texts.len() == i,
            forall|j: int| 0 <= j < i ==> (#[trigger] texts@[j])@ == rendering(items@[j]@),
        decreases items.len() - i,
    {
        texts.push(yaml_to_string(&items[i]));
        i += 1;
    }
    assert(string_views(texts@) =~= rendered_items(yaml_views(items@)));
    texts
}

/// How many texts the first `n` entries of the metadata of one document add
/// under `key`.
pub open spec fn partial_weight(m: Metadata, n: int, key: Seq<char>) -> nat {
    if has_key_before(m, n, key) {
        weight_in(m, key)
    } else {
        0
    }
}

/// How often `text` is counted under `key` by the first `n` entries of the
/// metadata of one document.
pub open spec fn partial_counted(m: Metadata, n: int, key: Seq<char>, text: Seq<char>) -> nat {
    if has_key_before(m, n, key) {
        counted_in(m, key, text)
    } else {
        0
    }
}

impl FieldStats {
    /// Whether these are the statistics of the field `key` over `notes` and
    /// the first `n` entries of the metadata `m` of one more document.
    pub open spec fn describes_partly(
        &self,
        notes: Seq<NoteView>,
        m: Metadata,
        n: int,
        key: Seq<char>,
    ) -> bool {
        &&& self.is_consistent()
        &&& self.total_count == weight_total(notes, key) + partial_weight(m, n, key)
        &&& forall|text: Seq<char>| #[trigger]
            self.count(text) == value_total(notes, key, text) + partial_counted(m, n, key, text)
    }
}

/// The statistics that stand under `key`, or those of a field of which
/// nothing was counted yet.
pub open spec fn total_under(stats: Seq<(Seq<char>, FieldStats)>, key: Seq<char>) -> nat {
    match lookup(stats, key) {
        Some(s) => s.total_count as nat,
        None => 0,
    }
}

/// How often `text` was counted under `key` so far.
pub open spec fn count_under(stats: Seq<(Seq<char>, FieldStats)>, key: Seq<char>, text: Seq<char>) -> nat {
    match lookup(stats, key) {
        Some(s) => s.count(text),
        None => 0,
    }
}

/// Takes the value that one document holds under `key` into the statistics
/// of that field, which are begun where the field was not met before.
fn record_value(stats: &mut StringMap<FieldStats>, key: &String, value: &Value)
    requires
        total_under(old(stats).entries(), key@) + counted_texts(value@).len() <= usize::MAX,
        has_key(old(stats).entries(), key@) ==> lookup(
            old(stats).entries(),
            key@,
        )->0.is_consistent(),
    ensures
        final(stats).entries().len() == if has_key(old(stats).entries(), key@) {
            old(stats).entries().len()
        } else {
            old(stats).entries().len() + 1
        },
        forall|k: int|
            0 <= k < old(stats).entries().len() && k != index_of_key(old(stats).entries(), key@)
                ==> #[trigger] final(stats).entries()[k] == old(stats).entries()[k],
        index_of_key(final(stats).entries(), key@) == index_of_key(old(stats).entries(), key@),
        has_key(final(stats).entries(), key@),
        lookup(final(stats).entries(), key@)->0.is_consistent(),
        total_under(final(stats).entries(), key@) == total_under(old(stats).entries(), key@)
            + counted_texts(value@).len(),
        forall|t: Seq<char>|
            #[trigger] count_under(final(stats).entries(), key@, t) == count_under(
                old(stats).entries(),
                key@,
                t,
            ) + occurrences(counted_texts(value@), t),
{
    let ghost before = stats.entries();
    proof {
        lemma_index_of_key_is_first(before, key@);
    }
    let at = stats.position(key.as_str());
    if at == stats.len() {
        let fresh = FieldStats::new();
        stats.insert(key.clone(), fresh);
        proof {
            assert(stats.entries() == before.push((key@, fresh)));
            assert forall|j: int| 0 <= j < at implies (#[trigger] stats.entries()[j]).0 != key@ by {
                assert(before[j].0 != key@);
            }
            lemma_index_of_key(stats.entries(), key@, at as int);
            assert forall|t: Seq<char>| #[trigger] fresh.count(t) == 0 by {}
        }
    }
    let ghost begun = stats.entries();
    let mut current = stats.replace_at(at, FieldStats::new());
    proof {
        assert(current == begun[at as int].1);
        assert(current.total_count == total_under(before, key@));
    }
    let ghost taken = current;
    current.increment(value);
    stats.replace_at(at, current);
    proof {
        let after = stats.entries();
        assert(after =~= begun.update(at as int, (key@, current)));
        assert forall|j: int| 0 <= j < at implies (#[trigger] after[j]).0 != key@ by {
            assert(before[j].0 != key@);
        }
        lemma_index_of_key(after, key@, at as int);
        assert forall|t: Seq<char>|
            #[trigger] count_under(after, key@, t) == count_under(before, key@, t) + occurrences(
                counted_texts(value@),
                t,
            ) by {
            assert(current.count(t) == taken.count(t) + occurrences(counted_texts(value@), t));
            assert(taken.count(t) == count_under(before, key@, t));
        }
    }
}

/// Whether the map holds, for the keys among its entries, the statistics of
/// those fields over `notes` and the first `n` entries of the metadata `m`.
pub open spec fn describes_all_partly(
    stats: Seq<(Seq<char>, FieldStats)>,
    notes: Seq<NoteView>,
    m: Metadata,
    n: int,
) -> bool {
    &&& forall|key: Seq<char>| #[trigger]
        has_key(stats, key) <==> (is_field(notes, key) || has_key_before(m, n, key))
    &&& forall|k: int|
        0 <= k < stats.len() ==> (#[trigger] stats[k]).1.describes_partly(notes, m, n, stats[k].0)
}

/// Whether the map holds the statistics of every field of `notes`, and of no
/// other key.
pub open spec fn describes_all(stats: Seq<(Seq<char>, FieldStats)>, notes: Seq<NoteView>) -> bool {
    &&& forall|key: Seq<char>| #[trigger] has_key(stats, key) <==> is_field(notes, key)
    &&& forall|k: int| 0 <= k < stats.len() ==> (#[trigger] stats[k]).1.describes(notes, stats[k].0)
}

/// In the statistics of the documents, the count of a field is the number of
/// values counted under the key over the documents: for each document that
/// has the key, one for each element of a sequence and one for any other
/// value. The counts of the texts under the field add up to the same number,
/// and the count of one text is the number of times it is among them. A key
/// that no document has has no statistics.
pub proof fn lemma_statistics_count_documents_and_elements(
    stats: Seq<(Seq<char>, FieldStats)>,
    notes: Seq<NoteView>,
    key: Seq<char>,
    text: Seq<char>,
)
    requires
        describes_all(stats, notes),
    ensures
        lookup(stats, key) is Some <==> is_field(notes, key),
        is_field(notes, key) ==> {
            &&& lookup(stats, key)->0.total_count == weight_total(notes, key)
            &&& lookup(stats, key)->0.counted() == weight_total(notes, key)
            &&& lookup(stats, key)->0.count(text) == value_total(notes, key, text)
        },
{
    lemma_index_of_key_is_first(stats, key);
    assert(has_key(stats, key) <==> is_field(notes, key));
    if is_field(notes, key) {
        let at = index_of_key(stats, key) as int;
        assert(stats[at].1.describes(notes, stats[at].0));
        assert(stats[at].1.count(text) == value_total(notes, key, text));
    }
}

/// A document with a sequence under a key adds to the count of the field one
/// for each element of the sequence, not one for the document, and to the
/// count of a text one for each element that renders as that text.
pub proof fn lemma_sequence_counts_each_element(
    notes: Seq<NoteView>,
    note: NoteView,
    key: Seq<char>,
    items: Seq<ValueView>,
    text: Seq<char>,
)
    requires
        lookup(note.frontmatter, key) == Some(ValueView::Array(items)),
    ensures
        weight_total(notes.push(note), key) == weight_total(notes, key) + items.len(),
        value_total(notes.push(note), key, text) == value_total(notes, key, text) + occurrences(
            rendered_items(items),
            text,
        ),
{
    assert(notes.push(note).drop_last() =~= notes);
}

/// Whether no document holds a sequence under the key.
pub open spec fn holds_no_sequence(notes: Seq<NoteView>, key: Seq<char>) -> bool {
    forall|i: int|
        0 <= i < notes.len() ==> !(lookup((#[trigger] notes[i]).frontmatter, key) matches Some(
            v,
        ) && v is Array)
}

/// Where no document holds a sequence under a key, as many values are
/// counted under it as there are documents that have it.
pub proof fn lemma_weight_without_sequences(notes: Seq<NoteView>, key: Seq<char>)
    requires
        holds_no_sequence(notes, key),
    ensures
        weight_total(notes, key) == holders(notes, key),
        holders(notes, key) <= notes.len(),
    decreases notes.len(),
{
    if notes.len() > 0 {
        let rest = notes.drop_last();
        assert forall|i: int| 0 <= i < rest.len() implies !(lookup(
            (#[trigger] rest[i]).frontmatter,
            key,
        ) matches Some(v) && v is Array) by {
            assert(rest[i] == notes[i]);
        }
        lemma_weight_without_sequences(rest, key);
        assert(notes.last() == notes[notes.len() - 1]);
    }
}

/// Where no document holds a sequence under a key, the count of the field
/// is the number of documents that have the key.
pub proof fn lemma_plain_field_counts_documents(
    stats: Seq<(Seq<char>, FieldStats)>,
    notes: Seq<NoteView>,
    key: Seq<char>,
)
    requires
        describes_all(stats, notes),
        is_field(notes, key),
        holds_no_sequence(notes, key),
    ensures
        lookup(stats, key) is Some,
        lookup(stats, key)->0.total_count == holders(notes, key),
{
    lemma_statistics_count_documents_and_elements(stats, notes, key, Seq::empty());
    lemma_weight_without_sequences(notes, key);
}

/// One more document adds to a field what it holds under the key.
pub proof fn lemma_next_note(prev: Seq<NoteView>, note: NoteView, key: Seq<char>)
    ensures
        is_field(prev.push(note), key) <==> (is_field(prev, key) || has_key(note.frontmatter, key)),
        weight_total(prev.push(note), key) == weight_total(prev, key) + partial_weight(
            note.frontmatter,
            note.frontmatter.len() as int,
            key,
        ),
        forall|text: Seq<char>| #[trigger]
            value_total(prev.push(note), key, text) == value_total(prev, key, text)
                + partial_counted(note.frontmatter, note.frontmatter.len() as int, key, text),
{
    let next = prev.push(note);
    assert(next.drop_last() =~= prev);
    lemma_index_of_key_is_first(note.frontmatter, key);
    if is_field(next, key) {
        let w = choose|w: int| 0 <= w < next.len() && has_key((#[trigger] next[w]).frontmatter, key);
        if w < prev.len() {
            assert(has_key(prev[w].frontmatter, key));
        }
    }
    if is_field(prev, key) {
        let w = choose|w: int| 0 <= w < prev.len() && has_key((#[trigger] prev[w]).frontmatter, key);
        assert(has_key(next[w].frontmatter, key));
    }
    if has_key(note.frontmatter, key) {
        assert(has_key(next[prev.len() as int].frontmatter, key));
    }
}

/// The statistics of every field over the documents: how many values stand
/// under it, which texts they are, and how often each. A sequence counts once
/// for each of its elements, as the rendering of the element; anything else
/// once, as its own rendering. The number of texts counted has to fit the
/// machine's word.
pub fn get_field_statistics(notes: &[Note]) -> (stats: StringMap<FieldStats>)
    requires
        total_weight(note_views(notes@)) <= usize::MAX,
    ensures
        describes_all(stats.entries(), note_views(notes@)),
{
    let mut stats: StringMap<FieldStats> = StringMap::new();
    let ghost all = note_views(notes@);
    let mut i: usize = 0;
    proof {
        assert(all.take(0) =~= Seq::<NoteView>::empty());
    }
    while i < notes.len()
        invariant
            i <= notes.len(),
            all == note_views(notes@),
            total_weight(all) <= usize::MAX,
            describes_all(stats.entries(), all.take(i as int)),
        decreases notes.len() - i,
    {
        let note = &notes[i];
        let ghost prev = all.take(i as int);
        let ghost m = all[i as int].frontmatter;
        proof {
            use_type_invariant(&note.frontmatter);
            assert(m == metadata_view(note.frontmatter.entries()));
            let before = stats.entries();
            assert forall|k: int| 0 <= k < before.len() implies (
            #[trigger] before[k]).1.describes_partly(prev, m, 0, before[k].0) by {
                assert(before[k].1.describes(prev, before[k].0));
            }
        }
        let mut j: usize = 0;
        while j < note.frontmatter.len()
            invariant
                j <= note.frontmatter.entries().len(),
                i < notes.len(),
                all == note_views(notes@),
                note == &notes@[i as int],
                prev == all.take(i as int),
                m == all[i as int].frontmatter,
                m == metadata_view(note.frontmatter.entries()),
                note.frontmatter.wf(),
                total_weight(all) <= usize::MAX,
                describes_all_partly(stats.entries(), prev, m, j as int),
            decreases note.frontmatter.entries().len() - j,
        {
            let key = note.frontmatter.key_at(j);
            let value = note.frontmatter.value_at(j);
            let ghost before = stats.entries();
            proof {
                let entries = note.frontmatter.entries();
                assert(m[j as int] == (key@, value@));
                assert forall|e: int| 0 <= e < j implies (#[trigger] m[e]).0 != key@ by {
                    assert(entries[e].0 != entries[j as int].0);
                }
                lemma_index_of_key(m, key@, j as int);
                lemma_index_of_key_is_first(before, key@);
                assert(!has_key_before(m, j as int, key@));
                assert(lookup(m, key@) == Some(value@));
                if has_key(before, key@) {
                    let at = index_of_key(before, key@) as int;
                    assert(before[at].1.describes_partly(prev, m, j as int, before[at].0));
                } else {
                    assert(!is_field(prev, key@));
                    lemma_absent_field(prev, key@, Seq::empty());
                }
                lemma_next_note(prev, all[i as int], key@);
                assert(all.take(i + 1) =~= prev.push(all[i as int]));
                assert(weight_total(all.take(i + 1), key@) == weight_total(prev, key@)
                    + counted_texts(value@).len());
                lemma_weight_total_bound(all.take(i + 1), key@);
                lemma_total_weight_prefix(all, i + 1);
            }
            record_value(&mut stats, key, value);
            proof {
                use_type_invariant(&stats);
                let after = stats.entries();
                let at = index_of_key(before, key@) as int;
                lemma_index_of_key_is_first(after, key@);
                assert forall|k: Seq<char>| #[trigger]
                    has_key(after, k) <==> (is_field(prev, k) || has_key_before(m, j + 1, k)) by {
                    lemma_index_of_key_is_first(before, k);
                    lemma_index_of_key_is_first(after, k);
                    lemma_index_of_key_is_first(m, k);
                    assert(has_key(before, k) <==> (is_field(prev, k) || has_key_before(
                        m,
                        j as int,
                        k,
                    )));
                    if k != key@ {
                        let b = index_of_key(before, k) as int;
                        let a = index_of_key(after, k) as int;
                        if b < before.len() {
                            assert(after[b] == before[b]);
                            if a > b {
                                assert(after[b].0 != k);
                            }
                        }
                        if a < after.len() {
                            if a < before.len() {
                                assert(after[a] == before[a]);
                                if b > a {
                                    assert(before[a].0 != k);
                                }
                            } else {
                                assert(a == at);
                            }
                        }
                        if index_of_key(m, k) == j {
                            assert(m[j as int].0 == k);
                        }
                    }
                }
                assert forall|k: int| 0 <= k < after.len() implies (
                #[trigger] after[k]).1.describes_partly(prev, m, j + 1, after[k].0) by {
                    if k == at {
                        let s = after[k].1;
                        assert(after[k].0 == key@);
                        assert(lookup(after, key@) == Some(s));
                        assert(s.total_count == total_under(after, key@));
                        if has_key(before, key@) {
                            assert(before[at].1.describes_partly(prev, m, j as int, key@));
                        } else {
                            lemma_absent_field(prev, key@, Seq::empty());
                        }
                        assert forall|t: Seq<char>| #[trigger]
                            s.count(t) == value_total(prev, key@, t) + partial_counted(
                                m,
                                j + 1,
                                key@,
                                t,
                            ) by {
                            assert(s.count(t) == count_under(after, key@, t));
                            assert(count_under(after, key@, t) == count_under(before, key@, t)
                                + occurrences(counted_texts(value@), t));
                            if has_key(before, key@) {
                                assert(before[at].1.count(t) == value_total(prev, key@, t)
                                    + partial_counted(m, j as int, key@, t));
                            } else {
                                lemma_absent_field(prev, key@, t);
                            }
                        }
                    } else {
                        assert(after[k] == before[k]);
                        let other = before[k].0;
                        assert(before[k].1.describes_partly(prev, m, j as int, other));
                        lemma_index_of_key_is_first(before, other);
                        assert(other != key@) by {
                            if other == key@ {
                                if at < before.len() {
                                    if k < at {
                                        assert(before[k].0 != key@);
                                    } else {
                                        assert(after[at].0 == key@);
                                        assert(after[k].0 == key@);
                                    }
                                } else {
                                    assert(before[k].0 != key@);
                                }
                            }
                        }
                        lemma_index_of_key_is_first(m, other);
                        if index_of_key(m, other) == j {
                            assert(m[j as int].0 == other);
                        }
                        assert(has_key_before(m, j + 1, other) == has_key_before(
                            m,
                            j as int,
                            other,
                        ));
                    }
                }
            }
            j += 1;
        }
        proof {
            let now = stats.entries();
            let next = all.take(i + 1);
            assert(next =~= prev.push(all[i as int]));
            assert forall|key: Seq<char>| #[trigger] has_key(now, key) <==> is_field(next, key) by {
                lemma_next_note(prev, all[i as int], key);
                assert(has_key(now, key) <==> (is_field(prev, key) || has_key_before(
                    m,
                    m.len() as int,
                    key,
                )));
                lemma_index_of_key_is_first(m, key);
            }
            assert forall|k: int| 0 <= k < now.len() implies (#[trigger] now[k]).1.describes(
                next,
                now[k].0,
            ) by {
                let key = now[k].0;
                let s = now[k].1;
                assert(s.describes_partly(prev, m, m.len() as int, key));
                lemma_next_note(prev, all[i as int], key);
                assert forall|text: Seq<char>| #[trigger]
                    s.count(text) == value_total(next, key, text) by {
                    assert(s.count(text) == value_total(prev, key, text) + partial_counted(
                        m,
                        m.len() as int,
                        key,
                        text,
                    ));
                }
            }
        }
        i += 1;
    }
    proof {
        assert(all.take(i as int) =~= all);
    }
    stats
}

/// How many texts a value adds to the statistics.
fn weight_of(value: &Value) -> (n: usize)
    ensures
        n == counted_texts(value@).len(),
{
    match value {
        Value::Array(items) => {
            proof {
                lemma_array_view(*items);
            }
            items.len()
        },
        _ => 1,
    }
}

/// Whether the number of texts that the documents add to the statistics
/// fits the machine's word, as `get_field_statistics` asks.
pub fn statistics_fit(notes: &[Note]) -> (fit: bool)
    ensures
        fit == (total_weight(note_views(notes@)) <= usize::MAX),
{
    let ghost all = note_views(notes@);
    let mut total: usize = 0;
    let mut i: usize = 0;
    proof {
        assert(all.take(0) =~= Seq::<NoteView>::empty());
    }
    while i < notes.len()
        invariant
            i <= notes.len(),
            all == note_views(notes@),
            total == total_weight(all.take(i as int)),
        decreases notes.len() - i,
    {
        let note = &notes[i];
        let ghost m = all[i as int].frontmatter;
        let ghost before = total;
        let mut j: usize = 0;
        proof {
            assert(m.take(0) =~= Seq::<(Seq<char>, ValueView)>::empty());
            assert(all.take(i + 1).drop_last() =~= all.take(i as int));
        }
        while j < note.frontmatter.len()
            invariant
                j <= note.frontmatter.entries().len(),
                i < notes.len(),
                all == note_views(notes@),
                note == &notes@[i as int],
                m == all[i as int].frontmatter,
                m == metadata_view(note.frontmatter.entries()),
                before == total_weight(all.take(i as int)),
                total == before + metadata_weight(m.take(j as int)),
            decreases note.frontmatter.entries().len() - j,
        {
            let w = weight_of(note.frontmatter.value_at(j));
            proof {
                assert(m.take(j + 1).drop_last() =~= m.take(j as int));
                assert(m.take(j + 1).last().1 == note.frontmatter.entries()[j as int].1@);
            }
            if w > usize::MAX - total {
                proof {
                    lemma_metadata_weight_prefix(m, j + 1);
                    lemma_total_weight_prefix(all, i + 1);
                    assert(all.take(i + 1).drop_last() =~= all.take(i as int));
                    assert(all.take(i + 1).last() == all[i as int]);
                    assert(total_weight(all.take(i + 1)) == before + metadata_weight(m));
                }
                return false;
            }
            total = total + w;
            j += 1;
        }
        proof {
            assert(m.take(j as int) =~= m);
            assert(all.take(i + 1).drop_last() =~= all.take(i as int));
            assert(all.take(i + 1).last() == all[i as int]);
        }
        i += 1;
    }
    proof {
        assert(all.take(i as int) =~= all);
    }
    true
}

/// The first entries weigh no more than all of them.
pub proof fn lemma_metadata_weight_prefix(m: Metadata, n: int)
    requires
        0 <= n <= m.len(),
    ensures
        metadata_weight(m.take(n)) <= metadata_weight(m),
    decreases m.len(),
{
    if n < m.len() {
        lemma_metadata_weight_prefix(m.drop_last(), n);
        assert(m.drop_last().take(n) =~= m.take(n));
    } else {
        assert(m.take(n) =~= m);
    }
}

} // verus!
