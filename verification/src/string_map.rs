//! A map from strings to values that remembers the order in which its keys
//! arrived.
//!
//! Contracts speak of such a map as the sequence of its entries, each key
//! taken by its view. No key stands in it twice; the first entry is the one
//! that was inserted first.

use vstd::prelude::*;
use crate::text::{lowercase, lowercase_chars, same_str, same_text};

verus! {

/// No key stands in `s` twice.
pub open spec fn distinct_keys<V>(s: Seq<(Seq<char>, V)>) -> bool {
    forall|i: int, j: int| 0 <= i < j < s.len() ==> (#[trigger] s[i]).0 != (#[trigger] s[j]).0
}

/// The index of the first entry of `s` with the key `key`, or the length of
/// `s` where there is none.
pub open spec fn index_of_key<V>(s: Seq<(Seq<char>, V)>, key: Seq<char>) -> nat
    decreases s.len(),
{
    if s.len() > 0 && s[0].0 != key {
        1 + index_of_key(s.drop_first(), key)
    } else {
        0
    }
}

/// Whether `s` has an entry with the key `key`.
pub open spec fn has_key<V>(s: Seq<(Seq<char>, V)>, key: Seq<char>) -> bool {
    index_of_key(s, key) < s.len()
}

/// Whether one of the first `n` entries of `s` has the key `key`.
pub open spec fn has_key_before<V>(s: Seq<(Seq<char>, V)>, n: int, key: Seq<char>) -> bool {
    index_of_key(s, key) < n && has_key(s, key)
}

/// The value that `s` holds under `key`.
pub open spec fn lookup<V>(s: Seq<(Seq<char>, V)>, key: Seq<char>) -> Option<V> {
    if has_key(s, key) {
        Some(s[index_of_key(s, key) as int].1)
    } else {
        None
    }
}

/// The index of the first entry of `s` whose key is `key` when both are taken
/// in lowercase, or the length of `s` where there is none.
pub open spec fn index_ignoring_case<V>(s: Seq<(Seq<char>, V)>, key: Seq<char>) -> nat
    decreases s.len(),
{
    if s.len() > 0 && lowercase(s[0].0) != lowercase(key) {
        1 + index_ignoring_case(s.drop_first(), key)
    } else {
        0
    }
}

/// The value that `s` holds under `key` whatever the case of its letters: the
/// value under `key` itself where there is one, or else that of the first
/// entry whose key is `key` in lowercase. Where several keys agree with `key`
/// in lowercase and none is `key` itself, the entry that arrived first wins.
pub open spec fn lookup_ignoring_case<V>(s: Seq<(Seq<char>, V)>, key: Seq<char>) -> Option<V> {
    if has_key(s, key) {
        lookup(s, key)
    } else if index_ignoring_case(s, key) < s.len() {
        Some(s[index_ignoring_case(s, key) as int].1)
    } else {
        None
    }
}

/// `m` after `value` was put under `key`: in the place of the entry with that
/// key, or else at the end.
pub open spec fn with_entry<V>(m: Seq<(Seq<char>, V)>, key: Seq<char>, value: V) -> Seq<
    (Seq<char>, V),
> {
    if has_key(m, key) {
        m.update(index_of_key(m, key) as int, (key, value))
    } else {
        m.push((key, value))
    }
}

/// The number that `m` holds under `key`, or zero.
pub open spec fn count_of(m: Seq<(Seq<char>, usize)>, key: Seq<char>) -> nat {
    match lookup(m, key) {
        Some(n) => n as nat,
        None => 0,
    }
}

/// The numbers that `m` holds, added up.
pub open spec fn sum_of_counts(m: Seq<(Seq<char>, usize)>) -> nat
    decreases m.len(),
{
    if m.len() == 0 {
        0
    } else {
        sum_of_counts(m.drop_last()) + m.last().1 as nat
    }
}

/// No number that `m` holds is more than the sum of them all.
pub proof fn lemma_entry_within_sum(m: Seq<(Seq<char>, usize)>, i: int)
    requires
        0 <= i < m.len(),
    ensures
        m[i].1 <= sum_of_counts(m),
    decreases m.len(),
{
    if i < m.len() - 1 {
        lemma_entry_within_sum(m.drop_last(), i);
    }
}

/// Nothing was counted more often under one key than under all together.
pub proof fn lemma_count_within_sum(m: Seq<(Seq<char>, usize)>, key: Seq<char>)
    ensures
        count_of(m, key) <= sum_of_counts(m),
{
    lemma_index_of_key_is_first(m, key);
    if has_key(m, key) {
        lemma_entry_within_sum(m, index_of_key(m, key) as int);
    }
}

/// A number in the place of another changes the sum by their difference.
pub proof fn lemma_sum_of_counts_update(m: Seq<(Seq<char>, usize)>, i: int, entry: (Seq<char>, usize))
    requires
        0 <= i < m.len(),
    ensures
        sum_of_counts(m.update(i, entry)) + m[i].1 == sum_of_counts(m) + entry.1,
    decreases m.len(),
{
    let after = m.update(i, entry);
    if i == m.len() - 1 {
        assert(after.drop_last() =~= m.drop_last());
    } else {
        lemma_sum_of_counts_update(m.drop_last(), i, entry);
        assert(after.drop_last() =~= m.drop_last().update(i, entry));
    }
}

/// Counting one more under a key adds one to the sum.
pub proof fn lemma_sum_of_counts_add_one(m: Seq<(Seq<char>, usize)>, key: Seq<char>)
    requires
        count_of(m, key) < usize::MAX,
    ensures
        sum_of_counts(with_entry(m, key, (count_of(m, key) + 1) as usize)) == sum_of_counts(m) + 1,
{
    let n = (count_of(m, key) + 1) as usize;
    let after = with_entry(m, key, n);
    lemma_index_of_key_is_first(m, key);
    if has_key(m, key) {
        lemma_sum_of_counts_update(m, index_of_key(m, key) as int, (key, n));
    } else {
        assert(after.drop_last() =~= m);
    }
}

/// Putting a value under a key changes what stands under that key and
/// nothing else.
pub proof fn lemma_with_entry<V>(m: Seq<(Seq<char>, V)>, key: Seq<char>, value: V, other: Seq<char>)
    requires
        distinct_keys(m),
    ensures
        distinct_keys(with_entry(m, key, value)),
        lookup(with_entry(m, key, value), key) == Some(value),
        other != key ==> lookup(with_entry(m, key, value), other) == lookup(m, other),
        other != key ==> has_key(with_entry(m, key, value), other) == has_key(m, other),
{
    let after = with_entry(m, key, value);
    lemma_index_of_key_is_first(m, key);
    lemma_index_of_key_is_first(m, other);
    let k = index_of_key(m, key) as int;
    assert forall|a: int, b: int| 0 <= a < b < after.len() implies (#[trigger] after[a]).0 != (
    #[trigger] after[b]).0 by {
        if b < m.len() {
            assert(m[a].0 != m[b].0);
        } else {
            assert(m[a].0 != key);
        }
    }
    assert forall|j: int| 0 <= j < k implies (#[trigger] after[j]).0 != key by {
        assert(m[j].0 != key);
    }
    lemma_index_of_key(after, key, k);
    if other != key {
        let o = index_of_key(m, other) as int;
        if o < m.len() {
            assert forall|j: int| 0 <= j < o implies (#[trigger] after[j]).0 != other by {
                assert(m[j].0 != other);
            }
            lemma_index_of_key(after, other, o);
        } else {
            assert forall|j: int| 0 <= j < after.len() implies (#[trigger] after[j]).0
                != other by {
                if j < m.len() {
                    assert(m[j].0 != other);
                }
            }
            lemma_index_of_key(after, other, after.len() as int);
        }
    }
}

/// The keys of `s`, in its order.
pub open spec fn keys_of<V>(s: Seq<(Seq<char>, V)>) -> Seq<Seq<char>> {
    s.map_values(|e: (Seq<char>, V)| e.0)
}

/// No entry with the key before `k`, and one at `k` or the end of `s` there,
/// makes `k` what `index_of_key` returns.
pub proof fn lemma_index_of_key<V>(s: Seq<(Seq<char>, V)>, key: Seq<char>, k: int)
    requires
        0 <= k <= s.len(),
        forall|j: int| 0 <= j < k ==> (#[trigger] s[j]).0 != key,
        k < s.len() ==> s[k].0 == key,
    ensures
        index_of_key(s, key) == k,
    decreases k,
{
    if k > 0 {
        lemma_index_of_key(s.drop_first(), key, k - 1);
    }
}

/// What `index_of_key` returns is the first entry with the key, or the length.
pub proof fn lemma_index_of_key_is_first<V>(s: Seq<(Seq<char>, V)>, key: Seq<char>)
    ensures
        index_of_key(s, key) <= s.len(),
        forall|j: int| 0 <= j < index_of_key(s, key) ==> (#[trigger] s[j]).0 != key,
        index_of_key(s, key) < s.len() ==> s[index_of_key(s, key) as int].0 == key,
    decreases s.len(),
{
    if s.len() > 0 && s[0].0 != key {
        let t = s.drop_first();
        lemma_index_of_key_is_first(t, key);
        assert forall|j: int| 0 <= j < index_of_key(s, key) implies (#[trigger] s[j]).0 != key by {
            if j > 0 {
                assert(s[j] == t[j - 1]);
            }
        }
    }
}

/// No entry with the key in lowercase before `k`, and one at `k` or the end
/// of `s` there, makes `k` what `index_ignoring_case` returns.
pub proof fn lemma_index_ignoring_case<V>(s: Seq<(Seq<char>, V)>, key: Seq<char>, k: int)
    requires
        0 <= k <= s.len(),
        forall|j: int| 0 <= j < k ==> lowercase((#[trigger] s[j]).0) != lowercase(key),
        k < s.len() ==> lowercase(s[k].0) == lowercase(key),
    ensures
        index_ignoring_case(s, key) == k,
    decreases k,
{
    if k > 0 {
        lemma_index_ignoring_case(s.drop_first(), key, k - 1);
    }
}

/// What `index_ignoring_case` returns is the first entry with the key in
/// lowercase, or the length.
pub proof fn lemma_index_ignoring_case_is_first<V>(s: Seq<(Seq<char>, V)>, key: Seq<char>)
    ensures
        index_ignoring_case(s, key) <= s.len(),
        forall|j: int|
            0 <= j < index_ignoring_case(s, key) ==> lowercase((#[trigger] s[j]).0) != lowercase(
                key,
            ),
        index_ignoring_case(s, key) < s.len() ==> lowercase(
            s[index_ignoring_case(s, key) as int].0,
        ) == lowercase(key),
    decreases s.len(),
{
    if s.len() > 0 && lowercase(s[0].0) != lowercase(key) {
        let t = s.drop_first();
        lemma_index_ignoring_case_is_first(t, key);
        assert forall|j: int| 0 <= j < index_ignoring_case(s, key) implies lowercase(
            (#[trigger] s[j]).0,
        ) != lowercase(key) by {
            if j > 0 {
                assert(s[j] == t[j - 1]);
            }
        }
    }
}

/// A key that stands in the map is found under any query that is the key in
/// lowercase, whatever the case of the letters of the query.
pub proof fn lemma_found_whatever_the_case<V>(
    s: Seq<(Seq<char>, V)>,
    key: Seq<char>,
    query: Seq<char>,
)
    requires
        has_key(s, key),
        lowercase(query) == lowercase(key),
    ensures
        lookup_ignoring_case(s, query) is Some,
{
    lemma_index_of_key_is_first(s, key);
    lemma_index_ignoring_case_is_first(s, query);
    let at = index_of_key(s, key) as int;
    if index_ignoring_case(s, query) >= s.len() {
        assert(lowercase(s[at].0) != lowercase(query));
    }
    lemma_index_of_key_is_first(s, query);
}

/// Two queries that agree in lowercase find a value in the same maps.
pub proof fn lemma_same_lowercase_same_finding<V>(
    s: Seq<(Seq<char>, V)>,
    first: Seq<char>,
    second: Seq<char>,
)
    requires
        lowercase(first) == lowercase(second),
    ensures
        lookup_ignoring_case(s, first) is Some <==> lookup_ignoring_case(s, second) is Some,
{
    lemma_index_of_key_is_first(s, first);
    lemma_index_of_key_is_first(s, second);
    lemma_index_ignoring_case_is_first(s, first);
    lemma_index_ignoring_case_is_first(s, second);
    if has_key(s, first) {
        lemma_found_whatever_the_case(s, first, second);
    }
    if has_key(s, second) {
        lemma_found_whatever_the_case(s, second, first);
    }
    let a = index_ignoring_case(s, first) as int;
    let b = index_ignoring_case(s, second) as int;
    if a < s.len() && b >= s.len() {
        assert(lowercase(s[a].0) != lowercase(second));
    }
    if b < s.len() && a >= s.len() {
        assert(lowercase(s[b].0) != lowercase(first));
    }
}

/// No two keys of `s` agree in lowercase.
pub open spec fn one_spelling_each<V>(s: Seq<(Seq<char>, V)>) -> bool {
    forall|i: int, j: int|
        0 <= i < j < s.len() ==> lowercase((#[trigger] s[i]).0) != lowercase((#[trigger] s[j]).0)
}

/// Where no two keys agree in lowercase, two queries that do find the same
/// value.
pub proof fn lemma_same_lowercase_same_value<V>(
    s: Seq<(Seq<char>, V)>,
    first: Seq<char>,
    second: Seq<char>,
)
    requires
        one_spelling_each(s),
        lowercase(first) == lowercase(second),
    ensures
        lookup_ignoring_case(s, first) == lookup_ignoring_case(s, second),
{
    lemma_index_of_key_is_first(s, first);
    lemma_index_of_key_is_first(s, second);
    lemma_index_ignoring_case_is_first(s, first);
    lemma_index_ignoring_case_is_first(s, second);
    let a = index_ignoring_case(s, first) as int;
    let b = index_ignoring_case(s, second) as int;
    if a < s.len() && b > a {
        assert(lowercase(s[a].0) != lowercase(second));
    }
    if b < s.len() && a > b {
        assert(lowercase(s[b].0) != lowercase(first));
    }
    let x = index_of_key(s, first) as int;
    let y = index_of_key(s, second) as int;
    if x < s.len() {
        if a > x {
            assert(lowercase(s[x].0) != lowercase(first));
        }
        if a < x {
            assert(lowercase(s[a].0) != lowercase(s[x].0));
        }
    }
    if y < s.len() {
        if b > y {
            assert(lowercase(s[y].0) != lowercase(second));
        }
        if b < y {
            assert(lowercase(s[b].0) != lowercase(s[y].0));
        }
    }
}

/// The entries held in a vector, each key taken by its view.
pub open spec fn entry_views<V>(entries: Seq<(String, V)>) -> Seq<(Seq<char>, V)> {
    entries.map_values(|e: (String, V)| (e.0@, e.1))
}

/// A map from strings to values, in the order in which its keys arrived.
#[derive(Debug)]
pub struct StringMap<V> {
    entries: Vec<(String, V)>,
}

impl<V> StringMap<V> {
    /// The entries, each key taken by its view.
    pub closed spec fn entries(&self) -> Seq<(Seq<char>, V)> {
        entry_views(self.entries@)
    }

    /// No key stands in the map twice.
    #[verifier::type_invariant]
    pub open spec fn wf(&self) -> bool {
        distinct_keys(self.entries())
    }

    /// The map without entries.
    pub fn new() -> (m: Self)
        ensures
            m.entries() == Seq::<(Seq<char>, V)>::empty(),
            m.wf(),
    {
        let m = StringMap { entries: Vec::new() };
        assert(m.entries() =~= Seq::<(Seq<char>, V)>::empty());
        m
    }

    /// The number of entries.
    pub fn len(&self) -> (n: usize)
        ensures
            n == self.entries().len(),
    {
        self.entries.len()
    }

    /// Whether the map has no entry.
    pub fn is_empty(&self) -> (b: bool)
        ensures
            b == (self.entries().len() == 0),
    {
        self.entries.len() == 0
    }

    /// The key of the entry at `i`.
    pub fn key_at(&self, i: usize) -> (k: &String)
        requires
            i < self.entries().len(),
        ensures
            k@ == self.entries()[i as int].0,
    {
        &self.entries[i].0
    }

    /// The value of the entry at `i`.
    pub fn value_at(&self, i: usize) -> (v: &V)
        requires
            i < self.entries().len(),
        ensures
            *v == self.entries()[i as int].1,
    {
        &self.entries[i].1
    }

    /// The index of the entry with the key `key`, or the number of entries.
    pub fn position(&self, key: &str) -> (k: usize)
        ensures
            k == index_of_key(self.entries(), key@),
            k <= self.entries().len(),
    {
        let mut i: usize = 0;
        while i < self.entries.len() && !same_str(self.entries[i].0.as_str(), key)
            invariant
                i <= self.entries.len(),
                forall|j: int| 0 <= j < i ==> (#[trigger] self.entries()[j]).0 != key@,
            decreases self.entries.len() - i,
        {
            i += 1;
        }
        proof {
            lemma_index_of_key(self.entries(), key@, i as int);
        }
        i
    }

    /// The index of the first entry whose key is `key` when both are taken in
    /// lowercase, or the number of entries.
    pub fn position_ignoring_case(&self, key: &str) -> (k: usize)
        ensures
            k == index_ignoring_case(self.entries(), key@),
            k <= self.entries().len(),
    {
        let wanted = lowercase_chars(key);
        let mut i: usize = 0;
        while i < self.entries.len()
            invariant
                i <= self.entries.len(),
                wanted@ == lowercase(key@),
                forall|j: int|
                    0 <= j < i ==> lowercase((#[trigger] self.entries()[j]).0) != lowercase(key@),
            decreases self.entries.len() - i,
        {
            let found = lowercase_chars(self.entries[i].0.as_str());
            if same_text(&found, &wanted) {
                proof {
                    lemma_index_ignoring_case(self.entries(), key@, i as int);
                }
                return i;
            }
            i += 1;
        }
        proof {
            lemma_index_ignoring_case(self.entries(), key@, i as int);
        }
        i
    }

    /// The value under `key` whatever the case of its letters.
    pub fn get_ignoring_case(&self, key: &str) -> (r: Option<&V>)
        ensures
            match r {
                Some(v) => lookup_ignoring_case(self.entries(), key@) == Some(*v),
                None => lookup_ignoring_case(self.entries(), key@) is None,
            },
    {
        let i = self.position(key);
        if i < self.entries.len() {
            return Some(&self.entries[i].1);
        }
        let j = self.position_ignoring_case(key);
        if j < self.entries.len() {
            Some(&self.entries[j].1)
        } else {
            None
        }
    }

    /// Whether the map has an entry with the key `key`.
    pub fn contains_key(&self, key: &str) -> (b: bool)
        ensures
            b == has_key(self.entries(), key@),
    {
        self.position(key) < self.entries.len()
    }

    /// The value under `key`.
    pub fn get(&self, key: &str) -> (r: Option<&V>)
        ensures
            match r {
                Some(v) => lookup(self.entries(), key@) == Some(*v),
                None => lookup(self.entries(), key@) is None,
            },
    {
        let i = self.position(key);
        if i < self.entries.len() {
            Some(&self.entries[i].1)
        } else {
            None
        }
    }

    /// Puts `value` in the place of the value at `i`, which is returned.
    pub fn replace_at(&mut self, i: usize, value: V) -> (r: V)
        requires
            i < old(self).entries().len(),
        ensures
            r == old(self).entries()[i as int].1,
            final(self).entries() == old(self).entries().update(
                i as int,
                (old(self).entries()[i as int].0, value),
            ),
            final(self).wf(),
    {
        proof {
            use_type_invariant(&*self);
        }
        let ghost before = self.entries();
        let mut taken = StringMap { entries: Vec::new() };
        assert(taken.entries() =~= Seq::<(Seq<char>, V)>::empty());
        std::mem::swap(self, &mut taken);
        let mut entries = taken.entries;
        let previous = entries.remove(i);
        let key = previous.0;
        entries.insert(i, (key, value));
        proof {
            let now = entry_views(entries@);
            assert(now =~= before.update(i as int, (before[i as int].0, value)));
            assert forall|a: int, b: int| 0 <= a < b < now.len() implies (#[trigger] now[a]).0
                != (#[trigger] now[b]).0 by {
                assert(before[a].0 != before[b].0);
            }
        }
        *self = StringMap { entries };
        previous.1
    }

    /// Puts `value` under `key`: in the place of the value that stood there,
    /// which is returned, or else at the end.
    pub fn insert(&mut self, key: String, value: V) -> (r: Option<V>)
        ensures
            r == lookup(old(self).entries(), key@),
            final(self).entries() == with_entry(old(self).entries(), key@, value),
            final(self).wf(),
    {
        proof {
            use_type_invariant(&*self);
            lemma_index_of_key_is_first(self.entries(), key@);
        }
        let i = self.position(key.as_str());
        let ghost before = self.entries();
        let mut taken = StringMap { entries: Vec::new() };
        assert(taken.entries() =~= Seq::<(Seq<char>, V)>::empty());
        std::mem::swap(self, &mut taken);
        let mut entries = taken.entries;
        if i < entries.len() {
            let previous = entries.remove(i);
            entries.insert(i, (key, value));
            proof {
                let now = entry_views(entries@);
                assert(now =~= before.update(i as int, (key@, value)));
                assert(previous.1 == before[i as int].1);
                assert forall|a: int, b: int| 0 <= a < b < now.len() implies (#[trigger] now[a]).0
                    != (#[trigger] now[b]).0 by {
                    assert(before[a].0 != before[b].0);
                }
            }
            *self = StringMap { entries };
            Some(previous.1)
        } else {
            entries.push((key, value));
            proof {
                let now = entry_views(entries@);
                assert(now =~= before.push((key@, value)));
                assert forall|a: int, b: int| 0 <= a < b < now.len() implies (#[trigger] now[a]).0
                    != (#[trigger] now[b]).0 by {
                    if b < before.len() {
                        assert(before[a].0 != before[b].0);
                    } else {
                        assert(before[a].0 != key@);
                    }
                }
            }
            *self = StringMap { entries };
            None
        }
    }
}

impl StringMap<usize> {
    /// Counts one more under `key`.
    pub fn add_one(&mut self, key: &str)
        requires
            count_of(old(self).entries(), key@) < usize::MAX,
        ensures
            final(self).entries() == with_entry(
                old(self).entries(),
                key@,
                (count_of(old(self).entries(), key@) + 1) as usize,
            ),
            final(self).wf(),
    {
        let i = self.position(key);
        if i < self.len() {
            let n = *self.value_at(i);
            proof {
                lemma_index_of_key_is_first(self.entries(), key@);
                assert(self.entries()[i as int].0 == key@);
            }
            self.replace_at(i, n + 1);
        } else {
            self.insert(key.to_owned(), 1);
        }
    }
}

impl<V: Clone> Clone for StringMap<V> {
    /// A map with the same keys in the same order, each value a clone of the
    /// value that stands under the key.
    fn clone(&self) -> (r: Self)
        ensures
            r.entries().len() == self.entries().len(),
            forall|i: int|
                0 <= i < self.entries().len() ==> (#[trigger] r.entries()[i]).0
                    == self.entries()[i].0 && cloned(self.entries()[i].1, r.entries()[i].1),
    {
        proof {
            use_type_invariant(self);
        }
        let mut entries: Vec<(String, V)> = Vec::new();
        let mut i: usize = 0;
        while i < self.entries.len()
            invariant
                i <= self.entries.len(),
                entries.len() == i,
                forall|j: int|
                    0 <= j < i ==> (#[trigger] entries@[j]).0@ == self.entries@[j].0@ && cloned(
                        self.entries@[j].1,
                        entries@[j].1,
                    ),
            decreases self.entries.len() - i,
        {
            let key = self.entries[i].0.clone();
            let value = self.entries[i].1.clone();
            entries.push((key, value));
            i += 1;
        }
        proof {
            let now = entry_views(entries@);
            let before = self.entries();
            assert forall|a: int, b: int| 0 <= a < b < now.len() implies (#[trigger] now[a]).0 != (
            #[trigger] now[b]).0 by {
                assert(before[a].0 != before[b].0);
            }
        }
        StringMap { entries }
    }
}

} // verus!
