//! Text as sequences of characters.
//!
//! The view of a string is the sequence of its characters. Everything the
//! library decides about a text it decides on that sequence: this module
//! states the operations as functions on sequences and implements them on
//! vectors of characters.

use vstd::prelude::*;
use vstd::string::StringExecFns;

verus! {

/// The characters that carry the Unicode property `White_Space`.
pub open spec fn is_whitespace(c: char) -> bool {
    ||| '\u{9}' <= c <= '\u{D}'
    ||| c == ' '
    ||| c == '\u{85}'
    ||| c == '\u{A0}'
    ||| c == '\u{1680}'
    ||| '\u{2000}' <= c <= '\u{200A}'
    ||| c == '\u{2028}'
    ||| c == '\u{2029}'
    ||| c == '\u{202F}'
    ||| c == '\u{205F}'
    ||| c == '\u{3000}'
}

/// How many whitespace characters `s` begins with.
pub open spec fn leading_whitespace(s: Seq<char>) -> nat
    decreases s.len(),
{
    if s.len() > 0 && is_whitespace(s[0]) {
        1 + leading_whitespace(s.drop_first())
    } else {
        0
    }
}

/// How many whitespace characters `s` ends with.
pub open spec fn trailing_whitespace(s: Seq<char>) -> nat
    decreases s.len(),
{
    if s.len() > 0 && is_whitespace(s.last()) {
        1 + trailing_whitespace(s.drop_last())
    } else {
        0
    }
}

/// `s` without the whitespace it begins with.
pub open spec fn trim_start(s: Seq<char>) -> Seq<char> {
    s.skip(leading_whitespace(s) as int)
}

/// `s` without the whitespace it ends with.
pub open spec fn trim_end(s: Seq<char>) -> Seq<char> {
    s.take(s.len() - trailing_whitespace(s))
}

/// `s` without the whitespace around it.
pub open spec fn trim(s: Seq<char>) -> Seq<char> {
    trim_end(trim_start(s))
}

/// The index of the first `c` in `s`, or the length of `s` where there is none.
pub open spec fn find(s: Seq<char>, c: char) -> nat
    decreases s.len(),
{
    if s.len() > 0 && s[0] != c {
        1 + find(s.drop_first(), c)
    } else {
        0
    }
}

/// `needle` occurs in `hay` as a run of consecutive characters.
pub open spec fn is_substring(needle: Seq<char>, hay: Seq<char>) -> bool {
    exists|i: int| occurs_at(needle, hay, i)
}

/// `needle` stands in `hay` from index `i` on.
pub open spec fn occurs_at(needle: Seq<char>, hay: Seq<char>, i: int) -> bool {
    0 <= i && i + needle.len() <= hay.len() && hay.subrange(i, i + needle.len()) == needle
}

/// `s` without a carriage return at its end, if it has one.
pub open spec fn strip_carriage_return(s: Seq<char>) -> Seq<char> {
    if s.len() > 0 && s.last() == '\r' {
        s.drop_last()
    } else {
        s
    }
}

/// The lines of `s`. A line ends at a line feed, which does not belong to it,
/// nor does a carriage return directly before that line feed. What follows the
/// last line feed is a line if it is not empty.
pub open spec fn lines(s: Seq<char>) -> Seq<Seq<char>>
    decreases s.len(),
{
    let n = find(s, '\n');
    if s.len() == 0 {
        Seq::empty()
    } else if n >= s.len() {
        seq![s]
    } else {
        seq![strip_carriage_return(s.take(n as int))] + lines(s.skip(n as int + 1))
    }
}

/// The lines put together again, with one line feed between two of them.
pub open spec fn join_lines(lines: Seq<Seq<char>>) -> Seq<char>
    decreases lines.len(),
{
    if lines.len() == 0 {
        Seq::empty()
    } else if lines.len() == 1 {
        lines[0]
    } else {
        join_lines(lines.drop_last()) + seq!['\n'] + lines.last()
    }
}

/// The views of the lines held in vectors.
pub open spec fn line_views(lines: Seq<Vec<char>>) -> Seq<Seq<char>> {
    lines.map_values(|l: Vec<char>| l@)
}

/// `a` comes before `b` in the order of strings: character by character, by
/// code point, a proper prefix before what it is a prefix of.
pub open spec fn text_less(a: Seq<char>, b: Seq<char>) -> bool
    decreases a.len(),
{
    if b.len() == 0 {
        false
    } else if a.len() == 0 {
        true
    } else if a[0] != b[0] {
        a[0] < b[0]
    } else {
        text_less(a.drop_first(), b.drop_first())
    }
}

/// The texts stand in ascending order and none stands twice.
pub open spec fn strictly_ascending(s: Seq<Seq<char>>) -> bool {
    forall|i: int, j: int| 0 <= i < j < s.len() ==> text_less(#[trigger] s[i], #[trigger] s[j])
}

/// The lowercase form of a text, as `str::to_lowercase` gives it.
pub uninterp spec fn lowercase(s: Seq<char>) -> Seq<char>;

/// No text comes before itself.
pub proof fn lemma_text_less_irreflexive(a: Seq<char>)
    ensures
        !text_less(a, a),
    decreases a.len(),
{
    if a.len() > 0 {
        lemma_text_less_irreflexive(a.drop_first());
    }
}

/// Of two texts that differ one comes before the other.
pub proof fn lemma_text_less_total(a: Seq<char>, b: Seq<char>)
    ensures
        text_less(a, b) || a == b || text_less(b, a),
    decreases a.len(),
{
    if a.len() > 0 && b.len() > 0 && a[0] == b[0] {
        lemma_text_less_total(a.drop_first(), b.drop_first());
        if a.drop_first() == b.drop_first() {
            assert(a =~= seq![a[0]] + a.drop_first());
            assert(b =~= seq![b[0]] + b.drop_first());
        }
    } else if a.len() == 0 && b.len() == 0 {
        assert(a =~= b);
    }
}

/// What comes before a text comes before all that the text comes before.
pub proof fn lemma_text_less_transitive(a: Seq<char>, b: Seq<char>, c: Seq<char>)
    requires
        text_less(a, b),
        text_less(b, c),
    ensures
        text_less(a, c),
    decreases a.len(),
{
    if a.len() > 0 && a[0] == b[0] && b[0] == c[0] {
        lemma_text_less_transitive(a.drop_first(), b.drop_first(), c.drop_first());
    }
}

/// Two texts that agree on their first `k` characters compare as the rests do.
pub proof fn lemma_text_less_after_common_prefix(a: Seq<char>, b: Seq<char>, k: int)
    requires
        0 <= k <= a.len(),
        k <= b.len(),
        forall|j: int| 0 <= j < k ==> a[j] == b[j],
    ensures
        text_less(a, b) == text_less(a.skip(k), b.skip(k)),
    decreases k,
{
    if k == 0 {
        assert(a.skip(0) =~= a);
        assert(b.skip(0) =~= b);
    } else {
        let a1 = a.drop_first();
        let b1 = b.drop_first();
        assert forall|j: int| 0 <= j < k - 1 implies a1[j] == b1[j] by {
            assert(a1[j] == a[j + 1]);
            assert(b1[j] == b[j + 1]);
        }
        lemma_text_less_after_common_prefix(a1, b1, k - 1);
        assert(a1.skip(k - 1) =~= a.skip(k));
        assert(b1.skip(k - 1) =~= b.skip(k));
        assert(a[0] == b[0]);
    }
}

/// The character that stands for the digit `d`.
pub open spec fn digit_char(d: int) -> char {
    if d == 0 {
        '0'
    } else if d == 1 {
        '1'
    } else if d == 2 {
        '2'
    } else if d == 3 {
        '3'
    } else if d == 4 {
        '4'
    } else if d == 5 {
        '5'
    } else if d == 6 {
        '6'
    } else if d == 7 {
        '7'
    } else if d == 8 {
        '8'
    } else {
        '9'
    }
}

/// The decimal digits of `n`, the most significant first, with no leading zero.
pub open spec fn digits(n: nat) -> Seq<char>
    decreases n,
{
    if n < 10 {
        seq![digit_char(n as int)]
    } else {
        digits(n / 10).push(digit_char((n % 10) as int))
    }
}

/// An integer in decimal notation, with a minus sign if it is negative.
pub open spec fn decimal(n: int) -> Seq<char> {
    if n < 0 {
        seq!['-'] + digits((-n) as nat)
    } else {
        digits(n as nat)
    }
}

/// Whitespace up to `k`, and none at `k`, makes `k` the count of the
/// whitespace that `s` begins with.
pub proof fn lemma_leading_whitespace(s: Seq<char>, k: int)
    requires
        0 <= k <= s.len(),
        forall|j: int| 0 <= j < k ==> is_whitespace(s[j]),
        k < s.len() ==> !is_whitespace(s[k]),
    ensures
        leading_whitespace(s) == k,
    decreases k,
{
    if k > 0 {
        lemma_leading_whitespace(s.drop_first(), k - 1);
    }
}

/// Whitespace in the last `k` places, and none before them, makes `k` the
/// count of the whitespace that `s` ends with.
pub proof fn lemma_trailing_whitespace(s: Seq<char>, k: int)
    requires
        0 <= k <= s.len(),
        forall|j: int| s.len() - k <= j < s.len() ==> is_whitespace(s[j]),
        k < s.len() ==> !is_whitespace(s[s.len() - k - 1]),
    ensures
        trailing_whitespace(s) == k,
    decreases k,
{
    if k > 0 {
        lemma_trailing_whitespace(s.drop_last(), k - 1);
    }
}

/// No `c` before `k`, and one at `k` or the end of `s` there, makes `k` what
/// `find` returns.
pub proof fn lemma_find(s: Seq<char>, c: char, k: int)
    requires
        0 <= k <= s.len(),
        forall|j: int| 0 <= j < k ==> s[j] != c,
        k < s.len() ==> s[k] == c,
    ensures
        find(s, c) == k,
    decreases k,
{
    if k > 0 {
        lemma_find(s.drop_first(), c, k - 1);
    }
}

/// What `find` returns is the first occurrence, or the length.
pub proof fn lemma_find_is_first(s: Seq<char>, c: char)
    ensures
        find(s, c) <= s.len(),
        forall|j: int| 0 <= j < find(s, c) ==> s[j] != c,
        find(s, c) < s.len() ==> s[find(s, c) as int] == c,
    decreases s.len(),
{
    if s.len() > 0 && s[0] != c {
        let t = s.drop_first();
        lemma_find_is_first(t, c);
        assert forall|j: int| 0 <= j < find(s, c) implies s[j] != c by {
            if j > 0 {
                assert(s[j] == t[j - 1]);
            }
        }
    }
}

/// The whitespace that `s` begins with ends where `leading_whitespace` says.
pub proof fn lemma_leading_whitespace_is_first(s: Seq<char>)
    ensures
        leading_whitespace(s) <= s.len(),
        forall|j: int| 0 <= j < leading_whitespace(s) ==> is_whitespace(#[trigger] s[j]),
        leading_whitespace(s) < s.len() ==> !is_whitespace(s[leading_whitespace(s) as int]),
    decreases s.len(),
{
    if s.len() > 0 && is_whitespace(s[0]) {
        let t = s.drop_first();
        lemma_leading_whitespace_is_first(t);
        assert forall|j: int| 0 <= j < leading_whitespace(s) implies is_whitespace(
            #[trigger] s[j],
        ) by {
            if j > 0 {
                assert(s[j] == t[j - 1]);
            }
        }
    }
}

/// The whitespace that `s` ends with begins where `trailing_whitespace` says.
pub proof fn lemma_trailing_whitespace_is_last(s: Seq<char>)
    ensures
        trailing_whitespace(s) <= s.len(),
        forall|j: int|
            s.len() - trailing_whitespace(s) <= j < s.len() ==> is_whitespace(#[trigger] s[j]),
        trailing_whitespace(s) < s.len() ==> !is_whitespace(
            s[s.len() - trailing_whitespace(s) - 1],
        ),
    decreases s.len(),
{
    if s.len() > 0 && is_whitespace(s.last()) {
        let t = s.drop_last();
        lemma_trailing_whitespace_is_last(t);
        assert forall|j: int|
            s.len() - trailing_whitespace(s) <= j < s.len() implies is_whitespace(
            #[trigger] s[j],
        ) by {
            if j < s.len() - 1 {
                assert(s[j] == t[j]);
            }
        }
    }
}

/// None of the lines but the last ends in a carriage return, and the last
/// is not empty unless it is the only one.
pub open spec fn keeps_line_ends(ls: Seq<Seq<char>>) -> bool {
    &&& forall|i: int|
        0 <= i < ls.len() - 1 ==> (#[trigger] ls[i]).len() == 0 || ls[i].last() != '\r'
    &&& ls.len() >= 2 ==> ls.last().len() > 0
}

/// Lines that `lines` gives back as they are once they are joined: none holds
/// a line feed, none but the last ends in a carriage return, and the last is
/// not empty.
pub open spec fn is_tidy(ls: Seq<Seq<char>>) -> bool {
    &&& forall|i: int| 0 <= i < ls.len() ==> find(#[trigger] ls[i], '\n') == ls[i].len()
    &&& forall|i: int|
        0 <= i < ls.len() - 1 ==> (#[trigger] ls[i]).len() == 0 || ls[i].last() != '\r'
    &&& ls.len() > 0 ==> ls.last().len() > 0
}

/// Joined lines are the first line, a line feed, and the other lines joined.
pub proof fn lemma_join_lines_front(ls: Seq<Seq<char>>)
    requires
        ls.len() >= 2,
    ensures
        join_lines(ls) == ls[0] + seq!['\n'] + join_lines(ls.skip(1)),
    decreases ls.len(),
{
    let init = ls.drop_last();
    let tail = ls.skip(1);
    if ls.len() == 2 {
        assert(init.len() == 1 && tail.len() == 1);
        assert(join_lines(init) == ls[0]);
        assert(join_lines(tail) == ls[1]);
    } else {
        lemma_join_lines_front(init);
        assert(init.skip(1) =~= tail.drop_last());
        assert(join_lines(ls) =~= ls[0] + seq!['\n'] + join_lines(tail));
    }
}

/// Splitting joined lines gives the lines back, if they are tidy.
pub proof fn lemma_lines_of_joined(ls: Seq<Seq<char>>)
    requires
        is_tidy(ls),
    ensures
        lines(join_lines(ls)) == ls,
    decreases ls.len(),
{
    if ls.len() == 0 {
        assert(lines(join_lines(ls)) =~= ls);
    } else if ls.len() == 1 {
        assert(join_lines(ls) == ls[0]);
        assert(lines(ls[0]) =~= ls);
    } else {
        let tail = ls.skip(1);
        let s = join_lines(ls);
        let n = ls[0].len() as int;
        lemma_join_lines_front(ls);
        assert(is_tidy(tail)) by {
            assert forall|i: int| 0 <= i < tail.len() implies find(#[trigger] tail[i], '\n')
                == tail[i].len() by {
                assert(tail[i] == ls[i + 1]);
            }
            assert forall|i: int| 0 <= i < tail.len() - 1 implies (#[trigger] tail[i]).len() == 0
                || tail[i].last() != '\r' by {
                assert(tail[i] == ls[i + 1]);
            }
            assert(tail.last() == ls.last());
        }
        lemma_lines_of_joined(tail);
        lemma_find_is_first(ls[0], '\n');
        assert forall|j: int| 0 <= j < n implies s[j] != '\n' by {
            assert(s[j] == ls[0][j]);
        }
        assert(s[n] == '\n');
        lemma_find(s, '\n', n);
        assert(s.take(n) =~= ls[0]);
        assert(s.skip(n + 1) =~= join_lines(tail));
        assert(lines(s) =~= seq![ls[0]] + tail);
        assert(seq![ls[0]] + tail =~= ls);
    }
}

/// No line holds a line feed.
pub proof fn lemma_lines_hold_no_line_feed(s: Seq<char>)
    ensures
        forall|i: int|
            0 <= i < lines(s).len() ==> find(#[trigger] lines(s)[i], '\n') == lines(s)[i].len(),
    decreases s.len(),
{
    let n = find(s, '\n') as int;
    lemma_find_is_first(s, '\n');
    if s.len() == 0 {
    } else if n >= s.len() {
    } else {
        let first = strip_carriage_return(s.take(n));
        let rest = lines(s.skip(n + 1));
        lemma_lines_hold_no_line_feed(s.skip(n + 1));
        assert forall|j: int| 0 <= j < first.len() implies first[j] != '\n' by {
            assert(first[j] == s[j]);
        }
        lemma_find(first, '\n', first.len() as int);
        assert forall|i: int| 0 <= i < lines(s).len() implies find(#[trigger] lines(s)[i], '\n')
            == lines(s)[i].len() by {
            if i > 0 {
                assert(lines(s)[i] == rest[i - 1]);
            }
        }
    }
}

/// The characters of `s`.
pub fn chars_of(s: &str) -> (v: Vec<char>)
    ensures
        v@ == s@,
{
    let mut v: Vec<char> = Vec::new();
    for c in it: s.chars()
        invariant
            v@ == it.seq().take(it.index() as int),
            it.seq() == s@,
    {
        v.push(c);
    }
    v
}

/// `String::push` appends one character.
pub assume_specification[ std::string::String::push ](s: &mut std::string::String, c: char)
    ensures
        final(s)@ == old(s)@.push(c),
;

/// The string made of the characters `v[from..to]`.
pub fn text_of_range(v: &Vec<char>, from: usize, to: usize) -> (s: String)
    requires
        from <= to <= v.len(),
    ensures
        s@ == v@.subrange(from as int, to as int),
{
    let mut s = String::new();
    let mut i: usize = from;
    while i < to
        invariant
            from <= i <= to <= v.len(),
            s@ == v@.subrange(from as int, i as int),
        decreases to - i,
    {
        s.push(v[i]);
        i += 1;
    }
    s
}

/// The string made of the characters of `v`.
pub fn text_of(v: &Vec<char>) -> (s: String)
    ensures
        s@ == v@,
{
    text_of_range(v, 0, v.len())
}

/// Whether `c` is a whitespace character.
pub fn char_is_whitespace(c: char) -> (b: bool)
    ensures
        b == is_whitespace(c),
{
    ('\u{9}' <= c && c <= '\u{D}') || c == ' ' || c == '\u{85}' || c == '\u{A0}' || c
        == '\u{1680}' || ('\u{2000}' <= c && c <= '\u{200A}') || c == '\u{2028}' || c
        == '\u{2029}' || c == '\u{202F}' || c == '\u{205F}' || c == '\u{3000}'
}

/// The first index in `from..to` at which no whitespace stands, or `to`.
pub fn skip_whitespace(v: &Vec<char>, from: usize, to: usize) -> (k: usize)
    requires
        from <= to <= v.len(),
    ensures
        from <= k <= to,
        k == from + leading_whitespace(v@.subrange(from as int, to as int)),
{
    let mut i: usize = from;
    while i < to && char_is_whitespace(v[i])
        invariant
            from <= i <= to <= v.len(),
            forall|j: int| from <= j < i ==> is_whitespace(v@[j]),
        decreases to - i,
    {
        i += 1;
    }
    proof {
        lemma_leading_whitespace(v@.subrange(from as int, to as int), i - from);
    }
    i
}

/// The end of `from..to` once the whitespace it ends with is left off.
pub fn skip_whitespace_back(v: &Vec<char>, from: usize, to: usize) -> (k: usize)
    requires
        from <= to <= v.len(),
    ensures
        from <= k <= to,
        k == to - trailing_whitespace(v@.subrange(from as int, to as int)),
{
    let mut i: usize = to;
    while i > from && char_is_whitespace(v[i - 1])
        invariant
            from <= i <= to <= v.len(),
            forall|j: int| i <= j < to ==> is_whitespace(v@[j]),
        decreases i - from,
    {
        i -= 1;
    }
    proof {
        lemma_trailing_whitespace(v@.subrange(from as int, to as int), to - i);
    }
    i
}

/// The index of the first `c` in `from..to`, or `to`.
pub fn find_char(v: &Vec<char>, c: char, from: usize, to: usize) -> (k: usize)
    requires
        from <= to <= v.len(),
    ensures
        from <= k <= to,
        k == from + find(v@.subrange(from as int, to as int), c),
{
    let mut i: usize = from;
    while i < to && v[i] != c
        invariant
            from <= i <= to <= v.len(),
            forall|j: int| from <= j < i ==> v@[j] != c,
        decreases to - i,
    {
        i += 1;
    }
    proof {
        lemma_find(v@.subrange(from as int, to as int), c, i - from);
    }
    i
}

/// Whether `needle` stands in `hay` from index `at` on.
pub fn matches_at(needle: &Vec<char>, hay: &Vec<char>, at: usize) -> (b: bool)
    requires
        at + needle.len() <= hay.len(),
    ensures
        b == occurs_at(needle@, hay@, at as int),
{
    let mut j: usize = 0;
    while j < needle.len()
        invariant
            j <= needle.len(),
            at + needle.len() <= hay.len(),
            forall|k: int| 0 <= k < j ==> hay@[at + k] == needle@[k],
        decreases needle.len() - j,
    {
        if hay[at + j] != needle[j] {
            proof {
                let sub = hay@.subrange(at as int, at + needle@.len());
                assert(sub[j as int] == hay@[at + j]);
            }
            return false;
        }
        j += 1;
    }
    assert(hay@.subrange(at as int, at + needle@.len()) =~= needle@);
    true
}

/// Whether `needle` occurs in `hay`.
pub fn contains(hay: &Vec<char>, needle: &Vec<char>) -> (b: bool)
    ensures
        b == is_substring(needle@, hay@),
{
    if needle.len() == 0 {
        assert(occurs_at(needle@, hay@, 0)) by {
            assert(hay@.subrange(0, 0) =~= needle@);
        }
        return true;
    }
    if needle.len() > hay.len() {
        return false;
    }
    let last: usize = hay.len() - needle.len();
    let mut i: usize = 0;
    while i <= last
        invariant
            i <= last + 1,
            last == hay.len() - needle.len(),
            0 < needle.len() <= hay.len(),
            forall|k: int| 0 <= k < i ==> !occurs_at(needle@, hay@, k),
        decreases last + 1 - i,
    {
        if matches_at(needle, hay, i) {
            return true;
        }
        i += 1;
    }
    false
}

/// `str::to_lowercase`, which returns the lowercase form of a text. The form is
/// taken on trust, under the name `lowercase`; nothing else is claimed of it.
#[verifier::external_body]
pub(crate) fn to_lowercase(s: &str) -> (r: String)
    ensures
        r@ == lowercase(s@),
{
    s.to_lowercase()
}

/// The lowercase form of the characters of `s`.
pub(crate) fn lowercase_chars(s: &str) -> (v: Vec<char>)
    ensures
        v@ == lowercase(s@),
{
    let lowered = to_lowercase(s);
    chars_of(lowered.as_str())
}

/// Appends the characters `src[from..to]` to `out`.
pub fn append_range(out: &mut Vec<char>, src: &Vec<char>, from: usize, to: usize)
    requires
        from <= to <= src.len(),
    ensures
        final(out)@ == old(out)@ + src@.subrange(from as int, to as int),
{
    let mut i: usize = from;
    while i < to
        invariant
            from <= i <= to <= src.len(),
            out@ == old(out)@ + src@.subrange(from as int, i as int),
        decreases to - i,
    {
        out.push(src[i]);
        i += 1;
        assert(out@ =~= old(out)@ + src@.subrange(from as int, i as int));
    }
}

/// The characters `v[from..to]` in a vector of their own.
pub fn copy_range(v: &Vec<char>, from: usize, to: usize) -> (r: Vec<char>)
    requires
        from <= to <= v.len(),
    ensures
        r@ == v@.subrange(from as int, to as int),
{
    let mut r: Vec<char> = Vec::new();
    append_range(&mut r, v, from, to);
    assert(r@ =~= v@.subrange(from as int, to as int));
    r
}

/// Whether the two texts are the same.
pub fn same_text(a: &Vec<char>, b: &Vec<char>) -> (r: bool)
    ensures
        r == (a@ == b@),
{
    if a.len() != b.len() {
        return false;
    }
    let mut i: usize = 0;
    while i < a.len()
        invariant
            i <= a.len(),
            a.len() == b.len(),
            forall|j: int| 0 <= j < i ==> a@[j] == b@[j],
        decreases a.len() - i,
    {
        if a[i] != b[i] {
            return false;
        }
        i += 1;
    }
    assert(a@ =~= b@);
    true
}

/// Whether `a` comes before `b` in the order of strings.
pub fn comes_before(a: &Vec<char>, b: &Vec<char>) -> (r: bool)
    ensures
        r == text_less(a@, b@),
{
    let mut i: usize = 0;
    while i < a.len() && i < b.len() && a[i] == b[i]
        invariant
            i <= a.len(),
            i <= b.len(),
            forall|j: int| 0 <= j < i ==> a@[j] == b@[j],
        decreases a.len() - i,
    {
        i += 1;
    }
    proof {
        lemma_text_less_after_common_prefix(a@, b@, i as int);
    }
    if i == b.len() {
        false
    } else if i == a.len() {
        true
    } else {
        proof {
            let ra = a@.skip(i as int);
            let rb = b@.skip(i as int);
            assert(ra[0] == a@[i as int]);
            assert(rb[0] == b@[i as int]);
        }
        a[i] < b[i]
    }
}

/// The lines of `v`.
pub fn split_lines(v: &Vec<char>) -> (out: Vec<Vec<char>>)
    ensures
        line_views(out@) == lines(v@),
{
    let mut out: Vec<Vec<char>> = Vec::new();
    let mut start: usize = 0;
    let len = v.len();
    assert(v@.skip(0) =~= v@);
    assert(line_views(out@) =~= Seq::<Seq<char>>::empty());
    while start < len
        invariant
            start <= len,
            len == v.len(),
            lines(v@) == line_views(out@) + lines(v@.skip(start as int)),
        decreases len - start,
    {
        let ghost rest = v@.skip(start as int);
        let ghost before = line_views(out@);
        assert(rest =~= v@.subrange(start as int, len as int));
        let n = find_char(v, '\n', start, len);
        if n == len {
            let line = copy_range(v, start, len);
            out.push(line);
            proof {
                assert(lines(rest) == seq![rest]);
                assert(line_views(out@) =~= before.push(rest));
                assert(v@.skip(len as int).len() == 0);
                assert(before + seq![rest] =~= before.push(rest) + lines(v@.skip(len as int)));
            }
            start = len;
        } else {
            let end: usize = if n > start && v[n - 1] == '\r' {
                (n - 1) as usize
            } else {
                n
            };
            let line = copy_range(v, start, end);
            out.push(line);
            proof {
                let piece = rest.take(n - start);
                assert(piece =~= v@.subrange(start as int, n as int));
                assert(strip_carriage_return(piece) =~= v@.subrange(start as int, end as int));
                assert(rest.skip(n - start + 1) =~= v@.skip(n + 1));
                assert(line_views(out@) =~= before.push(strip_carriage_return(piece)));
                assert(before + (seq![strip_carriage_return(piece)] + lines(v@.skip(n + 1)))
                    =~= before.push(strip_carriage_return(piece)) + lines(v@.skip(n + 1)));
            }
            start = n + 1;
        }
    }
    assert(lines(v@.skip(start as int)) =~= Seq::<Seq<char>>::empty());
    assert(line_views(out@) + Seq::<Seq<char>>::empty() =~= line_views(out@));
    out
}

/// The lines `lines[from..to]` joined by line feeds.
pub fn join_range(lines: &Vec<Vec<char>>, from: usize, to: usize) -> (out: Vec<char>)
    requires
        from <= to <= lines.len(),
    ensures
        out@ == join_lines(line_views(lines@).subrange(from as int, to as int)),
{
    let mut out: Vec<char> = Vec::new();
    let mut i: usize = from;
    let ghost all = line_views(lines@);
    while i < to
        invariant
            from <= i <= to <= lines.len(),
            all == line_views(lines@),
            out@ == join_lines(all.subrange(from as int, i as int)),
        decreases to - i,
    {
        let ghost before = all.subrange(from as int, i as int);
        let ghost after = all.subrange(from as int, i + 1);
        if i > from {
            out.push('\n');
        }
        let line = &lines[i];
        append_range(&mut out, line, 0, line.len());
        proof {
            assert(line@.subrange(0, line@.len() as int) =~= line@);
            assert(after.drop_last() =~= before);
            assert(after.last() == line@);
            if i > from {
                assert(out@ =~= join_lines(before) + seq!['\n'] + line@);
            } else {
                assert(out@ =~= line@);
            }
        }
        i += 1;
    }
    out
}

/// The character that stands for the digit `d`.
fn digit_of(d: u64) -> (c: char)
    requires
        d < 10,
    ensures
        c == digit_char(d as int),
{
    if d == 0 {
        '0'
    } else if d == 1 {
        '1'
    } else if d == 2 {
        '2'
    } else if d == 3 {
        '3'
    } else if d == 4 {
        '4'
    } else if d == 5 {
        '5'
    } else if d == 6 {
        '6'
    } else if d == 7 {
        '7'
    } else if d == 8 {
        '8'
    } else {
        '9'
    }
}

/// The decimal digits of `magnitude`.
pub fn digits_chars(magnitude: u64) -> (out: Vec<char>)
    ensures
        out@ == digits(magnitude as nat),
{
    let mut out: Vec<char> = Vec::new();
    out.push(digit_of(magnitude % 10));
    let mut m: u64 = magnitude / 10;
    assert(out@ =~= seq![digit_char((magnitude % 10) as int)]);
    assert(m > 0 ==> digits(magnitude as nat) =~= digits(m as nat) + out@);
    while m > 0
        invariant
            m > 0 ==> digits(magnitude as nat) == digits(m as nat) + out@,
            m == 0 ==> digits(magnitude as nat) == out@,
        decreases m,
    {
        let ghost before = out@;
        let d = digit_of(m % 10);
        out.insert(0, d);
        proof {
            assert(out@ =~= seq![d] + before);
            if m < 10 {
                assert(digits(m as nat) =~= seq![d]);
            } else {
                assert(digits(m as nat) + before =~= digits((m / 10) as nat) + out@);
            }
        }
        m = m / 10;
    }
    out
}

/// `n` in decimal notation.
pub fn decimal_chars(n: i64) -> (out: Vec<char>)
    ensures
        out@ == decimal(n as int),
{
    let magnitude: u64 = if n < 0 {
        ((-(n + 1)) as u64) + 1
    } else {
        n as u64
    };
    let mut out = digits_chars(magnitude);
    if n < 0 {
        let ghost before = out@;
        out.insert(0, '-');
        assert(out@ =~= seq!['-'] + before);
    }
    out
}

/// `==` on string slices compares the characters.
pub assume_specification[ <str as PartialEq>::eq ](a: &str, b: &str) -> (r: bool)
    ensures
        r == (a@ == b@),
;

/// Whether the two strings hold the same characters.
pub fn same_str(a: &str, b: &str) -> (r: bool)
    ensures
        r == (a@ == b@),
{
    *a == *b
}

/// The text `a` followed by the text `b`.
pub fn concat_text(a: &str, b: &str) -> (r: String)
    ensures
        r@ == a@ + b@,
{
    let mut r = a.to_owned();
    r.append(b);
    r
}

/// Texts in ascending order are all different.
pub proof fn lemma_ascending_texts_differ(s: Seq<Seq<char>>)
    requires
        strictly_ascending(s),
    ensures
        s.no_duplicates(),
{
    assert forall|i: int, j: int| 0 <= i < s.len() && 0 <= j < s.len() && i != j implies s[i]
        != s[j] by {
        lemma_text_less_irreflexive(s[i]);
        if i < j {
            assert(text_less(s[i], s[j]));
        } else {
            assert(text_less(s[j], s[i]));
        }
    }
}

/// Puts `item` in its place among the texts in ascending order, unless it
/// stands there already.
pub fn insert_sorted(sorted: &mut Vec<Vec<char>>, item: Vec<char>)
    requires
        strictly_ascending(line_views(old(sorted)@)),
    ensures
        strictly_ascending(line_views(final(sorted)@)),
        forall|t: Seq<char>|
            line_views(final(sorted)@).contains(t) <==> (line_views(old(sorted)@).contains(t) || t
                == item@),
{
    let ghost before = line_views(sorted@);
    let mut i: usize = 0;
    while i < sorted.len() && comes_before(&sorted[i], &item)
        invariant
            i <= sorted.len(),
            before == line_views(sorted@),
            forall|j: int| 0 <= j < i ==> text_less(#[trigger] before[j], item@),
        decreases sorted.len() - i,
    {
        i += 1;
    }
    if i < sorted.len() && same_text(&sorted[i], &item) {
        assert(before[i as int] == item@);
        return ;
    }
    let ghost it = item@;
    sorted.insert(i, item);
    proof {
        let after = line_views(sorted@);
        assert(after =~= before.insert(i as int, it));
        if i < before.len() {
            lemma_text_less_total(before[i as int], it);
        }
        assert forall|a: int, b: int| 0 <= a < b < after.len() implies text_less(
            #[trigger] after[a],
            #[trigger] after[b],
        ) by {
            if b < i {
                assert(after[a] == before[a] && after[b] == before[b]);
            } else if b == i {
                assert(after[a] == before[a]);
            } else if a < i {
                assert(after[a] == before[a] && after[b] == before[b - 1]);
                assert(text_less(before[a], it));
                if b - 1 == i {
                    lemma_text_less_transitive(before[a], it, before[i as int]);
                } else {
                    assert(text_less(before[i as int], before[b - 1]));
                    lemma_text_less_transitive(it, before[i as int], before[b - 1]);
                    lemma_text_less_transitive(before[a], it, before[b - 1]);
                }
            } else if a == i {
                assert(after[b] == before[b - 1]);
                if b - 1 > i {
                    assert(text_less(before[i as int], before[b - 1]));
                    lemma_text_less_transitive(it, before[i as int], before[b - 1]);
                }
            } else {
                assert(after[a] == before[a - 1] && after[b] == before[b - 1]);
            }
        }
        assert forall|t: Seq<char>| after.contains(t) <==> (before.contains(t) || t == it) by {
            if after.contains(t) {
                let k = choose|k: int| 0 <= k < after.len() && after[k] == t;
                if k < i {
                    assert(before[k] == t);
                } else if k > i {
                    assert(before[k - 1] == t);
                }
            }
            if before.contains(t) {
                let k = choose|k: int| 0 <= k < before.len() && before[k] == t;
                if k < i {
                    assert(after[k] == t);
                } else {
                    assert(after[k + 1] == t);
                }
            }
            if t == it {
                assert(after[i as int] == t);
            }
        }
    }
}

/// The texts as strings, in their order.
pub fn texts_of(items: &Vec<Vec<char>>) -> (r: Vec<String>)
    ensures
        r@.map_values(|s: String| s@) == line_views(items@),
{
    let mut r: Vec<String> = Vec::new();
    let mut i: usize = 0;
    while i < items.len()
        invariant
            i <= items.len(),
            r.len() == i,
            forall|j: int| 0 <= j < i ==> (#[trigger] r@[j])@ == items@[j]@,
        decreases items.len() - i,
    {
        r.push(text_of(&items[i]));
        i += 1;
    }
    assert(r@.map_values(|s: String| s@) =~= line_views(items@));
    r
}

} // verus!
