//! The structured values that a metadata block holds, and what can be asked of
//! one value.

use vstd::prelude::*;
use crate::string_map::{index_ignoring_case, index_of_key, with_entry, StringMap};
use crate::text::{
    chars_of, concat_text, contains, decimal, decimal_chars, is_substring, lowercase,
    lowercase_chars, text_of,
};

verus! {

/// A structured value as it stands in memory.
#[derive(Debug)]
pub enum Value {
    /// A real number, kept as the text that was read.
    Real(String),
    /// An integer.
    Integer(i64),
    /// A text.
    String(String),
    /// A truth value.
    Boolean(bool),
    /// A sequence of values.
    Array(Vec<Value>),
    /// A mapping, as its entries in the order in which they were read.
    Hash(Vec<(Value, Value)>),
    /// A reference to an anchor.
    Alias(usize),
    /// The null value.
    Null,
    /// What stands where no value could be made.
    BadValue,
}

/// A structured value as contracts speak of it.
pub enum ValueView {
    Real(Seq<char>),
    Integer(i64),
    String(Seq<char>),
    Boolean(bool),
    Array(Seq<ValueView>),
    Hash(Seq<(ValueView, ValueView)>),
    Alias(usize),
    Null,
    BadValue,
}

impl View for Value {
    type V = ValueView;

    open spec fn view(&self) -> ValueView
        decreases self,
    {
        match self {
            Value::Real(s) => ValueView::Real(s@),
            Value::Integer(n) => ValueView::Integer(*n),
            Value::String(s) => ValueView::String(s@),
            Value::Boolean(b) => ValueView::Boolean(*b),
            Value::Array(items) => ValueView::Array(
                Seq::new(
                    items@.len(),
                    |i: int|
                        if 0 <= i < items@.len() {
                            items@[i].view()
                        } else {
                            ValueView::Null
                        },
                ),
            ),
            Value::Hash(entries) => ValueView::Hash(
                Seq::new(
                    entries@.len(),
                    |i: int|
                        if 0 <= i < entries@.len() {
                            (entries@[i].0.view(), entries@[i].1.view())
                        } else {
                            (ValueView::Null, ValueView::Null)
                        },
                ),
            ),
            Value::Alias(n) => ValueView::Alias(*n),
            Value::Null => ValueView::Null,
            Value::BadValue => ValueView::BadValue,
        }
    }
}

impl Value {
    /// A copy of the whole value.
    pub fn deep_copy(&self) -> (r: Value)
        ensures
            r@ == self@,
        decreases self,
    {
        match self {
            Value::Real(s) => Value::Real(s.clone()),
            Value::Integer(n) => Value::Integer(*n),
            Value::String(s) => Value::String(s.clone()),
            Value::Boolean(b) => Value::Boolean(*b),
            Value::Array(items) => {
                let mut out: Vec<Value> = Vec::new();
                let mut i: usize = 0;
                while i < items.len()
                    invariant
                        i <= items.len(),
                        out.len() == i,
                        forall|j: int| 0 <= j < i ==> out@[j]@ == items@[j]@,
                        *self == Value::Array(*items),
                    decreases items.len() - i,
                {
                    assert(decreases_to!(*self => self->Array_0));
                    assert(decreases_to!(*items => items[i as int]));
                    out.push(items[i].deep_copy());
                    i += 1;
                }
                proof {
                    lemma_array_view(out);
                    lemma_array_view(*items);
                    assert(yaml_views(out@) =~= yaml_views(items@));
                }
                Value::Array(out)
            },
            Value::Hash(entries) => {
                let mut out: Vec<(Value, Value)> = Vec::new();
                let mut i: usize = 0;
                while i < entries.len()
                    invariant
                        i <= entries.len(),
                        out.len() == i,
                        forall|j: int|
                            0 <= j < i ==> out@[j].0@ == entries@[j].0@ && out@[j].1@
                                == entries@[j].1@,
                        *self == Value::Hash(*entries),
                    decreases entries.len() - i,
                {
                    assert(decreases_to!(*self => self->Hash_0));
                    assert(decreases_to!(*entries => entries[i as int]));
                    assert(decreases_to!(entries[i as int] => entries[i as int].0));
                    assert(decreases_to!(entries[i as int] => entries[i as int].1));
                    let k = entries[i].0.deep_copy();
                    let v = entries[i].1.deep_copy();
                    out.push((k, v));
                    i += 1;
                }
                proof {
                    lemma_hash_view(out);
                    lemma_hash_view(*entries);
                    assert(pair_views(out@) =~= pair_views(entries@));
                }
                Value::Hash(out)
            },
            Value::Alias(n) => Value::Alias(*n),
            Value::Null => Value::Null,
            Value::BadValue => Value::BadValue,
        }
    }
}

impl Clone for Value {
    /// A value that holds what this one holds.
    fn clone(&self) -> (r: Self)
        ensures
            r@ == self@,
    {
        self.deep_copy()
    }
}

/// The text of a truth value.
pub open spec fn bool_text(b: bool) -> Seq<char> {
    if b {
        "true"@
    } else {
        "false"@
    }
}

/// The text that a value is, if it is one.
pub open spec fn as_text(v: ValueView) -> Option<Seq<char>> {
    match v {
        ValueView::String(s) => Some(s),
        _ => None,
    }
}

/// `search` occurs in the rendering of a scalar, or in that of some element of
/// a sequence. Mappings and the other values hold no text.
pub open spec fn contains_text(v: ValueView, search: Seq<char>) -> bool
    decreases v,
{
    match v {
        ValueView::String(s) => is_substring(search, s),
        ValueView::Array(items) => exists|i: int|
            0 <= i < items.len() && contains_text(#[trigger] items[i], search),
        ValueView::Integer(n) => is_substring(search, decimal(n as int)),
        ValueView::Real(s) => is_substring(search, s),
        ValueView::Boolean(b) => is_substring(search, bool_text(b)),
        _ => false,
    }
}

/// As `contains_text`, with both sides taken in lowercase.
pub open spec fn contains_text_ignoring_case(v: ValueView, search: Seq<char>) -> bool
    decreases v,
{
    match v {
        ValueView::String(s) => is_substring(lowercase(search), lowercase(s)),
        ValueView::Array(items) => exists|i: int|
            0 <= i < items.len() && contains_text_ignoring_case(#[trigger] items[i], search),
        ValueView::Integer(n) => is_substring(lowercase(search), lowercase(decimal(n as int))),
        ValueView::Real(s) => is_substring(lowercase(search), lowercase(s)),
        ValueView::Boolean(b) => is_substring(lowercase(search), lowercase(bool_text(b))),
        _ => false,
    }
}

/// Whether a value is one of the scalars that render as their own text.
pub open spec fn is_plain_scalar(v: ValueView) -> bool {
    v is String || v is Integer || v is Real || v is Boolean
}

/// The text of a scalar: a text itself, a number in decimal notation, a real
/// as it was read, a truth value as `true` or `false`.
pub open spec fn scalar_text(v: ValueView) -> Seq<char>
    recommends
        is_plain_scalar(v),
{
    match v {
        ValueView::String(s) => s,
        ValueView::Integer(n) => decimal(n as int),
        ValueView::Real(s) => s,
        ValueView::Boolean(b) => bool_text(b),
        _ => Seq::empty(),
    }
}

/// The texts among `items`, in their order.
pub open spec fn text_items(items: Seq<ValueView>) -> Seq<Seq<char>>
    decreases items.len(),
{
    if items.len() == 0 {
        Seq::empty()
    } else if items.last() is String {
        text_items(items.drop_last()).push(items.last()->String_0)
    } else {
        text_items(items.drop_last())
    }
}

/// The texts that a value contributes to a collection of values: a scalar its
/// rendering, a sequence the texts among its elements, anything else nothing.
pub open spec fn collected_texts(v: ValueView) -> Seq<Seq<char>> {
    match v {
        ValueView::Array(items) => text_items(items),
        _ => if is_plain_scalar(v) {
            seq![scalar_text(v)]
        } else {
            Seq::empty()
        },
    }
}

/// The views of the values held in a vector.
pub open spec fn yaml_views(items: Seq<Value>) -> Seq<ValueView> {
    items.map_values(|y: Value| y@)
}

/// The views of the strings held in a vector.
pub open spec fn string_views(items: Seq<String>) -> Seq<Seq<char>> {
    items.map_values(|s: String| s@)
}

/// The views of the pairs held in a vector.
pub open spec fn pair_views(entries: Seq<(Value, Value)>) -> Seq<(ValueView, ValueView)> {
    entries.map_values(|e: (Value, Value)| (e.0@, e.1@))
}

/// The view of a sequence holds the views of its elements.
pub proof fn lemma_array_view(items: Vec<Value>)
    ensures
        Value::Array(items)@ == ValueView::Array(yaml_views(items@)),
{
    reveal_with_fuel(<Value as View>::view, 2);
    assert(Value::Array(items)@->Array_0 =~= yaml_views(items@));
}

/// The view of a mapping holds the views of its entries.
pub proof fn lemma_hash_view(entries: Vec<(Value, Value)>)
    ensures
        Value::Hash(entries)@ == ValueView::Hash(pair_views(entries@)),
{
    reveal_with_fuel(<Value as View>::view, 2);
    assert(Value::Hash(entries)@->Hash_0 =~= pair_views(entries@));
}

/// The text of a value that is a text.
pub fn yaml_as_str(yaml: &Value) -> (r: Option<&str>)
    ensures
        match r {
            Some(t) => as_text(yaml@) == Some(t@),
            None => as_text(yaml@) is None,
        },
{
    match yaml {
        Value::String(s) => Some(s.as_str()),
        _ => None,
    }
}

/// Whether `search` occurs in a value.
fn contains_chars(yaml: &Value, search: &Vec<char>) -> (r: bool)
    ensures
        r == contains_text(yaml@, search@),
    decreases yaml,
{
    match yaml {
        Value::String(s) => contains(&chars_of(s.as_str()), search),
        Value::Array(items) => {
            let mut i: usize = 0;
            while i < items.len()
                invariant
                    i <= items.len(),
                    *yaml == Value::Array(*items),
                    forall|j: int| 0 <= j < i ==> !contains_text(items@[j]@, search@),
                decreases items.len() - i,
            {
                assert(decreases_to!(*items => items[i as int]));
                if contains_chars(&items[i], search) {
                    proof {
                        lemma_array_view(*items);
                        assert(yaml@->Array_0[i as int] == items@[i as int]@);
                    }
                    return true;
                }
                i += 1;
            }
            proof {
                lemma_array_view(*items);
            }
            assert forall|j: int| 0 <= j < yaml@->Array_0.len() implies !contains_text(
                #[trigger] yaml@->Array_0[j],
                search@,
            ) by {
                assert(yaml@->Array_0[j] == items@[j]@);
            }
            false
        },
        Value::Integer(n) => contains(&decimal_chars(*n), search),
        Value::Real(s) => contains(&chars_of(s.as_str()), search),
        Value::Boolean(b) => contains(&bool_chars(*b), search),
        _ => false,
    }
}

/// The text of a truth value.
fn bool_chars(b: bool) -> (r: Vec<char>)
    ensures
        r@ == bool_text(b),
{
    if b {
        chars_of("true")
    } else {
        chars_of("false")
    }
}

/// Whether `search` occurs in a value: in the rendering of a scalar, or in
/// that of some element of a sequence.
pub fn yaml_contains_str(yaml: &Value, search: &str) -> (r: bool)
    ensures
        r == contains_text(yaml@, search@),
{
    let needle = chars_of(search);
    contains_chars(yaml, &needle)
}

/// As `yaml_contains_str`, with both sides taken in lowercase.
pub fn yaml_contains_str_case_insensitive(yaml: &Value, search: &str) -> (r: bool)
    ensures
        r == contains_text_ignoring_case(yaml@, search@),
    decreases yaml,
{
    let needle = lowercase_chars(search);
    match yaml {
        Value::String(s) => contains(&lowercase_chars(s.as_str()), &needle),
        Value::Array(items) => {
            let mut i: usize = 0;
            while i < items.len()
                invariant
                    i <= items.len(),
                    *yaml == Value::Array(*items),
                    forall|j: int|
                        0 <= j < i ==> !contains_text_ignoring_case(items@[j]@, search@),
                decreases items.len() - i,
            {
                assert(decreases_to!(*items => items[i as int]));
                if yaml_contains_str_case_insensitive(&items[i], search) {
                    proof {
                        lemma_array_view(*items);
                        assert(yaml@->Array_0[i as int] == items@[i as int]@);
                    }
                    return true;
                }
                i += 1;
            }
            proof {
                lemma_array_view(*items);
            }
            assert forall|j: int|
                0 <= j < yaml@->Array_0.len() implies !contains_text_ignoring_case(
                #[trigger] yaml@->Array_0[j],
                search@,
            ) by {
                assert(yaml@->Array_0[j] == items@[j]@);
            }
            false
        },
        Value::Integer(n) => {
            let text = text_of(&decimal_chars(*n));
            contains(&lowercase_chars(text.as_str()), &needle)
        },
        Value::Real(s) => contains(&lowercase_chars(s.as_str()), &needle),
        Value::Boolean(b) => {
            let text = text_of(&bool_chars(*b));
            contains(&lowercase_chars(text.as_str()), &needle)
        },
        _ => false,
    }
}

/// The texts that a value contributes to a collection of values.
pub fn collect_yaml_strings(yaml: &Value) -> (r: Vec<String>)
    ensures
        string_views(r@) == collected_texts(yaml@),
{
    let mut out: Vec<String> = Vec::new();
    match yaml {
        Value::String(s) => {
            out.push(s.clone());
            assert(string_views(out@) =~= seq![s@]);
        },
        Value::Array(items) => {
            let mut i: usize = 0;
            proof {
                lemma_array_view(*items);
            }
            assert(yaml@->Array_0.take(0) =~= Seq::<ValueView>::empty());
            assert(string_views(out@) =~= Seq::<Seq<char>>::empty());
            while i < items.len()
                invariant
                    i <= items.len(),
                    yaml@ == ValueView::Array(yaml_views(items@)),
                    string_views(out@) == text_items(yaml@->Array_0.take(i as int)),
                decreases items.len() - i,
            {
                let ghost before = string_views(out@);
                let ghost all = yaml@->Array_0;
                proof {
                    assert(all.take(i + 1).drop_last() =~= all.take(i as int));
                    assert(all.take(i + 1).last() == items@[i as int]@);
                }
                if let Value::String(s) = &items[i] {
                    out.push(s.clone());
                    assert(string_views(out@) =~= before.push(s@));
                }
                i += 1;
            }
            assert(yaml@->Array_0.take(i as int) =~= yaml@->Array_0);
        },
        Value::Integer(n) => {
            out.push(text_of(&decimal_chars(*n)));
            assert(string_views(out@) =~= seq![decimal(*n as int)]);
        },
        Value::Real(s) => {
            out.push(s.clone());
            assert(string_views(out@) =~= seq![s@]);
        },
        Value::Boolean(b) => {
            out.push(text_of(&bool_chars(*b)));
            assert(string_views(out@) =~= seq![bool_text(*b)]);
        },
        _ => {
            assert(string_views(out@) =~= Seq::<Seq<char>>::empty());
        },
    }
    out
}

/// A value of the JSON data model, as it stands in memory. A real number is
/// held as the text that was read; an object as its members in their order,
/// of which a reader that wants one value for each name takes the last.
#[derive(Debug)]
pub enum Json {
    Null,
    Bool(bool),
    Integer(i64),
    Real(String),
    String(String),
    Array(Vec<Json>),
    Object(Vec<(String, Json)>),
}

/// A value of the JSON data model as contracts speak of it.
pub enum JsonView {
    Null,
    Bool(bool),
    Integer(i64),
    Real(Seq<char>),
    String(Seq<char>),
    Array(Seq<JsonView>),
    Object(Seq<(Seq<char>, JsonView)>),
}

impl View for Json {
    type V = JsonView;

    open spec fn view(&self) -> JsonView
        decreases self,
    {
        match self {
            Json::Null => JsonView::Null,
            Json::Bool(b) => JsonView::Bool(*b),
            Json::Integer(n) => JsonView::Integer(*n),
            Json::Real(s) => JsonView::Real(s@),
            Json::String(s) => JsonView::String(s@),
            Json::Array(items) => JsonView::Array(
                Seq::new(
                    items@.len(),
                    |i: int|
                        if 0 <= i < items@.len() {
                            items@[i].view()
                        } else {
                            JsonView::Null
                        },
                ),
            ),
            Json::Object(members) => JsonView::Object(
                Seq::new(
                    members@.len(),
                    |i: int|
                        if 0 <= i < members@.len() {
                            (members@[i].0@, members@[i].1.view())
                        } else {
                            (Seq::empty(), JsonView::Null)
                        },
                ),
            ),
        }
    }
}

/// The views of the JSON values held in a vector.
pub open spec fn json_views(items: Seq<Json>) -> Seq<JsonView> {
    items.map_values(|j: Json| j@)
}

/// The views of the members held in a vector.
pub open spec fn member_views(members: Seq<(String, Json)>) -> Seq<(Seq<char>, JsonView)> {
    members.map_values(|m: (String, Json)| (m.0@, m.1@))
}

/// The view of a JSON array holds the views of its elements.
pub proof fn lemma_json_array_view(items: Vec<Json>)
    ensures
        Json::Array(items)@ == JsonView::Array(json_views(items@)),
{
    reveal_with_fuel(<Json as View>::view, 2);
    assert(Json::Array(items)@->Array_0 =~= json_views(items@));
}

/// The view of a JSON object holds the views of its members.
pub proof fn lemma_json_object_view(members: Vec<(String, Json)>)
    ensures
        Json::Object(members)@ == JsonView::Object(member_views(members@)),
{
    reveal_with_fuel(<Json as View>::view, 2);
    assert(Json::Object(members)@->Object_0 =~= member_views(members@));
}

/// The JSON value that stands for a structured value. Scalars keep their
/// kind; a mapping keeps the entries whose key is a text; whatever has no
/// counterpart becomes null.
pub open spec fn json_of(v: ValueView) -> JsonView
    decreases v,
{
    match v {
        ValueView::String(s) => JsonView::String(s),
        ValueView::Integer(n) => JsonView::Integer(n),
        ValueView::Real(s) => JsonView::Real(s),
        ValueView::Boolean(b) => JsonView::Bool(b),
        ValueView::Array(items) => JsonView::Array(json_of_items(items)),
        ValueView::Hash(entries) => JsonView::Object(json_of_entries(entries)),
        _ => JsonView::Null,
    }
}

/// The JSON values that stand for the elements of a sequence.
pub open spec fn json_of_items(items: Seq<ValueView>) -> Seq<JsonView>
    decreases items,
{
    if items.len() == 0 {
        Seq::empty()
    } else {
        json_of_items(items.drop_last()).push(json_of(items.last()))
    }
}

/// The members that stand for the entries of a mapping: those whose key is a
/// text, in their order.
pub open spec fn json_of_entries(entries: Seq<(ValueView, ValueView)>) -> Seq<(Seq<char>, JsonView)>
    decreases entries,
{
    if entries.len() == 0 {
        Seq::empty()
    } else if entries.last().0 is String {
        json_of_entries(entries.drop_last()).push(
            (entries.last().0->String_0, json_of(entries.last().1)),
        )
    } else {
        json_of_entries(entries.drop_last())
    }
}

/// The JSON value that stands for a structured value.
pub fn yaml_to_json_value(yaml: &Value) -> (r: Json)
    ensures
        r@ == json_of(yaml@),
    decreases yaml,
{
    match yaml {
        Value::String(s) => Json::String(s.clone()),
        Value::Integer(n) => Json::Integer(*n),
        Value::Real(s) => Json::Real(s.clone()),
        Value::Boolean(b) => Json::Bool(*b),
        Value::Array(items) => {
            let mut out: Vec<Json> = Vec::new();
            let mut i: usize = 0;
            let ghost all = yaml_views(items@);
            proof {
                lemma_array_view(*items);
                assert(all.take(0) =~= Seq::<ValueView>::empty());
                assert(json_views(out@) =~= Seq::<JsonView>::empty());
            }
            while i < items.len()
                invariant
                    i <= items.len(),
                    *yaml == Value::Array(*items),
                    all == yaml_views(items@),
                    json_views(out@) == json_of_items(all.take(i as int)),
                decreases items.len() - i,
            {
                let ghost before = json_views(out@);
                assert(decreases_to!(*yaml => yaml->Array_0));
                assert(decreases_to!(*items => items[i as int]));
                let item = yaml_to_json_value(&items[i]);
                out.push(item);
                proof {
                    assert(all.take(i + 1).drop_last() =~= all.take(i as int));
                    assert(all.take(i + 1).last() == items@[i as int]@);
                    assert(json_views(out@) =~= before.push(item@));
                }
                i += 1;
            }
            proof {
                assert(all.take(i as int) =~= all);
                lemma_json_array_view(out);
            }
            Json::Array(out)
        },
        Value::Hash(entries) => {
            let mut out: Vec<(String, Json)> = Vec::new();
            let mut i: usize = 0;
            let ghost all = pair_views(entries@);
            proof {
                lemma_hash_view(*entries);
                assert(all.take(0) =~= Seq::<(ValueView, ValueView)>::empty());
                assert(member_views(out@) =~= Seq::<(Seq<char>, JsonView)>::empty());
            }
            while i < entries.len()
                invariant
                    i <= entries.len(),
                    *yaml == Value::Hash(*entries),
                    all == pair_views(entries@),
                    member_views(out@) == json_of_entries(all.take(i as int)),
                decreases entries.len() - i,
            {
                let ghost before = member_views(out@);
                proof {
                    assert(all.take(i + 1).drop_last() =~= all.take(i as int));
                    assert(all.take(i + 1).last() == (entries@[i as int].0@, entries@[i as int].1@));
                }
                if let Value::String(key) = &entries[i].0 {
                    assert(decreases_to!(*yaml => yaml->Hash_0));
                    assert(decreases_to!(*entries => entries[i as int]));
                    assert(decreases_to!(entries[i as int] => entries[i as int].1));
                    let value = yaml_to_json_value(&entries[i].1);
                    out.push((key.clone(), value));
                    assert(member_views(out@) =~= before.push((key@, value@)));
                }
                i += 1;
            }
            proof {
                assert(all.take(i as int) =~= all);
                lemma_json_object_view(out);
            }
            Json::Object(out)
        },
        _ => Json::Null,
    }
}

/// The value type of the YAML parser, of which Verus sees nothing.
#[verifier::external_type_specification]
#[verifier::external_body]
pub struct ExParserYaml(yaml_rust2::Yaml);

/// What the YAML parser makes of a source text: the documents that it holds,
/// or the scanner's error in the words of its `Display`.
pub uninterp spec fn loaded_documents(source: Seq<char>) -> Result<Seq<ValueView>, Seq<char>>;

/// What the derived `Debug` of the YAML parser's value type prints for a value.
pub uninterp spec fn debug_rendering(v: ValueView) -> Seq<char>;

/// Turns a value of the YAML parser into one of this library, variant by
/// variant and field by field; a mapping into its entries in their order.
#[verifier::external_body]
fn from_parser(y: &yaml_rust2::Yaml) -> Value {
    match y {
        yaml_rust2::Yaml::Real(s) => Value::Real(s.clone()),
        yaml_rust2::Yaml::Integer(n) => Value::Integer(*n),
        yaml_rust2::Yaml::String(s) => Value::String(s.clone()),
        yaml_rust2::Yaml::Boolean(b) => Value::Boolean(*b),
        yaml_rust2::Yaml::Array(a) => Value::Array(a.iter().map(from_parser).collect()),
        yaml_rust2::Yaml::Hash(h) => Value::Hash(
            h.iter().map(|(k, v)| (from_parser(k), from_parser(v))).collect(),
        ),
        yaml_rust2::Yaml::Alias(n) => Value::Alias(*n),
        yaml_rust2::Yaml::Null => Value::Null,
        yaml_rust2::Yaml::BadValue => Value::BadValue,
    }
}

/// Turns a value of this library into one of the YAML parser, variant by
/// variant and field by field; the entries of a mapping are inserted in their
/// order.
#[verifier::external_body]
fn to_parser(y: &Value) -> yaml_rust2::Yaml {
    match y {
        Value::Real(s) => yaml_rust2::Yaml::Real(s.clone()),
        Value::Integer(n) => yaml_rust2::Yaml::Integer(*n),
        Value::String(s) => yaml_rust2::Yaml::String(s.clone()),
        Value::Boolean(b) => yaml_rust2::Yaml::Boolean(*b),
        Value::Array(a) => yaml_rust2::Yaml::Array(a.iter().map(to_parser).collect()),
        Value::Hash(h) => yaml_rust2::Yaml::Hash(
            h.iter().map(|e| (to_parser(&e.0), to_parser(&e.1))).collect(),
        ),
        Value::Alias(n) => yaml_rust2::Yaml::Alias(*n),
        Value::Null => yaml_rust2::Yaml::Null,
        Value::BadValue => yaml_rust2::Yaml::BadValue,
    }
}

/// `YamlLoader::load_from_str`, which parses a source text into its
/// documents or fails with a scanner error. The outcome depends on the source
/// alone and is taken on trust under the name `loaded_documents`; nothing is
/// claimed of what the documents hold.
#[verifier::external_body]
fn load_documents(source: &str) -> (r: Result<Vec<Value>, String>)
    ensures
        match r {
            Ok(docs) => loaded_documents(source@) == Ok::<Seq<ValueView>, Seq<char>>(
                yaml_views(docs@),
            ),
            Err(message) => loaded_documents(source@) == Err::<Seq<ValueView>, Seq<char>>(
                message@,
            ),
        },
{
    match yaml_rust2::YamlLoader::load_from_str(source) {
        Ok(docs) => Ok(docs.iter().map(from_parser).collect()),
        Err(e) => Err(e.to_string()),
    }
}

/// The derived `Debug` of the YAML parser's value type, applied to the value
/// of the parser that holds what `yaml` holds. The text is taken on trust
/// under the name `debug_rendering`.
#[verifier::external_body]
fn debug_text(yaml: &Value) -> (r: String)
    ensures
        r@ == debug_rendering(yaml@),
{
    format!("{:?}", to_parser(yaml))
}

/// The text that stands for a value where one is listed: a scalar as its own
/// text, null as `null`, anything else as the debug rendering of the tree.
pub open spec fn rendering(v: ValueView) -> Seq<char> {
    match v {
        ValueView::Null => "null"@,
        _ => if is_plain_scalar(v) {
            scalar_text(v)
        } else {
            debug_rendering(v)
        },
    }
}

/// The text that stands for a value where one is listed.
pub fn yaml_to_string(yaml: &Value) -> (r: String)
    ensures
        r@ == rendering(yaml@),
{
    match yaml {
        Value::String(s) => s.clone(),
        Value::Integer(n) => text_of(&decimal_chars(*n)),
        Value::Real(s) => s.clone(),
        Value::Boolean(b) => text_of(&bool_chars(*b)),
        Value::Null => "null".to_owned(),
        _ => debug_text(yaml),
    }
}

/// The metadata of a document as contracts speak of it: its entries in their
/// order, keys and values taken by their views.
pub type Metadata = Seq<(Seq<char>, ValueView)>;

/// The entries of a metadata map, each value taken by its view.
pub open spec fn metadata_view(entries: Seq<(Seq<char>, Value)>) -> Metadata {
    entries.map_values(|e: (Seq<char>, Value)| (e.0, e.1@))
}

/// The metadata that the entries of a mapping give: those whose key is a
/// text, in their order, a later value in the place of an earlier one with
/// the same key.
pub open spec fn text_keyed_entries(entries: Seq<(ValueView, ValueView)>) -> Metadata
    decreases entries.len(),
{
    if entries.len() == 0 {
        Seq::empty()
    } else if entries.last().0 is String {
        with_entry(
            text_keyed_entries(entries.drop_last()),
            entries.last().0->String_0,
            entries.last().1,
        )
    } else {
        text_keyed_entries(entries.drop_last())
    }
}

/// Why a text gave no metadata under a strict parse. Either way the error
/// holds the message that says so.
#[derive(Debug)]
pub enum ParseError {
    /// The text is not well formed.
    Syntax(String),
    /// The text is well formed, but the root of its first document is neither
    /// a mapping nor null: there is no metadata in it.
    Root(String),
}

/// The error of a strict parse as contracts speak of it.
pub enum ParseErrorView {
    Syntax(Seq<char>),
    Root(Seq<char>),
}

impl View for ParseError {
    type V = ParseErrorView;

    open spec fn view(&self) -> ParseErrorView {
        match self {
            ParseError::Syntax(message) => ParseErrorView::Syntax(message@),
            ParseError::Root(message) => ParseErrorView::Root(message@),
        }
    }
}

/// The message of an error.
pub open spec fn error_text(e: ParseErrorView) -> Seq<char> {
    match e {
        ParseErrorView::Syntax(message) => message,
        ParseErrorView::Root(message) => message,
    }
}

impl ParseError {
    /// The message of the error.
    pub fn message(&self) -> (r: &str)
        ensures
            r@ == error_text(self@),
    {
        match self {
            ParseError::Syntax(message) => message.as_str(),
            ParseError::Root(message) => message.as_str(),
        }
    }
}

/// The metadata that the root of a document gives: the text-keyed entries of
/// a mapping, nothing for null, and for anything else an error that names it.
pub open spec fn root_metadata(root: ValueView) -> Result<Metadata, ParseErrorView> {
    match root {
        ValueView::Hash(entries) => Ok(text_keyed_entries(entries)),
        ValueView::Null => Ok(Seq::empty()),
        _ => Err(
            ParseErrorView::Root(
                "Expected hash or null at document root, got "@ + debug_rendering(root),
            ),
        ),
    }
}

/// The metadata that a block gives under a strict parse: that of the root of
/// its first document, nothing where it holds no document, and the parser's
/// error where it has one.
pub open spec fn parsed_metadata(content: Seq<char>) -> Result<Metadata, ParseErrorView> {
    match loaded_documents(content) {
        Ok(docs) => if docs.len() == 0 {
            Ok(Seq::empty())
        } else {
            root_metadata(docs[0])
        },
        Err(message) => Err(ParseErrorView::Syntax("YAML parsing error: "@ + message)),
    }
}

/// Whether a result holds the metadata, or the error, that the model gives.
pub open spec fn is_outcome(
    r: Result<StringMap<Value>, ParseError>,
    model: Result<Metadata, ParseErrorView>,
) -> bool {
    match r {
        Ok(map) => model == Ok::<Metadata, ParseErrorView>(metadata_view(map.entries())),
        Err(e) => model == Err::<Metadata, ParseErrorView>(e@),
    }
}

/// Putting a value under a key does to the views what it does to the values.
pub proof fn lemma_metadata_view_with_entry(m: Seq<(Seq<char>, Value)>, key: Seq<char>, value: Value)
    ensures
        metadata_view(with_entry(m, key, value)) == with_entry(metadata_view(m), key, value@),
{
    lemma_metadata_view_keys(m, key);
    assert(metadata_view(with_entry(m, key, value)) =~= with_entry(
        metadata_view(m),
        key,
        value@,
    ));
}

/// A key stands in the views where it stands in the values.
pub proof fn lemma_metadata_view_keys(m: Seq<(Seq<char>, Value)>, key: Seq<char>)
    ensures
        index_of_key(metadata_view(m), key) == index_of_key(m, key),
    decreases m.len(),
{
    if m.len() > 0 && m[0].0 != key {
        lemma_metadata_view_keys(m.drop_first(), key);
        assert(metadata_view(m).drop_first() =~= metadata_view(m.drop_first()));
    }
}

/// A key stands in the views, letters of either case, where it stands in the
/// values.
pub proof fn lemma_metadata_view_keys_ignoring_case(m: Seq<(Seq<char>, Value)>, key: Seq<char>)
    ensures
        index_ignoring_case(metadata_view(m), key) == index_ignoring_case(m, key),
    decreases m.len(),
{
    if m.len() > 0 && lowercase(m[0].0) != lowercase(key) {
        lemma_metadata_view_keys_ignoring_case(m.drop_first(), key);
        assert(metadata_view(m).drop_first() =~= metadata_view(m.drop_first()));
    }
}

/// The metadata that the root of a document gives.
pub fn yaml_to_string_map(yaml: &Value) -> (r: Result<StringMap<Value>, ParseError>)
    ensures
        is_outcome(r, root_metadata(yaml@)),
{
    match yaml {
        Value::Hash(entries) => {
            let mut result: StringMap<Value> = StringMap::new();
            let ghost all = pair_views(entries@);
            proof {
                lemma_hash_view(*entries);
                assert(all.take(0) =~= Seq::<(ValueView, ValueView)>::empty());
                assert(metadata_view(result.entries()) =~= Seq::<(Seq<char>, ValueView)>::empty());
            }
            let mut i: usize = 0;
            while i < entries.len()
                invariant
                    i <= entries.len(),
                    all == pair_views(entries@),
                    metadata_view(result.entries()) == text_keyed_entries(all.take(i as int)),
                decreases entries.len() - i,
            {
                let ghost before = result.entries();
                proof {
                    assert(all.take(i + 1).drop_last() =~= all.take(i as int));
                    assert(all.take(i + 1).last() == (entries@[i as int].0@, entries@[i as int].1@));
                }
                if let Value::String(key) = &entries[i].0 {
                    let value = entries[i].1.clone();
                    result.insert(key.clone(), value);
                    proof {
                        assert(result.entries() == with_entry(before, key@, value));
                        lemma_metadata_view_with_entry(before, key@, value);
                    }
                }
                i += 1;
            }
            proof {
                assert(all.take(i as int) =~= all);
            }
            Ok(result)
        },
        Value::Null => {
            let result: StringMap<Value> = StringMap::new();
            assert(metadata_view(result.entries()) =~= Seq::<(Seq<char>, ValueView)>::empty());
            Ok(result)
        },
        _ => {
            let shown = debug_text(yaml);
            Err(
                ParseError::Root(
                    concat_text("Expected hash or null at document root, got ", shown.as_str()),
                ),
            )
        },
    }
}

/// The metadata that a block gives under a strict parse.
pub fn parse_yaml_frontmatter(content: &str) -> (r: Result<StringMap<Value>, ParseError>)
    ensures
        is_outcome(r, parsed_metadata(content@)),
{
    match load_documents(content) {
        Ok(docs) => {
            if docs.len() == 0 {
                let result: StringMap<Value> = StringMap::new();
                assert(metadata_view(result.entries()) =~= Seq::<(Seq<char>, ValueView)>::empty());
                Ok(result)
            } else {
                yaml_to_string_map(&docs[0])
            }
        },
        Err(e) => Err(ParseError::Syntax(concat_text("YAML parsing error: ", e.as_str()))),
    }
}

} // verus!
