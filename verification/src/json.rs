//! JSON values: reading, comparing, writing out and sorting.

use vstd::prelude::*;
use vstd::string::*;

use serde_json::{Number, Value};

use crate::ordered::{texts, Dup};
use crate::sorting::{insert_stable, keyed, is_rearrangement, law_sort_rearranges, law_sorted_is_kept, law_stable_sorted, lemma_map_multiset, lemma_member, lemma_rearrangement_is_complete, lemma_sorted_unique, stable_sort, stable_sorted, unkeyed, views};
use crate::text::{string_view, text_eq, text_le, text_lt};
use crate::tokens::{is_key_token, is_unescaped, member_span, respelled, tokens_from, Token};

verus! {

/// A JSON value.
///
/// A number is held as the text that `serde_json` prints for it; the fields of an object
/// are in the order in which they came.
pub enum Json {
    /// `null`.
    Null,
    /// `true` or `false`.
    Bool(bool),
    /// A number, as text.
    Number(String),
    /// A string.
    Text(String),
    /// An array.
    Array(Vec<Json>),
    /// An object.
    Object(Vec<(String, Json)>),
}

/// The mathematical JSON value.
#[verifier::ext_equal]
pub enum JsonView {
    Null,
    Bool(bool),
    Number(Seq<char>),
    Text(Seq<char>),
    Array(Seq<JsonView>),
    Object(Seq<(Seq<char>, JsonView)>),
}

impl Json {
    /// The value that a `Json` stands for.
    pub open spec fn value(self) -> JsonView
        decreases self,
    {
        match self {
            Json::Null => JsonView::Null,
            Json::Bool(b) => JsonView::Bool(b),
            Json::Number(n) => JsonView::Number(n@),
            Json::Text(s) => JsonView::Text(s@),
            Json::Array(items) => JsonView::Array(
                Seq::new(
                    items@.len(),
                    |i: int|
                        if 0 <= i < items@.len() {
                            items@[i].value()
                        } else {
                            JsonView::Null
                        },
                ),
            ),
            Json::Object(fields) => JsonView::Object(
                Seq::new(
                    fields@.len(),
                    |i: int|
                        if 0 <= i < fields@.len() {
                            (fields@[i].0@, fields@[i].1.value())
                        } else {
                            (Seq::empty(), JsonView::Null)
                        },
                ),
            ),
        }
    }
}

impl View for Json {
    type V = JsonView;

    open spec fn view(&self) -> JsonView {
        self.value()
    }
}

// ---------------------------------------------------------------------
// Reading
// ---------------------------------------------------------------------

/// The value type of `serde_json`.
#[verifier::external_type_specification]
#[verifier::external_body]
pub struct ExSerdeJsonValue(serde_json::Value);

/// What a JSON value is read from: text, or a value that the parser has already built.
pub(crate) enum JsonSource<'a> {
    /// Text still to be parsed.
    Text(&'a str),
    /// A parsed value.
    Parsed(serde_json::Value),
}

/// The value that `serde_json` reads from a text, where the text is JSON.
pub uninterp spec fn parsed_json(text: Seq<char>) -> Option<JsonView>;

/// `serde_json::from_str::<serde_json::Value>` on a text, the result given as a `Json`
/// with each number in the text that `serde_json` prints for it. Claims that the result
/// is a function of the text; that no object read holds a key twice (`serde_json::Map` is
/// a map) and every number is in the form in which it is printed; and that in a text that
/// is JSON the string under a key of the outermost object can be exchanged for another, the
/// value read being then the same but for that field. Of a value that was parsed before
/// nothing is claimed: it stands here only so that the parts of an array or an object are
/// given the same way.
#[verifier::external_body]
pub(crate) fn read_json(source: JsonSource<'_>) -> (r: Option<Json>)
    ensures
        source matches JsonSource::Text(text) ==> match r {
            Some(json) => {
                &&& parsed_json(text@) == Some(json@)
                &&& is_printable(json@)
                &&& strings_can_be_exchanged(text@, json@)
            },
            None => parsed_json(text@) is None,
        },
{
    let value = match source {
        JsonSource::Text(text) => serde_json::from_str(text).ok()?,
        JsonSource::Parsed(value) => value,
    };
    let part = |v| read_json(JsonSource::Parsed(v));
    Some(match value {
        Value::Null => Json::Null,
        Value::Bool(b) => Json::Bool(b),
        Value::Number(n) => Json::Number(n.to_string()),
        Value::String(s) => Json::Text(s),
        Value::Array(items) => Json::Array(items.into_iter().map(part).collect::<Option<_>>()?),
        Value::Object(fields) => Json::Object(fields.into_iter().map(|(k, v)| Some((k, part(v)?))).collect::<Option<_>>()?),
    })
}

/// The value of an optional `Json`.
pub open spec fn json_view(json: Option<Json>) -> Option<JsonView> {
    match json {
        Some(j) => Some(j@),
        None => None,
    }
}

impl Json {
    /// The JSON value that a text holds, if it is JSON.
    pub fn parse(text: &str) -> (r: Option<Json>)
        ensures
            match r {
                Some(json) => {
                    &&& parsed_json(text@) == Some(json@)
                    &&& is_printable(json@)
                    &&& strings_can_be_exchanged(text@, json@)
                },
                None => parsed_json(text@) is None,
            },
    {
        read_json(JsonSource::Text(text))
    }
}

/// No object in the value, at any depth, holds a key twice.
pub open spec fn distinct_keys(v: JsonView) -> bool
    decreases v,
{
    match v {
        JsonView::Array(items) => forall|i: int|
            0 <= i < items.len() ==> distinct_keys(#[trigger] items[i]),
        JsonView::Object(fields) => {
            &&& forall|i: int, j: int|
                0 <= i < j < fields.len() ==> (#[trigger] fields[i]).0 != (#[trigger] fields[j]).0
            &&& forall|i: int| 0 <= i < fields.len() ==> distinct_keys((#[trigger] fields[i]).1)
        },
        _ => true,
    }
}

/// Every number in the value, at any depth, is held as the text that is printed for it.
pub open spec fn plain_numbers(v: JsonView) -> bool
    decreases v,
{
    match v {
        JsonView::Number(n) => printed_json(v) == n,
        JsonView::Array(items) => forall|i: int|
            0 <= i < items.len() ==> plain_numbers(#[trigger] items[i]),
        JsonView::Object(fields) => forall|i: int|
            0 <= i < fields.len() ==> plain_numbers((#[trigger] fields[i]).1),
        _ => true,
    }
}

/// A value as it can be read from a text: no object holds a key twice, and every number is
/// held as the text that is printed for it.
pub open spec fn is_printable(v: JsonView) -> bool {
    distinct_keys(v) && plain_numbers(v)
}

/// A text between quotes.
pub open spec fn quoted(s: Seq<char>) -> Seq<char> {
    seq!['"'] + s + seq!['"']
}

/// Token `n` is a key of the outermost object that stands for `key`, be it spelled so or
/// with escapes.
pub open spec fn stands_for_key(tokens: Seq<Token>, n: int, key: Seq<char>) -> bool {
    exists|spelling: Seq<char>|
        #![trigger is_key_token(tokens, 0, n, spelling, true)]
        is_key_token(tokens, 0, n, spelling, true) && (spelling == key || spelling.contains('\\')
            && parsed_json(quoted(spelling)) == Some(JsonView::Text(key)))
}

/// The outermost object of the text has no two keys that stand for `key`.
pub open spec fn names_once(text: Seq<char>, key: Seq<char>) -> bool {
    forall|m: int, n: int|
        #[trigger] stands_for_key(tokens_from(text, 0), m, key) && #[trigger] stands_for_key(
            tokens_from(text, 0),
            n,
            key,
        ) ==> m == n
}

/// The value with another value under `key`, where it is an object; the other fields and
/// the order of all fields stay.
pub open spec fn with_field(v: JsonView, key: Seq<char>, value: JsonView) -> JsonView {
    match v {
        JsonView::Object(fields) => JsonView::Object(
            fields.map_values(
                |f: (Seq<char>, JsonView)|
                    if f.0 == key {
                        (f.0, value)
                    } else {
                        f
                    },
            ),
        ),
        _ => v,
    }
}

/// The text with the string that the outermost object has under `key` replaced.
pub open spec fn with_member(text: Seq<char>, key: Seq<char>, new: Seq<char>) -> Seq<char> {
    match member_span(text, key) {
        Some(span) => respelled(text, span, new),
        None => text,
    }
}

/// In the text of the value `v`, the string that the outermost object has under a key can be
/// exchanged for another: the text then reads as `v` with that string in its place.
pub open spec fn strings_can_be_exchanged(text: Seq<char>, v: JsonView) -> bool {
    forall|key: Seq<char>, new: Seq<char>|
        is_unescaped(key) && is_unescaped(new) && member_span(text, key) is Some && names_once(
            text,
            key,
        ) ==> parsed_json(#[trigger] with_member(text, key, new)) == Some(
            with_field(v, key, JsonView::Text(new)),
        )
}

// ---------------------------------------------------------------------
// Fields
// ---------------------------------------------------------------------

/// The value of the first field with the given key.
pub open spec fn field_of(fields: Seq<(Seq<char>, JsonView)>, key: Seq<char>) -> Option<JsonView>
    decreases fields.len(),
{
    if fields.len() == 0 {
        None
    } else if fields[0].0 == key {
        Some(fields[0].1)
    } else {
        field_of(fields.skip(1), key)
    }
}

/// The value under `key`, where `v` is an object that has it.
pub open spec fn json_get(v: JsonView, key: Seq<char>) -> Option<JsonView> {
    match v {
        JsonView::Object(fields) => field_of(fields, key),
        _ => None,
    }
}

/// The string under `key`, where `v` is an object that has a string there.
pub open spec fn json_text_field(v: JsonView, key: Seq<char>) -> Option<Seq<char>> {
    match json_get(v, key) {
        Some(JsonView::Text(s)) => Some(s),
        _ => None,
    }
}

/// What `field_of` finds: the value at the first position that holds the key.
pub proof fn lemma_field_of(fields: Seq<(Seq<char>, JsonView)>, key: Seq<char>, i: int)
    requires
        0 <= i < fields.len(),
        fields[i].0 == key,
        forall|j: int| 0 <= j < i ==> (#[trigger] fields[j]).0 != key,
    ensures
        field_of(fields, key) == Some(fields[i].1),
    decreases fields.len(),
{
    if i > 0 {
        let rest = fields.skip(1);
        assert(fields[0].0 != key);
        assert forall|j: int| 0 <= j < i - 1 implies (#[trigger] rest[j]).0 != key by {
            assert(rest[j] == fields[j + 1]);
        }
        lemma_field_of(rest, key, i - 1);
    }
}

proof fn lemma_field_of_none(fields: Seq<(Seq<char>, JsonView)>, key: Seq<char>)
    requires
        forall|j: int| 0 <= j < fields.len() ==> (#[trigger] fields[j]).0 != key,
    ensures
        field_of(fields, key) is None,
    decreases fields.len(),
{
    if fields.len() > 0 {
        let rest = fields.skip(1);
        assert(fields[0].0 != key);
        assert forall|j: int| 0 <= j < rest.len() implies (#[trigger] rest[j]).0 != key by {
            assert(rest[j] == fields[j + 1]);
        }
        lemma_field_of_none(rest, key);
    }
}

fn find_field<'a>(fields: &'a Vec<(String, Json)>, key: &str) -> (r: Option<&'a Json>)
    ensures
        match r {
            Some(json) => {
                &&& field_of(Json::Object(*fields)@->Object_0, key@) == Some(json@)
                &&& exists|i: int| 0 <= i < fields@.len() && (#[trigger] fields@[i]).1 == *json
            },
            None => field_of(Json::Object(*fields)@->Object_0, key@) is None,
        },
{
    let ghost view = Json::Object(*fields)@->Object_0;
    let mut i: usize = 0;
    while i < fields.len()
        invariant
            view == Json::Object(*fields)@->Object_0,
            view.len() == fields@.len(),
            i <= fields@.len(),
            forall|j: int| 0 <= j < i ==> (#[trigger] view[j]).0 != key@,
        decreases fields.len() - i,
    {
        proof {
            assert(view[i as int] == (fields@[i as int].0@, fields@[i as int].1@));
        }
        if text_eq(fields[i].0.as_str(), key) {
            proof {
                lemma_field_of(view, key@, i as int);
            }
            return Some(&fields[i].1);
        }
        i += 1;
    }
    proof {
        lemma_field_of_none(view, key@);
    }
    None
}

impl Json {
    /// The value under `key`, where this is an object that has it.
    pub fn get(&self, key: &str) -> (r: Option<&Json>)
        ensures
            match r {
                Some(json) => json_get(self@, key@) == Some(json@),
                None => json_get(self@, key@) is None,
            },
    {
        match self {
            Json::Object(fields) => find_field(fields, key),
            _ => None,
        }
    }

    /// The string under `key`, where this is an object that has a string there.
    pub fn text_field(&self, key: &str) -> (r: Option<&String>)
        ensures
            match r {
                Some(s) => json_text_field(self@, key@) == Some(s@),
                None => json_text_field(self@, key@) is None,
            },
    {
        match self.get(key) {
            Some(Json::Text(s)) => Some(s),
            _ => None,
        }
    }
}

// ---------------------------------------------------------------------
// Copies, equality
// ---------------------------------------------------------------------

/// Two numbers are the same where they print the same; the two zeros of floating point
/// print differently and are the same.
pub open spec fn same_number(a: Seq<char>, b: Seq<char>) -> bool {
    a == b || (is_float_zero(a) && is_float_zero(b))
}

/// `0.0` or `-0.0`.
pub open spec fn is_float_zero(n: Seq<char>) -> bool {
    n == seq!['0', '.', '0'] || n == seq!['-', '0', '.', '0']
}

/// Equality of JSON values: arrays in order, objects whatever the order of their fields.
pub open spec fn same_json(a: JsonView, b: JsonView) -> bool
    decreases a,
{
    match (a, b) {
        (JsonView::Number(x), JsonView::Number(y)) => same_number(x, y),
        (JsonView::Array(x), JsonView::Array(y)) => {
            &&& x.len() == y.len()
            &&& forall|i: int| 0 <= i < x.len() ==> same_json(#[trigger] x[i], y[i])
        },
        (JsonView::Object(x), JsonView::Object(y)) => {
            &&& x.len() == y.len()
            &&& forall|i: int|
                0 <= i < x.len() ==> field_of(y, (#[trigger] x[i]).0) is Some && same_json(
                    x[i].1,
                    field_of(y, x[i].0)->Some_0,
                )
        },
        (JsonView::Null, JsonView::Null) => true,
        (JsonView::Bool(x), JsonView::Bool(y)) => x == y,
        (JsonView::Text(x), JsonView::Text(y)) => x == y,
        _ => false,
    }
}

/// A JSON value whose objects hold no key twice is the same as itself.
pub proof fn law_same_json_is_reflexive(v: JsonView)
    requires
        distinct_keys(v),
    ensures
        same_json(v, v),
    decreases v,
{
    match v {
        JsonView::Array(items) => {
            assert forall|i: int| 0 <= i < items.len() implies same_json(
                #[trigger] items[i],
                items[i],
            ) by {
                law_same_json_is_reflexive(items[i]);
            }
        },
        JsonView::Object(fields) => {
            assert forall|i: int| 0 <= i < fields.len() implies field_of(
                fields,
                (#[trigger] fields[i]).0,
            ) is Some && same_json(fields[i].1, field_of(fields, fields[i].0)->Some_0) by {
                lemma_field_of(fields, fields[i].0, i);
                law_same_json_is_reflexive(fields[i].1);
            }
        },
        _ => {},
    }
}

fn float_zero(n: &str) -> (r: bool)
    ensures
        r == is_float_zero(n@),
{
    proof {
        reveal_strlit("0.0");
        reveal_strlit("-0.0");
        assert("0.0"@ =~= seq!['0', '.', '0']);
        assert("-0.0"@ =~= seq!['-', '0', '.', '0']);
    }
    text_eq(n, "0.0") || text_eq(n, "-0.0")
}

fn dup_items(items: &Vec<Json>) -> (r: Vec<Json>)
    ensures
        views(r@) == views(items@),
    decreases items,
{
    let mut out: Vec<Json> = Vec::new();
    let mut i: usize = 0;
    while i < items.len()
        invariant
            i <= items@.len(),
            out@.len() == i,
            forall|j: int| 0 <= j < i ==> (#[trigger] out@[j])@ == items@[j]@,
        decreases items.len() - i,
    {
        proof {
            assert(decreases_to!(items => items@[i as int]));
        }
        out.push(items[i].dup());
        i += 1;
    }
    proof {
        assert(views(out@) =~= views(items@));
    }
    out
}

fn dup_fields(fields: &Vec<(String, Json)>) -> (r: Vec<(String, Json)>)
    ensures
        views(r@) == views(fields@),
    decreases fields,
{
    let mut out: Vec<(String, Json)> = Vec::new();
    let mut i: usize = 0;
    while i < fields.len()
        invariant
            i <= fields@.len(),
            out@.len() == i,
            forall|j: int|
                0 <= j < i ==> (#[trigger] out@[j]).0@ == fields@[j].0@ && out@[j].1@
                    == fields@[j].1@,
        decreases fields.len() - i,
    {
        proof {
            assert(decreases_to!(fields => fields@[i as int]));
            assert(decreases_to!(fields@[i as int] => fields@[i as int].1));
        }
        out.push((fields[i].0.clone(), fields[i].1.dup()));
        i += 1;
    }
    proof {
        assert(views(out@) =~= views(fields@));
    }
    out
}

impl Json {
    /// A copy of the value.
    pub fn dup(&self) -> (r: Json)
        ensures
            r@ == self@,
        decreases self,
    {
        match self {
            Json::Null => Json::Null,
            Json::Bool(b) => Json::Bool(*b),
            Json::Number(n) => Json::Number(n.clone()),
            Json::Text(s) => Json::Text(s.clone()),
            Json::Array(items) => {
                let out: Vec<Json> = dup_items(items);
                proof {
                    lemma_views_of_array(*items);
                    lemma_views_of_array(out);
                }
                Json::Array(out)
            },
            Json::Object(fields) => {
                let out: Vec<(String, Json)> = dup_fields(fields);
                proof {
                    lemma_views_of_object(*fields);
                    lemma_views_of_object(out);
                }
                Json::Object(out)
            },
        }
    }

    /// Whether two JSON values are the same.
    pub fn same(&self, other: &Json) -> (r: bool)
        ensures
            r == same_json(self@, other@),
        decreases self,
    {
        match (self, other) {
            (Json::Null, Json::Null) => true,
            (Json::Bool(x), Json::Bool(y)) => *x == *y,
            (Json::Number(x), Json::Number(y)) => text_eq(x.as_str(), y.as_str()) || (float_zero(
                x.as_str(),
            ) && float_zero(y.as_str())),
            (Json::Text(x), Json::Text(y)) => text_eq(x.as_str(), y.as_str()),
            (Json::Array(x), Json::Array(y)) => {
                if x.len() != y.len() {
                    return false;
                }
                let mut i: usize = 0;
                while i < x.len()
                    invariant
                        *self == Json::Array(*x),
                        *other == Json::Array(*y),
                        x@.len() == y@.len(),
                        i <= x@.len(),
                        forall|j: int| 0 <= j < i ==> same_json((#[trigger] x@[j])@, y@[j]@),
                    decreases x.len() - i,
                {
                    proof {
                        assert(decreases_to!(self => x@[i as int]));
                    }
                    if !x[i].same(&y[i]) {
                        proof {
                            assert(!same_json(self@->Array_0[i as int], other@->Array_0[i as int]));
                        }
                        return false;
                    }
                    i += 1;
                }
                proof {
                    assert forall|j: int| 0 <= j < x@.len() implies same_json(
                        #[trigger] self@->Array_0[j],
                        other@->Array_0[j],
                    ) by {
                        assert(same_json(x@[j]@, y@[j]@));
                    }
                }
                true
            },
            (Json::Object(x), Json::Object(y)) => {
                if x.len() != y.len() {
                    return false;
                }
                let ghost xs = self@->Object_0;
                let ghost ys = other@->Object_0;
                let mut i: usize = 0;
                while i < x.len()
                    invariant
                        *self == Json::Object(*x),
                        *other == Json::Object(*y),
                        xs == self@->Object_0,
                        ys == other@->Object_0,
                        self@ is Object,
                        other@ is Object,
                        x@.len() == y@.len(),
                        xs.len() == x@.len(),
                        ys.len() == y@.len(),
                        i <= x@.len(),
                        forall|j: int|
                            0 <= j < i ==> field_of(ys, (#[trigger] xs[j]).0) is Some && same_json(
                                xs[j].1,
                                field_of(ys, xs[j].0)->Some_0,
                            ),
                    decreases x.len() - i,
                {
                    proof {
                        assert(decreases_to!(self => x@[i as int].1));
                        assert(xs[i as int] == (x@[i as int].0@, x@[i as int].1@));
                    }
                    let matching = match find_field(y, x[i].0.as_str()) {
                        Some(value) => x[i].1.same(value),
                        None => false,
                    };
                    if !matching {
                        proof {
                            assert(!(field_of(ys, xs[i as int].0) is Some && same_json(
                                xs[i as int].1,
                                field_of(ys, xs[i as int].0)->Some_0,
                            )));
                        }
                        return false;
                    }
                    i += 1;
                }
                true
            },
            _ => false,
        }
    }
}

impl Dup for Json {
    fn dup(&self) -> (r: Json) {
        Json::dup(self)
    }
}

// ---------------------------------------------------------------------
// Writing
// ---------------------------------------------------------------------

/// The compact text that `serde_json` prints for a value.
pub uninterp spec fn printed_json(v: JsonView) -> Seq<char>;

/// `serde_json::Value` and its `to_string`, which prints the value in its compact form.
/// Claims that the text is a function of the value, and that it tells values apart whose
/// objects hold no key twice and whose numbers are held as they are printed. A number text
/// is turned into the number that prints as it; one that is no number is carried as a
/// string, and of what is printed there nothing more is claimed.
#[verifier::external_body]
fn write_json(json: &Json) -> (r: (Value, String))
    ensures
        r.1@ == printed_json(json@),
        tells_apart(r.1@, json@),
{
    let value = match json {
        Json::Null => Value::Null,
        Json::Bool(b) => Value::Bool(*b),
        Json::Number(n) => n.parse().ok().and_then(Number::from_i128).or_else(|| n.parse().ok().and_then(Number::from_f64)).map_or(
            Value::String(n.clone()), Value::Number),
        Json::Text(s) => Value::String(s.clone()),
        Json::Array(items) => items.iter().map(|j| write_json(j).0).collect(),
        Json::Object(fields) => fields.iter().map(|(k, j)| (k.clone(), write_json(j).0)).collect(),
    };
    let text = value.to_string();
    (value, text)
}

/// No other value prints as `text` than `v`, among those that can be read from a text.
pub open spec fn tells_apart(text: Seq<char>, v: JsonView) -> bool {
    is_printable(v) ==> forall|other: JsonView|
        is_printable(other) && #[trigger] printed_json(other) == text ==> other == v
}

/// The indented text that `serde_json` prints for a value, where it prints one.
pub uninterp spec fn pretty_json(v: JsonView) -> Option<Seq<char>>;

/// `serde_json::to_string_pretty` on the `serde_json::Value` of a value. Claims that the
/// text, or that there is none, is a function of the value.
#[verifier::external_body]
fn write_pretty(json: &Json) -> (r: Option<String>)
    ensures
        string_view(r) == pretty_json(json@),
{
    serde_json::to_string_pretty(&write_json(json).0).ok()
}

impl Json {
    /// The compact JSON text of the value.
    pub fn text(&self) -> (r: String)
        ensures
            r@ == printed_json(self@),
            tells_apart(r@, self@),
    {
        write_json(self).1
    }

    /// The indented JSON text of the value; none where printing fails.
    pub fn pretty(&self) -> (r: Option<String>)
        ensures
            string_view(r) == pretty_json(self@),
    {
        write_pretty(self)
    }
}

// ---------------------------------------------------------------------
// Sorting
// ---------------------------------------------------------------------

/// The compact texts of a list of values.
pub open spec fn printed_all(items: Seq<JsonView>) -> Seq<Seq<char>> {
    items.map_values(|v: JsonView| printed_json(v))
}

/// A list of values in ascending order of their compact texts.
pub open spec fn sorted_items(items: Seq<JsonView>) -> Seq<JsonView> {
    unkeyed(stable_sorted(keyed(printed_all(items), items)))
}

/// The value with every array in ascending order of its items' texts and every object in
/// ascending order of its keys, from the innermost outwards.
pub open spec fn deep_sorted(v: JsonView) -> JsonView
    decreases v,
{
    match v {
        JsonView::Array(items) => JsonView::Array(sorted_items(each_sorted(items))),
        JsonView::Object(fields) => JsonView::Object(stable_sorted(each_field_sorted(fields))),
        _ => v,
    }
}

/// Each item sorted through and through.
pub open spec fn each_sorted(items: Seq<JsonView>) -> Seq<JsonView>
    decreases items,
{
    Seq::new(
        items.len(),
        |i: int|
            if 0 <= i < items.len() {
                deep_sorted(items[i])
            } else {
                JsonView::Null
            },
    )
}

/// Each field with its value sorted through and through.
pub open spec fn each_field_sorted(fields: Seq<(Seq<char>, JsonView)>) -> Seq<
    (Seq<char>, JsonView),
>
    decreases fields,
{
    Seq::new(
        fields.len(),
        |i: int|
            if 0 <= i < fields.len() {
                (fields[i].0, deep_sorted(fields[i].1))
            } else {
                (Seq::empty(), JsonView::Null)
            },
    )
}

proof fn lemma_keyed_unkeyed<T>(s: Seq<(Seq<char>, T)>, f: spec_fn(T) -> Seq<char>)
    requires
        forall|i: int| 0 <= i < s.len() ==> (#[trigger] s[i]).0 == f(s[i].1),
    ensures
        keyed(unkeyed(s).map_values(f), unkeyed(s)) == s,
{
    assert(keyed(unkeyed(s).map_values(f), unkeyed(s)) =~= s);
}

/// Sorting a value that is sorted through and through changes nothing.
pub proof fn law_deep_sort_is_idempotent(v: JsonView)
    ensures
        deep_sorted(deep_sorted(v)) == deep_sorted(v),
    decreases v,
{
    match v {
        JsonView::Array(items) => {
            let inner = each_sorted(items);
            let f = |x: JsonView| printed_json(x);
            let pairs = keyed(printed_all(inner), inner);
            let sorted = stable_sorted(pairs);
            law_stable_sorted(pairs);
            let out = unkeyed(sorted);
            assert forall|k: int| 0 <= k < sorted.len() implies (#[trigger] sorted[k]).0 == f(
                sorted[k].1,
            ) && deep_sorted(sorted[k].1) == sorted[k].1 by {
                let j = lemma_member(sorted, pairs, k);
                assert(pairs[j] == (f(inner[j]), inner[j]));
                law_deep_sort_is_idempotent(items[j]);
            }
            assert forall|k: int| 0 <= k < out.len() implies each_sorted(out)[k] == out[k] by {
                assert(out[k] == sorted[k].1);
            }
            assert(each_sorted(out) =~= out);
            lemma_keyed_unkeyed(sorted, f);
            assert(printed_all(out) =~= out.map_values(f));
            law_sorted_is_kept(sorted);
            assert(sorted_items(out) == out);
            assert(deep_sorted(v) == JsonView::Array(out));
            assert(deep_sorted(JsonView::Array(out)) == JsonView::Array(out));
        },
        JsonView::Object(fields) => {
            let inner = each_field_sorted(fields);
            let sorted = stable_sorted(inner);
            law_stable_sorted(inner);
            assert forall|k: int| 0 <= k < sorted.len() implies deep_sorted(
                (#[trigger] sorted[k]).1,
            ) == sorted[k].1 by {
                let j = lemma_member(sorted, inner, k);
                assert(inner[j].1 == deep_sorted(fields[j].1));
                law_deep_sort_is_idempotent(fields[j].1);
            }
            assert forall|k: int| 0 <= k < sorted.len() implies each_field_sorted(sorted)[k]
                == sorted[k] by {
                assert(deep_sorted(sorted[k].1) == sorted[k].1);
            }
            assert(each_field_sorted(sorted) =~= sorted);
            law_sorted_is_kept(sorted);
            assert(deep_sorted(v) == JsonView::Object(sorted));
            assert(deep_sorted(JsonView::Object(sorted)) == JsonView::Object(sorted));
        },
        _ => {},
    }
}

/// Two objects that hold the same fields in another order are the same once sorted.
pub proof fn law_field_order_is_irrelevant(
    a: Seq<(Seq<char>, JsonView)>,
    b: Seq<(Seq<char>, JsonView)>,
)
    requires
        a.to_multiset() == b.to_multiset(),
        forall|i: int, j: int| 0 <= i < j < a.len() ==> (#[trigger] a[i]).0 != (#[trigger] a[j]).0,
    ensures
        deep_sorted(JsonView::Object(a)) == deep_sorted(JsonView::Object(b)),
{
    let f = |p: (Seq<char>, JsonView)| (p.0, deep_sorted(p.1));
    let ia = each_field_sorted(a);
    let ib = each_field_sorted(b);
    assert(ia =~= a.map_values(f));
    assert(ib =~= b.map_values(f));
    lemma_map_multiset(a, b, f);
    law_stable_sorted(ia);
    law_stable_sorted(ib);
    let sa = stable_sorted(ia);
    let sb = stable_sorted(ib);
    assert forall|i: int, j: int| 0 <= i < j < ia.len() implies (#[trigger] ia[i]).0 != (
    #[trigger] ia[j]).0 by {
        assert(a[i].0 != a[j].0);
    }
    lemma_sorted_distinct(ia);
    assert forall|i: int, j: int|
        0 <= i < sa.len() && 0 <= j < sa.len() && (#[trigger] sa[i]).0 == (#[trigger] sa[j]).0 implies sa[i]
        == sa[j] by {
        if i < j {
            assert(sa[i].0 != sa[j].0);
        } else if j < i {
            assert(sa[j].0 != sa[i].0);
        }
    }
    lemma_sorted_unique(sa, sb);
    assert(deep_sorted(JsonView::Object(a)) == JsonView::Object(sa));
    assert(deep_sorted(JsonView::Object(b)) == JsonView::Object(sb));
}

proof fn lemma_sorted_distinct<T>(s: Seq<(Seq<char>, T)>)
    requires
        forall|i: int, j: int| 0 <= i < j < s.len() ==> (#[trigger] s[i]).0 != (#[trigger] s[j]).0,
    ensures
        ({
            let t = stable_sorted(s);
            forall|i: int, j: int|
                0 <= i < j < t.len() ==> (#[trigger] t[i]).0 != (#[trigger] t[j]).0
        }),
{
    broadcast use vstd::seq_lib::group_to_multiset_ensures;

    law_stable_sorted(s);
    let t = stable_sorted(s);
    let f = |p: (Seq<char>, T)| p.0;
    lemma_map_multiset(s, t, f);
    let ks = s.map_values(f);
    let kt = t.map_values(f);
    assert(ks.no_duplicates()) by {
        assert forall|i: int, j: int|
            0 <= i < ks.len() && 0 <= j < ks.len() && i != j implies ks[i] != ks[j] by {
            assert(s[i].0 != s[j].0);
        }
    }
    ks.lemma_multiset_has_no_duplicates();
    assert forall|x: Seq<char>| kt.to_multiset().contains(x) implies kt.to_multiset().count(x) == 1 by {
        assert(ks.to_multiset().contains(x));
    }
    kt.lemma_multiset_has_no_duplicates_conv();
    assert forall|i: int, j: int| 0 <= i < j < t.len() implies (#[trigger] t[i]).0 != (
    #[trigger] t[j]).0 by {
        assert(kt[i] == t[i].0 && kt[j] == t[j].0);
    }
}

/// Two arrays that hold the same items in another order are the same once sorted, where
/// items that print alike are alike.
pub proof fn law_item_order_is_irrelevant(a: Seq<JsonView>, b: Seq<JsonView>)
    requires
        a.to_multiset() == b.to_multiset(),
        forall|x: JsonView, y: JsonView|
            each_sorted(a).contains(x) && each_sorted(a).contains(y) && #[trigger] printed_json(x)
                == #[trigger] printed_json(y) ==> x == y,
    ensures
        deep_sorted(JsonView::Array(a)) == deep_sorted(JsonView::Array(b)),
{
    let f = |v: JsonView| (printed_json(deep_sorted(v)), deep_sorted(v));
    let pa = keyed(printed_all(each_sorted(a)), each_sorted(a));
    let pb = keyed(printed_all(each_sorted(b)), each_sorted(b));
    assert(pa =~= a.map_values(f));
    assert(pb =~= b.map_values(f));
    lemma_map_multiset(a, b, f);
    law_stable_sorted(pa);
    law_stable_sorted(pb);
    let sa = stable_sorted(pa);
    let sb = stable_sorted(pb);
    assert forall|i: int, j: int|
        0 <= i < sa.len() && 0 <= j < sa.len() && (#[trigger] sa[i]).0 == (#[trigger] sa[j]).0 implies sa[i]
        == sa[j] by {
        let k = lemma_member(sa, pa, i);
        let l = lemma_member(sa, pa, j);
        assert(pa[k] == (printed_json(each_sorted(a)[k]), each_sorted(a)[k]));
        assert(pa[l] == (printed_json(each_sorted(a)[l]), each_sorted(a)[l]));
        assert(each_sorted(a).contains(each_sorted(a)[k]));
        assert(each_sorted(a).contains(each_sorted(a)[l]));
    }
    lemma_sorted_unique(sa, sb);
    assert(deep_sorted(JsonView::Array(a)) == JsonView::Array(unkeyed(sa)));
    assert(deep_sorted(JsonView::Array(b)) == JsonView::Array(unkeyed(sb)));
}

/// Two values that differ in nothing but the order of array items and object fields, at any
/// depth.
pub open spec fn same_up_to_order(a: JsonView, b: JsonView) -> bool
    decreases a,
{
    match (a, b) {
        (JsonView::Array(x), JsonView::Array(y)) => exists|z: Seq<JsonView>|
            {
                &&& #[trigger] z.to_multiset() == y.to_multiset()
                &&& z.len() == x.len()
                &&& forall|i: int| 0 <= i < x.len() ==> same_up_to_order(#[trigger] x[i], z[i])
            },
        (JsonView::Object(x), JsonView::Object(y)) => exists|z: Seq<(Seq<char>, JsonView)>|
            {
                &&& #[trigger] z.to_multiset() == y.to_multiset()
                &&& z.len() == x.len()
                &&& forall|i: int|
                    0 <= i < x.len() ==> (#[trigger] x[i]).0 == z[i].0 && same_up_to_order(
                        x[i].1,
                        z[i].1,
                    )
            },
        _ => a == b,
    }
}

/// In no array of the value, at any depth, are there two items that print alike once sorted
/// and are not alike.
pub open spec fn prints_apart(v: JsonView) -> bool
    decreases v,
{
    match v {
        JsonView::Array(items) => {
            &&& forall|i: int| 0 <= i < items.len() ==> prints_apart(#[trigger] items[i])
            &&& forall|i: int, j: int|
                0 <= i < items.len() && 0 <= j < items.len() && printed_json(
                    deep_sorted(#[trigger] items[i]),
                ) == printed_json(deep_sorted(#[trigger] items[j])) ==> deep_sorted(items[i])
                    == deep_sorted(items[j])
        },
        JsonView::Object(fields) => forall|i: int|
            0 <= i < fields.len() ==> prints_apart((#[trigger] fields[i]).1),
        _ => true,
    }
}

/// Two values that differ in nothing but the order of array items and object fields, at any
/// depth, are the same once sorted, where no object holds a key twice and items that print
/// alike are alike.
pub proof fn law_order_is_irrelevant(a: JsonView, b: JsonView)
    requires
        same_up_to_order(a, b),
        distinct_keys(a),
        prints_apart(a),
    ensures
        deep_sorted(a) == deep_sorted(b),
    decreases a,
{
    match (a, b) {
        (JsonView::Array(x), JsonView::Array(y)) => {
            let z = choose|z: Seq<JsonView>|
                {
                    &&& #[trigger] z.to_multiset() == y.to_multiset()
                    &&& z.len() == x.len()
                    &&& forall|i: int| 0 <= i < x.len() ==> same_up_to_order(#[trigger] x[i], z[i])
                };
            assert forall|i: int| 0 <= i < x.len() implies #[trigger] each_sorted(x)[i]
                == each_sorted(z)[i] by {
                assert(prints_apart(x[i]) && distinct_keys(x[i]));
                law_order_is_irrelevant(x[i], z[i]);
            }
            assert(each_sorted(x) =~= each_sorted(z));
            assert forall|p: JsonView, q: JsonView|
                each_sorted(z).contains(p) && each_sorted(z).contains(q) && #[trigger] printed_json(
                    p,
                ) == #[trigger] printed_json(q) implies p == q by {
                let i = choose|i: int| 0 <= i < each_sorted(x).len() && each_sorted(x)[i] == p;
                let j = choose|j: int| 0 <= j < each_sorted(x).len() && each_sorted(x)[j] == q;
                assert(deep_sorted(x[i]) == p && deep_sorted(x[j]) == q);
            }
            law_item_order_is_irrelevant(z, y);
            assert(deep_sorted(a) == deep_sorted(JsonView::Array(z)));
        },
        (JsonView::Object(x), JsonView::Object(y)) => {
            let z = choose|z: Seq<(Seq<char>, JsonView)>|
                {
                    &&& #[trigger] z.to_multiset() == y.to_multiset()
                    &&& z.len() == x.len()
                    &&& forall|i: int|
                        0 <= i < x.len() ==> (#[trigger] x[i]).0 == z[i].0 && same_up_to_order(
                            x[i].1,
                            z[i].1,
                        )
                };
            assert forall|i: int| 0 <= i < x.len() implies #[trigger] each_field_sorted(x)[i]
                == each_field_sorted(z)[i] by {
                assert(prints_apart(x[i].1) && distinct_keys(x[i].1));
                law_order_is_irrelevant(x[i].1, z[i].1);
            }
            assert(each_field_sorted(x) =~= each_field_sorted(z));
            assert forall|i: int, j: int| 0 <= i < j < z.len() implies (#[trigger] z[i]).0 != (
            #[trigger] z[j]).0 by {
                assert(x[i].0 != x[j].0);
            }
            law_field_order_is_irrelevant(z, y);
            assert(deep_sorted(a) == deep_sorted(JsonView::Object(z)));
        },
        _ => {},
    }
}

/// Sorting changes nothing but the order of array items and object fields.
pub proof fn law_deep_sort_only_reorders(v: JsonView)
    ensures
        same_up_to_order(v, deep_sorted(v)),
    decreases v,
{
    match v {
        JsonView::Array(items) => {
            let inner = each_sorted(items);
            let pairs = keyed(printed_all(inner), inner);
            let sorted = stable_sorted(pairs);
            let f = |p: (Seq<char>, JsonView)| p.1;
            law_stable_sorted(pairs);
            lemma_map_multiset(pairs, sorted, f);
            assert(pairs.map_values(f) =~= inner);
            assert(sorted.map_values(f) =~= unkeyed(sorted));
            assert forall|i: int| 0 <= i < items.len() implies same_up_to_order(
                #[trigger] items[i],
                inner[i],
            ) by {
                law_deep_sort_only_reorders(items[i]);
            }
            assert(inner.to_multiset() == unkeyed(sorted).to_multiset());
            assert(deep_sorted(v) == JsonView::Array(unkeyed(sorted)));
        },
        JsonView::Object(fields) => {
            let inner = each_field_sorted(fields);
            law_stable_sorted(inner);
            assert forall|i: int| 0 <= i < fields.len() implies (#[trigger] fields[i]).0
                == inner[i].0 && same_up_to_order(fields[i].1, inner[i].1) by {
                law_deep_sort_only_reorders(fields[i].1);
            }
            assert(inner.to_multiset() == stable_sorted(inner).to_multiset());
            assert(deep_sorted(v) == JsonView::Object(stable_sorted(inner)));
        },
        _ => {},
    }
}

/// Every array of the value, at any depth, is in ascending order of its items' texts, and
/// every object in ascending order of its keys.
pub open spec fn is_deep_sorted(v: JsonView) -> bool
    decreases v,
{
    match v {
        JsonView::Array(items) => {
            &&& forall|i: int, j: int|
                0 <= i < j < items.len() ==> text_le(
                    printed_json(#[trigger] items[i]),
                    printed_json(#[trigger] items[j]),
                )
            &&& forall|i: int| 0 <= i < items.len() ==> is_deep_sorted(#[trigger] items[i])
        },
        JsonView::Object(fields) => {
            &&& forall|i: int, j: int|
                0 <= i < j < fields.len() ==> text_le(
                    (#[trigger] fields[i]).0,
                    (#[trigger] fields[j]).0,
                )
            &&& forall|i: int| 0 <= i < fields.len() ==> is_deep_sorted((#[trigger] fields[i]).1)
        },
        _ => true,
    }
}

/// Sorting sorts every array and every object, at any depth.
pub proof fn law_deep_sort_sorts(v: JsonView)
    ensures
        is_deep_sorted(deep_sorted(v)),
    decreases v,
{
    match v {
        JsonView::Array(items) => {
            let inner = each_sorted(items);
            let pairs = keyed(printed_all(inner), inner);
            let sorted = stable_sorted(pairs);
            law_stable_sorted(pairs);
            let out = unkeyed(sorted);
            assert forall|k: int| 0 <= k < out.len() implies is_deep_sorted(#[trigger] out[k])
                && sorted[k].0 == printed_json(out[k]) by {
                let j = lemma_member(sorted, pairs, k);
                assert(pairs[j] == (printed_json(inner[j]), inner[j]));
                law_deep_sort_sorts(items[j]);
            }
            assert forall|i: int, j: int| 0 <= i < j < out.len() implies text_le(
                printed_json(#[trigger] out[i]),
                printed_json(#[trigger] out[j]),
            ) by {
                assert(text_le(sorted[i].0, sorted[j].0));
            }
            assert(deep_sorted(v) == JsonView::Array(out));
        },
        JsonView::Object(fields) => {
            let inner = each_field_sorted(fields);
            let sorted = stable_sorted(inner);
            law_stable_sorted(inner);
            assert forall|k: int| 0 <= k < sorted.len() implies is_deep_sorted(
                (#[trigger] sorted[k]).1,
            ) by {
                let j = lemma_member(sorted, inner, k);
                assert(inner[j].1 == deep_sorted(fields[j].1));
                law_deep_sort_sorts(fields[j].1);
            }
            assert(deep_sorted(v) == JsonView::Object(sorted));
        },
        _ => {},
    }
}

/// Sorting changes no number.
pub proof fn law_deep_sort_keeps_numbers(v: JsonView)
    requires
        plain_numbers(v),
    ensures
        plain_numbers(deep_sorted(v)),
    decreases v,
{
    match v {
        JsonView::Array(items) => {
            let inner = each_sorted(items);
            let pairs = keyed(printed_all(inner), inner);
            let sorted = stable_sorted(pairs);
            law_stable_sorted(pairs);
            let out = unkeyed(sorted);
            assert forall|i: int| 0 <= i < out.len() implies plain_numbers(#[trigger] out[i]) by {
                let j = lemma_member(sorted, pairs, i);
                assert(pairs[j].1 == inner[j]);
                assert(plain_numbers(items[j]));
                law_deep_sort_keeps_numbers(items[j]);
            }
            assert(deep_sorted(v) == JsonView::Array(out));
        },
        JsonView::Object(fields) => {
            let inner = each_field_sorted(fields);
            let sorted = stable_sorted(inner);
            law_stable_sorted(inner);
            assert forall|i: int| 0 <= i < sorted.len() implies plain_numbers(
                (#[trigger] sorted[i]).1,
            ) by {
                let j = lemma_member(sorted, inner, i);
                assert(inner[j].1 == deep_sorted(fields[j].1));
                assert(plain_numbers(fields[j].1));
                law_deep_sort_keeps_numbers(fields[j].1);
            }
            assert(deep_sorted(v) == JsonView::Object(sorted));
        },
        _ => {},
    }
}

/// Sorting brings no key into an object twice.
pub proof fn law_deep_sort_keeps_keys_distinct(v: JsonView)
    requires
        distinct_keys(v),
    ensures
        distinct_keys(deep_sorted(v)),
    decreases v,
{
    match v {
        JsonView::Array(items) => {
            let inner = each_sorted(items);
            let pairs = keyed(printed_all(inner), inner);
            let sorted = stable_sorted(pairs);
            law_stable_sorted(pairs);
            let out = unkeyed(sorted);
            assert forall|i: int| 0 <= i < out.len() implies distinct_keys(#[trigger] out[i]) by {
                let j = lemma_member(sorted, pairs, i);
                assert(pairs[j].1 == inner[j]);
                assert(distinct_keys(items[j]));
                law_deep_sort_keeps_keys_distinct(items[j]);
            }
            assert(deep_sorted(v) == JsonView::Array(out));
        },
        JsonView::Object(fields) => {
            let inner = each_field_sorted(fields);
            let sorted = stable_sorted(inner);
            assert forall|i: int, j: int| 0 <= i < j < inner.len() implies (#[trigger] inner[i]).0
                != (#[trigger] inner[j]).0 by {
                assert(fields[i].0 != fields[j].0);
            }
            lemma_sorted_distinct(inner);
            law_stable_sorted(inner);
            assert forall|i: int| 0 <= i < sorted.len() implies distinct_keys(
                (#[trigger] sorted[i]).1,
            ) by {
                let j = lemma_member(sorted, inner, i);
                assert(inner[j].1 == deep_sorted(fields[j].1));
                assert(distinct_keys(fields[j].1));
                law_deep_sort_keeps_keys_distinct(fields[j].1);
            }
            assert(deep_sorted(v) == JsonView::Object(sorted));
        },
        _ => {},
    }
}

pub(crate) proof fn lemma_views_of_array(items: Vec<Json>)
    ensures
        Json::Array(items)@ == JsonView::Array(views(items@)),
{
    assert(Json::Array(items)@->Array_0 =~= views(items@));
}

pub(crate) proof fn lemma_views_of_object(fields: Vec<(String, Json)>)
    ensures
        Json::Object(fields)@ == JsonView::Object(views(fields@)),
{
    assert(Json::Object(fields)@->Object_0 =~= views(fields@));
}

proof fn lemma_printable_item(v: JsonView, i: int)
    requires
        is_printable(v),
        v is Array,
        0 <= i < v->Array_0.len(),
    ensures
        is_printable(v->Array_0[i]),
{
    assert(distinct_keys(v->Array_0[i]));
    assert(plain_numbers(v->Array_0[i]));
}

proof fn lemma_printable_field(v: JsonView, i: int)
    requires
        is_printable(v),
        v is Object,
        0 <= i < v->Object_0.len(),
    ensures
        is_printable(v->Object_0[i].1),
{
    assert(distinct_keys(v->Object_0[i].1));
    assert(plain_numbers(v->Object_0[i].1));
}

/// Where the items of a list, sorted, are told apart by their texts, and each is told apart
/// within, the list is.
proof fn lemma_prints_apart(items: Seq<JsonView>)
    requires
        forall|j: int|
            0 <= j < items.len() ==> tells_apart(
                printed_json(#[trigger] each_sorted(items)[j]),
                each_sorted(items)[j],
            ),
        forall|j: int|
            0 <= j < items.len() && is_printable(#[trigger] items[j]) ==> prints_apart(items[j]),
    ensures
        is_printable(JsonView::Array(items)) ==> prints_apart(JsonView::Array(items)),
{
    if is_printable(JsonView::Array(items)) {
        let inner = each_sorted(items);
        assert forall|j: int| 0 <= j < items.len() implies prints_apart(#[trigger] items[j])
            && is_printable(inner[j]) by {
            lemma_printable_item(JsonView::Array(items), j);
            law_deep_sort_keeps_numbers(items[j]);
            law_deep_sort_keeps_keys_distinct(items[j]);
        }
        assert forall|i: int, j: int|
            0 <= i < items.len() && 0 <= j < items.len() && printed_json(
                deep_sorted(#[trigger] items[i]),
            ) == printed_json(deep_sorted(#[trigger] items[j])) implies deep_sorted(items[i])
            == deep_sorted(items[j]) by {
            assert(tells_apart(printed_json(inner[i]), inner[i]));
            assert(is_printable(inner[i]) && is_printable(inner[j]));
            assert(printed_json(inner[j]) == printed_json(inner[i]));
        }
    }
}

fn sort_array(items: &Vec<Json>) -> (r: Vec<Json>)
    ensures
        views(r@) == sorted_items(each_sorted(views(items@))),
        is_printable(JsonView::Array(views(items@))) ==> prints_apart(
            JsonView::Array(views(items@)),
        ),
    decreases items,
{
    let ghost inner = each_sorted(views(items@));
    let mut out: Vec<Json> = Vec::new();
    let mut keys: Vec<String> = Vec::new();
    let mut i: usize = 0;
    while i < items.len()
        invariant
            inner == each_sorted(views(items@)),
            i <= items@.len(),
            out@.len() == i,
            keys@.len() == i,
            forall|j: int| 0 <= j < i ==> (#[trigger] out@[j])@ == inner[j],
            forall|j: int| 0 <= j < i ==> (#[trigger] keys@[j])@ == printed_json(inner[j]),
            forall|j: int| 0 <= j < i ==> tells_apart(printed_json(#[trigger] inner[j]), inner[j]),
            forall|j: int|
                0 <= j < i && is_printable((#[trigger] items@[j])@) ==> prints_apart(items@[j]@),
        decreases items.len() - i,
    {
        proof {
            assert(views(items@)[i as int] == items@[i as int]@);
            assert(decreases_to!(items => items@[i as int]));
        }
        let item: Json = items[i].sorted();
        keys.push(item.text());
        out.push(item);
        i += 1;
    }
    proof {
        assert(views(out@) =~= inner);
        assert(texts(keys@) =~= printed_all(inner));
        lemma_prints_apart(views(items@));
    }
    stable_sort(out, keys)
}

fn sort_object(fields: &Vec<(String, Json)>) -> (r: Vec<(String, Json)>)
    ensures
        views(r@) == stable_sorted(each_field_sorted(views(fields@))),
        is_printable(JsonView::Object(views(fields@))) ==> prints_apart(
            JsonView::Object(views(fields@)),
        ),
    decreases fields,
{
    let ghost inner = each_field_sorted(views(fields@));
    let mut out: Vec<(String, Json)> = Vec::new();
    let mut keys: Vec<String> = Vec::new();
    let mut i: usize = 0;
    while i < fields.len()
        invariant
            inner == each_field_sorted(views(fields@)),
            i <= fields@.len(),
            out@.len() == i,
            keys@.len() == i,
            forall|j: int|
                0 <= j < i ==> (#[trigger] out@[j]).0@ == inner[j].0 && out@[j].1@ == inner[j].1,
            forall|j: int| 0 <= j < i ==> (#[trigger] keys@[j])@ == inner[j].0,
            forall|j: int|
                0 <= j < i && is_printable((#[trigger] fields@[j]).1@) ==> prints_apart(
                    fields@[j].1@,
                ),
        decreases fields.len() - i,
    {
        proof {
            assert(views(fields@)[i as int] == (fields@[i as int].0@, fields@[i as int].1@));
            assert(decreases_to!(fields => fields@[i as int]));
            assert(decreases_to!(fields@[i as int] => fields@[i as int].1));
        }
        let value: Json = fields[i].1.sorted();
        keys.push(fields[i].0.clone());
        out.push((fields[i].0.clone(), value));
        i += 1;
    }
    proof {
        assert(views(out@) =~= inner);
        assert(texts(keys@) =~= inner.map_values(|p: (Seq<char>, JsonView)| p.0));
        lemma_self_keyed(inner);
        let all = views(fields@);
        if is_printable(JsonView::Object(all)) {
            assert forall|j: int| 0 <= j < all.len() implies prints_apart((#[trigger] all[j]).1) by {
                assert(all[j].1 == fields@[j].1@);
                lemma_printable_field(JsonView::Object(all), j);
            }
        }
    }
    stable_sort(out, keys)
}

impl Json {
    /// The value with its arrays and objects sorted through and through. Of a value that can
    /// be read from a text, no two items of an array then print alike without being alike.
    pub fn sorted(&self) -> (r: Json)
        ensures
            r@ == deep_sorted(self@),
            is_printable(self@) ==> prints_apart(self@),
        decreases self,
    {
        match self {
            Json::Array(items) => {
                proof {
                    lemma_views_of_array(*items);
                }
                let sorted: Vec<Json> = sort_array(items);
                proof {
                    lemma_views_of_array(sorted);
                }
                Json::Array(sorted)
            },
            Json::Object(fields) => {
                proof {
                    lemma_views_of_object(*fields);
                }
                let sorted: Vec<(String, Json)> = sort_object(fields);
                proof {
                    lemma_views_of_object(sorted);
                }
                Json::Object(sorted)
            },
            _ => self.dup(),
        }
    }
}

/// Sorting pairs by their first part, the pairs being both key holders and items.
proof fn lemma_self_keyed<T>(s: Seq<(Seq<char>, T)>)
    ensures
        unkeyed(stable_sorted(keyed(s.map_values(|p: (Seq<char>, T)| p.0), s))) == stable_sorted(s),
{
    let f = |p: (Seq<char>, T)| p.0;
    lemma_self_keyed_sorted(s);
    assert(keyed(s.map_values(f), s) =~= self_keyed(s));
    assert(unkeyed(self_keyed(stable_sorted(s))) =~= stable_sorted(s));
}

spec fn self_keyed<T>(s: Seq<(Seq<char>, T)>) -> Seq<(Seq<char>, (Seq<char>, T))> {
    s.map_values(|p: (Seq<char>, T)| (p.0, p))
}

proof fn lemma_self_keyed_insert<T>(s: Seq<(Seq<char>, T)>, x: (Seq<char>, T))
    ensures
        insert_stable(self_keyed(s), (x.0, x)) == self_keyed(insert_stable(s, x)),
    decreases s.len(),
{
    if s.len() > 0 && text_lt(x.0, s.last().0) {
        lemma_self_keyed_insert(s.drop_last(), x);
        assert(self_keyed(s).drop_last() =~= self_keyed(s.drop_last()));
        assert(self_keyed(s).last() == (s.last().0, s.last()));
        assert(self_keyed(insert_stable(s.drop_last(), x).push(s.last())) =~= self_keyed(
            insert_stable(s.drop_last(), x),
        ).push((s.last().0, s.last())));
    } else {
        if s.len() > 0 {
            assert(self_keyed(s).last().0 == s.last().0);
        }
        assert(self_keyed(s.push(x)) =~= self_keyed(s).push((x.0, x)));
    }
}

proof fn lemma_self_keyed_sorted<T>(s: Seq<(Seq<char>, T)>)
    ensures
        stable_sorted(self_keyed(s)) == self_keyed(stable_sorted(s)),
    decreases s.len(),
{
    if s.len() > 0 {
        lemma_self_keyed_sorted(s.drop_last());
        assert(self_keyed(s).drop_last() =~= self_keyed(s.drop_last()));
        lemma_self_keyed_insert(stable_sorted(s.drop_last()), s.last());
    } else {
        assert(self_keyed(s) =~= Seq::empty());
        assert(self_keyed(stable_sorted(s)) =~= Seq::empty());
    }
}

// ---------------------------------------------------------------------
// What is read and compared
// ---------------------------------------------------------------------

/// What a `Json` stands for: its own kind, with its own text, items or fields, in order.
pub proof fn law_value_of_json(
    b: bool,
    s: String,
    items: Vec<Json>,
    fields: Vec<(String, Json)>,
    i: int,
)
    ensures
        Json::Null@ == JsonView::Null,
        Json::Bool(b)@ == JsonView::Bool(b),
        Json::Number(s)@ == JsonView::Number(s@),
        Json::Text(s)@ == JsonView::Text(s@),
        Json::Array(items)@ is Array,
        Json::Array(items)@->Array_0.len() == items@.len(),
        0 <= i < items@.len() ==> Json::Array(items)@->Array_0[i] == items@[i]@,
        Json::Object(fields)@ is Object,
        Json::Object(fields)@->Object_0.len() == fields@.len(),
        0 <= i < fields@.len() ==> Json::Object(fields)@->Object_0[i].0 == fields@[i].0@,
        0 <= i < fields@.len() ==> Json::Object(fields)@->Object_0[i].1 == fields@[i].1@,
{
}

/// An optional `Json` stands for the value of the `Json`, and for none where there is none.
pub proof fn law_optional_json(json: Json)
    ensures
        json_view(Some(json)) == Some(json@),
        json_view(None) is None,
{
}

/// Under a key stands the value of the first field with that key. It is read as a string
/// where it is one, and not at all where it is anything else.
pub proof fn law_field_is_found(v: JsonView, key: Seq<char>, i: int)
    requires
        v is Object,
        0 <= i < v->Object_0.len(),
        v->Object_0[i].0 == key,
        forall|j: int| 0 <= j < i ==> (#[trigger] v->Object_0[j]).0 != key,
    ensures
        field_of(v->Object_0, key) == Some(v->Object_0[i].1),
        json_get(v, key) == Some(v->Object_0[i].1),
        v->Object_0[i].1 is Text ==> json_text_field(v, key) == Some(v->Object_0[i].1->Text_0),
        !(v->Object_0[i].1 is Text) ==> json_text_field(v, key) is None,
{
    lemma_field_of(v->Object_0, key, i);
}

/// Nothing is found under a key that no field has, nor in what is no object.
pub proof fn law_missing_field(v: JsonView, key: Seq<char>)
    requires
        v is Object ==> forall|j: int|
            0 <= j < v->Object_0.len() ==> (#[trigger] v->Object_0[j]).0 != key,
    ensures
        json_get(v, key) is None,
        json_text_field(v, key) is None,
{
    if v is Object {
        lemma_field_of_none(v->Object_0, key);
    }
}

/// `null` is `null`; truth values and strings are the same where they are equal, numbers where
/// their texts are equal or both are a zero of floating point; and values of different kinds
/// are never the same.
pub proof fn law_same_scalars(a: JsonView, b: JsonView)
    ensures
        a is Null ==> (same_json(a, b) <==> b is Null),
        a is Bool ==> (same_json(a, b) <==> b is Bool && b->Bool_0 == a->Bool_0),
        a is Text ==> (same_json(a, b) <==> b is Text && b->Text_0 == a->Text_0),
        a is Number ==> (same_json(a, b) <==> b is Number && (b->Number_0 == a->Number_0 || (
        a->Number_0 == "0.0"@ || a->Number_0 == "-0.0"@) && (b->Number_0 == "0.0"@ || b->Number_0
            == "-0.0"@))),
        a is Array && same_json(a, b) ==> b is Array,
        a is Object && same_json(a, b) ==> b is Object,
{
    reveal_strlit("0.0");
    reveal_strlit("-0.0");
    assert("0.0"@ =~= seq!['0', '.', '0']);
    assert("-0.0"@ =~= seq!['-', '0', '.', '0']);
}

/// Two arrays are the same where they are as long as one another and the same item by item.
pub proof fn law_same_arrays(a: JsonView, b: JsonView)
    requires
        a is Array,
        b is Array,
    ensures
        same_json(a, b) <==> a->Array_0.len() == b->Array_0.len() && forall|i: int|
            0 <= i < a->Array_0.len() ==> same_json(#[trigger] a->Array_0[i], b->Array_0[i]),
{
}

proof fn lemma_found_at(fields: Seq<(Seq<char>, JsonView)>, key: Seq<char>) -> (i: int)
    requires
        field_of(fields, key) is Some,
    ensures
        0 <= i < fields.len(),
        fields[i].0 == key,
        field_of(fields, key) == Some(fields[i].1),
    decreases fields.len(),
{
    if fields[0].0 == key {
        0
    } else {
        lemma_found_at(fields.skip(1), key) + 1
    }
}

/// Two objects that hold no key twice are the same where they have as many fields as one
/// another, and to each field of the one there is a field of the other with the same key and
/// the same value.
pub proof fn law_same_objects(a: JsonView, b: JsonView)
    requires
        a is Object,
        b is Object,
        distinct_keys(b),
    ensures
        same_json(a, b) <==> a->Object_0.len() == b->Object_0.len() && forall|i: int|
            0 <= i < a->Object_0.len() ==> exists|j: int|
                0 <= j < b->Object_0.len() && (#[trigger] b->Object_0[j]).0 == (
                #[trigger] a->Object_0[i]).0 && same_json(a->Object_0[i].1, b->Object_0[j].1),
{
    let x = a->Object_0;
    let y = b->Object_0;
    assert forall|i: int| 0 <= i < x.len() implies ((exists|j: int|
        0 <= j < y.len() && (#[trigger] y[j]).0 == (#[trigger] x[i]).0 && same_json(x[i].1, y[j].1))
        <==> field_of(y, x[i].0) is Some && same_json(x[i].1, field_of(y, x[i].0)->Some_0)) by {
        if field_of(y, x[i].0) is Some {
            let j = lemma_found_at(y, x[i].0);
            assert(y[j].0 == x[i].0);
        }
        if exists|j: int|
            0 <= j < y.len() && (#[trigger] y[j]).0 == x[i].0 && same_json(x[i].1, y[j].1) {
            let j = choose|j: int|
                0 <= j < y.len() && (#[trigger] y[j]).0 == x[i].0 && same_json(x[i].1, y[j].1);
            assert forall|k: int| 0 <= k < j implies (#[trigger] y[k]).0 != x[i].0 by {
                assert(y[k].0 != y[j].0);
            }
            lemma_field_of(y, x[i].0, j);
        }
    }
}

/// Two values that are the same but for the order of array items and object fields, at any
/// depth, and but for the two zeros of floating point. `p` and `q` say in which order the
/// items of the one answer to those of the other.
pub open spec fn alike(a: JsonView, b: JsonView) -> bool
    decreases a,
{
    match (a, b) {
        (JsonView::Number(x), JsonView::Number(y)) => x == y || (x == "0.0"@ || x == "-0.0"@) && (y
            == "0.0"@ || y == "-0.0"@),
        (JsonView::Array(x), JsonView::Array(y)) => {
            &&& x.len() == y.len()
            &&& exists|p: Seq<int>, q: Seq<int>|
                {
                    &&& #[trigger] is_rearrangement(p, x.len())
                    &&& #[trigger] is_rearrangement(q, y.len())
                    &&& forall|k: int|
                        0 <= k < x.len() && 0 <= #[trigger] p[k] < x.len() ==> alike(
                            x[p[k]],
                            y[q[k]],
                        )
                }
        },
        (JsonView::Object(x), JsonView::Object(y)) => {
            &&& x.len() == y.len()
            &&& exists|p: Seq<int>, q: Seq<int>|
                {
                    &&& #[trigger] is_rearrangement(p, x.len())
                    &&& #[trigger] is_rearrangement(q, y.len())
                    &&& forall|k: int|
                        0 <= k < x.len() && 0 <= #[trigger] p[k] < x.len() ==> x[p[k]].0
                            == y[q[k]].0 && alike(x[p[k]].1, y[q[k]].1)
                }
        },
        _ => a == b,
    }
}

proof fn lemma_alike_to_itself(v: JsonView)
    ensures
        alike(v, v),
    decreases v,
{
    match v {
        JsonView::Array(items) => {
            let p = Seq::new(items.len(), |k: int| k);
            assert(is_rearrangement(p, items.len()));
            assert forall|k: int| 0 <= k < items.len() && 0 <= #[trigger] p[k] < items.len() implies alike(
                items[p[k]],
                items[p[k]],
            ) by {
                lemma_alike_to_itself(items[k]);
            }
        },
        JsonView::Object(fields) => {
            let p = Seq::new(fields.len(), |k: int| k);
            assert(is_rearrangement(p, fields.len()));
            assert forall|k: int|
                0 <= k < fields.len() && 0 <= #[trigger] p[k] < fields.len() implies fields[p[k]].0
                == fields[p[k]].0 && alike(fields[p[k]].1, fields[p[k]].1) by {
                lemma_alike_to_itself(fields[k].1);
            }
        },
        _ => {},
    }
}

/// The list is the sorted form of the items, in the order `p`.
proof fn lemma_sorted_array(v: JsonView) -> (p: Seq<int>)
    requires
        v is Array,
    ensures
        is_rearrangement(p, v->Array_0.len()),
        deep_sorted(v) is Array,
        deep_sorted(v)->Array_0.len() == v->Array_0.len(),
        forall|k: int|
            0 <= k < v->Array_0.len() ==> #[trigger] deep_sorted(v)->Array_0[k] == deep_sorted(
                v->Array_0[p[k]],
            ),
{
    let items = v->Array_0;
    let inner = each_sorted(items);
    let pairs = keyed(printed_all(inner), inner);
    let sorted = stable_sorted(pairs);
    let p = law_sort_rearranges(pairs);
    let out = unkeyed(sorted);
    assert(deep_sorted(v) == JsonView::Array(out));
    assert forall|k: int| 0 <= k < items.len() implies #[trigger] out[k] == deep_sorted(
        items[p[k]],
    ) by {
        assert(sorted[k] == pairs[p[k]]);
        assert(pairs[p[k]].1 == inner[p[k]]);
    }
    p
}

proof fn lemma_sorted_object(v: JsonView) -> (p: Seq<int>)
    requires
        v is Object,
    ensures
        is_rearrangement(p, v->Object_0.len()),
        deep_sorted(v) is Object,
        deep_sorted(v)->Object_0.len() == v->Object_0.len(),
        forall|k: int|
            0 <= k < v->Object_0.len() ==> (#[trigger] deep_sorted(v)->Object_0[k]).0
                == v->Object_0[p[k]].0 && deep_sorted(v)->Object_0[k].1 == deep_sorted(
                v->Object_0[p[k]].1,
            ),
{
    let fields = v->Object_0;
    let inner = each_field_sorted(fields);
    let sorted = stable_sorted(inner);
    let p = law_sort_rearranges(inner);
    assert(deep_sorted(v) == JsonView::Object(sorted));
    assert forall|k: int| 0 <= k < fields.len() implies (#[trigger] sorted[k]).0 == fields[p[k]].0
        && sorted[k].1 == deep_sorted(fields[p[k]].1) by {
        assert(sorted[k] == inner[p[k]]);
    }
    p
}

spec fn place_of(fields: Seq<(Seq<char>, JsonView)>, key: Seq<char>) -> int {
    choose|j: int|
        0 <= j < fields.len() && (#[trigger] fields[j]).0 == key && field_of(fields, key) == Some(
            fields[j].1,
        )
}

/// Two values that are the same once sorted are the same but for the order of array items and
/// object fields and but for the zeros of floating point, where no object holds a key twice.
pub proof fn law_same_once_sorted_is_alike(a: JsonView, b: JsonView)
    requires
        same_json(deep_sorted(a), deep_sorted(b)),
        distinct_keys(a),
    ensures
        alike(a, b),
    decreases a,
{
    law_same_scalars(deep_sorted(a), deep_sorted(b));
    match a {
        JsonView::Array(x) => {
            let p = lemma_sorted_array(a);
            assert(b is Array);
            let y = b->Array_0;
            let q = lemma_sorted_array(b);
            law_same_arrays(deep_sorted(a), deep_sorted(b));
            assert forall|k: int| 0 <= k < x.len() && 0 <= #[trigger] p[k] < x.len() implies alike(
                x[p[k]],
                y[q[k]],
            ) by {
                assert(same_json(deep_sorted(a)->Array_0[k], deep_sorted(b)->Array_0[k]));
                assert(distinct_keys(x[p[k]]));
                law_same_once_sorted_is_alike(x[p[k]], y[q[k]]);
            }
            assert(is_rearrangement(q, y.len()));
        },
        JsonView::Object(x) => {
            let p = lemma_sorted_object(a);
            assert(b is Object);
            let y = b->Object_0;
            let q0 = lemma_sorted_object(b);
            let n = x.len();
            let sa = deep_sorted(a)->Object_0;
            let sb = deep_sorted(b)->Object_0;
            assert(sa.len() == sb.len());
            law_deep_sort_keeps_keys_distinct(a);
            let q = Seq::new(n, |k: int| q0[place_of(sb, sa[k].0)]);
            assert forall|k: int| 0 <= k < n implies ({
                let j = #[trigger] place_of(sb, sa[k].0);
                &&& 0 <= j < n
                &&& sb[j].0 == sa[k].0
                &&& same_json(sa[k].1, sb[j].1)
            }) by {
                assert(field_of(sb, sa[k].0) is Some && same_json(
                    sa[k].1,
                    field_of(sb, sa[k].0)->Some_0,
                ));
                let j = lemma_found_at(sb, sa[k].0);
                assert(sb[j].0 == sa[k].0);
            }
            assert forall|k: int| 0 <= k < n implies 0 <= #[trigger] q[k] < n by {
                let j = place_of(sb, sa[k].0);
                assert(0 <= q0[j] < n);
            }
            assert forall|k: int, l: int| 0 <= k < l < n implies #[trigger] q[k] != #[trigger] q[l] by {
                let i = place_of(sb, sa[k].0);
                let j = place_of(sb, sa[l].0);
                assert(sa[k].0 != sa[l].0);
                assert(i != j);
                if i < j {
                    assert(q0[i] != q0[j]);
                } else {
                    assert(q0[j] != q0[i]);
                }
            }
            assert(is_rearrangement(q, n));
            assert forall|k: int| 0 <= k < n && 0 <= #[trigger] p[k] < n implies x[p[k]].0
                == y[q[k]].0 && alike(x[p[k]].1, y[q[k]].1) by {
                let j = place_of(sb, sa[k].0);
                assert(sb[j].0 == y[q0[j]].0 && sb[j].1 == deep_sorted(y[q0[j]].1));
                assert(sa[k].0 == x[p[k]].0 && sa[k].1 == deep_sorted(x[p[k]].1));
                assert(distinct_keys(x[p[k]].1));
                law_same_once_sorted_is_alike(x[p[k]].1, y[q[k]].1);
            }
        },
        _ => {},
    }
}

/// A value is like itself, and values that are alike are of one kind; alike strings, truth
/// values and numbers other than the zeros are equal, and alike arrays and objects are as
/// long as one another.
pub proof fn law_alike_values(a: JsonView, b: JsonView)
    ensures
        alike(a, a),
        alike(a, b) ==> {
            &&& a is Null <==> b is Null
            &&& a is Bool ==> b == a
            &&& a is Text ==> b == a
            &&& a is Number ==> b is Number && (b == a || (a->Number_0 == "0.0"@ || a->Number_0
                == "-0.0"@) && (b->Number_0 == "0.0"@ || b->Number_0 == "-0.0"@))
            &&& a is Array ==> b is Array && b->Array_0.len() == a->Array_0.len()
            &&& a is Object ==> b is Object && b->Object_0.len() == a->Object_0.len()
        },
{
    lemma_alike_to_itself(a);
}

/// To each item of an array there is a like one in an array that is alike.
pub proof fn law_alike_items(a: JsonView, b: JsonView, i: int)
    requires
        alike(a, b),
        a is Array,
        0 <= i < a->Array_0.len(),
    ensures
        b is Array,
        exists|j: int|
            0 <= j < b->Array_0.len() && alike(a->Array_0[i], #[trigger] b->Array_0[j]),
{
    let x = a->Array_0;
    let y = b->Array_0;
    let (p, q) = choose|p: Seq<int>, q: Seq<int>|
        {
            &&& #[trigger] is_rearrangement(p, x.len())
            &&& #[trigger] is_rearrangement(q, y.len())
            &&& forall|k: int|
                0 <= k < x.len() && 0 <= #[trigger] p[k] < x.len() ==> alike(x[p[k]], y[q[k]])
        };
    lemma_rearrangement_is_complete(p, x.len(), i);
    let k = choose|k: int| 0 <= k < p.len() && p[k] == i;
    assert(alike(x[p[k]], y[q[k]]));
    assert(0 <= q[k] < y.len());
}

/// To each field of an object there is a field with the same key and a like value in an
/// object that is alike.
pub proof fn law_alike_fields(a: JsonView, b: JsonView, i: int)
    requires
        alike(a, b),
        a is Object,
        0 <= i < a->Object_0.len(),
    ensures
        b is Object,
        exists|j: int|
            0 <= j < b->Object_0.len() && (#[trigger] b->Object_0[j]).0 == a->Object_0[i].0
                && alike(a->Object_0[i].1, b->Object_0[j].1),
{
    let x = a->Object_0;
    let y = b->Object_0;
    let (p, q) = choose|p: Seq<int>, q: Seq<int>|
        {
            &&& #[trigger] is_rearrangement(p, x.len())
            &&& #[trigger] is_rearrangement(q, y.len())
            &&& forall|k: int|
                0 <= k < x.len() && 0 <= #[trigger] p[k] < x.len() ==> x[p[k]].0 == y[q[k]].0
                    && alike(x[p[k]].1, y[q[k]].1)
        };
    lemma_rearrangement_is_complete(p, x.len(), i);
    let k = choose|k: int| 0 <= k < p.len() && p[k] == i;
    assert(x[p[k]].0 == y[q[k]].0 && alike(x[p[k]].1, y[q[k]].1));
    assert(0 <= q[k] < y.len());
}

/// Putting another value under a key of an object changes the value of the fields with that
/// key and nothing else.
pub proof fn law_with_field(v: JsonView, key: Seq<char>, value: JsonView, i: int)
    requires
        v is Object,
    ensures
        with_field(v, key, value) is Object,
        with_field(v, key, value)->Object_0.len() == v->Object_0.len(),
        0 <= i < v->Object_0.len() ==> with_field(v, key, value)->Object_0[i].0
            == v->Object_0[i].0,
        0 <= i < v->Object_0.len() && v->Object_0[i].0 == key ==> with_field(
            v,
            key,
            value,
        )->Object_0[i].1 == value,
        0 <= i < v->Object_0.len() && v->Object_0[i].0 != key ==> with_field(
            v,
            key,
            value,
        )->Object_0[i].1 == v->Object_0[i].1,
{
}

} // verus!
