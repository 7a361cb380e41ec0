//! Index building: chart items in `data.json` and inverted indexes over them.

use vstd::prelude::*;
use vstd::string::*;

use crate::json::{json_get, json_text_field, lemma_views_of_array, lemma_views_of_object, parsed_json, pretty_json, Json, JsonView};
use crate::ordered::{ascending_members, law_ascending_members, lemma_ascending_members, lists_members, NameSet, SortedMap};
use crate::sorting::views;
use crate::text::{chars_of, decimal, decimal_text, string_of, string_view, text_lt, text_of};

verus! {

// ---------------------------------------------------------------------
// Chart items
// ---------------------------------------------------------------------

/// The items under `key`, where `root` is an object with an array there.
pub open spec fn items_under(root: JsonView, key: Seq<char>) -> Option<Seq<JsonView>> {
    match json_get(root, key) {
        Some(JsonView::Array(items)) => Some(items),
        _ => None,
    }
}

/// The chart items of a data file: the file is an array of them, or an object that has
/// such an array under `charts`, `data` or `songs`, the first of these that is an array.
pub open spec fn chart_items(root: JsonView) -> Option<Seq<JsonView>> {
    match root {
        JsonView::Array(items) => Some(items),
        _ => if items_under(root, "charts"@) is Some {
            items_under(root, "charts"@)
        } else if items_under(root, "data"@) is Some {
            items_under(root, "data"@)
        } else {
            items_under(root, "songs"@)
        },
    }
}

/// The views of an optional list of items.
pub open spec fn items_view(items: Option<Vec<Json>>) -> Option<Seq<JsonView>> {
    match items {
        Some(v) => Some(views(v@)),
        None => None,
    }
}

/// The chart items of a text; none where it is not JSON.
pub open spec fn text_items(content: Seq<char>) -> Option<Seq<JsonView>> {
    match parsed_json(content) {
        Some(root) => chart_items(root),
        None => None,
    }
}

fn copy_items(items: &Vec<Json>) -> (r: Vec<Json>)
    ensures
        views(r@) == views(items@),
{
    let mut out: Vec<Json> = Vec::new();
    let mut i: usize = 0;
    while i < items.len()
        invariant
            i <= items@.len(),
            out@.len() == i,
            forall|j: int| 0 <= j < i ==> (#[trigger] out@[j])@ == items@[j]@,
        decreases items.len() - i,
    {
        out.push(items[i].dup());
        i += 1;
    }
    proof {
        assert(views(out@) =~= views(items@));
    }
    out
}

fn find_items_under(root: &Json, key: &str) -> (r: Option<Vec<Json>>)
    ensures
        items_view(r) == items_under(root@, key@),
{
    match root.get(key) {
        Some(Json::Array(items)) => {
            proof {
                assert(Json::Array(*items)@->Array_0 =~= views(items@));
            }
            Some(copy_items(items))
        },
        _ => None,
    }
}

/// The chart items of a parsed data file.
pub fn chart_items_of(root: &Json) -> (r: Option<Vec<Json>>)
    ensures
        items_view(r) == chart_items(root@),
{
    match root {
        Json::Array(items) => {
            proof {
                assert(root@->Array_0 =~= views(items@));
            }
            Some(copy_items(items))
        },
        _ => {
            let charts = find_items_under(root, "charts");
            if charts.is_some() {
                return charts;
            }
            let data = find_items_under(root, "data");
            if data.is_some() {
                return data;
            }
            find_items_under(root, "songs")
        },
    }
}

/// Parse chart items from the content of a `data.json`.
pub fn extract_chart_items(content: &str) -> (r: Option<Vec<Json>>)
    ensures
        items_view(r) == text_items(content@),
{
    match Json::parse(content) {
        Some(root) => chart_items_of(&root),
        None => None,
    }
}

// ---------------------------------------------------------------------
// Index entries
// ---------------------------------------------------------------------

/// What an index maps: a text to the names of the tables that have it.
pub type IndexView = Map<Seq<char>, Set<Seq<char>>>;

/// An index with `name` entered under `key`.
pub open spec fn entered(index: IndexView, key: Seq<char>, name: Seq<char>) -> IndexView {
    index.insert(
        key,
        (if index.contains_key(key) {
            index[key]
        } else {
            Set::empty()
        }).insert(name),
    )
}

/// The non-empty string of an item under `key`.
pub open spec fn text_key(item: JsonView, key: Seq<char>) -> Option<Seq<char>> {
    match json_text_field(item, key) {
        Some(s) => if s.len() > 0 {
            Some(s)
        } else {
            None
        },
        None => None,
    }
}

/// A hex digit, upper or lower case.
pub open spec fn is_hex_char(c: char) -> bool {
    ('0' <= c <= '9') || ('a' <= c <= 'f') || ('A' <= c <= 'F')
}

/// Hex digits only.
pub open spec fn all_hex(s: Seq<char>) -> bool {
    forall|i: int| 0 <= i < s.len() ==> is_hex_char(#[trigger] s[i])
}

/// The hash of an item under `key`: a string of exactly `expected_len` hex digits.
pub open spec fn hash_key(item: JsonView, key: Seq<char>, expected_len: nat) -> Option<Seq<char>> {
    match text_key(item, key) {
        Some(s) => if all_hex(s) && s.len() == expected_len {
            Some(s)
        } else {
            None
        },
        None => None,
    }
}

/// Every key of a hash index has the length it should have and is made of hex digits.
pub proof fn law_hash_keys_are_hashes(item: JsonView, key: Seq<char>, expected_len: nat)
    requires
        hash_key(item, key, expected_len) is Some,
    ensures
        hash_key(item, key, expected_len)->Some_0.len() == expected_len,
        all_hex(hash_key(item, key, expected_len)->Some_0),
{
}

/// An index with `name` entered under a key, where there is one.
pub open spec fn maybe_entered(
    index: IndexView,
    key: Option<Seq<char>>,
    name: Seq<char>,
) -> IndexView {
    match key {
        Some(k) => entered(index, k, name),
        None => index,
    }
}

/// A hash of hex digits that is longer than it should be, as it is shown in a warning: at
/// most sixty-four digits of it.
pub open spec fn shown_hash(s: Seq<char>) -> Seq<char> {
    if s.len() > 64 {
        s.take(64) + "… ("@ + decimal(s.len()) + " chars total)"@
    } else {
        s
    }
}

/// The warning about a hash that is longer than it should be.
pub open spec fn long_hash_warning(
    item: JsonView,
    key: Seq<char>,
    expected_len: nat,
    table_name: Seq<char>,
) -> Option<Seq<char>> {
    match text_key(item, key) {
        Some(s) => if all_hex(s) && s.len() > expected_len {
            Some(
                "Suspiciously long "@ + key + " hash (expected "@ + decimal(expected_len)
                    + ") in table "@ + table_name + ": "@ + shown_hash(s),
            )
        } else {
            None
        },
        None => None,
    }
}

fn enter(map: &mut SortedMap<NameSet>, key: &str, name: &str)
    ensures
        final(map)@ == entered(old(map)@, key@, name@),
{
    let ghost before = map@;
    let mut names: NameSet = match map.remove(key) {
        Some(names) => names,
        None => NameSet::new(),
    };
    names.insert(text_of(name));
    map.insert(text_of(key), names);
    proof {
        assert(map@ =~= entered(before, key@, name@));
    }
}

/// Insert `value` into an index under the string `item[key]`, where that is a non-empty
/// string.
pub fn maybe_insert(map: &mut SortedMap<NameSet>, item: &Json, key: &str, value: &str)
    ensures
        final(map)@ == maybe_entered(old(map)@, text_key(item@, key@), value@),
{
    match item.text_field(key) {
        Some(s) => {
            let n: usize = chars_of(s.as_str()).len();
            if n > 0 {
                enter(map, s.as_str(), value);
            }
        },
        None => {},
    }
}

fn is_all_hex(chars: &Vec<char>) -> (r: bool)
    ensures
        r == all_hex(chars@),
{
    let mut i: usize = 0;
    while i < chars.len()
        invariant
            i <= chars@.len(),
            forall|j: int| 0 <= j < i ==> is_hex_char(#[trigger] chars@[j]),
        decreases chars.len() - i,
    {
        let c: char = chars[i];
        let digit = '0' <= c && c <= '9';
        let lower = 'a' <= c && c <= 'f';
        let upper = 'A' <= c && c <= 'F';
        if !(digit || lower || upper) {
            return false;
        }
        i += 1;
    }
    true
}

fn show_hash(chars: &Vec<char>) -> (r: String)
    ensures
        r@ == shown_hash(chars@),
{
    if chars.len() > 64 {
        let mut out: String = string_of(chars, 0, 64);
        out.append("… (");
        out.append(decimal_text(chars.len()).as_str());
        out.append(" chars total)");
        proof {
            assert(chars@.subrange(0, 64) =~= chars@.take(64));
        }
        out
    } else {
        proof {
            assert(chars@.subrange(0, chars@.len() as int) =~= chars@);
        }
        string_of(chars, 0, chars.len())
    }
}

/// Insert the table under the hash `item[key]`, where that is exactly `expected_len` hex
/// characters; returns a warning where the hash is longer than that.
pub fn maybe_insert_hash(
    map: &mut SortedMap<NameSet>,
    item: &Json,
    key: &str,
    expected_len: usize,
    table_name: &str,
) -> (warning: Option<String>)
    ensures
        final(map)@ == maybe_entered(
            old(map)@,
            hash_key(item@, key@, expected_len as nat),
            table_name@,
        ),
        string_view(warning) == long_hash_warning(
            item@,
            key@,
            expected_len as nat,
            table_name@,
        ),
{
    let raw: &String = match item.text_field(key) {
        Some(s) => s,
        None => {
            return None;
        },
    };
    let chars: Vec<char> = chars_of(raw.as_str());
    if chars.len() == 0 || !is_all_hex(&chars) {
        return None;
    }
    if chars.len() == expected_len {
        enter(map, raw.as_str(), table_name);
        None
    } else if chars.len() > expected_len {
        let mut text: String = text_of("Suspiciously long ");
        text.append(key);
        text.append(" hash (expected ");
        text.append(decimal_text(expected_len).as_str());
        text.append(") in table ");
        text.append(table_name);
        text.append(": ");
        text.append(show_hash(&chars).as_str());
        Some(text)
    } else {
        None
    }
}

// ---------------------------------------------------------------------
// Listings
// ---------------------------------------------------------------------

/// A set of names as a JSON array, in ascending order.
pub open spec fn names_json(names: Set<Seq<char>>) -> JsonView {
    JsonView::Array(ascending_members(names).map_values(|n: Seq<char>| JsonView::Text(n)))
}

/// The entries of an index in ascending order of their keys, each with its names.
pub open spec fn index_fields(index: IndexView) -> Seq<(Seq<char>, JsonView)> {
    ascending_members(index.dom()).map_values(|k: Seq<char>| (k, names_json(index[k])))
}

/// An index as a JSON object: keys in ascending order, under each the names in ascending
/// order.
pub open spec fn index_json(index: IndexView) -> JsonView {
    JsonView::Object(index_fields(index))
}

fn names_to_json(names: &NameSet) -> (r: Json)
    ensures
        r@ == names_json(names@),
{
    let mut items: Vec<Json> = Vec::new();
    let n: usize = names.len();
    proof {
        assert(lists_members(names.names(), names@)) by {
            assert forall|k: Seq<char>| names.names().contains(k) <==> #[trigger] names@.contains(
                k,
            ) by {}
        }
        lemma_ascending_members(names.names(), names@);
    }
    let mut i: usize = 0;
    while i < n
        invariant
            n == names.names().len(),
            i <= n,
            items@.len() == i,
            forall|j: int|
                0 <= j < i ==> (#[trigger] items@[j])@ == JsonView::Text(names.names()[j]),
        decreases n - i,
    {
        items.push(Json::Text(names.name_at(i).clone()));
        i += 1;
    }
    proof {
        lemma_views_of_array(items);
        assert(views(items@) =~= ascending_members(names@).map_values(
            |n: Seq<char>| JsonView::Text(n),
        ));
    }
    Json::Array(items)
}

/// An index as a JSON object.
pub fn index_to_json(map: &SortedMap<NameSet>) -> (r: Json)
    ensures
        r@ == index_json(map@),
{
    let mut fields: Vec<(String, Json)> = Vec::new();
    let ghost all = index_fields(map@);
    let n: usize = map.len();
    proof {
        assert(lists_members(map.keys(), map@.dom())) by {
            assert forall|k: Seq<char>| map.keys().contains(k) <==> #[trigger] map@.dom().contains(
                k,
            ) by {
                assert(map@.contains_key(k) <==> map.keys().contains(k));
            }
        }
        lemma_ascending_members(map.keys(), map@.dom());
    }
    let mut i: usize = 0;
    while i < n
        invariant
            n == map.keys().len(),
            map.keys() == ascending_members(map@.dom()),
            all == index_fields(map@),
            i <= n,
            fields@.len() == i,
            forall|j: int|
                0 <= j < i ==> (#[trigger] fields@[j]).0@ == all[j].0 && fields@[j].1@ == all[j].1,
        decreases n - i,
    {
        fields.push((map.key_at(i).clone(), names_to_json(map.value_at(i))));
        i += 1;
    }
    proof {
        lemma_views_of_object(fields);
        assert(views(fields@) =~= all);
    }
    Json::Object(fields)
}

/// An index as the text of an index file; none where printing fails.
pub fn index_text(map: &SortedMap<NameSet>) -> (r: Option<String>)
    ensures
        string_view(r) == pretty_json(index_json(map@)),
{
    index_to_json(map).pretty()
}

// ---------------------------------------------------------------------
// Laws
// ---------------------------------------------------------------------

/// The charts of a data file are its items where it is an array; else the items of the first
/// array among those under `charts`, `data` and `songs`; else there are none.
pub proof fn law_chart_items(root: JsonView)
    ensures
        root is Array ==> chart_items(root) == Some(root->Array_0),
        root !is Array ==> {
            let charts = json_get(root, "charts"@);
            let data = json_get(root, "data"@);
            let songs = json_get(root, "songs"@);
            &&& charts is Some && charts->Some_0 is Array ==> chart_items(root) == Some(
                charts->Some_0->Array_0,
            )
            &&& !(charts is Some && charts->Some_0 is Array) ==> {
                &&& data is Some && data->Some_0 is Array ==> chart_items(root) == Some(
                    data->Some_0->Array_0,
                )
                &&& !(data is Some && data->Some_0 is Array) ==> {
                    &&& songs is Some && songs->Some_0 is Array ==> chart_items(root) == Some(
                        songs->Some_0->Array_0,
                    )
                    &&& !(songs is Some && songs->Some_0 is Array) ==> chart_items(root) is None
                }
            }
        },
{
}

/// The charts of a text are those of the value that it holds; a text that is no JSON has none.
pub proof fn law_text_items(content: Seq<char>)
    ensures
        parsed_json(content) is None ==> text_items(content) is None,
        parsed_json(content) is Some ==> text_items(content) == chart_items(
            parsed_json(content)->Some_0,
        ),
{
}

/// The items of an optional list stand in its order.
pub proof fn law_items_in_order(items: Vec<Json>)
    ensures
        items_view(None) is None,
        items_view(Some(items)) is Some,
        items_view(Some(items))->Some_0.len() == items@.len(),
        forall|i: int| 0 <= i < items@.len() ==> #[trigger] items_view(Some(items))->Some_0[i]
            == items@[i]@,
{
}

/// An item is indexed under the string that it has there, unless that is empty.
pub proof fn law_text_key(item: JsonView, key: Seq<char>, s: Seq<char>)
    ensures
        text_key(item, key) == Some(s) <==> json_text_field(item, key) == Some(s) && s != ""@,
{
    reveal_strlit("");
    if s.len() == 0 {
        assert(s =~= ""@);
    }
}

/// The hex digits are these twenty-two characters.
pub proof fn law_hex_digits(s: Seq<char>)
    ensures
        all_hex(s) <==> forall|i: int|
            0 <= i < s.len() ==> "0123456789abcdefABCDEF"@.contains(#[trigger] s[i]),
{
    reveal_strlit("0123456789abcdefABCDEF");
    let digits = "0123456789abcdefABCDEF"@;
    assert forall|c: char| #[trigger] digits.contains(c) <==> is_hex_char(c) by {
        lemma_hex_char(c);
    }
    if all_hex(s) {
        assert forall|i: int| 0 <= i < s.len() implies digits.contains(#[trigger] s[i]) by {
            assert(is_hex_char(s[i]));
        }
    }
    if forall|i: int| 0 <= i < s.len() ==> digits.contains(#[trigger] s[i]) {
        assert forall|i: int| 0 <= i < s.len() implies is_hex_char(#[trigger] s[i]) by {
            assert(digits.contains(s[i]));
        }
    }
}

proof fn lemma_hex_char(c: char)
    ensures
        "0123456789abcdefABCDEF"@.contains(c) <==> is_hex_char(c),
{
    reveal_strlit("0123456789abcdefABCDEF");
    let digits = "0123456789abcdefABCDEF"@;
    if is_hex_char(c) {
        let i: int = if c <= '9' {
            c as int - 48
        } else if c <= 'F' {
            c as int - 65 + 16
        } else {
            c as int - 97 + 10
        };
        assert(0 <= i < 22);
        assert(digits[0] == '0' && digits[1] == '1' && digits[2] == '2' && digits[3] == '3'
            && digits[4] == '4' && digits[5] == '5' && digits[6] == '6' && digits[7] == '7'
            && digits[8] == '8' && digits[9] == '9' && digits[10] == 'a' && digits[11] == 'b'
            && digits[12] == 'c' && digits[13] == 'd' && digits[14] == 'e' && digits[15] == 'f'
            && digits[16] == 'A' && digits[17] == 'B' && digits[18] == 'C' && digits[19] == 'D'
            && digits[20] == 'E' && digits[21] == 'F');
        assert(digits[i] == c);
    }
}

/// A chart is entered in a hash index under exactly the string that it has there, where that
/// is a string of the given length made of hex digits of either case, and not at all where it
/// is anything else.
pub proof fn law_hash_key(item: JsonView, key: Seq<char>, expected_len: nat, s: Seq<char>)
    requires
        expected_len > 0,
    ensures
        hash_key(item, key, expected_len) == Some(s) <==> {
            &&& json_text_field(item, key) == Some(s)
            &&& s.len() == expected_len
            &&& forall|i: int|
                0 <= i < s.len() ==> "0123456789abcdefABCDEF"@.contains(#[trigger] s[i])
        },
{
    law_hex_digits(s);
}

/// A warning comes up exactly where a hash is made of hex digits and is too long. It names the
/// kind of hash, the length it should have, the table and the hash, of which it shows the
/// first sixty-four digits and the length where there are more.
pub proof fn law_long_hash_is_reported(
    item: JsonView,
    key: Seq<char>,
    expected_len: nat,
    table_name: Seq<char>,
    s: Seq<char>,
)
    ensures
        long_hash_warning(item, key, expected_len, table_name) is Some <==> {
            &&& json_text_field(item, key) is Some
            &&& json_text_field(item, key)->Some_0.len() > expected_len
            &&& forall|i: int|
                0 <= i < json_text_field(item, key)->Some_0.len()
                    ==> "0123456789abcdefABCDEF"@.contains(
                    #[trigger] json_text_field(item, key)->Some_0[i],
                )
        },
        long_hash_warning(item, key, expected_len, table_name) is Some && json_text_field(item, key)
            == Some(s) ==> ({
            let start = "Suspiciously long "@ + key + " hash (expected "@ + decimal(expected_len)
                + ") in table "@ + table_name + ": "@;
            long_hash_warning(item, key, expected_len, table_name)->Some_0 == if s.len() <= 64 {
                start + s
            } else {
                start + (s.subrange(0, 64) + "… ("@ + decimal(s.len()) + " chars total)"@)
            }
        }),
{
    if json_text_field(item, key) is Some {
        let t = json_text_field(item, key)->Some_0;
        law_hex_digits(t);
        if t.len() > 64 {
            assert(t.subrange(0, 64) =~= t.take(64));
        }
    }
}

/// Entering a name under a key puts it there beside the names that are there, and changes
/// nothing else; with no key nothing changes.
pub proof fn law_entering_a_name(
    index: IndexView,
    key: Seq<char>,
    name: Seq<char>,
    k: Seq<char>,
    n: Seq<char>,
)
    ensures
        maybe_entered(index, None, name) == index,
        ({
            let after = maybe_entered(index, Some(key), name);
            &&& after.contains_key(k) <==> index.contains_key(k) || k == key
            &&& after.contains_key(k) ==> (after[k].contains(n) <==> index.contains_key(k)
                && index[k].contains(n) || k == key && n == name)
        }),
{
}

/// An index is written as an object with its keys in ascending order, under each key the
/// names in ascending order.
pub proof fn law_index_is_written_in_order(
    index: IndexView,
    keys: Seq<Seq<char>>,
    i: int,
    names: Seq<Seq<char>>,
    j: int,
)
    requires
        forall|a: int, b: int|
            0 <= a < b < keys.len() ==> text_lt(#[trigger] keys[a], #[trigger] keys[b]),
        forall|k: Seq<char>| #[trigger] keys.contains(k) <==> index.dom().contains(k),
        0 <= i < keys.len(),
        forall|a: int, b: int|
            0 <= a < b < names.len() ==> text_lt(#[trigger] names[a], #[trigger] names[b]),
        forall|n: Seq<char>| #[trigger] names.contains(n) <==> index[keys[i]].contains(n),
        0 <= j < names.len(),
    ensures
        index_json(index) is Object,
        index_json(index)->Object_0.len() == keys.len(),
        index_json(index)->Object_0[i].0 == keys[i],
        index_json(index)->Object_0[i].1 is Array,
        index_json(index)->Object_0[i].1->Array_0.len() == names.len(),
        index_json(index)->Object_0[i].1->Array_0[j] == JsonView::Text(names[j]),
{
    law_ascending_members(keys, index.dom());
    law_ascending_members(names, index[keys[i]]);
}

/// An index without keys is written as an object without fields.
pub proof fn law_empty_index_is_written_empty()
    ensures
        index_json(Map::empty()) == JsonView::Object(Seq::empty()),
{
    let none = Map::<Seq<char>, Set<Seq<char>>>::empty();
    law_ascending_members(Seq::empty(), none.dom());
    assert(index_fields(none) =~= Seq::empty());
}

} // verus!
