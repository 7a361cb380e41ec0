//! Filesystem utilities: file name sanitisation, JSON sorting and change detection.

use vstd::prelude::*;

use crate::json::{alike, deep_sorted, distinct_keys, is_printable, law_deep_sort_keeps_keys_distinct, law_alike_fields, law_alike_values, law_field_order_is_irrelevant, law_order_is_irrelevant, law_same_json_is_reflexive, law_same_once_sorted_is_alike, parsed_json, prints_apart, same_json, same_up_to_order, Json, JsonView};
use crate::text::{chars_of, str_view, string_of, string_view, text_eq};

verus! {

// ---------------------------------------------------------------------
// File names
// ---------------------------------------------------------------------

/// A character that some filesystem does not allow in a file name.
pub open spec fn is_forbidden(c: char) -> bool {
    ||| c == '<'
    ||| c == '>'
    ||| c == ':'
    ||| c == '"'
    ||| c == '/'
    ||| c == '\\'
    ||| c == '|'
    ||| c == '?'
    ||| c == '*'
    ||| c as u32 <= 31
}

/// What stands in a file name for `c`: the full-width form of a forbidden character, an
/// underscore for a control character, any other character itself.
pub open spec fn safe_char(c: char) -> char {
    if c == '<' {
        '＜'
    } else if c == '>' {
        '＞'
    } else if c == ':' {
        '：'
    } else if c == '"' {
        '＂'
    } else if c == '/' {
        '／'
    } else if c == '\\' {
        '＼'
    } else if c == '|' {
        '｜'
    } else if c == '?' {
        '？'
    } else if c == '*' {
        '＊'
    } else if c as u32 <= 31 {
        '_'
    } else {
        c
    }
}

/// `s` with every forbidden character replaced.
pub open spec fn safe_chars(s: Seq<char>) -> Seq<char> {
    s.map_values(|c: char| safe_char(c))
}

/// `s` with each run of underscores reduced to one.
pub open spec fn collapse_underscores(s: Seq<char>) -> Seq<char>
    decreases s.len(),
{
    if s.len() == 0 {
        s
    } else {
        let before = collapse_underscores(s.drop_last());
        if s.last() == '_' && s.len() >= 2 && s[s.len() - 2] == '_' {
            before
        } else {
            before.push(s.last())
        }
    }
}

/// A character that Windows does not allow at the end of a file name.
pub open spec fn is_bad_ending(c: char) -> bool {
    c == '.' || c == ' '
}

/// The number of dots and spaces at the end of `s`.
pub open spec fn bad_ending_len(s: Seq<char>) -> nat
    decreases s.len(),
{
    if s.len() > 0 && is_bad_ending(s.last()) {
        bad_ending_len(s.drop_last()) + 1
    } else {
        0
    }
}

/// The full-width form of a dot or a space.
pub open spec fn wide_char(c: char) -> char {
    if c == '.' {
        '．'
    } else if c == ' ' {
        '　'
    } else {
        c
    }
}

/// `s` with the dots and spaces at its end, and only those, made full-width.
pub open spec fn widen_ending(s: Seq<char>) -> Seq<char> {
    let n = s.len() - bad_ending_len(s);
    s.take(n) + s.skip(n).map_values(|c: char| wide_char(c))
}

/// The file name that stands for `name`.
pub open spec fn sanitized(name: Seq<char>) -> Seq<char> {
    widen_ending(collapse_underscores(safe_chars(name)))
}

/// A name that needs no further change: no forbidden character, no two underscores in a
/// row, no dot or space at the end.
pub open spec fn is_clean_name(s: Seq<char>) -> bool {
    &&& forall|i: int| 0 <= i < s.len() ==> !is_forbidden(#[trigger] s[i])
    &&& forall|i: int| 0 < i < s.len() ==> !(s[i - 1] == '_' && #[trigger] s[i] == '_')
    &&& s.len() > 0 ==> !is_bad_ending(s.last())
}

proof fn lemma_bad_ending_len(s: Seq<char>)
    ensures
        bad_ending_len(s) <= s.len(),
        forall|i: int|
            s.len() - bad_ending_len(s) <= i < s.len() ==> is_bad_ending(#[trigger] s[i]),
        bad_ending_len(s) < s.len() ==> !is_bad_ending(s[s.len() - bad_ending_len(s) - 1]),
    decreases s.len(),
{
    if s.len() > 0 && is_bad_ending(s.last()) {
        lemma_bad_ending_len(s.drop_last());
        assert forall|i: int| s.len() - bad_ending_len(s) <= i < s.len() implies is_bad_ending(
            #[trigger] s[i],
        ) by {
            if i < s.len() - 1 {
                assert(s[i] == s.drop_last()[i]);
            }
        }
    }
}

proof fn lemma_collapse(s: Seq<char>)
    ensures
        (s.len() > 0) ==> collapse_underscores(s).len() > 0 && collapse_underscores(s).last()
            == s.last(),
        forall|i: int|
            0 <= i < collapse_underscores(s).len() ==> s.contains(
                #[trigger] collapse_underscores(s)[i],
            ),
        forall|i: int|
            0 < i < collapse_underscores(s).len() ==> !(collapse_underscores(s)[i - 1] == '_'
                && #[trigger] collapse_underscores(s)[i] == '_'),
    decreases s.len(),
{
    if s.len() > 0 {
        lemma_collapse(s.drop_last());
        let before = collapse_underscores(s.drop_last());
        let all = collapse_underscores(s);
        assert forall|i: int| 0 <= i < all.len() implies s.contains(#[trigger] all[i]) by {
            if i < before.len() {
                assert(all[i] == before[i]);
                let k = choose|k: int|
                    0 <= k < s.drop_last().len() && s.drop_last()[k] == before[i];
                assert(s[k] == all[i]);
            } else {
                assert(s[s.len() - 1] == all[i]);
            }
        }
        assert forall|i: int| 0 < i < all.len() implies !(all[i - 1] == '_' && #[trigger] all[i]
            == '_') by {
            if i < before.len() {
                assert(all[i] == before[i]);
                assert(all[i - 1] == before[i - 1]);
            } else {
                assert(all[i - 1] == before.last());
                assert(s.drop_last().last() == s[s.len() - 2]);
            }
        }
    }
}

proof fn lemma_collapse_keeps_clean(s: Seq<char>)
    requires
        forall|i: int| 0 < i < s.len() ==> !(s[i - 1] == '_' && #[trigger] s[i] == '_'),
    ensures
        collapse_underscores(s) == s,
    decreases s.len(),
{
    if s.len() > 0 {
        assert forall|i: int| 0 < i < s.drop_last().len() implies !(s.drop_last()[i - 1] == '_'
            && #[trigger] s.drop_last()[i] == '_') by {
            assert(s.drop_last()[i] == s[i]);
        }
        lemma_collapse_keeps_clean(s.drop_last());
        assert(s.drop_last().push(s.last()) =~= s);
    }
}

/// A sanitised name holds no forbidden character, no two underscores in a row, and no
/// dot or space at its end.
pub proof fn law_sanitized_is_clean(name: Seq<char>)
    ensures
        is_clean_name(sanitized(name)),
{
    let mapped = safe_chars(name);
    let collapsed = collapse_underscores(mapped);
    let out = sanitized(name);
    let n = collapsed.len() - bad_ending_len(collapsed);
    lemma_collapse(mapped);
    lemma_bad_ending_len(collapsed);
    assert forall|i: int| 0 <= i < out.len() implies !is_forbidden(#[trigger] out[i]) by {
        assert(mapped.contains(collapsed[i]));
        let k = choose|k: int| 0 <= k < mapped.len() && mapped[k] == collapsed[i];
        assert(mapped[k] == safe_char(name[k]));
    }
    assert forall|i: int| 0 < i < out.len() implies !(out[i - 1] == '_' && #[trigger] out[i]
        == '_') by {
        if i < n {
            assert(out[i] == collapsed[i]);
            assert(out[i - 1] == collapsed[i - 1]);
        } else {
            assert(out[i] == wide_char(collapsed[i]));
        }
    }
    if out.len() > 0 {
        if n < out.len() {
            assert(out.last() == wide_char(collapsed.last()));
        } else {
            assert(out.last() == collapsed[n - 1]);
        }
    }
}

/// A clean name is its own sanitised form.
pub proof fn law_clean_name_is_kept(name: Seq<char>)
    requires
        is_clean_name(name),
    ensures
        sanitized(name) == name,
{
    assert(safe_chars(name) =~= name) by {
        assert forall|i: int| 0 <= i < name.len() implies safe_char(name[i]) == name[i] by {
            assert(!is_forbidden(name[i]));
        }
    }
    lemma_collapse_keeps_clean(name);
    assert(bad_ending_len(name) == 0);
    assert(widen_ending(name) =~= name);
}

/// Sanitising a sanitised name changes nothing.
pub proof fn law_sanitize_is_idempotent(name: Seq<char>)
    ensures
        sanitized(sanitized(name)) == sanitized(name),
{
    law_sanitized_is_clean(name);
    law_clean_name_is_kept(sanitized(name));
}

fn to_safe_char(c: char) -> (r: char)
    ensures
        r == safe_char(c),
{
    match c {
        '<' => '＜',
        '>' => '＞',
        ':' => '：',
        '"' => '＂',
        '/' => '／',
        '\\' => '＼',
        '|' => '｜',
        '?' => '？',
        '*' => '＊',
        _ => if c as u32 <= 31 {
            '_'
        } else {
            c
        },
    }
}

/// Replace characters invalid in file names with full-width equivalents, collapse
/// consecutive underscores, and make dots and spaces at the end full-width.
pub fn sanitize_filename(name: &str) -> (r: String)
    ensures
        r@ == sanitized(name@),
{
    let chars = chars_of(name);
    let ghost mapped = safe_chars(name@);
    let mut kept: Vec<char> = Vec::new();
    let mut last_was_us = false;
    let mut i: usize = 0;
    while i < chars.len()
        invariant
            chars@ == name@,
            mapped == safe_chars(name@),
            i <= chars@.len(),
            kept@ == collapse_underscores(mapped.take(i as int)),
            last_was_us == (i > 0 && mapped[i - 1] == '_'),
        decreases chars.len() - i,
    {
        let c = to_safe_char(chars[i]);
        proof {
            assert(c == mapped[i as int]);
            assert(mapped.take(i + 1).drop_last() =~= mapped.take(i as int));
        }
        if !(c == '_' && last_was_us) {
            kept.push(c);
        }
        last_was_us = c == '_';
        i += 1;
    }
    proof {
        assert(mapped.take(i as int) =~= mapped);
        lemma_bad_ending_len(kept@);
    }
    let mut end: usize = kept.len();
    proof {
        assert(kept@.take(end as int) =~= kept@);
    }
    while end > 0 && (kept[end - 1] == '.' || kept[end - 1] == ' ')
        invariant
            end <= kept@.len(),
            bad_ending_len(kept@) == kept@.len() - end + bad_ending_len(kept@.take(end as int)),
        decreases end,
    {
        proof {
            assert(kept@.take(end as int).drop_last() =~= kept@.take(end - 1));
        }
        end -= 1;
    }
    let mut out = string_of(&kept, 0, end);
    let mut j: usize = end;
    while j < kept.len()
        invariant
            end <= j <= kept@.len(),
            out@ == kept@.take(end as int) + kept@.subrange(end as int, j as int).map_values(
                |c: char| wide_char(c),
            ),
        decreases kept.len() - j,
    {
        let c = kept[j];
        let w = if c == '.' {
            '．'
        } else if c == ' ' {
            '　'
        } else {
            c
        };
        out.push(w);
        j += 1;
        proof {
            let f = |c: char| wide_char(c);
            assert(kept@.subrange(end as int, j as int).map_values(f) =~= kept@.subrange(
                end as int,
                j - 1,
            ).map_values(f).push(w));
        }
    }
    proof {
        assert(kept@.subrange(end as int, kept@.len() as int) =~= kept@.skip(end as int));
    }
    out
}

// ---------------------------------------------------------------------
// Names in brackets
// ---------------------------------------------------------------------

proof fn lemma_collapse_split(a: Seq<char>, b: Seq<char>)
    requires
        a.len() > 0 && b.len() > 0 ==> !(a.last() == '_' && b[0] == '_'),
    ensures
        collapse_underscores(a + b) == collapse_underscores(a) + collapse_underscores(b),
    decreases b.len(),
{
    if b.len() == 0 {
        assert(a + b =~= a);
        assert(collapse_underscores(a) + collapse_underscores(b) =~= collapse_underscores(a));
    } else {
        let s = a + b;
        let init = b.drop_last();
        assert(s.drop_last() =~= a + init);
        assert(s.last() == b.last());
        if init.len() > 0 {
            assert(init[0] == b[0]);
            assert(s[s.len() - 2] == b[b.len() - 2]);
        } else if a.len() > 0 {
            assert(s[s.len() - 2] == a.last());
        }
        lemma_collapse_split(a, init);
        assert(collapse_underscores(a) + collapse_underscores(init).push(b.last()) =~= (
        collapse_underscores(a) + collapse_underscores(init)).push(b.last()));
    }
}

proof fn lemma_bad_ending_split(a: Seq<char>, b: Seq<char>)
    requires
        a.len() > 0,
        !is_bad_ending(a.last()),
    ensures
        bad_ending_len(a + b) == bad_ending_len(b),
    decreases b.len(),
{
    let s = a + b;
    if b.len() == 0 {
        assert(s =~= a);
    } else {
        assert(s.last() == b.last());
        assert(s.drop_last() =~= a + b.drop_last());
        lemma_bad_ending_split(a, b.drop_last());
    }
}

/// The sanitised form of a name that starts with something in square brackets: what is
/// in the brackets and what follows them are sanitised apart.
pub proof fn lemma_sanitized_brackets(inner: Seq<char>, rest: Seq<char>)
    ensures
        sanitized(seq!['['] + inner + seq![']'] + rest) == seq!['['] + collapse_underscores(
            safe_chars(inner),
        ) + seq![']'] + sanitized(rest),
{
    let open = seq!['['];
    let close = seq![']'];
    let name = open + inner + close + rest;
    let i = safe_chars(inner);
    let r = safe_chars(rest);
    assert(safe_chars(name) =~= ((open + i) + close) + r);
    lemma_collapse_split((open + i) + close, r);
    lemma_collapse_split(open + i, close);
    lemma_collapse_split(open, i);
    assert(collapse_underscores(open) == open) by {
        lemma_collapse_keeps_clean(open);
    }
    assert(collapse_underscores(close) == close) by {
        lemma_collapse_keeps_clean(close);
    }
    let head = open + collapse_underscores(i) + close;
    let tail = collapse_underscores(r);
    assert(collapse_underscores(safe_chars(name)) == head + tail);
    assert(head.last() == ']');
    lemma_bad_ending_split(head, tail);
    lemma_bad_ending_len(tail);
    let n = tail.len() - bad_ending_len(tail);
    assert((head + tail).take(head.len() + n) =~= head + tail.take(n));
    assert((head + tail).skip(head.len() + n) =~= tail.skip(n));
    assert(widen_ending(head + tail) =~= head + widen_ending(tail));
}

/// Sanitising what stands in brackets a second time changes nothing, and puts no bracket
/// there.
pub proof fn lemma_inner_settles(inner: Seq<char>)
    ensures
        collapse_underscores(safe_chars(collapse_underscores(safe_chars(inner))))
            == collapse_underscores(safe_chars(inner)),
        !inner.contains(']') ==> !collapse_underscores(safe_chars(inner)).contains(']'),
{
    let mapped = safe_chars(inner);
    let out = collapse_underscores(mapped);
    lemma_collapse(mapped);
    assert forall|i: int| 0 <= i < out.len() implies safe_char(#[trigger] out[i]) == out[i] && (
    !inner.contains(']') ==> out[i] != ']') by {
        assert(mapped.contains(out[i]));
        let k = choose|k: int| 0 <= k < mapped.len() && mapped[k] == out[i];
        assert(mapped[k] == safe_char(inner[k]));
        assert(inner.contains(inner[k]));
    }
    assert(safe_chars(out) =~= out);
    lemma_collapse_keeps_clean(out);
}

// ---------------------------------------------------------------------
// Change detection
// ---------------------------------------------------------------------

/// Sorts a JSON value through and through: arrays by the text of their items, objects by
/// their keys.
pub fn deep_sort_json_value(value: &mut Json)
    ensures
        final(value)@ == deep_sorted(old(value)@),
        is_printable(old(value)@) ==> forall|other: JsonView| #[trigger]
            same_up_to_order(old(value)@, other) ==> deep_sorted(other) == final(value)@,
{
    let sorted: Json = value.sorted();
    proof {
        let v = value@;
        if is_printable(v) {
            assert forall|other: JsonView| #[trigger] same_up_to_order(v, other) implies deep_sorted(
                other,
            ) == deep_sorted(v) by {
                law_order_is_irrelevant(v, other);
            }
        }
    }
    *value = sorted;
}

/// What was found at the path of a file that is about to be written.
pub enum OldFile {
    /// No file.
    Missing,
    /// A file that could not be read as text.
    Unreadable,
    /// A file with this content.
    Content(String),
}

/// Two JSON values differ in more than the order of array items and object fields.
pub open spec fn json_differs(a: JsonView, b: JsonView) -> bool {
    !same_json(deep_sorted(a), deep_sorted(b))
}

/// A JSON file needs writing: it is missing or cannot be read, or its content differs from
/// the new content and either is not JSON or the two differ in more than order.
pub open spec fn json_changed(old: OldFile, new_content: Seq<char>) -> bool {
    match old {
        OldFile::Content(text) => text@ != new_content && match (
            parsed_json(text@),
            parsed_json(new_content),
        ) {
            (Some(a), Some(b)) => json_differs(a, b),
            _ => true,
        },
        _ => true,
    }
}

/// Whether two JSON values differ in more than the order of array items and object fields.
pub fn json_values_differ(a: &Json, b: &Json) -> (r: bool)
    ensures
        r == json_differs(a@, b@),
        is_printable(a@) && same_up_to_order(a@, b@) ==> !r,
        distinct_keys(a@) && !r ==> alike(a@, b@),
{
    let old_val: Json = a.sorted();
    let new_val: Json = b.sorted();
    proof {
        if is_printable(a@) && same_up_to_order(a@, b@) {
            law_order_is_irrelevant(a@, b@);
            law_deep_sort_keeps_keys_distinct(a@);
            law_same_json_is_reflexive(deep_sorted(a@));
        }
        if distinct_keys(a@) && same_json(old_val@, new_val@) {
            law_same_once_sorted_is_alike(a@, b@);
        }
    }
    !old_val.same(&new_val)
}

/// The two texts are JSON, and their values differ in nothing but the order of array items
/// and object fields, at any depth.
pub open spec fn same_json_up_to_order(a: Seq<char>, b: Seq<char>) -> bool {
    parsed_json(a) is Some && parsed_json(b) is Some && same_up_to_order(
        parsed_json(a)->Some_0,
        parsed_json(b)->Some_0,
    )
}

/// Whether a JSON file needs writing. A file that holds the same value in another order does
/// not; one that is left alone holds the new content, or the same value in another order, the
/// zeros of floating point being one.
pub fn is_changed(old: &OldFile, new_content: &str) -> (r: bool)
    ensures
        r == json_changed(*old, new_content@),
        old matches OldFile::Content(text) && same_json_up_to_order(text@, new_content@) ==> !r,
        !r ==> old is Content && (old->Content_0@ == new_content@ || parsed_json(
            old->Content_0@,
        ) is Some && parsed_json(new_content@) is Some && alike(
            parsed_json(old->Content_0@)->Some_0,
            parsed_json(new_content@)->Some_0,
        )),
{
    match old {
        OldFile::Content(old_str) => {
            if text_eq(old_str.as_str(), new_content) {
                return false;
            }
            match (Json::parse(old_str.as_str()), Json::parse(new_content)) {
                (Some(old_val), Some(new_val)) => json_values_differ(&old_val, &new_val),
                _ => true,
            }
        },
        _ => true,
    }
}

/// Which side of a comparison cannot be parsed.
#[derive(Clone, Copy, PartialEq, Eq, Structural)]
pub enum Unparsed {
    /// The old file.
    Old,
    /// The new content.
    New,
}

/// The side of a comparison that does not parse, the old one first; none where there is
/// nothing to compare or the texts are the same.
pub open spec fn unparsed_side(
    old: OldFile,
    new_content: Seq<char>,
    parses: spec_fn(Seq<char>) -> bool,
) -> Option<Unparsed> {
    match old {
        OldFile::Content(text) => if text@ == new_content {
            None
        } else if !parses(text@) {
            Some(Unparsed::Old)
        } else if !parses(new_content) {
            Some(Unparsed::New)
        } else {
            None
        },
        _ => None,
    }
}

/// Which side of a comparison is no JSON, where the texts differ.
pub fn unparsed_json(old: &OldFile, new_content: &str) -> (r: Option<Unparsed>)
    ensures
        r == unparsed_side(*old, new_content@, |text: Seq<char>| parsed_json(text) is Some),
{
    match old {
        OldFile::Content(old_str) => {
            if text_eq(old_str.as_str(), new_content) {
                None
            } else if Json::parse(old_str.as_str()).is_none() {
                Some(Unparsed::Old)
            } else if Json::parse(new_content).is_none() {
                Some(Unparsed::New)
            } else {
                None
            }
        },
        _ => None,
    }
}

/// A comparison with a side that does not parse ends in writing the file.
pub proof fn law_unparsed_side_is_a_change(old: OldFile, new_content: Seq<char>)
    requires
        unparsed_side(old, new_content, |text: Seq<char>| parsed_json(text) is Some) is Some,
    ensures
        json_changed(old, new_content),
{
}

/// A file with the new content is not written again.
pub proof fn law_same_content_is_no_change(text: String)
    ensures
        !json_changed(OldFile::Content(text), text@),
{
}

/// A file that holds the same JSON value, written in another way, is not written again.
pub proof fn law_same_value_is_no_change(text: String, new_content: Seq<char>)
    requires
        parsed_json(text@) is Some,
        parsed_json(text@) == parsed_json(new_content),
        distinct_keys(parsed_json(new_content)->Some_0),
    ensures
        !json_changed(OldFile::Content(text), new_content),
{
    let v = parsed_json(new_content)->Some_0;
    law_deep_sort_keeps_keys_distinct(v);
    law_same_json_is_reflexive(deep_sorted(v));
}

/// A file that holds the same object with its fields in another order is not written
/// again.
pub proof fn law_field_order_is_no_change(
    text: String,
    new_content: Seq<char>,
    a: Seq<(Seq<char>, JsonView)>,
    b: Seq<(Seq<char>, JsonView)>,
)
    requires
        parsed_json(text@) == Some(JsonView::Object(a)),
        parsed_json(new_content) == Some(JsonView::Object(b)),
        a.to_multiset() == b.to_multiset(),
        distinct_keys(JsonView::Object(a)),
    ensures
        !json_changed(OldFile::Content(text), new_content),
{
    law_field_order_is_irrelevant(a, b);
    law_deep_sort_keeps_keys_distinct(JsonView::Object(a));
    law_same_json_is_reflexive(deep_sorted(JsonView::Object(a)));
}

/// A file that holds the same value with array items or object fields in another order, at
/// any depth, is not written again, where items that print alike are alike.
pub proof fn law_order_is_no_change(text: String, new_content: Seq<char>, a: JsonView, b: JsonView)
    requires
        parsed_json(text@) == Some(a),
        parsed_json(new_content) == Some(b),
        same_up_to_order(a, b),
        distinct_keys(a),
        prints_apart(a),
    ensures
        !json_changed(OldFile::Content(text), new_content),
{
    law_order_is_irrelevant(a, b);
    law_deep_sort_keeps_keys_distinct(a);
    law_same_json_is_reflexive(deep_sorted(a));
}

// ---------------------------------------------------------------------
// Leftover temporary files
// ---------------------------------------------------------------------

/// What to do with a place met while cleaning a directory tree.
#[derive(Clone, Copy, PartialEq, Eq, Structural)]
pub enum CleanStep {
    /// Remove it.
    Remove,
    /// Look into it.
    Descend,
    /// Leave it alone.
    Keep,
}

/// What is done with a place met while cleaning: a directory is looked into, whatever its
/// name; a file with the extension `tmp` is removed; any other file is kept.
pub open spec fn step_at(extension: Option<Seq<char>>, is_dir: bool) -> CleanStep {
    if is_dir {
        CleanStep::Descend
    } else if extension == Some("tmp"@) {
        CleanStep::Remove
    } else {
        CleanStep::Keep
    }
}

/// What to do with a place met while cleaning a directory tree of temporary files.
pub fn clean_step(extension: Option<&str>, is_dir: bool) -> (r: CleanStep)
    ensures
        r == step_at(str_view(extension), is_dir),
{
    let is_tmp = match extension {
        Some(e) => text_eq(e, "tmp"),
        None => false,
    };
    if is_dir {
        CleanStep::Descend
    } else if is_tmp {
        CleanStep::Remove
    } else {
        CleanStep::Keep
    }
}

/// A place found in a directory.
pub struct Place<P> {
    /// Where it is.
    pub path: P,
    /// The extension of its name, where that is text.
    pub extension: Option<String>,
    /// Whether it is a directory.
    pub is_dir: bool,
}

/// What is done with a place.
pub open spec fn place_step<P>(place: Place<P>) -> CleanStep {
    step_at(string_view(place.extension), place.is_dir)
}

/// A directory tree in the course of being cleaned of temporary files.
pub struct CleanRun<P, E> {
    /// Directories still to be looked into.
    pub dirs: Vec<P>,
    /// Files still to be removed.
    pub files: Vec<P>,
    /// The first error met.
    pub error: Option<E>,
}

/// What a run asks for.
pub enum CleanCommand<P> {
    /// List this directory.
    List(P),
    /// Remove this file.
    Remove(P),
    /// Nothing is left to do.
    Finished,
}

/// The mathematical state of a run.
#[verifier::ext_equal]
pub struct CleanView<P, E> {
    pub dirs: Seq<P>,
    pub files: Seq<P>,
    pub error: Option<E>,
}

impl<P, E> View for CleanRun<P, E> {
    type V = CleanView<P, E>;

    open spec fn view(&self) -> CleanView<P, E> {
        CleanView { dirs: self.dirs@, files: self.files@, error: self.error }
    }
}

/// What a run asks for: a file to be removed, else a directory to be listed. An error does
/// not keep the rest of the tree from being cleaned.
pub open spec fn clean_command<P, E>(run: CleanView<P, E>) -> CleanCommand<P> {
    if run.files.len() > 0 {
        CleanCommand::Remove(run.files.last())
    } else if run.dirs.len() > 0 {
        CleanCommand::List(run.dirs.last())
    } else {
        CleanCommand::Finished
    }
}

/// The run once it has asked for what it asks for.
pub open spec fn clean_asked<P, E>(run: CleanView<P, E>) -> CleanView<P, E> {
    match clean_command(run) {
        CleanCommand::Remove(_) => CleanView { files: run.files.drop_last(), ..run },
        CleanCommand::List(_) => CleanView { dirs: run.dirs.drop_last(), ..run },
        CleanCommand::Finished => run,
    }
}

/// The paths of the places with the given step, in order.
pub open spec fn paths_with<P>(places: Seq<Place<P>>, step: CleanStep) -> Seq<P>
    decreases places.len(),
{
    if places.len() == 0 {
        Seq::empty()
    } else {
        let before = paths_with(places.drop_last(), step);
        if place_step(places.last()) == step {
            before.push(places.last().path)
        } else {
            before
        }
    }
}

/// The run with an error noted, where there is one; the first stays.
pub open spec fn clean_noted<P, E>(run: CleanView<P, E>, error: Option<E>) -> CleanView<P, E> {
    if run.error is Some {
        run
    } else {
        CleanView { error, ..run }
    }
}

/// The run after a directory was listed: what was found in it, and the error that came up.
pub open spec fn clean_listed<P, E>(
    run: CleanView<P, E>,
    places: Seq<Place<P>>,
    error: Option<E>,
) -> CleanView<P, E> {
    clean_noted(
        CleanView {
            dirs: run.dirs + paths_with(places, CleanStep::Descend),
            files: run.files + paths_with(places, CleanStep::Remove),
            ..run
        },
        error,
    )
}

/// Begins a run: clean the directory tree under `root` of temporary files.
pub fn clean_tmp_files<P, E>(root: P) -> (r: CleanRun<P, E>)
    ensures
        r@ == (CleanView::<P, E> { dirs: seq![root], files: Seq::empty(), error: None }),
{
    let mut dirs: Vec<P> = Vec::new();
    dirs.push(root);
    CleanRun { dirs, files: Vec::new(), error: None }
}

impl<P, E> CleanRun<P, E> {
    /// What the run asks for next; it is then up to the caller to do it and to say how it
    /// went.
    pub fn next_command(&mut self) -> (r: CleanCommand<P>)
        ensures
            r == clean_command(old(self)@),
            final(self)@ == clean_asked(old(self)@),
    {
        match self.files.pop() {
            Some(path) => CleanCommand::Remove(path),
            None => match self.dirs.pop() {
                Some(path) => CleanCommand::List(path),
                None => CleanCommand::Finished,
            },
        }
    }

    fn note(&mut self, error: Option<E>)
        ensures
            final(self)@ == clean_noted(old(self)@, error),
    {
        if self.error.is_none() {
            self.error = error;
        }
    }

    /// Takes what was found in a directory, and the error that came up while it was listed.
    pub fn listed(&mut self, places: Vec<Place<P>>, error: Option<E>)
        ensures
            final(self)@ == clean_listed(old(self)@, places@, error),
    {
        let ghost start = self@;
        let ghost all = places@;
        let mut rest: Vec<Place<P>> = places;
        let mut backwards: Vec<Place<P>> = Vec::new();
        let n: usize = rest.len();
        while rest.len() > 0
            invariant
                self@ == start,
                n == all.len(),
                rest@ == all.take(rest@.len() as int),
                rest@.len() + backwards@.len() == n,
                forall|j: int|
                    0 <= j < backwards@.len() ==> #[trigger] backwards@[j] == all[n - 1 - j],
            decreases rest.len(),
        {
            let ghost before = rest@;
            let place: Option<Place<P>> = rest.pop();
            proof {
                assert(before.last() == all[before.len() - 1]);
                assert(before.drop_last() =~= all.take(before.len() - 1));
            }
            if let Some(p) = place {
                backwards.push(p);
            }
        }
        proof {
            assert(all.take(0) =~= Seq::<Place<P>>::empty());
            assert(start.dirs + Seq::<P>::empty() =~= start.dirs);
            assert(start.files + Seq::<P>::empty() =~= start.files);
        }
        while backwards.len() > 0
            invariant
                n == all.len(),
                backwards@.len() <= n,
                forall|j: int|
                    0 <= j < backwards@.len() ==> #[trigger] backwards@[j] == all[n - 1 - j],
                self@ == (CleanView {
                    dirs: start.dirs + paths_with(
                        all.take(n - backwards@.len()),
                        CleanStep::Descend,
                    ),
                    files: start.files + paths_with(
                        all.take(n - backwards@.len()),
                        CleanStep::Remove,
                    ),
                    ..start
                }),
            decreases backwards.len(),
        {
            let ghost before = backwards@;
            let ghost done = n - before.len();
            let place: Option<Place<P>> = backwards.pop();
            proof {
                assert(before.last() == all[done]);
                assert(all.take(done + 1).drop_last() =~= all.take(done));
                assert(all.take(done + 1).last() == all[done]);
            }
            if let Some(p) = place {
                let Place { path, extension, is_dir } = p;
                let ext: Option<&str> = match &extension {
                    Some(e) => Some(e.as_str()),
                    None => None,
                };
                match clean_step(ext, is_dir) {
                    CleanStep::Descend => {
                        self.dirs.push(path);
                        proof {
                            assert(self.dirs@ =~= start.dirs + paths_with(
                                all.take(done + 1),
                                CleanStep::Descend,
                            ));
                        }
                    },
                    CleanStep::Remove => {
                        self.files.push(path);
                        proof {
                            assert(self.files@ =~= start.files + paths_with(
                                all.take(done + 1),
                                CleanStep::Remove,
                            ));
                        }
                    },
                    CleanStep::Keep => {},
                }
            }
        }
        proof {
            assert(all.take(n as int) =~= all);
        }
        self.note(error);
    }

    /// Takes the error with which the removal of a file failed, if it did.
    pub fn removed(&mut self, error: Option<E>)
        ensures
            final(self)@ == clean_noted(old(self)@, error),
    {
        self.note(error);
    }

    /// How the run ended: with its first error, if there was one.
    pub fn outcome(self) -> (r: Result<(), E>)
        ensures
            r == match self.error {
                Some(e) => Err::<(), E>(e),
                None => Ok::<(), E>(()),
            },
    {
        match self.error {
            Some(e) => Err(e),
            None => Ok(()),
        }
    }
}

/// A run together with what it has asked for so far.
#[verifier::ext_equal]
pub struct CleanHistory<P, E> {
    pub run: CleanView<P, E>,
    /// Directories it asked to be listed.
    pub listed: Seq<P>,
    /// Files it asked to be removed.
    pub removed: Seq<P>,
}

/// A directory tree as a run meets it: what is found in a directory, with the error that
/// comes up, and the error with which the removal of a file fails.
#[verifier::reject_recursive_types(P)]
#[verifier::reject_recursive_types(E)]
pub struct Tree<P, E> {
    pub found: spec_fn(P) -> Seq<Place<P>>,
    pub list_error: spec_fn(P) -> Option<E>,
    pub remove_error: spec_fn(P) -> Option<E>,
}

/// One command of a run, carried out and answered.
pub open spec fn clean_once<P, E>(
    h: CleanHistory<P, E>,
    tree: Tree<P, E>,
) -> CleanHistory<P, E> {
    match clean_command(h.run) {
        CleanCommand::List(p) => CleanHistory {
            run: clean_listed(clean_asked(h.run), (tree.found)(p), (tree.list_error)(p)),
            listed: h.listed.push(p),
            ..h
        },
        CleanCommand::Remove(p) => CleanHistory {
            run: clean_noted(clean_asked(h.run), (tree.remove_error)(p)),
            removed: h.removed.push(p),
            ..h
        },
        CleanCommand::Finished => h,
    }
}

/// A run over `root` after `n` commands.
pub open spec fn clean_history<P, E>(root: P, tree: Tree<P, E>, n: nat) -> CleanHistory<P, E>
    decreases n,
{
    if n == 0 {
        CleanHistory {
            run: CleanView { dirs: seq![root], files: Seq::empty(), error: None },
            listed: Seq::empty(),
            removed: Seq::empty(),
        }
    } else {
        clean_once(clean_history(root, tree, (n - 1) as nat), tree)
    }
}

/// What was found in a listed directory is asked for, or waits to be asked for.
spec fn all_accounted_for<P, E>(root: P, tree: Tree<P, E>, h: CleanHistory<P, E>) -> bool {
    &&& h.listed.contains(root) || h.run.dirs.contains(root)
    &&& forall|i: int|
        0 <= i < h.listed.len() ==> dir_accounted_for(#[trigger] h.listed[i], tree, h)
}

spec fn dir_accounted_for<P, E>(dir: P, tree: Tree<P, E>, h: CleanHistory<P, E>) -> bool {
    forall|k: int|
        0 <= k < (tree.found)(dir).len() ==> place_accounted_for(
            #[trigger] (tree.found)(dir)[k],
            h,
        )
}

spec fn place_accounted_for<P, E>(place: Place<P>, h: CleanHistory<P, E>) -> bool {
    match place_step(place) {
        CleanStep::Remove => h.removed.contains(place.path) || h.run.files.contains(place.path),
        CleanStep::Descend => h.listed.contains(place.path) || h.run.dirs.contains(place.path),
        CleanStep::Keep => true,
    }
}

proof fn lemma_paths_with<P>(places: Seq<Place<P>>, step: CleanStep, k: int)
    requires
        0 <= k < places.len(),
        place_step(places[k]) == step,
    ensures
        paths_with(places, step).contains(places[k].path),
    decreases places.len(),
{
    let init = places.drop_last();
    let before = paths_with(init, step);
    let all = paths_with(places, step);
    if k < init.len() {
        assert(init[k] == places[k]);
        lemma_paths_with(init, step, k);
        let j = choose|j: int| 0 <= j < before.len() && before[j] == places[k].path;
        assert(all[j] == before[j]);
    } else {
        assert(all[all.len() - 1] == places[k].path);
    }
}

proof fn lemma_still_there<P>(s: Seq<P>, asked: Seq<P>, p: P)
    requires
        s.len() > 0,
        s.contains(p),
    ensures
        s.drop_last().contains(p) || asked.push(s.last()).contains(p),
{
    let j = choose|j: int| 0 <= j < s.len() && s[j] == p;
    if j < s.len() - 1 {
        assert(s.drop_last()[j] == p);
    } else {
        assert(asked.push(s.last())[asked.len() as int] == p);
    }
}

proof fn lemma_push_keeps<P>(asked: Seq<P>, x: P, p: P)
    requires
        asked.contains(p),
    ensures
        asked.push(x).contains(p),
{
    let j = choose|j: int| 0 <= j < asked.len() && asked[j] == p;
    assert(asked.push(x)[j] == p);
}

proof fn lemma_add_keeps<P>(a: Seq<P>, b: Seq<P>, p: P)
    requires
        a.contains(p) || b.contains(p),
    ensures
        (a + b).contains(p),
{
    if a.contains(p) {
        let j = choose|j: int| 0 <= j < a.len() && a[j] == p;
        assert((a + b)[j] == p);
    } else {
        let j = choose|j: int| 0 <= j < b.len() && b[j] == p;
        assert((a + b)[a.len() + j] == p);
    }
}

proof fn lemma_place_stays<P, E>(place: Place<P>, h: CleanHistory<P, E>, tree: Tree<P, E>)
    requires
        place_accounted_for(place, h),
    ensures
        place_accounted_for(place, clean_once(h, tree)),
{
    let p = place.path;
    match clean_command(h.run) {
        CleanCommand::List(d) => {
            let places = (tree.found)(d);
            let more_dirs = paths_with(places, CleanStep::Descend);
            let more_files = paths_with(places, CleanStep::Remove);
            if place_step(place) == CleanStep::Descend {
                if h.listed.contains(p) {
                    lemma_push_keeps(h.listed, d, p);
                } else {
                    lemma_still_there(h.run.dirs, h.listed, p);
                    if h.run.dirs.drop_last().contains(p) {
                        lemma_add_keeps(h.run.dirs.drop_last(), more_dirs, p);
                    }
                }
            } else if place_step(place) == CleanStep::Remove && !h.removed.contains(p) {
                lemma_add_keeps(h.run.files, more_files, p);
            }
        },
        CleanCommand::Remove(f) => {
            if place_step(place) == CleanStep::Remove {
                if h.removed.contains(p) {
                    lemma_push_keeps(h.removed, f, p);
                } else {
                    lemma_still_there(h.run.files, h.removed, p);
                }
            }
        },
        CleanCommand::Finished => {},
    }
}

proof fn lemma_accounted_for<P, E>(root: P, tree: Tree<P, E>, n: nat)
    ensures
        all_accounted_for(root, tree, clean_history(root, tree, n)),
    decreases n,
{
    let next = clean_history(root, tree, n);
    if n == 0 {
        assert(next.run.dirs[0] == root);
    } else {
        let h = clean_history(root, tree, (n - 1) as nat);
        assert(next == clean_once(h, tree));
        lemma_accounted_for(root, tree, (n - 1) as nat);
        let as_place = Place { path: root, extension: None, is_dir: true };
        assert(place_accounted_for(as_place, h));
        lemma_place_stays(as_place, h, tree);
        assert forall|i: int| 0 <= i < next.listed.len() implies dir_accounted_for(
            #[trigger] next.listed[i],
            tree,
            next,
        ) by {
            let dir = next.listed[i];
            if i < h.listed.len() {
                assert(dir == h.listed[i]);
                assert(dir_accounted_for(h.listed[i], tree, h));
                let places = (tree.found)(dir);
                assert forall|k: int| 0 <= k < places.len() implies place_accounted_for(
                    #[trigger] places[k],
                    next,
                ) by {
                    assert(place_accounted_for((tree.found)(dir)[k], h));
                    lemma_place_stays(places[k], h, tree);
                }
            } else {
                let places = (tree.found)(dir);
                assert forall|k: int| 0 <= k < places.len() implies place_accounted_for(
                    #[trigger] places[k],
                    next,
                ) by {
                    let step = place_step(places[k]);
                    if step != CleanStep::Keep {
                        lemma_paths_with(places, step, k);
                        if step == CleanStep::Descend {
                            lemma_add_keeps(
                                h.run.dirs.drop_last(),
                                paths_with(places, step),
                                places[k].path,
                            );
                        } else {
                            lemma_add_keeps(
                                h.run.files,
                                paths_with(places, step),
                                places[k].path,
                            );
                        }
                    }
                }
            }
        }
    }
}

/// A run that has nothing left to ask for has gone through the whole tree: it looked into
/// the root and into every directory it met, and it asked for the removal of every temporary
/// file it met, whatever errors came up.
pub proof fn law_clean_run_leaves_nothing_out<P, E>(root: P, tree: Tree<P, E>, n: nat)
    requires
        clean_command(clean_history(root, tree, n).run) is Finished,
    ensures
        ({
            let h = clean_history(root, tree, n);
            &&& h.listed.contains(root)
            &&& forall|i: int, k: int|
                0 <= i < h.listed.len() && 0 <= k < (tree.found)(h.listed[i]).len() ==> {
                    let place = #[trigger] (tree.found)(h.listed[i])[k];
                    &&& place_step(place) == CleanStep::Descend ==> h.listed.contains(place.path)
                    &&& place_step(place) == CleanStep::Remove ==> h.removed.contains(place.path)
                }
        }),
{
    let h = clean_history(root, tree, n);
    lemma_accounted_for(root, tree, n);
    assert forall|i: int, k: int|
        0 <= i < h.listed.len() && 0 <= k < (tree.found)(h.listed[i]).len() implies {
        let place = #[trigger] (tree.found)(h.listed[i])[k];
        &&& place_step(place) == CleanStep::Descend ==> h.listed.contains(place.path)
        &&& place_step(place) == CleanStep::Remove ==> h.removed.contains(place.path)
    } by {
        assert(dir_accounted_for(h.listed[i], tree, h));
        assert(place_accounted_for((tree.found)(h.listed[i])[k], h));
    }
}

/// What a run asks to be removed are temporary files that it found in a directory: nothing
/// else in the tree is touched.
pub proof fn law_clean_run_removes_only_temporary_files<P, E>(
    root: P,
    tree: Tree<P, E>,
    n: nat,
    p: P,
)
    requires
        clean_history(root, tree, n).removed.contains(p) || clean_history(
            root,
            tree,
            n,
        ).run.files.contains(p),
    ensures
        exists|i: int, k: int|
            0 <= i < clean_history(root, tree, n).listed.len() && is_temporary_file(
                tree,
                clean_history(root, tree, n).listed[i],
                k,
                p,
            ),
    decreases n,
{
    let next = clean_history(root, tree, n);
    if n > 0 {
        let h = clean_history(root, tree, (n - 1) as nat);
        if h.removed.contains(p) || h.run.files.contains(p) {
            law_clean_run_removes_only_temporary_files(root, tree, (n - 1) as nat, p);
            let (i, k) = choose|i: int, k: int|
                0 <= i < h.listed.len() && is_temporary_file(tree, h.listed[i], k, p);
            assert(next.listed[i] == h.listed[i]);
            assert(is_temporary_file(tree, next.listed[i], k, p));
        } else {
            match clean_command(h.run) {
                CleanCommand::List(d) => {
                    let places = (tree.found)(d);
                    let more = paths_with(places, CleanStep::Remove);
                    assert(next.run.files.contains(p));
                    let j = choose|j: int|
                        0 <= j < next.run.files.len() && next.run.files[j] == p;
                    assert(next.run.files == h.run.files + more);
                    if j < h.run.files.len() {
                        assert(h.run.files[j] == p);
                    }
                    assert(more[j - h.run.files.len()] == p);
                    let k = lemma_path_from(places, CleanStep::Remove, j - h.run.files.len());
                    assert(next.listed[h.listed.len() as int] == d);
                    assert(is_temporary_file(tree, next.listed[h.listed.len() as int], k, p));
                },
                CleanCommand::Remove(f) => {
                    assert(h.run.files.last() == f);
                    assert(h.run.files.contains(f));
                    if next.run.files.contains(p) {
                        let j = choose|j: int|
                            0 <= j < next.run.files.len() && next.run.files[j] == p;
                        assert(h.run.files[j] == p);
                    } else {
                        let j = choose|j: int| 0 <= j < next.removed.len() && next.removed[j] == p;
                        if j < h.removed.len() {
                            assert(h.removed[j] == p);
                        }
                    }
                },
                CleanCommand::Finished => {},
            }
        }
    }
}

/// Place `k` of a listed directory is the temporary file `p`.
pub open spec fn is_temporary_file<P, E>(tree: Tree<P, E>, dir: P, k: int, p: P) -> bool {
    &&& 0 <= k < (tree.found)(dir).len()
    &&& (tree.found)(dir)[k].path == p
    &&& place_step((tree.found)(dir)[k]) == CleanStep::Remove
}

proof fn lemma_path_from<P>(places: Seq<Place<P>>, step: CleanStep, j: int) -> (k: int)
    requires
        0 <= j < paths_with(places, step).len(),
    ensures
        0 <= k < places.len(),
        places[k].path == paths_with(places, step)[j],
        place_step(places[k]) == step,
    decreases places.len(),
{
    let init = places.drop_last();
    let before = paths_with(init, step);
    if j < before.len() {
        let k = lemma_path_from(init, step, j);
        assert(init[k] == places[k]);
        k
    } else {
        places.len() - 1
    }
}

/// The error that came up with command `k` of a run, if one did.
pub open spec fn error_met<P, E>(root: P, tree: Tree<P, E>, k: nat) -> Option<E> {
    match clean_command(clean_history(root, tree, k).run) {
        CleanCommand::List(p) => (tree.list_error)(p),
        CleanCommand::Remove(p) => (tree.remove_error)(p),
        CleanCommand::Finished => None,
    }
}

/// The first error that a run meets is the one that it ends with.
pub proof fn law_first_error_is_returned<P, E>(root: P, tree: Tree<P, E>, k: nat, n: nat)
    requires
        k < n,
        error_met(root, tree, k) is Some,
        forall|j: nat| j < k ==> #[trigger] error_met(root, tree, j) is None,
    ensures
        clean_history(root, tree, n).run.error == error_met(root, tree, k),
    decreases n,
{
    if n == k + 1 {
        law_no_error_is_made_up(root, tree, k);
    } else {
        law_first_error_is_returned(root, tree, k, (n - 1) as nat);
    }
}

/// A run that meets no error ends without one.
pub proof fn law_no_error_is_made_up<P, E>(root: P, tree: Tree<P, E>, n: nat)
    requires
        forall|j: nat| j < n ==> #[trigger] error_met(root, tree, j) is None,
    ensures
        clean_history(root, tree, n).run.error is None,
    decreases n,
{
    if n > 0 {
        law_no_error_is_made_up(root, tree, (n - 1) as nat);
        assert(error_met(root, tree, (n - 1) as nat) is None);
    }
}

/// Every directory found in another has a smaller rank than it: the tree is finitely deep.
pub open spec fn is_ranked<P, E>(tree: Tree<P, E>, rank: spec_fn(P) -> nat) -> bool {
    forall|dir: P, k: int|
        0 <= k < (tree.found)(dir).len() && place_step(#[trigger] (tree.found)(dir)[k])
            == CleanStep::Descend ==> rank((tree.found)(dir)[k].path) < rank(dir)
}

/// How many commands a directory takes: one to list it, and those for what is in it.
spec fn dir_weight<P, E>(tree: Tree<P, E>, rank: spec_fn(P) -> nat, dir: P) -> nat
    decreases rank(dir), (tree.found)(dir).len() + 1,
{
    1 + places_weight(tree, rank, dir, (tree.found)(dir).len())
}

/// How many commands the first `n` places in a directory take.
spec fn places_weight<P, E>(
    tree: Tree<P, E>,
    rank: spec_fn(P) -> nat,
    dir: P,
    n: nat,
) -> nat
    decreases rank(dir), n,
{
    if n == 0 {
        0
    } else {
        let place = (tree.found)(dir)[n - 1];
        places_weight(tree, rank, dir, (n - 1) as nat) + (match place_step(place) {
            CleanStep::Remove => 1,
            CleanStep::Descend => if rank(place.path) < rank(dir) {
                dir_weight(tree, rank, place.path)
            } else {
                0
            },
            CleanStep::Keep => 0,
        })
    }
}

/// How many commands a list of directories takes.
spec fn dirs_weight<P, E>(tree: Tree<P, E>, rank: spec_fn(P) -> nat, dirs: Seq<P>) -> nat
    decreases dirs.len(),
{
    if dirs.len() == 0 {
        0
    } else {
        dirs_weight(tree, rank, dirs.drop_last()) + dir_weight(tree, rank, dirs.last())
    }
}

proof fn lemma_dirs_weight_add<P, E>(
    tree: Tree<P, E>,
    rank: spec_fn(P) -> nat,
    a: Seq<P>,
    b: Seq<P>,
)
    ensures
        dirs_weight(tree, rank, a + b) == dirs_weight(tree, rank, a) + dirs_weight(tree, rank, b),
    decreases b.len(),
{
    if b.len() == 0 {
        assert(a + b =~= a);
    } else {
        lemma_dirs_weight_add(tree, rank, a, b.drop_last());
        assert((a + b).drop_last() =~= a + b.drop_last());
        assert((a + b).last() == b.last());
    }
}

proof fn lemma_places_weight<P, E>(tree: Tree<P, E>, rank: spec_fn(P) -> nat, dir: P, n: nat)
    requires
        is_ranked(tree, rank),
        n <= (tree.found)(dir).len(),
    ensures
        ({
            let places = (tree.found)(dir).take(n as int);
            places_weight(tree, rank, dir, n) == paths_with(places, CleanStep::Remove).len()
                + dirs_weight(tree, rank, paths_with(places, CleanStep::Descend))
        }),
    decreases n,
{
    if n > 0 {
        let all = (tree.found)(dir);
        let places = all.take(n as int);
        lemma_places_weight(tree, rank, dir, (n - 1) as nat);
        assert(places.drop_last() =~= all.take(n - 1));
        assert(places.last() == all[n - 1]);
        let dirs = paths_with(places.drop_last(), CleanStep::Descend);
        assert(dirs.push(all[n - 1].path).drop_last() =~= dirs);
    }
}

/// How many commands a run still takes.
spec fn run_weight<P, E>(
    tree: Tree<P, E>,
    rank: spec_fn(P) -> nat,
    run: CleanView<P, E>,
) -> nat {
    run.files.len() + dirs_weight(tree, rank, run.dirs)
}

proof fn lemma_run_weight<P, E>(root: P, tree: Tree<P, E>, rank: spec_fn(P) -> nat, n: nat)
    requires
        is_ranked(tree, rank),
    ensures
        clean_command(clean_history(root, tree, n).run) is Finished || run_weight(
            tree,
            rank,
            clean_history(root, tree, n).run,
        ) + n == dir_weight(tree, rank, root),
    decreases n,
{
    if n == 0 {
        reveal_with_fuel(dirs_weight, 2);
        let dirs = clean_history(root, tree, 0).run.dirs;
        assert(dirs.drop_last() =~= Seq::<P>::empty());
        assert(dirs.last() == root);
    } else {
        let h = clean_history(root, tree, (n - 1) as nat);
        lemma_run_weight(root, tree, rank, (n - 1) as nat);
        if let CleanCommand::List(dir) = clean_command(h.run) {
            let places = (tree.found)(dir);
            lemma_places_weight(tree, rank, dir, places.len());
            assert(places.take(places.len() as int) =~= places);
            lemma_dirs_weight_add(
                tree,
                rank,
                h.run.dirs.drop_last(),
                paths_with(places, CleanStep::Descend),
            );
        }
    }
}

/// A run over a tree that is finitely deep ends.
pub proof fn law_clean_run_ends<P, E>(root: P, tree: Tree<P, E>, rank: spec_fn(P) -> nat)
    requires
        is_ranked(tree, rank),
    ensures
        exists|n: nat|
            clean_command(#[trigger] clean_history(root, tree, n).run) is Finished,
{
    let n = dir_weight(tree, rank, root) + 1;
    lemma_run_weight(root, tree, rank, n);
    assert(clean_command(clean_history(root, tree, n).run) is Finished);
}

// ---------------------------------------------------------------------
// What a name and a content come to
// ---------------------------------------------------------------------

/// In a name without control characters, without two underscores in a row and with neither a
/// dot nor a space at its end, each of the nine characters that some filesystem forbids is
/// exchanged for its full-width form, and every other character stays.
pub proof fn law_forbidden_characters_are_widened(name: Seq<char>, i: int)
    requires
        forall|j: int| 0 <= j < name.len() ==> #[trigger] name[j] as u32 >= 32,
        forall|j: int| 0 < j < name.len() ==> !(name[j - 1] == '_' && #[trigger] name[j] == '_'),
        name.len() > 0 ==> name.last() != '.' && name.last() != ' ',
    ensures
        sanitized(name).len() == name.len(),
        0 <= i < name.len() ==> ({
            let out = sanitized(name)[i];
            &&& forall|k: int|
                0 <= k < 9 && name[i] == #[trigger] "<>:\"/\\|?*"@[k] ==> out
                    == "＜＞：＂／＼｜？＊"@[k]
            &&& !"<>:\"/\\|?*"@.contains(name[i]) ==> out == name[i]
        }),
{
    reveal_strlit("<>:\"/\\|?*");
    reveal_strlit("＜＞：＂／＼｜？＊");
    let mapped = safe_chars(name);
    assert forall|j: int| 0 < j < mapped.len() implies !(mapped[j - 1] == '_' && #[trigger] mapped[j]
        == '_') by {
        assert(!(name[j - 1] == '_' && name[j] == '_'));
        assert(name[j - 1] as u32 >= 32 && name[j] as u32 >= 32);
    }
    lemma_collapse_keeps_clean(mapped);
    if name.len() > 0 {
        assert(mapped.last() == safe_char(name.last()));
        assert(!is_bad_ending(mapped.last())) by {
            assert(name[name.len() - 1] as u32 >= 32);
        }
    }
    assert(bad_ending_len(mapped) == 0);
    assert(widen_ending(mapped) =~= mapped);
    if 0 <= i < name.len() {
        let list = "<>:\"/\\|?*"@;
        assert(name[i] as u32 >= 32);
        if !list.contains(name[i]) {
            assert(list[0] == '<' && list[1] == '>' && list[2] == ':' && list[3] == '"' && list[4]
                == '/' && list[5] == '\\' && list[6] == '|' && list[7] == '?' && list[8] == '*');
        }
    }
}

/// A dot or a space at the end of a name is made full-width, whatever stands before it.
pub proof fn law_ending_is_widened(name: Seq<char>)
    ensures
        sanitized(name.push('.')) == sanitized(name).push('．'),
        sanitized(name.push(' ')) == sanitized(name).push('　'),
{
    lemma_ending_is_widened(name, '.');
    lemma_ending_is_widened(name, ' ');
}

proof fn lemma_ending_is_widened(name: Seq<char>, c: char)
    requires
        c == '.' || c == ' ',
    ensures
        sanitized(name.push(c)) == sanitized(name).push(wide_char(c)),
{
    let mapped = safe_chars(name);
    assert(safe_chars(name.push(c)) =~= mapped.push(c));
    let s = collapse_underscores(mapped);
    assert(mapped.push(c).drop_last() =~= mapped);
    assert(collapse_underscores(mapped.push(c)) == s.push(c));
    assert(s.push(c).drop_last() =~= s);
    assert(bad_ending_len(s.push(c)) == bad_ending_len(s) + 1);
    lemma_bad_ending_len(s);
    assert(widen_ending(s.push(c)) =~= widen_ending(s).push(wide_char(c)));
}

/// A control character counts as an underscore, and two underscores in a row as one.
pub proof fn law_control_characters_and_underscores(a: Seq<char>, b: Seq<char>, c: char)
    ensures
        c as u32 <= 31 ==> sanitized(a + seq![c] + b) == sanitized(a + seq!['_'] + b),
        sanitized(a + seq!['_', '_'] + b) == sanitized(a + seq!['_'] + b),
{
    if c as u32 <= 31 {
        assert(safe_char(c) == '_');
        assert(safe_chars(a + seq![c] + b) =~= safe_chars(a + seq!['_'] + b));
    }
    let x = safe_chars(a);
    let y = safe_chars(b);
    assert(safe_chars(a + seq!['_', '_'] + b) =~= x + seq!['_', '_'] + y);
    assert(safe_chars(a + seq!['_'] + b) =~= x + seq!['_'] + y);
    lemma_two_underscores(x, y);
}

proof fn lemma_two_underscores(a: Seq<char>, b: Seq<char>)
    ensures
        collapse_underscores(a + seq!['_', '_'] + b) == collapse_underscores(a + seq!['_'] + b),
    decreases b.len(),
{
    let two = a + seq!['_', '_'] + b;
    let one = a + seq!['_'] + b;
    if b.len() == 0 {
        assert(two.drop_last() =~= one);
        assert(two[two.len() - 2] == '_');
    } else {
        lemma_two_underscores(a, b.drop_last());
        assert(two.drop_last() =~= a + seq!['_', '_'] + b.drop_last());
        assert(one.drop_last() =~= a + seq!['_'] + b.drop_last());
        assert(two[two.len() - 2] == one[one.len() - 2]);
    }
}

/// The empty name stays empty.
pub proof fn law_empty_name()
    ensures
        sanitized(Seq::empty()) == Seq::<char>::empty(),
{
    let none = Seq::<char>::empty();
    assert(safe_chars(none) =~= none);
    assert(collapse_underscores(none) =~= none);
    assert(widen_ending(none) =~= none);
}

/// A JSON file is left alone only where its value is the new one but for the order of array
/// items and object fields and but for the zeros of floating point.
pub proof fn law_left_alone_only_if_alike(
    text: String,
    new_content: Seq<char>,
    a: JsonView,
    b: JsonView,
)
    requires
        parsed_json(text@) == Some(a),
        parsed_json(new_content) == Some(b),
        distinct_keys(a),
        !json_changed(OldFile::Content(text), new_content),
    ensures
        alike(a, b),
{
    if text@ == new_content {
        law_alike_values(a, a);
    } else {
        law_same_once_sorted_is_alike(a, b);
    }
}

/// A JSON file whose object holds, under some key, another string, number other than zero or
/// truth value than the new content, or something of another kind, is written, and so is one
/// whose object lacks a key or has one too many.
pub proof fn law_different_field_is_written(
    text: String,
    new_content: Seq<char>,
    a: JsonView,
    b: JsonView,
    i: int,
)
    requires
        parsed_json(text@) == Some(a),
        parsed_json(new_content) == Some(b),
        a is Object,
        b is Object,
        distinct_keys(a),
        0 <= i < a->Object_0.len(),
        a->Object_0.len() != b->Object_0.len() || forall|j: int|
            0 <= j < b->Object_0.len() && (#[trigger] b->Object_0[j]).0 == a->Object_0[i].0 ==> {
                let x = a->Object_0[i].1;
                let y = b->Object_0[j].1;
                ||| x is Text && x != y
                ||| x is Bool && x != y
                ||| x is Null && x != y
                ||| x is Number && x != y && x->Number_0 != "0.0"@ && x->Number_0 != "-0.0"@
                ||| x is Array && y !is Array
                ||| x is Object && y !is Object
            },
    ensures
        json_changed(OldFile::Content(text), new_content),
{
    if !json_changed(OldFile::Content(text), new_content) {
        law_left_alone_only_if_alike(text, new_content, a, b);
        law_alike_values(a, b);
        law_alike_fields(a, b, i);
        let j = choose|j: int|
            0 <= j < b->Object_0.len() && (#[trigger] b->Object_0[j]).0 == a->Object_0[i].0
                && alike(a->Object_0[i].1, b->Object_0[j].1);
        law_alike_values(a->Object_0[i].1, b->Object_0[j].1);
        assert(b->Object_0[j].0 == a->Object_0[i].0);
    }
}

/// A file that is missing or cannot be read is written, and so is one whose content differs
/// from the new content where either is no JSON.
pub proof fn law_unreadable_file_is_written(old: OldFile, new_content: Seq<char>)
    requires
        old is Content ==> old->Content_0@ != new_content && (parsed_json(
            old->Content_0@,
        ) is None || parsed_json(new_content) is None),
    ensures
        json_changed(old, new_content),
{
}

/// The old side is reported where it does not parse, the new side where only that does not;
/// nothing is reported of equal contents or where there is nothing to compare.
pub proof fn law_reported_side(
    old: OldFile,
    new_content: Seq<char>,
    parses: spec_fn(Seq<char>) -> bool,
)
    ensures
        old !is Content ==> unparsed_side(old, new_content, parses) is None,
        old is Content && old->Content_0@ == new_content ==> unparsed_side(
            old,
            new_content,
            parses,
        ) is None,
        old is Content && old->Content_0@ != new_content && !parses(old->Content_0@)
            ==> unparsed_side(old, new_content, parses) == Some(Unparsed::Old),
        old is Content && old->Content_0@ != new_content && parses(old->Content_0@) && !parses(
            new_content,
        ) ==> unparsed_side(old, new_content, parses) == Some(Unparsed::New),
        parses(new_content) && (old is Content ==> parses(old->Content_0@)) ==> unparsed_side(
            old,
            new_content,
            parses,
        ) is None,
{
}

/// A directory is looked into, a file whose extension is `tmp` is removed, and every other
/// file is kept.
pub proof fn law_step_at_a_place<P>(place: Place<P>)
    ensures
        place.is_dir ==> place_step(place) == CleanStep::Descend,
        !place.is_dir && place.extension is Some && place.extension->Some_0@ == "tmp"@
            ==> place_step(place) == CleanStep::Remove,
        !place.is_dir && place.extension is Some && place.extension->Some_0@ != "tmp"@
            ==> place_step(place) == CleanStep::Keep,
        !place.is_dir && place.extension is None ==> place_step(place) == CleanStep::Keep,
        step_at(None, true) == CleanStep::Descend,
        step_at(None, false) == CleanStep::Keep,
        forall|e: Seq<char>| #[trigger] step_at(Some(e), true) == CleanStep::Descend,
        forall|e: Seq<char>|
            #[trigger] step_at(Some(e), false) == if e == "tmp"@ {
                CleanStep::Remove
            } else {
                CleanStep::Keep
            },
{
}

/// The state of a run is what its fields hold.
pub proof fn law_clean_run_state<P, E>(run: CleanRun<P, E>)
    ensures
        run@.dirs == run.dirs@,
        run@.files == run.files@,
        run@.error == run.error,
{
}

/// One more place found in a directory is one more directory to look into or one more file to
/// remove, or changes nothing; what was waiting before stays.
pub proof fn law_one_more_place_is_listed<P, E>(
    run: CleanView<P, E>,
    places: Seq<Place<P>>,
    place: Place<P>,
    error: Option<E>,
)
    ensures
        clean_listed(run, Seq::empty(), error).dirs == run.dirs,
        clean_listed(run, Seq::empty(), error).files == run.files,
        ({
            let before = clean_listed(run, places, error);
            let after = clean_listed(run, places.push(place), error);
            let is_tmp = place.extension is Some && place.extension->Some_0@ == "tmp"@;
            &&& after.error == before.error
            &&& after.dirs == if place.is_dir {
                before.dirs.push(place.path)
            } else {
                before.dirs
            }
            &&& after.files == if !place.is_dir && is_tmp {
                before.files.push(place.path)
            } else {
                before.files
            }
        }),
        clean_listed(run, places, error).error == if run.error is Some {
            run.error
        } else {
            error
        },
{
    assert(places.push(place).drop_last() =~= places);
    let before = clean_listed(run, places, error);
    let after = clean_listed(run, places.push(place), error);
    assert(clean_listed(run, Seq::empty(), error).dirs =~= run.dirs);
    assert(clean_listed(run, Seq::empty(), error).files =~= run.files);
    if place.is_dir {
        assert(after.dirs =~= before.dirs.push(place.path));
    }
    if place_step(place) == CleanStep::Remove {
        assert(after.files =~= before.files.push(place.path));
    }
}

/// A run asks for the removal of a file while one waits, else for the listing of a directory
/// while one waits; what it asks for no longer waits, and nothing else changes. An answer with
/// an error is noted where it is the first.
pub proof fn law_clean_commands<P, E>(run: CleanView<P, E>, error: Option<E>)
    ensures
        run.files.len() > 0 ==> {
            &&& clean_command(run) == CleanCommand::Remove(run.files.last())
            &&& clean_asked(run).files == run.files.drop_last()
            &&& clean_asked(run).dirs == run.dirs
        },
        run.files.len() == 0 && run.dirs.len() > 0 ==> {
            &&& clean_command(run) == CleanCommand::List(run.dirs.last())
            &&& clean_asked(run).dirs == run.dirs.drop_last()
            &&& clean_asked(run).files == run.files
        },
        run.files.len() == 0 && run.dirs.len() == 0 ==> clean_command(run) is Finished
            && clean_asked(run) == run,
        clean_asked(run).error == run.error,
        clean_noted(run, error).dirs == run.dirs,
        clean_noted(run, error).files == run.files,
        clean_noted(run, error).error == if run.error is Some {
            run.error
        } else {
            error
        },
{
}

} // verus!
