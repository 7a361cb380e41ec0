//! What is saved of a fetched table, and where.

use vstd::prelude::*;
use vstd::string::*;

use crate::filesystem::{unparsed_side, OldFile, Unparsed};
use crate::json::{distinct_keys, json_view, law_same_json_is_reflexive, names_once, parsed_json, same_json, with_field, with_member, Json, JsonSource, JsonView};
use crate::ordered::texts;
use crate::rename::{dir_name_with_domain, domain_of, expected_dir_name, expected_name, named_dir, needed_rename, rename_request, shown_domain, url_domain, RenameAction, RenameView};
use crate::table::{TableInfo, TableInfoView};
use crate::text::{chars_of, replace_all, replaced_from, str_view, string_of, string_view, text_eq, text_of};
use crate::tokens::{agree_before, closing_quote, colon_follows, depth_between, find_key, find_string, has_key, is_key_token, is_unescaped, key_end, law_blanks_are_skipped, lemma_key_behind_marks, lemma_key_end, lemma_key_end_local, lemma_key_not_among_plain, lemma_key_tokens, lemma_no_key_comes_in, lemma_no_key_without_quotes, lemma_plain_closing_quote, lemma_skip_blanks_local, lemma_string_span, lemma_value_token, member_span, respelled, skip_blanks, string_span, tokens_from, Token};

verus! {

// ---------------------------------------------------------------------
// The data URL of a header
// ---------------------------------------------------------------------

/// Where the key `data_url` of a header ends: the first in the outermost object; where that
/// has none, the first at any depth.
pub open spec fn data_url_key(s: Seq<char>) -> Option<int> {
    match key_end(s, 0, 0, "data_url"@, true) {
        Some(end) => Some(end),
        None => key_end(s, 0, 0, "data_url"@, false),
    }
}

/// Where the text of the `data_url` value stands in a header: between the quotes of the
/// string that is the value of the key `data_url`. Nowhere where there is no such key, or
/// its value is no string.
pub open spec fn data_url_span(s: Seq<char>) -> Option<(int, int)> {
    match data_url_key(s) {
        Some(end) => string_span(s, end),
        None => None,
    }
}

/// `header` with the text of its `data_url` value replaced by `./data.json`.
pub open spec fn patched_data_url(header: Seq<char>) -> Seq<char> {
    match data_url_span(header) {
        Some(span) => respelled(header, span, "./data.json"@),
        None => header,
    }
}

/// Whether the key is looked for in the outermost object alone.
spec fn has_top_key(s: Seq<char>) -> bool {
    key_end(s, 0, 0, "data_url"@, true) is Some
}

proof fn lemma_data_url_key(s: Seq<char>)
    ensures
        data_url_key(s) == key_end(s, 0, 0, "data_url"@, has_top_key(s)),
        data_url_key(s) matches Some(k) ==> {
            &&& 9 <= k < s.len()
            &&& s[k] == '"'
            &&& s[k - 9] == '"'
            &&& s.subrange(k - 8, k) == "data_url"@
            &&& colon_follows(s, k)
        },
{
    reveal_strlit("data_url");
    lemma_key_end(s, 0, 0, "data_url"@, has_top_key(s));
}

/// The span of the `data_url` value lies inside the header between two quotes. In front of
/// it stand, blanks aside, the key `"data_url"` and a colon.
pub proof fn law_data_url_span_is_quoted(header: Seq<char>)
    ensures
        data_url_span(header) matches Some((start, end)) ==> {
            let key = data_url_key(header)->0;
            &&& data_url_key(header) is Some
            &&& 9 <= key
            &&& header.subrange(key - 9, key + 1) == "\"data_url\""@
            &&& key < skip_blanks(header, key + 1) < start - 1
            &&& header[skip_blanks(header, key + 1)] == ':'
            &&& start - 1 == skip_blanks(header, skip_blanks(header, key + 1) + 1)
            &&& start <= end < header.len()
            &&& header[start - 1] == '"'
            &&& closing_quote(header, start) == Some(end)
            &&& header[end] == '"'
        },
{
    reveal_strlit("\"data_url\"");
    reveal_strlit("data_url");
    lemma_data_url_key(header);
    if let Some(key) = data_url_key(header) {
        lemma_string_span(header, key);
        let found = header.subrange(key - 9, key + 1);
        assert forall|i: int| 0 <= i < 10 implies #[trigger] found[i] == "\"data_url\""@[i] by {
            if 1 <= i < 9 {
                assert(header.subrange(key - 8, key)[i - 1] == "data_url"@[i - 1]);
            }
        }
        assert(found =~= "\"data_url\""@);
    }
}

/// A string that has no colon behind it, such as a value, is never taken for the key,
/// whatever it reads.
pub proof fn law_string_value_is_never_the_key(header: Seq<char>, end: int)
    requires
        !colon_follows(header, end),
    ensures
        data_url_key(header) != Some(end),
{
    lemma_data_url_key(header);
}

/// Where the outermost object has a string under `data_url`, it is that string that is
/// patched, whatever stands deeper.
pub proof fn law_top_key_is_patched(header: Seq<char>)
    requires
        member_span(header, "data_url"@) is Some,
    ensures
        data_url_span(header) == member_span(header, "data_url"@),
{
}

proof fn lemma_patched_value(header: Seq<char>)
    requires
        data_url_span(header) is Some,
    ensures
        ({
            let span = data_url_span(header)->0;
            let out = patched_data_url(header);
            let new = "./data.json"@;
            &&& 0 < span.0 <= span.1 < header.len()
            &&& agree_before(header, out, span.0)
            &&& closing_quote(out, span.0) == Some(span.0 + new.len())
            &&& out.subrange(span.0, span.0 + new.len()) == new
            &&& out[span.0 - 1] == '"'
        }),
{
    reveal_strlit("./data.json");
    let (start, end) = data_url_span(header)->0;
    let out = patched_data_url(header);
    let new = "./data.json"@;
    law_data_url_span_is_quoted(header);
    assert forall|i: int| start <= i < start + new.len() implies out[i] == new[i - start] by {}
    assert(out[start + new.len()] == header[end]);
    lemma_plain_closing_quote(out, start, start + new.len());
    assert(out.subrange(start, start + new.len()) =~= new);
}

/// Patching changes one token and no other: the string that is the value of the first key
/// `data_url` (of the outermost object, where it has one) becomes `./data.json`, and every
/// key, value and character around it stays in its place.
pub proof fn law_patch_changes_one_token(header: Seq<char>)
    ensures
        data_url_span(header) matches Some((start, end)) ==> exists|n: int|
            is_patched_value(header, n) && tokens_from(header, 0)[n + 2] == Token::Text(
                header.subrange(start, end),
            ) && #[trigger] tokens_from(header, 0).update(n + 2, Token::Text("./data.json"@))
                == tokens_from(patched_data_url(header), 0),
        data_url_span(header) is None ==> patched_data_url(header) == header,
{
    if let Some(span) = data_url_span(header) {
        let new = "./data.json"@;
        let top = has_top_key(header);
        lemma_data_url_key(header);
        law_data_url_span_is_quoted(header);
        lemma_patched_value(header);
        let n = lemma_value_token(header, 0, 0, "data_url"@, top, span, new);
        lemma_key_tokens(header, 0, 0, "data_url"@, true);
        assert(is_patched_value(header, n));
        assert(tokens_from(header, 0).update(n + 2, Token::Text(new)) == tokens_from(
            patched_data_url(header),
            0,
        ));
    }
}

/// Token `n` of the header is the key whose value is patched: the first key `data_url` of
/// the outermost object; where that has none, the first at any depth.
pub open spec fn is_patched_value(header: Seq<char>, n: int) -> bool {
    let tokens = tokens_from(header, 0);
    let top = has_key(tokens, 0, "data_url"@, true);
    &&& is_key_token(tokens, 0, n, "data_url"@, top)
    &&& forall|m: int| m < n ==> !#[trigger] is_key_token(tokens, 0, m, "data_url"@, top)
    &&& n + 2 < tokens.len()
}

/// In a patched header the `data_url` value stands where it stood, and reads
/// `./data.json`.
pub proof fn law_patched_header_names_data_json(header: Seq<char>)
    ensures
        data_url_span(header) matches Some((start, end)) ==> {
            &&& data_url_span(patched_data_url(header)) == Some(
                (start, start + "./data.json"@.len()),
            )
            &&& patched_data_url(header).subrange(start, start + "./data.json"@.len())
                == "./data.json"@
        },
{
    if let Some((start, end)) = data_url_span(header) {
        let out = patched_data_url(header);
        let new = "./data.json"@;
        let key = "data_url"@;
        let top = has_top_key(header);
        lemma_data_url_key(header);
        law_data_url_span_is_quoted(header);
        lemma_patched_value(header);
        let k = data_url_key(header)->0;
        let colon = skip_blanks(header, k + 1);
        lemma_key_end_local(header, out, 0, 0, key, top, start);
        lemma_skip_blanks_local(header, out, k + 1, start);
        lemma_skip_blanks_local(header, out, colon + 1, start);
        if !top {
            let n = lemma_value_token(header, 0, 0, key, top, (start, end), new);
            lemma_key_tokens(header, 0, 0, key, true);
            lemma_key_tokens(out, 0, 0, key, true);
            reveal_strlit("./data.json");
            reveal_strlit("data_url");
            assert(new.len() != key.len());
            lemma_no_key_comes_in(tokens_from(header, 0), 0, key, true, n + 2, new);
        }
    }
}

/// Patching a patched header changes nothing.
pub proof fn law_patch_is_idempotent(header: Seq<char>)
    ensures
        patched_data_url(patched_data_url(header)) == patched_data_url(header),
{
    if let Some((start, end)) = data_url_span(header) {
        law_data_url_span_is_quoted(header);
        law_patched_header_names_data_json(header);
        let out = patched_data_url(header);
        let new = "./data.json"@;
        assert(out.take(start) + new + out.skip(start + new.len()) =~= out);
    }
}

fn find_data_url(s: &Vec<char>) -> (r: Option<(usize, usize)>)
    ensures
        match r {
            Some((start, end)) => {
                &&& data_url_span(s@) == Some((start as int, end as int))
                &&& start <= end <= s@.len()
            },
            None => data_url_span(s@) is None,
        },
{
    proof {
        lemma_data_url_key(s@);
    }
    let top = find_key(s, "data_url", true);
    let key = match top {
        Some(k) => Some(k),
        None => find_key(s, "data_url", false),
    };
    match key {
        Some(k) => find_string(s, k),
        None => None,
    }
}

/// Patch the value of the key `"data_url"` in header JSON to `"./data.json"`.
///
/// Works on the text alone, so the rest of the header is kept as it came. The key is that
/// of the outermost object; where there is none, the first that stands deeper. A header
/// without such a key, or whose value there is no string, is kept whole.
pub fn patch_data_url(header_raw: &str) -> (r: String)
    ensures
        r@ == patched_data_url(header_raw@),
{
    let chars = chars_of(header_raw);
    match find_data_url(&chars) {
        Some((start, end)) => {
            let mut out = string_of(&chars, 0, start);
            out.append("./data.json");
            let tail = string_of(&chars, end, chars.len());
            out.append(tail.as_str());
            proof {
                assert(chars@.subrange(0, start as int) =~= chars@.take(start as int));
                assert(chars@.subrange(end as int, chars@.len() as int) =~= chars@.skip(
                    end as int,
                ));
            }
            out
        },
        None => header_raw.to_string(),
    }
}

/// What a header reads as, before and after its data address is patched. A header that is
/// JSON with a string under `data_url`, a key that it has once, reads the same after, in the
/// same order, but for that string, which is then `./data.json`.
pub fn read_around_patch(header_raw: &str) -> (r: (Option<Json>, Option<Json>))
    ensures
        json_view(r.0) == parsed_json(header_raw@),
        json_view(r.1) == parsed_json(patched_data_url(header_raw@)),
        r.0 is Some && member_span(header_raw@, "data_url"@) is Some && names_once(
            header_raw@,
            "data_url"@,
        ) ==> json_view(r.1) == Some(
            with_field(r.0->Some_0@, "data_url"@, JsonView::Text("./data.json"@)),
        ),
{
    let before = Json::parse(header_raw);
    let after = Json::parse(patch_data_url(header_raw).as_str());
    proof {
        reveal_strlit("data_url");
        reveal_strlit("./data.json");
        assert(is_unescaped("data_url"@));
        assert(is_unescaped("./data.json"@));
        if member_span(header_raw@, "data_url"@) is Some {
            law_top_key_is_patched(header_raw@);
            assert(patched_data_url(header_raw@) == with_member(
                header_raw@,
                "data_url"@,
                "./data.json"@,
            ));
        }
    }
    (before, after)
}

/// Replace every occurrence of the data address in header JSON by `data.json`.
pub fn replace_data_url(header_raw: &str, data_url: &str) -> (r: String)
    ensures
        r@ == replaced_from(header_raw@, data_url@, "data.json"@, 0),
{
    replace_all(header_raw, data_url, "data.json")
}

// ---------------------------------------------------------------------
// Headers
// ---------------------------------------------------------------------

/// What decides whether a header has changed: all of it but the fields that are not
/// known.
pub struct HeaderFields {
    /// Table name.
    pub name: String,
    /// Table symbol.
    pub symbol: String,
    /// Address of the chart data.
    pub data_url: String,
    /// Order of the difficulty levels.
    pub level_order: Vec<String>,
    /// Courses, as a JSON value.
    pub course: Json,
}

/// The mathematical header.
#[verifier::ext_equal]
pub struct HeaderView {
    pub name: Seq<char>,
    pub symbol: Seq<char>,
    pub data_url: Seq<char>,
    pub level_order: Seq<Seq<char>>,
    pub course: JsonView,
}

impl View for HeaderFields {
    type V = HeaderView;

    open spec fn view(&self) -> HeaderView {
        HeaderView {
            name: self.name@,
            symbol: self.symbol@,
            data_url: self.data_url@,
            level_order: texts(self.level_order@),
            course: self.course@,
        }
    }
}

/// Two headers that agree in every known field.
pub open spec fn same_header(a: HeaderView, b: HeaderView) -> bool {
    &&& a.name == b.name
    &&& a.symbol == b.symbol
    &&& a.data_url == b.data_url
    &&& a.level_order == b.level_order
    &&& same_json(a.course, b.course)
}

/// The header that a text holds, where it holds one.
pub uninterp spec fn parsed_header(text: Seq<char>) -> Option<HeaderView>;

/// `serde_json::from_str::<bms_table::BmsTableHeader>` on a text, the result given without
/// its unknown fields, its courses turned into a JSON value by `serde_json::to_value`.
/// Claims that the result is a function of the text, and that no object among the courses
/// holds a key twice (`serde_json::Map` is a map).
#[verifier::external_body]
fn read_header(text: &str) -> (r: Option<HeaderFields>)
    ensures
        match r {
            Some(header) => parsed_header(text@) == Some(header@) && distinct_keys(header@.course),
            None => parsed_header(text@) is None,
        },
{
    let h: bms_table::BmsTableHeader = serde_json::from_str(text).ok()?;
    let course = serde_json::to_value(&h.course).ok()?;
    Some(HeaderFields {
        name: h.name,
        symbol: h.symbol,
        data_url: h.data_url,
        level_order: h.level_order,
        course: crate::json::read_json(JsonSource::Parsed(course))?,
    })
}

fn same_texts(a: &Vec<String>, b: &Vec<String>) -> (r: bool)
    ensures
        r == (texts(a@) == texts(b@)),
{
    if a.len() != b.len() {
        proof {
            assert(texts(a@).len() != texts(b@).len());
        }
        return false;
    }
    let mut i: usize = 0;
    while i < a.len()
        invariant
            a@.len() == b@.len(),
            i <= a@.len(),
            forall|j: int| 0 <= j < i ==> (#[trigger] a@[j])@ == b@[j]@,
        decreases a.len() - i,
    {
        if !text_eq(a[i].as_str(), b[i].as_str()) {
            proof {
                assert(texts(a@)[i as int] != texts(b@)[i as int]);
            }
            return false;
        }
        i += 1;
    }
    proof {
        assert(texts(a@) =~= texts(b@));
    }
    true
}

/// A header file needs writing.
pub open spec fn header_changed(old: OldFile, new_content: Seq<char>) -> bool {
    match old {
        OldFile::Content(text) => text@ != new_content && match (
            parsed_header(text@),
            parsed_header(new_content),
        ) {
            (Some(a), Some(b)) => !same_header(a, b),
            _ => true,
        },
        _ => true,
    }
}

impl HeaderFields {
    /// Whether two headers agree in every known field.
    pub fn same(&self, other: &HeaderFields) -> (r: bool)
        ensures
            r == same_header(self@, other@),
    {
        text_eq(self.name.as_str(), other.name.as_str()) && text_eq(
            self.symbol.as_str(),
            other.symbol.as_str(),
        ) && text_eq(self.data_url.as_str(), other.data_url.as_str()) && same_texts(
            &self.level_order,
            &other.level_order,
        ) && self.course.same(&other.course)
    }

    /// The header that a text holds, if it holds one.
    pub fn parse(text: &str) -> (r: Option<HeaderFields>)
        ensures
            match r {
                Some(header) => parsed_header(text@) == Some(header@) && distinct_keys(
                    header@.course,
                ),
                None => parsed_header(text@) is None,
            },
    {
        read_header(text)
    }
}

/// Whether a header file needs writing: it is missing or cannot be read, or its content
/// differs from the new content and either is not a header or the two differ in a known
/// field.
pub fn is_header_changed(old: &OldFile, new_content: &str) -> (r: bool)
    ensures
        r == header_changed(*old, new_content@),
{
    match old {
        OldFile::Content(old_str) => {
            if text_eq(old_str.as_str(), new_content) {
                return false;
            }
            match (HeaderFields::parse(old_str.as_str()), HeaderFields::parse(new_content)) {
                (Some(a), Some(b)) => !a.same(&b),
                _ => true,
            }
        },
        _ => true,
    }
}

/// A header whose known fields are the same is not written again, whatever its unknown
/// fields are.
pub proof fn law_unknown_header_fields_are_no_change(text: String, new_content: Seq<char>)
    requires
        parsed_header(text@) is Some,
        parsed_header(text@) == parsed_header(new_content),
        distinct_keys(parsed_header(new_content)->Some_0.course),
    ensures
        !header_changed(OldFile::Content(text), new_content),
{
    law_same_json_is_reflexive(parsed_header(new_content)->Some_0.course);
}

// ---------------------------------------------------------------------
// Charts
// ---------------------------------------------------------------------

/// What decides whether a chart has changed: all of it but the fields that are not known.
pub struct ChartFields {
    /// Difficulty level.
    pub level: String,
    /// MD5 hash of the file.
    pub md5: Option<String>,
    /// SHA-256 hash of the file.
    pub sha256: Option<String>,
    /// Song title.
    pub title: Option<String>,
    /// Song subtitle.
    pub subtitle: Option<String>,
    /// Artist name.
    pub artist: Option<String>,
    /// Sub-artist name.
    pub subartist: Option<String>,
    /// File download address.
    pub url: Option<String>,
    /// Differential file download address.
    pub url_diff: Option<String>,
}

/// The mathematical chart.
#[verifier::ext_equal]
pub struct ChartView {
    pub level: Seq<char>,
    pub md5: Option<Seq<char>>,
    pub sha256: Option<Seq<char>>,
    pub title: Option<Seq<char>>,
    pub subtitle: Option<Seq<char>>,
    pub artist: Option<Seq<char>>,
    pub subartist: Option<Seq<char>>,
    pub url: Option<Seq<char>>,
    pub url_diff: Option<Seq<char>>,
}

impl View for ChartFields {
    type V = ChartView;

    open spec fn view(&self) -> ChartView {
        ChartView {
            level: self.level@,
            md5: string_view(self.md5),
            sha256: string_view(self.sha256),
            title: string_view(self.title),
            subtitle: string_view(self.subtitle),
            artist: string_view(self.artist),
            subartist: string_view(self.subartist),
            url: string_view(self.url),
            url_diff: string_view(self.url_diff),
        }
    }
}

/// The charts of a list.
pub open spec fn chart_views(charts: Seq<ChartFields>) -> Seq<ChartView> {
    charts.map_values(|c: ChartFields| c@)
}

/// The charts that a text holds, where it holds a list of charts.
pub uninterp spec fn parsed_charts(text: Seq<char>) -> Option<Seq<ChartView>>;

/// `serde_json::from_str::<bms_table::BmsTableData>` on a text, each chart given without
/// its unknown fields. Claims that the result is a function of the text.
#[verifier::external_body]
fn read_charts(text: &str) -> (r: Option<Vec<ChartFields>>)
    ensures
        match r {
            Some(charts) => parsed_charts(text@) == Some(chart_views(charts@)),
            None => parsed_charts(text@) is None,
        },
{
    let data: bms_table::BmsTableData = serde_json::from_str(text).ok()?;
    let known = |c: bms_table::ChartItem| ChartFields {
        level: c.level,
        md5: c.md5,
        sha256: c.sha256,
        title: c.title,
        subtitle: c.subtitle,
        artist: c.artist,
        subartist: c.subartist,
        url: c.url,
        url_diff: c.url_diff,
    };
    Some(data.charts.into_iter().map(known).collect())
}

fn same_optional(a: &Option<String>, b: &Option<String>) -> (r: bool)
    ensures
        r == (string_view(*a) == string_view(*b)),
{
    match (a, b) {
        (Some(x), Some(y)) => text_eq(x.as_str(), y.as_str()),
        (None, None) => true,
        _ => false,
    }
}

impl ChartFields {
    /// Whether two charts agree in every known field.
    pub fn same(&self, other: &ChartFields) -> (r: bool)
        ensures
            r == (self@ == other@),
    {
        text_eq(self.level.as_str(), other.level.as_str()) && same_optional(&self.md5, &other.md5)
            && same_optional(&self.sha256, &other.sha256) && same_optional(
            &self.title,
            &other.title,
        ) && same_optional(&self.subtitle, &other.subtitle) && same_optional(
            &self.artist,
            &other.artist,
        ) && same_optional(&self.subartist, &other.subartist) && same_optional(
            &self.url,
            &other.url,
        ) && same_optional(&self.url_diff, &other.url_diff)
    }

    /// The charts that a text holds, if it holds a list of charts.
    pub fn parse_list(text: &str) -> (r: Option<Vec<ChartFields>>)
        ensures
            match r {
                Some(charts) => parsed_charts(text@) == Some(chart_views(charts@)),
                None => parsed_charts(text@) is None,
            },
    {
        read_charts(text)
    }
}

/// Whether two lists of charts agree in every known field.
pub fn same_charts(a: &Vec<ChartFields>, b: &Vec<ChartFields>) -> (r: bool)
    ensures
        r == (chart_views(a@) == chart_views(b@)),
{
    if a.len() != b.len() {
        proof {
            assert(chart_views(a@).len() != chart_views(b@).len());
        }
        return false;
    }
    let mut i: usize = 0;
    while i < a.len()
        invariant
            a@.len() == b@.len(),
            i <= a@.len(),
            forall|j: int| 0 <= j < i ==> (#[trigger] a@[j])@ == b@[j]@,
        decreases a.len() - i,
    {
        if !a[i].same(&b[i]) {
            proof {
                assert(chart_views(a@)[i as int] != chart_views(b@)[i as int]);
            }
            return false;
        }
        i += 1;
    }
    proof {
        assert(chart_views(a@) =~= chart_views(b@));
    }
    true
}

/// A data file needs writing.
pub open spec fn data_changed(old: OldFile, new_content: Seq<char>) -> bool {
    match old {
        OldFile::Content(text) => text@ != new_content && match (
            parsed_charts(text@),
            parsed_charts(new_content),
        ) {
            (Some(a), Some(b)) => a != b,
            _ => true,
        },
        _ => true,
    }
}

/// Whether a data file needs writing: it is missing or cannot be read, or its content
/// differs from the new content and either is not a list of charts or the two differ in a
/// known field of a chart.
pub fn is_data_changed(old: &OldFile, new_content: &str) -> (r: bool)
    ensures
        r == data_changed(*old, new_content@),
{
    match old {
        OldFile::Content(old_str) => {
            if text_eq(old_str.as_str(), new_content) {
                return false;
            }
            match (ChartFields::parse_list(old_str.as_str()), ChartFields::parse_list(new_content)) {
                (Some(a), Some(b)) => !same_charts(&a, &b),
                _ => true,
            }
        },
        _ => true,
    }
}

/// Which side of a header comparison is no header, where the texts differ.
pub fn unparsed_header(old: &OldFile, new_content: &str) -> (r: Option<Unparsed>)
    ensures
        r == unparsed_side(*old, new_content@, |text: Seq<char>| parsed_header(text) is Some),
{
    match old {
        OldFile::Content(old_str) => {
            if text_eq(old_str.as_str(), new_content) {
                None
            } else if HeaderFields::parse(old_str.as_str()).is_none() {
                Some(Unparsed::Old)
            } else if HeaderFields::parse(new_content).is_none() {
                Some(Unparsed::New)
            } else {
                None
            }
        },
        _ => None,
    }
}

/// Which side of a data comparison is no list of charts, where the texts differ.
pub fn unparsed_data(old: &OldFile, new_content: &str) -> (r: Option<Unparsed>)
    ensures
        r == unparsed_side(*old, new_content@, |text: Seq<char>| parsed_charts(text) is Some),
{
    match old {
        OldFile::Content(old_str) => {
            if text_eq(old_str.as_str(), new_content) {
                None
            } else if ChartFields::parse_list(old_str.as_str()).is_none() {
                Some(Unparsed::Old)
            } else if ChartFields::parse_list(new_content).is_none() {
                Some(Unparsed::New)
            } else {
                None
            }
        },
        _ => None,
    }
}

/// A comparison with a side that cannot be read ends in writing the file.
pub proof fn law_unread_side_is_a_change(old: OldFile, new_content: Seq<char>)
    ensures
        unparsed_side(old, new_content, |text: Seq<char>| parsed_header(text) is Some) is Some
            ==> header_changed(old, new_content),
        unparsed_side(old, new_content, |text: Seq<char>| parsed_charts(text) is Some) is Some
            ==> data_changed(old, new_content),
{
}

/// The header text to write: the one that came where it can be read as a header, else the
/// header as it was understood.
pub fn header_to_write(patched_header: String, printed: String) -> (r: String)
    ensures
        r == if parsed_header(patched_header@) is Some {
            patched_header
        } else {
            printed
        },
{
    let readable = HeaderFields::parse(patched_header.as_str()).is_some();
    raw_or_printed(readable, patched_header, printed)
}

/// The data text to write: the one that came where it can be read as a list of charts,
/// else the charts as they were understood.
pub fn data_to_write(data_raw: String, printed: String) -> (r: String)
    ensures
        r == if parsed_charts(data_raw@) is Some {
            data_raw
        } else {
            printed
        },
{
    let readable = ChartFields::parse_list(data_raw.as_str()).is_some();
    raw_or_printed(readable, data_raw, printed)
}

/// The header text to write, where the header file needs writing.
pub fn plan_header_file(old: &OldFile, patched_header: String, printed: String) -> (r: Option<
    String,
>)
    ensures
        r == if !header_changed(*old, patched_header@) {
            None
        } else if parsed_header(patched_header@) is Some {
            Some(patched_header)
        } else {
            Some(printed)
        },
{
    if is_header_changed(old, patched_header.as_str()) {
        Some(header_to_write(patched_header, printed))
    } else {
        None
    }
}

/// The data text to write, where the data file needs writing.
pub fn plan_data_file(old: &OldFile, data_raw: String, printed: String) -> (r: Option<String>)
    ensures
        r == if !data_changed(*old, data_raw@) {
            None
        } else if parsed_charts(data_raw@) is Some {
            Some(data_raw)
        } else {
            Some(printed)
        },
{
    if is_data_changed(old, data_raw.as_str()) {
        Some(data_to_write(data_raw, printed))
    } else {
        None
    }
}

/// The raw text where it can be read back, else the printed one.
pub fn raw_or_printed(readable: bool, raw: String, printed: String) -> (r: String)
    ensures
        r == if readable {
            raw
        } else {
            printed
        },
{
    if readable {
        raw
    } else {
        printed
    }
}

// ---------------------------------------------------------------------
// Where a table is saved
// ---------------------------------------------------------------------

/// The rename of an optional action.
pub open spec fn rename_view(action: Option<RenameAction>) -> Option<RenameView> {
    match action {
        Some(a) => Some(a@),
        None => None,
    }
}

/// The rename from an old name, where there is one, to a new name.
pub open spec fn requested_rename(old_name: Option<Seq<char>>, new_name: Seq<char>) -> Option<
    RenameView,
> {
    match old_name {
        Some(old) => needed_rename(old, new_name),
        None => None,
    }
}

/// What is done before a table is fetched.
pub struct FetchPlan {
    /// The directory name that the table description asks for.
    pub pre_dir_name: String,
    /// The rename that gives the old directory that name.
    pub rename: Option<RenameAction>,
}

/// The directory for a table about to be fetched, and the rename of its old directory.
pub fn plan_fetch(info: &TableInfo, old_dir_name: Option<&str>) -> (r: FetchPlan)
    ensures
        r.pre_dir_name@ == expected_name(info@, str_view(old_dir_name)),
        rename_view(r.rename) == requested_rename(str_view(old_dir_name), r.pre_dir_name@),
{
    let pre_dir_name: String = expected_dir_name(info, old_dir_name);
    let rename = rename_request(pre_dir_name.as_str(), old_dir_name);
    FetchPlan { pre_dir_name, rename }
}

/// What a fetch brought, besides the parsed header and data.
pub struct Response {
    /// Table name in the header.
    pub name: String,
    /// Table symbol in the header.
    pub symbol: String,
    /// Raw header JSON.
    pub header_raw: String,
    /// Address of the header JSON.
    pub header_json_url: String,
    /// Address of the chart data JSON.
    pub data_json_url: String,
}

/// What is saved of a fetched table, and where.
pub struct SavePlan {
    /// The directory name that the response asks for.
    pub dir_name: String,
    /// The rename that gives the directory that name.
    pub rename: Option<RenameAction>,
    /// The header with its data address patched.
    pub header: String,
    /// The table description to save.
    pub info: TableInfo,
}

/// A table description brought up to date with a response; its own address stays.
pub open spec fn saved_info(info: TableInfoView, response: Response) -> TableInfoView {
    TableInfoView {
        name: response.name@,
        symbol: response.symbol@,
        url: info.url,
        extra: info.extra.insert(
            "url_header_json"@,
            JsonView::Text(response.header_json_url@),
        ).insert("url_data_json"@, JsonView::Text(response.data_json_url@)),
    }
}

/// A table description brought up to date with a response.
pub fn sync_info(info: TableInfo, response: &Response) -> (r: TableInfo)
    ensures
        r@ == saved_info(info@, *response),
{
    let TableInfo { name: _, symbol: _, url, mut extra } = info;
    extra.insert(text_of("url_header_json"), Json::Text(response.header_json_url.clone()));
    extra.insert(text_of("url_data_json"), Json::Text(response.data_json_url.clone()));
    TableInfo { name: response.name.clone(), symbol: response.symbol.clone(), url, extra }
}

/// What is saved of a fetched table, and where, given the domain of its header address.
pub fn plan_save_with_domain(
    info: TableInfo,
    pre_dir_name: &str,
    header_domain: Option<String>,
    response: &Response,
) -> (r: SavePlan)
    ensures
        r.dir_name@ == named_dir(shown_domain(string_view(header_domain), None), response.name@),
        rename_view(r.rename) == needed_rename(pre_dir_name@, r.dir_name@),
        r.header@ == patched_data_url(response.header_raw@),
        r.info@ == saved_info(info@, *response),
{
    let dir_name: String = dir_name_with_domain(header_domain, response.name.as_str(), None);
    let rename = rename_request(dir_name.as_str(), Some(pre_dir_name));
    SavePlan {
        dir_name,
        rename,
        header: patch_data_url(response.header_raw.as_str()),
        info: sync_info(info, response),
    }
}

/// What is saved of a fetched table, and where: the directory is named after the domain of
/// the header address and the name in the header.
pub fn plan_save(info: TableInfo, pre_dir_name: &str, response: &Response) -> (r: SavePlan)
    ensures
        r.dir_name@ == named_dir(
            shown_domain(domain_of(response.header_json_url@), None),
            response.name@,
        ),
        rename_view(r.rename) == needed_rename(pre_dir_name@, r.dir_name@),
        r.header@ == patched_data_url(response.header_raw@),
        r.info@ == saved_info(info@, *response),
{
    let domain = url_domain(response.header_json_url.as_str());
    plan_save_with_domain(info, pre_dir_name, domain, response)
}

/// Saving keeps a table under its address, and what it adds is found again: the addresses
/// of header and data stand among the fields.
pub proof fn law_saved_info(info: TableInfoView, response: Response)
    ensures
        saved_info(info, response).url == info.url,
        saved_info(info, response).extra["url_header_json"@] == JsonView::Text(
            response.header_json_url@,
        ),
        saved_info(info, response).extra["url_data_json"@] == JsonView::Text(
            response.data_json_url@,
        ),
        forall|k: Seq<char>|
            k != "url_header_json"@ && k != "url_data_json"@ ==> (#[trigger] saved_info(
                info,
                response,
            ).extra.contains_key(k) <==> info.extra.contains_key(k)) && (info.extra.contains_key(k)
                ==> saved_info(info, response).extra[k] == info.extra[k]),
{
    reveal_strlit("url_header_json");
    reveal_strlit("url_data_json");
    assert("url_header_json"@.len() != "url_data_json"@.len());
}

// ---------------------------------------------------------------------
// What is patched
// ---------------------------------------------------------------------

/// From position `i` on stand the key `"data_url"`, a colon at `colon` and, at `quote`, a
/// string that closes at `close`; between them stand only blanks, tabs and line ends.
pub open spec fn names_data_at(s: Seq<char>, i: int, colon: int, quote: int, close: int) -> bool {
    &&& 0 <= i
    &&& i + 10 <= colon < quote < close < s.len()
    &&& s.subrange(i, i + 10) == "\"data_url\""@
    &&& forall|k: int| i + 10 <= k < colon ==> " \t\n\r"@.contains(#[trigger] s[k])
    &&& s[colon] == ':'
    &&& forall|k: int| colon < k < quote ==> " \t\n\r"@.contains(#[trigger] s[k])
    &&& s[quote] == '"'
    &&& closing_quote(s, quote + 1) == Some(close)
}

proof fn lemma_key_at(s: Seq<char>, i: int, colon: int)
    requires
        0 <= i,
        i + 10 <= colon < s.len(),
        s.subrange(i, i + 10) == "\"data_url\""@,
        forall|k: int| i + 10 <= k < colon ==> " \t\n\r"@.contains(#[trigger] s[k]),
        s[colon] == ':',
    ensures
        s[i] == '"',
        closing_quote(s, i + 1) == Some(i + 9),
        s.subrange(i + 1, i + 9) == "data_url"@,
        skip_blanks(s, i + 10) == colon,
        colon_follows(s, i + 9),
{
    reveal_strlit("\"data_url\"");
    reveal_strlit("data_url");
    reveal_strlit(" \t\n\r");
    let quoted = "\"data_url\""@;
    assert forall|k: int| 0 <= k < 10 implies s[i + k] == #[trigger] quoted[k] by {
        assert(s.subrange(i, i + 10)[k] == s[i + k]);
    }
    assert(quoted[0] == '"' && quoted[1] == 'd' && quoted[2] == 'a' && quoted[3] == 't'
        && quoted[4] == 'a' && quoted[5] == '_' && quoted[6] == 'u' && quoted[7] == 'r'
        && quoted[8] == 'l' && quoted[9] == '"');
    assert forall|k: int| i + 1 <= k < i + 9 implies s[k] != '"' && s[k] != '\\' by {
        assert(s[i + (k - i)] == quoted[k - i]);
    }
    lemma_plain_closing_quote(s, i + 1, i + 9);
    assert(s.subrange(i + 1, i + 9) =~= "data_url"@);
    law_blanks_are_skipped(s, i + 10, colon);
}

proof fn lemma_patched_at(s: Seq<char>, i: int, colon: int, quote: int, close: int)
    requires
        names_data_at(s, i, colon, quote, close),
        data_url_key(s) == Some(i + 9),
    ensures
        patched_data_url(s) == s.take(quote + 1) + "./data.json"@ + s.skip(close),
{
    reveal_strlit(" \t\n\r");
    lemma_key_at(s, i, colon);
    law_blanks_are_skipped(s, colon + 1, quote);
    assert(data_url_span(s) == Some((quote + 1, close)));
}

/// In a header whose outermost object has `data_url` as its first string, the string behind
/// that key becomes `./data.json`, and every character before and behind it stays.
pub proof fn law_first_key_is_patched(
    header: Seq<char>,
    i: int,
    colon: int,
    quote: int,
    close: int,
)
    requires
        names_data_at(header, i, colon, quote, close),
        1 <= i,
        header[0] == '{',
        forall|k: int| 1 <= k < i ==> !"\"{}[]"@.contains(#[trigger] header[k]),
    ensures
        patched_data_url(header) == header.take(quote + 1) + "./data.json"@ + header.skip(close),
{
    lemma_key_at(header, i, colon);
    lemma_key_not_among_plain(header, 1, i, 1, "data_url"@, true);
    assert(key_end(header, 0, 0, "data_url"@, true) == key_end(header, 1, 1, "data_url"@, true));
    assert(key_end(header, i, 1, "data_url"@, true) == Some(i + 9));
    lemma_patched_at(header, i, colon, quote, close);
}

/// A string before the key, be it a key of another name or a value, is passed over: the one
/// from `a` to `b` here, which is another text or has no colon behind it.
pub proof fn law_other_strings_are_passed_over(
    header: Seq<char>,
    a: int,
    b: int,
    i: int,
    colon: int,
    quote: int,
    close: int,
)
    requires
        names_data_at(header, i, colon, quote, close),
        1 <= a < b < i,
        header[0] == '{',
        forall|k: int| 1 <= k < a ==> !"\"{}[]"@.contains(#[trigger] header[k]),
        header[a] == '"',
        closing_quote(header, a + 1) == Some(b),
        header.subrange(a + 1, b) != "data_url"@ || ",}"@.contains(header[b + 1]),
        forall|k: int| b < k < i ==> !"\"{}[]"@.contains(#[trigger] header[k]),
    ensures
        patched_data_url(header) == header.take(quote + 1) + "./data.json"@ + header.skip(close),
{
    let key = "data_url"@;
    lemma_key_at(header, i, colon);
    lemma_key_not_among_plain(header, 1, a, 1, key, true);
    assert(key_end(header, 0, 0, key, true) == key_end(header, 1, 1, key, true));
    if header.subrange(a + 1, b) == key {
        reveal_strlit(",}");
        reveal_strlit(" \t\n\r");
        law_blanks_are_skipped(header, b + 1, b + 1);
        assert(!colon_follows(header, b));
    }
    assert(key_end(header, a, 1, key, true) == key_end(header, b + 1, 1, key, true));
    lemma_key_not_among_plain(header, b + 1, i, 1, key, true);
    assert(key_end(header, i, 1, key, true) == Some(i + 9));
    lemma_patched_at(header, i, colon, quote, close);
}

/// The key of the outermost object is patched even where an object or an array inside it,
/// from `open` to `shut`, holds a string before it, be that a key `data_url` too.
pub proof fn law_outermost_key_comes_first(
    header: Seq<char>,
    open: int,
    a: int,
    b: int,
    shut: int,
    i: int,
    colon: int,
    quote: int,
    close: int,
)
    requires
        names_data_at(header, i, colon, quote, close),
        1 <= open < a < b < shut < i,
        header[0] == '{',
        forall|k: int| 1 <= k < open ==> !"\"{}[]"@.contains(#[trigger] header[k]),
        header[open] == '{' || header[open] == '[',
        forall|k: int| open < k < a ==> !"\"{}[]"@.contains(#[trigger] header[k]),
        header[a] == '"',
        closing_quote(header, a + 1) == Some(b),
        forall|k: int| b < k < shut ==> !"\"{}[]"@.contains(#[trigger] header[k]),
        header[shut] == '}' || header[shut] == ']',
        forall|k: int| shut < k < i ==> !"\"{}[]"@.contains(#[trigger] header[k]),
    ensures
        patched_data_url(header) == header.take(quote + 1) + "./data.json"@ + header.skip(close),
{
    let key = "data_url"@;
    lemma_key_at(header, i, colon);
    lemma_key_not_among_plain(header, 1, open, 1, key, true);
    assert(key_end(header, 0, 0, key, true) == key_end(header, 1, 1, key, true));
    assert(key_end(header, open, 1, key, true) == key_end(header, open + 1, 2, key, true));
    lemma_key_not_among_plain(header, open + 1, a, 2, key, true);
    assert(key_end(header, a, 2, key, true) == key_end(header, b + 1, 2, key, true));
    lemma_key_not_among_plain(header, b + 1, shut, 2, key, true);
    assert(key_end(header, shut, 2, key, true) == key_end(header, shut + 1, 1, key, true));
    lemma_key_not_among_plain(header, shut + 1, i, 1, key, true);
    assert(key_end(header, i, 1, key, true) == Some(i + 9));
    lemma_patched_at(header, i, colon, quote, close);
}

/// A header that has the key `data_url` once, at whatever depth, and no string around it, is
/// patched there.
pub proof fn law_key_at_any_depth_is_patched(
    header: Seq<char>,
    i: int,
    colon: int,
    quote: int,
    close: int,
)
    requires
        names_data_at(header, i, colon, quote, close),
        forall|k: int| 0 <= k < i ==> #[trigger] header[k] != '"',
        forall|k: int| close < k < header.len() ==> #[trigger] header[k] != '"',
    ensures
        patched_data_url(header) == header.take(quote + 1) + "./data.json"@ + header.skip(close),
{
    reveal_strlit(" \t\n\r");
    reveal_strlit("\"{}[]");
    let key = "data_url"@;
    let depth = depth_between(header, 0, i);
    lemma_key_at(header, i, colon);
    lemma_key_behind_marks(header, 0, i, 0, key, true);
    lemma_key_behind_marks(header, 0, i, 0, key, false);
    assert(key_end(header, i, depth, key, false) == Some(i + 9));
    if depth == 1 {
        assert(key_end(header, i, depth, key, true) == Some(i + 9));
    } else {
        assert(key_end(header, i, depth, key, true) == key_end(header, i + 10, depth, key, true));
        let plain = "\"{}[]"@;
        let blanks = " \t\n\r"@;
        assert(blanks[0] == ' ' && blanks[1] == '\t' && blanks[2] == '\n' && blanks[3] == '\r');
        assert(plain[0] == '"' && plain[1] == '{' && plain[2] == '}' && plain[3] == '[' && plain[4]
            == ']');
        assert forall|k: int| i + 10 <= k < quote implies !plain.contains(#[trigger] header[k]) by {
            if k != colon {
                assert(blanks.contains(header[k]));
            }
        }
        lemma_key_not_among_plain(header, i + 10, quote, depth, key, true);
        assert(key_end(header, quote, depth, key, true) == key_end(
            header,
            close + 1,
            depth,
            key,
            true,
        ));
        lemma_no_key_without_quotes(header, close + 1, depth, key, true);
    }
    lemma_patched_at(header, i, colon, quote, close);
}

/// A header in which `"data_url"` stands nowhere is kept whole.
pub proof fn law_header_without_key_is_kept(header: Seq<char>)
    requires
        forall|i: int|
            0 <= i && i + 10 <= header.len() ==> #[trigger] header.subrange(i, i + 10)
                != "\"data_url\""@,
    ensures
        patched_data_url(header) == header,
{
    lemma_data_url_key(header);
    if data_url_span(header) is Some {
        law_data_url_span_is_quoted(header);
        let key = data_url_key(header)->0;
        assert(header.subrange(key - 9, key - 9 + 10) == "\"data_url\""@);
    }
}

/// A header whose outermost object has something else than a string under `data_url`, its
/// first string, is kept whole.
pub proof fn law_value_that_is_no_string_is_kept(
    header: Seq<char>,
    i: int,
    colon: int,
    value: int,
)
    requires
        1 <= i,
        i + 10 <= colon < value < header.len(),
        header[0] == '{',
        forall|k: int| 1 <= k < i ==> !"\"{}[]"@.contains(#[trigger] header[k]),
        header.subrange(i, i + 10) == "\"data_url\""@,
        forall|k: int| i + 10 <= k < colon ==> " \t\n\r"@.contains(#[trigger] header[k]),
        header[colon] == ':',
        forall|k: int| colon < k < value ==> " \t\n\r"@.contains(#[trigger] header[k]),
        !" \t\n\r"@.contains(header[value]),
        header[value] != '"',
    ensures
        patched_data_url(header) == header,
{
    lemma_key_at(header, i, colon);
    lemma_key_not_among_plain(header, 1, i, 1, "data_url"@, true);
    assert(key_end(header, 0, 0, "data_url"@, true) == key_end(header, 1, 1, "data_url"@, true));
    assert(key_end(header, i, 1, "data_url"@, true) == Some(i + 9));
    law_blanks_are_skipped(header, colon + 1, value);
}

// ---------------------------------------------------------------------
// What is written and saved
// ---------------------------------------------------------------------

/// A header file is left alone where it holds the new content, or where both are headers with
/// the same name, symbol, data address, level order and courses; it is written in every other
/// case.
pub proof fn law_header_file_is_written(old: OldFile, new_content: Seq<char>)
    ensures
        !header_changed(old, new_content) <==> old is Content && (old->Content_0@ == new_content || {
            let a = parsed_header(old->Content_0@);
            let b = parsed_header(new_content);
            &&& a is Some
            &&& b is Some
            &&& a->Some_0.name == b->Some_0.name
            &&& a->Some_0.symbol == b->Some_0.symbol
            &&& a->Some_0.data_url == b->Some_0.data_url
            &&& a->Some_0.level_order == b->Some_0.level_order
            &&& same_json(a->Some_0.course, b->Some_0.course)
        }),
{
}

/// Two headers are the same exactly where they agree in name, symbol, data address, level
/// order and courses.
pub proof fn law_same_headers(a: HeaderView, b: HeaderView)
    ensures
        same_header(a, b) <==> a.name == b.name && a.symbol == b.symbol && a.data_url == b.data_url
            && a.level_order == b.level_order && same_json(a.course, b.course),
{
}

/// A data file is left alone where it holds the new content, or where both hold the same
/// charts in the same order; it is written in every other case.
pub proof fn law_data_file_is_written(old: OldFile, new_content: Seq<char>)
    ensures
        !data_changed(old, new_content) <==> old is Content && (old->Content_0@ == new_content || {
            let a = parsed_charts(old->Content_0@);
            let b = parsed_charts(new_content);
            &&& a is Some
            &&& b is Some
            &&& a->Some_0.len() == b->Some_0.len()
            &&& forall|i: int|
                0 <= i < a->Some_0.len() ==> #[trigger] a->Some_0[i] == b->Some_0[i]
        }),
{
    if old is Content {
        let a = parsed_charts(old->Content_0@);
        let b = parsed_charts(new_content);
        if a is Some && b is Some && a->Some_0.len() == b->Some_0.len() && (forall|i: int|
            0 <= i < a->Some_0.len() ==> #[trigger] a->Some_0[i] == b->Some_0[i]) {
            assert(a->Some_0 =~= b->Some_0);
        }
    }
}

/// Headers and charts are what their fields hold, each under its own name, and lists of charts
/// keep their order.
pub proof fn law_headers_and_charts_by_field(
    header: HeaderFields,
    chart: ChartFields,
    charts: Seq<ChartFields>,
    i: int,
)
    ensures
        header@.name == header.name@,
        header@.symbol == header.symbol@,
        header@.data_url == header.data_url@,
        header@.level_order == texts(header.level_order@),
        header@.course == header.course@,
        chart@.level == chart.level@,
        chart@.md5 == string_view(chart.md5),
        chart@.sha256 == string_view(chart.sha256),
        chart@.title == string_view(chart.title),
        chart@.subtitle == string_view(chart.subtitle),
        chart@.artist == string_view(chart.artist),
        chart@.subartist == string_view(chart.subartist),
        chart@.url == string_view(chart.url),
        chart@.url_diff == string_view(chart.url_diff),
        chart_views(charts).len() == charts.len(),
        0 <= i < charts.len() ==> chart_views(charts)[i] == charts[i]@,
{
}

/// A directory with an old name is renamed from it exactly where the new name differs; without
/// an old name there is nothing to rename.
pub proof fn law_requested_rename(old_name: Seq<char>, new_name: Seq<char>, action: RenameAction)
    ensures
        requested_rename(None, new_name) is None,
        requested_rename(Some(old_name), new_name) is Some <==> old_name != new_name,
        old_name != new_name ==> requested_rename(Some(old_name), new_name)->Some_0.old_path
            == old_name && requested_rename(Some(old_name), new_name)->Some_0.new_path == new_name,
        rename_view(None) is None,
        rename_view(Some(action)) == Some(action@),
{
}

/// What is saved has the name and the symbol of the response, the address of before, and the
/// addresses of header and data among its fields.
pub proof fn law_saved_description(info: TableInfoView, response: Response)
    ensures
        saved_info(info, response).name == response.name@,
        saved_info(info, response).symbol == response.symbol@,
        saved_info(info, response).url == info.url,
        saved_info(info, response).extra.contains_key("url_header_json"@),
        saved_info(info, response).extra.contains_key("url_data_json"@),
        saved_info(info, response).extra["url_header_json"@] == JsonView::Text(
            response.header_json_url@,
        ),
        saved_info(info, response).extra["url_data_json"@] == JsonView::Text(
            response.data_json_url@,
        ),
{
    law_saved_info(info, response);
}

} // verus!
