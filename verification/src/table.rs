//! What is known of a difficulty table.

use vstd::prelude::*;

use crate::json::{distinct_keys, law_same_json_is_reflexive, lemma_views_of_array, lemma_views_of_object, pretty_json, same_json, Json, JsonSource, JsonView};
use crate::ordered::{ascending_members, law_ascending_members, lemma_ascending_members, lists_members, Dup, SortedMap};
use crate::sorting::views;
use crate::text::{string_view, text_eq, text_lt, text_of};

verus! {

/// A difficulty table as lists and `info.json` files describe it.
pub struct TableInfo {
    /// Table name.
    pub name: String,
    /// Table symbol.
    pub symbol: String,
    /// Address of the table's page.
    pub url: String,
    /// All other fields.
    pub extra: SortedMap<Json>,
}

/// The mathematical table description.
#[verifier::ext_equal]
pub struct TableInfoView {
    pub name: Seq<char>,
    pub symbol: Seq<char>,
    pub url: Seq<char>,
    pub extra: Map<Seq<char>, JsonView>,
}

impl View for TableInfo {
    type V = TableInfoView;

    open spec fn view(&self) -> TableInfoView {
        TableInfoView {
            name: self.name@,
            symbol: self.symbol@,
            url: self.url@,
            extra: self.extra@,
        }
    }
}

impl Dup for TableInfo {
    fn dup(&self) -> (r: TableInfo) {
        TableInfo {
            name: self.name.clone(),
            symbol: self.symbol.clone(),
            url: self.url.clone(),
            extra: self.extra.dup(),
        }
    }
}

/// The same fields, with the same values.
pub open spec fn same_extra(a: Map<Seq<char>, JsonView>, b: Map<Seq<char>, JsonView>) -> bool {
    &&& forall|k: Seq<char>| #[trigger] a.contains_key(k) <==> b.contains_key(k)
    &&& forall|k: Seq<char>| #[trigger] a.contains_key(k) ==> same_json(a[k], b[k])
}

/// Two descriptions that agree in every field.
pub open spec fn same_info(a: TableInfoView, b: TableInfoView) -> bool {
    &&& a.name == b.name
    &&& a.symbol == b.symbol
    &&& a.url == b.url
    &&& same_extra(a.extra, b.extra)
}

/// Every key of `a`, with the value it has there, is in `b`.
fn extra_within(a: &SortedMap<Json>, b: &SortedMap<Json>) -> (r: bool)
    ensures
        r == (forall|k: Seq<char>| #[trigger]
            a@.contains_key(k) ==> b@.contains_key(k) && same_json(a@[k], b@[k])),
{
    let n: usize = a.len();
    let mut i: usize = 0;
    while i < n
        invariant
            n == a.keys().len(),
            forall|k: Seq<char>| #[trigger] a@.contains_key(k) <==> a.keys().contains(k),
            i <= n,
            forall|j: int|
                0 <= j < i ==> b@.contains_key(#[trigger] a.keys()[j]) && same_json(
                    a@[a.keys()[j]],
                    b@[a.keys()[j]],
                ),
        decreases n - i,
    {
        let ghost k = a.keys()[i as int];
        proof {
            assert(a.keys().contains(k));
        }
        let found = match b.get(a.key_at(i).as_str()) {
            Some(v) => a.value_at(i).same(v),
            None => false,
        };
        if !found {
            proof {
                assert(a@.contains_key(k));
            }
            return false;
        }
        i += 1;
    }
    proof {
        assert forall|k: Seq<char>| #[trigger] a@.contains_key(k) implies b@.contains_key(k)
            && same_json(a@[k], b@[k]) by {
            let j = choose|j: int| 0 <= j < a.keys().len() && a.keys()[j] == k;
            assert(b@.contains_key(a.keys()[j]));
        }
    }
    true
}

/// Every key of `a` is in `b`.
fn keys_within(a: &SortedMap<Json>, b: &SortedMap<Json>) -> (r: bool)
    ensures
        r == (forall|k: Seq<char>| #[trigger] a@.contains_key(k) ==> b@.contains_key(k)),
{
    let n: usize = a.len();
    let mut i: usize = 0;
    while i < n
        invariant
            n == a.keys().len(),
            forall|k: Seq<char>| #[trigger] a@.contains_key(k) <==> a.keys().contains(k),
            i <= n,
            forall|j: int| 0 <= j < i ==> b@.contains_key(#[trigger] a.keys()[j]),
        decreases n - i,
    {
        let ghost k = a.keys()[i as int];
        proof {
            assert(a.keys().contains(k));
        }
        if !b.contains_key(a.key_at(i).as_str()) {
            proof {
                assert(a@.contains_key(k));
            }
            return false;
        }
        i += 1;
    }
    proof {
        assert forall|k: Seq<char>| #[trigger] a@.contains_key(k) implies b@.contains_key(k) by {
            let j = choose|j: int| 0 <= j < a.keys().len() && a.keys()[j] == k;
            assert(b@.contains_key(a.keys()[j]));
        }
    }
    true
}

impl TableInfo {
    /// Whether two descriptions agree in every field.
    pub fn same(&self, other: &TableInfo) -> (r: bool)
        ensures
            r == same_info(self@, other@),
    {
        text_eq(self.name.as_str(), other.name.as_str()) && text_eq(
            self.symbol.as_str(),
            other.symbol.as_str(),
        ) && text_eq(self.url.as_str(), other.url.as_str()) && extra_within(
            &self.extra,
            &other.extra,
        ) && keys_within(&other.extra, &self.extra)
    }
}

// ---------------------------------------------------------------------
// Reading
// ---------------------------------------------------------------------

/// A description as it stands in JSON: the fields besides name, symbol and address in a
/// list.
pub struct InfoFields {
    /// Table name.
    pub name: String,
    /// Table symbol.
    pub symbol: String,
    /// Address of the table's page.
    pub url: String,
    /// All other fields.
    pub extra: Vec<(String, Json)>,
}

/// The mathematical form of `InfoFields`.
#[verifier::ext_equal]
pub struct InfoFieldsView {
    pub name: Seq<char>,
    pub symbol: Seq<char>,
    pub url: Seq<char>,
    pub extra: Seq<(Seq<char>, JsonView)>,
}

impl View for InfoFields {
    type V = InfoFieldsView;

    open spec fn view(&self) -> InfoFieldsView {
        InfoFieldsView {
            name: self.name@,
            symbol: self.symbol@,
            url: self.url@,
            extra: self.extra@.map_values(|p: (String, Json)| (p.0@, p.1@)),
        }
    }
}

/// The map of a list of fields, where a later field replaces an earlier one.
pub open spec fn fields_map(fields: Seq<(Seq<char>, JsonView)>) -> Map<Seq<char>, JsonView>
    decreases fields.len(),
{
    if fields.len() == 0 {
        Map::empty()
    } else {
        fields_map(fields.drop_last()).insert(fields.last().0, fields.last().1)
    }
}

/// The description that a list of fields stands for.
pub open spec fn info_of(fields: InfoFieldsView) -> TableInfoView {
    TableInfoView {
        name: fields.name,
        symbol: fields.symbol,
        url: fields.url,
        extra: fields_map(fields.extra),
    }
}

/// No value among the fields holds an object with a key twice.
pub open spec fn distinct_fields(fields: Seq<(Seq<char>, JsonView)>) -> bool {
    forall|i: int| 0 <= i < fields.len() ==> distinct_keys((#[trigger] fields[i]).1)
}

/// No value among the fields of a description holds an object with a key twice.
pub open spec fn distinct_extra(info: TableInfoView) -> bool {
    forall|k: Seq<char>| #[trigger]
        info.extra.contains_key(k) ==> distinct_keys(info.extra[k])
}

proof fn lemma_distinct_map(fields: Seq<(Seq<char>, JsonView)>)
    requires
        distinct_fields(fields),
    ensures
        forall|k: Seq<char>| #[trigger]
            fields_map(fields).contains_key(k) ==> distinct_keys(fields_map(fields)[k]),
    decreases fields.len(),
{
    if fields.len() > 0 {
        let init = fields.drop_last();
        assert(distinct_fields(init)) by {
            assert forall|i: int| 0 <= i < init.len() implies distinct_keys(
                (#[trigger] init[i]).1,
            ) by {
                assert(init[i] == fields[i]);
            }
        }
        lemma_distinct_map(init);
        let last = fields[fields.len() - 1];
        assert(distinct_keys(last.1));
        assert(fields_map(fields) == fields_map(init).insert(last.0, last.1));
        assert forall|k: Seq<char>| #[trigger] fields_map(fields).contains_key(k) implies distinct_keys(
            fields_map(fields)[k],
        ) by {
            if k != last.0 {
                assert(fields_map(init).contains_key(k));
            }
        }
    }
}

/// A description is the same as itself.
pub proof fn law_same_info_is_reflexive(info: TableInfoView)
    requires
        distinct_extra(info),
    ensures
        same_info(info, info),
{
    assert forall|k: Seq<char>| #[trigger] info.extra.contains_key(k) implies same_json(
        info.extra[k],
        info.extra[k],
    ) by {
        law_same_json_is_reflexive(info.extra[k]);
    }
}

/// The table description that a text holds, where it holds one.
pub uninterp spec fn parsed_info(text: Seq<char>) -> Option<InfoFieldsView>;

/// The list of table descriptions that a text holds, where it holds one.
pub uninterp spec fn parsed_infos(text: Seq<char>) -> Option<Seq<InfoFieldsView>>;

/// `serde_json::from_str::<bms_table::BmsTableInfo>` on a text, the result given by its
/// parts. Claims that the result is a function of the text, and that no object among the
/// other fields holds a key twice (`serde_json::Map` is a map).
#[verifier::external_body]
fn read_info(text: &str) -> (r: Option<InfoFields>)
    ensures
        match r {
            Some(fields) => parsed_info(text@) == Some(fields@) && distinct_fields(fields@.extra),
            None => parsed_info(text@) is None,
        },
{
    let i: bms_table::BmsTableInfo = serde_json::from_str(text).ok()?;
    let field = |(k, v)| Some((k, crate::json::read_json(JsonSource::Parsed(v))?));
    Some(InfoFields {
        name: i.name,
        symbol: i.symbol,
        url: i.url.into(),
        extra: i.extra.into_iter().map(field).collect::<Option<Vec<(String, Json)>>>()?,
    })
}

/// `serde_json::from_str::<Vec<bms_table::BmsTableInfo>>` on a text, each description given
/// by its parts. Claims that the result is a function of the text, and that no object among
/// the other fields of a description holds a key twice (`serde_json::Map` is a map).
#[verifier::external_body]
fn read_infos(text: &str) -> (r: Option<Vec<InfoFields>>)
    ensures
        match r {
            Some(list) => {
                &&& parsed_infos(text@) == Some(list@.map_values(|f: InfoFields| f@))
                &&& forall|i: int| 0 <= i < list@.len() ==> distinct_fields(#[trigger] list@[i]@.extra)
            },
            None => parsed_infos(text@) is None,
        },
{
    let list: Vec<bms_table::BmsTableInfo> = serde_json::from_str(text).ok()?;
    let field = |(k, v)| Some((k, crate::json::read_json(JsonSource::Parsed(v))?));
    let parts = |i: bms_table::BmsTableInfo| Some(InfoFields {
        name: i.name,
        symbol: i.symbol,
        url: i.url.into(),
        extra: i.extra.into_iter().map(field).collect::<Option<Vec<(String, Json)>>>()?,
    });
    list.into_iter().map(parts).collect()
}

impl TableInfo {
    /// The description that a list of fields stands for.
    pub fn from_fields(fields: InfoFields) -> (r: TableInfo)
        ensures
            r@ == info_of(fields@),
    {
        let ghost all = fields@.extra;
        let mut extra: SortedMap<Json> = SortedMap::new();
        let mut i: usize = 0;
        while i < fields.extra.len()
            invariant
                all == fields@.extra,
                i <= fields.extra@.len(),
                extra@ == fields_map(all.take(i as int)),
            decreases fields.extra.len() - i,
        {
            proof {
                assert(all.take(i + 1).drop_last() =~= all.take(i as int));
                assert(all[i as int] == (fields.extra@[i as int].0@, fields.extra@[i as int].1@));
            }
            extra.insert(fields.extra[i].0.clone(), fields.extra[i].1.dup());
            i += 1;
        }
        proof {
            assert(all.take(i as int) =~= all);
        }
        TableInfo { name: fields.name, symbol: fields.symbol, url: fields.url, extra }
    }

    /// The description that a text holds, if it is one.
    pub fn parse(text: &str) -> (r: Option<TableInfo>)
        ensures
            match r {
                Some(info) => {
                    &&& parsed_info(text@) is Some
                    &&& info@ == info_of(parsed_info(text@)->Some_0)
                    &&& distinct_extra(info@)
                },
                None => parsed_info(text@) is None,
            },
    {
        match read_info(text) {
            Some(fields) => {
                proof {
                    lemma_distinct_map(fields@.extra);
                }
                Some(TableInfo::from_fields(fields))
            },
            None => None,
        }
    }

    /// The descriptions that a text holds as a list, if it is one.
    pub fn parse_list(text: &str) -> (r: Option<Vec<TableInfo>>)
        ensures
            match r {
                Some(list) => {
                    &&& parsed_infos(text@) is Some
                    &&& infos_of(list@) == parsed_infos(text@)->Some_0.map_values(
                        |f: InfoFieldsView| info_of(f),
                    )
                    &&& forall|i: int|
                        0 <= i < list@.len() ==> distinct_extra(#[trigger] infos_of(list@)[i])
                },
                None => parsed_infos(text@) is None,
            },
    {
        match read_infos(text) {
            Some(list) => {
                let ghost fields = list@;
                let infos: Vec<TableInfo> = TableInfo::from_list(list);
                proof {
                    assert(infos_of(infos@).len() == fields.len());
                    assert forall|i: int| 0 <= i < infos@.len() implies distinct_extra(
                        #[trigger] infos_of(infos@)[i],
                    ) by {
                        assert(infos_of(infos@)[i] == info_of(fields[i]@));
                        lemma_distinct_map(fields[i]@.extra);
                    }
                    assert(infos_of(infos@) =~= parsed_infos(text@)->Some_0.map_values(
                        |f: InfoFieldsView| info_of(f),
                    ));
                }
                Some(infos)
            },
            None => None,
        }
    }

    /// The descriptions that a list of fields stands for, in order.
    pub fn from_list(list: Vec<InfoFields>) -> (r: Vec<TableInfo>)
        ensures
            infos_of(r@) == list@.map_values(|f: InfoFields| info_of(f@)),
    {
        let ghost all = list@;
        let mut rest: Vec<InfoFields> = list;
        let mut backwards: Vec<TableInfo> = Vec::new();
        let n: usize = rest.len();
        while rest.len() > 0
            invariant
                n == all.len(),
                rest@ == all.take(rest@.len() as int),
                rest@.len() + backwards@.len() == n,
                forall|j: int|
                    0 <= j < backwards@.len() ==> (#[trigger] backwards@[j])@ == info_of(
                        all[n - 1 - j]@,
                    ),
            decreases rest.len(),
        {
            let ghost before = rest@;
            let fields: Option<InfoFields> = rest.pop();
            proof {
                assert(before.last() == all[before.len() - 1]);
                assert(before.drop_last() =~= all.take(before.len() - 1));
            }
            if let Some(f) = fields {
                backwards.push(TableInfo::from_fields(f));
            }
        }
        let mut out: Vec<TableInfo> = Vec::new();
        while backwards.len() > 0
            invariant
                n == all.len(),
                backwards@.len() + out@.len() == n,
                forall|j: int|
                    0 <= j < backwards@.len() ==> (#[trigger] backwards@[j])@ == info_of(
                        all[n - 1 - j]@,
                    ),
                forall|j: int| 0 <= j < out@.len() ==> (#[trigger] out@[j])@ == info_of(all[j]@),
            decreases backwards.len(),
        {
            let ghost before = backwards@;
            let info: Option<TableInfo> = backwards.pop();
            proof {
                assert(before.last()@ == info_of(all[n - before.len()]@));
            }
            if let Some(i) = info {
                out.push(i);
            }
        }
        proof {
            assert(infos_of(out@) =~= all.map_values(|f: InfoFields| info_of(f@)));
        }
        out
    }
}

// ---------------------------------------------------------------------
// Writing
// ---------------------------------------------------------------------

/// The fields besides name, symbol and address, in ascending order of their keys.
pub open spec fn extra_fields(extra: Map<Seq<char>, JsonView>) -> Seq<(Seq<char>, JsonView)> {
    ascending_members(extra.dom()).map_values(|k: Seq<char>| (k, extra[k]))
}

/// A description as a JSON object: name, symbol and address, then all other fields in
/// ascending order of their keys.
pub open spec fn info_json(info: TableInfoView) -> JsonView {
    JsonView::Object(
        seq![
            ("name"@, JsonView::Text(info.name)),
            ("symbol"@, JsonView::Text(info.symbol)),
            ("url"@, JsonView::Text(info.url)),
        ] + extra_fields(info.extra),
    )
}

/// A list of descriptions as a JSON array.
pub open spec fn list_json(infos: Seq<TableInfoView>) -> JsonView {
    JsonView::Array(infos.map_values(|t: TableInfoView| info_json(t)))
}

impl TableInfo {
    /// The description as a JSON object.
    pub fn to_json(&self) -> (r: Json)
        ensures
            r@ == info_json(self@),
    {
        let mut fields: Vec<(String, Json)> = Vec::new();
        fields.push((text_of("name"), Json::Text(self.name.clone())));
        fields.push((text_of("symbol"), Json::Text(self.symbol.clone())));
        fields.push((text_of("url"), Json::Text(self.url.clone())));
        let ghost known = seq![
            ("name"@, JsonView::Text(self.name@)),
            ("symbol"@, JsonView::Text(self.symbol@)),
            ("url"@, JsonView::Text(self.url@)),
        ];
        let ghost others = extra_fields(self.extra@);
        let n: usize = self.extra.len();
        proof {
            assert(lists_members(self.extra.keys(), self.extra@.dom())) by {
                assert forall|k: Seq<char>|
                    self.extra.keys().contains(k) <==> #[trigger] self.extra@.dom().contains(k) by {
                    assert(self.extra@.contains_key(k) <==> self.extra.keys().contains(k));
                }
            }
            lemma_ascending_members(self.extra.keys(), self.extra@.dom());
            assert(others.take(0) =~= Seq::<(Seq<char>, JsonView)>::empty());
            assert(views(fields@) =~= known + others.take(0));
        }
        let mut i: usize = 0;
        while i < n
            invariant
                n == self.extra.keys().len(),
                self.extra.keys() == ascending_members(self.extra@.dom()),
                others == extra_fields(self.extra@),
                i <= n,
                views(fields@) == known + others.take(i as int),
            decreases n - i,
        {
            let ghost before = fields@;
            let field = (self.extra.key_at(i).clone(), self.extra.value_at(i).dup());
            let ghost view = (field.0@, field.1@);
            fields.push(field);
            proof {
                assert(views(fields@) =~= views(before).push(view));
                assert(others.take(i + 1) =~= others.take(i as int).push(view));
            }
            i += 1;
        }
        proof {
            assert(others.take(i as int) =~= others);
            lemma_views_of_object(fields);
        }
        Json::Object(fields)
    }

    /// The description as the text of an `info.json`; none where printing fails.
    pub fn text(&self) -> (r: Option<String>)
        ensures
            string_view(r) == pretty_json(info_json(self@)),
    {
        self.to_json().pretty()
    }
}

/// A list of descriptions as a JSON array.
pub fn list_to_json(infos: &Vec<TableInfo>) -> (r: Json)
    ensures
        r@ == list_json(infos_of(infos@)),
{
    let mut items: Vec<Json> = Vec::new();
    let mut i: usize = 0;
    while i < infos.len()
        invariant
            i <= infos@.len(),
            items@.len() == i,
            forall|j: int| 0 <= j < i ==> (#[trigger] items@[j])@ == info_json(infos@[j]@),
        decreases infos.len() - i,
    {
        items.push(infos[i].to_json());
        i += 1;
    }
    proof {
        lemma_views_of_array(items);
        assert(views(items@) =~= infos_of(infos@).map_values(|t: TableInfoView| info_json(t)));
    }
    Json::Array(items)
}

/// A list of descriptions as the text of a list file; none where printing fails.
pub fn list_text(infos: &Vec<TableInfo>) -> (r: Option<String>)
    ensures
        string_view(r) == pretty_json(list_json(infos_of(infos@))),
{
    list_to_json(infos).pretty()
}

/// The descriptions of a list.
pub open spec fn infos_of(list: Seq<TableInfo>) -> Seq<TableInfoView> {
    list.map_values(|t: TableInfo| t@)
}

// ---------------------------------------------------------------------
// Laws
// ---------------------------------------------------------------------

/// Two descriptions are the same exactly where they have the same name, symbol and address,
/// the same other keys, and the same value under each.
pub proof fn law_same_descriptions(a: TableInfoView, b: TableInfoView)
    ensures
        same_info(a, b) ==> a.name == b.name && a.symbol == b.symbol && a.url == b.url,
        same_info(a, b) ==> a.extra.dom() == b.extra.dom(),
        same_info(a, b) ==> forall|k: Seq<char>| #[trigger]
            a.extra.contains_key(k) ==> same_json(a.extra[k], b.extra[k]),
        a.name == b.name && a.symbol == b.symbol && a.url == b.url && a.extra.dom()
            == b.extra.dom() && (forall|k: Seq<char>| #[trigger]
            a.extra.contains_key(k) ==> same_json(a.extra[k], b.extra[k])) ==> same_info(a, b),
{
    if same_info(a, b) {
        assert forall|k: Seq<char>| a.extra.dom().contains(k) <==> b.extra.dom().contains(k) by {
            assert(a.extra.contains_key(k) <==> b.extra.contains_key(k));
        }
        assert(a.extra.dom() =~= b.extra.dom());
    }
    if a.extra.dom() == b.extra.dom() {
        assert forall|k: Seq<char>| #[trigger] a.extra.contains_key(k) <==> b.extra.contains_key(k) by {
            assert(a.extra.dom().contains(k) <==> b.extra.dom().contains(k));
        }
    }
}

/// A description is what its fields hold, each under its own name; so are the fields read of
/// one, the others in their order.
pub proof fn law_descriptions_by_field(info: TableInfo, fields: InfoFields, i: int)
    ensures
        info@.name == info.name@,
        info@.symbol == info.symbol@,
        info@.url == info.url@,
        info@.extra == info.extra@,
        fields@.name == fields.name@,
        fields@.symbol == fields.symbol@,
        fields@.url == fields.url@,
        fields@.extra.len() == fields.extra@.len(),
        0 <= i < fields.extra@.len() ==> fields@.extra[i].0 == fields.extra@[i].0@,
        0 <= i < fields.extra@.len() ==> fields@.extra[i].1 == fields.extra@[i].1@,
{
}

/// A description made of fields has their name, symbol and address.
pub proof fn law_description_of_fields(fields: InfoFieldsView)
    ensures
        info_of(fields).name == fields.name,
        info_of(fields).symbol == fields.symbol,
        info_of(fields).url == fields.url,
        info_of(fields).extra == fields_map(fields.extra),
{
}

/// Under each other key stands the value of the last field with that key.
pub proof fn law_last_field_stays(fields: InfoFieldsView, i: int)
    requires
        0 <= i < fields.extra.len(),
        forall|j: int| i < j < fields.extra.len() ==> (#[trigger] fields.extra[j]).0
            != fields.extra[i].0,
    ensures
        info_of(fields).extra.contains_key(fields.extra[i].0),
        info_of(fields).extra[fields.extra[i].0] == fields.extra[i].1,
{
    lemma_last_field(fields.extra, i);
}

proof fn lemma_last_field(fields: Seq<(Seq<char>, JsonView)>, i: int)
    requires
        0 <= i < fields.len(),
        forall|j: int| i < j < fields.len() ==> (#[trigger] fields[j]).0 != fields[i].0,
    ensures
        fields_map(fields).contains_key(fields[i].0),
        fields_map(fields)[fields[i].0] == fields[i].1,
    decreases fields.len(),
{
    let init = fields.drop_last();
    if i < init.len() {
        assert forall|j: int| i < j < init.len() implies (#[trigger] init[j]).0 != init[i].0 by {
            assert(init[j] == fields[j]);
        }
        lemma_last_field(init, i);
        assert(fields[fields.len() - 1].0 != fields[i].0);
    }
}

/// There is no other key than those of the fields.
pub proof fn law_no_other_field(fields: InfoFieldsView, k: Seq<char>)
    requires
        forall|i: int| 0 <= i < fields.extra.len() ==> (#[trigger] fields.extra[i]).0 != k,
    ensures
        !info_of(fields).extra.contains_key(k),
{
    lemma_no_field(fields.extra, k);
}

proof fn lemma_no_field(fields: Seq<(Seq<char>, JsonView)>, k: Seq<char>)
    requires
        forall|i: int| 0 <= i < fields.len() ==> (#[trigger] fields[i]).0 != k,
    ensures
        !fields_map(fields).contains_key(k),
    decreases fields.len(),
{
    if fields.len() > 0 {
        let init = fields.drop_last();
        assert forall|i: int| 0 <= i < init.len() implies (#[trigger] init[i]).0 != k by {
            assert(init[i] == fields[i]);
        }
        lemma_no_field(init, k);
        assert(fields[fields.len() - 1].0 != k);
    }
}

/// A description is written as an object with its name, symbol and address in this order,
/// and behind them its other fields in ascending order of their keys.
pub proof fn law_description_is_written_in_order(
    info: TableInfoView,
    keys: Seq<Seq<char>>,
    i: int,
)
    requires
        forall|a: int, b: int|
            0 <= a < b < keys.len() ==> text_lt(#[trigger] keys[a], #[trigger] keys[b]),
        forall|k: Seq<char>| #[trigger] keys.contains(k) <==> info.extra.dom().contains(k),
    ensures
        info_json(info) is Object,
        info_json(info)->Object_0.len() == 3 + keys.len(),
        info_json(info)->Object_0[0] == ("name"@, JsonView::Text(info.name)),
        info_json(info)->Object_0[1] == ("symbol"@, JsonView::Text(info.symbol)),
        info_json(info)->Object_0[2] == ("url"@, JsonView::Text(info.url)),
        0 <= i < keys.len() ==> info_json(info)->Object_0[3 + i] == (keys[i], info.extra[keys[i]]),
{
    law_ascending_members(keys, info.extra.dom());
}

/// A list of descriptions is written as an array of them, in order, and its descriptions are
/// those of its entries.
pub proof fn law_list_is_written_in_order(infos: Seq<TableInfoView>, list: Seq<TableInfo>, i: int)
    ensures
        list_json(infos) is Array,
        list_json(infos)->Array_0.len() == infos.len(),
        0 <= i < infos.len() ==> list_json(infos)->Array_0[i] == info_json(infos[i]),
        infos_of(list).len() == list.len(),
        0 <= i < list.len() ==> infos_of(list)[i] == list[i]@,
{
}

} // verus!
