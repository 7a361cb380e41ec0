//! Configuration: list sources and the rules that add, replace and disable tables.
//!
//! [`TableConfig`] here is the single-file form; [`list`] and [`table`] are its parts as
//! files of their own, [`index`] the sources of index files.

use vstd::prelude::*;

use crate::config::table::{config_view, ConfigView, DisableEntry, ReplaceRule, RuleView, TableEntry};
use crate::json::Json;
use crate::ordered::{texts, Dup, SortedMap};
use crate::sorting::views;
use crate::table::{TableInfo, TableInfoView};

/// Sources of index files.
pub mod index;
/// Sources of table lists.
pub mod list;
/// Rules that add, replace and disable tables.
pub mod table;

verus! {

/// A list of tables to fetch, with the name to keep it under.
pub struct TableListSource {
    /// Display name.
    pub name: String,
    /// Address of the list.
    pub url: String,
}

/// A table to add.
pub struct AddTableInfo {
    /// Table name.
    pub name: String,
    /// Address of the table's page.
    pub url: String,
    /// Table symbol.
    pub symbol: String,
    /// All other fields.
    pub extra: SortedMap<Json>,
}

impl View for AddTableInfo {
    type V = TableInfoView;

    open spec fn view(&self) -> TableInfoView {
        TableInfoView {
            name: self.name@,
            symbol: self.symbol@,
            url: self.url@,
            extra: self.extra@,
        }
    }
}

impl From<AddTableInfo> for TableInfo {
    fn from(v: AddTableInfo) -> (r: TableInfo) {
        TableInfo { name: v.name, symbol: v.symbol, url: v.url, extra: v.extra }
    }
}

impl vstd::std_specs::convert::FromSpecImpl<AddTableInfo> for TableInfo {
    open spec fn obeys_from_spec() -> bool {
        true
    }

    open spec fn from_spec(v: AddTableInfo) -> TableInfo {
        TableInfo { name: v.name, symbol: v.symbol, url: v.url, extra: v.extra }
    }
}

impl From<TableInfo> for AddTableInfo {
    fn from(v: TableInfo) -> (r: AddTableInfo) {
        AddTableInfo { name: v.name, url: v.url, symbol: v.symbol, extra: v.extra }
    }
}

impl vstd::std_specs::convert::FromSpecImpl<TableInfo> for AddTableInfo {
    open spec fn obeys_from_spec() -> bool {
        true
    }

    open spec fn from_spec(v: TableInfo) -> AddTableInfo {
        AddTableInfo { name: v.name, url: v.url, symbol: v.symbol, extra: v.extra }
    }
}

/// A rule that moves a table from one address to another.
pub struct UrlReplaceRule {
    /// Address to replace.
    pub from: String,
    /// Address to put in its place.
    pub to: String,
}

impl View for UrlReplaceRule {
    type V = RuleView;

    open spec fn view(&self) -> RuleView {
        RuleView { from: self.from@, to: self.to@ }
    }
}

/// The single-file configuration.
pub struct TableConfig {
    /// Lists to fetch.
    pub table_list: Vec<TableListSource>,
    /// Tables to add.
    pub add_table: Vec<AddTableInfo>,
    /// Addresses to disable.
    pub disable_table_url: Vec<String>,
    /// Addresses to replace.
    pub replace_table_url: Vec<UrlReplaceRule>,
}

impl TableConfig {
    /// The rules of the configuration.
    pub open spec fn rules_view(&self) -> ConfigView {
        ConfigView {
            table: views(self.add_table@),
            replace: views(self.replace_table_url@),
            disable: texts(self.disable_table_url@),
        }
    }

    /// The rules of the configuration, as the table configuration that says the same.
    pub fn rules(&self) -> (r: table::TableConfig)
        ensures
            config_view(r) == self.rules_view(),
    {
        let mut table: Vec<TableEntry> = Vec::new();
        let mut i: usize = 0;
        while i < self.add_table.len()
            invariant
                i <= self.add_table@.len(),
                table@.len() == i,
                forall|j: int| 0 <= j < i ==> (#[trigger] table@[j])@ == self.add_table@[j]@,
            decreases self.add_table.len() - i,
        {
            let item: &AddTableInfo = &self.add_table[i];
            table.push(
                TableEntry {
                    name: item.name.clone(),
                    url: item.url.clone(),
                    symbol: item.symbol.clone(),
                    extra: item.extra.dup(),
                },
            );
            i += 1;
        }
        let mut replace: Vec<ReplaceRule> = Vec::new();
        i = 0;
        while i < self.replace_table_url.len()
            invariant
                i <= self.replace_table_url@.len(),
                replace@.len() == i,
                forall|j: int|
                    0 <= j < i ==> (#[trigger] replace@[j])@ == self.replace_table_url@[j]@,
            decreases self.replace_table_url.len() - i,
        {
            let rule: &UrlReplaceRule = &self.replace_table_url[i];
            replace.push(ReplaceRule { from: rule.from.clone(), to: rule.to.clone() });
            i += 1;
        }
        let mut disable: Vec<DisableEntry> = Vec::new();
        i = 0;
        while i < self.disable_table_url.len()
            invariant
                i <= self.disable_table_url@.len(),
                disable@.len() == i,
                forall|j: int|
                    0 <= j < i ==> (#[trigger] disable@[j])@ == self.disable_table_url@[j]@,
            decreases self.disable_table_url.len() - i,
        {
            disable.push(DisableEntry { url: self.disable_table_url[i].clone() });
            i += 1;
        }
        let r = table::TableConfig { table, disable, replace };
        proof {
            let v = config_view(r);
            assert(v.table =~= views(self.add_table@));
            assert(v.replace =~= views(self.replace_table_url@));
            assert(v.disable =~= texts(self.disable_table_url@));
        }
        r
    }
}

/// The rules of a single-file configuration are what its entries say, in their order.
pub proof fn law_single_file_rules(config: TableConfig)
    ensures
        config.rules_view().table.len() == config.add_table@.len(),
        config.rules_view().replace.len() == config.replace_table_url@.len(),
        config.rules_view().disable.len() == config.disable_table_url@.len(),
        forall|i: int|
            0 <= i < config.add_table@.len() ==> {
                let added = #[trigger] config.rules_view().table[i];
                &&& added.name == config.add_table@[i].name@
                &&& added.symbol == config.add_table@[i].symbol@
                &&& added.url == config.add_table@[i].url@
                &&& added.extra == config.add_table@[i].extra@
            },
        forall|i: int|
            0 <= i < config.replace_table_url@.len() ==> {
                let rule = #[trigger] config.rules_view().replace[i];
                &&& rule.from == config.replace_table_url@[i].from@
                &&& rule.to == config.replace_table_url@[i].to@
            },
        forall|i: int|
            0 <= i < config.disable_table_url@.len() ==> #[trigger] config.rules_view().disable[i]
                == config.disable_table_url@[i]@,
{
}

/// An entry and the description made of it say the same.
pub proof fn law_added_table_and_description(entry: AddTableInfo, info: TableInfo)
    ensures
        <TableInfo as vstd::std_specs::convert::FromSpec<AddTableInfo>>::from_spec(entry)@ == entry@,
        <AddTableInfo as vstd::std_specs::convert::FromSpec<TableInfo>>::from_spec(info)@ == info@,
{
}

} // verus!
