//! Rules that add, replace and disable tables.

use vstd::prelude::*;

use crate::json::Json;
use crate::ordered::SortedMap;
use crate::sorting::views;
use crate::table::{TableInfo, TableInfoView};

verus! {

/// A rule that moves a table from one address to another.
pub struct ReplaceRule {
    /// Address to replace.
    pub from: String,
    /// Address to put in its place.
    pub to: String,
}

/// The mathematical rule.
#[verifier::ext_equal]
pub struct RuleView {
    pub from: Seq<char>,
    pub to: Seq<char>,
}

impl View for ReplaceRule {
    type V = RuleView;

    open spec fn view(&self) -> RuleView {
        RuleView { from: self.from@, to: self.to@ }
    }
}

/// A table to add, with metadata and a download address.
pub struct TableEntry {
    /// Human-readable table name.
    pub name: String,
    /// Address of the table's page.
    pub url: String,
    /// Short symbol for the table.
    pub symbol: String,
    /// All other fields.
    pub extra: SortedMap<Json>,
}

impl View for TableEntry {
    type V = TableInfoView;

    open spec fn view(&self) -> TableInfoView {
        TableInfoView {
            name: self.name@,
            symbol: self.symbol@,
            url: self.url@,
            extra: self.extra@,
        }
    }
}

impl From<TableEntry> for TableInfo {
    fn from(v: TableEntry) -> (r: TableInfo) {
        TableInfo { name: v.name, symbol: v.symbol, url: v.url, extra: v.extra }
    }
}

impl vstd::std_specs::convert::FromSpecImpl<TableEntry> for TableInfo {
    open spec fn obeys_from_spec() -> bool {
        true
    }

    open spec fn from_spec(v: TableEntry) -> TableInfo {
        TableInfo { name: v.name, symbol: v.symbol, url: v.url, extra: v.extra }
    }
}

impl From<TableInfo> for TableEntry {
    fn from(v: TableInfo) -> (r: TableEntry) {
        TableEntry { name: v.name, url: v.url, symbol: v.symbol, extra: v.extra }
    }
}

impl vstd::std_specs::convert::FromSpecImpl<TableInfo> for TableEntry {
    open spec fn obeys_from_spec() -> bool {
        true
    }

    open spec fn from_spec(v: TableInfo) -> TableEntry {
        TableEntry { name: v.name, url: v.url, symbol: v.symbol, extra: v.extra }
    }
}

/// A table to disable, identified by its address.
pub struct DisableEntry {
    /// Address of the table to disable.
    pub url: String,
}

impl View for DisableEntry {
    type V = Seq<char>;

    open spec fn view(&self) -> Seq<char> {
        self.url@
    }
}

/// Complete table configuration: added entries, disabled entries, and replace rules.
pub struct TableConfig {
    /// Table entries to add.
    pub table: Vec<TableEntry>,
    /// Entries to disable.
    pub disable: Vec<DisableEntry>,
    /// Replacement rules.
    pub replace: Vec<ReplaceRule>,
}

/// The mathematical configuration.
#[verifier::ext_equal]
pub struct ConfigView {
    pub table: Seq<TableInfoView>,
    pub replace: Seq<RuleView>,
    pub disable: Seq<Seq<char>>,
}

/// The rules of a configuration.
pub open spec fn config_view(config: TableConfig) -> ConfigView {
    ConfigView {
        table: views(config.table@),
        replace: views(config.replace@),
        disable: views(config.disable@),
    }
}

/// What a configuration says is what its entries say, in their order.
pub proof fn law_configuration_in_order(config: TableConfig)
    ensures
        config_view(config).table.len() == config.table@.len(),
        config_view(config).replace.len() == config.replace@.len(),
        config_view(config).disable.len() == config.disable@.len(),
        forall|i: int|
            0 <= i < config.table@.len() ==> {
                let added = #[trigger] config_view(config).table[i];
                &&& added.name == config.table@[i].name@
                &&& added.symbol == config.table@[i].symbol@
                &&& added.url == config.table@[i].url@
                &&& added.extra == config.table@[i].extra@
            },
        forall|i: int|
            0 <= i < config.replace@.len() ==> {
                let rule = #[trigger] config_view(config).replace[i];
                rule.from == config.replace@[i].from@ && rule.to == config.replace@[i].to@
            },
        forall|i: int|
            0 <= i < config.disable@.len() ==> #[trigger] config_view(config).disable[i]
                == config.disable@[i].url@,
{
}

/// An entry and the description made of it say the same.
pub proof fn law_entry_and_description(entry: TableEntry, info: TableInfo)
    ensures
        entry@.name == entry.name@ && entry@.symbol == entry.symbol@ && entry@.url == entry.url@
            && entry@.extra == entry.extra@,
        <TableInfo as vstd::std_specs::convert::FromSpec<TableEntry>>::from_spec(entry)@ == entry@,
        <TableEntry as vstd::std_specs::convert::FromSpec<TableInfo>>::from_spec(info)@ == info@,
{
}

} // verus!
