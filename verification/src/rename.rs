//! Directory names: what a table's directory is called, and how misnamed directories are
//! renamed.

use vstd::prelude::*;
use vstd::string::*;

use crate::filesystem::{collapse_underscores, is_clean_name, law_sanitized_is_clean, lemma_inner_settles, lemma_sanitized_brackets, safe_chars, sanitize_filename, sanitized};
use crate::ordered::{Dup, SortedMap};
use crate::table::{TableInfo, TableInfoView};
use crate::text::{chars_of, find_char, first_char, lemma_first_char, str_view, string_of, string_view, text_eq, text_of};

verus! {

// ---------------------------------------------------------------------
// Domains
// ---------------------------------------------------------------------

/// The domain of an address, where the text is an address that has one.
pub uninterp spec fn domain_of(url: Seq<char>) -> Option<Seq<char>>;

/// `url::Url::parse` and `Url::domain`: the domain in an address. A text that is no
/// address, and an address whose host is not a domain name, have none. Claims that the
/// result is a function of the text.
#[verifier::external_body]
pub(crate) fn url_domain(url: &str) -> (r: Option<String>)
    ensures
        string_view(r) == domain_of(url@),
{
    url::Url::parse(url).ok()?.domain().map(String::from)
}

// ---------------------------------------------------------------------
// Names
// ---------------------------------------------------------------------

/// What stands in square brackets at the start of a directory name.
pub open spec fn bracket_prefix(dir_name: Seq<char>) -> Option<Seq<char>> {
    if dir_name.len() > 0 && dir_name[0] == '[' {
        match first_char(dir_name, ']', 1) {
            Some(k) => Some(dir_name.subrange(1, k)),
            None => None,
        }
    } else {
        None
    }
}

/// The domain that a directory name shows: the table's own, else the one in brackets in
/// `fallback`, else `unknown.domain`.
pub open spec fn shown_domain(domain: Option<Seq<char>>, fallback: Option<Seq<char>>) -> Seq<
    char,
> {
    match domain {
        Some(d) => d,
        None => match fallback {
            Some(f) => match bracket_prefix(f) {
                Some(d) => d,
                None => "unknown.domain"@,
            },
            None => "unknown.domain"@,
        },
    }
}

/// The directory name of a table: its domain in brackets and its name, sanitised.
pub open spec fn named_dir(domain: Seq<char>, name: Seq<char>) -> Seq<char> {
    sanitized(seq!['['] + domain + seq![']', ' '] + name)
}

/// The directory name that a table description asks for.
pub open spec fn expected_name(info: TableInfoView, fallback: Option<Seq<char>>) -> Seq<char> {
    named_dir(shown_domain(domain_of(info.url), fallback), info.name)
}

/// A name without path separators, which is neither empty nor starts with a dot.
pub open spec fn is_plain_name(s: Seq<char>) -> bool {
    &&& s.len() > 0
    &&& s[0] != '.'
    &&& !s.contains('/')
    &&& !s.contains('\\')
}

proof fn lemma_named_dir(domain: Seq<char>, name: Seq<char>)
    ensures
        named_dir(domain, name) == seq!['['] + collapse_underscores(safe_chars(domain)) + seq![']']
            + sanitized(seq![' '] + name),
{
    lemma_sanitized_brackets(domain, seq![' '] + name);
    assert(seq!['['] + domain + seq![']'] + (seq![' '] + name) =~= seq!['['] + domain + seq![
        ']',
        ' ',
    ] + name);
}

proof fn lemma_prefix_of_bracketed(inner: Seq<char>, rest: Seq<char>)
    requires
        !inner.contains(']'),
    ensures
        bracket_prefix(seq!['['] + inner + seq![']'] + rest) == Some(inner),
{
    let s = seq!['['] + inner + seq![']'] + rest;
    lemma_first_char(s, ']', 1);
    assert(s[inner.len() as int + 1] == ']');
    let k = first_char(s, ']', 1);
    assert forall|i: int| 1 <= i < inner.len() + 1 implies s[i] != ']' by {
        assert(s[i] == inner[i - 1]);
        assert(inner.contains(inner[i - 1]));
    }
    assert(k == Some(inner.len() as int + 1));
    assert(s.subrange(1, inner.len() as int + 1) =~= inner);
}

proof fn lemma_bracket_prefix_has_no_bracket(name: Seq<char>)
    ensures
        bracket_prefix(name) matches Some(p) ==> !p.contains(']'),
{
    if name.len() > 0 && name[0] == '[' {
        lemma_first_char(name, ']', 1);
    }
}

/// A directory name is a plain file name: it starts with a bracket, is free of forbidden
/// characters and so of path separators.
pub proof fn law_dir_name_is_plain(domain: Seq<char>, name: Seq<char>)
    ensures
        named_dir(domain, name)[0] == '[',
        is_plain_name(named_dir(domain, name)),
        is_clean_name(named_dir(domain, name)),
{
    lemma_named_dir(domain, name);
    law_sanitized_is_clean(seq!['['] + domain + seq![']', ' '] + name);
    let s = named_dir(domain, name);
    assert forall|i: int| 0 <= i < s.len() implies s[i] != '/' && s[i] != '\\' by {
        assert(!crate::filesystem::is_forbidden(s[i]));
    }
}

/// A directory that has the name its table asks for keeps it: asking again, with that name
/// as the fallback, gives the same name.
pub proof fn law_dir_name_settles(
    domain: Option<Seq<char>>,
    fallback: Option<Seq<char>>,
    name: Seq<char>,
)
    ensures
        named_dir(
            shown_domain(domain, Some(named_dir(shown_domain(domain, fallback), name))),
            name,
        ) == named_dir(shown_domain(domain, fallback), name),
{
    let shown = shown_domain(domain, fallback);
    let first = named_dir(shown, name);
    if domain is None {
        let inner = collapse_underscores(safe_chars(shown));
        assert(!shown.contains(']')) by {
            reveal_strlit("unknown.domain");
            if fallback is Some {
                lemma_bracket_prefix_has_no_bracket(fallback->Some_0);
            }
        }
        lemma_named_dir(shown, name);
        lemma_inner_settles(shown);
        lemma_prefix_of_bracketed(inner, sanitized(seq![' '] + name));
        assert(shown_domain(None, Some(first)) == inner);
        lemma_named_dir(inner, name);
    }
}

/// The expected name of a directory does not depend on the name the directory has, once
/// it has an expected name.
pub proof fn law_expected_name_settles(info: TableInfoView, fallback: Option<Seq<char>>)
    ensures
        expected_name(info, Some(expected_name(info, fallback))) == expected_name(info, fallback),
{
    law_dir_name_settles(domain_of(info.url), fallback, info.name);
}

/// What stands in square brackets at the start of a directory name.
fn find_bracket_prefix(dir_name: &str) -> (r: Option<String>)
    ensures
        string_view(r) == bracket_prefix(dir_name@),
{
    let chars = chars_of(dir_name);
    if chars.len() > 0 && chars[0] == '[' {
        proof {
            lemma_first_char(dir_name@, ']', 1);
        }
        match find_char(&chars, ']', 1) {
            Some(k) => Some(string_of(&chars, 1, k)),
            None => None,
        }
    } else {
        None
    }
}

/// The directory name of a table with the given domain and name.
pub fn bracketed_dir_name(domain: &str, name: &str) -> (r: String)
    ensures
        r@ == named_dir(domain@, name@),
{
    let mut full = String::new();
    full.push('[');
    full.append(domain);
    full.push(']');
    full.push(' ');
    full.append(name);
    proof {
        assert(full@ =~= seq!['['] + domain@ + seq![']', ' '] + name@);
    }
    sanitize_filename(full.as_str())
}

/// The directory name of a table, given the domain of its address.
pub fn dir_name_with_domain(
    domain: Option<String>,
    name: &str,
    fallback_dir_name: Option<&str>,
) -> (r: String)
    ensures
        r@ == named_dir(shown_domain(string_view(domain), str_view(fallback_dir_name)), name@),
{
    match domain {
        Some(d) => bracketed_dir_name(d.as_str(), name),
        None => {
            let prefix: Option<String> = match fallback_dir_name {
                Some(f) => find_bracket_prefix(f),
                None => None,
            };
            match prefix {
                Some(d) => bracketed_dir_name(d.as_str(), name),
                None => bracketed_dir_name("unknown.domain", name),
            }
        },
    }
}

/// Compute the expected directory name from a table description.
///
/// The domain is that of `info.url`, else the one in brackets at the start of
/// `fallback_dir_name`, else `unknown.domain`.
pub fn expected_dir_name(info: &TableInfo, fallback_dir_name: Option<&str>) -> (r: String)
    ensures
        r@ == expected_name(info@, str_view(fallback_dir_name)),
{
    dir_name_with_domain(url_domain(info.url.as_str()), info.name.as_str(), fallback_dir_name)
}

// ---------------------------------------------------------------------
// Renames to make
// ---------------------------------------------------------------------

/// A pending directory rename, with paths relative to the table base directory.
pub struct RenameAction {
    /// Current path.
    pub old_path: String,
    /// Desired path.
    pub new_path: String,
}

/// The mathematical rename.
#[verifier::ext_equal]
pub struct RenameView {
    pub old_path: Seq<char>,
    pub new_path: Seq<char>,
}

impl View for RenameAction {
    type V = RenameView;

    open spec fn view(&self) -> RenameView {
        RenameView { old_path: self.old_path@, new_path: self.new_path@ }
    }
}

impl Dup for RenameAction {
    fn dup(&self) -> (r: RenameAction) {
        RenameAction { old_path: self.old_path.clone(), new_path: self.new_path.clone() }
    }
}

/// The renames of a list.
pub open spec fn rename_views(actions: Seq<RenameAction>) -> Seq<RenameView> {
    actions.map_values(|a: RenameAction| a@)
}

/// A directory and the description found in it.
#[verifier::ext_equal]
pub struct DirView {
    pub dir_name: Seq<char>,
    pub info: TableInfoView,
}

/// Access to what renames and orphan moves need of a directory entry.
pub trait DirInfo {
    /// The directory and its description.
    spec fn entry(&self) -> DirView;

    /// The actual directory name on disk.
    fn dir_name(&self) -> (r: &str)
        ensures
            r@ == self.entry().dir_name,
    ;

    /// The table description associated with this directory.
    fn info(&self) -> (r: &TableInfo)
        ensures
            r@ == self.entry().info,
    ;
}

/// The directories of a list of entries.
pub open spec fn dir_views<E: DirInfo>(entries: Seq<E>) -> Seq<DirView> {
    entries.map_values(|e: E| e.entry())
}

/// The rename that a directory needs to get the name `expected`.
pub open spec fn needed_rename(dir_name: Seq<char>, expected: Seq<char>) -> Option<RenameView> {
    if dir_name == expected {
        None
    } else {
        Some(RenameView { old_path: dir_name, new_path: expected })
    }
}

/// The description that decides a directory's name: the overlaid one for its address,
/// else its own.
pub open spec fn deciding_info(
    entry: DirView,
    overlaid: Option<Map<Seq<char>, TableInfoView>>,
) -> TableInfoView {
    match overlaid {
        Some(m) => if m.contains_key(entry.info.url) {
            m[entry.info.url]
        } else {
            entry.info
        },
        None => entry.info,
    }
}

/// The renames that a list of directories needs, in the order of the list.
pub open spec fn needed_renames(
    entries: Seq<DirView>,
    overlaid: Option<Map<Seq<char>, TableInfoView>>,
) -> Seq<RenameView>
    decreases entries.len(),
{
    if entries.len() == 0 {
        Seq::empty()
    } else {
        let before = needed_renames(entries.drop_last(), overlaid);
        let e = entries.last();
        match needed_rename(
            e.dir_name,
            expected_name(deciding_info(e, overlaid), Some(e.dir_name)),
        ) {
            Some(r) => before.push(r),
            None => before,
        }
    }
}

/// Every new path is a plain file name that differs from the old path, and is the
/// expected name of the directory at the old path.
pub proof fn law_renames_are_plain(
    entries: Seq<DirView>,
    overlaid: Option<Map<Seq<char>, TableInfoView>>,
    i: int,
)
    requires
        0 <= i < needed_renames(entries, overlaid).len(),
    ensures
        is_plain_name(needed_renames(entries, overlaid)[i].new_path),
        needed_renames(entries, overlaid)[i].new_path != needed_renames(entries, overlaid)[i].old_path,
        exists|j: int|
            0 <= j < entries.len() && (#[trigger] entries[j]).dir_name == needed_renames(
                entries,
                overlaid,
            )[i].old_path && needed_renames(entries, overlaid)[i].new_path == expected_name(
                deciding_info(entries[j], overlaid),
                Some(entries[j].dir_name),
            ),
    decreases entries.len(),
{
    let init = entries.drop_last();
    let e = entries.last();
    let before = needed_renames(init, overlaid);
    let all = needed_renames(entries, overlaid);
    if i < before.len() {
        law_renames_are_plain(init, overlaid, i);
        assert(all[i] == before[i]);
        let j = choose|j: int|
            0 <= j < init.len() && (#[trigger] init[j]).dir_name == before[i].old_path
                && before[i].new_path == expected_name(
                deciding_info(init[j], overlaid),
                Some(init[j].dir_name),
            );
        assert(entries[j] == init[j]);
    } else {
        let info = deciding_info(e, overlaid);
        law_dir_name_is_plain(shown_domain(domain_of(info.url), Some(e.dir_name)), info.name);
        assert(entries[entries.len() - 1] == e);
    }
}

/// The directory has the expected name of its table, whatever the name came from.
pub open spec fn is_reconciled(
    entry: DirView,
    overlaid: Option<Map<Seq<char>, TableInfoView>>,
) -> bool {
    exists|fallback: Option<Seq<char>>|
        entry.dir_name == #[trigger] expected_name(deciding_info(entry, overlaid), fallback)
}

/// Once every directory has its expected name, no rename is left to make.
pub proof fn law_reconciled_dirs_need_no_rename(
    entries: Seq<DirView>,
    overlaid: Option<Map<Seq<char>, TableInfoView>>,
)
    requires
        forall|i: int| 0 <= i < entries.len() ==> is_reconciled(#[trigger] entries[i], overlaid),
    ensures
        needed_renames(entries, overlaid) == Seq::<RenameView>::empty(),
    decreases entries.len(),
{
    if entries.len() > 0 {
        let init = entries.drop_last();
        let e = entries.last();
        assert forall|i: int| 0 <= i < init.len() implies is_reconciled(
            #[trigger] init[i],
            overlaid,
        ) by {
            assert(init[i] == entries[i]);
        }
        law_reconciled_dirs_need_no_rename(init, overlaid);
        let info = deciding_info(e, overlaid);
        assert(is_reconciled(entries[entries.len() - 1], overlaid));
        let fallback = choose|fallback: Option<Seq<char>>|
            e.dir_name == #[trigger] expected_name(info, fallback);
        law_expected_name_settles(info, fallback);
    }
}

/// The rename that a directory needs to get the name `expected`.
pub fn rename_needed(dir_name: &str, expected: String) -> (r: Option<RenameAction>)
    ensures
        match r {
            Some(action) => needed_rename(dir_name@, expected@) == Some(action@),
            None => needed_rename(dir_name@, expected@) is None,
        },
{
    if text_eq(dir_name, expected.as_str()) {
        None
    } else {
        Some(RenameAction { old_path: text_of(dir_name), new_path: expected })
    }
}

/// The view of an optional map of descriptions.
pub open spec fn overlay_view(overlaid: Option<&SortedMap<TableInfo>>) -> Option<
    Map<Seq<char>, TableInfoView>,
> {
    match overlaid {
        Some(m) => Some(m@),
        None => None,
    }
}

/// Compute which directories need renaming.
///
/// If `overlaid_info` is given, a directory whose address it holds is named by what it
/// says; any other directory by its own description.
pub fn compute_renames<E: DirInfo>(
    entries: &Vec<E>,
    overlaid_info: Option<&SortedMap<TableInfo>>,
) -> (r: Vec<RenameAction>)
    ensures
        rename_views(r@) == needed_renames(dir_views(entries@), overlay_view(overlaid_info)),
{
    let ghost all = dir_views(entries@);
    let ghost overlaid = overlay_view(overlaid_info);
    let mut actions: Vec<RenameAction> = Vec::new();
    let mut i: usize = 0;
    proof {
        assert(rename_views(actions@) =~= Seq::<RenameView>::empty());
    }
    while i < entries.len()
        invariant
            all == dir_views(entries@),
            overlaid == overlay_view(overlaid_info),
            i <= entries@.len(),
            rename_views(actions@) == needed_renames(all.take(i as int), overlaid),
        decreases entries.len() - i,
    {
        proof {
            assert(all.take(i + 1).drop_last() =~= all.take(i as int));
            assert(all.take(i + 1).last() == entries@[i as int].entry());
        }
        let own: &TableInfo = entries[i].info();
        let info: &TableInfo = match overlaid_info {
            Some(m) => match m.get(own.url.as_str()) {
                Some(found) => found,
                None => own,
            },
            None => own,
        };
        let expected: String = expected_dir_name(info, Some(entries[i].dir_name()));
        let ghost before = actions@;
        match rename_needed(entries[i].dir_name(), expected) {
            Some(action) => {
                actions.push(action);
                proof {
                    assert(rename_views(actions@) =~= rename_views(before).push(action@));
                }
            },
            None => {},
        }
        i += 1;
    }
    proof {
        assert(all.take(i as int) =~= all);
    }
    actions
}

/// The single rename of a directory from `old_name` to `new_name`; none where there is no
/// old name or the name stays the same.
pub fn rename_request(new_name: &str, old_name: Option<&str>) -> (r: Option<RenameAction>)
    ensures
        match (r, old_name) {
            (Some(action), Some(old)) => needed_rename(old@, new_name@) == Some(action@),
            (None, Some(old)) => needed_rename(old@, new_name@) is None,
            (None, None) => true,
            (Some(_), None) => false,
        },
{
    match old_name {
        Some(old) => rename_needed(old, text_of(new_name)),
        None => None,
    }
}

// ---------------------------------------------------------------------
// Making the renames
// ---------------------------------------------------------------------

/// What is asked next about the rename at hand.
#[derive(Clone, Copy, PartialEq, Eq, Structural)]
pub enum RenameStage {
    /// Whether the old path exists.
    CheckOld,
    /// Whether the new path exists.
    CheckNew,
    /// Whether the move succeeds.
    Move,
}

/// A list of renames in the course of being made: the renames before `at` are settled,
/// those that succeeded are in `executed`.
pub struct RenameRun {
    /// The renames to make.
    pub actions: Vec<RenameAction>,
    /// The rename at hand.
    pub at: usize,
    /// What is asked next about it.
    pub stage: RenameStage,
    /// The renames that succeeded.
    pub executed: Vec<RenameAction>,
    /// The renames that were not made because the new path was there already.
    pub blocked: Vec<RenameAction>,
}

/// The mathematical state of a run.
#[verifier::ext_equal]
pub struct RenameRunView {
    pub actions: Seq<RenameView>,
    pub at: int,
    pub stage: RenameStage,
    pub executed: Seq<RenameView>,
    pub blocked: Seq<RenameView>,
}

impl View for RenameRun {
    type V = RenameRunView;

    open spec fn view(&self) -> RenameRunView {
        RenameRunView {
            actions: rename_views(self.actions@),
            at: self.at as int,
            stage: self.stage,
            executed: rename_views(self.executed@),
            blocked: rename_views(self.blocked@),
        }
    }
}

/// What a run asks for: a probe or a move, answered with `true` or `false`.
pub enum RenameCommand {
    /// Does this path exist?
    Exists(String),
    /// Rename this path; did it succeed?
    Rename(RenameAction),
    /// Nothing is left to do.
    Finished,
}

/// The mathematical command.
#[verifier::ext_equal]
pub enum RenameCommandView {
    Exists(Seq<char>),
    Rename(RenameView),
    Finished,
}

impl View for RenameCommand {
    type V = RenameCommandView;

    open spec fn view(&self) -> RenameCommandView {
        match self {
            RenameCommand::Exists(p) => RenameCommandView::Exists(p@),
            RenameCommand::Rename(a) => RenameCommandView::Rename(a@),
            RenameCommand::Finished => RenameCommandView::Finished,
        }
    }
}

/// What a run asks for in a state.
pub open spec fn rename_command(run: RenameRunView) -> RenameCommandView {
    if 0 <= run.at < run.actions.len() {
        match run.stage {
            RenameStage::CheckOld => RenameCommandView::Exists(run.actions[run.at].old_path),
            RenameStage::CheckNew => RenameCommandView::Exists(run.actions[run.at].new_path),
            RenameStage::Move => RenameCommandView::Rename(run.actions[run.at]),
        }
    } else {
        RenameCommandView::Finished
    }
}

/// The run with the rename at hand settled.
pub open spec fn rename_settled(run: RenameRunView, success: bool) -> RenameRunView {
    RenameRunView {
        at: run.at + 1,
        stage: RenameStage::CheckOld,
        executed: if success {
            run.executed.push(run.actions[run.at])
        } else {
            run.executed
        },
        ..run
    }
}

/// The state after an answer. A missing old path and an existing new path both leave the
/// directory where it is; the latter is kept on record.
pub open spec fn rename_answered(run: RenameRunView, answer: bool) -> RenameRunView {
    match run.stage {
        RenameStage::CheckOld => if answer {
            RenameRunView { stage: RenameStage::CheckNew, ..run }
        } else {
            rename_settled(run, false)
        },
        RenameStage::CheckNew => if answer {
            RenameRunView {
                blocked: run.blocked.push(run.actions[run.at]),
                ..rename_settled(run, false)
            }
        } else {
            RenameRunView { stage: RenameStage::Move, ..run }
        },
        RenameStage::Move => rename_settled(run, answer),
    }
}

/// How many answers a run can still take at most.
pub open spec fn answers_left(run: RenameRunView) -> int {
    if 0 <= run.at < run.actions.len() {
        3 * (run.actions.len() - run.at) - (match run.stage {
            RenameStage::CheckOld => 0int,
            RenameStage::CheckNew => 1int,
            RenameStage::Move => 2int,
        })
    } else {
        0
    }
}

/// The end of a run in which the question at rename `i`, stage `s`, gets the answer
/// `world(i, s)`.
pub open spec fn rename_outcome(
    run: RenameRunView,
    world: spec_fn(int, RenameStage) -> bool,
) -> RenameRunView
    decreases answers_left(run),
{
    if 0 <= run.at < run.actions.len() {
        rename_outcome(rename_answered(run, world(run.at, run.stage)), world)
    } else {
        run
    }
}

/// Rename `i` goes through: the old path is there, the new one is not, and the move
/// succeeds.
pub open spec fn goes_through(world: spec_fn(int, RenameStage) -> bool, i: int) -> bool {
    world(i, RenameStage::CheckOld) && !world(i, RenameStage::CheckNew) && world(
        i,
        RenameStage::Move,
    )
}

/// The first `n` renames that go through, in order.
pub open spec fn successes(
    actions: Seq<RenameView>,
    world: spec_fn(int, RenameStage) -> bool,
    n: int,
) -> Seq<RenameView>
    decreases n,
{
    if n <= 0 {
        Seq::empty()
    } else if goes_through(world, n - 1) {
        successes(actions, world, n - 1).push(actions[n - 1])
    } else {
        successes(actions, world, n - 1)
    }
}

/// The renames among the first `n` whose old and new path were both there, in order.
pub open spec fn blocked_among(
    actions: Seq<RenameView>,
    world: spec_fn(int, RenameStage) -> bool,
    n: int,
) -> Seq<RenameView>
    decreases n,
{
    if n <= 0 {
        Seq::empty()
    } else if world(n - 1, RenameStage::CheckOld) && world(n - 1, RenameStage::CheckNew) {
        blocked_among(actions, world, n - 1).push(actions[n - 1])
    } else {
        blocked_among(actions, world, n - 1)
    }
}

proof fn lemma_rename_outcome(run: RenameRunView, world: spec_fn(int, RenameStage) -> bool)
    requires
        0 <= run.at <= run.actions.len(),
        run.stage == RenameStage::CheckOld,
        run.executed == successes(run.actions, world, run.at),
        run.blocked == blocked_among(run.actions, world, run.at),
    ensures
        rename_command(rename_outcome(run, world)) is Finished,
        rename_outcome(run, world).executed == successes(
            run.actions,
            world,
            run.actions.len() as int,
        ),
        rename_outcome(run, world).blocked == blocked_among(
            run.actions,
            world,
            run.actions.len() as int,
        ),
    decreases run.actions.len() - run.at,
{
    if run.at < run.actions.len() {
        let a = rename_answered(run, world(run.at, RenameStage::CheckOld));
        if world(run.at, RenameStage::CheckOld) {
            let b = rename_answered(a, world(run.at, RenameStage::CheckNew));
            if !world(run.at, RenameStage::CheckNew) {
                let c = rename_answered(b, world(run.at, RenameStage::Move));
                lemma_rename_outcome(c, world);
                assert(rename_outcome(b, world) == rename_outcome(c, world));
            } else {
                lemma_rename_outcome(b, world);
            }
            assert(rename_outcome(a, world) == rename_outcome(b, world));
        } else {
            lemma_rename_outcome(a, world);
        }
        assert(rename_outcome(run, world) == rename_outcome(a, world));
    }
}

/// Whatever the directory tree answers, a run ends, and what it reports as executed are
/// exactly the renames whose old path existed, whose new path did not, and whose move
/// succeeded, in order; and what it reports as blocked are exactly those whose old path and
/// whose new path both existed.
pub proof fn law_executed_renames(
    actions: Seq<RenameView>,
    world: spec_fn(int, RenameStage) -> bool,
)
    ensures
        ({
            let start = RenameRunView {
                actions,
                at: 0,
                stage: RenameStage::CheckOld,
                executed: Seq::empty(),
                blocked: Seq::empty(),
            };
            &&& rename_command(rename_outcome(start, world)) is Finished
            &&& rename_outcome(start, world).executed == successes(
                actions,
                world,
                actions.len() as int,
            )
            &&& rename_outcome(start, world).blocked == blocked_among(
                actions,
                world,
                actions.len() as int,
            )
        }),
{
    let start = RenameRunView {
        actions,
        at: 0,
        stage: RenameStage::CheckOld,
        executed: Seq::empty(),
        blocked: Seq::empty(),
    };
    lemma_rename_outcome(start, world);
}

/// Begins a run: execute a list of rename actions.
pub fn execute_renames(actions: Vec<RenameAction>) -> (r: RenameRun)
    ensures
        r@ == (RenameRunView {
            actions: rename_views(actions@),
            at: 0,
            stage: RenameStage::CheckOld,
            executed: Seq::empty(),
            blocked: Seq::empty(),
        }),
{
    let executed: Vec<RenameAction> = Vec::new();
    let blocked: Vec<RenameAction> = Vec::new();
    proof {
        assert(rename_views(executed@) =~= Seq::<RenameView>::empty());
        assert(rename_views(blocked@) =~= Seq::<RenameView>::empty());
    }
    RenameRun { actions, at: 0, stage: RenameStage::CheckOld, executed, blocked }
}

impl RenameRun {
    /// What the run asks for.
    pub fn command(&self) -> (r: RenameCommand)
        ensures
            r@ == rename_command(self@),
    {
        if self.at < self.actions.len() {
            match self.stage {
                RenameStage::CheckOld => RenameCommand::Exists(
                    self.actions[self.at].old_path.clone(),
                ),
                RenameStage::CheckNew => RenameCommand::Exists(
                    self.actions[self.at].new_path.clone(),
                ),
                RenameStage::Move => RenameCommand::Rename(self.actions[self.at].dup()),
            }
        } else {
            RenameCommand::Finished
        }
    }

    /// Takes the answer to what the run asked for; a finished run ignores it.
    pub fn answer(&mut self, answer: bool)
        ensures
            final(self)@ == if rename_command(old(self)@) is Finished {
                old(self)@
            } else {
                rename_answered(old(self)@, answer)
            },
    {
        if self.at >= self.actions.len() {
            return;
        }
        let ghost before = self.executed@;
        let ghost blocked_before = self.blocked@;
        match self.stage {
            RenameStage::CheckOld => {
                if answer {
                    self.stage = RenameStage::CheckNew;
                } else {
                    self.at = self.at + 1;
                }
            },
            RenameStage::CheckNew => {
                if answer {
                    let blocked: RenameAction = self.actions[self.at].dup();
                    self.blocked.push(blocked);
                    proof {
                        assert(rename_views(self.blocked@) =~= rename_views(blocked_before).push(
                            blocked@,
                        ));
                    }
                    self.at = self.at + 1;
                    self.stage = RenameStage::CheckOld;
                } else {
                    self.stage = RenameStage::Move;
                }
            },
            RenameStage::Move => {
                if answer {
                    let done: RenameAction = self.actions[self.at].dup();
                    self.executed.push(done);
                    proof {
                        assert(rename_views(self.executed@) =~= rename_views(before).push(done@));
                    }
                }
                self.at = self.at + 1;
                self.stage = RenameStage::CheckOld;
            },
        }
    }
}

// ---------------------------------------------------------------------
// Names after renaming
// ---------------------------------------------------------------------

/// The name of a directory after the executed renames: the new path of the first rename
/// of it, else the name it had.
pub open spec fn name_after(dir_name: Seq<char>, executed: Seq<RenameView>) -> Seq<char>
    decreases executed.len(),
{
    if executed.len() == 0 {
        dir_name
    } else if executed[0].old_path == dir_name {
        executed[0].new_path
    } else {
        name_after(dir_name, executed.skip(1))
    }
}

/// A directory that no executed rename moved keeps its name.
pub proof fn law_unmoved_dir_keeps_name(dir_name: Seq<char>, executed: Seq<RenameView>)
    requires
        forall|i: int| 0 <= i < executed.len() ==> (#[trigger] executed[i]).old_path != dir_name,
    ensures
        name_after(dir_name, executed) == dir_name,
    decreases executed.len(),
{
    if executed.len() > 0 {
        let rest = executed.skip(1);
        assert(executed[0].old_path != dir_name);
        assert forall|i: int| 0 <= i < rest.len() implies (#[trigger] rest[i]).old_path
            != dir_name by {
            assert(rest[i] == executed[i + 1]);
        }
        law_unmoved_dir_keeps_name(dir_name, rest);
    }
}

/// The name of a directory after the executed renames.
pub fn renamed_dir_name(dir_name: &str, executed: &Vec<RenameAction>) -> (r: String)
    ensures
        r@ == name_after(dir_name@, rename_views(executed@)),
{
    let ghost all = rename_views(executed@);
    let mut i: usize = 0;
    proof {
        assert(all.skip(0) =~= all);
    }
    while i < executed.len()
        invariant
            all == rename_views(executed@),
            i <= executed@.len(),
            name_after(dir_name@, all) == name_after(dir_name@, all.skip(i as int)),
        decreases executed.len() - i,
    {
        proof {
            assert(all.skip(i as int)[0] == executed@[i as int]@);
            assert(all.skip(i as int).skip(1) =~= all.skip(i + 1));
        }
        if text_eq(executed[i].old_path.as_str(), dir_name) {
            return executed[i].new_path.clone();
        }
        i += 1;
    }
    text_of(dir_name)
}

proof fn lemma_name_after_push(
    dir_name: Seq<char>,
    executed: Seq<RenameView>,
    r: RenameView,
)
    ensures
        r.old_path != dir_name ==> name_after(dir_name, executed.push(r)) == name_after(
            dir_name,
            executed,
        ),
        r.old_path == dir_name && (forall|i: int|
            0 <= i < executed.len() ==> (#[trigger] executed[i]).old_path != dir_name)
            ==> name_after(dir_name, executed.push(r)) == r.new_path,
    decreases executed.len(),
{
    let more = executed.push(r);
    if executed.len() == 0 {
        assert(more.skip(1) =~= Seq::<RenameView>::empty());
        assert(name_after(dir_name, more.skip(1)) == dir_name);
    } else {
        assert(more[0] == executed[0]);
        assert(more.skip(1) =~= executed.skip(1).push(r));
        lemma_name_after_push(dir_name, executed.skip(1), r);
        assert(executed.skip(1).len() == executed.len() - 1);
        if forall|i: int| 0 <= i < executed.len() ==> (#[trigger] executed[i]).old_path != dir_name {
            assert forall|i: int| 0 <= i < executed.skip(1).len() implies (
            #[trigger] executed.skip(1)[i]).old_path != dir_name by {
                assert(executed.skip(1)[i] == executed[i + 1]);
            }
        }
    }
}

/// No two directories have the same name.
pub open spec fn distinct_dirs(entries: Seq<DirView>) -> bool {
    forall|i: int, j: int|
        0 <= i < j < entries.len() ==> (#[trigger] entries[i]).dir_name != (#[trigger] entries[j]).dir_name
}

proof fn lemma_renamed(
    entries: Seq<DirView>,
    overlaid: Option<Map<Seq<char>, TableInfoView>>,
    i: int,
)
    requires
        distinct_dirs(entries),
        0 <= i < entries.len(),
    ensures
        name_after(entries[i].dir_name, needed_renames(entries, overlaid)) == expected_name(
            deciding_info(entries[i], overlaid),
            Some(entries[i].dir_name),
        ),
    decreases entries.len(),
{
    let init = entries.drop_last();
    let last = entries.last();
    let before = needed_renames(init, overlaid);
    let d = entries[i].dir_name;
    let needed = needed_rename(
        last.dir_name,
        expected_name(deciding_info(last, overlaid), Some(last.dir_name)),
    );
    assert(distinct_dirs(init)) by {
        assert forall|a: int, b: int| 0 <= a < b < init.len() implies (#[trigger] init[a]).dir_name
            != (#[trigger] init[b]).dir_name by {
            assert(init[a] == entries[a] && init[b] == entries[b]);
        }
    }
    if i < init.len() {
        assert(init[i] == entries[i]);
        lemma_renamed(init, overlaid, i);
        assert(entries[entries.len() - 1] == last);
        assert(d != last.dir_name);
        if needed is Some {
            lemma_name_after_push(d, before, needed->Some_0);
        }
    } else {
        assert forall|k: int| 0 <= k < before.len() implies (#[trigger] before[k]).old_path != d by {
            law_renames_are_plain(init, overlaid, k);
            let j = choose|j: int|
                0 <= j < init.len() && (#[trigger] init[j]).dir_name == before[k].old_path
                    && before[k].new_path == expected_name(
                    deciding_info(init[j], overlaid),
                    Some(init[j].dir_name),
                );
            assert(entries[j] == init[j]);
            assert(entries[j].dir_name != entries[i].dir_name);
        }
        law_unmoved_dir_keeps_name(d, before);
        if needed is Some {
            lemma_name_after_push(d, before, needed->Some_0);
        }
    }
}

/// The directories as they are once all renames of a list have gone through.
pub open spec fn dirs_after(entries: Seq<DirView>, executed: Seq<RenameView>) -> Seq<DirView> {
    entries.map_values(
        |e: DirView| DirView { dir_name: name_after(e.dir_name, executed), ..e },
    )
}

/// Reconciling settles: where all renames that a walk asks for go through, the next walk
/// asks for none.
pub proof fn law_reconciling_settles(
    entries: Seq<DirView>,
    overlaid: Option<Map<Seq<char>, TableInfoView>>,
)
    requires
        distinct_dirs(entries),
    ensures
        needed_renames(dirs_after(entries, needed_renames(entries, overlaid)), overlaid)
            == Seq::<RenameView>::empty(),
{
    let executed = needed_renames(entries, overlaid);
    let after = dirs_after(entries, executed);
    assert forall|i: int| 0 <= i < after.len() implies is_reconciled(
        #[trigger] after[i],
        overlaid,
    ) by {
        lemma_renamed(entries, overlaid, i);
        assert(deciding_info(after[i], overlaid) == deciding_info(entries[i], overlaid));
        assert(after[i].dir_name == expected_name(
            deciding_info(after[i], overlaid),
            Some(entries[i].dir_name),
        ));
    }
    law_reconciled_dirs_need_no_rename(after, overlaid);
}

// ---------------------------------------------------------------------
// What names, renames and runs come to
// ---------------------------------------------------------------------

/// What stands in brackets at the start of a name goes up to the first closing bracket.
pub proof fn law_bracketed_prefix(inner: Seq<char>, rest: Seq<char>)
    requires
        !inner.contains(']'),
    ensures
        bracket_prefix("["@ + inner + "]"@ + rest) == Some(inner),
{
    reveal_strlit("[");
    reveal_strlit("]");
    assert("["@ =~= seq!['[']);
    assert("]"@ =~= seq![']']);
    lemma_prefix_of_bracketed(inner, rest);
}

/// A name that does not start with a bracket, or in which none is closed, has no such prefix.
pub proof fn law_no_bracketed_prefix(name: Seq<char>)
    requires
        name.len() == 0 || name[0] != '[' || !name.contains(']'),
    ensures
        bracket_prefix(name) is None,
{
    if name.len() > 0 && name[0] == '[' {
        lemma_first_char(name, ']', 1);
        if first_char(name, ']', 1) is Some {
            assert(name.contains(name[first_char(name, ']', 1)->Some_0]));
        }
    }
}

/// A directory is named after its table: the domain of the table's address in brackets, a
/// blank and the table's name, sanitised. Where the address has no domain, the one in
/// brackets at the start of the present name stands in its place, and where there is none
/// either, `unknown.domain`.
pub proof fn law_expected_names(info: TableInfoView, dir_name: Seq<char>, d: Seq<char>)
    ensures
        domain_of(info.url) == Some(d) ==> expected_name(info, None) == sanitized(
            "["@ + d + "] "@ + info.name,
        ),
        domain_of(info.url) == Some(d) ==> expected_name(info, Some(dir_name)) == sanitized(
            "["@ + d + "] "@ + info.name,
        ),
        domain_of(info.url) is None && bracket_prefix(dir_name) == Some(d) ==> expected_name(
            info,
            Some(dir_name),
        ) == sanitized("["@ + d + "] "@ + info.name),
        domain_of(info.url) is None && bracket_prefix(dir_name) is None ==> expected_name(
            info,
            Some(dir_name),
        ) == sanitized("[unknown.domain] "@ + info.name),
        domain_of(info.url) is None ==> expected_name(info, None) == sanitized(
            "[unknown.domain] "@ + info.name,
        ),
{
    law_named_directory(d, info.name);
    law_named_directory("unknown.domain"@, info.name);
    reveal_strlit("[unknown.domain] ");
    reveal_strlit("unknown.domain");
    reveal_strlit("[");
    reveal_strlit("] ");
    assert("[unknown.domain] "@ =~= "["@ + "unknown.domain"@ + "] "@);
}

/// A directory name is the domain in brackets, a blank and the name, sanitised.
pub proof fn law_named_directory(domain: Seq<char>, name: Seq<char>)
    ensures
        named_dir(domain, name) == sanitized("["@ + domain + "] "@ + name),
{
    reveal_strlit("[");
    reveal_strlit("] ");
    assert("["@ =~= seq!['[']);
    assert("] "@ =~= seq![']', ' ']);
}

/// The domain shown is the one given, else the one in brackets in the present name, else
/// `unknown.domain`.
pub proof fn law_shown_domain(domain: Seq<char>, dir_name: Seq<char>)
    ensures
        shown_domain(Some(domain), None) == domain,
        shown_domain(Some(domain), Some(dir_name)) == domain,
        bracket_prefix(dir_name) is Some ==> shown_domain(None, Some(dir_name)) == bracket_prefix(
            dir_name,
        )->Some_0,
        bracket_prefix(dir_name) is None ==> shown_domain(None, Some(dir_name))
            == "unknown.domain"@,
        shown_domain(None, None) == "unknown.domain"@,
{
}

/// A directory is renamed exactly where its name is not the one it should have, from the one
/// name to the other.
pub proof fn law_needed_rename(dir_name: Seq<char>, expected: Seq<char>)
    ensures
        dir_name == expected ==> needed_rename(dir_name, expected) is None,
        dir_name != expected ==> {
            &&& needed_rename(dir_name, expected) is Some
            &&& needed_rename(dir_name, expected)->Some_0.old_path == dir_name
            &&& needed_rename(dir_name, expected)->Some_0.new_path == expected
        },
{
}

/// One more directory brings at most one more rename, behind those before it: to the name
/// that the overlaid description of its address asks for, where there is one, else to the one
/// that its own asks for.
pub proof fn law_renames_of_one_more_directory(
    entries: Seq<DirView>,
    entry: DirView,
    overlaid: Map<Seq<char>, TableInfoView>,
)
    ensures
        needed_renames(Seq::empty(), Some(overlaid)).len() == 0,
        needed_renames(Seq::empty(), None).len() == 0,
        ({
            let info = if overlaid.contains_key(entry.info.url) {
                overlaid[entry.info.url]
            } else {
                entry.info
            };
            let name = expected_name(info, Some(entry.dir_name));
            let before = needed_renames(entries, Some(overlaid));
            let after = needed_renames(entries.push(entry), Some(overlaid));
            if name == entry.dir_name {
                after == before
            } else {
                after == before.push(RenameView { old_path: entry.dir_name, new_path: name })
            }
        }),
        ({
            let name = expected_name(entry.info, Some(entry.dir_name));
            let before = needed_renames(entries, None);
            let after = needed_renames(entries.push(entry), None);
            if name == entry.dir_name {
                after == before
            } else {
                after == before.push(RenameView { old_path: entry.dir_name, new_path: name })
            }
        }),
{
    assert(entries.push(entry).drop_last() =~= entries);
}

/// Renames, directories and the overlaid descriptions are what their parts hold, in order.
pub proof fn law_renames_by_field<E: DirInfo>(
    action: RenameAction,
    actions: Seq<RenameAction>,
    entries: Seq<E>,
    overlaid: &SortedMap<TableInfo>,
    i: int,
)
    ensures
        action@.old_path == action.old_path@,
        action@.new_path == action.new_path@,
        rename_views(actions).len() == actions.len(),
        0 <= i < actions.len() ==> rename_views(actions)[i] == actions[i]@,
        dir_views(entries).len() == entries.len(),
        0 <= i < entries.len() ==> dir_views(entries)[i] == entries[i].entry(),
        overlay_view(Some(overlaid)) == Some(overlaid@),
        overlay_view(None) is None,
{
}

/// A run asks first whether the old path of the rename at hand exists, then whether its new
/// path does, then for the rename itself; with no rename at hand it asks for nothing.
pub proof fn law_rename_questions(run: RenameRunView)
    requires
        0 <= run.at,
    ensures
        run.at >= run.actions.len() ==> rename_command(run) is Finished,
        run.at < run.actions.len() && run.stage == RenameStage::CheckOld ==> rename_command(run)
            == RenameCommandView::Exists(run.actions[run.at].old_path),
        run.at < run.actions.len() && run.stage == RenameStage::CheckNew ==> rename_command(run)
            == RenameCommandView::Exists(run.actions[run.at].new_path),
        run.at < run.actions.len() && run.stage == RenameStage::Move ==> rename_command(run)
            == RenameCommandView::Rename(run.actions[run.at]),
{
}

/// After each answer a run goes on as it should: a rename whose old path is missing is passed
/// over, one whose new path exists is put on record as blocked, one that succeeds as executed,
/// and one that fails as neither; the list of renames never changes.
pub proof fn law_rename_answers(run: RenameRunView)
    requires
        0 <= run.at < run.actions.len(),
    ensures
        forall|answer: bool|
            ({
                let next = #[trigger] rename_answered(run, answer);
                &&& next.actions == run.actions
                &&& run.stage == RenameStage::CheckOld ==> next.executed == run.executed
                    && next.blocked == run.blocked && if answer {
                    next.at == run.at && next.stage == RenameStage::CheckNew
                } else {
                    next.at == run.at + 1 && next.stage == RenameStage::CheckOld
                }
                &&& run.stage == RenameStage::CheckNew ==> next.executed == run.executed && if answer {
                    &&& next.at == run.at + 1
                    &&& next.stage == RenameStage::CheckOld
                    &&& next.blocked == run.blocked.push(run.actions[run.at])
                } else {
                    &&& next.at == run.at
                    &&& next.stage == RenameStage::Move
                    &&& next.blocked == run.blocked
                }
                &&& run.stage == RenameStage::Move ==> {
                    &&& next.at == run.at + 1
                    &&& next.stage == RenameStage::CheckOld
                    &&& next.blocked == run.blocked
                    &&& next.executed == if answer {
                        run.executed.push(run.actions[run.at])
                    } else {
                        run.executed
                    }
                }
            }),
{
}

/// The state of a run and what it asks for are what their parts hold.
pub proof fn law_rename_run_by_field(run: RenameRun, path: String, action: RenameAction)
    ensures
        run@.actions == rename_views(run.actions@),
        run@.at == run.at,
        run@.stage == run.stage,
        run@.executed == rename_views(run.executed@),
        run@.blocked == rename_views(run.blocked@),
        RenameCommand::Exists(path)@ == RenameCommandView::Exists(path@),
        RenameCommand::Rename(action)@ == RenameCommandView::Rename(action@),
        RenameCommand::Finished@ == RenameCommandView::Finished,
{
}

/// A rename is among the executed exactly where its old path was there, its new path was not
/// and the move succeeded, and among the blocked where both paths were there; the order is
/// that of the list.
pub proof fn law_executed_and_blocked(
    actions: Seq<RenameView>,
    world: spec_fn(int, RenameStage) -> bool,
    n: int,
)
    requires
        0 <= n < actions.len(),
    ensures
        successes(actions, world, 0).len() == 0,
        blocked_among(actions, world, 0).len() == 0,
        world(n, RenameStage::CheckOld) && !world(n, RenameStage::CheckNew) && world(
            n,
            RenameStage::Move,
        ) ==> successes(actions, world, n + 1) == successes(actions, world, n).push(actions[n]),
        !world(n, RenameStage::CheckOld) || world(n, RenameStage::CheckNew) || !world(
            n,
            RenameStage::Move,
        ) ==> successes(actions, world, n + 1) == successes(actions, world, n),
        world(n, RenameStage::CheckOld) && world(n, RenameStage::CheckNew) ==> blocked_among(
            actions,
            world,
            n + 1,
        ) == blocked_among(actions, world, n).push(actions[n]),
        !world(n, RenameStage::CheckOld) || !world(n, RenameStage::CheckNew) ==> blocked_among(
            actions,
            world,
            n + 1,
        ) == blocked_among(actions, world, n),
{
}

/// A directory has the new name of the first executed rename of it.
pub proof fn law_moved_dir_has_new_name(dir_name: Seq<char>, executed: Seq<RenameView>, i: int)
    requires
        0 <= i < executed.len(),
        executed[i].old_path == dir_name,
        forall|j: int| 0 <= j < i ==> (#[trigger] executed[j]).old_path != dir_name,
    ensures
        name_after(dir_name, executed) == executed[i].new_path,
    decreases executed.len(),
{
    if i > 0 {
        let rest = executed.skip(1);
        assert(executed[0].old_path != dir_name);
        assert forall|j: int| 0 <= j < i - 1 implies (#[trigger] rest[j]).old_path != dir_name by {
            assert(rest[j] == executed[j + 1]);
        }
        law_moved_dir_has_new_name(dir_name, rest, i - 1);
    }
}

/// After the executed renames each directory has its new name and its own description, in
/// the order of before.
pub proof fn law_directories_after_renames(
    entries: Seq<DirView>,
    executed: Seq<RenameView>,
    i: int,
)
    ensures
        dirs_after(entries, executed).len() == entries.len(),
        0 <= i < entries.len() ==> dirs_after(entries, executed)[i].dir_name == name_after(
            entries[i].dir_name,
            executed,
        ),
        0 <= i < entries.len() ==> dirs_after(entries, executed)[i].info == entries[i].info,
{
}

} // verus!
