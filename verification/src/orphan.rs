//! Orphan handling: directories whose table is no longer active move to `_orphaned/`.

use vstd::prelude::*;
use vstd::string::*;

use crate::ordered::NameSet;
use crate::rename::{dir_views, distinct_dirs, DirInfo, DirView};
use crate::text::text_of;

verus! {

/// A pending move to `_orphaned/`.
pub struct OrphanAction {
    /// Current path, relative to the table base directory.
    pub src_path: String,
}

impl View for OrphanAction {
    type V = Seq<char>;

    open spec fn view(&self) -> Seq<char> {
        self.src_path@
    }
}

/// The paths of a list of moves.
pub open spec fn orphan_paths(actions: Seq<OrphanAction>) -> Seq<Seq<char>> {
    actions.map_values(|a: OrphanAction| a@)
}

/// The directories whose table is not active, in order.
pub open spec fn orphaned_dirs(entries: Seq<DirView>, active: Set<Seq<char>>) -> Seq<Seq<char>>
    decreases entries.len(),
{
    if entries.len() == 0 {
        Seq::empty()
    } else {
        let before = orphaned_dirs(entries.drop_last(), active);
        if active.contains(entries.last().info.url) {
            before
        } else {
            before.push(entries.last().dir_name)
        }
    }
}

/// What is moved is a directory whose table is not active.
pub proof fn law_orphans_are_inactive(entries: Seq<DirView>, active: Set<Seq<char>>, i: int)
    requires
        0 <= i < orphaned_dirs(entries, active).len(),
    ensures
        exists|j: int|
            0 <= j < entries.len() && (#[trigger] entries[j]).dir_name == orphaned_dirs(
                entries,
                active,
            )[i] && !active.contains(entries[j].info.url),
    decreases entries.len(),
{
    let init = entries.drop_last();
    let before = orphaned_dirs(init, active);
    let all = orphaned_dirs(entries, active);
    if i < before.len() {
        law_orphans_are_inactive(init, active, i);
        let j = choose|j: int|
            0 <= j < init.len() && (#[trigger] init[j]).dir_name == before[i] && !active.contains(
                init[j].info.url,
            );
        assert(entries[j] == init[j]);
        assert(all[i] == before[i]);
    } else {
        assert(entries[entries.len() - 1].dir_name == all[i]);
    }
}

/// Every directory whose table is not active is an orphan.
pub proof fn law_inactive_dirs_are_orphaned(entries: Seq<DirView>, active: Set<Seq<char>>, j: int)
    requires
        0 <= j < entries.len(),
        !active.contains(entries[j].info.url),
    ensures
        orphaned_dirs(entries, active).contains(entries[j].dir_name),
    decreases entries.len(),
{
    let init = entries.drop_last();
    let before = orphaned_dirs(init, active);
    let all = orphaned_dirs(entries, active);
    if j < init.len() {
        assert(init[j] == entries[j]);
        law_inactive_dirs_are_orphaned(init, active, j);
        let k = choose|k: int| 0 <= k < before.len() && before[k] == entries[j].dir_name;
        assert(all[k] == before[k]);
    } else {
        assert(all[all.len() - 1] == entries[j].dir_name);
    }
}

/// A directory of an active table is never moved, as no two directories have the same
/// name.
pub proof fn law_active_dirs_stay(entries: Seq<DirView>, active: Set<Seq<char>>, j: int)
    requires
        distinct_dirs(entries),
        0 <= j < entries.len(),
        active.contains(entries[j].info.url),
    ensures
        !orphaned_dirs(entries, active).contains(entries[j].dir_name),
{
    let all = orphaned_dirs(entries, active);
    if all.contains(entries[j].dir_name) {
        let i = choose|i: int| 0 <= i < all.len() && all[i] == entries[j].dir_name;
        law_orphans_are_inactive(entries, active, i);
        let k = choose|k: int|
            0 <= k < entries.len() && (#[trigger] entries[k]).dir_name == all[i]
                && !active.contains(entries[k].info.url);
        if j < k {
            assert(entries[j].dir_name != entries[k].dir_name);
        } else if k < j {
            assert(entries[k].dir_name != entries[j].dir_name);
        }
    }
}

/// Compute which directories should be moved to `_orphaned/`: those whose address is not
/// in `active_urls`.
pub fn compute_orphans<E: DirInfo>(entries: &Vec<E>, active_urls: &NameSet) -> (r: Vec<
    OrphanAction,
>)
    ensures
        orphan_paths(r@) == orphaned_dirs(dir_views(entries@), active_urls@),
{
    let ghost all = dir_views(entries@);
    let mut actions: Vec<OrphanAction> = Vec::new();
    let mut i: usize = 0;
    proof {
        assert(orphan_paths(actions@) =~= Seq::<Seq<char>>::empty());
    }
    while i < entries.len()
        invariant
            all == dir_views(entries@),
            i <= entries@.len(),
            orphan_paths(actions@) == orphaned_dirs(all.take(i as int), active_urls@),
        decreases entries.len() - i,
    {
        proof {
            assert(all.take(i + 1).drop_last() =~= all.take(i as int));
            assert(all.take(i + 1).last() == entries@[i as int].entry());
        }
        let info = entries[i].info();
        if !active_urls.contains(info.url.as_str()) {
            let ghost before = actions@;
            let action = OrphanAction { src_path: text_of(entries[i].dir_name()) };
            actions.push(action);
            proof {
                assert(orphan_paths(actions@) =~= orphan_paths(before).push(action@));
            }
        }
        i += 1;
    }
    proof {
        assert(all.take(i as int) =~= all);
    }
    actions
}

// ---------------------------------------------------------------------
// Making the moves
// ---------------------------------------------------------------------

/// What is asked next about the moves.
#[derive(Clone, Copy, PartialEq, Eq, Structural)]
pub enum OrphanStage {
    /// Whether `_orphaned/` can be made.
    Prepare,
    /// Whether the directory is there.
    CheckSource,
    /// Whether an older orphan of the same name is there.
    CheckTarget,
    /// That the older orphan be removed; the answer does not matter.
    RemoveTarget,
    /// Whether the move succeeds.
    Move,
    /// Nothing.
    Done,
}

/// A list of orphan moves in the course of being made.
pub struct OrphanRun {
    /// The moves to make.
    pub actions: Vec<OrphanAction>,
    /// The move at hand.
    pub at: usize,
    /// What is asked next.
    pub stage: OrphanStage,
    /// The moves that succeeded.
    pub moved: Vec<OrphanAction>,
}

/// The mathematical state of a run.
#[verifier::ext_equal]
pub struct OrphanRunView {
    pub actions: Seq<Seq<char>>,
    pub at: int,
    pub stage: OrphanStage,
    pub moved: Seq<Seq<char>>,
}

impl View for OrphanRun {
    type V = OrphanRunView;

    open spec fn view(&self) -> OrphanRunView {
        OrphanRunView {
            actions: orphan_paths(self.actions@),
            at: self.at as int,
            stage: self.stage,
            moved: orphan_paths(self.moved@),
        }
    }
}

/// What a run asks for, answered with `true` or `false`.
pub enum OrphanCommand {
    /// Create this directory; is it there now?
    CreateDir(String),
    /// Does this path exist?
    Exists(String),
    /// Remove this directory.
    Remove(String),
    /// Rename the first path to the second; did it succeed?
    Rename(String, String),
    /// Nothing is left to do.
    Finished,
}

/// The mathematical command.
#[verifier::ext_equal]
pub enum OrphanCommandView {
    CreateDir(Seq<char>),
    Exists(Seq<char>),
    Remove(Seq<char>),
    Rename(Seq<char>, Seq<char>),
    Finished,
}

impl View for OrphanCommand {
    type V = OrphanCommandView;

    open spec fn view(&self) -> OrphanCommandView {
        match self {
            OrphanCommand::CreateDir(p) => OrphanCommandView::CreateDir(p@),
            OrphanCommand::Exists(p) => OrphanCommandView::Exists(p@),
            OrphanCommand::Remove(p) => OrphanCommandView::Remove(p@),
            OrphanCommand::Rename(a, b) => OrphanCommandView::Rename(a@, b@),
            OrphanCommand::Finished => OrphanCommandView::Finished,
        }
    }
}

/// Where an orphan goes.
pub open spec fn orphan_target(path: Seq<char>) -> Seq<char> {
    "_orphaned/"@ + path
}

/// A run that has nothing left to ask for.
pub open spec fn orphan_finished(run: OrphanRunView) -> bool {
    run.stage == OrphanStage::Done || !(0 <= run.at < run.actions.len())
}

/// What a run asks for in a state.
pub open spec fn orphan_command(run: OrphanRunView) -> OrphanCommandView {
    if orphan_finished(run) {
        OrphanCommandView::Finished
    } else {
        let path = run.actions[run.at];
        match run.stage {
            OrphanStage::Prepare => OrphanCommandView::CreateDir("_orphaned"@),
            OrphanStage::CheckSource => OrphanCommandView::Exists(path),
            OrphanStage::CheckTarget => OrphanCommandView::Exists(orphan_target(path)),
            OrphanStage::RemoveTarget => OrphanCommandView::Remove(orphan_target(path)),
            OrphanStage::Move => OrphanCommandView::Rename(path, orphan_target(path)),
            OrphanStage::Done => OrphanCommandView::Finished,
        }
    }
}

/// The run with the move at hand settled.
pub open spec fn orphan_settled(run: OrphanRunView, success: bool) -> OrphanRunView {
    OrphanRunView {
        at: run.at + 1,
        stage: if run.at + 1 < run.actions.len() {
            OrphanStage::CheckSource
        } else {
            OrphanStage::Done
        },
        moved: if success {
            run.moved.push(run.actions[run.at])
        } else {
            run.moved
        },
        ..run
    }
}

/// The state after an answer. Where `_orphaned/` cannot be made nothing is moved; a
/// missing directory is passed over; an older orphan of the same name is removed first.
pub open spec fn orphan_answered(run: OrphanRunView, answer: bool) -> OrphanRunView {
    match run.stage {
        OrphanStage::Prepare => OrphanRunView {
            stage: if answer {
                OrphanStage::CheckSource
            } else {
                OrphanStage::Done
            },
            ..run
        },
        OrphanStage::CheckSource => if answer {
            OrphanRunView { stage: OrphanStage::CheckTarget, ..run }
        } else {
            orphan_settled(run, false)
        },
        OrphanStage::CheckTarget => OrphanRunView {
            stage: if answer {
                OrphanStage::RemoveTarget
            } else {
                OrphanStage::Move
            },
            ..run
        },
        OrphanStage::RemoveTarget => OrphanRunView { stage: OrphanStage::Move, ..run },
        OrphanStage::Move => orphan_settled(run, answer),
        OrphanStage::Done => run,
    }
}

/// The start of a run.
pub open spec fn orphan_start(actions: Seq<Seq<char>>) -> OrphanRunView {
    OrphanRunView {
        actions,
        at: 0,
        stage: if actions.len() == 0 {
            OrphanStage::Done
        } else {
            OrphanStage::Prepare
        },
        moved: Seq::empty(),
    }
}

/// How many answers a run can still take at most.
pub open spec fn orphan_answers_left(run: OrphanRunView) -> int {
    5 * (run.actions.len() - run.at) + (match run.stage {
        OrphanStage::Prepare => 5int,
        OrphanStage::CheckSource => 4int,
        OrphanStage::CheckTarget => 3int,
        OrphanStage::RemoveTarget => 2int,
        OrphanStage::Move => 1int,
        OrphanStage::Done => 0int,
    })
}

/// The end of a run in which the question at move `i`, stage `s`, gets the answer
/// `world(i, s)`.
pub open spec fn orphan_outcome(
    run: OrphanRunView,
    world: spec_fn(int, OrphanStage) -> bool,
) -> OrphanRunView
    decreases orphan_answers_left(run),
{
    if orphan_finished(run) {
        run
    } else {
        orphan_outcome(orphan_answered(run, world(run.at, run.stage)), world)
    }
}

/// The first `n` directories without those that are not there or do not move.
pub open spec fn moved_among(
    actions: Seq<Seq<char>>,
    world: spec_fn(int, OrphanStage) -> bool,
    n: int,
) -> Seq<Seq<char>>
    decreases n,
{
    if n <= 0 {
        Seq::empty()
    } else if world(n - 1, OrphanStage::CheckSource) && world(n - 1, OrphanStage::Move) {
        moved_among(actions, world, n - 1).push(actions[n - 1])
    } else {
        moved_among(actions, world, n - 1)
    }
}

proof fn lemma_orphan_outcome(run: OrphanRunView, world: spec_fn(int, OrphanStage) -> bool)
    requires
        0 <= run.at <= run.actions.len(),
        run.stage == OrphanStage::CheckSource || run.at == run.actions.len(),
        run.moved == moved_among(run.actions, world, run.at),
    ensures
        orphan_finished(orphan_outcome(run, world)),
        orphan_outcome(run, world).moved == moved_among(
            run.actions,
            world,
            run.actions.len() as int,
        ),
    decreases run.actions.len() - run.at,
{
    reveal_with_fuel(orphan_outcome, 5);
    if run.at < run.actions.len() {
        let a = orphan_answered(run, world(run.at, OrphanStage::CheckSource));
        if world(run.at, OrphanStage::CheckSource) {
            let b = orphan_answered(a, world(run.at, OrphanStage::CheckTarget));
            let c = if b.stage == OrphanStage::RemoveTarget {
                orphan_answered(b, world(run.at, OrphanStage::RemoveTarget))
            } else {
                b
            };
            let d = orphan_answered(c, world(run.at, OrphanStage::Move));
            lemma_orphan_outcome(d, world);
            assert(orphan_outcome(c, world) == orphan_outcome(d, world));
            assert(orphan_outcome(b, world) == orphan_outcome(c, world));
            assert(orphan_outcome(a, world) == orphan_outcome(b, world));
        } else {
            lemma_orphan_outcome(a, world);
        }
        assert(orphan_outcome(run, world) == orphan_outcome(a, world));
    }
}

/// Whatever the directory tree answers, a run ends, and what it reports as moved are
/// exactly the directories that were there and moved, in order; none where there is nothing
/// to move or `_orphaned/` cannot be made.
pub proof fn law_moved_orphans(
    actions: Seq<Seq<char>>,
    world: spec_fn(int, OrphanStage) -> bool,
)
    ensures
        orphan_command(orphan_outcome(orphan_start(actions), world)) is Finished,
        orphan_outcome(orphan_start(actions), world).moved == if actions.len() > 0 && world(
            0,
            OrphanStage::Prepare,
        ) {
            moved_among(actions, world, actions.len() as int)
        } else {
            Seq::empty()
        },
{
    let start = orphan_start(actions);
    reveal_with_fuel(orphan_outcome, 3);
    if actions.len() > 0 && world(0, OrphanStage::Prepare) {
        let next = orphan_answered(start, true);
        lemma_orphan_outcome(next, world);
        assert(orphan_outcome(start, world) == orphan_outcome(next, world));
    }
}

/// Begins a run: execute orphan moves.
pub fn execute_orphans(actions: Vec<OrphanAction>) -> (r: OrphanRun)
    ensures
        r@ == orphan_start(orphan_paths(actions@)),
{
    let stage = if actions.len() == 0 {
        OrphanStage::Done
    } else {
        OrphanStage::Prepare
    };
    let moved: Vec<OrphanAction> = Vec::new();
    proof {
        assert(orphan_paths(moved@) =~= Seq::<Seq<char>>::empty());
    }
    OrphanRun { actions, at: 0, stage, moved }
}

impl OrphanRun {
    fn target(&self) -> (r: String)
        requires
            self.at < self.actions@.len(),
        ensures
            r@ == orphan_target(self.actions@[self.at as int]@),
    {
        let mut path = text_of("_orphaned/");
        path.append(self.actions[self.at].src_path.as_str());
        path
    }

    /// What the run asks for.
    pub fn command(&self) -> (r: OrphanCommand)
        ensures
            r@ == orphan_command(self@),
    {
        if self.at >= self.actions.len() {
            return OrphanCommand::Finished;
        }
        proof {
            assert(self@.actions[self.at as int] == self.actions@[self.at as int]@);
        }
        match self.stage {
            OrphanStage::Prepare => OrphanCommand::CreateDir(text_of("_orphaned")),
            OrphanStage::CheckSource => OrphanCommand::Exists(
                self.actions[self.at].src_path.clone(),
            ),
            OrphanStage::CheckTarget => OrphanCommand::Exists(self.target()),
            OrphanStage::RemoveTarget => OrphanCommand::Remove(self.target()),
            OrphanStage::Move => OrphanCommand::Rename(
                self.actions[self.at].src_path.clone(),
                self.target(),
            ),
            OrphanStage::Done => OrphanCommand::Finished,
        }
    }

    /// Takes the answer to what the run asked for; a finished run ignores it.
    pub fn answer(&mut self, answer: bool)
        ensures
            final(self)@ == if orphan_finished(old(self)@) {
                old(self)@
            } else {
                orphan_answered(old(self)@, answer)
            },
    {
        if self.at >= self.actions.len() {
            return;
        }
        match self.stage {
            OrphanStage::Prepare => {
                self.stage = if answer {
                    OrphanStage::CheckSource
                } else {
                    OrphanStage::Done
                };
            },
            OrphanStage::CheckSource => {
                if answer {
                    self.stage = OrphanStage::CheckTarget;
                } else {
                    self.settle(false);
                }
            },
            OrphanStage::CheckTarget => {
                self.stage = if answer {
                    OrphanStage::RemoveTarget
                } else {
                    OrphanStage::Move
                };
            },
            OrphanStage::RemoveTarget => {
                self.stage = OrphanStage::Move;
            },
            OrphanStage::Move => {
                self.settle(answer);
            },
            OrphanStage::Done => {},
        }
    }

    fn settle(&mut self, success: bool)
        requires
            old(self).at < old(self).actions@.len(),
        ensures
            final(self)@ == orphan_settled(old(self)@, success),
    {
        let ghost before = self.moved@;
        if success {
            let done = OrphanAction { src_path: self.actions[self.at].src_path.clone() };
            self.moved.push(done);
            proof {
                assert(orphan_paths(self.moved@) =~= orphan_paths(before).push(done@));
            }
        }
        let count: usize = self.actions.len();
        self.at = self.at + 1;
        self.stage = if self.at < count {
            OrphanStage::CheckSource
        } else {
            OrphanStage::Done
        };
    }
}

// ---------------------------------------------------------------------
// What moves and runs come to
// ---------------------------------------------------------------------

/// One more directory is one more orphan, behind those before it, exactly where its table is
/// not active.
pub proof fn law_orphans_of_one_more_directory(
    entries: Seq<DirView>,
    entry: DirView,
    active: Set<Seq<char>>,
)
    ensures
        orphaned_dirs(Seq::empty(), active).len() == 0,
        active.contains(entry.info.url) ==> orphaned_dirs(entries.push(entry), active)
            == orphaned_dirs(entries, active),
        !active.contains(entry.info.url) ==> orphaned_dirs(entries.push(entry), active)
            == orphaned_dirs(entries, active).push(entry.dir_name),
{
    assert(entries.push(entry).drop_last() =~= entries);
}

/// A run begins with making `_orphaned`, where there is anything to move. Of each directory
/// it asks whether it is there, whether one of its name is in `_orphaned` already, for the
/// removal of that one, and for the move into `_orphaned`.
pub proof fn law_orphan_questions(run: OrphanRunView, actions: Seq<Seq<char>>)
    requires
        0 <= run.at < run.actions.len(),
    ensures
        orphan_start(actions).actions == actions,
        orphan_start(actions).at == 0,
        orphan_start(actions).moved.len() == 0,
        actions.len() == 0 ==> orphan_command(orphan_start(actions)) is Finished,
        actions.len() > 0 ==> orphan_command(orphan_start(actions))
            == OrphanCommandView::CreateDir("_orphaned"@),
        actions.len() > 0 ==> orphan_start(actions).stage == OrphanStage::Prepare,
        ({
            let path = run.actions[run.at];
            &&& run.stage == OrphanStage::Prepare ==> orphan_command(run)
                == OrphanCommandView::CreateDir("_orphaned"@)
            &&& run.stage == OrphanStage::CheckSource ==> orphan_command(run)
                == OrphanCommandView::Exists(path)
            &&& run.stage == OrphanStage::CheckTarget ==> orphan_command(run)
                == OrphanCommandView::Exists("_orphaned/"@ + path)
            &&& run.stage == OrphanStage::RemoveTarget ==> orphan_command(run)
                == OrphanCommandView::Remove("_orphaned/"@ + path)
            &&& run.stage == OrphanStage::Move ==> orphan_command(run)
                == OrphanCommandView::Rename(path, "_orphaned/"@ + path)
            &&& run.stage == OrphanStage::Done ==> orphan_command(run) is Finished
        }),
{
}

/// A run is over once it is done or past its last move, and then asks for nothing.
pub proof fn law_finished_orphan_run(run: OrphanRunView)
    requires
        0 <= run.at,
    ensures
        orphan_finished(run) <==> run.stage == OrphanStage::Done || run.at >= run.actions.len(),
        orphan_finished(run) ==> orphan_command(run) is Finished,
{
}

/// After each answer a run goes on as it should: where `_orphaned` cannot be made it is over;
/// a directory that is not there is passed over; an older orphan is removed before the move,
/// whatever comes of the removal; a move that succeeds is put on record. The list of moves
/// never changes.
pub proof fn law_orphan_answers(run: OrphanRunView)
    requires
        0 <= run.at < run.actions.len(),
    ensures
        forall|answer: bool|
            ({
                let next = #[trigger] orphan_answered(run, answer);
                let settled = next.at == run.at + 1 && next.stage == if run.at + 1
                    < run.actions.len() {
                    OrphanStage::CheckSource
                } else {
                    OrphanStage::Done
                };
                &&& next.actions == run.actions
                &&& next.moved == if run.stage == OrphanStage::Move && answer {
                    run.moved.push(run.actions[run.at])
                } else {
                    run.moved
                }
                &&& run.stage == OrphanStage::Prepare ==> next.at == run.at && next.stage
                    == if answer {
                    OrphanStage::CheckSource
                } else {
                    OrphanStage::Done
                }
                &&& run.stage == OrphanStage::CheckSource ==> if answer {
                    next.at == run.at && next.stage == OrphanStage::CheckTarget
                } else {
                    settled
                }
                &&& run.stage == OrphanStage::CheckTarget ==> next.at == run.at && next.stage
                    == if answer {
                    OrphanStage::RemoveTarget
                } else {
                    OrphanStage::Move
                }
                &&& run.stage == OrphanStage::RemoveTarget ==> next.at == run.at && next.stage
                    == OrphanStage::Move
                &&& run.stage == OrphanStage::Move ==> settled
                &&& run.stage == OrphanStage::Done ==> next == run
            }),
{
}

/// A directory is among the moved exactly where it was there and its move succeeded, in the
/// order of the list.
pub proof fn law_moved_in_order(
    actions: Seq<Seq<char>>,
    world: spec_fn(int, OrphanStage) -> bool,
    n: int,
)
    requires
        0 <= n < actions.len(),
    ensures
        moved_among(actions, world, 0).len() == 0,
        world(n, OrphanStage::CheckSource) && world(n, OrphanStage::Move) ==> moved_among(
            actions,
            world,
            n + 1,
        ) == moved_among(actions, world, n).push(actions[n]),
        !world(n, OrphanStage::CheckSource) || !world(n, OrphanStage::Move) ==> moved_among(
            actions,
            world,
            n + 1,
        ) == moved_among(actions, world, n),
{
}

/// Moves, the state of a run and what it asks for are what their parts hold, in order.
pub proof fn law_orphans_by_field(
    action: OrphanAction,
    actions: Seq<OrphanAction>,
    i: int,
    run: OrphanRun,
    a: String,
    b: String,
)
    ensures
        action@ == action.src_path@,
        orphan_paths(actions).len() == actions.len(),
        0 <= i < actions.len() ==> orphan_paths(actions)[i] == actions[i].src_path@,
        run@.actions == orphan_paths(run.actions@),
        run@.at == run.at,
        run@.stage == run.stage,
        run@.moved == orphan_paths(run.moved@),
        OrphanCommand::CreateDir(a)@ == OrphanCommandView::CreateDir(a@),
        OrphanCommand::Exists(a)@ == OrphanCommandView::Exists(a@),
        OrphanCommand::Remove(a)@ == OrphanCommandView::Remove(a@),
        OrphanCommand::Rename(a, b)@ == OrphanCommandView::Rename(a@, b@),
        OrphanCommand::Finished@ == OrphanCommandView::Finished,
{
}

} // verus!
