//! Renumbering a directory through whatever lists and renames its folders.

use crate::entities;
use crate::entities::FolderList;
use crate::entities::FolderNameVariant;
use crate::entities::FolderRenameInstruction;
use crate::entities::NameShape;
use crate::entities::NumberingNumber;
use crate::planner;
use crate::schedule;
use crate::schedule::Move;
use crate::schedule::RenameStep;
use vstd::prelude::*;

verus! {

/// The path of a directory.
#[derive(Debug, PartialEq, Eq)]
pub struct PathString(pub String);

impl View for PathString {
    type V = Seq<char>;

    open spec fn view(&self) -> Seq<char> {
        self.0@
    }
}

impl Clone for PathString {
    fn clone(&self) -> (copy: Self)
        ensures
            copy == *self,
    {
        PathString(self.0.clone())
    }
}

/// Why a directory could not be listed.
#[derive(Debug, PartialEq, Eq)]
pub struct ListError(pub String);

/// Why one rename was refused.
#[derive(Debug, PartialEq, Eq)]
pub struct ExecuteRenameError(pub String);

/// What lists the folders of a directory and renames them one at a time:
/// the file system, or what stands for it.
///
/// Nothing is taken for granted of either call. A rename is expected to
/// fail where the new name is in use by another folder.
pub trait FolderRenameExecutor {
    /// The names of the folders in the directory at `path`, in any order.
    fn get_folder_names(&self, path: &PathString) -> (r: Result<Vec<String>, ListError>);

    /// Gives the folder `from` of the directory at `base` the name `to`.
    fn execute_rename(&mut self, base: &PathString, from: &String, to: &String) -> (r: Result<
        (),
        ExecuteRenameError,
    >);
}

/// One call to an executor, with what came back.
pub enum Event {
    /// The directory at `path` was listed.
    Listed { path: Seq<char>, listing: Result<Vec<String>, ListError> },
    /// The folder `step.from` of the directory at `base` was to get the
    /// name `step.to`, and got it unless the call was refused.
    Renamed { base: Seq<char>, step: Move, refused: Option<ExecuteRenameError> },
}

/// The error of a call, if it came back with one.
pub open spec fn refusal<T, X>(result: Result<T, X>) -> Option<X> {
    match result {
        Ok(_) => None,
        Err(error) => Some(error),
    }
}

/// An executor with the journal of the calls made to it: every call goes
/// through here, and each is entered with what came back.
pub struct Journaled<E: FolderRenameExecutor> {
    executor: E,
    journal: Ghost<Seq<Event>>,
}

impl<E: FolderRenameExecutor> Journaled<E> {
    /// The calls made so far, in their order.
    pub closed spec fn journal(&self) -> Seq<Event> {
        self.journal@
    }

    /// The executor that the calls go to.
    pub closed spec fn held(&self) -> E {
        self.executor
    }

    /// An executor to which no call has been made.
    pub fn new(executor: E) -> (journaled: Self)
        ensures
            journaled.held() == executor,
            journaled.journal() == Seq::<Event>::empty(),
    {
        Journaled { executor, journal: Ghost(Seq::empty()) }
    }

    /// The executor, to look at.
    pub fn executor(&self) -> (executor: &E)
        ensures
            *executor == self.held(),
    {
        &self.executor
    }

    /// The executor, given back.
    pub fn into_executor(self) -> (executor: E)
        ensures
            executor == self.held(),
    {
        self.executor
    }

    /// Lists the directory at `path`.
    pub fn list(&mut self, path: &PathString) -> (r: Result<Vec<String>, ListError>)
        ensures
            final(self).journal() == old(self).journal().push(
                Event::Listed { path: path@, listing: r },
            ),
    {
        let r = self.executor.get_folder_names(path);
        self.journal = Ghost(self.journal@.push(Event::Listed { path: path@, listing: r }));
        r
    }

    /// Carries out `step` in the directory at `base`.
    pub fn rename(&mut self, base: &PathString, step: &RenameStep) -> (r: Result<
        (),
        ExecuteRenameError,
    >)
        ensures
            final(self).journal() == old(self).journal().push(
                Event::Renamed { base: base@, step: step@, refused: refusal(r) },
            ),
    {
        let r = self.executor.execute_rename(base, &step.from, &step.to);
        self.journal = Ghost(
            self.journal@.push(Event::Renamed { base: base@, step: step@, refused: refusal(r) }),
        );
        r
    }
}

/// The rename that was refused, and how many renames were done before it.
#[derive(Debug, PartialEq, Eq)]
pub struct RenameFailure {
    pub step: RenameStep,
    pub applied: usize,
    pub error: ExecuteRenameError,
}

/// Why a directory was not renumbered.
#[derive(Debug, PartialEq, Eq)]
pub enum ChangeError {
    /// The directory could not be listed; nothing was renamed.
    List(ListError),
    /// What was asked for cannot be planned; nothing was renamed.
    InvalidPlanInput(InvalidPlanInput),
    /// A rename was refused; those before it stay done.
    Rename(RenameFailure),
}

/// Why a renumbering cannot be planned.
#[derive(Debug, Clone, Copy, PartialEq, Eq, Structural)]
pub enum InvalidPlanInput {
    /// The folder to place is not in the directory.
    UnknownFolder,
    /// The rank is below zero.
    NegativeRank,
    /// The directory has more folders than can be numbered.
    TooManyFolders,
}

/// The calls that rename by `steps` in the directory at `base`, each
/// accepted.
pub open spec fn accepted(base: Seq<char>, steps: Seq<Move>) -> Seq<Event> {
    steps.map_values(|step: Move| Event::Renamed { base, step, refused: None })
}

/// The calls that carrying out `steps` makes for the result `result`: one
/// for each step, all accepted; or, for a failure, the steps before the
/// refused one, accepted, and then that one, refused.
pub open spec fn rename_calls(
    base: Seq<char>,
    steps: Seq<Move>,
    result: Result<(), RenameFailure>,
) -> Seq<Event> {
    match result {
        Ok(()) => accepted(base, steps),
        Err(failure) => accepted(base, steps.take(failure.applied as int)).push(
            Event::Renamed {
                base,
                step: steps[failure.applied as int],
                refused: Some(failure.error),
            },
        ),
    }
}

/// What holds of the result of carrying out `steps`: a failure names the
/// step that was refused and the count of steps before it.
pub open spec fn carried_out(steps: Seq<Move>, result: Result<(), RenameFailure>) -> bool {
    match result {
        Ok(()) => true,
        Err(failure) => {
            &&& failure.applied < steps.len()
            &&& failure.step@ == steps[failure.applied as int]
        },
    }
}

/// Carries out `steps` in the directory at `base`, one at a time and in
/// their order, and stops at the first that is refused.
///
/// The failure names the refused step and the count of steps done before
/// it; those stay done, and no later step is tried.
pub fn run_steps<E: FolderRenameExecutor>(
    executor: &mut Journaled<E>,
    base: &PathString,
    steps: &Vec<RenameStep>,
) -> (r: Result<(), RenameFailure>)
    ensures
        carried_out(schedule::steps_view(steps@), r),
        final(executor).journal() == old(executor).journal() + rename_calls(
            base@,
            schedule::steps_view(steps@),
            r,
        ),
{
    let ghost before = executor.journal();
    let ghost moves = schedule::steps_view(steps@);
    let mut i: usize = 0;
    assert(before + accepted(base@, moves.take(0)) =~= before);
    while i < steps.len()
        invariant
            i <= steps.len(),
            moves == schedule::steps_view(steps@),
            before == old(executor).journal(),
            executor.journal() == before + accepted(base@, moves.take(i as int)),
        decreases steps.len() - i,
    {
        let outcome = executor.rename(base, &steps[i]);
        proof {
            assert(moves[i as int] == steps[i as int]@);
            assert(accepted(base@, moves.take(i + 1)) =~= accepted(
                base@,
                moves.take(i as int),
            ).push(Event::Renamed { base: base@, step: moves[i as int], refused: None }));
        }
        match step_outcome(steps, i, outcome) {
            Some(failure) => {
                assert(executor.journal() =~= before + rename_calls(base@, moves, Err(failure)));
                return Err(failure);
            },
            None => {
                assert(outcome is Ok);
                assert(executor.journal() =~= before + accepted(base@, moves.take(i + 1)));
            },
        }
        i = i + 1;
    }
    assert(moves.take(steps.len() as int) =~= moves);
    Ok(())
}

/// What the outcome of the step at `applied` means for the run: a refusal
/// ends it with that step and the count of steps before it.
pub fn step_outcome(
    steps: &Vec<RenameStep>,
    applied: usize,
    outcome: Result<(), ExecuteRenameError>,
) -> (failure: Option<RenameFailure>)
    requires
        applied < steps.len(),
    ensures
        match outcome {
            Ok(()) => failure is None,
            Err(error) => failure == Some(
                RenameFailure { step: steps[applied as int], applied, error },
            ),
        },
{
    match outcome {
        Ok(()) => None,
        Err(error) => Some(RenameFailure { step: steps[applied].clone(), applied, error }),
    }
}

/// Carries out `plan` in the directory at `base`, which holds `entries`:
/// puts its renames in a safe order, then does them one at a time.
pub fn execute<E: FolderRenameExecutor>(
    executor: &mut Journaled<E>,
    base: &PathString,
    plan: &Vec<FolderRenameInstruction>,
    entries: &FolderList,
) -> (r: Result<(), RenameFailure>)
    ensures
        carried_out(schedule::schedule_of(crate::entities::plan_view(plan@), entries@), r),
        final(executor).journal() == old(executor).journal() + rename_calls(
            base@,
            schedule::schedule_of(crate::entities::plan_view(plan@), entries@),
            r,
        ),
{
    let steps = schedule::schedule(plan, entries);
    run_steps(executor, base, &steps)
}

/// The steps that close the numbering of a directory that lists `names`.
pub open spec fn steps_to_order(names: Seq<String>) -> Seq<Move> {
    schedule::schedule_of(planner::reorder_plan(entities::parsed(names)), entities::parsed(names))
}

/// The steps that put `target` at `rank` in a directory that lists `names`.
pub open spec fn steps_to_number(names: Seq<String>, target: NameShape, rank: nat) -> Seq<Move> {
    schedule::schedule_of(
        planner::assign_rank_plan(entities::parsed(names), target, rank),
        entities::parsed(names),
    )
}

/// Whether one of `names` is `name`.
pub open spec fn has_name(names: Seq<String>, name: Seq<char>) -> bool {
    exists|i: int| 0 <= i < names.len() && (#[trigger] names[i])@ == name
}

/// Why `target` cannot be placed in a directory that lists `names`, if it
/// cannot: it must be one of them, and they must leave a number free.
pub open spec fn number_refusal(names: Seq<String>, target: NameShape) -> Option<
    InvalidPlanInput,
> {
    if !has_name(names, target.text()) {
        Some(InvalidPlanInput::UnknownFolder)
    } else if names.len() >= usize::MAX {
        Some(InvalidPlanInput::TooManyFolders)
    } else {
        None
    }
}

/// Plans and schedules the renames that close the numbering of a directory
/// that lists `names`.
pub fn plan_order(names: &Vec<String>) -> (steps: Vec<RenameStep>)
    ensures
        schedule::steps_view(steps@) == steps_to_order(names@),
{
    let list = FolderList::from_names(names);
    let plan = list.order();
    schedule::schedule(&plan, &list)
}

/// Plans and schedules the renames that put the folder `name` at rank
/// `number` in a directory that lists `names`, or says why that cannot be
/// done.
pub fn plan_number(names: &Vec<String>, name: FolderNameVariant, number: NumberingNumber) -> (r:
    Result<Vec<RenameStep>, InvalidPlanInput>)
    ensures
        match r {
            Ok(steps) => number_refusal(names@, name@) is None && schedule::steps_view(steps@)
                == steps_to_number(names@, name@, number.0 as nat),
            Err(e) => number_refusal(names@, name@) == Some(e),
        },
{
    let raw = name.get_name().into_string();
    let mut found: bool = false;
    let mut i: usize = 0;
    while i < names.len() && !found
        invariant
            i <= names.len(),
            found ==> has_name(names@, raw@),
            !found ==> forall|k: int| 0 <= k < i ==> (#[trigger] names[k])@ != raw@,
        decreases names.len() - i + if found { 0int } else { 1int },
    {
        if names[i] == raw {
            found = true;
        } else {
            i = i + 1;
        }
    }
    if !found {
        return Err(InvalidPlanInput::UnknownFolder);
    }
    if names.len() == usize::MAX {
        return Err(InvalidPlanInput::TooManyFolders);
    }
    let list = FolderList::from_names(names);
    let plan = list.number(name, number);
    Ok(schedule::schedule(&plan, &list))
}

/// The part of a result that is about renames.
pub open spec fn rename_part<T>(result: Result<T, ChangeError>) -> Result<(), RenameFailure> {
    match result {
        Err(ChangeError::Rename(failure)) => Err(failure),
        _ => Ok(()),
    }
}

/// What closing the numbering returns for a listing: the error of the
/// listing, or else what carrying out the steps for it gives.
pub open spec fn order_done<T>(
    listing: Result<Vec<String>, ListError>,
    result: Result<T, ChangeError>,
) -> bool {
    match listing {
        Err(e) => result == Err::<T, ChangeError>(ChangeError::List(e)),
        Ok(names) => match result {
            Ok(_) => true,
            Err(ChangeError::Rename(failure)) => carried_out(
                steps_to_order(names@),
                Err(failure),
            ),
            Err(_) => false,
        },
    }
}

/// The renames that closing the numbering asks for, for a listing and a
/// result: none where the listing failed.
pub open spec fn order_calls<T>(
    path: Seq<char>,
    listing: Result<Vec<String>, ListError>,
    result: Result<T, ChangeError>,
) -> Seq<Event> {
    match listing {
        Err(_) => Seq::empty(),
        Ok(names) => rename_calls(path, steps_to_order(names@), rename_part(result)),
    }
}

/// What putting `target` at `rank` returns for a listing: the error of the
/// listing, or why it cannot be planned, or else what carrying out the
/// steps for it gives.
pub open spec fn number_done<T>(
    listing: Result<Vec<String>, ListError>,
    target: NameShape,
    rank: nat,
    result: Result<T, ChangeError>,
) -> bool {
    match listing {
        Err(e) => result == Err::<T, ChangeError>(ChangeError::List(e)),
        Ok(names) => match number_refusal(names@, target) {
            Some(e) => result == Err::<T, ChangeError>(ChangeError::InvalidPlanInput(e)),
            None => match result {
                Ok(_) => true,
                Err(ChangeError::Rename(failure)) => carried_out(
                    steps_to_number(names@, target, rank),
                    Err(failure),
                ),
                Err(_) => false,
            },
        },
    }
}

/// The renames that putting `target` at `rank` asks for, for a listing and
/// a result: none where the listing failed or the plan was refused.
pub open spec fn number_calls<T>(
    path: Seq<char>,
    listing: Result<Vec<String>, ListError>,
    target: NameShape,
    rank: nat,
    result: Result<T, ChangeError>,
) -> Seq<Event> {
    match listing {
        Err(_) => Seq::empty(),
        Ok(names) => match number_refusal(names@, target) {
            Some(_) => Seq::empty(),
            None => rename_calls(path, steps_to_number(names@, target, rank), rename_part(result)),
        },
    }
}

/// Whether the journal `after` is `before` with the calls of one run that
/// closes the numbering of the directory at `path` and returns `result`:
/// the listing, and the renames for what it gave.
pub open spec fn journal_of_order<T>(
    before: Seq<Event>,
    after: Seq<Event>,
    path: Seq<char>,
    result: Result<T, ChangeError>,
) -> bool {
    &&& after.len() > before.len()
    &&& after[before.len() as int] matches Event::Listed { path: listed, listing }
    &&& listed == path
    &&& order_done(listing, result)
    &&& after == before.push(Event::Listed { path, listing }) + order_calls(
        path,
        listing,
        result,
    )
}

/// Whether the journal `after` is `before` with the calls of one run that
/// puts `target` at `rank` in the directory at `path` and returns `result`:
/// the listing, and the renames for what it gave.
pub open spec fn journal_of_number<T>(
    before: Seq<Event>,
    after: Seq<Event>,
    path: Seq<char>,
    target: NameShape,
    rank: nat,
    result: Result<T, ChangeError>,
) -> bool {
    &&& after.len() > before.len()
    &&& after[before.len() as int] matches Event::Listed { path: listed, listing }
    &&& listed == path
    &&& number_done(listing, target, rank, result)
    &&& after == before.push(Event::Listed { path, listing }) + number_calls(
        path,
        listing,
        target,
        rank,
        result,
    )
}

/// Renumbers the folders of one directory through an executor.
pub struct FolderNameChanger<FRE: FolderRenameExecutor> {
    pub executor: Journaled<FRE>,
    pub path: PathString,
}

impl<FRE: FolderRenameExecutor> FolderNameChanger<FRE> {
    /// A changer for the directory at `path`, which has not called the
    /// executor yet.
    pub fn new(executor: FRE, path: PathString) -> (changer: Self)
        ensures
            changer.executor.held() == executor,
            changer.executor.journal() == Seq::<Event>::empty(),
            changer.path == path,
    {
        Self { executor: Journaled::new(executor), path }
    }

    /// Closes the numbering of the directory: lists it, plans the renames,
    /// and carries them out in a safe order until one is refused.
    pub fn order(&mut self) -> (r: Result<(), ChangeError>)
        ensures
            final(self).path == old(self).path,
            journal_of_order(
                old(self).executor.journal(),
                final(self).executor.journal(),
                old(self).path@,
                r,
            ),
    {
        crate::order::order_command(&mut self.executor, &self.path)
    }

    /// Puts the folder `name` at rank `number`: lists the directory, plans
    /// the renames, and carries them out in a safe order until one is
    /// refused. Nothing is renamed where `name` is not in the directory.
    pub fn number(&mut self, name: FolderNameVariant, number: NumberingNumber) -> (r: Result<
        (),
        ChangeError,
    >)
        ensures
            final(self).path == old(self).path,
            journal_of_number(
                old(self).executor.journal(),
                final(self).executor.journal(),
                old(self).path@,
                name@,
                number.0 as nat,
                r,
            ),
    {
        crate::number::place_folder(&mut self.executor, &self.path, name, number)
    }
}

} // verus!
