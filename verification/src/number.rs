//! The command that puts one folder at a rank.

use crate::entities::FolderName;
use crate::entities::FolderNameVariant;
use crate::entities::NumberingNumber;
use crate::usecase;
use crate::usecase::ChangeError;
use crate::usecase::FolderRenameExecutor;
use crate::usecase::InvalidPlanInput;
use crate::usecase::Journaled;
use crate::usecase::ListError;
use crate::usecase::PathString;
use vstd::prelude::*;

verus! {

/// Puts the folder `name` of the directory at `path` at rank `number`,
/// given what listing the directory gave. Where the listing failed, or the
/// folder is not among the names listed, nothing is renamed. Else the
/// renames are planned from the names listed and carried out in a safe
/// order until one is refused.
pub fn place_listed<E: FolderRenameExecutor>(
    executor: &mut Journaled<E>,
    path: &PathString,
    listing: Result<Vec<String>, ListError>,
    name: FolderNameVariant,
    number: NumberingNumber,
) -> (r: Result<(), ChangeError>)
    ensures
        usecase::number_done(listing, name@, number.0 as nat, r),
        final(executor).journal() == old(executor).journal() + usecase::number_calls(
            path@,
            listing,
            name@,
            number.0 as nat,
            r,
        ),
{
    let names = match listing {
        Ok(names) => names,
        Err(e) => {
            assert(executor.journal() + Seq::empty() =~= executor.journal());
            return Err(ChangeError::List(e));
        },
    };
    let steps = match usecase::plan_number(&names, name, number) {
        Ok(steps) => steps,
        Err(e) => {
            assert(executor.journal() + Seq::empty() =~= executor.journal());
            return Err(ChangeError::InvalidPlanInput(e));
        },
    };
    match usecase::run_steps(executor, path, &steps) {
        Ok(()) => Ok(()),
        Err(failure) => Err(ChangeError::Rename(failure)),
    }
}

/// Puts the folder `name` of the directory at `path` at rank `number`:
/// lists the directory, then goes on as `place_listed`.
pub fn place_folder<E: FolderRenameExecutor>(
    executor: &mut Journaled<E>,
    path: &PathString,
    name: FolderNameVariant,
    number: NumberingNumber,
) -> (r: Result<(), ChangeError>)
    ensures
        usecase::journal_of_number(
            old(executor).journal(),
            final(executor).journal(),
            path@,
            name@,
            number.0 as nat,
            r,
        ),
{
    let listing = executor.list(path);
    place_listed(executor, path, listing, name, number)
}

/// Puts the folder named `folder_name` of the directory at `path` at rank
/// `number`. A rank below zero is refused before anything is listed or
/// renamed; from there on this is `place_folder` with the shape of
/// `folder_name`.
pub fn number_command<E: FolderRenameExecutor>(
    executor: &mut Journaled<E>,
    path: &PathString,
    folder_name: String,
    number: i32,
) -> (r: Result<(), ChangeError>)
    ensures
        number < 0 ==> r == Err::<(), ChangeError>(
            ChangeError::InvalidPlanInput(InvalidPlanInput::NegativeRank),
        ) && final(executor).journal() == old(executor).journal(),
        number >= 0 ==> usecase::journal_of_number(
            old(executor).journal(),
            final(executor).journal(),
            path@,
            crate::entities::parse_name(folder_name@),
            number as nat,
            r,
        ),
{
    if number < 0 {
        return Err(ChangeError::InvalidPlanInput(InvalidPlanInput::NegativeRank));
    }
    let name = FolderName::new(folder_name).classify();
    place_folder(executor, path, name, NumberingNumber(number as usize))
}

} // verus!
