//! The command that closes the numbering of a directory.

use crate::usecase;
use crate::usecase::ChangeError;
use crate::usecase::FolderRenameExecutor;
use crate::usecase::Journaled;
use crate::usecase::ListError;
use crate::usecase::PathString;
use vstd::prelude::*;

verus! {

/// Closes the numbering of the directory at `path`: lists it, plans the
/// renames that number its numbered folders `0, 1, 2, ..` in the order of
/// their numbers, and carries them out in a safe order until one is
/// refused.
pub fn order_command<E: FolderRenameExecutor>(
    executor: &mut Journaled<E>,
    path: &PathString,
) -> (r: Result<(), ChangeError>)
    ensures
        usecase::journal_of_order(old(executor).journal(), final(executor).journal(), path@, r),
{
    let listing = executor.list(path);
    order_listed(executor, path, listing)
}

/// Closes the numbering of the directory at `path`, given what listing it
/// gave. Where the listing failed, nothing is renamed and its error comes
/// back. Else the renames are planned from the names listed and carried out
/// in a safe order until one is refused.
pub fn order_listed<E: FolderRenameExecutor>(
    executor: &mut Journaled<E>,
    path: &PathString,
    listing: Result<Vec<String>, ListError>,
) -> (r: Result<(), ChangeError>)
    ensures
        usecase::order_done(listing, r),
        final(executor).journal() == old(executor).journal() + usecase::order_calls(
            path@,
            listing,
            r,
        ),
{
    let names = match listing {
        Ok(names) => names,
        Err(e) => {
            assert(executor.journal() + Seq::empty() =~= executor.journal());
            return Err(ChangeError::List(e));
        },
    };
    let steps = usecase::plan_order(&names);
    match usecase::run_steps(executor, path, &steps) {
        Ok(()) => Ok(()),
        Err(failure) => Err(ChangeError::Rename(failure)),
    }
}

} // verus!
