//! What the command line asks for.

use crate::number;
use crate::order;
use crate::usecase;
use crate::usecase::ChangeError;
use crate::usecase::FolderRenameExecutor;
use crate::usecase::Journaled;
use crate::usecase::PathString;
use vstd::prelude::*;

verus! {

/// The command line: at most one subcommand.
#[derive(Debug)]
pub struct CommandLineData {
    pub subcommand: Option<SubCommand>,
}

/// What to do with the directory.
#[derive(Debug)]
pub enum SubCommand {
    /// Close its numbering.
    Order,
    /// Put one folder at a rank.
    Number(NumberData),
}

/// Which folder to put at which rank.
#[derive(Debug)]
pub struct NumberData {
    pub number: i32,
    pub folder_name: String,
}

/// Does to the directory at `path` what the command line asks, and says
/// whether it asked for anything: without a subcommand nothing is done.
pub fn run_command<E: FolderRenameExecutor>(
    executor: &mut Journaled<E>,
    path: &PathString,
    opt: CommandLineData,
) -> (r: Result<bool, ChangeError>)
    ensures
        match opt.subcommand {
            None => r == Ok::<bool, ChangeError>(false) && final(executor).journal() == old(
                executor,
            ).journal(),
            Some(SubCommand::Order) => r != Ok::<bool, ChangeError>(false)
                && usecase::journal_of_order(
                old(executor).journal(),
                final(executor).journal(),
                path@,
                r,
            ),
            Some(SubCommand::Number(data)) => r != Ok::<bool, ChangeError>(false) && (data.number
                < 0 ==> r == Err::<bool, ChangeError>(
                ChangeError::InvalidPlanInput(usecase::InvalidPlanInput::NegativeRank),
            ) && final(executor).journal() == old(executor).journal()) && (data.number >= 0
                ==> usecase::journal_of_number(
                old(executor).journal(),
                final(executor).journal(),
                path@,
                crate::entities::parse_name(data.folder_name@),
                data.number as nat,
                r,
            )),
        },
{
    match opt.subcommand {
        None => Ok(false),
        Some(SubCommand::Order) => said(order::order_command(executor, path)),
        Some(SubCommand::Number(data)) => said(
            number::number_command(executor, path, data.folder_name, data.number),
        ),
    }
}

/// The result of a command that was given.
fn said(told: Result<(), ChangeError>) -> (r: Result<bool, ChangeError>)
    ensures
        told is Ok ==> r == Ok::<bool, ChangeError>(true),
        told matches Err(e) ==> r == Err::<bool, ChangeError>(e),
{
    match told {
        Ok(()) => Ok(true),
        Err(e) => Err(e),
    }
}

} // verus!
