//! Folders as a directory lists them, and single renames by number.

use crate::digits;
use crate::entities;
use crate::entities::FolderName;
use crate::schedule::Move;
use crate::schedule::RenameStep;
use crate::usecase;
use crate::usecase::Event;
use crate::usecase::ExecuteRenameError;
use crate::usecase::FolderRenameExecutor;
use crate::usecase::Journaled;
use crate::usecase::ListError;
use crate::usecase::PathString;
use vstd::prelude::*;
use vstd::string::StringExecFns;

verus! {

/// A folder of a directory, with the number its name starts with, if any.
#[derive(Debug)]
pub struct FolderNumbered {
    pub base_path_string: String,
    pub path_string: String,
    pub number: Option<i32>,
}

/// The instruction to give the folder `path_string` of the directory
/// `base_path_string` the number `target_number`, with `fill` zeros in
/// front of it.
#[derive(Debug)]
pub struct RenameFolderNumber {
    pub base_path_string: String,
    pub path_string: String,
    pub target_number: i32,
    pub fill: i32,
}

/// The number that a raw name starts with, where it starts with one that
/// fits an `i32`.
pub open spec fn leading_number(raw: Seq<char>) -> Option<i32> {
    match entities::first_number(raw) {
        Ok((value, _)) => if value <= i32::MAX {
            Some(value as i32)
        } else {
            None
        },
        Err(_) => None,
    }
}

/// Whether `folders` are the folders `names` of the directory `base`, in
/// their order, each with the number its name starts with.
pub open spec fn numbers_of(
    folders: Seq<FolderNumbered>,
    base: Seq<char>,
    names: Seq<String>,
) -> bool {
    &&& folders.len() == names.len()
    &&& forall|i: int|
        0 <= i < names.len() ==> {
            &&& (#[trigger] folders[i]).base_path_string@ == base
            &&& folders[i].path_string@ == names[i]@
            &&& folders[i].number == leading_number(names[i]@)
        }
}

/// Lists the directory `base_path_string`: its folders, each with the
/// number its name starts with.
pub fn folder_numbers<E: FolderRenameExecutor>(
    executor: &mut Journaled<E>,
    base_path_string: String,
) -> (r: Result<Vec<FolderNumbered>, ListError>)
    ensures
        final(executor).journal().len() == old(executor).journal().len() + 1,
        final(executor).journal().drop_last() == old(executor).journal(),
        final(executor).journal().last() matches Event::Listed { path, listing } && path
            == base_path_string@ && match listing {
            Ok(names) => r matches Ok(folders) && numbers_of(folders@, base_path_string@, names@),
            Err(e) => r == Err::<Vec<FolderNumbered>, ListError>(e),
        },
{
    let ghost before = executor.journal();
    let listing = executor.list(&PathString(base_path_string.clone()));
    assert(executor.journal().drop_last() =~= before);
    match listing {
        Ok(names) => Ok(number_folders(base_path_string, &names)),
        Err(e) => Err(e),
    }
}

/// The folders `names` of the directory `base_path_string`, each with the
/// number its name starts with.
pub fn number_folders(base_path_string: String, names: &Vec<String>) -> (folders: Vec<
    FolderNumbered,
>)
    ensures
        numbers_of(folders@, base_path_string@, names@),
{
    let mut folders: Vec<FolderNumbered> = Vec::new();
    let mut i: usize = 0;
    while i < names.len()
        invariant
            i <= names.len(),
            folders.len() == i,
            forall|k: int|
                0 <= k < i ==> {
                    &&& (#[trigger] folders[k]).base_path_string@ == base_path_string@
                    &&& folders[k].path_string@ == names[k]@
                    &&& folders[k].number == leading_number(names[k]@)
                },
        decreases names.len() - i,
    {
        let path_string = names[i].clone();
        let number: Option<i32> = match FolderName::new(path_string.clone()).get_first_number() {
            Ok(n) => {
                let value: usize = n.get_value();
                if value <= 0x7fff_ffff {
                    Some(value as i32)
                } else {
                    None
                }
            },
            Err(_) => None,
        };
        folders.push(
            FolderNumbered { base_path_string: base_path_string.clone(), path_string, number },
        );
        i = i + 1;
    }
    folders
}

/// A number as it is written, with `-` in front where it is below zero.
pub open spec fn signed_decimal(n: int) -> Seq<char> {
    if n < 0 {
        seq!['-'] + digits::decimal((-n) as nat)
    } else {
        digits::decimal(n as nat)
    }
}

impl RenameFolderNumber {
    /// The name that the folder is to get: `fill` zeros, the number, `_`,
    /// and what the present name holds besides a number of its own.
    pub open spec fn target_text(self) -> Seq<char> {
        digits::zeros(self.fill as nat) + signed_decimal(self.target_number as int) + seq!['_']
            + entities::parse_name(self.path_string@).bare()
    }

    /// The name that the folder is to get.
    pub fn target_name(&self) -> (name: String)
        requires
            self.fill >= 0,
        ensures
            name@ == self.target_text(),
    {
        let mut name = String::new();
        let mut filled: i32 = 0;
        assert(name@ =~= digits::zeros(0));
        while filled < self.fill
            invariant
                0 <= filled <= self.fill,
                name@ == digits::zeros(filled as nat),
            decreases self.fill - filled,
        {
            name.append("0");
            proof {
                reveal_strlit("0");
                assert(name@ =~= digits::zeros((filled + 1) as nat));
            }
            filled = filled + 1;
        }
        if self.target_number < 0 {
            name.append("-");
            let size: i64 = -(self.target_number as i64);
            name.append(digits::decimal_string(size as usize).as_str());
        } else {
            name.append(digits::decimal_string(self.target_number as usize).as_str());
        }
        name.append("_");
        let rest = FolderName::new(self.path_string.clone()).get_remaining_name();
        name.append(rest.as_str());
        proof {
            reveal_strlit("-");
            reveal_strlit("_");
            assert(name@ =~= self.target_text());
        }
        name
    }

    /// Carries the instruction out: asks the executor once, to rename the
    /// folder to `target_name`.
    pub fn exec_rename<E: FolderRenameExecutor>(self, executor: &mut Journaled<E>) -> (r: Result<
        (),
        ExecuteRenameError,
    >)
        requires
            self.fill >= 0,
        ensures
            final(executor).journal() == old(executor).journal().push(
                Event::Renamed {
                    base: self.base_path_string@,
                    step: Move { from: self.path_string@, to: self.target_text() },
                    refused: usecase::refusal(r),
                },
            ),
    {
        let to = self.target_name();
        let base = PathString(self.base_path_string);
        let step = RenameStep { from: self.path_string, to };
        executor.rename(&base, &step)
    }
}

} // verus!
