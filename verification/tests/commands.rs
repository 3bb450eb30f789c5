use fnum::args_struct::run_command;
use fnum::args_struct::CommandLineData;
use fnum::args_struct::NumberData;
use fnum::args_struct::SubCommand;
use fnum::folders::folder_numbers;
use fnum::folders::number_folders;
use fnum::folders::RenameFolderNumber;
use fnum::number::number_command;
use fnum::order::order_command;
use fnum::usecase::ChangeError;
use fnum::usecase::ExecuteRenameError;
use fnum::usecase::FolderRenameExecutor;
use fnum::usecase::InvalidPlanInput;
use fnum::usecase::Journaled;
use fnum::usecase::ListError;
use fnum::usecase::PathString;

/// A directory in memory: folders under names.
struct Shelf {
    folders: Vec<(String, u64)>,
    listable: bool,
}

fn directory(names: &[&str]) -> Journaled<Shelf> {
    Journaled::new(shelf(names))
}

fn shelf(names: &[&str]) -> Shelf {
    Shelf {
        folders: names
            .iter()
            .enumerate()
            .map(|(i, n)| (n.to_string(), 100 + i as u64))
            .collect(),
        listable: true,
    }
}

impl Shelf {
    fn folder_named(&self, name: &str) -> Option<u64> {
        self.folders.iter().find(|f| f.0 == name).map(|f| f.1)
    }
}

impl FolderRenameExecutor for Shelf {
    fn get_folder_names(&self, _path: &PathString) -> Result<Vec<String>, ListError> {
        if !self.listable {
            return Err(ListError("denied".to_string()));
        }
        Ok(self.folders.iter().map(|f| f.0.clone()).collect())
    }

    fn execute_rename(
        &mut self,
        _base: &PathString,
        from: &String,
        to: &String,
    ) -> Result<(), ExecuteRenameError> {
        if from != to && self.folder_named(to).is_some() {
            return Err(ExecuteRenameError("occupied".to_string()));
        }
        match self.folders.iter().position(|f| f.0 == *from) {
            Some(i) => {
                self.folders[i].0 = to.clone();
                Ok(())
            }
            None => Err(ExecuteRenameError("missing".to_string())),
        }
    }
}

fn here() -> PathString {
    PathString("./".to_string())
}

#[test]
fn order_command_closes_gaps() {
    let mut dir = directory(&["3_a", "10_b", "x"]);
    assert_eq!(order_command(&mut dir, &here()), Ok(()));
    assert_eq!(dir.executor().folder_named("0_a"), Some(100));
    assert_eq!(dir.executor().folder_named("1_b"), Some(101));
    assert_eq!(dir.executor().folder_named("x"), Some(102));
}

#[test]
fn number_command_places_a_folder() {
    let mut dir = directory(&["0_a", "1_b", "2_c", "new"]);
    assert_eq!(
        number_command(&mut dir, &here(), "new".to_string(), 1),
        Ok(())
    );
    assert_eq!(dir.executor().folder_named("1_new"), Some(103));
    assert_eq!(dir.executor().folder_named("2_b"), Some(101));
}

#[test]
fn number_command_refuses_negative_rank() {
    let mut dir = directory(&["0_a", "new"]);
    assert_eq!(
        number_command(&mut dir, &here(), "new".to_string(), -1),
        Err(ChangeError::InvalidPlanInput(InvalidPlanInput::NegativeRank))
    );
    assert_eq!(dir.executor().folder_named("new"), Some(101));
}

#[test]
fn number_command_refuses_unknown_folder() {
    let mut dir = directory(&["0_a"]);
    assert_eq!(
        number_command(&mut dir, &here(), "new".to_string(), 0),
        Err(ChangeError::InvalidPlanInput(InvalidPlanInput::UnknownFolder))
    );
}

#[test]
fn run_command_dispatches() {
    let mut dir = directory(&["3_a", "new"]);
    let none = CommandLineData { subcommand: None };
    assert_eq!(run_command(&mut dir, &here(), none), Ok(false));
    assert_eq!(dir.executor().folder_named("3_a"), Some(100));
    let order = CommandLineData {
        subcommand: Some(SubCommand::Order),
    };
    assert_eq!(run_command(&mut dir, &here(), order), Ok(true));
    assert_eq!(dir.executor().folder_named("0_a"), Some(100));
    let number = CommandLineData {
        subcommand: Some(SubCommand::Number(NumberData {
            number: 0,
            folder_name: "new".to_string(),
        })),
    };
    assert_eq!(run_command(&mut dir, &here(), number), Ok(true));
    assert_eq!(dir.executor().folder_named("0_new"), Some(101));
    assert_eq!(dir.executor().folder_named("1_a"), Some(100));
}

#[test]
fn folder_numbers_reads_heads() {
    let names = vec![
        "12_a".to_string(),
        "hoge".to_string(),
        "007_b".to_string(),
        "12".to_string(),
        "2147483647_c".to_string(),
        "2147483648_c".to_string(),
        "-3_d".to_string(),
    ];
    let folders = number_folders("./".to_string(), &names);
    let numbers: Vec<Option<i32>> = folders.iter().map(|f| f.number).collect();
    assert_eq!(
        numbers,
        vec![Some(12), None, Some(7), None, Some(2147483647), None, None]
    );
    assert_eq!(folders[2].path_string, "007_b");
    assert_eq!(folders[2].base_path_string, "./");
}

#[test]
fn rename_folder_number_target_name() {
    let r = RenameFolderNumber {
        base_path_string: "./".to_string(),
        path_string: "temp".to_string(),
        target_number: 25,
        fill: 1,
    };
    assert_eq!(r.target_name(), "025_temp");
    let r = RenameFolderNumber {
        base_path_string: "./".to_string(),
        path_string: "3_a_b".to_string(),
        target_number: 0,
        fill: 0,
    };
    assert_eq!(r.target_name(), "0_a_b");
    let r = RenameFolderNumber {
        base_path_string: "./".to_string(),
        path_string: "x".to_string(),
        target_number: -2147483648,
        fill: 2,
    };
    assert_eq!(r.target_name(), "00-2147483648_x");
}

#[test]
fn commands_report_list_errors() {
    let mut closed = shelf(&["3_a", "new"]);
    closed.listable = false;
    let mut dir = Journaled::new(closed);
    assert_eq!(
        order_command(&mut dir, &here()),
        Err(ChangeError::List(ListError("denied".to_string())))
    );
    assert_eq!(
        number_command(&mut dir, &here(), "new".to_string(), 0),
        Err(ChangeError::List(ListError("denied".to_string())))
    );
    assert_eq!(dir.executor().folder_named("3_a"), Some(100));
}

#[test]
fn rename_folder_number_exec() {
    let mut dir = directory(&["temp", "other"]);
    let rename = |path_string: &str, target_number: i32, fill: i32| RenameFolderNumber {
        base_path_string: "./".to_string(),
        path_string: path_string.to_string(),
        target_number,
        fill,
    };
    assert_eq!(rename("temp", 25, 1).exec_rename(&mut dir), Ok(()));
    assert_eq!(dir.executor().folder_named("025_temp"), Some(100));
    assert_eq!(dir.executor().folder_named("temp"), None);
    assert_eq!(
        rename("other", 25, 1).exec_rename(&mut dir),
        Ok(())
    );
    assert_eq!(dir.executor().folder_named("025_other"), Some(101));
    assert_eq!(
        rename("025_other", 25, 1).exec_rename(&mut dir),
        Ok(())
    );
    assert_eq!(
        rename("gone", 1, 0).exec_rename(&mut dir),
        Err(ExecuteRenameError("missing".to_string()))
    );
    let mut dir = directory(&["1_a", "2_a"]);
    assert_eq!(
        rename("1_a", 2, 0).exec_rename(&mut dir),
        Err(ExecuteRenameError("occupied".to_string()))
    );
    assert_eq!(dir.executor().folder_named("1_a"), Some(100));
}

#[test]
fn folder_numbers_lists_through_the_executor() {
    let mut dir = directory(&["12_a", "hoge"]);
    let folders = folder_numbers(&mut dir, "./".to_string()).unwrap();
    assert_eq!(folders.len(), 2);
    assert_eq!(folders[0].path_string, "12_a");
    assert_eq!(folders[0].number, Some(12));
    assert_eq!(folders[1].number, None);
    let mut closed = shelf(&["3_a"]);
    closed.listable = false;
    let mut dir = Journaled::new(closed);
    assert!(folder_numbers(&mut dir, "./".to_string()).is_err());
}

#[test]
fn folder_list() {
    let mut dir = directory(&["temp", "1_a"]);
    let folders = folder_numbers(&mut dir, "./".to_string()).unwrap();
    folders.iter().for_each(|folder| {
        let name = &folder.path_string;
        println!("{:?}", name);
    });
    let names: Vec<&str> = folders.iter().map(|f| f.path_string.as_str()).collect();
    assert_eq!(names, vec!["temp", "1_a"]);
}

#[test]
fn folder_rename_test() {
    let mut dir = directory(&["temp"]);
    let instruction = RenameFolderNumber {
        base_path_string: "./".to_string(),
        path_string: "temp".to_string(),
        target_number: 25,
        fill: 1,
    };
    instruction.exec_rename(&mut dir).unwrap();
    assert_eq!(dir.executor().folder_named("025_temp"), Some(100));
}
