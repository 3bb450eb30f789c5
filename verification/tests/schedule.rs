use fnum::entities::FolderList;
use fnum::entities::FolderNameVariant;
use fnum::entities::NumberingNumber;
use fnum::schedule::schedule;
use fnum::schedule::RenameStep;
use fnum::usecase::run_steps;
use fnum::usecase::ChangeError;
use fnum::usecase::ExecuteRenameError;
use fnum::usecase::FolderNameChanger;
use fnum::usecase::FolderRenameExecutor;
use fnum::usecase::InvalidPlanInput;
use fnum::usecase::Journaled;
use fnum::usecase::ListError;
use fnum::usecase::PathString;

fn list(names: &[&str]) -> FolderList {
    FolderList::new(names.iter().map(|n| FolderNameVariant::parse(n)).collect())
}

fn step(from: &str, to: &str) -> RenameStep {
    RenameStep {
        from: from.to_string(),
        to: to.to_string(),
    }
}

fn path() -> PathString {
    PathString("d".to_string())
}

/// A directory in memory: folders under names. It keeps a log, refuses the
/// rename with a given index, and counts renames onto a name in use.
struct Directory {
    path: String,
    folders: Vec<(String, u64)>,
    log: Vec<(String, String)>,
    refuse_at: Option<usize>,
    occupied_hits: usize,
}

fn directory(names: &[&str]) -> Directory {
    Directory {
        path: "d".to_string(),
        folders: names
            .iter()
            .enumerate()
            .map(|(i, n)| (n.to_string(), 100 + i as u64))
            .collect(),
        log: Vec::new(),
        refuse_at: None,
        occupied_hits: 0,
    }
}

fn refusing(names: &[&str], at: usize) -> Directory {
    let mut dir = directory(names);
    dir.refuse_at = Some(at);
    dir
}

impl Directory {
    fn folder_named(&self, name: &str) -> Option<u64> {
        self.folders.iter().find(|f| f.0 == name).map(|f| f.1)
    }

    fn names(&self) -> Vec<String> {
        self.folders.iter().map(|f| f.0.clone()).collect()
    }
}

impl FolderRenameExecutor for Directory {
    fn get_folder_names(&self, path: &PathString) -> Result<Vec<String>, ListError> {
        if path.0 != self.path {
            return Err(ListError("no such directory".to_string()));
        }
        Ok(self.names())
    }

    fn execute_rename(
        &mut self,
        _base: &PathString,
        from: &String,
        to: &String,
    ) -> Result<(), ExecuteRenameError> {
        if self.refuse_at == Some(self.log.len()) {
            return Err(ExecuteRenameError("refused".to_string()));
        }
        if from != to && self.folder_named(to).is_some() {
            self.occupied_hits += 1;
            return Err(ExecuteRenameError("occupied".to_string()));
        }
        match self.folders.iter().position(|f| f.0 == *from) {
            Some(i) => {
                self.folders[i].0 = to.clone();
                self.log.push((from.clone(), to.clone()));
                Ok(())
            }
            None => Err(ExecuteRenameError("missing".to_string())),
        }
    }
}

#[test]
fn schedule_skips_no_ops() {
    let entries = list(&["0_a", "1_b", "5_c"]);
    let steps = schedule(&entries.order(), &entries);
    assert_eq!(steps, vec![step("5_c", "2_c")]);
}

#[test]
fn schedule_shift_up_runs_from_the_top() {
    let entries = list(&["0_a", "1_a", "2_a", "new"]);
    let plan = entries.number(FolderNameVariant::parse("new"), NumberingNumber::new(0));
    let steps = schedule(&plan, &entries);
    assert_eq!(
        steps,
        vec![
            step("new", "0_new"),
            step("2_a", "3_a"),
            step("1_a", "2_a"),
            step("0_a", "1_a"),
        ]
    );
}

#[test]
fn schedule_compaction_runs_from_the_bottom() {
    let entries = list(&["1_a", "2_a", "3_a"]);
    let steps = schedule(&entries.order(), &entries);
    assert_eq!(
        steps,
        vec![step("1_a", "0_a"), step("2_a", "1_a"), step("3_a", "2_a")]
    );
}

#[test]
fn schedule_stages_a_swap() {
    let entries = list(&["0_x", "1_x"]);
    let plan = entries.number(FolderNameVariant::parse("1_x"), NumberingNumber::new(0));
    let steps = schedule(&plan, &entries);
    assert_eq!(
        steps,
        vec![step("1_x", "1_x~"), step("0_x", "1_x"), step("1_x~", "0_x")]
    );
}

#[test]
fn spare_name_is_longer_than_every_entry() {
    let entries = list(&["0_x", "1_x", "a_very_long_plain_name", "x~"]);
    let plan = entries.number(FolderNameVariant::parse("1_x"), NumberingNumber::new(0));
    let steps = schedule(&plan, &entries);
    let spare = format!("1_x{}", "~".repeat(20));
    assert_eq!(spare.chars().count(), "a_very_long_plain_name".len() + 1);
    assert_eq!(
        steps,
        vec![step("1_x", &spare), step("0_x", "1_x"), step(&spare, "0_x")]
    );
}

#[test]
fn swap_succeeds_in_memory() {
    let mut changer = FolderNameChanger::new(directory(&["0_x", "1_x", "notes"]), path());
    let r = changer.number(FolderNameVariant::parse("1_x"), NumberingNumber::new(0));
    assert_eq!(r, Ok(()));
    assert_eq!(changer.executor.executor().folder_named("0_x"), Some(101));
    assert_eq!(changer.executor.executor().folder_named("1_x"), Some(100));
    assert_eq!(changer.executor.executor().folder_named("notes"), Some(102));
    assert_eq!(changer.executor.executor().folder_named("1_x~"), None);
}

#[test]
fn swap_never_hits_an_occupied_name() {
    let mut journaled = Journaled::new(directory(&["0_x", "1_x"]));
    let entries = list(&["0_x", "1_x"]);
    let plan = entries.number(FolderNameVariant::parse("1_x"), NumberingNumber::new(0));
    let r = fnum::usecase::execute(&mut journaled, &path(), &plan, &entries);
    assert_eq!(r, Ok(()));
    let dir = journaled.into_executor();
    assert_eq!(dir.occupied_hits, 0);
    assert_eq!(dir.log.len(), 3);
    assert_eq!(dir.folder_named("0_x"), Some(101));
    assert_eq!(dir.folder_named("1_x"), Some(100));
}

#[test]
fn three_cycle_by_hand() {
    let mut journaled = Journaled::new(directory(&["a", "b", "c"]));
    let steps = vec![
        step("a", "a~"),
        step("c", "a"),
        step("b", "c"),
        step("a~", "b"),
    ];
    assert_eq!(run_steps(&mut journaled, &path(), &steps), Ok(()));
    let dir = journaled.executor();
    assert_eq!(dir.folder_named("a"), Some(102));
    assert_eq!(dir.folder_named("b"), Some(100));
    assert_eq!(dir.folder_named("c"), Some(101));
}

#[test]
fn failure_reports_step_and_count() {
    let mut journaled = Journaled::new(refusing(&["1_a", "2_a", "3_a"], 1));
    let entries = list(&["1_a", "2_a", "3_a"]);
    let steps = schedule(&entries.order(), &entries);
    let r = run_steps(&mut journaled, &path(), &steps);
    let failure = r.unwrap_err();
    let dir = journaled.executor();
    assert_eq!(failure.applied, 1);
    assert_eq!(failure.step, step("2_a", "1_a"));
    assert_eq!(failure.error, ExecuteRenameError("refused".to_string()));
    assert_eq!(dir.log, vec![("1_a".to_string(), "0_a".to_string())]);
    assert_eq!(
        dir.names(),
        vec!["0_a".to_string(), "2_a".to_string(), "3_a".to_string()]
    );
}

#[test]
fn failure_at_first_step() {
    let mut journaled = Journaled::new(directory(&["a"]));
    let steps = vec![step("zz", "c"), step("a", "b")];
    let failure = run_steps(&mut journaled, &path(), &steps).unwrap_err();
    let dir = journaled.executor();
    assert!(dir.log.is_empty());
    assert_eq!(failure.applied, 0);
    assert_eq!(failure.step, step("zz", "c"));
    assert_eq!(dir.folder_named("a"), Some(100));
    assert_eq!(dir.folder_named("b"), None);
}

#[test]
fn failure_in_memory_partway() {
    let mut journaled = Journaled::new(directory(&["a", "x"]));
    let steps = vec![step("a", "b"), step("b", "x"), step("x", "y")];
    let failure = run_steps(&mut journaled, &path(), &steps).unwrap_err();
    let dir = journaled.executor();
    assert_eq!(dir.occupied_hits, 1);
    assert_eq!(failure.applied, 1);
    assert_eq!(failure.step, step("b", "x"));
    assert_eq!(dir.folder_named("b"), Some(100));
    assert_eq!(dir.folder_named("x"), Some(101));
}

#[test]
fn changer_reports_refused_rename() {
    let mut changer = FolderNameChanger::new(refusing(&["4_a", "7_b", "k"], 1), path());
    match changer.order() {
        Err(ChangeError::Rename(failure)) => {
            assert_eq!(failure.applied, 1);
            assert_eq!(failure.step, step("7_b", "1_b"));
        }
        other => panic!("{:?}", other),
    }
}

#[test]
fn changer_orders_a_directory() {
    let mut changer = FolderNameChanger::new(directory(&["5_a", "2_b", "5_a2", "k"]), path());
    assert_eq!(changer.order(), Ok(()));
    assert_eq!(changer.executor.executor().folder_named("0_b"), Some(101));
    assert_eq!(changer.executor.executor().folder_named("1_a"), Some(100));
    assert_eq!(changer.executor.executor().folder_named("2_a2"), Some(102));
    assert_eq!(changer.executor.executor().folder_named("k"), Some(103));
    assert_eq!(changer.executor.executor().folder_named("5_a"), None);
    assert_eq!(changer.order(), Ok(()));
    assert_eq!(changer.executor.executor().folder_named("0_b"), Some(101));
}

#[test]
fn changer_inserts_a_folder() {
    let mut changer = FolderNameChanger::new(directory(&["0_a", "1_b", "2_c", "new"]), path());
    let r = changer.number(FolderNameVariant::parse("new"), NumberingNumber::new(1));
    assert_eq!(r, Ok(()));
    assert_eq!(changer.executor.executor().folder_named("0_a"), Some(100));
    assert_eq!(changer.executor.executor().folder_named("1_new"), Some(103));
    assert_eq!(changer.executor.executor().folder_named("2_b"), Some(101));
    assert_eq!(changer.executor.executor().folder_named("3_c"), Some(102));
    assert_eq!(changer.executor.executor().folder_named("new"), None);
}

#[test]
fn changer_refuses_unknown_folder() {
    let mut changer = FolderNameChanger::new(directory(&["0_a", "1_b"]), path());
    let r = changer.number(FolderNameVariant::parse("new"), NumberingNumber::new(1));
    assert_eq!(
        r,
        Err(ChangeError::InvalidPlanInput(InvalidPlanInput::UnknownFolder))
    );
    assert_eq!(changer.executor.executor().folder_named("0_a"), Some(100));
    assert_eq!(changer.executor.executor().folder_named("1_b"), Some(101));
}

#[test]
fn changer_reports_list_error() {
    let mut changer = FolderNameChanger::new(
        directory(&["0_a", "1_b"]),
        PathString("elsewhere".to_string()),
    );
    match changer.order() {
        Err(ChangeError::List(ListError(_))) => {}
        other => panic!("{:?}", other),
    }
}

#[test]
fn nothing_to_do_succeeds() {
    let mut journaled = Journaled::new(refusing(&["0_a", "1_b", "k"], 0));
    assert_eq!(run_steps(&mut journaled, &path(), &Vec::new()), Ok(()));
    let mut changer = FolderNameChanger::new(journaled.into_executor(), path());
    assert_eq!(changer.order(), Ok(()));
    assert!(changer.executor.executor().log.is_empty());
}

#[test]
fn three_cycle_from_the_planner() {
    let mut changer = FolderNameChanger::new(directory(&["0_x", "1_x", "2_x", "07_y"]), path());
    let r = changer.number(FolderNameVariant::parse("2_x"), NumberingNumber::new(0));
    assert_eq!(r, Ok(()));
    let dir = changer.executor.executor();
    assert_eq!(dir.occupied_hits, 0);
    assert_eq!(dir.folder_named("0_x"), Some(102));
    assert_eq!(dir.folder_named("1_x"), Some(100));
    assert_eq!(dir.folder_named("2_x"), Some(101));
    assert_eq!(dir.folder_named("3_y"), Some(103));
    assert_eq!(dir.names().len(), 4);
    assert_eq!(
        dir.log,
        vec![
            ("07_y".to_string(), "3_y".to_string()),
            ("2_x".to_string(), "2_x~~".to_string()),
            ("1_x".to_string(), "2_x".to_string()),
            ("0_x".to_string(), "1_x".to_string()),
            ("2_x~~".to_string(), "0_x".to_string()),
        ]
    );
}

#[test]
fn two_cycles_get_two_spare_names() {
    let op = |from: &str, to: &str| {
        fnum::entities::FolderRenameInstruction::new(
            FolderNameVariant::parse(from),
            match FolderNameVariant::parse(to) {
                FolderNameVariant::Numbered(n) => n,
                FolderNameVariant::Normal(_) => panic!("{}", to),
            },
        )
    };
    let entries = list(&["0_p", "1_p", "0_q", "1_q"]);
    let plan = vec![
        op("0_p", "1_p"),
        op("1_p", "0_p"),
        op("0_q", "1_q"),
        op("1_q", "0_q"),
    ];
    let steps = schedule(&plan, &entries);
    assert_eq!(
        steps,
        vec![
            step("0_p", "0_p~"),
            step("1_p", "0_p"),
            step("0_q", "0_q~~"),
            step("1_q", "0_q"),
            step("0_q~~", "1_q"),
            step("0_p~", "1_p"),
        ]
    );
    let mut journaled = Journaled::new(directory(&["0_p", "1_p", "0_q", "1_q"]));
    assert_eq!(run_steps(&mut journaled, &path(), &steps), Ok(()));
    let dir = journaled.executor();
    assert_eq!(dir.occupied_hits, 0);
    assert_eq!(dir.folder_named("0_p"), Some(101));
    assert_eq!(dir.folder_named("1_p"), Some(100));
    assert_eq!(dir.folder_named("0_q"), Some(103));
    assert_eq!(dir.folder_named("1_q"), Some(102));
}

#[test]
fn target_given_as_plain_never_hits_an_occupied_name() {
    let plain = FolderNameVariant::Normal(fnum::entities::FolderName::new("1_x".to_string()));
    let mut changer = FolderNameChanger::new(directory(&["0_x", "1_x", "2_x"]), path());
    let r = changer.number(plain, NumberingNumber::new(0));
    let dir = changer.executor.executor();
    assert_eq!(dir.occupied_hits, 0);
    match r {
        Err(ChangeError::Rename(failure)) => {
            assert_eq!(failure.error, ExecuteRenameError("missing".to_string()));
            assert_eq!(failure.applied, dir.log.len());
        }
        other => panic!("{:?}", other),
    }
}
