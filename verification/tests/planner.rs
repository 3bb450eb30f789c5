use fnum::entities::FolderList;
use fnum::entities::FolderNameVariant;
use fnum::entities::FolderRenameInstruction;
use fnum::entities::NumberingNumber;

fn list(names: &[&str]) -> FolderList {
    FolderList::new(names.iter().map(|n| FolderNameVariant::parse(n)).collect())
}

fn pairs(plan: &[FolderRenameInstruction]) -> Vec<(String, String)> {
    plan.iter().map(|op| (op.from_name(), op.to_name())).collect()
}

fn expect(pairs_: &[(&str, &str)]) -> Vec<(String, String)> {
    pairs_
        .iter()
        .map(|(a, b)| (a.to_string(), b.to_string()))
        .collect()
}

#[test]
fn reorder_breaks_ties_by_name() {
    let plan = list(&["5_a", "2_b", "5_a2"]).order();
    assert_eq!(
        pairs(&plan),
        expect(&[("2_b", "0_b"), ("5_a", "1_a"), ("5_a2", "2_a2")])
    );
}

#[test]
fn reorder_empty() {
    assert!(list(&[]).order().is_empty());
    assert!(list(&["a", "b", "12"]).order().is_empty());
}

#[test]
fn reorder_leaves_plain_names_alone() {
    let plan = list(&["x", "3_a", "readme", "1_b", "12"]).order();
    assert_eq!(pairs(&plan), expect(&[("1_b", "0_b"), ("3_a", "1_a")]));
}

#[test]
fn reorder_keeps_unchanged_entries_in_the_plan() {
    let plan = list(&["0_a", "1_b", "5_c"]).order();
    assert_eq!(
        pairs(&plan),
        expect(&[("0_a", "0_a"), ("1_b", "1_b"), ("5_c", "2_c")])
    );
}

#[test]
fn reorder_width_is_that_of_the_largest_rank() {
    let names: Vec<String> = (0..11).map(|i| format!("{}_f{}", i * 3, i)).collect();
    let refs: Vec<&str> = names.iter().map(|s| s.as_str()).collect();
    let plan = list(&refs).order();
    assert_eq!(plan.len(), 11);
    assert_eq!(plan[0].to_name(), "00_f0");
    assert_eq!(plan[9].to_name(), "09_f9");
    assert_eq!(plan[10].to_name(), "10_f10");
    let ten: Vec<&str> = refs[..10].to_vec();
    let plan = list(&ten).order();
    assert_eq!(plan[9].to_name(), "9_f9");
    assert_eq!(plan[0].to_name(), "0_f0");
}

#[test]
fn reorder_ranks_by_number_not_by_text() {
    let plan = list(&["10_a", "9_b", "009_a", "1_z"]).order();
    assert_eq!(
        pairs(&plan),
        expect(&[("1_z", "0_z"), ("009_a", "1_a"), ("9_b", "2_b"), ("10_a", "3_a")])
    );
}

#[test]
fn reorder_twice_changes_nothing() {
    let first = list(&["5_a", "2_b", "5_a2", "x", "40_c"]).order();
    let renamed: Vec<String> = first.iter().rev().map(|op| op.to_name()).collect();
    let refs: Vec<&str> = renamed.iter().map(|s| s.as_str()).collect();
    let second = list(&refs).order();
    assert_eq!(second.len(), 4);
    for op in &second {
        assert_eq!(op.from_name(), op.to_name());
    }
}

#[test]
fn assign_rank_inserts_and_shifts() {
    let plan = list(&["0_a", "1_b", "2_c"]).number(
        FolderNameVariant::parse("new"),
        NumberingNumber::new(1),
    );
    assert_eq!(
        pairs(&plan),
        expect(&[("new", "1_new"), ("1_b", "2_b"), ("2_c", "3_c")])
    );
}

#[test]
fn assign_rank_into_empty_directory() {
    let plan = list(&["x", "y"]).number(FolderNameVariant::parse("x"), NumberingNumber::new(5));
    assert_eq!(pairs(&plan), expect(&[("x", "0_x")]));
    let plan = list(&[]).number(FolderNameVariant::parse("x"), NumberingNumber::new(12));
    assert_eq!(pairs(&plan), expect(&[("x", "00_x")]));
}

#[test]
fn assign_rank_closes_other_gaps() {
    let plan = list(&["2_a", "7_b", "9_c"]).number(
        FolderNameVariant::parse("new"),
        NumberingNumber::new(7),
    );
    assert_eq!(
        pairs(&plan),
        expect(&[("2_a", "00_a"), ("new", "01_new"), ("7_b", "02_b"), ("9_c", "03_c")])
    );
}

#[test]
fn assign_rank_moves_a_numbered_entry() {
    let plan = list(&["0_a", "1_b", "2_c"]).number(
        FolderNameVariant::parse("2_c"),
        NumberingNumber::new(0),
    );
    assert_eq!(
        pairs(&plan),
        expect(&[("2_c", "0_c"), ("0_a", "1_a"), ("1_b", "2_b")])
    );
}

#[test]
fn assign_rank_keeps_target_even_if_unchanged() {
    let plan = list(&["0_a", "1_b", "2_c"]).number(
        FolderNameVariant::parse("1_b"),
        NumberingNumber::new(1),
    );
    assert_eq!(pairs(&plan), expect(&[("1_b", "1_b")]));
}

#[test]
fn assign_rank_beyond_the_end() {
    let plan = list(&["0_a", "1_b"]).number(
        FolderNameVariant::parse("new"),
        NumberingNumber::new(50),
    );
    assert_eq!(
        pairs(&plan),
        expect(&[("0_a", "00_a"), ("1_b", "01_b"), ("new", "02_new")])
    );
}

#[test]
fn assign_rank_width_follows_the_largest_shifted_number() {
    let plan = list(&["9_a"]).number(FolderNameVariant::parse("new"), NumberingNumber::new(3));
    assert_eq!(pairs(&plan), expect(&[("new", "00_new"), ("9_a", "01_a")]));
    let plan = list(&["9_a"]).number(FolderNameVariant::parse("new"), NumberingNumber::new(10));
    assert_eq!(pairs(&plan), expect(&[("9_a", "00_a"), ("new", "01_new")]));
    let plan = list(&["8_a"]).number(FolderNameVariant::parse("new"), NumberingNumber::new(9));
    assert_eq!(pairs(&plan), expect(&[("8_a", "0_a"), ("new", "1_new")]));
}

#[test]
fn assign_rank_at_the_largest_number() {
    let top = format!("{}_a", usize::MAX);
    let plan = list(&[&top]).number(
        FolderNameVariant::parse("new"),
        NumberingNumber::new(usize::MAX),
    );
    let width = usize::MAX.to_string().len();
    assert_eq!(plan.len(), 2);
    assert_eq!(plan[0].from_name(), "new");
    assert_eq!(plan[0].to_name(), format!("{}_new", "0".repeat(width)));
    assert_eq!(plan[1].from_name(), top);
    assert_eq!(plan[1].to_name(), format!("{}1_a", "0".repeat(width - 1)));
}

#[test]
fn assign_rank_ties_by_name() {
    let plan = list(&["5_b", "5_a", "1_z"]).number(
        FolderNameVariant::parse("new"),
        NumberingNumber::new(5),
    );
    assert_eq!(
        pairs(&plan),
        expect(&[("1_z", "0_z"), ("new", "1_new"), ("5_a", "2_a"), ("5_b", "3_b")])
    );
}

#[test]
fn filter_numbered_keeps_list_order() {
    let names = list(&["x", "3_a", "1_b", "12"]).filter_numbered();
    let raw: Vec<String> = names.iter().map(|n| n.get_name().into_string()).collect();
    assert_eq!(raw, vec!["3_a".to_string(), "1_b".to_string()]);
}
