use fnum::entities::FolderNameNormalized;
use fnum::entities::FolderNumber;
use fnum::entities::NumberedFolderName;
use fnum::ranking::rank_names;
use fnum::ranking::ranks_before;
use std::cmp::Ordering;

fn numbered(value: usize, width: usize, rest: &str) -> NumberedFolderName {
    NumberedFolderName::new(
        FolderNumber::new(value, width),
        FolderNameNormalized::new(rest.to_string()),
    )
}

#[test]
fn order_goes_by_number() {
    assert_eq!(numbered(9, 1, "z").cmp(&numbered(10, 2, "a")), Ordering::Less);
    assert_eq!(numbered(10, 2, "a").cmp(&numbered(9, 1, "z")), Ordering::Greater);
    assert_eq!(numbered(2, 3, "a").cmp(&numbered(10, 2, "a")), Ordering::Less);
    assert!(numbered(9, 1, "z") < numbered(10, 2, "a"));
    assert!(numbered(10, 2, "a") > numbered(9, 1, "z"));
    assert!(numbered(9, 1, "z") <= numbered(10, 2, "a"));
}

#[test]
fn names_of_one_number_compare_equal() {
    assert_eq!(numbered(5, 1, "a").cmp(&numbered(5, 1, "b")), Ordering::Equal);
    assert_eq!(numbered(5, 1, "b").cmp(&numbered(5, 1, "a")), Ordering::Equal);
    assert_eq!(numbered(5, 1, "a").cmp(&numbered(5, 2, "a")), Ordering::Equal);
    assert_eq!(numbered(5, 3, "z").cmp(&numbered(5, 1, "")), Ordering::Equal);
    assert_eq!(numbered(5, 1, "a").cmp(&numbered(5, 1, "a")), Ordering::Equal);
    assert_eq!(
        numbered(5, 1, "a").partial_cmp(&numbered(5, 1, "b")),
        Some(Ordering::Equal)
    );
    assert!(!(numbered(5, 1, "a") < numbered(5, 1, "b")));
    assert!(!(numbered(5, 1, "a") > numbered(5, 1, "b")));
    assert!(numbered(5, 1, "a") <= numbered(5, 1, "b"));
    assert!(numbered(5, 1, "a") >= numbered(5, 2, "b"));
}

#[test]
fn rank_of_equal_numbers_goes_by_raw_name() {
    assert!(ranks_before(&numbered(5, 1, "a"), &numbered(5, 1, "a2")));
    assert!(!ranks_before(&numbered(5, 1, "a2"), &numbered(5, 1, "a")));
    assert!(ranks_before(&numbered(5, 1, "a2"), &numbered(5, 1, "b")));
    assert!(!ranks_before(&numbered(5, 1, "b"), &numbered(5, 1, "a2")));
    assert!(ranks_before(&numbered(5, 2, "z"), &numbered(5, 1, "a")));
    assert!(ranks_before(&numbered(5, 1, ""), &numbered(5, 1, "a")));
}

#[test]
fn rank_of_a_name_to_itself() {
    assert!(!ranks_before(&numbered(5, 1, "a"), &numbered(5, 1, "a")));
}

#[test]
fn rank_goes_by_character() {
    assert!(ranks_before(&numbered(1, 1, "z"), &numbered(1, 1, "é")));
    assert!(!ranks_before(&numbered(1, 1, "é"), &numbered(1, 1, "z")));
    assert!(ranks_before(&numbered(1, 1, "Z"), &numbered(1, 1, "a")));
}

#[test]
fn rank_goes_by_number_before_name() {
    assert!(ranks_before(&numbered(9, 1, "z"), &numbered(10, 2, "a")));
    assert!(!ranks_before(&numbered(10, 2, "a"), &numbered(9, 1, "z")));
}

#[test]
fn rank_names_sorts() {
    let names = vec![
        numbered(5, 1, "a"),
        numbered(2, 1, "b"),
        numbered(5, 1, "a2"),
        numbered(10, 2, "c"),
        numbered(2, 2, "b"),
        numbered(0, 1, "z"),
    ];
    let raw: Vec<String> = rank_names(&names)
        .iter()
        .map(|n| n.get_name().into_string())
        .collect();
    assert_eq!(raw, vec!["0_z", "02_b", "2_b", "5_a", "5_a2", "10_c"]);
    assert!(rank_names(&Vec::new()).is_empty());
}
