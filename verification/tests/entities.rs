use fnum::digits::DigitsError;
use fnum::entities::FolderName;
use fnum::entities::FolderNameNormalized;
use fnum::entities::FolderNameVariant;
use fnum::entities::FolderNumber;
use fnum::entities::FolderRenameInstruction;
use fnum::entities::HeadError;
use fnum::entities::NumberedFolderName;

fn numbered(value: usize, width: usize, rest: &str) -> NumberedFolderName {
    NumberedFolderName::new(
        FolderNumber::new(value, width),
        FolderNameNormalized::new(rest.to_string()),
    )
}

#[test]
fn folder_name_get_remaining_ok() {
    let name = FolderName::new("1_hoge".to_string());
    let result = name.get_remaining_name();
    assert_eq!(result.as_str(), "hoge");
}

#[test]
fn folder_name_get_remaining_err() {
    let name = FolderName::new("hoge".to_string());
    let result = name.get_remaining_name();
    assert_eq!(result.as_str(), "hoge");
}

#[test]
fn folder_name_get_first_num() {
    let name = FolderName::new("28_hoge".to_string());
    let result = name.get_first_number().unwrap();
    assert_eq!(result, FolderNumber::new(28, 2));
}

#[test]
fn folder_name_try_into_success() {
    let folder_name = FolderName::new("39_hoge".to_string());
    let numbered_folder_name: Result<NumberedFolderName, _> = folder_name.try_into();
    assert!(numbered_folder_name.is_ok());
    assert_eq!(numbered_folder_name, Ok(numbered(39, 2, "hoge")));
}

#[test]
fn folder_name_try_into_failure() {
    let folder_name = FolderName::new("hoge".to_string());
    let numbered_folder_name: Result<NumberedFolderName, _> = folder_name.try_into();
    assert!(numbered_folder_name.is_err());
}

#[test]
fn numbered_folder_name_cmp() {
    let numbered_folder_name_1 = numbered(39, 2, "hoge");
    let numbered_folder_name_2 = numbered(40, 2, "hoge");
    assert!(numbered_folder_name_1 < numbered_folder_name_2);
    assert_eq!(
        numbered_folder_name_1.cmp(&numbered_folder_name_2),
        std::cmp::Ordering::Less
    );
}

#[test]
fn numbering_folder_name() {
    let folder_name = FolderName::new("hoge".to_string());
    let instruction = folder_name.numbering(FolderNumber::new(39, 2));
    let instruction_expect = FolderRenameInstruction::new(
        FolderNameVariant::Normal(folder_name.clone()),
        numbered(39, 2, "hoge"),
    );
    assert_eq!(instruction, instruction_expect);
}

#[test]
fn numbering_folder_get_name() {
    let numbered_folder_name = numbered(39, 2, "hoge");
    assert_eq!(
        numbered_folder_name.get_name(),
        FolderName::new("39_hoge".to_string())
    );
}

#[test]
fn numbering_folder_numbering() {
    let numbered_folder_name = numbered(39, 2, "hoge");
    let instruction = numbered_folder_name.numbering(FolderNumber::new(40, 2));
    let instruction_expect = FolderRenameInstruction::new(
        FolderNameVariant::Numbered(numbered_folder_name),
        numbered(40, 2, "hoge"),
    );
    assert_eq!(instruction, instruction_expect);
}

#[test]
fn numbering_folder_get_remaining() {
    let numbered_folder_name = numbered(39, 2, "hoge");
    assert_eq!(
        numbered_folder_name.get_remaining_name(),
        FolderNameNormalized::new("hoge".to_string())
    );
}

#[test]
fn numbering_folder_get_first_number() {
    let numbered_folder_name = numbered(39, 2, "hoge");
    assert_eq!(
        numbered_folder_name.get_first_number(),
        Ok(FolderNumber::new(39, 2))
    );
}

#[test]
fn parse_plain_name() {
    assert_eq!(
        FolderNameVariant::parse("hoge"),
        FolderNameVariant::Normal(FolderName::new("hoge".to_string()))
    );
}

#[test]
fn parse_padded_number() {
    assert_eq!(
        FolderNameVariant::parse("007_hoge"),
        FolderNameVariant::Numbered(numbered(7, 3, "hoge"))
    );
}

#[test]
fn parse_bare_number_is_plain() {
    assert_eq!(
        FolderNameVariant::parse("12"),
        FolderNameVariant::Normal(FolderName::new("12".to_string()))
    );
}

#[test]
fn parse_keeps_later_separators() {
    assert_eq!(
        FolderNameVariant::parse("3_a_b__c"),
        FolderNameVariant::Numbered(numbered(3, 1, "a_b__c"))
    );
}

#[test]
fn parse_empty_remainder() {
    assert_eq!(
        FolderNameVariant::parse("5_"),
        FolderNameVariant::Numbered(numbered(5, 1, ""))
    );
}

#[test]
fn parse_refuses_signs_and_blanks() {
    for raw in ["+5_a", "-5_a", " 5_a", "5 _a", "0x1_a", "٣_a"] {
        assert_eq!(
            FolderNameVariant::parse(raw),
            FolderNameVariant::Normal(FolderName::new(raw.to_string())),
            "{}",
            raw
        );
    }
}

#[test]
fn parse_empty_name() {
    assert_eq!(
        FolderNameVariant::parse(""),
        FolderNameVariant::Normal(FolderName::new(String::new()))
    );
}

#[test]
fn parse_counts_characters_not_bytes() {
    assert_eq!(
        FolderNameVariant::parse("01_été_ü"),
        FolderNameVariant::Numbered(numbered(1, 2, "été_ü"))
    );
}

#[test]
fn first_number_errors() {
    let first = |raw: &str| FolderName::new(raw.to_string()).get_first_number();
    assert_eq!(first("hoge"), Err(HeadError::NoSeparator));
    assert_eq!(first("12"), Err(HeadError::NoSeparator));
    assert_eq!(first("_hoge"), Err(HeadError::NotANumber(DigitsError::Empty)));
    assert_eq!(
        first("1a_hoge"),
        Err(HeadError::NotANumber(DigitsError::InvalidDigit))
    );
    assert_eq!(
        first("+1_hoge"),
        Err(HeadError::NotANumber(DigitsError::InvalidDigit))
    );
    assert_eq!(
        first("99999999999999999999999999999999999999999_hoge"),
        Err(HeadError::NotANumber(DigitsError::Overflow))
    );
    assert_eq!(
        first("99999999999999999999999999999999999999999x_hoge"),
        Err(HeadError::NotANumber(DigitsError::InvalidDigit))
    );
}

#[test]
fn first_number_largest() {
    let raw = format!("{}_x", usize::MAX);
    let width = usize::MAX.to_string().len();
    assert_eq!(
        FolderName::new(raw.clone()).get_first_number(),
        Ok(FolderNumber::new(usize::MAX, width))
    );
    let over = format!("{}0_x", usize::MAX);
    assert_eq!(
        FolderName::new(over).get_first_number(),
        Err(HeadError::NotANumber(DigitsError::Overflow))
    );
    assert_eq!(FolderNameVariant::parse(&raw).render(None), raw);
}

#[test]
fn overflowing_head_is_plain() {
    let raw = "99999999999999999999999999999999999999999_hoge";
    assert_eq!(
        FolderNameVariant::parse(raw),
        FolderNameVariant::Normal(FolderName::new(raw.to_string()))
    );
}

#[test]
fn render_pads_to_override() {
    let name = FolderNameVariant::Numbered(numbered(7, 1, "hoge"));
    assert_eq!(name.render(None), "7_hoge");
    assert_eq!(name.render(Some(3)), "007_hoge");
    assert_eq!(name.render(Some(1)), "7_hoge");
    assert_eq!(name.render(Some(0)), "7_hoge");
}

#[test]
fn render_never_cuts_digits() {
    let name = FolderNameVariant::Numbered(numbered(1234, 4, "x"));
    assert_eq!(name.render(Some(2)), "1234_x");
    assert_eq!(name.render(Some(6)), "001234_x");
}

#[test]
fn render_plain_is_unchanged() {
    let name = FolderNameVariant::Normal(FolderName::new("hoge".to_string()));
    assert_eq!(name.render(None), "hoge");
    assert_eq!(name.render(Some(5)), "hoge");
}

#[test]
fn render_zero() {
    let name = FolderNameVariant::Numbered(numbered(0, 3, ""));
    assert_eq!(name.render(None), "000_");
}

#[test]
fn render_parse_round_trip() {
    for raw in [
        "hoge", "007_hoge", "12", "0_a", "000_", "_", "__", "10_x_y", "1_", "a_1", "00", "9_９",
        "18446744073709551615_max", "",
    ] {
        let shape = FolderNameVariant::parse(raw);
        assert_eq!(shape.render(None), raw, "{}", raw);
        let width = match &shape {
            FolderNameVariant::Numbered(n) => Some(n.number().get_width()),
            FolderNameVariant::Normal(_) => None,
        };
        assert_eq!(shape.render(width), raw, "{}", raw);
        assert_eq!(shape.get_name().as_str(), raw);
    }
}

#[test]
fn parse_render_round_trip() {
    for (value, width, rest) in [(0, 1, "a"), (7, 3, "hoge"), (120, 3, "x_y"), (5, 9, "")] {
        let name = numbered(value, width, rest);
        let raw = name.get_name().into_string();
        assert_eq!(
            FolderNameVariant::parse(&raw),
            FolderNameVariant::Numbered(name)
        );
    }
}

#[test]
fn number_width_is_never_too_small() {
    let n = FolderNumber::new(1234, 2);
    assert_eq!(n.get_value(), 1234);
    assert_eq!(n.get_width(), 4);
    let m = FolderNumber::new(0, 0);
    assert_eq!(m.get_width(), 1);
    let k = FolderNumber::new(9, 5);
    assert_eq!(k.get_width(), 5);
}

#[test]
fn numbering_strips_an_unparsed_number() {
    let folder_name = FolderName::new("3_hoge".to_string());
    let instruction = folder_name.numbering(FolderNumber::new(12, 2));
    assert_eq!(instruction.from_name(), "3_hoge");
    assert_eq!(instruction.to_name(), "12_hoge");
}

#[test]
fn variant_numbering() {
    let plain = FolderNameVariant::parse("new");
    let i = plain.numbering(FolderNumber::new(1, 2));
    assert_eq!(i.from_name(), "new");
    assert_eq!(i.to_name(), "01_new");
    assert_eq!(i.target(), &plain);
    assert_eq!(i.new_name(), &numbered(1, 2, "new"));
    let num = FolderNameVariant::parse("007_hoge");
    let j = num.numbering(FolderNumber::new(10, 2));
    assert_eq!(j.from_name(), "007_hoge");
    assert_eq!(j.to_name(), "10_hoge");
}

#[test]
fn classify_matches_parse() {
    for raw in ["hoge", "1_hoge", "12", "x_1"] {
        assert_eq!(
            FolderName::new(raw.to_string()).classify(),
            FolderNameVariant::parse(raw)
        );
    }
}
