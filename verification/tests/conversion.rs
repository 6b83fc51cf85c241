use xlsx2csv::convert::{convert_sheet, find_column, select_sheet, sheet_name};
use xlsx2csv::error::ConvertError;

fn cell(s: &str) -> Option<String> {
    Some(s.to_string())
}

fn header_row() -> Vec<Option<String>> {
    vec![cell("ExperienceProductID"), cell("OptionID")]
}

#[test]
fn scenario_basic_conversion() {
    let sheet = vec![
        vec![cell("ExperienceProductID"), cell("OptionID"), cell("Extra")],
        vec![cell(" 123 "), cell("45"), cell("ignored")],
    ];
    let out = convert_sheet(&sheet, '|').unwrap();
    assert_eq!(out, "ExperienceProductID|OptionID\n123|45");
}

#[test]
fn header_only_sheet() {
    let sheet = vec![header_row()];
    let out = convert_sheet(&sheet, '|').unwrap();
    assert_eq!(out, "ExperienceProductID|OptionID");
    assert!(!out.ends_with('\n'));
}

#[test]
fn empty_sheet_yields_header_only() {
    let sheet: Vec<Vec<Option<String>>> = vec![];
    let out = convert_sheet(&sheet, '|').unwrap();
    assert_eq!(out, "ExperienceProductID|OptionID");
}

#[test]
fn sheet_selection_by_exact_name() {
    assert_eq!(sheet_name(), "Tabelle1");
    let only_other = vec!["Sheet1".to_string()];
    assert_eq!(select_sheet(&only_other), None);
    let mixed = vec![
        "Sheet1".to_string(),
        "Tabelle1".to_string(),
        "Tabelle1".to_string(),
    ];
    assert_eq!(select_sheet(&mixed), Some(1));
    let lower = vec!["tabelle1".to_string()];
    assert_eq!(select_sheet(&lower), None);
}

#[test]
fn missing_option_cell_fails_with_row_index() {
    let sheet = vec![
        header_row(),
        vec![cell("1"), cell("2")],
        vec![cell("3"), None],
    ];
    let err = convert_sheet(&sheet, '|').unwrap_err();
    assert_eq!(err, ConvertError::RowDeserialization { row_index: 1 });
}

#[test]
fn short_row_fails() {
    let sheet = vec![header_row(), vec![cell("only-one")]];
    let err = convert_sheet(&sheet, '|').unwrap_err();
    assert_eq!(err, ConvertError::RowDeserialization { row_index: 0 });
}

#[test]
fn missing_column_fails_at_first_data_row() {
    let sheet = vec![
        vec![cell("ExperienceProductID"), cell("Other")],
        vec![cell("1"), cell("2")],
    ];
    let err = convert_sheet(&sheet, '|').unwrap_err();
    assert_eq!(err, ConvertError::RowDeserialization { row_index: 0 });
}

#[test]
fn missing_column_without_data_rows_succeeds() {
    let sheet = vec![vec![cell("Other")]];
    let out = convert_sheet(&sheet, '|').unwrap();
    assert_eq!(out, "ExperienceProductID|OptionID");
}

#[test]
fn column_order_is_irrelevant() {
    let sheet = vec![
        vec![cell("OptionID"), cell("ExperienceProductID")],
        vec![cell("b"), cell("a")],
    ];
    let out = convert_sheet(&sheet, '|').unwrap();
    assert_eq!(out, "ExperienceProductID|OptionID\na|b");
}

#[test]
fn fields_are_trimmed_but_inner_whitespace_kept() {
    let sheet = vec![
        header_row(),
        vec![cell("  a b  "), cell("\tx\u{00A0}y\u{3000}")],
    ];
    let out = convert_sheet(&sheet, '|').unwrap();
    assert_eq!(out, "ExperienceProductID|OptionID\na b|x\u{00A0}y");
}

#[test]
fn whitespace_only_cells_become_empty_fields() {
    let sheet = vec![header_row(), vec![cell("   "), cell("")]];
    let out = convert_sheet(&sheet, '|').unwrap();
    assert_eq!(out, "ExperienceProductID|OptionID\n|");
}

#[test]
fn custom_delimiter() {
    let sheet = vec![header_row(), vec![cell("1"), cell("2")]];
    let out = convert_sheet(&sheet, ';').unwrap();
    assert_eq!(out, "ExperienceProductID;OptionID\n1;2");
    let out = convert_sheet(&sheet, ',').unwrap();
    assert_eq!(out, "ExperienceProductID,OptionID\n1,2");
}

#[test]
fn line_count_matches_data_rows() {
    let sheet = vec![
        header_row(),
        vec![cell("1"), cell("a")],
        vec![cell("2"), cell("b")],
        vec![cell("3"), cell("c")],
    ];
    let out = convert_sheet(&sheet, '|').unwrap();
    assert_eq!(out.lines().count(), 4);
    assert_eq!(out.matches('\n').count(), 3);
    assert!(!out.ends_with('\n'));
}

#[test]
fn round_trip_recovers_trimmed_pairs() {
    let sources = vec![(" 10 ", "x1"), ("20", " x2"), ("30 ", "x3 ")];
    let mut sheet = vec![header_row()];
    for (e, o) in &sources {
        sheet.push(vec![cell(e), cell(o)]);
    }
    let out = convert_sheet(&sheet, '|').unwrap();
    let mut lines = out.split('\n');
    assert_eq!(lines.next(), Some("ExperienceProductID|OptionID"));
    let parsed: Vec<(String, String)> = lines
        .map(|line| {
            let mut fields = line.split('|');
            let e = fields.next().unwrap().to_string();
            let o = fields.next().unwrap().to_string();
            assert_eq!(fields.next(), None);
            (e, o)
        })
        .collect();
    let expected: Vec<(String, String)> = sources
        .iter()
        .map(|(e, o)| (e.trim().to_string(), o.trim().to_string()))
        .collect();
    assert_eq!(parsed, expected);
}

#[test]
fn find_column_picks_first_match() {
    let header = vec![cell("OptionID"), cell("OptionID"), cell("Target")];
    assert_eq!(find_column(&header, "OptionID"), Some(0));
    assert_eq!(find_column(&header, "Target"), Some(2));
    assert_eq!(find_column(&header, "target"), None);
    let with_gap = vec![None, cell("OptionID")];
    assert_eq!(find_column(&with_gap, "OptionID"), Some(1));
}

#[test]
fn error_messages_describe_each_variant() {
    let errors = [
        ConvertError::Open,
        ConvertError::SheetNotFound,
        ConvertError::RowDeserialization { row_index: 7 },
        ConvertError::OutputOpen,
        ConvertError::Write,
        ConvertError::OutputTruncate,
    ];
    for (i, a) in errors.iter().enumerate() {
        assert!(!a.message().is_empty());
        for (j, b) in errors.iter().enumerate() {
            if i != j {
                assert_ne!(a.message(), b.message());
            }
        }
    }
}
