use contree::reader::data_reader::DataReader;
use contree::reader::{DataFormat, DataReaderError};

fn fields(r: &DataReader, line: &str) -> (usize, Vec<(usize, usize, String)>) {
    match r.parse_line(line, 3) {
        Ok(Some(p)) => (
            p.label,
            p.values.iter().map(|v| (v.column, v.source_column, v.text.clone())).collect(),
        ),
        other => panic!("unexpected {:?}", other),
    }
}

#[test]
fn reader_defaults() {
    let r = DataReader::new();
    assert_eq!(r.format, DataFormat::Space);
    assert!(!r.has_headers);
    assert_eq!(r.comment_char, Some('#'));
    assert_eq!(r.label_column, Some(0));
}

#[test]
fn reader_builders() {
    let r = DataReader::new()
        .with_format(DataFormat::Tab)
        .with_headers(true)
        .with_comment_char(None)
        .with_label_column(Some(2));
    assert_eq!(r.format, DataFormat::Tab);
    assert!(r.has_headers);
    assert_eq!(r.comment_char, None);
    assert_eq!(r.label_column, Some(2));
}

#[test]
fn format_from_extension() {
    assert_eq!(DataFormat::from_extension("csv"), DataFormat::Comma);
    assert_eq!(DataFormat::from_extension("tsv"), DataFormat::Tab);
    assert_eq!(DataFormat::from_extension("txt"), DataFormat::Space);
    assert_eq!(DataFormat::from_extension(""), DataFormat::Space);
    assert_eq!(DataReader::new().auto_detect_format("csv").format, DataFormat::Comma);
    assert_eq!(DataFormat::Comma.delimiter(), ',');
    assert_eq!(DataFormat::Space.delimiter(), ' ');
}

#[test]
fn space_separated_line() {
    let r = DataReader::default();
    assert_eq!(
        fields(&r, "  1 2.5\t3.0  "),
        (1, vec![(0, 1, "2.5".to_string()), (1, 2, "3.0".to_string())])
    );
}

#[test]
fn lines_without_data_are_skipped() {
    let r = DataReader::default();
    assert!(matches!(r.parse_line("", 0), Ok(None)));
    assert!(matches!(r.parse_line("   \t ", 1), Ok(None)));
    assert!(matches!(r.parse_line("  # 1 2 3", 2), Ok(None)));
    let h = DataReader::default().with_headers(true);
    assert!(matches!(h.parse_line("label a b", 0), Ok(None)));
    assert!(matches!(h.parse_line("1 2 3", 1), Ok(Some(_))));
    let c = DataReader::default().with_format(DataFormat::Comma);
    assert!(matches!(c.parse_line(" , ,", 4), Ok(None)));
}

#[test]
fn label_column_out_of_bounds() {
    let r = DataReader::default().with_label_column(Some(5));
    match r.parse_line("1 2 3", 7) {
        Err(DataReaderError::LabelColumnOutOfBounds { label_column, line }) => {
            assert_eq!((label_column, line), (5, 7))
        }
        other => panic!("unexpected {:?}", other),
    }
    let none = DataReader::default().with_label_column(None);
    match none.parse_line("1 2 3", 0) {
        Err(DataReaderError::LabelColumnOutOfBounds { label_column, line }) => {
            assert_eq!((label_column, line), (usize::MAX, 0))
        }
        other => panic!("unexpected {:?}", other),
    }
}

#[test]
fn invalid_label() {
    let r = DataReader::default();
    for bad in ["x 1 2", "-1 2", "1.5 2", "18446744073709551616 2", "+ 2"] {
        match r.parse_line(bad, 9) {
            Err(DataReaderError::InvalidLabel { token, line, column }) => {
                assert_eq!(token, bad.split_whitespace().next().unwrap());
                assert_eq!((line, column), (9, 0));
            }
            other => panic!("unexpected {:?} for {:?}", other, bad),
        }
    }
}

#[test]
fn label_forms_accepted() {
    let r = DataReader::default();
    assert_eq!(fields(&r, "+7 1").0, 7);
    assert_eq!(fields(&r, "007 1").0, 7);
    assert_eq!(fields(&r, "18446744073709551615 1").0, usize::MAX);
    assert_eq!(fields(&r, "3").1, vec![]);
}

#[test]
fn label_column_in_the_middle() {
    let r = DataReader::default().with_label_column(Some(1));
    assert_eq!(
        fields(&r, "a 2 b c"),
        (2, vec![(0, 0, "a".into()), (1, 2, "b".into()), (2, 3, "c".into())])
    );
}

#[test]
fn comma_separated_line() {
    let r = DataReader::default().with_format(DataFormat::Comma);
    assert_eq!(
        fields(&r, "1, 2.5 , ,3"),
        (1, vec![(0, 1, "2.5".into()), (1, 2, "3".into())])
    );
    assert_eq!(fields(&r, "4,a b,c").1, vec![(0, 1, "a b".into()), (1, 2, "c".into())]);
}

#[test]
fn unicode_white_space_separates_fields() {
    let r = DataReader::default();
    assert_eq!(
        fields(&r, "1\u{00A0}x\u{3000}y\u{2028}"),
        (1, vec![(0, 1, "x".into()), (1, 2, "y".into())])
    );
}
