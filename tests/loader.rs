use country_tiers::fixed::{parse_fixed, parse_score};
use country_tiers::{ColumnVal, DataFrame, LoadError, NAME_COLUMN, SCORE_COLUMN};

fn score(c: &ColumnVal) -> i64 {
    match c {
        ColumnVal::Score(v) => *v,
        ColumnVal::Country(_) => panic!("not a score"),
    }
}

fn name(c: &ColumnVal) -> String {
    match c {
        ColumnVal::Country(s) => s.clone(),
        ColumnVal::Score(_) => panic!("not a name"),
    }
}

#[test]
fn non_decimal_score_reads_as_zero() {
    let text = b"Country,Score\nA,0.5\nB,abc\n";
    let mut df = DataFrame::new();
    assert_eq!(df.read_csv(text, &vec![NAME_COLUMN, SCORE_COLUMN]), Ok(()));
    assert_eq!(df.labels, vec!["Country", "Score"]);
    assert_eq!(df.types, vec![NAME_COLUMN, SCORE_COLUMN]);
    assert_eq!(df.rows.len(), 2);
    assert_eq!(name(&df.rows[0][0]), "A");
    assert_eq!(score(&df.rows[0][1]), 500_000_000);
    assert_eq!(name(&df.rows[1][0]), "B");
    assert_eq!(score(&df.rows[1][1]), 0);
}

#[test]
fn decimals_read_as_billionths() {
    assert_eq!(parse_fixed("0.5"), Some(500_000_000));
    assert_eq!(parse_fixed("-1.25"), Some(-1_250_000_000));
    assert_eq!(parse_fixed("+3"), Some(3_000_000_000));
    assert_eq!(parse_fixed(".75"), Some(750_000_000));
    assert_eq!(parse_fixed("2."), Some(2_000_000_000));
    assert_eq!(parse_fixed("0.123456789987"), Some(123_456_789));
    assert_eq!(parse_fixed("9223372036.854775807"), Some(i64::MAX));
    assert_eq!(parse_fixed("9223372036.854775808"), None);
    assert_eq!(parse_fixed("99999999999"), None);
}

#[test]
fn non_decimals_are_refused() {
    for s in ["", "+", "-", ".", "abc", "1e5", "1e-3", "2.5E1", "inf", "1.2.3", " 1", "1 ", "--1", "NaN"] {
        assert_eq!(parse_fixed(s), None, "{:?}", s);
        assert_eq!(parse_score(s), 0, "{:?}", s);
    }
    assert_eq!(parse_score("0.6"), 600_000_000);
}

#[test]
fn new_table_is_empty() {
    let df = DataFrame::new();
    assert!(df.labels.is_empty());
    assert!(df.types.is_empty());
    assert!(df.rows.is_empty());
}

#[test]
fn loads_header_and_typed_rows() {
    let text = b"Country,Index,Other\n\"Afghanistan\",0.286,1\nDenmark,0.939,x\n";
    let types = vec![NAME_COLUMN, SCORE_COLUMN, SCORE_COLUMN];
    let mut df = DataFrame::new();
    assert_eq!(df.read_csv(text, &types), Ok(()));
    assert_eq!(df.labels, vec!["Country", "Index", "Other"]);
    assert_eq!(df.types, types);
    assert_eq!(df.rows.len(), 2);
    assert_eq!(name(&df.rows[0][0]), "Afghanistan");
    assert_eq!(score(&df.rows[0][1]), 286_000_000);
    assert_eq!(score(&df.rows[0][2]), 1_000_000_000);
    assert_eq!(name(&df.rows[1][0]), "Denmark");
    assert_eq!(score(&df.rows[1][1]), 939_000_000);
    // a non-numeric score reads as zero
    assert_eq!(score(&df.rows[1][2]), 0);
    assert_eq!(
        df.get_scores(),
        vec![vec![286_000_000, 1_000_000_000], vec![939_000_000, 0]]
    );
    assert_eq!(df.column_scores(1), vec![286_000_000, 939_000_000]);
    assert_eq!(df.column_scores(0), vec![0, 0]);
    assert_eq!(df.column_scores(7), vec![0, 0]);
}

#[test]
fn short_row_is_a_column_count_mismatch() {
    let text = b"Country,A,B\nX,0.1,0.2\nY,0.3\nZ,0.5,0.6\n";
    let mut df = DataFrame::new();
    df.types = vec![SCORE_COLUMN];
    let r = df.read_csv(text, &vec![NAME_COLUMN, SCORE_COLUMN, SCORE_COLUMN]);
    assert_eq!(r, Err(LoadError::ColumnCountMismatch { row: 1, expected: 3, found: 2 }));
    // the header and the row before the failing one are kept; types are not stored
    assert_eq!(df.labels, vec!["Country", "A", "B"]);
    assert_eq!(df.rows.len(), 1);
    assert_eq!(name(&df.rows[0][0]), "X");
    assert_eq!(df.get_scores(), vec![vec![100_000_000, 200_000_000]]);
    assert_eq!(df.types, vec![SCORE_COLUMN]);
}

#[test]
fn unknown_tag_is_refused() {
    let text = b"Country,A,B\nX,0.1,0.2\n";
    let mut df = DataFrame::new();
    let r = df.read_csv(text, &vec![NAME_COLUMN, 7, 9]);
    assert_eq!(r, Err(LoadError::UnknownColumnType { column: 1, tag: 7 }));
    assert_eq!(df.labels, vec!["Country", "A", "B"]);
    assert!(df.rows.is_empty());
    assert!(df.types.is_empty());
}

#[test]
fn header_only_loads_no_rows() {
    let mut df = DataFrame::new();
    assert_eq!(df.read_csv(b"Country,A\n", &vec![NAME_COLUMN, 5]), Ok(()));
    assert_eq!(df.labels, vec!["Country", "A"]);
    assert!(df.rows.is_empty());
    // no records at all: the labels stay as they were
    assert_eq!(df.read_csv(b"", &vec![NAME_COLUMN]), Ok(()));
    assert_eq!(df.labels, vec!["Country", "A"]);
    assert_eq!(df.types, vec![NAME_COLUMN]);
}

#[test]
fn rows_are_appended_across_loads() {
    let types = vec![NAME_COLUMN, SCORE_COLUMN];
    let mut df = DataFrame::new();
    assert_eq!(df.read_csv(b"C,S\nA,0.1\n", &types), Ok(()));
    assert_eq!(df.read_csv(b"C2,S2\nB,0.2\n", &types), Ok(()));
    assert_eq!(df.labels, vec!["C2", "S2"]);
    assert_eq!(df.get_scores(), vec![vec![100_000_000], vec![200_000_000]]);
}

#[test]
fn invalid_text_is_malformed() {
    let mut df = DataFrame::new();
    let r = df.read_csv(b"C,S\nA,0.5\nB,\xff\xfe\nD,0.7\n", &vec![NAME_COLUMN, SCORE_COLUMN]);
    assert_eq!(r, Err(LoadError::Malformed));
    // the records before the one the csv reader refused are loaded
    assert_eq!(df.labels, vec!["C", "S"]);
    assert_eq!(df.get_scores(), vec![vec![500_000_000]]);
    assert!(df.types.is_empty());
}
