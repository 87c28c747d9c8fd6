use csv_file::text::{join_chars, split_chars};
use csv_file::{CsvFile, ParseError};

fn strings(v: &[&str]) -> Vec<String> {
    v.iter().map(|s| s.to_string()).collect()
}

fn table(heads: &[&str], rows: &[&[&str]]) -> CsvFile {
    let mut t = CsvFile::new();
    for h in heads {
        t.push_head(h);
    }
    for r in rows {
        t.push_row(r);
    }
    t
}

#[test]
fn new_table_is_empty() {
    let t = CsvFile::new();
    assert!(t.heads().is_empty());
    assert!(t.rows().is_empty());
    let d = CsvFile::default();
    assert!(d.heads().is_empty());
    assert!(d.rows().is_empty());
}

#[test]
fn header_position_first_match() {
    let t = table(&["a", "b", "c"], &[]);
    assert_eq!(t.head_pos("b"), Some(1));
    assert_eq!(t.head_pos("z"), None);
    let d = table(&["x", "y", "x"], &[]);
    assert_eq!(d.head_pos("x"), Some(0));
}

#[test]
fn column_with_short_rows() {
    let t = table(&["a", "b"], &[&["1"], &["2", "x"]]);
    assert_eq!(t.cols("b"), Some(strings(&["", "x"])));
    assert_eq!(t.cols("a"), Some(strings(&["1", "2"])));
    assert_eq!(t.cols("z"), None);
    let e = table(&["a"], &[]);
    assert_eq!(e.cols("a"), Some(Vec::new()));
}

#[test]
fn row_and_cell_lookup() {
    let t = table(&["a", "b"], &[&["1"], &["2", "x"]]);
    assert_eq!(t.row(1), Some(&strings(&["2", "x"])));
    assert_eq!(t.row(2), None);
    assert_eq!(t.cell(1, 1), Some(&"x".to_string()));
    assert_eq!(t.cell(0, 1), None);
    assert_eq!(t.cell(5, 0), None);
}

#[test]
fn pop_on_empty_table() {
    let mut t = CsvFile::new();
    assert_eq!(t.pop_row(), None);
    assert_eq!(t.pop_head(), None);
    assert_eq!(t.delete_row(0), None);
    assert!(t.rows().is_empty());
    t.pop_col();
    assert!(t.heads().is_empty());
}

#[test]
fn delete_column_best_effort() {
    let mut t = table(&["a", "b", "c"], &[&["1", "2"], &["3", "4", "5"]]);
    t.delete_col(2);
    assert_eq!(t.heads(), &strings(&["a", "b"]));
    assert_eq!(t.rows()[0], strings(&["1", "2"]));
    assert_eq!(t.rows()[1], strings(&["3", "4"]));
}

#[test]
fn delete_column_in_the_middle() {
    let mut t = table(&["a", "b", "c"], &[&["1", "2", "3"], &["4"]]);
    t.delete_col(1);
    assert_eq!(t.heads(), &strings(&["a", "c"]));
    assert_eq!(t.rows()[0], strings(&["1", "3"]));
    assert_eq!(t.rows()[1], strings(&["4"]));
}

#[test]
fn pop_column_skips_empty_rows() {
    let mut t = table(&["a", "b"], &[&["1", "2"], &[], &["3"]]);
    t.pop_col();
    assert_eq!(t.heads(), &strings(&["a"]));
    assert_eq!(t.rows()[0], strings(&["1"]));
    assert!(t.rows()[1].is_empty());
    assert!(t.rows()[2].is_empty());
}

#[test]
fn header_mutators() {
    let mut t = table(&["a", "b"], &[]);
    t.set_head(1, "B");
    t.set_head(7, "ignored");
    assert_eq!(t.heads(), &strings(&["a", "B"]));
    t.insert_head(0, "z");
    t.insert_head(3, "end");
    assert_eq!(t.heads(), &strings(&["z", "a", "B", "end"]));
    assert_eq!(t.delete_head(1), "a".to_string());
    assert_eq!(t.pop_head(), Some("end".to_string()));
    assert_eq!(t.heads(), &strings(&["z", "B"]));
    t.push_head("z");
    assert_eq!(t.head_pos("z"), Some(0));
}

#[test]
fn cell_mutators() {
    let mut t = table(&["a", "b"], &[&["1"], &["2", "3"]]);
    t.push_col(0, "x");
    t.push_col(9, "ignored");
    assert_eq!(t.rows()[0], strings(&["1", "x"]));
    assert_eq!(t.rows()[1], strings(&["2", "3"]));
    t.set_col(1, 0, "y");
    t.set_col(1, 5, "ignored");
    t.set_col(4, 0, "ignored");
    assert_eq!(t.rows()[1], strings(&["y", "3"]));
    t.insert_col(1, 1, "m");
    t.insert_col(0, 2, "e");
    assert_eq!(t.rows()[1], strings(&["y", "m", "3"]));
    assert_eq!(t.rows()[0], strings(&["1", "x", "e"]));
}

#[test]
fn row_mutators() {
    let mut t = table(&["a"], &[&["1"], &["2"]]);
    t.set_row(0, &["one", "extra"]);
    t.set_row(5, &["ignored"]);
    t.insert_row(1, &["mid"]);
    t.insert_row(3, &["last"]);
    assert_eq!(t.rows().len(), 4);
    assert_eq!(t.rows()[0], strings(&["one", "extra"]));
    assert_eq!(t.rows()[1], strings(&["mid"]));
    assert_eq!(t.rows()[2], strings(&["2"]));
    assert_eq!(t.rows()[3], strings(&["last"]));
    assert_eq!(t.delete_row(1), Some(strings(&["mid"])));
    assert_eq!(t.delete_row(3), None);
    assert_eq!(t.pop_row(), Some(strings(&["last"])));
    assert_eq!(t.rows().len(), 2);
}

#[test]
fn parse_minimal_file() {
    let t = CsvFile::from_text("a,b\n1,2\n3,4\n").unwrap();
    assert_eq!(t.heads(), &strings(&["a", "b"]));
    assert_eq!(t.rows(), &vec![strings(&["1", "2"]), strings(&["3", "4"])]);
}

#[test]
fn parse_without_lines_fails() {
    assert_eq!(CsvFile::from_text("").err(), Some(ParseError::EmptyInput));
    assert_eq!(CsvFile::from_text("\n\n\r\n").err(), Some(ParseError::EmptyInput));
}

#[test]
fn parse_skips_empty_lines_and_carriage_returns() {
    let t = CsvFile::from_text("\na,b\r\n\r\n1,,2\r\n \n3").unwrap();
    assert_eq!(t.heads(), &strings(&["a", "b"]));
    assert_eq!(
        t.rows(),
        &vec![strings(&["1", "", "2"]), strings(&[" "]), strings(&["3"])]
    );
    let u = CsvFile::from_text("h\nx\r").unwrap();
    assert_eq!(u.rows(), &vec![strings(&["x\r"])]);
}

#[test]
fn parse_header_only() {
    let t = CsvFile::from_text("only").unwrap();
    assert_eq!(t.heads(), &strings(&["only"]));
    assert!(t.rows().is_empty());
}

#[test]
fn write_empty_headers() {
    let t = table(&[], &[&["x"]]);
    assert_eq!(t.to_text(), "x\n");
}

#[test]
fn write_rows_as_they_stand() {
    let t = table(&["a", "b"], &[&["1"], &["2", "3", "4"], &[]]);
    assert_eq!(t.to_text(), "a,b\n1\n2,3,4\n\n");
    assert_eq!(CsvFile::new().to_text(), "");
}

#[test]
fn write_then_read_round_trip() {
    let t = table(&["name", "qty"], &[&["apple", "3"], &["pear", ""], &["", "7"]]);
    let text = t.to_text();
    assert_eq!(text, "name,qty\napple,3\npear,\n,7\n");
    let back = CsvFile::from_text(&text).unwrap();
    assert_eq!(back.heads(), t.heads());
    assert_eq!(back.rows(), t.rows());
}

#[test]
fn render_frames_every_cell() {
    let t = table(&["ab", "c"], &[&["1", "2"], &["x"]]);
    assert_eq!(
        t.render(),
        "- -- -- - -\n- ab -- c -\n- -- -- - -\n- 1 -- 2 -\n- x -\n"
    );
}

#[test]
fn render_border_counts_bytes() {
    let t = table(&["é"], &[]);
    assert_eq!(t.render(), "- -- -\n- é -\n- -- -\n");
}

#[test]
fn split_and_join_text() {
    assert_eq!(split_chars("a,b,,c", ','), strings(&["a", "b", "", "c"]));
    assert_eq!(split_chars("", ','), strings(&[""]));
    assert_eq!(join_chars(&strings(&["a", "", "b"]), ','), "a,,b");
    assert_eq!(join_chars(&Vec::new(), ','), "");
}
