use wc3_formats::sylk_reader::{Cell, CellValue, Row, RowError, SylkRows};
use wc3_formats::sylk_parse::parse_record;

fn text(column: usize, t: &str) -> Cell {
    Cell { column, value: Some(CellValue::Text(t.to_string())) }
}

#[test]
fn rows_are_handed_out_when_the_row_number_changes() {
    let mut rows = SylkRows::new();
    let lines = [
        "ID;PWXL;N;E",
        "B;X3;Y2;D0",
        "C;X1;Y1;K\"unitID\"",
        "C;X2;K\"name\"",
        "C;X1;Y2;K\"hfoo\"",
        "C;X2;K12.5",
        "C;X3;K",
        "E",
    ];
    let mut out = vec![];
    for (i, line) in lines.iter().enumerate() {
        if let Some(r) = rows.next_line(i + 1, line) {
            out.push(r);
        }
    }
    assert_eq!(out, vec![Ok(Row { row: 1, cells: vec![text(1, "unitID"), text(2, "name")] })]);
    assert_eq!(
        rows.finish(),
        Some(Row {
            row: 2,
            cells: vec![
                text(1, "hfoo"),
                Cell { column: 2, value: Some(CellValue::Number("12.5".to_string())) },
                Cell { column: 3, value: None },
            ]
        })
    );
    assert_eq!(rows.finish(), None);
}

#[test]
fn a_first_cell_in_another_row_hands_out_the_empty_first_row() {
    let mut rows = SylkRows::new();
    assert_eq!(rows.next_line(1, "C;Y3;X2;K1"), Some(Ok(Row { row: 1, cells: vec![] })));
    assert_eq!(
        rows.finish(),
        Some(Row { row: 3, cells: vec![Cell { column: 2, value: Some(CellValue::Number("1".to_string())) }] })
    );
}

#[test]
fn errors_drop_the_row_being_gathered() {
    let mut rows = SylkRows::new();
    assert_eq!(rows.next_line(1, "C;Y1;X2;K\"a\""), None);
    assert_eq!(rows.next_line(2, "C;K\"b\""), Some(Err(RowError::MissingX { line: 2 })));
    assert_eq!(rows.finish(), None);
    assert_eq!(rows.next_line(3, "C;Y1;X2;K\"a\""), None);
    assert_eq!(rows.next_line(4, "C;X0"), Some(Err(RowError::Parse { line: 4 })));
    assert_eq!(rows.finish(), None);
    assert_eq!(rows.next_line(5, "C;K\"first\""), None);
    rows.read_error();
    assert_eq!(rows.finish(), None);
}

#[test]
fn cell_from_record_takes_the_first_k_value() {
    let record = parse_record("C;K\"a;;b\";K\"c\";X4").unwrap();
    assert_eq!(Cell::from_record(4, record), Cell { column: 4, value: Some(CellValue::Text("a;b".to_string())) });
    let record = parse_record("C;X4").unwrap();
    assert_eq!(Cell::from_record(4, record), Cell { column: 4, value: None });
}

#[test]
fn cells_come_out_in_line_order_in_the_latest_named_row() {
    let mut rows = SylkRows::new();
    let lines = ["C;Y2;X1;K\"a\"", "B;Y9", "C;X2;K\"b\"", "C;Y1;X1;K\"c\"", "C;X3;K\"d\"", "C;Y1;X4;K\"e\""];
    let mut got = vec![];
    for (i, line) in lines.iter().enumerate() {
        if let Some(r) = rows.next_line(i + 1, line) {
            got.push(r.unwrap());
        }
    }
    got.extend(rows.finish());
    let cells: Vec<(usize, Cell)> =
        got.into_iter().flat_map(|r| { let n = r.row; r.cells.into_iter().map(move |c| (n, c)) }).collect();
    assert_eq!(cells, vec![(2, text(1, "a")), (2, text(2, "b")), (1, text(1, "c")), (1, text(3, "d")), (1, text(4, "e"))]);
}
