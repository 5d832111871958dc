//! Gathering the cell records of a SYLK file into rows.
use std::borrow::Cow;
use vstd::prelude::*;
use vstd::string::StringSliceAdditionalSpecFns;
use vstd::string::StringExecFns;
use vstd::utf8::encode_utf8;
use crate::error::ParseError;
use crate::sylk_grammar as g;
use crate::sylk_parse::parse_record;
use crate::sylk_types::{
    Value, Field, FieldType, Record, RecordType, ValueModel, FieldModel, FieldTypeModel,
    RecordModel, RecordTypeModel, cow_bytes, fields_view,
};

verus! {

/// A cell's value. Numbers are kept as the text that spells them.
#[derive(Debug, PartialEq)]
pub enum CellValue {
    Text(String),
    Integer(i32),
    Number(String),
}

#[derive(Debug, PartialEq)]
pub struct Cell {
    /// X: column position (one based)
    pub column: usize,
    /// K: value of the cell
    pub value: Option<CellValue>,
}

#[derive(Debug, PartialEq)]
pub struct Row {
    pub row: usize,
    pub cells: Vec<Cell>,
}

/// Why a line could not be read into a row; `line` counts from one.
#[derive(Debug, Clone, Copy, PartialEq, Eq, Structural)]
pub enum RowError {
    /// The line is not a record.
    Parse { line: usize },
    /// The cell's X field holds no integer.
    InvalidX { line: usize },
    /// The cell's Y field holds no integer.
    InvalidY { line: usize },
    /// A cell without X field (so in column 1) follows other cells of its row.
    MissingX { line: usize },
}

pub enum CellValueModel {
    Text(Seq<u8>),
    Integer(i32),
    Number(Seq<u8>),
}

pub struct CellModel {
    pub column: usize,
    pub value: Option<CellValueModel>,
}

pub struct RowModel {
    pub row: usize,
    pub cells: Seq<CellModel>,
}

impl View for CellValue {
    type V = CellValueModel;

    open spec fn view(&self) -> CellValueModel {
        match self {
            CellValue::Text(s) => CellValueModel::Text(encode_utf8(s@)),
            CellValue::Integer(i) => CellValueModel::Integer(*i),
            CellValue::Number(s) => CellValueModel::Number(encode_utf8(s@)),
        }
    }
}

impl View for Cell {
    type V = CellModel;

    open spec fn view(&self) -> CellModel {
        CellModel {
            column: self.column,
            value: match self.value {
                Some(v) => Some(v@),
                None => None,
            },
        }
    }
}

pub open spec fn cells_view(v: Seq<Cell>) -> Seq<CellModel> {
    v.map_values(|c: Cell| c@)
}

impl View for Row {
    type V = RowModel;

    open spec fn view(&self) -> RowModel {
        RowModel { row: self.row, cells: cells_view(self.cells@) }
    }
}

/// The first field of type `ty`.
pub open spec fn first_field(fields: Seq<FieldModel>, ty: FieldTypeModel) -> Option<FieldModel>
    decreases fields.len(),
{
    if fields.len() == 0 {
        None
    } else if fields[0].ty == ty {
        Some(fields[0])
    } else {
        first_field(fields.drop_first(), ty)
    }
}

/// What a cell holds of its record's `K` value.
pub open spec fn cell_value(v: ValueModel) -> Option<CellValueModel> {
    match v {
        ValueModel::Unknown(..) => None,
        ValueModel::Integer(i) => Some(CellValueModel::Integer(i)),
        ValueModel::Number(t) => Some(CellValueModel::Number(t)),
        ValueModel::Text(t, _) => Some(CellValueModel::Text(t)),
    }
}

/// The cell of a record: its column, and the value of its first `K` field.
pub open spec fn cell_of(column: usize, rec: RecordModel) -> CellModel {
    CellModel {
        column,
        value: match first_field(rec.fields, FieldTypeModel::K) {
            Some(f) => cell_value(f.value),
            None => None,
        },
    }
}

/// The row that reading starts with, and starts over with after an error.
pub open spec fn fresh_row() -> RowModel {
    RowModel { row: 1, cells: seq![] }
}

/// One line read into the row being gathered: the row afterwards, and what
/// is handed out (a finished row, or an error), if anything.
pub open spec fn step(
    cur: RowModel,
    line: usize,
    parsed: Result<RecordModel, ParseError>,
) -> (RowModel, Option<Result<RowModel, RowError>>) {
    match parsed {
        Err(_) => (fresh_row(), Some(Err(RowError::Parse { line }))),
        Ok(rec) => if rec.ty is C {
            let col = match first_field(rec.fields, FieldTypeModel::X) {
                Some(f) => match f.value {
                    ValueModel::Integer(v) => Some(v),
                    _ => None,
                },
                None => Some(1i32),
            };
            match col {
                None => (fresh_row(), Some(Err(RowError::InvalidX { line }))),
                Some(c) => {
                    let cell = cell_of(c as usize, rec);
                    let push = if c == 1 && cur.cells.len() > 0 {
                        (fresh_row(), Some(Err(RowError::MissingX { line })))
                    } else {
                        (RowModel { row: cur.row, cells: cur.cells.push(cell) }, None)
                    };
                    match first_field(rec.fields, FieldTypeModel::Y) {
                        Some(f) => match f.value {
                            ValueModel::Integer(n) => if n as usize != cur.row {
                                (RowModel { row: n as usize, cells: seq![cell] }, Some(Ok(cur)))
                            } else {
                                push
                            },
                            _ => (fresh_row(), Some(Err(RowError::InvalidY { line }))),
                        },
                        None => push,
                    }
                },
            }
        } else {
            (cur, None)
        },
    }
}

/// What the end of the input hands out: the row being gathered, unless it is empty.
pub open spec fn finish_step(cur: RowModel) -> Option<RowModel> {
    if cur.cells.len() > 0 {
        Some(cur)
    } else {
        None
    }
}


/// Fields before `i` that are not of the type do not change which comes first.
pub proof fn lemma_first_field_skip(fs: Seq<FieldModel>, ty: FieldTypeModel, i: int)
    requires
        0 <= i <= fs.len(),
        forall|j: int| 0 <= j < i ==> fs[j].ty != ty,
    ensures
        first_field(fs, ty) == first_field(fs.skip(i), ty),
    decreases i,
{
    if i > 0 {
        lemma_first_field_skip(fs.drop_first(), ty, i - 1);
        assert(fs.drop_first().skip(i - 1) =~= fs.skip(i));
    } else {
        assert(fs.skip(0) =~= fs);
    }
}

/// The text of a value as an owned string.
fn cow_to_string<'a>(c: Cow<'a, str>) -> (r: String)
    ensures
        encode_utf8(r@) == cow_bytes(c),
{
    match c {
        Cow::Borrowed(b) => String::from_str(b),
        Cow::Owned(o) => o,
    }
}

fn is_type(ty: &FieldType, want: u8) -> (r: bool)
    requires
        want == 0 || want == 1 || want == 2,
    ensures
        r == (ty@ == (if want == 0 {
            FieldTypeModel::K
        } else if want == 1 {
            FieldTypeModel::X
        } else {
            FieldTypeModel::Y
        })),
{
    match ty {
        FieldType::K => want == 0,
        FieldType::X => want == 1,
        FieldType::Y => want == 2,
        FieldType::Unknown(_) => false,
    }
}

/// The index of the first field of the given type (0: K, 1: X, 2: Y), or the
/// number of fields when there is none.
fn find_field(fields: &Vec<Field>, want: u8) -> (r: usize)
    requires
        want == 0 || want == 1 || want == 2,
    ensures
        ({
            let ty = if want == 0 {
                FieldTypeModel::K
            } else if want == 1 {
                FieldTypeModel::X
            } else {
                FieldTypeModel::Y
            };
            &&& r <= fields@.len()
            &&& r < fields@.len() ==> first_field(fields_view(fields@), ty) == Some(fields@[r as int]@)
            &&& r == fields@.len() ==> first_field(fields_view(fields@), ty) is None
        }),
{
    let ghost ty = if want == 0 {
        FieldTypeModel::K
    } else if want == 1 {
        FieldTypeModel::X
    } else {
        FieldTypeModel::Y
    };
    let ghost fs = fields_view(fields@);
    let mut i: usize = 0;
    while i < fields.len() && !is_type(&fields[i].ty, want)
        invariant
            fs == fields_view(fields@),
            want == 0 || want == 1 || want == 2,
            ty == (if want == 0 {
                FieldTypeModel::K
            } else if want == 1 {
                FieldTypeModel::X
            } else {
                FieldTypeModel::Y
            }),
            i <= fields@.len(),
            forall|j: int| 0 <= j < i ==> fs[j].ty != ty,
        decreases fields@.len() - i,
    {
        i = i + 1;
    }
    proof {
        lemma_first_field_skip(fs, ty, i as int);
        if i < fields@.len() {
            assert(fs.skip(i as int)[0] == fields@[i as int]@);
        }
    }
    i
}

/// The integer of the first X (`want == 1`) or Y (`want == 2`) field:
/// `None` without such a field, `Some(None)` when its value is no integer.
fn first_integer(fields: &Vec<Field>, want: u8) -> (r: Option<Option<i32>>)
    requires
        want == 1 || want == 2,
    ensures
        match first_field(fields_view(fields@), if want == 1 {
            FieldTypeModel::X
        } else {
            FieldTypeModel::Y
        }) {
            None => r is None,
            Some(f) => match f.value {
                ValueModel::Integer(v) => r == Some(Some(v)),
                _ => r == Some(None::<i32>),
            },
        },
{
    let i = find_field(fields, want);
    if i == fields.len() {
        None
    } else {
        match fields[i].value {
            Value::Integer(v) => Some(Some(v)),
            _ => Some(None),
        }
    }
}

impl Cell {
    /// The cell of a record: the given column, and the value of the record's
    /// first `K` field (none when that value is empty).
    pub fn from_record(column: usize, record: Record) -> (r: Cell)
        ensures
            r@ == cell_of(column, record@),
    {
        let mut record = record;
        let i = find_field(&record.fields, 0);
        if i == record.fields.len() {
            return Cell { column, value: None };
        }
        let f = record.fields.remove(i);
        let value = match f.value {
            Value::Unknown(_) => None,
            Value::Integer(v) => Some(CellValue::Integer(v)),
            Value::Number(t) => Some(CellValue::Number(String::from_str(t))),
            Value::Text(c) => Some(CellValue::Text(cow_to_string(c))),
        };
        Cell { column, value }
    }
}

pub open spec fn out_view(r: Option<Result<Row, RowError>>) -> Option<Result<RowModel, RowError>> {
    match r {
        None => None,
        Some(Ok(row)) => Some(Ok(row@)),
        Some(Err(e)) => Some(Err(e)),
    }
}

/// The row being gathered from the lines of a SYLK file. Lines are handed
/// in one by one; a row is handed out when a cell of another row comes, or
/// at the end of the input.
pub struct SylkRows {
    row: Row,
}

impl View for SylkRows {
    type V = RowModel;

    closed spec fn view(&self) -> RowModel {
        self.row@
    }
}

fn fresh() -> (r: Row)
    ensures
        r@ == fresh_row(),
{
    let r = Row { row: 1, cells: Vec::new() };
    assert(r@.cells =~= fresh_row().cells);
    r
}

impl SylkRows {
    pub fn new() -> (r: SylkRows)
        ensures
            r@ == fresh_row(),
    {
        SylkRows { row: fresh() }
    }

    /// Reads the line numbered `line_number` (from one).
    pub fn next_line(&mut self, line_number: usize, line: &str) -> (r: Option<Result<Row, RowError>>)
        ensures
            ({
                let (next, out) = step(old(self)@, line_number, g::record(line.spec_bytes()));
                final(self)@ == next && out_view(r) == out
            }),
    {
        let record = match parse_record(line) {
            Ok(record) => record,
            Err(_) => {
                self.row = fresh();
                return Some(Err(RowError::Parse { line: line_number }));
            },
        };
        let is_cell = match record.ty {
            RecordType::C => true,
            _ => false,
        };
        if !is_cell {
            return None;
        }
        let col = match first_integer(&record.fields, 1) {
            Some(Some(v)) => v,
            Some(None) => {
                self.row = fresh();
                return Some(Err(RowError::InvalidX { line: line_number }));
            },
            None => 1,
        };
        let y = first_integer(&record.fields, 2);
        let ghost rec = record@;
        if let Some(yv) = y {
            match yv {
                Some(n) => {
                    if n as usize != self.row.row {
                        let cell = Cell::from_record(col as usize, record);
                        let mut cells = Vec::new();
                        cells.push(cell);
                        let mut out = Row { row: n as usize, cells };
                        assert(out@.cells =~= seq![cell_of(col as usize, rec)]);
                        std::mem::swap(&mut self.row, &mut out);
                        return Some(Ok(out));
                    }
                },
                None => {
                    self.row = fresh();
                    return Some(Err(RowError::InvalidY { line: line_number }));
                },
            }
        }
        if col == 1 && self.row.cells.len() > 0 {
            self.row = fresh();
            return Some(Err(RowError::MissingX { line: line_number }));
        }
        let cell = Cell::from_record(col as usize, record);
        let ghost old_cells = cells_view(self.row.cells@);
        self.row.cells.push(cell);
        assert(cells_view(self.row.cells@) =~= old_cells.push(cell_of(col as usize, rec)));
        None
    }

    /// A line could not be read (an I/O error): the row being gathered is dropped.
    pub fn read_error(&mut self)
        ensures
            final(self)@ == fresh_row(),
    {
        self.row = fresh();
    }

    /// The end of the input: hands out the row being gathered unless it is
    /// empty, and starts over.
    pub fn finish(&mut self) -> (r: Option<Row>)
        ensures
            match finish_step(old(self)@) {
                Some(row) => r matches Some(x) && x@ == row,
                None => r is None,
            },
            final(self)@ == fresh_row(),
    {
        let mut out = fresh();
        std::mem::swap(&mut self.row, &mut out);
        if out.cells.len() > 0 {
            Some(out)
        } else {
            None
        }
    }
}


/// Only the first cell of a row may sit in column 1.
pub open spec fn column_one_first(r: RowModel) -> bool {
    forall|i: int| 0 < i < r.cells.len() ==> #[trigger] r.cells[i].column != 1
}

/// Law: reading a line keeps column 1 for the first cell of a row — in the
/// row being gathered and in any row handed out.
pub proof fn lemma_step_keeps_column_one_first(cur: RowModel, line: usize, parsed: Result<RecordModel, ParseError>)
    requires
        column_one_first(cur),
    ensures
        column_one_first(step(cur, line, parsed).0),
        step(cur, line, parsed).1 matches Some(Ok(row)) ==> column_one_first(row),
{
    if let Ok(rec) = parsed {
        if let Some(f) = first_field(rec.fields, FieldTypeModel::X) {
            if let ValueModel::Integer(c) = f.value {
                assert(c != 1 ==> c as usize != 1) by (bit_vector);
            }
        }
    }
}


/// Rows and cells are numbered from one.
pub open spec fn one_based(r: RowModel) -> bool {
    r.row >= 1 && forall|i: int| 0 <= i < r.cells.len() ==> #[trigger] r.cells[i].column >= 1
}

/// The first field of a type is of that type and is one of the fields.
pub proof fn lemma_first_field_found(fs: Seq<FieldModel>, ty: FieldTypeModel)
    ensures
        first_field(fs, ty) matches Some(f) ==> f.ty == ty && exists|i: int| 0 <= i < fs.len()
            && #[trigger] fs[i] == f,
    decreases fs.len(),
{
    if fs.len() > 0 {
        if fs[0].ty != ty {
            lemma_first_field_found(fs.drop_first(), ty);
            if let Some(f) = first_field(fs.drop_first(), ty) {
                let i = choose|i: int| 0 <= i < fs.drop_first().len() && #[trigger] fs.drop_first()[i] == f;
                assert(fs[i + 1] == f);
            }
        } else {
            assert(fs[0] == fs[0]);
        }
    }
}

/// Law: reading a line of text keeps rows and cells numbered from one (the
/// X and Y coordinates of a record are positive), in the row being gathered
/// and in any row handed out.
pub proof fn lemma_step_one_based(cur: RowModel, line: usize, text: Seq<u8>)
    requires
        one_based(cur),
    ensures
        one_based(step(cur, line, g::record(text)).0),
        step(cur, line, g::record(text)).1 matches Some(Ok(row)) ==> one_based(row),
{
    g::lemma_record_coordinates_positive(text);
    if let Ok(rec) = g::record(text) {
        lemma_first_field_found(rec.fields, FieldTypeModel::X);
        lemma_first_field_found(rec.fields, FieldTypeModel::Y);
        if let Some(f) = first_field(rec.fields, FieldTypeModel::X) {
            let i = choose|i: int| 0 <= i < rec.fields.len() && #[trigger] rec.fields[i] == f;
            assert(g::positive_coordinate(rec.fields[i]));
            if let ValueModel::Integer(v) = f.value {
                assert(v as usize >= 1);
            }
        }
        if let Some(f) = first_field(rec.fields, FieldTypeModel::Y) {
            let i = choose|i: int| 0 <= i < rec.fields.len() && #[trigger] rec.fields[i] == f;
            assert(g::positive_coordinate(rec.fields[i]));
            if let ValueModel::Integer(v) = f.value {
                assert(v as usize >= 1);
            }
        }
    }
}

/// Law: a line that parses never gives an invalid X or Y error, since the
/// X and Y fields of a parsed record always hold integers.
pub proof fn lemma_step_no_invalid_coordinate(cur: RowModel, line: usize, text: Seq<u8>)
    ensures
        !(step(cur, line, g::record(text)).1 matches Some(Err(RowError::InvalidX { .. }))),
        !(step(cur, line, g::record(text)).1 matches Some(Err(RowError::InvalidY { .. }))),
{
    g::lemma_record_coordinates_positive(text);
    if let Ok(rec) = g::record(text) {
        lemma_first_field_found(rec.fields, FieldTypeModel::X);
        lemma_first_field_found(rec.fields, FieldTypeModel::Y);
        if let Some(f) = first_field(rec.fields, FieldTypeModel::X) {
            let i = choose|i: int| 0 <= i < rec.fields.len() && #[trigger] rec.fields[i] == f;
            assert(g::positive_coordinate(rec.fields[i]));
        }
        if let Some(f) = first_field(rec.fields, FieldTypeModel::Y) {
            let i = choose|i: int| 0 <= i < rec.fields.len() && #[trigger] rec.fields[i] == f;
            assert(g::positive_coordinate(rec.fields[i]));
        }
    }
}

} // verus!
