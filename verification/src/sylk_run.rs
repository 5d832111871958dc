//! What reading a whole run of SYLK lines into rows gives.
use vstd::prelude::*;
use crate::error::ParseError;
use crate::sylk_reader::{
    CellModel, RowError, RowModel, cell_of, finish_step, first_field, fresh_row, step,
};
use crate::sylk_types::{FieldTypeModel, RecordModel, ValueModel};

verus! {

/// Reading a run of lines (each a line number and what parsing it gave)
/// from the row `cur`: the row being gathered afterwards, and what each
/// line handed out.
pub open spec fn run(cur: RowModel, items: Seq<(usize, Result<RecordModel, ParseError>)>) -> (
    RowModel,
    Seq<Option<Result<RowModel, RowError>>>,
)
    decreases items.len(),
{
    if items.len() == 0 {
        (cur, seq![])
    } else {
        let (next, out) = step(cur, items[0].0, items[0].1);
        let (last, outs) = run(next, items.drop_first());
        (last, seq![out] + outs)
    }
}

/// No line of the run, read from `cur`, hands out an error.
pub open spec fn run_clean(cur: RowModel, items: Seq<(usize, Result<RecordModel, ParseError>)>) -> bool
    decreases items.len(),
{
    if items.len() == 0 {
        true
    } else {
        let (next, out) = step(cur, items[0].0, items[0].1);
        !(out matches Some(Err(_))) && run_clean(next, items.drop_first())
    }
}

/// The rows among what the lines handed out, in order.
pub open spec fn handed_rows(outs: Seq<Option<Result<RowModel, RowError>>>) -> Seq<RowModel>
    decreases outs.len(),
{
    if outs.len() == 0 {
        seq![]
    } else {
        let rest = handed_rows(outs.drop_first());
        match outs[0] {
            Some(Ok(r)) => seq![r] + rest,
            _ => rest,
        }
    }
}

/// The rows that reading a run from the start yields: those handed out
/// line by line, then what the end of the input hands out.
pub open spec fn yielded_rows(items: Seq<(usize, Result<RecordModel, ParseError>)>) -> Seq<RowModel> {
    let (last, outs) = run(fresh_row(), items);
    handed_rows(outs) + match finish_step(last) {
        Some(r) => seq![r],
        None => seq![],
    }
}

/// Each cell of the rows, in order, with the number of its row.
pub open spec fn row_cells(rows: Seq<RowModel>) -> Seq<(usize, CellModel)>
    decreases rows.len(),
{
    if rows.len() == 0 {
        seq![]
    } else {
        rows[0].cells.map_values(|c: CellModel| (rows[0].row, c)) + row_cells(rows.drop_first())
    }
}

/// The column of a cell record: the integer of its first X field, 1 without one.
pub open spec fn record_column(rec: RecordModel) -> usize {
    match first_field(rec.fields, FieldTypeModel::X) {
        Some(f) => match f.value {
            ValueModel::Integer(v) => v as usize,
            _ => 1,
        },
        None => 1,
    }
}

/// The row that a cell record names with the integer of its first Y field,
/// `y` when it names none.
pub open spec fn record_row(y: usize, rec: RecordModel) -> usize {
    match first_field(rec.fields, FieldTypeModel::Y) {
        Some(f) => match f.value {
            ValueModel::Integer(n) => n as usize,
            _ => y,
        },
        None => y,
    }
}

/// The cell of each cell record of `recs`, in order, with its row: the one
/// named by the latest cell record so far that names a row (`y` before any).
pub open spec fn expected_cells(y: usize, recs: Seq<RecordModel>) -> Seq<(usize, CellModel)>
    decreases recs.len(),
{
    if recs.len() == 0 {
        seq![]
    } else if recs[0].ty is C {
        let r = record_row(y, recs[0]);
        seq![(r, cell_of(record_column(recs[0]), recs[0]))] + expected_cells(r, recs.drop_first())
    } else {
        expected_cells(y, recs.drop_first())
    }
}

/// Lines that all parsed: each line number with its record.
pub open spec fn parsed_lines(lines: Seq<(usize, RecordModel)>) -> Seq<(usize, Result<RecordModel, ParseError>)> {
    lines.map_values(|l: (usize, RecordModel)| (l.0, Ok::<RecordModel, ParseError>(l.1)))
}

/// The records of the lines.
pub open spec fn line_records(lines: Seq<(usize, RecordModel)>) -> Seq<RecordModel> {
    lines.map_values(|l: (usize, RecordModel)| l.1)
}

proof fn lemma_row_cells_concat(a: Seq<RowModel>, b: Seq<RowModel>)
    ensures
        row_cells(a + b) == row_cells(a) + row_cells(b),
    decreases a.len(),
{
    if a.len() == 0 {
        assert(a + b =~= b);
    } else {
        lemma_row_cells_concat(a.drop_first(), b);
        assert((a + b).drop_first() =~= a.drop_first() + b);
        assert((a + b)[0] == a[0]);
    }
}

proof fn lemma_row_cells_one(r: RowModel)
    ensures
        row_cells(seq![r]) == r.cells.map_values(|c: CellModel| (r.row, c)),
{
    assert(seq![r].drop_first() =~= Seq::<RowModel>::empty());
    assert(seq![r][0] == r);
    assert(row_cells(Seq::<RowModel>::empty()) == Seq::<(usize, CellModel)>::empty());
    assert(r.cells.map_values(|c: CellModel| (r.row, c)) + Seq::<(usize, CellModel)>::empty()
        =~= r.cells.map_values(|c: CellModel| (r.row, c)));
}

/// Reading a clean run from any row `cur`: the cells of the rows handed out
/// and of the row left being gathered are those of `cur`, then the expected
/// cells of the run's records.
proof fn lemma_run_cells(cur: RowModel, lines: Seq<(usize, RecordModel)>)
    requires
        run_clean(cur, parsed_lines(lines)),
    ensures
        ({
            let (last, outs) = run(cur, parsed_lines(lines));
            row_cells(handed_rows(outs)) + row_cells(seq![last]) == row_cells(seq![cur])
                + expected_cells(cur.row, line_records(lines))
        }),
    decreases lines.len(),
{
    let items = parsed_lines(lines);
    let recs = line_records(lines);
    if lines.len() == 0 {
        assert(recs =~= Seq::<RecordModel>::empty());
        assert(row_cells(handed_rows(Seq::<Option<Result<RowModel, RowError>>>::empty())) =~= Seq::<
            (usize, CellModel),
        >::empty());
    } else {
        let rest = lines.drop_first();
        assert(items.drop_first() =~= parsed_lines(rest));
        assert(recs.drop_first() =~= line_records(rest));
        let rec = lines[0].1;
        assert(items[0] == (lines[0].0, Ok::<RecordModel, ParseError>(rec)));
        assert(recs[0] == rec);
        let (next, out) = step(cur, lines[0].0, Ok(rec));
        lemma_run_cells(next, rest);
        let (last, outs) = run(next, parsed_lines(rest));
        let all_outs = seq![out] + outs;
        assert(run(cur, items) == (last, all_outs));
        assert(all_outs.drop_first() =~= outs);
        assert(all_outs[0] == out);
        lemma_row_cells_one(cur);
        lemma_row_cells_one(next);
        if rec.ty is C {
            let cell = cell_of(record_column(rec), rec);
            let y = record_row(cur.row, rec);
            assert(recs.drop_first() =~= line_records(rest));
            assert(expected_cells(cur.row, recs) == seq![(y, cell)] + expected_cells(y, line_records(rest)));
            match out {
                Some(Ok(r)) => {
                    assert(r == cur);
                    assert(next.row == y);
                    assert(next.cells =~= seq![cell]);
                    assert(handed_rows(all_outs) == seq![cur] + handed_rows(outs));
                    lemma_row_cells_concat(seq![cur], handed_rows(outs));
                    assert(next.cells.map_values(|c: CellModel| (next.row, c)) =~= seq![(y, cell)]);
                    assert(row_cells(handed_rows(all_outs)) + row_cells(seq![last]) =~= row_cells(seq![cur])
                        + (seq![(y, cell)] + expected_cells(y, line_records(rest))));
                },
                _ => {
                    assert(out is None);
                    assert(next.row == cur.row && y == cur.row);
                    assert(next.cells =~= cur.cells.push(cell));
                    assert(handed_rows(all_outs) == handed_rows(outs));
                    assert(next.cells.map_values(|c: CellModel| (next.row, c)) =~= cur.cells.map_values(
                        |c: CellModel| (cur.row, c),
                    ) + seq![(y, cell)]);
                    assert(row_cells(handed_rows(all_outs)) + row_cells(seq![last]) =~= row_cells(seq![cur])
                        + (seq![(y, cell)] + expected_cells(y, line_records(rest))));
                },
            }
        } else {
            assert(next == cur && out is None);
            assert(handed_rows(all_outs) == handed_rows(outs));
            assert(expected_cells(cur.row, recs) == expected_cells(cur.row, line_records(rest)));
        }
    }
}

/// Law: reading lines that all parse, with no error handed out, yields the
/// cell of every cell record in line order, each in the row named by the
/// latest cell record so far that names a row (row 1 before any).
pub proof fn lemma_run_cells_in_order(lines: Seq<(usize, RecordModel)>)
    requires
        run_clean(fresh_row(), parsed_lines(lines)),
    ensures
        row_cells(yielded_rows(parsed_lines(lines))) == expected_cells(1, line_records(lines)),
{
    lemma_run_cells(fresh_row(), lines);
    let (last, outs) = run(fresh_row(), parsed_lines(lines));
    let fin = match finish_step(last) {
        Some(r) => seq![r],
        None => seq![],
    };
    lemma_row_cells_concat(handed_rows(outs), fin);
    lemma_row_cells_one(fresh_row());
    lemma_row_cells_one(last);
    assert(fresh_row().cells.map_values(|c: CellModel| (1usize, c)) =~= Seq::<(usize, CellModel)>::empty());
    if last.cells.len() == 0 {
        assert(row_cells(fin) =~= Seq::<(usize, CellModel)>::empty());
        assert(last.cells.map_values(|c: CellModel| (last.row, c)) =~= Seq::<(usize, CellModel)>::empty());
    }
    assert(row_cells(yielded_rows(parsed_lines(lines))) =~= row_cells(handed_rows(outs)) + row_cells(
        seq![last],
    ));
}

/// Law: a cell record that names the row being gathered (its Y is that
/// row's number) hands nothing out and adds its cell at the end of that row,
/// unless it is a cell without X after other cells (an error).
pub proof fn lemma_same_row_appends(cur: RowModel, line: usize, rec: RecordModel)
    requires
        rec.ty is C,
        first_field(rec.fields, FieldTypeModel::Y) matches Some(f) && f.value matches ValueModel::Integer(n)
            && n as usize == cur.row,
        first_field(rec.fields, FieldTypeModel::X) matches Some(f) ==> f.value is Integer,
        record_column(rec) != 1 || cur.cells.len() == 0,
    ensures
        step(cur, line, Ok(rec)).1 is None,
        step(cur, line, Ok(rec)).0.row == cur.row,
        step(cur, line, Ok(rec)).0.cells == cur.cells.push(cell_of(record_column(rec), rec)),
{
    if let Some(f) = first_field(rec.fields, FieldTypeModel::X) {
        if let ValueModel::Integer(c) = f.value {
            assert(c == 1 ==> c as usize == 1) by (bit_vector);
            assert(c as usize == 1 ==> c == 1 || c < 0) by (bit_vector);
        }
    }
}

/// The rows handed out by a run from `cur`, then the row left being gathered.
spec fn rows_and_last(cur: RowModel, items: Seq<(usize, Result<RecordModel, ParseError>)>) -> Seq<RowModel> {
    let (last, outs) = run(cur, items);
    handed_rows(outs) + seq![last]
}

/// In a clean run from `cur`, the first of these rows is numbered as `cur`,
/// and no two neighbours share a number.
proof fn lemma_rows_and_last(cur: RowModel, items: Seq<(usize, Result<RecordModel, ParseError>)>)
    requires
        run_clean(cur, items),
    ensures
        rows_and_last(cur, items)[0].row == cur.row,
        forall|i: int| 0 <= i < rows_and_last(cur, items).len() - 1 ==> #[trigger] rows_and_last(cur, items)[i].row
            != rows_and_last(cur, items)[i + 1].row,
    decreases items.len(),
{
    let x = rows_and_last(cur, items);
    if items.len() == 0 {
        assert(handed_rows(Seq::<Option<Result<RowModel, RowError>>>::empty()) =~= Seq::<RowModel>::empty());
        assert(x =~= seq![cur]);
    } else {
        let (next, out) = step(cur, items[0].0, items[0].1);
        let rest = items.drop_first();
        lemma_rows_and_last(next, rest);
        let (last, outs) = run(next, rest);
        let all_outs = seq![out] + outs;
        assert(run(cur, items) == (last, all_outs));
        assert(all_outs.drop_first() =~= outs);
        assert(all_outs[0] == out);
        let y = rows_and_last(next, rest);
        match out {
            Some(Ok(r)) => {
                assert(r == cur);
                assert(handed_rows(all_outs) == seq![cur] + handed_rows(outs));
                assert(x =~= seq![cur] + y);
                assert(next.row != cur.row);
                assert forall|i: int| 0 <= i < x.len() - 1 implies #[trigger] x[i].row != x[i + 1].row by {
                    if i > 0 {
                        assert(x[i] == y[i - 1] && x[i + 1] == y[i]);
                    }
                }
            },
            _ => {
                assert(out is None);
                assert(next.row == cur.row);
                assert(handed_rows(all_outs) == handed_rows(outs));
                assert(x =~= y);
            },
        }
    }
}

/// Law: in the rows yielded by reading lines that all parse, with no error
/// handed out, no row has the number of the row yielded just before it: a
/// row is handed out only when a cell record names another row.
pub proof fn lemma_neighbour_rows_differ(items: Seq<(usize, Result<RecordModel, ParseError>)>)
    requires
        run_clean(fresh_row(), items),
    ensures
        forall|i: int| 0 <= i < yielded_rows(items).len() - 1 ==> #[trigger] yielded_rows(items)[i].row
            != yielded_rows(items)[i + 1].row,
{
    lemma_rows_and_last(fresh_row(), items);
    let (last, outs) = run(fresh_row(), items);
    let x = rows_and_last(fresh_row(), items);
    let y = yielded_rows(items);
    if last.cells.len() > 0 {
        assert(y =~= x);
    } else {
        assert(y =~= x.drop_last());
        assert forall|i: int| 0 <= i < y.len() - 1 implies #[trigger] y[i].row != y[i + 1].row by {
            assert(y[i] == x[i] && y[i + 1] == x[i + 1]);
        }
    }
}

} // verus!
