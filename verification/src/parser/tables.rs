//! The text of spreadsheets and CSV files: one line per row, cells separated by tabs.
use vstd::prelude::*;

use crate::formats::{csv_view, fields_view, sheets_view, CsvTable, SheetRows};
use crate::text::{join, join_strings, nonempty_parts, string_views};

verus! {

/// The line for one spreadsheet row: its non-empty cells joined by tabs, or
/// nothing when every cell is empty.
pub open spec fn row_lines(row: Seq<Seq<char>>) -> Seq<Seq<char>> {
    if nonempty_parts(row).len() > 0 {
        seq![join(nonempty_parts(row), seq!['\t'])]
    } else {
        Seq::empty()
    }
}

/// The lines of a sheet's rows, in order.
pub open spec fn sheet_lines(rows: Seq<Seq<Seq<char>>>) -> Seq<Seq<char>>
    decreases rows.len(),
{
    if rows.len() == 0 {
        Seq::empty()
    } else {
        sheet_lines(rows.drop_last()) + row_lines(rows.last())
    }
}

/// The lines of every readable sheet, sheet after sheet.
pub open spec fn workbook_lines(w: Seq<Option<Seq<Seq<Seq<char>>>>>) -> Seq<Seq<char>>
    decreases w.len(),
{
    if w.len() == 0 {
        Seq::empty()
    } else {
        workbook_lines(w.drop_last()) + match w.last() {
            Some(rows) => sheet_lines(rows),
            None => Seq::empty(),
        }
    }
}

/// The text of a workbook: its row lines joined by `'\n'`.
pub open spec fn workbook_text(w: Seq<Option<Seq<Seq<Seq<char>>>>>) -> Seq<char> {
    join(workbook_lines(w), seq!['\n'])
}

/// A sheet's lines are its rows' lines, in order: the lines of two lists of
/// rows one after the other are the one's lines followed by the other's, and a
/// single row gives its line.
pub proof fn lemma_sheet_lines_concat(r1: Seq<Seq<Seq<char>>>, r2: Seq<Seq<Seq<char>>>)
    ensures
        sheet_lines(r1 + r2) == sheet_lines(r1) + sheet_lines(r2),
        forall|row: Seq<Seq<char>>| #[trigger] sheet_lines(seq![row]) == row_lines(row),
    decreases r2.len(),
{
    assert forall|row: Seq<Seq<char>>| #[trigger] sheet_lines(seq![row]) == row_lines(row) by {
        assert(seq![row].drop_last() =~= Seq::<Seq<Seq<char>>>::empty());
        assert(seq![row].last() == row);
        assert(sheet_lines(Seq::<Seq<Seq<char>>>::empty()) == Seq::<Seq<char>>::empty());
        assert(Seq::<Seq<char>>::empty() + row_lines(row) =~= row_lines(row));
    }
    if r2.len() == 0 {
        assert(r1 + r2 =~= r1);
        assert(sheet_lines(r1) + Seq::<Seq<char>>::empty() =~= sheet_lines(r1));
    } else {
        lemma_sheet_lines_concat(r1, r2.drop_last());
        assert((r1 + r2).drop_last() =~= r1 + r2.drop_last());
        assert((r1 + r2).last() == r2.last());
        assert(sheet_lines(r1) + sheet_lines(r2.drop_last()) + row_lines(r2.last()) =~= sheet_lines(
            r1,
        ) + (sheet_lines(r2.drop_last()) + row_lines(r2.last())));
    }
}

/// A workbook's lines are its readable sheets' lines, sheet after sheet: the
/// lines of two lists of sheets one after the other are the one's lines
/// followed by the other's, a readable sheet gives its lines and an
/// unreadable one nothing.
pub proof fn lemma_workbook_lines_concat(
    w1: Seq<Option<Seq<Seq<Seq<char>>>>>,
    w2: Seq<Option<Seq<Seq<Seq<char>>>>>,
)
    ensures
        workbook_lines(w1 + w2) == workbook_lines(w1) + workbook_lines(w2),
        forall|rows: Seq<Seq<Seq<char>>>| #[trigger] workbook_lines(seq![Some(rows)]) == sheet_lines(rows),
        workbook_lines(seq![None::<Seq<Seq<Seq<char>>>>]) == Seq::<Seq<char>>::empty(),
    decreases w2.len(),
{
    let e = Seq::<Option<Seq<Seq<Seq<char>>>>>::empty();
    assert forall|rows: Seq<Seq<Seq<char>>>| #[trigger] workbook_lines(seq![Some(rows)])
        == sheet_lines(rows) by {
        assert(seq![Some(rows)].drop_last() =~= e);
        assert(seq![Some(rows)].last() == Some(rows));
        assert(workbook_lines(e) == Seq::<Seq<char>>::empty());
        assert(Seq::<Seq<char>>::empty() + sheet_lines(rows) =~= sheet_lines(rows));
    }
    assert(seq![None::<Seq<Seq<Seq<char>>>>].drop_last() =~= e);
    assert(seq![None::<Seq<Seq<Seq<char>>>>].last() == None::<Seq<Seq<Seq<char>>>>);
    assert(workbook_lines(e) == Seq::<Seq<char>>::empty());
    assert(Seq::<Seq<char>>::empty() + Seq::<Seq<char>>::empty() =~= Seq::<Seq<char>>::empty());
    if w2.len() == 0 {
        assert(w1 + w2 =~= w1);
        assert(workbook_lines(w1) + Seq::<Seq<char>>::empty() =~= workbook_lines(w1));
    } else {
        lemma_workbook_lines_concat(w1, w2.drop_last());
        assert((w1 + w2).drop_last() =~= w1 + w2.drop_last());
        assert((w1 + w2).last() == w2.last());
        let tail = match w2.last() {
            Some(rows) => sheet_lines(rows),
            None => Seq::<Seq<char>>::empty(),
        };
        assert(workbook_lines(w1) + workbook_lines(w2.drop_last()) + tail =~= workbook_lines(w1) + (
        workbook_lines(w2.drop_last()) + tail));
    }
}

/// Keeps the non-empty cells of a row.
fn nonempty_cells(row: &Vec<String>) -> (r: Vec<String>)
    ensures
        string_views(r@) == nonempty_parts(string_views(row@)),
{
    let mut r: Vec<String> = Vec::new();
    let mut i: usize = 0;
    while i < row.len()
        invariant
            i <= row.len(),
            string_views(r@) == nonempty_parts(string_views(row@).take(i as int)),
        decreases row.len() - i,
    {
        assert(string_views(row@).take(i + 1).drop_last() =~= string_views(row@).take(i as int));
        let ghost before = string_views(r@);
        if !row[i].as_str().is_empty() {
            r.push(row[i].clone());
            assert(string_views(r@) =~= before.push(row[i as int]@));
        }
        i = i + 1;
    }
    assert(string_views(row@).take(row.len() as int) =~= string_views(row@));
    r
}

/// The text of a workbook's sheets (see `workbook_text`).
pub fn workbook_string(w: &SheetRows) -> (s: String)
    ensures
        s@ == workbook_text(sheets_view(*w)),
{
    let tab = "\t";
    proof {
        reveal_strlit("\t");
    }
    assert(tab@ =~= seq!['\t']);
    let mut lines: Vec<String> = Vec::new();
    let mut i: usize = 0;
    while i < w.len()
        invariant
            i <= w.len(),
            tab@ == seq!['\t'],
            string_views(lines@) == workbook_lines(sheets_view(*w).take(i as int)),
        decreases w.len() - i,
    {
        assert(sheets_view(*w).take(i + 1).drop_last() =~= sheets_view(*w).take(i as int));
        match &w[i] {
            Some(rows) => {
                let ghost start = string_views(lines@);
                let ghost rv = sheets_view(*w)[i as int]->0;
                let mut j: usize = 0;
                assert(rv.take(0) =~= Seq::<Seq<Seq<char>>>::empty());
                assert(start + sheet_lines(rv.take(0)) =~= start);
                while j < rows.len()
                    invariant
                        j <= rows.len(),
                        tab@ == seq!['\t'],
                        rv == rows@.map_values(
                            |row: Vec<String>| row@.map_values(|cell: String| cell@),
                        ),
                        string_views(lines@) == start + sheet_lines(rv.take(j as int)),
                    decreases rows.len() - j,
                {
                    assert(rv.take(j + 1).drop_last() =~= rv.take(j as int));
                    assert(rv[j as int] =~= string_views(rows[j as int]@));
                    let cells = nonempty_cells(&rows[j]);
                    let ghost before = string_views(lines@);
                    if cells.len() > 0 {
                        let line = join_strings(&cells, tab);
                        lines.push(line);
                        assert(string_views(lines@) =~= before.push(line@));
                    }
                    j = j + 1;
                    assert(string_views(lines@) =~= start + sheet_lines(rv.take(j as int)));
                }
                assert(rv.take(rows.len() as int) =~= rv);
            },
            None => {},
        }
        i = i + 1;
        assert(string_views(lines@) =~= workbook_lines(sheets_view(*w).take(i as int)));
    }
    assert(sheets_view(*w).take(w.len() as int) =~= sheets_view(*w));
    let nl = "\n";
    proof {
        reveal_strlit("\n");
    }
    assert(nl@ =~= seq!['\n']);
    join_strings(&lines, nl)
}

/// The lines of the records before the first unreadable one, or that one's error.
pub open spec fn csv_record_lines(recs: Seq<Result<Seq<Seq<char>>, Seq<char>>>) -> Result<
    Seq<Seq<char>>,
    Seq<char>,
>
    decreases recs.len(),
{
    if recs.len() == 0 {
        Ok(Seq::empty())
    } else {
        match csv_record_lines(recs.drop_last()) {
            Err(e) => Err(e),
            Ok(ls) => match recs.last() {
                Err(e) => Err(e),
                Ok(fields) => Ok(
                    if fields.len() > 0 {
                        ls.push(join(fields, seq!['\t']))
                    } else {
                        ls
                    },
                ),
            },
        }
    }
}

/// The text of a CSV file: the header line (when it has fields) and one line
/// per record, fields separated by tabs, lines by `'\n'`; or the error of the
/// first record that could not be read.
pub open spec fn csv_text(t: (Option<Seq<Seq<char>>>, Seq<Result<Seq<Seq<char>>, Seq<char>>>)) -> Result<
    Seq<char>,
    Seq<char>,
> {
    let head: Seq<Seq<char>> = match t.0 {
        Some(h) => if h.len() > 0 {
            seq![join(h, seq!['\t'])]
        } else {
            Seq::empty()
        },
        None => Seq::empty(),
    };
    match csv_record_lines(t.1) {
        Err(e) => Err(e),
        Ok(ls) => Ok(join(head + ls, seq!['\n'])),
    }
}

/// The text of a CSV table (see `csv_text`).
pub fn csv_string(t: &CsvTable) -> (r: Result<String, String>)
    ensures
        match r {
            Ok(s) => csv_text(csv_view(*t)) == Ok::<_, Seq<char>>(s@),
            Err(e) => csv_text(csv_view(*t)) == Err::<Seq<char>, _>(e@),
        },
{
    let tab = "\t";
    let nl = "\n";
    proof {
        reveal_strlit("\t");
        reveal_strlit("\n");
    }
    assert(tab@ =~= seq!['\t']);
    assert(nl@ =~= seq!['\n']);
    let ghost v = csv_view(*t);
    let mut lines: Vec<String> = Vec::new();
    match &t.0 {
        Some(h) => {
            if h.len() > 0 {
                lines.push(join_strings(h, tab));
            }
        },
        None => {},
    }
    let ghost head = string_views(lines@);
    assert(head =~= match v.0 {
        Some(h) => if h.len() > 0 {
            seq![join(h, seq!['\t'])]
        } else {
            Seq::empty()
        },
        None => Seq::empty(),
    });
    let recs = &t.1;
    let mut i: usize = 0;
    assert(v.1.take(0) =~= Seq::<Result<Seq<Seq<char>>, Seq<char>>>::empty());
    assert(string_views(lines@).skip(head.len() as int) =~= Seq::<Seq<char>>::empty());
    assert(string_views(lines@).take(head.len() as int) =~= head);
    while i < recs.len()
        invariant
            i <= recs.len(),
            tab@ == seq!['\t'],
            v == csv_view(*t),
            *recs == t.1,
            csv_record_lines(v.1.take(i as int)) == Ok::<_, Seq<char>>(
                string_views(lines@).skip(head.len() as int),
            ),
            head.len() <= lines.len(),
            string_views(lines@).take(head.len() as int) == head,
        decreases recs.len() - i,
    {
        assert(v.1.take(i + 1).drop_last() =~= v.1.take(i as int));
        match &recs[i] {
            Err(e) => {
                assert(csv_record_lines(v.1.take(i + 1)) == Err::<Seq<Seq<char>>, _>(e@));
                proof {
                    lemma_csv_error_stays(v.1, i + 1);
                }
                return Err(e.clone());
            },
            Ok(fields) => {
                let ghost before = string_views(lines@);
                if fields.len() > 0 {
                    let line = join_strings(fields, tab);
                    lines.push(line);
                    assert(string_views(lines@) =~= before.push(line@));
                    assert(string_views(lines@).skip(head.len() as int) =~= before.skip(
                        head.len() as int,
                    ).push(line@));
                    assert(string_views(lines@).take(head.len() as int) =~= before.take(
                        head.len() as int,
                    ));
                }
            },
        }
        i = i + 1;
    }
    assert(v.1.take(recs.len() as int) =~= v.1);
    assert(head + string_views(lines@).skip(head.len() as int) =~= string_views(lines@));
    Ok(join_strings(&lines, nl))
}

/// Once a record cannot be read, the outcome is that record's error.
proof fn lemma_csv_error_stays(recs: Seq<Result<Seq<Seq<char>>, Seq<char>>>, k: int)
    requires
        0 <= k <= recs.len(),
        csv_record_lines(recs.take(k)) is Err,
    ensures
        csv_record_lines(recs) == csv_record_lines(recs.take(k)),
    decreases recs.len() - k,
{
    if k < recs.len() {
        assert(recs.take(k + 1).drop_last() =~= recs.take(k));
        lemma_csv_error_stays(recs, k + 1);
    } else {
        assert(recs.take(k) =~= recs);
    }
}

} // verus!
