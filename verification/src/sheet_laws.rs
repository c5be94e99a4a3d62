//! What holds of every sheet that is read: which columns and which rows count.
use vstd::arithmetic::power2::pow2;
use vstd::prelude::*;

use crate::order_laws::lemma_filter_picks;
use crate::paths::lower_extension;
use crate::spreadsheet::{
    cell_text, column_at, columns_before, first_batch_sheet, has_sheet_extension, is_batch_sheet,
    is_kept, is_usable, lemma_sheet_shape, message_of, number_text, parsed, row_of, sheet_in_book,
    sheet_in_rows,
    sheet_of, whole_magnitude, CellModel, LangColumnModel, MessageModel, SheetModel,
};
use crate::text::{decimal, digits, lowered, trimmed};
use crate::text_laws::{lemma_batch_sheet_name, reads};
use crate::workbook::BookModel;

verus! {

/// What each cell reads: a text without white space at its ends, a number as it is written, a date
/// or duration as the sheet has it, and an error by its name.
pub proof fn lemma_cells_read(cell: CellModel)
    ensures
        match cell {
            CellModel::Text(s) => cell_text(cell) == trimmed(s),
            CellModel::Float { bits, shown } => cell_text(cell) == number_text(bits, shown),
            CellModel::Int(i) => cell_text(cell) == decimal(i as int),
            CellModel::Bool(b) => cell_text(cell) == (if b {
                "true"@
            } else {
                "false"@
            }),
            CellModel::DateTime(s) => cell_text(cell) == s,
            CellModel::DateTimeIso(s) => cell_text(cell) == s,
            CellModel::DurationIso(s) => cell_text(cell) == s,
            CellModel::Error(name) => cell_text(cell) == "#ERROR:"@ + name,
            CellModel::Empty => cell_text(cell).len() == 0,
        },
{
}

/// A number that is whole and below a thousand million million is written with its digits alone,
/// behind a minus sign where it has one; any other is written in full. With the pattern read as
/// `m * 2^(e - 1075)`, the number is `n` exactly where `m * 2^e` is `n * 2^1075`.
pub proof fn lemma_whole_numbers_read(bits: u64, shown: Seq<char>, n: nat)
    ensures
        ({
            let field = bits as int / 0x10_0000_0000_0000 % 2048;
            let low = bits as int % 0x10_0000_0000_0000;
            let m = (if field == 0 {
                low
            } else {
                low + 0x10_0000_0000_0000
            }) as nat;
            let e = (if field == 0 {
                1
            } else {
                field
            }) as nat;
            let whole = n < 1_000_000_000_000_000 && m * pow2(e) == n * pow2(1075);
            &&& whole && bits < 0x8000_0000_0000_0000 ==> number_text(bits, shown) == digits(n)
            &&& whole && bits >= 0x8000_0000_0000_0000 ==> number_text(bits, shown) == seq!['-']
                + digits(n)
            &&& whole_magnitude(bits) == Some(n) <==> whole
            &&& whole_magnitude(bits) is None ==> number_text(bits, shown) == shown
        }),
{
    let field = bits as int / 0x10_0000_0000_0000 % 2048;
    let low = bits as int % 0x10_0000_0000_0000;
    let m = (if field == 0 {
        low
    } else {
        low + 0x10_0000_0000_0000
    }) as nat;
    let e = (if field == 0 {
        1
    } else {
        field
    }) as nat;
    let many = pow2(e);
    vstd::arithmetic::power2::lemma_pow2_pos(e);
    if field >= 1075 {
        if e > 1075 {
            vstd::arithmetic::power2::lemma_pow2_strictly_increases(1075, e);
        }
        vstd::arithmetic::power2::lemma_pow2_pos(1075);
        assert(n < 1_000_000_000_000_000 ==> m * many > n * pow2(1075)) by (nonlinear_arith)
            requires
                m >= 0x10_0000_0000_0000,
                many >= pow2(1075),
                pow2(1075) > 0,
        ;
        assert(whole_magnitude(bits) is None);
    } else {
        let unit = pow2((1075 - e) as nat);
        vstd::arithmetic::power2::lemma_pow2_pos((1075 - e) as nat);
        vstd::arithmetic::power2::lemma_pow2_adds(e, (1075 - e) as nat);
        assert(m * many == n * pow2(1075) <==> m == n * unit) by (nonlinear_arith)
            requires
                pow2(1075) == many * unit,
                many > 0,
        ;
        vstd::arithmetic::div_mod::lemma_fundamental_div_mod(m as int, unit as int);
        if m == n * unit {
            vstd::arithmetic::div_mod::lemma_fundamental_div_mod_converse(
                m as int,
                unit as int,
                n as int,
                0,
            );
        }
        assert(m % unit == 0 && m / unit == n ==> m == n * unit) by (nonlinear_arith)
            requires
                m == unit * (m / unit) + m % unit,
        ;
    }
}

/// The text of the cell in row `r` and column `c` of the sheet; nothing where the row is shorter.
pub open spec fn text_in(rows: Seq<Seq<CellModel>>, r: int, c: int) -> Seq<char> {
    if 0 <= c < rows[r].len() {
        cell_text(rows[r][c])
    } else {
        Seq::empty()
    }
}

/// The columns of a sheet are those behind the first whose first row names a collection and whose
/// second row names a language, all of them, each with what it names.
pub proof fn lemma_columns_named_twice(rows: Seq<Seq<CellModel>>, sheet: SheetModel)
    requires
        sheet_of(rows) == Ok::<SheetModel, Seq<char>>(sheet),
    ensures
        rows.len() >= 2,
        sheet.columns.len() > 0,
        forall|k: int|
            0 <= k < sheet.columns.len() ==> {
                let column = #[trigger] sheet.columns[k];
                &&& column.column >= 1
                &&& column.collection == text_in(rows, 0, column.column as int)
                &&& column.language == text_in(rows, 1, column.column as int)
                &&& column.collection.len() > 0
                &&& column.language.len() > 0
            },
        forall|j: int, k: int|
            0 <= j < k < sheet.columns.len() ==> #[trigger] sheet.columns[j].column
                < #[trigger] sheet.columns[k].column,
        forall|c: int|
            c >= 1 && #[trigger] text_in(rows, 0, c).len() > 0 && text_in(rows, 1, c).len() > 0
                ==> exists|k: int|
                0 <= k < sheet.columns.len() && #[trigger] sheet.columns[k].column == c,
{
    let cs = row_of(rows[0]);
    let ls = row_of(rows[1]);
    let width = if cs.len() >= ls.len() {
        cs.len()
    } else {
        ls.len()
    };
    let usable = |c: LangColumnModel| is_usable(c);
    let candidates = columns_before(cs, ls, width as int);
    let at = lemma_filter_picks(candidates, usable);
    assert(sheet.columns == candidates.filter(usable));
    lemma_sheet_shape(rows, sheet);
    assert forall|k: int| 0 <= k < sheet.columns.len() implies {
        let column = #[trigger] sheet.columns[k];
        &&& column.column >= 1
        &&& column.collection == text_in(rows, 0, column.column as int)
        &&& column.language == text_in(rows, 1, column.column as int)
        &&& column.collection.len() > 0
        &&& column.language.len() > 0
    } by {
        assert(is_usable(sheet.columns[k]));
        assert(0 <= at[k] < candidates.len());
        assert(sheet.columns[k] == candidates[at[k]]);
        assert(candidates[at[k]] == column_at(cs, ls, at[k] + 1));
    }
    assert forall|c: int|
        c >= 1 && #[trigger] text_in(rows, 0, c).len() > 0 && text_in(rows, 1, c).len()
            > 0 implies exists|k: int|
        0 <= k < sheet.columns.len() && #[trigger] sheet.columns[k].column == c by {
        assert(c < width);
        assert(candidates[c - 1] == column_at(cs, ls, c));
        assert(usable(candidates[c - 1]));
        assert(at.contains(c - 1));
        let k = choose|k: int| 0 <= k < at.len() && at[k] == c - 1;
        assert(sheet.columns[k] == candidates[at[k]]);
        assert(sheet.columns[k].column == c);
    }
}

/// Whether row `r` has an id and, in some column that counts, a text.
pub open spec fn has_message(
    rows: Seq<Seq<CellModel>>,
    columns: Seq<LangColumnModel>,
    r: int,
) -> bool {
    &&& text_in(rows, r, 0).len() > 0
    &&& exists|j: int|
        0 <= j < columns.len() && text_in(
            rows,
            r,
            (#[trigger] columns[j]).column as int,
        ).len() > 0
}

/// Whether `messages` are what the rows `at` of the sheet hold, and those are all rows from the
/// third on that have an id and a text in some column, in their order.
pub open spec fn are_messages(
    rows: Seq<Seq<CellModel>>,
    columns: Seq<LangColumnModel>,
    messages: Seq<MessageModel>,
    at: Seq<int>,
) -> bool {
    &&& at.len() == messages.len()
    &&& forall|k: int| 0 <= k < at.len() ==> 2 <= #[trigger] at[k] < rows.len()
    &&& forall|j: int, k: int| 0 <= j < k < at.len() ==> #[trigger] at[j] < #[trigger] at[k]
    &&& forall|r: int|
        2 <= r < rows.len() ==> (#[trigger] has_message(rows, columns, r) <==> at.contains(r))
    &&& forall|k: int|
        0 <= k < messages.len() ==> (#[trigger] messages[k]).id == text_in(rows, at[k], 0)
    &&& forall|k: int|
        0 <= k < messages.len() ==> (#[trigger] messages[k]).cells.len() == columns.len()
    &&& forall|k: int, j: int|
        0 <= k < messages.len() && 0 <= j < columns.len() ==> #[trigger] messages[k].cells[j]
            == text_in(rows, at[k], columns[j].column as int)
}

/// A row from the third on gives a message exactly where it has an id and some column that counts,
/// whichever it is, has a text in it; the messages come in the order of their rows, each with the
/// text of every column.
pub proof fn lemma_rows_with_text_are_messages(rows: Seq<Seq<CellModel>>, sheet: SheetModel)
    requires
        sheet_of(rows) == Ok::<SheetModel, Seq<char>>(sheet),
    ensures
        exists|at: Seq<int>| #[trigger] are_messages(rows, sheet.columns, sheet.messages, at),
{
    let columns = sheet.columns;
    let messages = sheet.messages;
    let data = rows.skip(2);
    let read = |r: Seq<CellModel>| message_of(row_of(r), columns);
    let keep = |m: MessageModel| is_kept(m);
    let all = data.map_values(read);
    assert(messages == all.filter(keep));
    let from = lemma_filter_picks(all, keep);
    let at = from.map_values(|k: int| k + 2);
    assert forall|i: int| 0 <= i < all.len() implies {
        let m = #[trigger] all[i];
        &&& m.id == text_in(rows, i + 2, 0)
        &&& m.cells.len() == columns.len()
        &&& forall|j: int|
            0 <= j < columns.len() ==> #[trigger] m.cells[j] == text_in(
                rows,
                i + 2,
                columns[j].column as int,
            )
    } by {
        assert(data[i] == rows[i + 2]);
    }
    assert forall|r: int| 2 <= r < rows.len() implies (#[trigger] has_message(rows, columns, r)
        <==> at.contains(r)) by {
        let m = all[r - 2];
        if has_message(rows, columns, r) {
            let j = choose|j: int|
                0 <= j < columns.len() && text_in(
                    rows,
                    r,
                    (#[trigger] columns[j]).column as int,
                ).len() > 0;
            assert(m.cells[j].len() > 0);
            assert(keep(all[r - 2]));
            assert(from.contains(r - 2));
            let k = choose|k: int| 0 <= k < from.len() && from[k] == r - 2;
            assert(at[k] == r);
        }
        if at.contains(r) {
            let k = choose|k: int| 0 <= k < at.len() && at[k] == r;
            assert(from[k] == r - 2);
            assert(from.contains(r - 2));
            assert(keep(all[r - 2]));
            let j = choose|j: int| 0 <= j < m.cells.len() && #[trigger] m.cells[j].len() > 0;
            assert(columns[j].column == columns[j].column);
        }
    }
    assert forall|k: int| 0 <= k < at.len() implies 2 <= #[trigger] at[k] < rows.len() by {
        assert(0 <= from[k] < all.len());
    }
    assert forall|j: int, k: int| 0 <= j < k < at.len() implies #[trigger] at[j]
        < #[trigger] at[k] by {
        assert(from[j] < from[k]);
    }
    assert forall|k: int| 0 <= k < messages.len() implies (#[trigger] messages[k]).id == text_in(
        rows,
        at[k],
        0,
    ) && messages[k].cells.len() == columns.len() by {
        assert(0 <= from[k] < all.len());
        assert(messages[k] == all[from[k]]);
    }
    assert forall|k: int, j: int|
        0 <= k < messages.len() && 0 <= j < columns.len() implies #[trigger] messages[k].cells[j]
        == text_in(rows, at[k], columns[j].column as int) by {
        assert(0 <= from[k] < all.len());
        assert(messages[k] == all[from[k]]);
    }
    assert(are_messages(rows, columns, messages, at));
}

/// A sheet is refused exactly where it has no row, no second row, or no column that is named twice,
/// and each time for that reason.
pub proof fn lemma_sheets_refused(rows: Seq<Seq<CellModel>>)
    ensures
        rows.len() == 0 <==> sheet_of(rows) == Err::<SheetModel, Seq<char>>("sheet is empty"@),
        rows.len() == 1 <==> sheet_of(rows) == Err::<SheetModel, Seq<char>>(
            "sheet has no language row (row 2)"@,
        ),
        rows.len() >= 2 && (forall|c: int|
            c >= 1 ==> #[trigger] text_in(rows, 0, c).len() == 0 || text_in(rows, 1, c).len() == 0)
            <==> sheet_of(rows) == Err::<SheetModel, Seq<char>>(
            "no usable column in the \"Batcher\" sheet: each column needs a collection (row 1) and a language (row 2)"@,
        ),
        sheet_of(rows) is Ok <==> rows.len() >= 2 && exists|c: int|
            c >= 1 && #[trigger] text_in(rows, 0, c).len() > 0 && text_in(rows, 1, c).len() > 0,
{
    reveal_strlit("sheet is empty");
    reveal_strlit("sheet has no language row (row 2)");
    reveal_strlit(
        "no usable column in the \"Batcher\" sheet: each column needs a collection (row 1) and a language (row 2)",
    );
    assert("sheet is empty"@[6] == 'i');
    assert("sheet has no language row (row 2)"@[6] == 'h');
    assert("no usable column in the \"Batcher\" sheet: each column needs a collection (row 1) and a language (row 2)"@[0]
        == 'n');
    assert("sheet is empty"@[0] == 's');
    assert("sheet has no language row (row 2)"@[0] == 's');
    if rows.len() >= 2 {
        match sheet_of(rows) {
            Ok(sheet) => {
                lemma_columns_named_twice(rows, sheet);
                let c = sheet.columns[0].column as int;
                assert(text_in(rows, 0, c).len() > 0 && text_in(rows, 1, c).len() > 0);
            },
            Err(e) => {
                let cs = row_of(rows[0]);
                let ls = row_of(rows[1]);
                let width = if cs.len() >= ls.len() {
                    cs.len()
                } else {
                    ls.len()
                };
                let usable = |c: LangColumnModel| is_usable(c);
                let candidates = columns_before(cs, ls, width as int);
                let at = lemma_filter_picks(candidates, usable);
                assert forall|c: int| c >= 1 implies #[trigger] text_in(rows, 0, c).len() == 0
                    || text_in(rows, 1, c).len() == 0 by {
                    if c < width {
                        assert(candidates[c - 1] == column_at(cs, ls, c));
                        assert(usable(candidates[c - 1]) <==> at.contains(c - 1));
                    }
                }
            },
        }
    }
}

/// The sheet that is read is the first one called `Batcher`, whatever the case of the letters;
/// there is none only where no sheet is called so.
pub proof fn lemma_first_batch_sheet_is_first(names: Seq<Seq<char>>)
    ensures
        first_batch_sheet(names) matches Some(name) ==> exists|i: int|
            0 <= i < names.len() && #[trigger] names[i] == name && reads(
                lowered(name),
                "batcher"@,
            ) && forall|k: int|
                0 <= k < i ==> !reads(lowered(#[trigger] names[k]), "batcher"@),
        first_batch_sheet(names) is None ==> forall|k: int|
            0 <= k < names.len() ==> !reads(lowered(#[trigger] names[k]), "batcher"@),
    decreases names.len(),
{
    if names.len() > 0 {
        lemma_batch_sheet_name(names[0]);
        if is_batch_sheet(names[0]) {
            assert(names[0] == first_batch_sheet(names)->Some_0);
        } else {
            let rest = names.drop_first();
            lemma_first_batch_sheet_is_first(rest);
            if first_batch_sheet(rest) is Some {
                let name = first_batch_sheet(rest)->Some_0;
                let i = choose|i: int|
                    0 <= i < rest.len() && #[trigger] rest[i] == name && reads(
                        lowered(name),
                        "batcher"@,
                    ) && forall|k: int|
                        0 <= k < i ==> !reads(lowered(#[trigger] rest[k]), "batcher"@);
                assert(names[i + 1] == name);
                assert forall|k: int| 0 <= k < i + 1 implies !reads(
                    lowered(#[trigger] names[k]),
                    "batcher"@,
                ) by {
                    if k > 0 {
                        assert(rest[k - 1] == names[k]);
                    }
                }
            } else {
                assert forall|k: int| 0 <= k < names.len() implies !reads(
                    lowered(#[trigger] names[k]),
                    "batcher"@,
                ) by {
                    if k > 0 {
                        assert(rest[k - 1] == names[k]);
                    }
                }
            }
        }
    }
}

/// What parsing a workbook file answers: it refuses a file that cannot be opened, one without a
/// batch sheet, and one whose batch sheet cannot be read, each with what is known of why, and gives
/// what the rows of that sheet say otherwise.
pub proof fn lemma_parsing_answers(path: Seq<char>, workbook: Result<BookModel, Seq<char>>)
    requires
        has_sheet_extension(path),
    ensures
        workbook matches Err(e) ==> parsed(path, workbook) == Err::<SheetModel, Seq<char>>(
            "open workbook: "@ + e,
        ),
        workbook matches Ok(book) ==> parsed(path, workbook) == sheet_in_book(book),
        workbook matches Ok(book) ==> {
            let found = first_batch_sheet(book.names);
            &&& found is None ==> parsed(path, workbook) == Err::<SheetModel, Seq<char>>(
                "no \"Batcher\" sheet found in the workbook"@,
            )
            &&& found is Some && book.sheet is Err ==> parsed(path, workbook) == Err::<
                SheetModel,
                Seq<char>,
            >("read sheet "@ + found->Some_0 + ": "@ + book.sheet->Err_0)
            &&& found is Some && book.sheet is Ok ==> parsed(path, workbook) == sheet_of(
                book.sheet->Ok_0,
            )
        },
{
}

/// The rows of a sheet say what they say whatever it is called; where they could not be read, the
/// report names it.
pub proof fn lemma_named_sheet_answers(
    name: Seq<char>,
    rows: Result<Seq<Seq<CellModel>>, Seq<char>>,
)
    ensures
        rows matches Ok(r) ==> sheet_in_rows(name, rows) == sheet_of(r),
        rows matches Err(e) ==> sheet_in_rows(name, rows) == Err::<SheetModel, Seq<char>>(
            "read sheet "@ + name + ": "@ + e,
        ),
{
}

/// A file that is no spreadsheet by its extension is refused for that, with the extension.
pub proof fn lemma_other_formats_refused(
    path: Seq<char>,
    workbook: Result<BookModel, Seq<char>>,
)
    requires
        !has_sheet_extension(path),
    ensures
        parsed(path, workbook) == Err::<SheetModel, Seq<char>>(
            "unsupported spreadsheet format: ."@ + lower_extension(path)
                + " (expected an .xlsx with a \"Batcher\" sheet)"@,
        ),
{
}

} // verus!
