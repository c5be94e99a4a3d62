//! The sheet that drives a batch: which languages, which image collections, which messages.
use vstd::arithmetic::power2::pow2;
use vstd::prelude::*;

use crate::paths::{components, extension, file_name_of, lower_extension};
use crate::text::{
    ascii_lowercase, chars_of, decimal, decimal_text, digits, is_white_space,
    lemma_single_piece, lemma_strip_ends, lowered, outcome, push_digits, same_ignoring_ascii_case,
    same_text, trim, trim_dots, trimmed, undotted,
};
use crate::workbook::{take_rows, BookModel, Workbook};

verus! {

/// A cell of a sheet, in mathematical terms.
pub enum CellModel {
    Text(Seq<char>),
    Float { bits: u64, shown: Seq<char> },
    Int(i64),
    Bool(bool),
    DateTime(Seq<char>),
    DateTimeIso(Seq<char>),
    DurationIso(Seq<char>),
    Error(Seq<char>),
    Empty,
}

/// A cell of a sheet.
pub enum Cell {
    Text(String),
    /// A number: the bit pattern of its double-precision form, and how it is written in full.
    Float { bits: u64, shown: String },
    Int(i64),
    Bool(bool),
    /// A date or time, as the serial number that the sheet holds.
    DateTime(String),
    DateTimeIso(String),
    DurationIso(String),
    /// The name of an error.
    Error(String),
    Empty,
}

impl DeepView for Cell {
    type V = CellModel;

    open spec fn deep_view(&self) -> CellModel {
        match *self {
            Cell::Text(s) => CellModel::Text(s@),
            Cell::Float { bits, shown } => CellModel::Float { bits, shown: shown@ },
            Cell::Int(i) => CellModel::Int(i),
            Cell::Bool(b) => CellModel::Bool(b),
            Cell::DateTime(s) => CellModel::DateTime(s@),
            Cell::DateTimeIso(s) => CellModel::DateTimeIso(s@),
            Cell::DurationIso(s) => CellModel::DurationIso(s@),
            Cell::Error(s) => CellModel::Error(s@),
            Cell::Empty => CellModel::Empty,
        }
    }
}

/// A thousand million million: numbers from here on are written in full.
pub const WHOLE_LIMIT: u64 = 1_000_000_000_000_000;

/// The magnitude of a double-precision number that is whole and below [`WHOLE_LIMIT`].
pub open spec fn whole_magnitude(bits: u64) -> Option<nat> {
    let exp = (bits / 0x10_0000_0000_0000) % 2048;
    let low = bits % 0x10_0000_0000_0000;
    if exp >= 1075 {
        None
    } else {
        let m = if exp == 0 {
            low as nat
        } else {
            (low + 0x10_0000_0000_0000) as nat
        };
        let unit = pow2(
            (if exp == 0 {
                1074
            } else {
                1075 - exp
            }) as nat,
        );
        if m % unit == 0 && m / unit < WHOLE_LIMIT {
            Some(m / unit)
        } else {
            None
        }
    }
}

/// How a number is written: whole numbers without a fraction, others in full.
pub open spec fn number_text(bits: u64, shown: Seq<char>) -> Seq<char> {
    match whole_magnitude(bits) {
        Some(n) => if bits >= 0x8000_0000_0000_0000 {
            seq!['-'] + digits(n)
        } else {
            digits(n)
        },
        None => shown,
    }
}

/// The text of a cell.
pub open spec fn cell_text(cell: CellModel) -> Seq<char> {
    match cell {
        CellModel::Text(s) => trimmed(s),
        CellModel::Float { bits, shown } => number_text(bits, shown),
        CellModel::Int(i) => decimal(i as int),
        CellModel::Bool(b) => if b {
            "true"@
        } else {
            "false"@
        },
        CellModel::DateTime(s) => s,
        CellModel::DateTimeIso(s) => s,
        CellModel::DurationIso(s) => s,
        CellModel::Error(name) => "#ERROR:"@ + name,
        CellModel::Empty => Seq::empty(),
    }
}

/// The magnitude of a number that is whole and below [`WHOLE_LIMIT`].
fn find_whole(bits: u64) -> (n: Option<u64>)
    ensures
        match n {
            Some(k) => whole_magnitude(bits) == Some(k as nat),
            None => whole_magnitude(bits) is None,
        },
{
    let exp: u64 = (bits / 0x10_0000_0000_0000) % 2048;
    let low: u64 = bits % 0x10_0000_0000_0000;
    if exp >= 1075 {
        return None;
    }
    let m: u64 = if exp == 0 {
        low
    } else {
        low + 0x10_0000_0000_0000
    };
    let places: u64 = if exp == 0 {
        1074
    } else {
        1075 - exp
    };
    let ghost whole = pow2(places as nat);
    proof {
        vstd::arithmetic::power2::lemma_pow2_pos(places as nat);
        vstd::arithmetic::power2::lemma2_to64();
    }
    if places >= 64 {
        proof {
            if places > 64 {
                vstd::arithmetic::power2::lemma_pow2_strictly_increases(64, places as nat);
            }
            assert(m < whole);
            assert((m as nat) % whole == m && (m as nat) / whole == 0) by (nonlinear_arith)
                requires
                    0 <= m < whole,
            ;
        }
        return if m == 0 {
            Some(0)
        } else {
            None
        };
    }
    let mut unit: u128 = 1;
    let mut i: u64 = 0;
    while i < places
        invariant
            i <= places <= 64,
            unit == pow2(i as nat),
            unit <= 0x1_0000_0000_0000_0000,
        decreases places - i,
    {
        proof {
            vstd::arithmetic::power2::lemma_pow2_unfold((i + 1) as nat);
            vstd::arithmetic::power2::lemma2_to64();
            if i + 1 < 64 {
                vstd::arithmetic::power2::lemma_pow2_strictly_increases((i + 1) as nat, 64);
            }
        }
        unit = 2 * unit;
        i = i + 1;
    }
    let big: u128 = m as u128;
    assert(big / unit <= big) by (nonlinear_arith)
        requires
            unit > 0,
            big >= 0,
    ;
    if big % unit == 0 && big / unit < WHOLE_LIMIT as u128 {
        Some((big / unit) as u64)
    } else {
        None
    }
}

/// The text of a cell.
pub fn cell_to_string(cell: &Cell) -> (text: String)
    ensures
        text@ == cell_text(cell.deep_view()),
{
    match cell {
        Cell::Text(s) => trim(s.as_str()),
        Cell::Float { bits, shown } => match find_whole(*bits) {
            Some(n) => {
                let mut text = String::new();
                if *bits >= 0x8000_0000_0000_0000 {
                    text.push('-');
                }
                push_digits(&mut text, n);
                assert(text@ =~= number_text(*bits, shown@));
                text
            },
            None => shown.clone(),
        },
        Cell::Int(i) => decimal_text(*i),
        Cell::Bool(b) => if *b {
            "true".to_string()
        } else {
            "false".to_string()
        },
        Cell::DateTime(s) => s.clone(),
        Cell::DateTimeIso(s) => s.clone(),
        Cell::DurationIso(s) => s.clone(),
        Cell::Error(name) => {
            let mut text = "#ERROR:".to_string();
            text.append(name.as_str());
            text
        },
        Cell::Empty => String::new(),
    }
}

/// A usable column, in mathematical terms.
pub struct LangColumnModel {
    pub language: Seq<char>,
    pub collection: Seq<char>,
    pub column: nat,
}

/// One usable column of the sheet: row 1 names the image collection (a top-level folder under
/// `Images/`), row 2 names the language. A column is only kept when it has both.
pub struct LangColumn {
    pub language: String,
    pub collection: String,
    /// Index of the column in the sheet, from 0.
    pub column: usize,
}

impl DeepView for LangColumn {
    type V = LangColumnModel;

    open spec fn deep_view(&self) -> LangColumnModel {
        LangColumnModel {
            language: self.language@,
            collection: self.collection@,
            column: self.column as nat,
        }
    }
}

/// A message row, in mathematical terms.
pub struct MessageModel {
    pub id: Seq<char>,
    pub cells: Seq<Seq<char>>,
}

/// One message row (rows 3 and on). `id` comes from the first column. `cells` are the localized
/// texts, one for each usable column (empty: no text for that column).
pub struct MessageRow {
    pub id: String,
    pub cells: Vec<String>,
}

impl DeepView for MessageRow {
    type V = MessageModel;

    open spec fn deep_view(&self) -> MessageModel {
        MessageModel { id: self.id@, cells: self.cells.deep_view() }
    }
}

/// The contents of the sheet, in mathematical terms.
pub struct SheetModel {
    pub columns: Seq<LangColumnModel>,
    pub messages: Seq<MessageModel>,
}

/// The contents of the sheet.
pub struct SheetData {
    pub columns: Vec<LangColumn>,
    pub messages: Vec<MessageRow>,
}

impl DeepView for SheetData {
    type V = SheetModel;

    open spec fn deep_view(&self) -> SheetModel {
        SheetModel { columns: self.columns.deep_view(), messages: self.messages.deep_view() }
    }
}

/// Entry `i` of a row of texts; empty where the row is shorter.
pub open spec fn text_at(texts: Seq<Seq<char>>, i: int) -> Seq<char> {
    if 0 <= i < texts.len() {
        texts[i]
    } else {
        Seq::empty()
    }
}

/// The texts of a row of cells.
pub open spec fn row_of(cells: Seq<CellModel>) -> Seq<Seq<char>> {
    cells.map_values(|c: CellModel| cell_text(c))
}

/// What the first two rows say of column `i`.
pub open spec fn column_at(
    collections: Seq<Seq<char>>,
    languages: Seq<Seq<char>>,
    i: int,
) -> LangColumnModel {
    LangColumnModel {
        language: text_at(languages, i),
        collection: text_at(collections, i),
        column: i as nat,
    }
}

/// A column is usable when it has both a collection and a language.
pub open spec fn is_usable(column: LangColumnModel) -> bool {
    column.collection.len() > 0 && column.language.len() > 0
}

/// The columns after the first up to, not with, column `end` of the sheet.
pub open spec fn columns_before(
    collections: Seq<Seq<char>>,
    languages: Seq<Seq<char>>,
    end: int,
) -> Seq<LangColumnModel> {
    Seq::new(
        (if end > 0 {
            end - 1
        } else {
            0
        }) as nat,
        |i: int| column_at(collections, languages, i + 1),
    )
}

/// The usable columns. The first column holds the message ids and is never one of them.
pub open spec fn usable_columns(
    collections: Seq<Seq<char>>,
    languages: Seq<Seq<char>>,
) -> Seq<LangColumnModel> {
    let width = if collections.len() >= languages.len() {
        collections.len()
    } else {
        languages.len()
    };
    columns_before(collections, languages, width as int).filter(|c: LangColumnModel| is_usable(c))
}

/// The message that a row of texts holds.
pub open spec fn message_of(texts: Seq<Seq<char>>, columns: Seq<LangColumnModel>) -> MessageModel {
    MessageModel {
        id: text_at(texts, 0),
        cells: columns.map_values(|c: LangColumnModel| text_at(texts, c.column as int)),
    }
}

/// A message is kept when it has an id and some text.
pub open spec fn is_kept(message: MessageModel) -> bool {
    &&& message.id.len() > 0
    &&& exists|k: int| 0 <= k < message.cells.len() && #[trigger] message.cells[k].len() > 0
}

/// The messages that rows of cells hold.
pub open spec fn messages_of(
    rows: Seq<Seq<CellModel>>,
    columns: Seq<LangColumnModel>,
) -> Seq<MessageModel> {
    rows.map_values(|r: Seq<CellModel>| message_of(row_of(r), columns)).filter(
        |m: MessageModel| is_kept(m),
    )
}

/// What the rows of the sheet say, or why they say nothing.
pub open spec fn sheet_of(rows: Seq<Seq<CellModel>>) -> Result<SheetModel, Seq<char>> {
    if rows.len() == 0 {
        Err("sheet is empty"@)
    } else if rows.len() == 1 {
        Err("sheet has no language row (row 2)"@)
    } else {
        let columns = usable_columns(row_of(rows[0]), row_of(rows[1]));
        if columns.len() == 0 {
            Err(
                "no usable column in the \"Batcher\" sheet: each column needs a collection (row 1) and a language (row 2)"@,
            )
        } else {
            Ok(SheetModel { columns, messages: messages_of(rows.skip(2), columns) })
        }
    }
}

/// The texts of a row of cells.
fn row_texts(cells: &Vec<Cell>) -> (texts: Vec<String>)
    ensures
        texts.deep_view() == row_of(cells.deep_view()),
{
    let mut texts: Vec<String> = Vec::new();
    let mut i: usize = 0;
    while i < cells.len()
        invariant
            i <= cells@.len(),
            texts@.len() == i,
            forall|k: int|
                0 <= k < i ==> #[trigger] texts@[k]@ == cell_text(cells@[k].deep_view()),
        decreases cells@.len() - i,
    {
        texts.push(cell_to_string(&cells[i]));
        i = i + 1;
    }
    assert(texts.deep_view() =~= row_of(cells.deep_view()));
    texts
}

/// Entry `i` of a row of texts; empty where the row is shorter.
fn text_or_empty(texts: &Vec<String>, i: usize) -> (text: String)
    ensures
        text@ == text_at(texts.deep_view(), i as int),
{
    if i < texts.len() {
        texts[i].clone()
    } else {
        String::new()
    }
}

/// The usable columns.
fn read_columns(collections: &Vec<String>, languages: &Vec<String>) -> (columns: Vec<LangColumn>)
    ensures
        columns.deep_view() == usable_columns(collections.deep_view(), languages.deep_view()),
{
    let ghost cs = collections.deep_view();
    let ghost ls = languages.deep_view();
    let ghost usable = |c: LangColumnModel| is_usable(c);
    let width: usize = if collections.len() >= languages.len() {
        collections.len()
    } else {
        languages.len()
    };
    let mut columns: Vec<LangColumn> = Vec::new();
    let mut col: usize = 1;
    proof {
        reveal(Seq::filter);
        assert(columns_before(cs, ls, 1) =~= Seq::empty());
        assert(columns_before(cs, ls, 0) =~= Seq::empty());
        assert(columns.deep_view() =~= columns_before(cs, ls, 1).filter(usable));
    }
    while col < width
        invariant
            1 <= col,
            width > 0 ==> col <= width,
            width == 0 ==> col == 1,
            cs == collections.deep_view(),
            ls == languages.deep_view(),
            usable == (|c: LangColumnModel| is_usable(c)),
            columns.deep_view() == columns_before(cs, ls, col as int).filter(usable),
        decreases width - col,
    {
        let ghost before = columns.deep_view();
        let ghost candidate = column_at(cs, ls, col as int);
        let collection = text_or_empty(collections, col);
        let language = text_or_empty(languages, col);
        proof {
            let next = columns_before(cs, ls, col + 1);
            assert(next.drop_last() =~= columns_before(cs, ls, col as int));
            assert(next.last() == candidate);
            reveal(Seq::filter);
        }
        if !collection.as_str().is_empty() && !language.as_str().is_empty() {
            columns.push(LangColumn { language, collection, column: col });
            assert(columns.deep_view() =~= before.push(candidate));
        }
        col = col + 1;
    }
    assert(columns_before(cs, ls, col as int) =~= columns_before(cs, ls, width as int));
    columns
}

/// The message that a row of texts holds.
fn read_message(texts: &Vec<String>, columns: &Vec<LangColumn>) -> (message: MessageRow)
    ensures
        message.deep_view() == message_of(texts.deep_view(), columns.deep_view()),
{
    let mut cells: Vec<String> = Vec::new();
    let mut i: usize = 0;
    while i < columns.len()
        invariant
            i <= columns@.len(),
            cells@.len() == i,
            forall|k: int|
                0 <= k < i ==> #[trigger] cells@[k]@ == text_at(
                    texts.deep_view(),
                    columns@[k].column as int,
                ),
        decreases columns@.len() - i,
    {
        cells.push(text_or_empty(texts, columns[i].column));
        i = i + 1;
    }
    let message = MessageRow { id: text_or_empty(texts, 0), cells };
    assert(message.deep_view().cells =~= message_of(
        texts.deep_view(),
        columns.deep_view(),
    ).cells);
    message
}

/// Whether a message has an id and some text.
fn has_content(message: &MessageRow) -> (kept: bool)
    ensures
        kept == is_kept(message.deep_view()),
{
    if message.id.as_str().is_empty() {
        return false;
    }
    let mut i: usize = 0;
    while i < message.cells.len()
        invariant
            i <= message.cells@.len(),
            message.id@.len() > 0,
            forall|k: int| 0 <= k < i ==> message.deep_view().cells[k].len() == 0,
        decreases message.cells@.len() - i,
    {
        if !message.cells[i].as_str().is_empty() {
            assert(message.deep_view().cells[i as int].len() > 0);
            return true;
        }
        i = i + 1;
    }
    false
}

/// What the rows of the sheet say.
pub fn read_sheet(rows: &Vec<Vec<Cell>>) -> (data: Result<SheetData, String>)
    ensures
        outcome(data) == sheet_of(rows.deep_view()),
{
    if rows.len() == 0 {
        return Err("sheet is empty".to_string());
    }
    if rows.len() == 1 {
        return Err("sheet has no language row (row 2)".to_string());
    }
    let collections = row_texts(&rows[0]);
    let languages = row_texts(&rows[1]);
    let columns = read_columns(&collections, &languages);
    if columns.len() == 0 {
        return Err(
            "no usable column in the \"Batcher\" sheet: each column needs a collection (row 1) and a language (row 2)".to_string(),
        );
    }
    let ghost cs = columns.deep_view();
    let ghost data_rows = rows.deep_view().skip(2);
    let ghost read = |r: Seq<CellModel>| message_of(row_of(r), cs);
    let ghost keep = |m: MessageModel| is_kept(m);
    let mut messages: Vec<MessageRow> = Vec::new();
    let mut i: usize = 2;
    proof {
        reveal(Seq::filter);
        assert(data_rows.take(0).map_values(read) =~= Seq::empty());
        assert(messages.deep_view() =~= messages_of(data_rows.take(0), cs));
    }
    while i < rows.len()
        invariant
            2 <= i <= rows@.len(),
            cs == columns.deep_view(),
            data_rows == rows.deep_view().skip(2),
            read == (|r: Seq<CellModel>| message_of(row_of(r), cs)),
            keep == (|m: MessageModel| is_kept(m)),
            messages.deep_view() == messages_of(data_rows.take(i - 2), cs),
        decreases rows@.len() - i,
    {
        let ghost before = messages.deep_view();
        let texts = row_texts(&rows[i]);
        let message = read_message(&texts, &columns);
        let ghost model = message.deep_view();
        proof {
            let now = data_rows.take(i - 2).map_values(read);
            let next = data_rows.take(i - 1).map_values(read);
            assert(data_rows[i - 2] == rows@[i as int].deep_view());
            assert(next.drop_last() =~= now);
            assert(next.last() == model);
            reveal(Seq::filter);
        }
        if has_content(&message) {
            messages.push(message);
            assert(messages.deep_view() =~= before.push(model));
        }
        i = i + 1;
    }
    assert(data_rows.take(i - 2) =~= data_rows);
    Ok(SheetData { columns, messages })
}

/// Whether an extension, in lower case, is one of a spreadsheet.
pub open spec fn has_sheet_extension(path: Seq<char>) -> bool {
    let ext = lower_extension(path);
    ext == "xlsx"@ || ext == "xlsm"@ || ext == "xlsb"@ || ext == "xls"@ || ext == "ods"@
}

/// Whether `path` has an extension that [`parse`] knows how to read, so that
/// discovery and parsing agree.
pub fn is_supported(path: &str) -> (supported: bool)
    ensures
        supported == has_sheet_extension(path@),
{
    proof {
        reveal_strlit("xlsx");
        reveal_strlit("xlsm");
        reveal_strlit("xlsb");
        reveal_strlit("xls");
        reveal_strlit("ods");
        assert("xlsx"@.len() == 4 && "xlsm"@.len() == 4 && "xlsb"@.len() == 4);
        assert("xls"@.len() == 3 && "ods"@.len() == 3);
    }
    match extension(path) {
        None => false,
        Some(raw) => {
            let ext = ascii_lowercase(raw.as_str());
            same_text(ext.as_str(), "xlsx") || same_text(ext.as_str(), "xlsm") || same_text(
                ext.as_str(),
                "xlsb",
            ) || same_text(ext.as_str(), "xls") || same_text(ext.as_str(), "ods")
        },
    }
}

/// Name of the sheet that holds the batch data, whatever the case of its letters.
pub const SHEET_NAME: &'static str = "Batcher";

/// Whether a sheet of that name holds the batch data.
pub open spec fn is_batch_sheet(name: Seq<char>) -> bool {
    lowered(name) == lowered(SHEET_NAME@)
}

/// The first of `names` that is the batch sheet.
pub open spec fn first_batch_sheet(names: Seq<Seq<char>>) -> Option<Seq<char>>
    decreases names.len(),
{
    if names.len() == 0 {
        None
    } else if is_batch_sheet(names[0]) {
        Some(names[0])
    } else {
        first_batch_sheet(names.drop_first())
    }
}

/// What the rows of the sheet `name`, or the failure to read them, come to.
pub open spec fn sheet_in_rows(
    name: Seq<char>,
    rows: Result<Seq<Seq<CellModel>>, Seq<char>>,
) -> Result<SheetModel, Seq<char>> {
    match rows {
        Err(e) => Err("read sheet "@ + name + ": "@ + e),
        Ok(rows) => sheet_of(rows),
    }
}

/// What the batch sheet of a workbook says.
pub open spec fn sheet_in_book(book: BookModel) -> Result<SheetModel, Seq<char>> {
    match first_batch_sheet(book.names) {
        None => Err("no \"Batcher\" sheet found in the workbook"@),
        Some(name) => sheet_in_rows(name, book.sheet),
    }
}

/// What the workbook file `path` says: `workbook` is what it gives once it is open, or why it
/// cannot be opened.
pub open spec fn parsed(path: Seq<char>, workbook: Result<BookModel, Seq<char>>) -> Result<
    SheetModel,
    Seq<char>,
> {
    if !has_sheet_extension(path) {
        Err(
            "unsupported spreadsheet format: ."@ + lower_extension(path)
                + " (expected an .xlsx with a \"Batcher\" sheet)"@,
        )
    } else {
        match workbook {
            Err(e) => Err("open workbook: "@ + e),
            Ok(book) => sheet_in_book(book),
        }
    }
}

/// The first of `names` that is the batch sheet.
pub fn find_batch_sheet(names: &Vec<String>) -> (name: Option<String>)
    ensures
        name.deep_view() == first_batch_sheet(names.deep_view()),
{
    let ghost all = names.deep_view();
    let mut i: usize = 0;
    assert(all.skip(0) =~= all);
    while i < names.len()
        invariant
            i <= names@.len(),
            all == names.deep_view(),
            first_batch_sheet(all) == first_batch_sheet(all.skip(i as int)),
        decreases names@.len() - i,
    {
        assert(all.skip(i as int)[0] == names@[i as int]@);
        if same_ignoring_ascii_case(names[i].as_str(), SHEET_NAME) {
            return Some(names[i].clone());
        }
        assert(all.skip(i as int).drop_first() =~= all.skip(i + 1));
        i = i + 1;
    }
    None
}

/// Reads the sheet `name` from its rows, or reports that they could not be read.
pub fn read_named_sheet(name: &str, rows: Result<Vec<Vec<Cell>>, String>) -> (data: Result<
    SheetData,
    String,
>)
    ensures
        outcome(data) == sheet_in_rows(name@, outcome(rows)),
{
    match rows {
        Ok(rows) => read_sheet(&rows),
        Err(e) => Err(
            "read sheet ".to_string().concat(name).concat(": ").concat(e.as_str()),
        ),
    }
}

/// Parses the batch sheet of the workbook file `path` into columns and messages; `workbook` is what
/// the file gives once it is open, or why it cannot be opened.
pub fn parse(path: &str, workbook: &Result<Workbook, String>) -> (data: Result<SheetData, String>)
    ensures
        outcome(data) == parsed(path@, outcome(*workbook)),
{
    if !is_supported(path) {
        let mut message = "unsupported spreadsheet format: .".to_string();
        let raw = extension(path);
        if let Some(ext) = &raw {
            message.append(ascii_lowercase(ext.as_str()).as_str());
        }
        message.append(" (expected an .xlsx with a \"Batcher\" sheet)");
        assert(message@ =~= "unsupported spreadsheet format: ."@ + lower_extension(path@)
            + " (expected an .xlsx with a \"Batcher\" sheet)"@);
        return Err(message);
    }
    match workbook {
        Err(e) => Err("open workbook: ".to_string().concat(e.as_str())),
        Ok(book) => parse_workbook(book),
    }
}

/// Parses the batch sheet of an open workbook.
pub fn parse_workbook(book: &Workbook) -> (data: Result<SheetData, String>)
    ensures
        outcome(data) == sheet_in_book(book.deep_view()),
{
    let name = match find_batch_sheet(&book.names) {
        Some(name) => name,
        None => {
            return Err("no \"Batcher\" sheet found in the workbook".to_string());
        },
    };
    match &book.sheet {
        Ok(grid) => read_named_sheet(name.as_str(), Ok(take_rows(grid))),
        Err(e) => read_named_sheet(name.as_str(), Err(e.clone())),
    }
}

/// Discovery and parsing agree: parsing refuses a file for its format exactly where
/// [`is_supported`] says no, whatever the file holds.
pub proof fn lemma_discovery_and_parsing_agree(
    path: Seq<char>,
    workbook: Result<BookModel, Seq<char>>,
)
    ensures
        !has_sheet_extension(path) <==> parsed(path, workbook) == Err::<SheetModel, Seq<char>>(
            "unsupported spreadsheet format: ."@ + lower_extension(path)
                + " (expected an .xlsx with a \"Batcher\" sheet)"@,
        ),
{
    reveal_strlit("unsupported spreadsheet format: .");
    reveal_strlit("open workbook: ");
    reveal_strlit("read sheet ");
    reveal_strlit("no \"Batcher\" sheet found in the workbook");
    reveal_strlit("sheet is empty");
    reveal_strlit("sheet has no language row (row 2)");
    reveal_strlit(
        "no usable column in the \"Batcher\" sheet: each column needs a collection (row 1) and a language (row 2)",
    );
    let refusal = "unsupported spreadsheet format: ."@ + lower_extension(path)
        + " (expected an .xlsx with a \"Batcher\" sheet)"@;
    assert(refusal[0] == 'u');
    if has_sheet_extension(path) {
        match parsed(path, workbook) {
            Err(e) => {
                assert(e[0] != 'u');
            },
            Ok(_) => {},
        }
    }
}

/// What parsing gives has the shape that the rest relies on: there is a column; every column has a
/// language and a collection and is not the first one of the sheet, and columns stand in sheet
/// order; every message has an id, one cell for each column, and some text.
pub proof fn lemma_sheet_shape(rows: Seq<Seq<CellModel>>, sheet: SheetModel)
    requires
        sheet_of(rows) == Ok::<SheetModel, Seq<char>>(sheet),
    ensures
        sheet.columns.len() > 0,
        forall|i: int| 0 <= i < sheet.columns.len() ==> is_usable(#[trigger] sheet.columns[i]),
        forall|i: int| 0 <= i < sheet.columns.len() ==> #[trigger] sheet.columns[i].column >= 1,
        forall|i: int, j: int|
            0 <= i < j < sheet.columns.len() ==> #[trigger] sheet.columns[i].column
                < #[trigger] sheet.columns[j].column,
        forall|m: int| 0 <= m < sheet.messages.len() ==> is_kept(#[trigger] sheet.messages[m]),
        forall|m: int|
            0 <= m < sheet.messages.len() ==> #[trigger] sheet.messages[m].cells.len()
                == sheet.columns.len(),
{
    let cs = row_of(rows[0]);
    let ls = row_of(rows[1]);
    let width = if cs.len() >= ls.len() {
        cs.len()
    } else {
        ls.len()
    };
    let usable = |c: LangColumnModel| is_usable(c);
    let keep = |m: MessageModel| is_kept(m);
    let candidates = columns_before(cs, ls, width as int);
    lemma_increasing_filter(candidates, usable);
    assert(sheet.columns == candidates.filter(usable));
    broadcast use vstd::seq_lib::group_filter_ensures;

    assert forall|i: int| 0 <= i < sheet.columns.len() implies is_usable(
        #[trigger] sheet.columns[i],
    ) by {
        assert(usable(candidates.filter(usable)[i]));
    }
    let read = |r: Seq<CellModel>| message_of(row_of(r), sheet.columns);
    let all = rows.skip(2).map_values(read);
    assert(sheet.messages == all.filter(keep));
    assert forall|m: int| 0 <= m < sheet.messages.len() implies is_kept(
        #[trigger] sheet.messages[m],
    ) by {
        assert(keep(all.filter(keep)[m]));
    }
    assert forall|m: int| 0 <= m < sheet.messages.len() implies
        #[trigger] sheet.messages[m].cells.len() == sheet.columns.len() by {
        assert(all.filter(keep).contains(all.filter(keep)[m]));
        all.lemma_filter_contains_rev(keep, all.filter(keep)[m]);
        let k = choose|k: int| 0 <= k < all.len() && all[k] == sheet.messages[m];
        assert(all[k] == read(rows.skip(2)[k]));
    }
}

proof fn lemma_increasing_filter(
    columns: Seq<LangColumnModel>,
    p: spec_fn(LangColumnModel) -> bool,
)
    requires
        forall|i: int| 0 <= i < columns.len() ==> (#[trigger] columns[i]).column == i + 1,
    ensures
        forall|i: int|
            0 <= i < columns.filter(p).len() ==> 1 <= (#[trigger] columns.filter(p)[i]).column
                <= columns.len(),
        forall|i: int, j: int|
            0 <= i < j < columns.filter(p).len() ==> (#[trigger] columns.filter(p)[i]).column < (
            #[trigger] columns.filter(p)[j]).column,
    decreases columns.len(),
{
    reveal(Seq::filter);
    if columns.len() > 0 {
        lemma_increasing_filter(columns.drop_last(), p);
        let short = columns.drop_last().filter(p);
        let long = columns.filter(p);
        assert(columns.last().column == columns.len());
        assert forall|i: int| 0 <= i < long.len() implies 1 <= (#[trigger] long[i]).column
            <= columns.len() by {
            if i < short.len() {
                assert(long[i] == short[i]);
            }
        }
        assert forall|i: int, j: int| 0 <= i < j < long.len() implies (#[trigger] long[i]).column
            < (#[trigger] long[j]).column by {
            assert(long[i] == short[i]);
            if j < short.len() {
                assert(long[j] == short[j]);
            }
        }
    }
}

/// The characters that no path component may hold on every system.
pub open spec fn is_reserved(c: char) -> bool {
    c == '/' || c == '\\' || c == ':' || c == '*' || c == '?' || c == '"' || c == '<' || c == '>'
        || c == '|' || c == '\0'
}

/// `raw` with every reserved character replaced by an underscore.
pub open spec fn unreserved(raw: Seq<char>) -> Seq<char> {
    raw.map_values(|c: char| if is_reserved(c) { '_' } else { c })
}

/// `raw` made fit to be a single path component: reserved characters become underscores, white
/// space at the ends goes, and dots at the ends of what is left go.
pub open spec fn sanitized(raw: Seq<char>) -> Seq<char> {
    undotted(trimmed(unreserved(raw)))
}

/// Makes a text fit to be a single path component (a folder name or part of a file name) on every
/// system.
pub fn sanitize_component(raw: &str) -> (out: String)
    ensures
        out@ == sanitized(raw@),
{
    let chars = chars_of(raw);
    let mut clean = String::new();
    let mut i: usize = 0;
    while i < chars.len()
        invariant
            i <= chars@.len(),
            clean@ == unreserved(chars@.take(i as int)),
        decreases chars@.len() - i,
    {
        let c = chars[i];
        let put = if c == '/' || c == '\\' || c == ':' || c == '*' || c == '?' || c == '"' || c
            == '<' || c == '>' || c == '|' || c == '\0' {
            '_'
        } else {
            c
        };
        clean.push(put);
        assert(unreserved(chars@.take(i + 1)) =~= unreserved(chars@.take(i as int)).push(put));
        i = i + 1;
    }
    assert(chars@.take(i as int) =~= chars@);
    trim_dots(trim(clean.as_str()).as_str())
}

/// A sanitized text names no other folder: it holds no reserved character, so no separator, and has
/// no dot at either end, so it is neither `.` nor `..`. It is one path component, or empty.
pub proof fn lemma_sanitized_is_component(raw: Seq<char>)
    ensures
        forall|i: int| 0 <= i < sanitized(raw).len() ==> !is_reserved(#[trigger] sanitized(raw)[i]),
        sanitized(raw).len() > 0 ==> sanitized(raw)[0] != '.' && sanitized(raw).last() != '.',
        sanitized(raw).len() > 0 ==> components(sanitized(raw)) == seq![sanitized(raw)],
        sanitized(raw).len() > 0 ==> file_name_of(sanitized(raw)) == Some(sanitized(raw)),
{
    let u = unreserved(raw);
    let t = trimmed(u);
    let s = sanitized(raw);
    lemma_strip_ends(u, |c: char| is_white_space(c));
    lemma_strip_ends(t, |c: char| c == '.');
    assert forall|i: int| 0 <= i < s.len() implies !is_reserved(#[trigger] s[i]) by {
        assert(t.contains(s[i]));
        let k = choose|k: int| 0 <= k < t.len() && t[k] == s[i];
        assert(u.contains(t[k]));
        let m = choose|m: int| 0 <= m < u.len() && u[m] == t[k];
        assert(u[m] == if is_reserved(raw[m]) {
            '_'
        } else {
            raw[m]
        });
    }
    if s.len() > 0 {
        let p = |c: char| c == '/';
        let keep = |part: Seq<char>| part.len() > 0 && part != seq!['.'];
        lemma_single_piece(s, p);
        assert(seq!['.'][0] == '.');
        assert(seq!['.', '.'][0] == '.');
        assert(keep(s));
        reveal(Seq::filter);
        assert(seq![s].drop_last() =~= Seq::empty());
        assert(seq![s].drop_last().filter(keep) =~= Seq::empty());
        assert(seq![s].last() == s);
        assert(components(s) =~= seq![s]);
    }
}

/// Sanitizing a second time changes nothing, unless taking the dots away left white space at an
/// end.
pub proof fn lemma_sanitized_twice(raw: Seq<char>)
    requires
        sanitized(raw).len() > 0 ==> !is_white_space(sanitized(raw)[0]) && !is_white_space(
            sanitized(raw).last(),
        ),
    ensures
        sanitized(sanitized(raw)) == sanitized(raw),
{
    let s = sanitized(raw);
    lemma_sanitized_is_component(raw);
    assert(unreserved(s) =~= s);
}

} // verus!
