//! Workbook files: opening them, and reading the sheet that drives a batch.
use batcher::batch::preview;
use batcher::listing::{FsEntry, FsNode};
use batcher::pipeline::scan_workspace;
use batcher::spreadsheet::{
    cell_to_string, find_batch_sheet, is_supported, parse, parse_workbook, read_named_sheet,
    read_sheet, sanitize_component, Cell, SheetData,
};
use batcher::workbook::Workbook;
use calamine::{open_workbook_auto_from_rs, Data, Range, Reader};
use std::io::Cursor;

fn crc32(bytes: &[u8]) -> u32 {
    let mut crc = 0xffff_ffffu32;
    for byte in bytes {
        crc ^= *byte as u32;
        for _ in 0..8 {
            let low = crc & 1;
            crc >>= 1;
            if low == 1 {
                crc ^= 0xedb8_8320;
            }
        }
    }
    !crc
}

fn put16(out: &mut Vec<u8>, n: u16) {
    out.extend_from_slice(&n.to_le_bytes());
}

fn put32(out: &mut Vec<u8>, n: u32) {
    out.extend_from_slice(&n.to_le_bytes());
}

fn zip(files: &[(&str, &str)]) -> Vec<u8> {
    let mut out = Vec::new();
    let mut directory = Vec::new();
    for (name, text) in files {
        let offset = out.len() as u32;
        let crc = crc32(text.as_bytes());
        let size = text.len() as u32;
        put32(&mut out, 0x0403_4b50);
        for n in [20, 0, 0, 0, 0x21] {
            put16(&mut out, n);
        }
        for n in [crc, size, size] {
            put32(&mut out, n);
        }
        put16(&mut out, name.len() as u16);
        put16(&mut out, 0);
        out.extend_from_slice(name.as_bytes());
        out.extend_from_slice(text.as_bytes());
        put32(&mut directory, 0x0201_4b50);
        for n in [20, 20, 0, 0, 0, 0x21] {
            put16(&mut directory, n);
        }
        for n in [crc, size, size] {
            put32(&mut directory, n);
        }
        for n in [name.len() as u16, 0, 0, 0, 0] {
            put16(&mut directory, n);
        }
        put32(&mut directory, 0);
        put32(&mut directory, offset);
        directory.extend_from_slice(name.as_bytes());
    }
    let start = out.len() as u32;
    let size = directory.len() as u32;
    out.extend_from_slice(&directory);
    put32(&mut out, 0x0605_4b50);
    for n in [0, 0, files.len() as u16, files.len() as u16] {
        put16(&mut out, n);
    }
    put32(&mut out, size);
    put32(&mut out, start);
    put16(&mut out, 0);
    out
}

fn text_cell(at: &str, text: &str) -> String {
    format!("<c r=\"{at}\" t=\"inlineStr\"><is><t>{text}</t></is></c>")
}

fn number_cell(at: &str, number: &str) -> String {
    format!("<c r=\"{at}\"><v>{number}</v></c>")
}

fn workbook(sheet_name: &str, rows: &[String]) -> Vec<u8> {
    let types = "<?xml version=\"1.0\" encoding=\"UTF-8\"?><Types xmlns=\"http://schemas.openxmlformats.org/package/2006/content-types\"><Default Extension=\"rels\" ContentType=\"application/vnd.openxmlformats-package.relationships+xml\"/><Default Extension=\"xml\" ContentType=\"application/xml\"/><Override PartName=\"/xl/workbook.xml\" ContentType=\"application/vnd.openxmlformats-officedocument.spreadsheetml.sheet.main+xml\"/><Override PartName=\"/xl/worksheets/sheet1.xml\" ContentType=\"application/vnd.openxmlformats-officedocument.spreadsheetml.worksheet+xml\"/></Types>";
    let rels = "<?xml version=\"1.0\" encoding=\"UTF-8\"?><Relationships xmlns=\"http://schemas.openxmlformats.org/package/2006/relationships\"><Relationship Id=\"rId1\" Type=\"http://schemas.openxmlformats.org/officeDocument/2006/relationships/officeDocument\" Target=\"xl/workbook.xml\"/></Relationships>";
    let book = format!("<?xml version=\"1.0\" encoding=\"UTF-8\"?><workbook xmlns=\"http://schemas.openxmlformats.org/spreadsheetml/2006/main\" xmlns:r=\"http://schemas.openxmlformats.org/officeDocument/2006/relationships\"><sheets><sheet name=\"{sheet_name}\" sheetId=\"1\" r:id=\"rId1\"/></sheets></workbook>");
    let book_rels = "<?xml version=\"1.0\" encoding=\"UTF-8\"?><Relationships xmlns=\"http://schemas.openxmlformats.org/package/2006/relationships\"><Relationship Id=\"rId1\" Type=\"http://schemas.openxmlformats.org/officeDocument/2006/relationships/worksheet\" Target=\"worksheets/sheet1.xml\"/></Relationships>";
    let mut sheet = String::from("<?xml version=\"1.0\" encoding=\"UTF-8\"?><worksheet xmlns=\"http://schemas.openxmlformats.org/spreadsheetml/2006/main\"><sheetData>");
    for (i, row) in rows.iter().enumerate() {
        sheet.push_str(&format!("<row r=\"{}\">{}</row>", i + 1, row));
    }
    sheet.push_str("</sheetData></worksheet>");
    zip(&[
        ("[Content_Types].xml", types),
        ("_rels/.rels", rels),
        ("xl/workbook.xml", &book),
        ("xl/_rels/workbook.xml.rels", book_rels),
        ("xl/worksheets/sheet1.xml", &sheet),
    ])
}

fn opened(bytes: Vec<u8>) -> Result<Workbook, String> {
    let mut book = open_workbook_auto_from_rs(Cursor::new(bytes)).map_err(|e| e.to_string())?;
    let names = book.sheet_names();
    let sheet = match find_batch_sheet(&names) {
        Some(name) => book.worksheet_range(&name).map_err(|e| e.to_string()),
        None => Err(String::new()),
    };
    Ok(Workbook { names, sheet })
}

fn batcher_rows() -> Vec<String> {
    vec![
        format!("{}{}{}", text_cell("A1", "Id"), text_cell("B1", "Base"), text_cell("C1", "African")),
        format!("{}{}{}", text_cell("A2", ""), text_cell("B2", "English"), text_cell("C2", "French")),
        format!(
            "{}{}{}",
            number_cell("A3", "1.0"),
            text_cell("B3", " Reinvent your workspace "),
            text_cell("C3", "Réinventez votre espace de travail")
        ),
        format!("{}{}", number_cell("A4", "2.5"), text_cell("B4", "Only English")),
        text_cell("A5", "no text"),
        text_cell("B6", "no id"),
    ]
}

fn text(s: &str) -> Cell {
    Cell::Text(s.to_string())
}

fn expect_error(result: Result<SheetData, String>) -> String {
    match result {
        Ok(_) => panic!("expected an error"),
        Err(e) => e,
    }
}

#[test]
fn parses_batcher_sheet() {
    let book = opened(workbook("Batcher", &batcher_rows()));
    let data = match parse("../Input/Batcher.xlsx", &book) {
        Ok(data) => data,
        Err(e) => panic!("parse Batcher sheet: {e}"),
    };
    // English→Base and French→African are the two filled columns.
    assert!(
        data.columns
            .iter()
            .any(|c| c.language == "English" && c.collection.eq_ignore_ascii_case("Base")),
        "missing English/Base column, got {:?}",
        data.columns.iter().map(|c| (&c.language, &c.collection)).collect::<Vec<_>>()
    );
    assert!(data.columns.iter().any(|c| c.language == "French"));
    assert!(!data.messages.is_empty(), "no messages parsed");
    // Message ids should be normalized integers (1.0 → "1").
    assert_eq!(data.messages[0].id, "1");
    // Each message has one cell per column.
    assert_eq!(data.messages[0].cells.len(), data.columns.len());
}

fn node(name: &str, entry: FsEntry) -> FsNode {
    FsNode { name: name.to_string(), raw: name.as_bytes().to_vec(), exact: true, entry }
}

#[test]
fn scans_collections_and_images() {
    let listing = Some(vec![
        node("Images", FsEntry::Dir(vec![])),
        node("~$Batcher.xlsx", FsEntry::File),
        node("Batcher.xlsx", FsEntry::File),
    ]);
    let book = opened(workbook("Batcher", &batcher_rows()));
    let nested = node("9x16 v2", FsEntry::Dir(vec![node("14.png", FsEntry::File)]));
    let images = Some(vec![
        node("African", FsEntry::Dir(vec![node("1.png", FsEntry::File)])),
        node("base", FsEntry::Dir(vec![node("2.jpg", FsEntry::File), nested])),
    ]);
    let ws = match scan_workspace("../Input", &listing, &book, &images) {
        Ok(ws) => ws,
        Err(e) => panic!("scan: {e}"),
    };
    let base = ws
        .collections
        .iter()
        .find(|c| c.name.eq_ignore_ascii_case("Base"))
        .expect("Base collection");
    assert!(!base.images.is_empty(), "Base has no images");
    // Subfolder grouping is populated for nested images.
    assert!(base.images.iter().any(|i| !i.subfolder.is_empty()));
    // Preview counter is non-zero and consistent.
    let pv = match preview("../Input", &listing, &book, &images) {
        Ok(pv) => pv.expect("preview"),
        Err(e) => panic!("preview: {e}"),
    };
    assert!(pv.total_outputs > 0);
    // Two English texts on two images, one French text on one image, in two formats each.
    assert_eq!((pv.rows, pv.images, pv.total_outputs), (2, 3, 10));
    assert_eq!(ws.output_root, "../Input/Output");
}

#[test]
fn keeps_rows_with_an_id_and_some_text() {
    let book = opened(workbook("bATCHER", &batcher_rows()));
    let data = parse("/work/Sheet.XLSX", &book).unwrap_or_else(|e| panic!("{e}"));
    assert_eq!(data.columns.len(), 2);
    assert_eq!(data.columns[0].column, 1);
    assert_eq!(data.columns[1].column, 2);
    assert_eq!(data.columns[1].collection, "African");
    assert_eq!(data.messages.len(), 2);
    assert_eq!(data.messages[0].cells[0], "Reinvent your workspace");
    assert_eq!(data.messages[0].cells[1], "Réinventez votre espace de travail");
    assert_eq!(data.messages[1].id, "2.5");
    assert_eq!(data.messages[1].cells, vec!["Only English".to_string(), String::new()]);
}

#[test]
fn unreadable_bytes_are_refused() {
    let e = expect_error(parse("a.xlsx", &opened(b"not a workbook".to_vec())));
    assert_eq!(e, "open workbook: Cannot detect file format");
}

#[test]
fn grids_are_read_row_by_row() {
    let mut grid: Range<Data> = Range::new((4, 2), (7, 3));
    grid.set_value((4, 3), Data::String("Base".to_string()));
    grid.set_value((5, 3), Data::String(" English ".to_string()));
    grid.set_value((6, 2), Data::Int(-3));
    grid.set_value((6, 3), Data::Float(0.25));
    grid.set_value((7, 2), Data::DurationIso("PT1H".to_string()));
    grid.set_value((7, 3), Data::DateTimeIso("2021-01-01".to_string()));
    let names = vec!["Other".to_string(), "BATCHER".to_string()];
    let book = Workbook { names: names.clone(), sheet: Ok(grid) };
    let data = parse_workbook(&book).unwrap_or_else(|e| panic!("{e}"));
    assert_eq!(data.columns.len(), 1);
    assert_eq!((data.columns[0].language.as_str(), data.columns[0].column), ("English", 1));
    assert_eq!((data.messages[0].id.as_str(), data.messages[0].cells[0].as_str()), ("-3", "0.25"));
    assert_eq!((data.messages[1].id.as_str(), data.messages[1].cells[0].as_str()), ("PT1H", "2021-01-01"));
    let torn = Workbook { names, sheet: Err("torn".to_string()) };
    assert_eq!(expect_error(parse_workbook(&torn)), "read sheet BATCHER: torn");
    let empty = Workbook { names: vec!["Batcher".to_string()], sheet: Ok(Range::empty()) };
    assert_eq!(expect_error(parse("a.ods", &Ok(empty))), "sheet is empty");
}

#[test]
fn cells_of_every_type_are_taken_over() {
    let rows = vec![
        format!("{}{}", text_cell("A1", "Id"), text_cell("B1", "Base")),
        format!("{}{}", text_cell("A2", ""), text_cell("B2", "English")),
        format!("{}<c r=\"B3\" t=\"b\"><v>1</v></c>", number_cell("A3", "1e3")),
        format!("{}<c r=\"B4\" t=\"e\"><v>#DIV/0!</v></c>", number_cell("A4", "-0.5")),
        format!("{}<c r=\"B5\" t=\"str\"><f>1</f><v> x </v></c>", text_cell("A5", "last")),
        format!("{}<c r=\"B6\" t=\"d\"><v>2021-01-01</v></c>", text_cell("A6", "day")),
    ];
    let data = parse("a.xlsx", &opened(workbook("Batcher", &rows))).unwrap_or_else(|e| panic!("{e}"));
    let read: Vec<(&str, &str)> =
        data.messages.iter().map(|m| (m.id.as_str(), m.cells[0].as_str())).collect();
    assert_eq!(
        read,
        [("1000", "true"), ("-0.5", "#ERROR:Div0"), ("last", "x"), ("day", "2021-01-01")]
    );
}

#[test]
fn open_document_sheets_are_read() {
    let content = "<?xml version=\"1.0\" encoding=\"UTF-8\"?><office:document-content xmlns:office=\"urn:oasis:names:tc:opendocument:xmlns:office:1.0\" xmlns:table=\"urn:oasis:names:tc:opendocument:xmlns:table:1.0\" xmlns:text=\"urn:oasis:names:tc:opendocument:xmlns:text:1.0\"><office:body><office:spreadsheet><table:table table:name=\"Batcher\"><table:table-row><table:table-cell office:value-type=\"string\"><text:p>Id</text:p></table:table-cell><table:table-cell office:value-type=\"string\"><text:p>Base</text:p></table:table-cell></table:table-row><table:table-row><table:table-cell office:value-type=\"string\"><text:p>-</text:p></table:table-cell><table:table-cell office:value-type=\"string\"><text:p>English</text:p></table:table-cell></table:table-row><table:table-row><table:table-cell office:value-type=\"float\" office:value=\"3\"><text:p>3</text:p></table:table-cell><table:table-cell office:value-type=\"string\"><text:p>Hello</text:p></table:table-cell></table:table-row></table:table></office:spreadsheet></office:body></office:document-content>";
    let manifest = "<?xml version=\"1.0\" encoding=\"UTF-8\"?><manifest:manifest xmlns:manifest=\"urn:oasis:names:tc:opendocument:xmlns:manifest:1.0\"></manifest:manifest>";
    let bytes = zip(&[
        ("mimetype", "application/vnd.oasis.opendocument.spreadsheet"),
        ("META-INF/manifest.xml", manifest),
        ("content.xml", content),
    ]);
    for path in ["a.ods", "a.ODS"] {
        let data = parse(path, &opened(bytes.clone())).unwrap_or_else(|e| panic!("{path}: {e}"));
        assert_eq!(data.columns[0].language, "English");
        assert_eq!(data.messages[0].id, "3");
        assert_eq!(data.messages[0].cells, ["Hello"]);
    }
}

#[test]
fn unreadable_file_is_reported() {
    let book = Err("No such file".to_string());
    let e = expect_error(parse("a.xlsx", &book));
    assert_eq!(e, "open workbook: No such file");
}

#[test]
fn other_extensions_are_refused() {
    let book = opened(workbook("Batcher", &batcher_rows()));
    assert_eq!(
        expect_error(parse("notes.CSV", &book)),
        "unsupported spreadsheet format: .csv (expected an .xlsx with a \"Batcher\" sheet)"
    );
    assert_eq!(
        expect_error(parse("notes", &book)),
        "unsupported spreadsheet format: . (expected an .xlsx with a \"Batcher\" sheet)"
    );
}

#[test]
fn workbook_without_the_sheet_is_refused() {
    let book = opened(workbook("Sheet1", &batcher_rows()));
    assert_eq!(
        expect_error(parse("a.xlsx", &book)),
        "no \"Batcher\" sheet found in the workbook"
    );
}

#[test]
fn empty_sheets_are_refused() {
    let book = opened(workbook("Batcher", &[]));
    assert_eq!(expect_error(parse("a.xlsx", &book)), "sheet is empty");
    assert_eq!(expect_error(read_sheet(&vec![])), "sheet is empty");
    assert_eq!(
        expect_error(read_sheet(&vec![vec![text("Id"), text("Base")]])),
        "sheet has no language row (row 2)"
    );
    assert_eq!(
        expect_error(read_sheet(&vec![
            vec![text("Base"), text("Base"), text(" ")],
            vec![text("English"), Cell::Empty, text("French")],
        ])),
        "no usable column in the \"Batcher\" sheet: each column needs a collection (row 1) and a language (row 2)"
    );
}

#[test]
fn finds_the_sheet_whatever_the_case_of_its_name() {
    let names: Vec<String> = ["Data", "BATCHER", "Batcher"].iter().map(|s| s.to_string()).collect();
    assert_eq!(find_batch_sheet(&names), Some("BATCHER".to_string()));
    assert_eq!(find_batch_sheet(&vec!["Batchers".to_string()]), None);
}

#[test]
fn unreadable_sheets_are_reported_by_name() {
    let failed = Err("torn".to_string());
    assert_eq!(expect_error(read_named_sheet("BATCHER", failed)), "read sheet BATCHER: torn");
    assert_eq!(expect_error(read_named_sheet("BATCHER", Ok(vec![]))), "sheet is empty");
}

#[test]
fn rows_of_unequal_length_are_read() {
    let data = read_sheet(&vec![
        vec![text("Id"), text("Base"), text("African"), text("Base")],
        vec![Cell::Empty, text("English"), Cell::Empty, text("German")],
        vec![Cell::Int(7), Cell::Empty, text("ignored"), text("Hallo")],
        vec![Cell::Int(8), text("Hello")],
        vec![],
    ])
    .unwrap_or_else(|e| panic!("{e}"));
    assert_eq!(data.columns.iter().map(|c| c.column).collect::<Vec<_>>(), vec![1, 3]);
    assert_eq!(data.messages.len(), 2);
    assert_eq!(data.messages[0].cells, vec![String::new(), "Hallo".to_string()]);
    assert_eq!(data.messages[1].cells, vec!["Hello".to_string(), String::new()]);
}

#[test]
fn cells_become_text() {
    assert_eq!(cell_to_string(&text(" \t padded\u{a0}")), "padded");
    assert_eq!(cell_to_string(&Cell::Int(-42)), "-42");
    assert_eq!(cell_to_string(&Cell::Int(i64::MIN)), i64::MIN.to_string());
    assert_eq!(cell_to_string(&Cell::Bool(true)), "true");
    assert_eq!(cell_to_string(&Cell::Bool(false)), "false");
    assert_eq!(cell_to_string(&Cell::DateTime("44197".to_string())), "44197");
    assert_eq!(cell_to_string(&Cell::DateTimeIso(" 2021-01-01".to_string())), " 2021-01-01");
    assert_eq!(cell_to_string(&Cell::DurationIso("PT1H".to_string())), "PT1H");
    assert_eq!(cell_to_string(&Cell::Error("Div0".to_string())), "#ERROR:Div0");
    assert_eq!(cell_to_string(&Cell::Empty), "");
}

#[test]
fn numbers_are_written_as_the_standard_formats_write_them() {
    let numbers = [
        0.0,
        -0.0,
        1.0,
        -1.0,
        2.5,
        -2.5,
        0.1,
        1e-310,
        5e-324,
        123456789.0,
        999999999999999.0,
        1e15,
        -1e15,
        1e300,
        4503599627370495.5,
        4503599627370497.0,
        f64::MAX,
        f64::MIN_POSITIVE,
        f64::INFINITY,
        f64::NEG_INFINITY,
        f64::NAN,
        999999999999999.9,
        0.5,
        1023.0,
        1024.0,
    ];
    for f in numbers {
        let expected = if f.fract() == 0.0 && f.is_finite() && f.abs() < 1e15 {
            format!("{f:.0}")
        } else {
            format!("{f}")
        };
        let cell = Cell::Float { bits: f.to_bits(), shown: format!("{f}") };
        assert_eq!(cell_to_string(&cell), expected, "{f:e}");
    }
}

#[test]
fn supported_extensions() {
    for name in ["a.xlsx", "a.XLSM", "dir.x/b.xlsb", "a.b.xls", "/x/y.Ods"] {
        assert!(is_supported(name), "{name}");
    }
    for name in ["a.csv", "xlsx", ".xlsx", "a.xlsx/", "a.xlsx/..", "a.xlsx.", "a"] {
        let expected = std::path::Path::new(name)
            .extension()
            .and_then(|e| e.to_str())
            .map(|e| matches!(e, "xlsx" | "xlsm" | "xlsb" | "xls" | "ods"))
            .unwrap_or(false);
        assert_eq!(is_supported(name), expected, "{name}");
    }
    assert!(!is_supported(".xlsx"));
    assert!(is_supported("a.xlsx/"));
}

#[test]
fn sanitized_texts_are_single_components() {
    assert_eq!(sanitize_component("a/b\\c:d*e?f\"g<h>i|j\0k"), "a_b_c_d_e_f_g_h_i_j_k");
    assert_eq!(sanitize_component("  ..English..  "), "English");
    assert_eq!(sanitize_component(".. "), "");
    assert_eq!(sanitize_component("../../etc"), "_.._etc");
    assert_eq!(sanitize_component("pt-BR"), "pt-BR");
    assert_eq!(sanitize_component(&sanitize_component(" .x. ")), "x");
    // Taking the dots away may leave white space, which a second round takes.
    assert_eq!(sanitize_component(". x"), " x");
    assert_eq!(sanitize_component(" x"), "x");
}
