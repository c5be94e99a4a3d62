//! From a working folder to the files of a batch.
use batcher::batch::{
    active_formats, count_batch, output_file_name, plan_batch, preview, texts_for_column, Batch, Job,
    Plan, TemplateMap,
};
use batcher::compositor::{Anchor, Format, LayoutSpec};
use batcher::listing::{
    find_spreadsheet, find_spreadsheet_entry, image_info, resolve_collection_dir, sort_found, walk_images, Found, FsEntry,
    FsNode,
};
use batcher::pipeline::{build_workspace, output_root, scan_workspace, Workspace};
use batcher::progress::Tally;
use batcher::report::skipped;
use batcher::spreadsheet::{LangColumn, MessageRow, SheetData};

fn node(name: &str, entry: FsEntry) -> FsNode {
    FsNode { name: name.to_string(), raw: name.as_bytes().to_vec(), exact: true, entry }
}

/// An entry whose name is not valid Unicode.
fn blurred(name: &str, raw: &[u8], entry: FsEntry) -> FsNode {
    FsNode { name: name.to_string(), raw: raw.to_vec(), exact: false, entry }
}

fn found(rel: &str) -> Found {
    Found { rel: rel.chars().collect(), raw: rel.as_bytes().to_vec(), exact: true }
}

fn file(name: &str) -> FsNode {
    node(name, FsEntry::File)
}

fn dir(name: &str, children: Vec<FsNode>) -> FsNode {
    node(name, FsEntry::Dir(children))
}

fn other(name: &str) -> FsNode {
    node(name, FsEntry::Other)
}

fn column(language: &str, collection: &str, column: usize) -> LangColumn {
    LangColumn { language: language.to_string(), collection: collection.to_string(), column }
}

fn message(id: &str, cells: &[&str]) -> MessageRow {
    MessageRow { id: id.to_string(), cells: cells.iter().map(|c| c.to_string()).collect() }
}

fn sheet() -> SheetData {
    SheetData {
        columns: vec![
            column("English", "Base", 1),
            column("French", "African", 2),
            column("German", "Base", 3),
        ],
        messages: vec![
            message("1", &["Hello", "Bonjour", ""]),
            message("2/b", &["Bye", "", "Tschüss"]),
        ],
    }
}

fn images() -> Vec<FsNode> {
    vec![
        dir("african", vec![file("z.png")]),
        dir("BASE", vec![
            file("b.jpg"),
            dir("9x16 v2", vec![file("14.png"), file("notes.txt"), dir("deep", vec![file("x.JPEG")])]),
            file("a.jpg"),
            other("pipe.png"),
        ]),
        file("Base"),
    ]
}

fn workspace() -> Workspace {
    build_workspace("/work", sheet(), &Some(images()))
}

fn plan() -> Plan {
    Plan {
        default_template: LayoutSpec::Template1,
        templates_by_image: TemplateMap::new(),
        only_selected: false,
        selected: vec![],
        formats: vec![],
    }
}

fn run(batch: Option<Batch>) -> (Vec<Job>, Vec<String>, usize) {
    match batch {
        Some(Batch::Run { jobs, out_dirs, total }) => (jobs, out_dirs, total),
        _ => panic!("nothing to run"),
    }
}

fn paths(jobs: &[Job]) -> Vec<String> {
    jobs.iter()
        .flat_map(|j| &j.renders)
        .flat_map(|r| &r.outputs)
        .map(|o| o.path.clone())
        .collect()
}

#[test]
fn workspace_has_one_collection_for_each_name() {
    let ws = workspace();
    assert_eq!(ws.output_root, "/work/Output");
    assert_eq!(ws.warnings, Vec::<String>::new());
    let names: Vec<&str> = ws.collections.iter().map(|c| c.name.as_str()).collect();
    assert_eq!(names, ["Base", "African"]);
    assert_eq!(ws.collections[0].folder, "/work/Images/BASE");
    let rels: Vec<&str> = ws.collections[0].images.iter().map(|i| i.rel.as_str()).collect();
    assert_eq!(rels, ["9x16 v2/14.png", "9x16 v2/deep/x.JPEG", "a.jpg", "b.jpg"]);
    let deep = &ws.collections[0].images[1];
    assert_eq!(deep.path, "/work/Images/BASE/9x16 v2/deep/x.JPEG");
    assert_eq!(deep.subfolder, "9x16 v2/deep");
    assert_eq!((deep.stem.as_str(), deep.ext.as_str()), ("x", "JPEG"));
    assert_eq!(ws.collections[0].images[2].subfolder, "");
}

#[test]
fn collections_without_images_are_warned_of() {
    let nodes = vec![dir("Base", vec![file("readme.txt")])];
    let ws = build_workspace("w", sheet(), &Some(nodes));
    assert_eq!(
        ws.warnings,
        [
            "Collection \"Base\" has no images under Images/.",
            "Collection \"African\" not found under Images/."
        ]
    );
    assert_eq!(ws.collections[0].folder, "w/Images/Base");
    assert_eq!(ws.collections[1].folder, "");
    let ws = build_workspace("w", sheet(), &None);
    assert_eq!(ws.warnings.len(), 2);
}

#[test]
fn listing_order_does_not_matter() {
    let ws = workspace();
    let mut shuffled = images();
    shuffled.reverse();
    for node in &mut shuffled {
        if let FsEntry::Dir(children) = &mut node.entry {
            children.reverse();
        }
    }
    let other = build_workspace("/work", sheet(), &Some(shuffled));
    for (a, b) in ws.collections.iter().zip(&other.collections) {
        assert_eq!(a.folder, b.folder);
        assert_eq!(
            a.images.iter().map(|i| &i.path).collect::<Vec<_>>(),
            b.images.iter().map(|i| &i.path).collect::<Vec<_>>()
        );
    }
}

#[test]
fn images_are_sorted_as_paths_are() {
    let rels = ["a/b", "a.b", "a-b", "a", "b/a", "a/b.c", "a/b/c", "ab", "é", "z", "A"];
    let all: Vec<Found> = rels.iter().map(|r| found(r)).collect();
    let sorted: Vec<String> = sort_found(all).iter().map(|f| f.rel.iter().collect()).collect();
    let mut expected: Vec<std::path::PathBuf> = rels.iter().map(std::path::PathBuf::from).collect();
    expected.sort();
    assert_eq!(sorted, expected.iter().map(|p| p.to_string_lossy().to_string()).collect::<Vec<_>>());
}

#[test]
fn walks_through_folders_and_takes_pictures_only() {
    let mut found = vec![];
    walk_images(&images(), &mut found);
    let rels: Vec<String> = found.iter().map(|f| f.rel.iter().collect()).collect();
    assert_eq!(
        rels,
        [
            "BASE/9x16 v2/14.png",
            "BASE/9x16 v2/deep/x.JPEG",
            "BASE/a.jpg",
            "BASE/b.jpg",
            "african/z.png"
        ]
    );
}

#[test]
fn walking_sorts_and_leaves_what_was_there() {
    let mut all = vec![found("z")];
    walk_images(&vec![file("b.png"), file("a.png")], &mut all);
    let rels: Vec<String> = all.iter().map(|f| f.rel.iter().collect()).collect();
    assert_eq!(rels, ["z", "a.png", "b.png"]);
    // Names are ordered by their bytes, not by what stands for them in text.
    let nodes = vec![
        blurred("\u{fffd}.png", b"\xff.png", FsEntry::File),
        file("\u{ffff}.png"),
        blurred("\u{fffd}.png", b"\x80.png", FsEntry::File),
    ];
    let mut all = vec![];
    walk_images(&nodes, &mut all);
    let raws: Vec<u8> = all.iter().map(|f| f.raw[0]).collect();
    assert_eq!(raws, [0x80, 0xef, 0xff]);
}

#[test]
fn image_infos_are_relative_to_the_collection() {
    let info = |rel: &str, exact: bool| {
        image_info(&Found { exact, ..found(rel) }, "/c")
    };
    let i = info("odd\\name/.hidden.png", true);
    assert_eq!(i.path, "/c/odd\\name/.hidden.png");
    assert_eq!((i.rel.as_str(), i.subfolder.as_str()), ("odd/name/.hidden.png", "odd/name"));
    assert_eq!((i.stem.as_str(), i.ext.as_str()), (".hidden", "png"));
    let i = info("a\u{fffd}.png", false);
    assert_eq!((i.stem.as_str(), i.ext.as_str(), i.subfolder.as_str()), ("image", "png", ""));
    let i = info("noext", true);
    assert_eq!((i.stem.as_str(), i.ext.as_str()), ("noext", "jpg"));
}

#[test]
fn finds_the_first_spreadsheet() {
    let nodes = vec![
        dir("A.xlsx", vec![]),
        file("~$Batcher.xlsx"),
        file("b.ods"),
        file("a.txt"),
        file("Batcher.XLSX"),
        other("0.xlsx"),
    ];
    assert_eq!(find_spreadsheet(&nodes), Some("Batcher.XLSX".to_string()));
    assert_eq!(find_spreadsheet_entry(&nodes), Some(4));
    assert_eq!(find_spreadsheet_entry(&vec![]), None);
    assert_eq!(find_spreadsheet(&vec![file("~$x.xlsx"), file("x.csv")]), None);
    assert_eq!(find_spreadsheet(&vec![]), None);
    // Of a name that is not exact, nothing can be said of its start.
    let lock = blurred("~$\u{fffd}.xlsx", b"~$\xff.xlsx", FsEntry::File);
    assert_eq!(find_spreadsheet(&vec![lock]), Some("~$\u{fffd}.xlsx".to_string()));
}

#[test]
fn collection_folders_are_found_whatever_their_case() {
    let nodes = images();
    assert_eq!(resolve_collection_dir(&nodes, "base").map(|n| n.name.as_str()), Some("BASE"));
    assert!(resolve_collection_dir(&nodes, "Ba se").is_none());
    let twice = vec![dir("base", vec![]), dir("Base", vec![])];
    assert_eq!(resolve_collection_dir(&twice, "BASE").map(|n| n.name.as_str()), Some("base"));
    let unclear = vec![blurred("base", b"base", FsEntry::Dir(vec![]))];
    assert!(resolve_collection_dir(&unclear, "base").is_none());
}

#[test]
fn folders_without_a_sheet_are_refused() {
    let book = Err("unread".to_string());
    for listing in [None, Some(vec![file("a.txt")])] {
        match scan_workspace("/work", &listing, &book, &None) {
            Ok(_) => panic!("a workspace"),
            Err(e) => assert_eq!(e, "No spreadsheet (.xlsx) found in the working folder."),
        }
        match preview("/work", &listing, &book, &None) {
            Ok(_) => panic!("a preview"),
            Err(e) => assert_eq!(e, "No spreadsheet (.xlsx) found in the working folder."),
        }
    }
    let listing = Some(vec![file("a.xlsx")]);
    match scan_workspace("/work", &listing, &book, &None) {
        Ok(_) => panic!("a workspace"),
        Err(e) => assert_eq!(e, "open workbook: unread"),
    }
}

#[test]
fn output_roots() {
    assert_eq!(output_root("/work"), "/work/Output");
    assert_eq!(output_root("/work/"), "/work/Output");
    assert_eq!(output_root(""), "Output");
}

#[test]
fn preview_counts_what_a_full_batch_writes() {
    let ws = workspace();
    let counted = count_batch(&ws).expect("a count");
    // English: 4 images, 2 texts; French: 1 image, 1 text; German: 4 images, 1 text; 2 formats.
    assert_eq!(counted.total_outputs, (4 * 2 + 1 + 4) * 2);
    assert_eq!((counted.rows, counted.images), (2, 5));
    let (jobs, _, total) = run(plan_batch(&ws, "/work", &plan()));
    assert_eq!(total, counted.total_outputs);
    assert_eq!(paths(&jobs).len(), total);
    assert_eq!(texts_for_column(&ws.messages, 0), 2);
    assert_eq!(texts_for_column(&ws.messages, 1), 1);
    assert_eq!(texts_for_column(&ws.messages, 9), 0);
}

#[test]
fn batch_writes_to_language_and_subfolder() {
    let ws = workspace();
    let (jobs, out_dirs, _) = run(plan_batch(&ws, "/work", &plan()));
    assert_eq!(jobs.len(), 9);
    assert_eq!(jobs[0].image, "/work/Images/BASE/9x16 v2/14.png");
    assert_eq!(jobs[0].renders[0].text, "Hello");
    assert_eq!(jobs[0].renders[0].outputs[0].path, "/work/Output/English/9x16 v2/14_1_9x16.png");
    assert!(jobs[0].renders[0].outputs[1].format == Format::Square1x1);
    assert_eq!(jobs[0].renders[0].outputs[1].path, "/work/Output/English/9x16 v2/14_1_1x1.png");
    assert_eq!(jobs[2].renders[1].outputs[0].path, "/work/Output/English/a_2_b_9x16.jpg");
    assert_eq!(jobs[4].renders.len(), 1);
    assert_eq!(jobs[4].renders[0].text, "Bonjour");
    assert_eq!(
        out_dirs,
        [
            "/work/Output/English/9x16 v2",
            "/work/Output/English/9x16 v2/deep",
            "/work/Output/English",
            "/work/Output/French",
            "/work/Output/German/9x16 v2",
            "/work/Output/German/9x16 v2/deep",
            "/work/Output/German",
        ]
    );
    let all = paths(&jobs);
    for path in &all {
        assert!(path.starts_with("/work/Output/"));
        assert!(out_dirs.iter().any(|d| path.rsplit_once('/').map(|p| p.0) == Some(d.as_str())));
    }
    let mut unique = all.clone();
    unique.sort();
    unique.dedup();
    assert_eq!(unique.len(), all.len());
}

#[test]
fn only_selected_images_are_rendered() {
    let ws = workspace();
    let mut p = plan();
    p.only_selected = true;
    p.selected = vec!["/work/Images/BASE/a.jpg".to_string(), "/elsewhere.jpg".to_string()];
    let (jobs, out_dirs, total) = run(plan_batch(&ws, "/work", &p));
    assert!(jobs.iter().all(|j| j.image == "/work/Images/BASE/a.jpg"));
    assert_eq!((jobs.len(), total), (2, 6));
    assert_eq!(out_dirs, ["/work/Output/English", "/work/Output/German"]);
    p.only_selected = false;
    assert_eq!(run(plan_batch(&ws, "/work", &p)).0.len(), 9);
}

#[test]
fn formats_are_chosen_by_suffix() {
    let names = |list: &[&str]| list.iter().map(|s| s.to_string()).collect::<Vec<_>>();
    let chosen = |list: &[&str]| {
        active_formats(&names(list)).iter().map(|f| f.suffix()).collect::<Vec<_>>()
    };
    assert_eq!(chosen(&[]), ["9x16", "1x1"]);
    assert_eq!(chosen(&["1x1", "9x16", "1x1"]), ["9x16", "1x1"]);
    assert_eq!(chosen(&["1x1"]), ["1x1"]);
    assert_eq!(chosen(&["4x5"]), Vec::<&str>::new());
    let ws = workspace();
    let mut p = plan();
    p.formats = names(&["9x16"]);
    let (jobs, _, total) = run(plan_batch(&ws, "/work", &p));
    assert_eq!(total, 13);
    assert!(paths(&jobs).iter().all(|path| path.contains("_9x16.")));
    p.formats = names(&["none"]);
    let (jobs, _, total) = run(plan_batch(&ws, "/work", &p));
    assert_eq!((jobs.len(), total), (9, 0));
}

#[test]
fn templates_of_single_images_come_first() {
    let ws = workspace();
    let mut p = plan();
    let custom = |w: f32| LayoutSpec::Custom {
        logo_x: Anchor::Left,
        logo_y: 0,
        text_x: Anchor::Left,
        text_y: 0,
        text_w: w.to_bits(),
        font_px: 0,
        line_height: 0,
        letter_spacing: 0,
    };
    p.templates_by_image.insert("/work/Images/BASE/a.jpg".to_string(), custom(0.25));
    p.templates_by_image.insert("/work/Images/BASE/a.jpg".to_string(), custom(0.5));
    assert!(p.templates_by_image.get("/work/Images/BASE/b.jpg").is_none());
    let (jobs, _, _) = run(plan_batch(&ws, "/work", &p));
    for job in &jobs {
        match job.spec {
            LayoutSpec::Template1 => assert_ne!(job.image, "/work/Images/BASE/a.jpg"),
            LayoutSpec::Custom { text_w, .. } => {
                assert_eq!(job.image, "/work/Images/BASE/a.jpg");
                assert_eq!(f32::from_bits(text_w), 0.5);
            }
        }
    }
}

#[test]
fn batches_with_nothing_to_render_are_skipped() {
    let mut ws = workspace();
    ws.messages.clear();
    match plan_batch(&ws, "/work", &plan()) {
        Some(Batch::Skip(r)) => {
            assert_eq!((r.total, r.ok, r.errors.len()), (0, 0, 0));
            assert!(r.skipped_no_rows && !r.skipped_no_image);
            assert_eq!(r.output_root, "/work/Output");
        }
        _ => panic!("not skipped"),
    }
    let ws = build_workspace("/work", sheet(), &None);
    match plan_batch(&ws, "/work", &plan()) {
        Some(Batch::Skip(r)) => assert!(!r.skipped_no_rows && r.skipped_no_image),
        _ => panic!("not skipped"),
    }
    let r = skipped("root".to_string(), true, true);
    assert!(r.skipped_no_image && r.skipped_no_rows);
}

#[test]
fn output_names_hold_stem_message_and_format() {
    let ws = workspace();
    let image = &ws.collections[0].images[0];
    assert_eq!(output_file_name(image, " 3:4 ", Format::Square1x1), "14_3_4_1x1.png");
}

#[test]
fn every_file_is_counted_once() {
    let (jobs, _, total) = run(plan_batch(&workspace(), "/work", &plan()));
    let mut tally = Tally::new(total);
    let mut currents = vec![];
    for (i, job) in jobs.iter().enumerate() {
        if i % 3 == 0 {
            for event in tally.not_prepared(job, "decode: torn") {
                assert!(!event.ok);
                assert_eq!(event.error.as_deref(), Some("decode: torn"));
                currents.push(event.current);
            }
            continue;
        }
        for output in job.renders.iter().flat_map(|r| &r.outputs) {
            let event = match output.format {
                Format::Portrait916 => tally.written(&output.path),
                Format::Square1x1 => tally.not_written(&output.path, "write: full"),
            };
            assert_eq!(event.total, total);
            assert!(output.path.ends_with(&event.file));
            assert!(!event.file.contains('/'));
            assert_eq!(event.ok, event.error.is_none());
            currents.push(event.current);
        }
    }
    assert_eq!(currents, (1..=total).collect::<Vec<_>>());
    let result = tally.finish("/work/Output".to_string());
    assert_eq!(result.total, total);
    assert_eq!(result.ok + result.errors.len(), total);
    assert_eq!(result.errors[0].file, "14.png → 14_1_9x16.png");
    assert_eq!(result.errors[0].error, "decode: torn");
    assert!(result.errors.iter().any(|e| e.file == "x_1_1x1.JPEG" && e.error == "write: full"));
    assert!(!result.skipped_no_image && !result.skipped_no_rows);
    assert_eq!(result.output_root, "/work/Output");
}
