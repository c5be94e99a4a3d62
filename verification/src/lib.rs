//! Renders texts and a logo onto pictures, in batches that a spreadsheet drives.
//!
//! [`pipeline`] scans a working folder, [`batch`] plans what to render and where to write it,
//! [`canvas`] and [`lettering`] make the pictures, and [`progress`] counts what became of them. What
//! holds of all of it is proved in the modules whose names end in `laws`.
pub mod batch;
pub mod batch_laws;
pub mod canvas;
pub mod compositor;
pub mod folder_laws;
pub mod gradient;
pub mod gradient_laws;
pub mod imaging;
pub mod layout_laws;
pub mod lettering;
pub mod listing;
pub mod listing_laws;
pub mod model_laws;
pub mod number_laws;
pub mod order_laws;
pub mod paths;
pub mod picture_laws;
pub mod pipeline;
pub mod plan_laws;
pub mod progress;
pub mod raster;
pub mod report;
pub mod setting_laws;
pub mod sheet_laws;
pub mod single;
pub mod single_bits;
pub mod spreadsheet;
pub mod tally_laws;
pub mod text;
pub mod text_laws;
pub mod workbook;
pub mod wrapping;
