# batcher

Renders texts and a logo onto pictures, in batches that a spreadsheet drives.

A working folder holds a workbook with a sheet named `Batcher` and a folder `Images` with one
subfolder for each image collection. The first row of the sheet names the collection of each column,
the second row its language, and every further row holds a message: its id in the first column, its
text in each language behind it. A batch writes, for every column, every image of its collection and
every message, one picture in each format (9:16 and 1:1) to `Output/<language>/<subfolder>/`.

## Layout

- `src/` is the library. Its functions have contracts that Verus proves, but for the few that only
  call an outside crate: those are relied on as they stand.
  - `text`, `paths`: characters, words, lines, path components.
  - `single`, `single_bits`: single-precision arithmetic in integers.
  - `spreadsheet`, `workbook`: the sheet, and the cell grids that `calamine` holds.
  - `listing`, `pipeline`, `listing_laws`: what a folder holds, and the workspace made of it.
  - `batch`, `batch_laws`, `progress`, `report`: which file gets which picture, and what is counted.
  - `raster`, `compositor`, `gradient`, `canvas`, `imaging`: crops, layouts, blending, and the
    picture files that `image` reads and writes.
  - `wrapping`, `lettering`: line breaks, and the fonts that `ab_glyph` reads.
- `app/` is the desktop application around it: windows and commands, the file system, opening
  workbooks, drawing with floating-point fonts, the rendering of the logo, and JPEG compression.
- `tests/` runs the library with the real crates.

What the library has from an outside crate stands in `workbook`, `imaging` and `lettering`, each call
behind a function whose contract says what is relied on.
