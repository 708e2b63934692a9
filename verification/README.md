# amatl

A PDF size optimizer, written in Rust and verified with Verus. The result of a
run is the input itself, byte for byte, or a strictly smaller file.

* `src/` is the verified library. `pipeline` is the way in: it reads a document,
  merges what occurs twice (`dedup`), writes content streams anew (`content`,
  `minify`), plans and carries out what happens to images (`placements`, `plan`,
  `replace`, `jpx`, `gray`), and writes the result (`finish`, `patch`, `reals`).
  `truetype` and `type1` read and write font programs. `laws` states what holds
  of the whole.
* `app/` is the `amatl` command: arguments, files, and what the library takes
  from its caller: floating point, and the PDF parser and image codecs, which
  may fail hard on a broken file.
* `tests/` runs the library on small documents and fonts.

Contracts of the outside crates that the library calls are stated in `pdf`
(lopdf), `flate` (flate2, zopfli), `png` (lopdf) and `raster` (image,
dicom-toolkit-jpeg2000), each next to the call. `filters`, `inline` and `tree`
decide what may be handed to lopdf; `load` and `raster::Codec` state what the
caller's functions have to be.
