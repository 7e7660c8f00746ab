# Sticker Packer

Tessellates rotated copies of a sticker onto a page and exports two registered sheets for a
print-then-cut workflow: the artwork clipped to the sticker shape, and the cut outlines at the
same positions, as SVG and PDF.

The library under `src/` is written in Verus. Its functions carry contracts that Verus proves,
except for a few small wrappers around `base64`, `lopdf` and `svg2pdf` (marked
`#[verifier::external_body]`), whose contracts Verus takes as given. It holds the parts of the pipeline that are not floating-point geometry:

| module | what it holds |
|--------|---------------|
| `text` | character-level string helpers (ASCII case, white space, searching) |
| `svgio` | the inner markup and the viewBox text of an SVG, and how a path's points are cut into rings |
| `engine` | outline styles, page presets, image types, packing methods, contour splitting, data URIs |
| `geom` | gluing triangulation faces and the convex-decomposition merge loop; pairwise reduction |
| `pick` | keeping the attempt that placed the most stickers |
| `par` | the order-preserving maps the packers use |
| `pdfobj` | a model of PDF objects (plain values of the library's own; a real number is kept as its bit pattern beside the `lopdf` object it came from, since the library holds no floats), and the removal of duplicate streams from a document |
| `output` | SVG to PDF with duplicate streams removed |
| `cli` | output file names and the `--page` flag |

`app/` is the program around it: the command line, the WebAssembly entry point, and the
floating-point geometry (Minkowski sums, offsets, the greedy and lattice packers, SVG
flattening and sheet output). `tests/` exercises the library from outside.

Duplicate streams are found by comparing values, not hashes, and the redirections of a pass are
kept in a `Vec` of (dropped, kept) pairs searched in order. An object number is a pair of
integers, and the contracts speak of the redirections as a sequence: the first entry for a
number decides where it goes, which a `Vec` states directly, while a hash map would add the
walk order it leaves open. A document has few duplicates, so the linear search costs little.
