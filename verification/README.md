# implicit

The core of an implicit-surface renderer, written in Verus: every function
in `src/` is verified, and each that computes something states it in a
contract that the verifier proves.

## Layout

- `src/` — the verified library.
  - `compiler`, `nodes`: turning shape trees into kernel source text.
  - `bytecode`: compiling distance-field expressions to stack-machine code,
    with its constant table, stack depth and transform nesting.
  - `image`: raster images and their padding, stacking and upscaling.
  - `backend`, `svg`, `styled_svg`, `canvas`: drawing commands and the SVG
    documents they produce.
  - `stitch`, `graph_stitch`: the combinatorial decisions of joining line
    segments into paths and loops.
  - `formats`: reading and writing the text dumps of fields and lines.
  - `suite`: the decisions of comparing a scene's outputs with the
    expected ones.
  - `routes`, `static_file`, `api`: request routing and static files.
  - `shift`, `text`, `field_image`: helpers on sequences, strings and
    pixels.
- `tests/` — tests of the library, run against the compiled crate.
- `app/` — the unverified rest: floating-point geometry, file and image
  output, and the glue that hands every decision to the library.
