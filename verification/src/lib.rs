//! Verified core of an implicit-surface renderer: raster images, the
//! kernel-source compiler for shape trees, SVG emission and the
//! combinatorial decisions of the line-stitching passes.

pub mod image;
pub mod text;
pub mod compiler;
pub mod shift;
pub mod stitch;
pub mod backend;
pub mod svg;
pub mod canvas;
pub mod nodes;
pub mod static_file;
pub mod suite;
pub mod api;
pub mod field_image;
pub mod routes;
pub mod graph_stitch;
pub mod styled_svg;
pub mod bytecode;
pub mod formats;
