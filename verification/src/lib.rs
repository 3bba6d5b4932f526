//! Data model, formats, parsers, JSON Pointer and span-preserving edits for
//! documents in JSON, YAML, TOML and a dozen other formats.
//!
//! A [`Document`] holds a [`Value`] tree, the bytes it was read from, and for
//! the formats that can be edited in place a map from pointers to byte ranges.
//! [`Document::set_at`] and [`Document::del_at`] change the tree, the bytes and
//! the ranges together. Every contract is stated over the mathematical models:
//! a tree ([`value::Tree`]) for a value, a sequence of segments for a pointer,
//! a sequence of entries for the maps.

use vstd::prelude::*;

pub mod atomic_write;
pub mod bytes;
pub mod decimal_laws;
pub mod decimal_text;
pub mod dispatch;
pub mod display;
pub mod display_laws;
pub mod docker_laws;
pub mod document;
pub mod document_laws;
pub mod dotenv_laws;
pub mod edit_laws;
pub mod edit_ops;
pub mod edit_wire;
pub mod enumerate;
pub mod enumerate_laws;
pub mod env_line_laws;
pub mod error;
pub mod format;
pub mod format_laws;
pub mod format_tag;
pub mod frontmatter_laws;
pub mod ir;
pub mod json_bridge;
pub mod json_scan_laws;
pub mod json_text_laws;
pub mod layout_laws;
pub mod markdown_laws;
pub mod marker_laws;
pub mod merge_laws;
pub mod number_laws;
pub mod numbers;
pub mod op_laws;
pub mod parsers;
pub mod pointer;
pub mod pointer_laws;
pub mod position;
pub mod reading_laws;
pub mod resolve;
pub mod serial;
pub mod source_laws;
pub mod span_laws;
pub mod spans;
pub mod suggest;
pub mod suggest_laws;
pub mod table_laws;
pub mod template_guard;
pub mod template_laws;
pub mod text;
pub mod text_laws;
pub mod textual_edit;
pub mod toml_place_laws;
pub mod toml_scalar_laws;
pub mod tree_edit;
pub mod utf8_text;
pub mod value;
pub mod value_eq;
pub mod value_from;
pub mod value_laws;
pub mod walk_laws;
pub mod write_laws;
pub mod write_options;
pub mod writing_laws;
pub mod xml_laws;
pub mod xml_read_laws;
pub mod xml_write_laws;
pub mod yaml_extent_laws;
pub mod yaml_note_laws;
pub mod yaml_place_laws;
pub mod yaml_scalar_laws;

pub use document::{Document, FrontmatterKind, FrontmatterPayload};
pub use enumerate::enumerate_pointers;
pub use error::{Error, PathErrorKind};
pub use format::{by_name, detect, Format};
pub use format_tag::FormatTag;
pub use ir::{Ir, OwnedIr, Provenance, ProvenanceMap, SyntheticReason};
pub use parsers::json::parse_json_with_spans;
pub use parsers::yaml::parse_yaml_with_spans;
pub use pointer::{Pointer, Segment};
pub use value::{Value, ValueMap};
pub use write_options::{canonicalize_keys, WriteOptions};

verus! {

} // verus!
