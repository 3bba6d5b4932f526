//! The formats.

pub mod csv;
pub mod csv_records;
pub mod dockerfile;
pub mod dockerfile_lines;
pub mod dotenv;
pub mod frontmatter;
pub mod hcl;
pub mod hcl_nodes;
pub mod hcl_spelling;
pub mod ignore_list;
pub mod ini;
pub mod ini_sections;
pub mod json;
pub mod json_braces;
pub mod json_places;
pub mod json_scan;
pub mod json_spelling;
pub mod json_values;
pub mod json_write;
pub mod jsonl;
pub mod jsonl_spelling;
pub mod layout;
pub mod level_order;
pub mod markdown;
pub mod markdown_nodes;
pub mod merging;
pub mod source_lines;
pub mod tokens;
pub mod toml;
pub mod toml_nodes;
pub mod toml_render;
pub mod toml_spelling;
pub mod toml_walk;
pub mod xml;
pub mod xml_collected;
pub mod xml_events;
pub mod xml_marks;
pub mod xml_playback;
pub mod xml_read;
pub mod xml_round_trip;
pub mod xml_spelling;
pub mod xml_tags;
pub mod xml_write;
pub mod yaml;
pub mod yaml_events;
pub mod yaml_extents;
pub mod yaml_literals;
pub mod yaml_render;
pub mod yaml_spans;
pub mod yaml_spelling;
pub mod yaml_values;
