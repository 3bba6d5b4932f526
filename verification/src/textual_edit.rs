//! Rendering values back into bytes that fit the place they go to.

use crate::format_tag::FormatTag;
use crate::parsers::json_write::{JsonInsertionRenderer, JsonScalarRenderer};
use crate::parsers::toml_render::{TomlInsertionRenderer, TomlScalarRenderer};
use crate::parsers::yaml_render::{YamlInsertionRenderer, YamlScalarRenderer};
use crate::spans::SpanContext;
use crate::value::{Tree, Value};
use vstd::prelude::*;

verus! {

/// Renders a value into bytes that fit the syntactic context of the span that
/// is being replaced.
pub trait ScalarRenderer {
    /// Whether the format can express the value.
    spec fn renders(&self, t: Tree) -> bool;

    /// The bytes that replace `original`.
    spec fn replacement(&self, t: Tree, context: SpanContext, original: Seq<u8>) -> Seq<u8>;

    /// Renders `value` in place of `original`, quotes included.
    fn render_replacement(&self, value: &Value, context: SpanContext, original: &[u8]) -> (r: Vec<
        u8,
    >)
        requires
            self.renders(value@),
        ensures
            r@ == self.replacement(value@, context, original@),
    ;
}

/// Renders a new key with its value, to be put into a container.
pub trait InsertionRenderer {
    /// Whether the format can express the value.
    spec fn inserts(&self, t: Tree) -> bool;

    /// The bytes of the new member.
    spec fn insertion(
        &self,
        key: Seq<char>,
        t: Tree,
        parent_indent: u32,
        parent_context: SpanContext,
    ) -> Seq<u8>;

    /// Renders `key` with `value` below a container indented by
    /// `parent_indent`.
    fn render_insertion(
        &self,
        key: &str,
        value: &Value,
        parent_indent: u32,
        parent_context: SpanContext,
    ) -> (r: Vec<u8>)
        requires
            self.inserts(value@),
        ensures
            r@ == self.insertion(key@, value@, parent_indent, parent_context),
    ;
}

/// The scalar renderer of a format that has one.
#[derive(Debug, Clone, Copy)]
pub enum FormatRenderer {
    /// For YAML.
    Yaml(YamlScalarRenderer),
    /// For TOML.
    Toml(TomlScalarRenderer),
    /// For JSON.
    Json(JsonScalarRenderer),
}

impl ScalarRenderer for FormatRenderer {
    open spec fn renders(&self, t: Tree) -> bool {
        match self {
            FormatRenderer::Yaml(r) => r.renders(t),
            FormatRenderer::Toml(r) => r.renders(t),
            FormatRenderer::Json(r) => r.renders(t),
        }
    }

    open spec fn replacement(&self, t: Tree, context: SpanContext, original: Seq<u8>) -> Seq<u8> {
        match self {
            FormatRenderer::Yaml(r) => r.replacement(t, context, original),
            FormatRenderer::Toml(r) => r.replacement(t, context, original),
            FormatRenderer::Json(r) => r.replacement(t, context, original),
        }
    }

    fn render_replacement(&self, value: &Value, context: SpanContext, original: &[u8]) -> (r: Vec<
        u8,
    >) {
        match self {
            FormatRenderer::Yaml(r) => r.render_replacement(value, context, original),
            FormatRenderer::Toml(r) => r.render_replacement(value, context, original),
            FormatRenderer::Json(r) => r.render_replacement(value, context, original),
        }
    }
}

/// The insertion renderer of a format that has one.
#[derive(Debug, Clone, Copy)]
pub enum FormatInserter {
    /// For YAML.
    Yaml(YamlInsertionRenderer),
    /// For TOML.
    Toml(TomlInsertionRenderer),
    /// For JSON.
    Json(JsonInsertionRenderer),
}

impl InsertionRenderer for FormatInserter {
    open spec fn inserts(&self, t: Tree) -> bool {
        match self {
            FormatInserter::Yaml(r) => r.inserts(t),
            FormatInserter::Toml(r) => r.inserts(t),
            FormatInserter::Json(r) => r.inserts(t),
        }
    }

    open spec fn insertion(
        &self,
        key: Seq<char>,
        t: Tree,
        parent_indent: u32,
        parent_context: SpanContext,
    ) -> Seq<u8> {
        match self {
            FormatInserter::Yaml(r) => r.insertion(key, t, parent_indent, parent_context),
            FormatInserter::Toml(r) => r.insertion(key, t, parent_indent, parent_context),
            FormatInserter::Json(r) => r.insertion(key, t, parent_indent, parent_context),
        }
    }

    fn render_insertion(
        &self,
        key: &str,
        value: &Value,
        parent_indent: u32,
        parent_context: SpanContext,
    ) -> (r: Vec<u8>) {
        match self {
            FormatInserter::Yaml(r) => r.render_insertion(
                key,
                value,
                parent_indent,
                parent_context,
            ),
            FormatInserter::Toml(r) => r.render_insertion(
                key,
                value,
                parent_indent,
                parent_context,
            ),
            FormatInserter::Json(r) => r.render_insertion(
                key,
                value,
                parent_indent,
                parent_context,
            ),
        }
    }
}

/// Which formats can be edited in place.
pub open spec fn renderer_of(format: FormatTag) -> Option<FormatRenderer> {
    match format {
        FormatTag::Yaml => Some(FormatRenderer::Yaml(YamlScalarRenderer)),
        FormatTag::Toml => Some(FormatRenderer::Toml(TomlScalarRenderer)),
        FormatTag::Json => Some(FormatRenderer::Json(JsonScalarRenderer)),
        _ => None,
    }
}

/// Which formats can take new members in place.
pub open spec fn inserter_of(format: FormatTag) -> Option<FormatInserter> {
    match format {
        FormatTag::Yaml => Some(FormatInserter::Yaml(YamlInsertionRenderer)),
        FormatTag::Toml => Some(FormatInserter::Toml(TomlInsertionRenderer)),
        FormatTag::Json => Some(FormatInserter::Json(JsonInsertionRenderer)),
        _ => None,
    }
}

/// Looks up the scalar renderer of a format.
pub fn renderer_for_format(format: FormatTag) -> (r: Option<FormatRenderer>)
    ensures
        r == renderer_of(format),
{
    match format {
        FormatTag::Yaml => Some(FormatRenderer::Yaml(YamlScalarRenderer)),
        FormatTag::Toml => Some(FormatRenderer::Toml(TomlScalarRenderer)),
        FormatTag::Json => Some(FormatRenderer::Json(JsonScalarRenderer)),
        _ => None,
    }
}

/// Looks up the insertion renderer of a format.
pub fn insertion_renderer_for_format(format: FormatTag) -> (r: Option<FormatInserter>)
    ensures
        r == inserter_of(format),
{
    match format {
        FormatTag::Yaml => Some(FormatInserter::Yaml(YamlInsertionRenderer)),
        FormatTag::Toml => Some(FormatInserter::Toml(TomlInsertionRenderer)),
        FormatTag::Json => Some(FormatInserter::Json(JsonInsertionRenderer)),
        _ => None,
    }
}

} // verus!
