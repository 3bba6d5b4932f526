//! TOML as nodes that know where they stand, and as text.

use crate::error::texts;
use crate::parsers::layout::{piece_models, Piece, PieceModel};
use crate::parsers::toml_nodes::TomlShape::{
    Inline, List, Missing, Moment, Real, Table, Tables, Truth, Whole, Words,
};
use crate::parsers::toml_spelling::{gives_nodes, is_toml_document_layout, no_toml_objection};
use toml::Value::{
    Array as BareList, Boolean as BareTruth, Float as BareReal, Integer as BareWhole,
    String as BareWords, Table as BareTable,
};
use toml_edit::Value::{
    Array, Boolean, Datetime, Float, InlineTable, Integer, String as Quoted,
};
use toml_edit::{ImDocument, Item};
use std::iter::from_fn;
use vstd::prelude::*;

verus! {

/// What a node is. A collection stands before what it holds.
#[derive(Debug)]
pub enum TomlShape {
    /// No value.
    Missing,
    /// A text.
    Words(String),
    /// A date or time, as `toml_edit` shows it.
    Moment(String),
    /// An integer.
    Whole(i64),
    /// A float, by its text.
    Real(String),
    /// A truth value.
    Truth(bool),
    /// An inline array of that many values.
    List(usize),
    /// An inline table with these keys.
    Inline(Vec<String>),
    /// A table with these keys.
    Table(Vec<String>),
    /// An array of that many tables.
    Tables(usize),
}

/// What a [`TomlShape`] is, mathematically.
pub enum ShapeModel {
    Missing,
    Words(Seq<char>),
    Moment(Seq<char>),
    Whole(int),
    Real(Seq<char>),
    Truth(bool),
    List(nat),
    Inline(Seq<Seq<char>>),
    Table(Seq<Seq<char>>),
    Tables(nat),
}

impl View for TomlShape {
    type V = ShapeModel;

    open spec fn view(&self) -> ShapeModel {
        match self {
            TomlShape::Missing => ShapeModel::Missing,
            TomlShape::Words(s) => ShapeModel::Words(s@),
            TomlShape::Moment(s) => ShapeModel::Moment(s@),
            TomlShape::Whole(n) => ShapeModel::Whole(*n as int),
            TomlShape::Real(s) => ShapeModel::Real(s@),
            TomlShape::Truth(b) => ShapeModel::Truth(*b),
            TomlShape::List(n) => ShapeModel::List(*n as nat),
            TomlShape::Inline(keys) => ShapeModel::Inline(texts(keys@)),
            TomlShape::Table(keys) => ShapeModel::Table(texts(keys@)),
            TomlShape::Tables(n) => ShapeModel::Tables(*n as nat),
        }
    }
}

/// A node: what it is, and the bytes it stands on.
#[derive(Debug)]
pub struct TomlNode {
    /// What it is.
    pub shape: TomlShape,
    /// The bytes it stands on, from and to.
    pub span: Option<(usize, usize)>,
}

/// What a [`TomlNode`] is, mathematically.
pub struct TomlNodeModel {
    pub shape: ShapeModel,
    pub span: Option<(usize, usize)>,
}

impl View for TomlNode {
    type V = TomlNodeModel;

    open spec fn view(&self) -> TomlNodeModel {
        TomlNodeModel { shape: self.shape@, span: self.span }
    }
}

/// The models of a sequence of nodes.
pub open spec fn toml_models(nodes: Seq<TomlNode>) -> Seq<TomlNodeModel> {
    Seq::new(nodes.len(), |i: int| nodes[i]@)
}

/// What the reader objects to: the bytes it points at, and its words.
#[derive(Debug)]
pub struct TomlFault {
    /// The bytes it points at, from and to.
    pub span: Option<(usize, usize)>,
    /// What is wrong.
    pub message: String,
}

/// What a [`TomlFault`] is, mathematically.
pub struct TomlFaultModel {
    pub span: Option<(usize, usize)>,
    pub message: Seq<char>,
}

impl View for TomlFault {
    type V = TomlFaultModel;

    open spec fn view(&self) -> TomlFaultModel {
        TomlFaultModel { span: self.span, message: self.message@ }
    }
}

/// The objection of `toml_edit::ImDocument::parse` to a text.
pub uninterp spec fn toml_fault_of(text: Seq<char>) -> Option<TomlFaultModel>;

/// The model of an objection.
pub open spec fn toml_fault_model(r: Option<TomlFault>) -> Option<TomlFaultModel> {
    match r {
        Some(fault) => Some(fault@),
        None => None,
    }
}

/// `toml_edit::ImDocument::parse`, the `span` and `message` of the error it
/// returns. There is no error for what `toml::to_string_pretty` wrote of a table
/// without floats that is nested no deeper than `toml_edit` goes; otherwise the
/// result, a function of the text, is only named here.
#[verifier::external_body]
pub(crate) fn find_toml_fault(text: &str) -> (r: Option<TomlFault>)
    ensures
        toml_fault_of(text@) == toml_fault_model(r),
        no_toml_objection(text@, toml_fault_model(r)),
{
    let fault = ImDocument::parse(text).err()?;
    let span = fault.span().map(|r| (r.start, r.end));
    Some(TomlFault { span, message: fault.message().to_owned() })
}

/// The outside type of what a key holds.
#[verifier::external_type_specification]
#[verifier::external_body]
pub struct ExItem(toml_edit::Item);

/// The shape of a `toml_edit::Item` that is a value; what it holds goes to
/// `rest`, in order.
#[verifier::external_body]
fn value_shape_of(item: Item, rest: &mut Vec<Item>) -> TomlShape {
    let Item::Value(value) = item else { return Missing };
    match value {
        Quoted(s) => Words(s.into_value()),
        Integer(n) => Whole(n.into_value()),
        Float(x) => Real(x.into_value().to_string()),
        Boolean(b) => Truth(b.into_value()),
        Datetime(d) => Moment(d.into_value().to_string()),
        Array(a) => { rest.extend(a.into_iter().map(Item::Value)); List(rest.len()) }
        InlineTable(t) => Inline(t.into_iter().map(|(k, v)| { rest.push(Item::Value(v)); k.to_string() }).collect()),
    }
}

/// The shape of a `toml_edit::Item`; what it holds goes to `rest`, in order.
#[verifier::external_body]
fn shape_of(item: Item, rest: &mut Vec<Item>) -> TomlShape {
    match item {
        Item::Table(t) => Table(t.into_iter().map(|(k, v)| { rest.push(v); k.to_string() }).collect()),
        Item::ArrayOfTables(a) => { rest.extend(a.into_iter().map(Item::Table)); Tables(rest.len()) }
        Item::None | Item::Value(_) => value_shape_of(item, rest),
    }
}

/// What `toml_edit::ImDocument::parse` reads out of a text.
pub uninterp spec fn toml_nodes(text: Seq<char>) -> Seq<TomlNodeModel>;

/// `toml_edit::ImDocument::parse`, its tree laid out from the root table down,
/// each collection before what it holds; no node where the text is rejected.
/// What `toml::to_string_pretty` wrote of a table without floats that is nested
/// no deeper than `toml_edit` goes is read as that table, up to the order of its
/// keys; otherwise the result, a function of the text, is only named here.
#[verifier::external_body]
pub(crate) fn read_toml_nodes(text: &str) -> (r: Vec<TomlNode>)
    ensures
        toml_models(r@) == toml_nodes(text@),
        gives_nodes(text@, toml_models(r@)),
{
    let root = ImDocument::parse(text).ok().map(|d| Item::Table(d.into_table()));
    let (mut stack, mut out) = (Vec::from_iter(root), Vec::new());
    while let Some(item) = stack.pop() {
        let span = item.span().map(|r| (r.start, r.end));
        let mut held = Vec::new();
        let shape = shape_of(item, &mut held);
        stack.extend(held.into_iter().rev());
        out.push(TomlNode { shape, span });
    }
    out
}

/// How many quotes of one kind in a row are too many: the writer counts them in
/// eight bits.
pub open spec fn quote_limit() -> nat {
    256
}

/// Whether too many quotes of one kind stand in a row from `i` on.
pub open spec fn quotes_from(s: Seq<char>, q: char, i: int) -> bool {
    0 <= i && i + quote_limit() <= s.len() && forall|j: int|
        i <= j < i + quote_limit() ==> #[trigger] s[j] == q
}

/// Whether a text holds too many quotes of one kind in a row.
pub open spec fn holds_quote_run(s: Seq<char>) -> bool {
    (exists|i: int| quotes_from(s, '"', i)) || (exists|i: int| quotes_from(s, '\'', i))
}

/// Whether the writer takes a layout: nothing is blank in it, and no text holds
/// too many quotes in a row.
pub open spec fn is_writable(pieces: Seq<PieceModel>) -> bool {
    forall|i: int|
        0 <= i < pieces.len() ==> !((#[trigger] pieces[i]) is Blank) && (pieces[i] matches PieceModel::Words(s)
            ==> !holds_quote_run(s))
}

/// What `toml::to_string_pretty` writes for a layout, or its objection.
pub uninterp spec fn toml_text(pieces: Seq<PieceModel>) -> Result<Seq<char>, Seq<char>>;

/// `toml::to_string_pretty` of the `toml::Value` that a layout stands for. A
/// table without nulls is written without a fault; what is written is a function
/// of the layout and only named here. The writer counts the quotes that stand in
/// a row in a text in eight bits (`ValueMetrics::calculate` of `toml_write`), so
/// 256 of them are left out.
#[verifier::external_body]
pub(crate) fn write_toml_layout(pieces: Vec<Piece>) -> (r: Result<String, String>)
    requires
        is_writable(piece_models(pieces@)),
    ensures
        toml_text(piece_models(pieces@)) == (match r {
            Ok(text) => Ok(text@),
            Err(message) => Err(message@),
        }),
        r is Err ==> !is_toml_document_layout(piece_models(pieces@)),
{
    let mut built = Vec::new();
    for piece in pieces.into_iter().rev() {
        let node = match piece {
            Piece::Blank => BareWords(String::new()), Piece::Truth(b) => BareTruth(b), Piece::Whole(n) => BareWhole(n),
            Piece::Real(s) => BareReal(s.parse().unwrap_or_default()), Piece::Words(s) => BareWords(s),
            Piece::List(n) => BareList(from_fn(|| built.pop()).take(n).collect()),
            Piece::Table(k) => BareTable(k.into_iter().zip(from_fn(|| built.pop())).collect()),
        };
        built.push(node);
    }
    toml::to_string_pretty(&built.pop()).map_err(|e| e.to_string())
}

} // verus!
