//! YAML as value trees: reading them, and writing them out.

use crate::parsers::layout::Piece::{Real, Whole};
use crate::parsers::layout::{piece_models, Piece, PieceModel};
use crate::parsers::tokens::Token::{Blank, List, Mapping, Numeral, Tag, Truth, Words};
use crate::parsers::tokens::{token_models, Token, TokenModel};
use crate::parsers::yaml_spelling::{gives_document, is_plain_layout, no_objection};
use serde::Deserialize;
use serde_norway::{from_str, to_string};
use serde_norway::Value::{
    Bool, Mapping as Table, Null, Number, Sequence, String as Quoted, Tagged,
};
use std::collections::VecDeque;
use std::iter::from_fn;
use vstd::prelude::*;

verus! {

/// What the reader or the writer objects to: line and column, zero where it
/// knows none, and its words.
#[derive(Debug)]
pub struct YamlFault {
    /// The line.
    pub line: u32,
    /// The column.
    pub col: u32,
    /// What is wrong.
    pub message: String,
}

/// What a [`YamlFault`] is, mathematically.
pub struct YamlFaultModel {
    pub line: int,
    pub col: int,
    pub message: Seq<char>,
}

impl View for YamlFault {
    type V = YamlFaultModel;

    open spec fn view(&self) -> YamlFaultModel {
        YamlFaultModel { line: self.line as int, col: self.col as int, message: self.message@ }
    }
}

/// The model of an objection.
pub open spec fn fault_model(r: Option<YamlFault>) -> Option<YamlFaultModel> {
    match r {
        Some(fault) => Some(fault@),
        None => None,
    }
}

/// The first objection of `serde_norway` to a stream of documents.
pub uninterp spec fn yaml_stream_fault(bytes: Seq<u8>) -> Option<YamlFaultModel>;

/// `serde_norway::Deserializer`, each document read into a
/// `serde_norway::Value` until one fails. There is no objection to the bytes that
/// `serde_norway::to_string` wrote of a plain value; otherwise the result, a
/// function of the bytes, is only named here.
#[verifier::external_body]
pub(crate) fn find_stream_fault(bytes: &[u8]) -> (r: Option<YamlFault>)
    ensures
        yaml_stream_fault(bytes@) == fault_model(r),
        no_objection(bytes@, fault_model(r)),
{
    let mut documents = serde_norway::Deserializer::from_slice(bytes);
    let fault = documents.find_map(|de| serde_norway::Value::deserialize(de).err())?;
    let place = fault.location().map(|l| (l.line() as u32, l.column() as u32));
    let (line, col) = place.unwrap_or_default();
    Some(YamlFault { line, col, message: fault.to_string() })
}

/// The layouts of a sequence of documents.
pub open spec fn layouts(documents: Seq<Vec<Token>>) -> Seq<Seq<TokenModel>> {
    Seq::new(documents.len(), |i: int| token_models(documents[i]@))
}

/// The outside type of a document that is about to be read.
#[verifier::external_type_specification]
#[verifier::external_body]
pub struct ExDeserializer<'a>(serde_norway::Deserializer<'a>);

/// The `serde_norway::Value` of a document, laid out level by level; nothing
/// where it does not read.
#[verifier::external_body]
fn tokens_of(document: serde_norway::Deserializer<'_>) -> Option<Vec<Token>> {
    let mut queue = VecDeque::from([Deserialize::deserialize(document).ok()?]);
    let mut out = Vec::new();
    while let Some(node) = queue.pop_front() {
        out.push(match node {
            Null => Blank, Bool(b) => Truth(b), Number(n) => Numeral(n.to_string()), Quoted(s) => Words(s),
            Sequence(items) => { let n = items.len(); queue.extend(items); List(n) }
            Table(map) => Mapping(map.into_iter().map(|(k, v)| {
                let shown = format!("{k:?}"); queue.extend([k, v]); shown
            }).collect()),
            Tagged(tagged) => { queue.push_back(tagged.value); Tag }
        });
    }
    Some(out)
}

/// What `serde_norway` reads out of a stream of documents, up to the first that
/// fails.
pub uninterp spec fn yaml_documents(bytes: Seq<u8>) -> Seq<Seq<TokenModel>>;

/// `serde_norway::Deserializer`, each document read into a
/// `serde_norway::Value` and laid out level by level, until one fails. The bytes
/// that `serde_norway::to_string` wrote of a plain value are one document, read
/// as that value; otherwise the result, a function of the bytes, is only named
/// here.
#[verifier::external_body]
pub(crate) fn read_documents(bytes: &[u8]) -> (r: Vec<Vec<Token>>)
    ensures
        layouts(r@) == yaml_documents(bytes@),
        gives_document(bytes@, layouts(r@)),
{
    serde_norway::Deserializer::from_slice(bytes).map_while(tokens_of).collect()
}

/// What `serde_norway::to_string` writes for a layout.
pub uninterp spec fn yaml_text(pieces: Seq<PieceModel>) -> Result<Seq<char>, YamlFaultModel>;

/// `serde_norway::to_string` of the `serde_norway::Value` that a layout stands
/// for. A plain value is written without a fault; what is written is a function
/// of the layout and only named here.
#[verifier::external_body]
pub(crate) fn write_layout(pieces: Vec<Piece>) -> (r: Result<String, YamlFault>)
    ensures
        yaml_text(piece_models(pieces@)) == (match r {
            Ok(text) => Ok(text@),
            Err(fault) => Err(fault@),
        }),
        r is Err ==> !is_plain_layout(piece_models(pieces@)),
{
    let mut built = Vec::new();
    for piece in pieces.into_iter().rev() {
        let node = match piece {
            Piece::Blank => Null, Piece::Truth(b) => Bool(b), Whole(n) => Number(n.into()),
            Real(s) => from_str(&s).unwrap_or(Null), Piece::Words(s) => Quoted(s),
            Piece::List(n) => Sequence(from_fn(|| built.pop()).take(n).collect()),
            Piece::Table(k) => Table(k.into_iter().map(Quoted).zip(from_fn(|| built.pop())).collect()),
        };
        built.push(node);
    }
    to_string(&built.pop()).map_err(|e| YamlFault { line: 0, col: 0, message: e.to_string() })
}

} // verus!
