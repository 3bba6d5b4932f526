//! HCL as the structures of a body, and as text.

use crate::error::texts;
use crate::parsers::hcl_nodes::HclNode::{Attribute, Close, Open};
use crate::parsers::hcl_spelling::{gives_attributes, is_hcl_document_layout, no_hcl_objection};
use crate::parsers::layout::Piece::{Real, Whole};
use crate::parsers::layout::{piece_models, Piece, PieceModel};
use crate::parsers::tokens::Token::{Blank, Forms, List, Table, Truth, Words};
use crate::parsers::tokens::{token_models, NumberForms, Token, TokenModel};
use hcl::Value::{Array, Bool, Null, Number, Object, String as Quoted};
use hcl::{to_string, BlockLabel, Body, Number as Numeral, Structure};
use std::collections::VecDeque;
use std::iter::from_fn;
use vstd::prelude::*;

verus! {

/// One step through a body and the blocks in it.
#[derive(Debug)]
pub enum HclNode {
    /// An attribute: its key, and its value laid out.
    Attribute(String, Vec<Token>),
    /// A block starts: its identifier and its labels.
    Open(String, Vec<String>),
    /// A block ends.
    Close,
}

/// What an [`HclNode`] is, mathematically.
pub enum HclModel {
    Attribute(Seq<char>, Seq<TokenModel>),
    Open(Seq<char>, Seq<Seq<char>>),
    Close,
}

impl View for HclNode {
    type V = HclModel;

    open spec fn view(&self) -> HclModel {
        match self {
            HclNode::Attribute(key, tokens) => HclModel::Attribute(key@, token_models(tokens@)),
            HclNode::Open(identifier, labels) => HclModel::Open(identifier@, texts(labels@)),
            HclNode::Close => HclModel::Close,
        }
    }
}

/// The models of a sequence of nodes.
pub open spec fn hcl_models(nodes: Seq<HclNode>) -> Seq<HclModel> {
    Seq::new(nodes.len(), |i: int| nodes[i]@)
}

/// What the reader objects to.
#[derive(Debug)]
pub struct HclFault {
    /// The line and the column, where they are known.
    pub place: Option<(usize, usize)>,
    /// What is wrong.
    pub message: String,
}

/// What an [`HclFault`] is, mathematically.
pub struct HclFaultModel {
    pub place: Option<(usize, usize)>,
    pub message: Seq<char>,
}

impl View for HclFault {
    type V = HclFaultModel;

    open spec fn view(&self) -> HclFaultModel {
        HclFaultModel { place: self.place, message: self.message@ }
    }
}

/// The objection of `hcl::Body` to a text.
pub uninterp spec fn hcl_fault_of(text: Seq<char>) -> Option<HclFaultModel>;

/// The model of an objection.
pub open spec fn hcl_fault_model(r: Option<HclFault>) -> Option<HclFaultModel> {
    match r {
        Some(fault) => Some(fault@),
        None => None,
    }
}

/// `hcl::Body::from_str`, the location and the words of the error it returns.
/// There is no error for what `hcl::to_string` wrote of an object without floats
/// that is nested no deeper than `hcl::Body` goes and whose texts hold no start
/// of a template behind another `$` or `%`; otherwise the result, a function of
/// the text, is only named here.
#[verifier::external_body]
pub(crate) fn find_hcl_fault(text: &str) -> (r: Option<HclFault>)
    ensures
        hcl_fault_of(text@) == hcl_fault_model(r),
        no_hcl_objection(text@, hcl_fault_model(r)),
{
    let fault = text.parse::<Body>().err()?;
    let place = match &fault {
        hcl::Error::Parse(e) => Some((e.location().line(), e.location().column())),
        _ => None,
    };
    Some(HclFault { place, message: fault.to_string() })
}

/// The outside type of what an attribute is set to.
#[verifier::external_type_specification]
#[verifier::external_body]
pub struct ExExpression(hcl::expr::Expression);

/// The `hcl::Value` of an `hcl::Expression`, laid out level by level. A number
/// offers `as_i64`, `is_f64`, the text of `as_f64`, and its own text.
#[verifier::external_body]
fn tokens_of(expr: hcl::expr::Expression) -> Vec<Token> {
    let (mut queue, mut out) = (VecDeque::from([expr.into()]), Vec::new());
    while let Some(node) = queue.pop_front() {
        out.push(match node {
            Null => Blank, Bool(b) => Truth(b), Quoted(s) => Words(s),
            Number(n) => Forms(NumberForms {
                whole: n.as_i64(), float: n.is_f64(), real: n.as_f64().map(|f| f.to_string()),
            }, n.to_string()),
            Array(items) => { let n = items.len(); queue.extend(items); List(n) }
            Object(map) => Table(map.into_iter().map(|(k, v)| { queue.push_back(v); k }).collect()),
        });
    }
    out
}

/// What `hcl::Body` reads out of a text.
pub uninterp spec fn hcl_nodes(text: Seq<char>) -> Seq<HclModel>;

/// `hcl::Body::from_str`, its structures in order, those of a block between its
/// start and its end; none where the text is rejected. What `hcl::to_string`
/// wrote of an object without floats that is nested no deeper than `hcl::Body`
/// goes and whose texts hold no start of a template behind another `$` or `%` is
/// read as attributes, one for each entry, with its value; otherwise the result,
/// a function of the text, is only named here.
#[verifier::external_body]
pub(crate) fn read_hcl_nodes(text: &str) -> (r: Vec<HclNode>)
    ensures
        hcl_models(r@) == hcl_nodes(text@),
        gives_attributes(text@, hcl_models(r@)),
{
    let body = text.parse::<Body>().unwrap_or_default();
    let mut stack = Vec::from_iter(body.into_inner().into_iter().rev().map(Some));
    let mut out = Vec::new();
    while let Some(next) = stack.pop() {
        out.push(match next {
            None => Close,
            Some(Structure::Attribute(a)) => Attribute(a.key.into_inner(), tokens_of(a.expr)),
            Some(Structure::Block(b)) => {
                stack.push(None);
                stack.extend(b.body.into_inner().into_iter().rev().map(Some));
                Open(b.identifier.into_inner(), b.labels.into_iter().map(BlockLabel::into_inner).collect())
            }
        });
    }
    out
}

/// What `hcl::to_string` writes for a layout, or its objection.
pub uninterp spec fn hcl_text(pieces: Seq<PieceModel>) -> Result<Seq<char>, Seq<char>>;

/// `hcl::to_string` of the `hcl::Value` that a layout stands for; a layout names
/// no float that is not finite. An object whose keys are names is written without
/// a fault; what is written is a function of the layout and only named here.
#[verifier::external_body]
pub(crate) fn write_hcl_layout(pieces: Vec<Piece>) -> (r: Result<String, String>)
    ensures
        hcl_text(piece_models(pieces@)) == (match r {
            Ok(text) => Ok(text@),
            Err(message) => Err(message@),
        }),
        r is Err ==> !is_hcl_document_layout(piece_models(pieces@)),
{
    let mut built = Vec::new();
    for piece in pieces.into_iter().rev() {
        let node = match piece {
            Piece::Blank => Null, Piece::Truth(b) => Bool(b), Whole(n) => Number(n.into()),
            Real(s) => s.parse().ok().and_then(Numeral::from_f64).map_or(Null, Number),
            Piece::Words(s) => Quoted(s),
            Piece::List(n) => Array(from_fn(|| built.pop()).take(n).collect()),
            Piece::Table(k) => Object(k.into_iter().zip(from_fn(|| built.pop())).collect()),
        };
        built.push(node);
    }
    to_string(&built.pop().unwrap_or_default()).map_err(|e| e.to_string())
}

} // verus!
