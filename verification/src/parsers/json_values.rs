//! Reading JSON into a value tree.

use crate::parsers::json_spelling::spells;
use crate::parsers::json_write::json_string;
use crate::parsers::level_order::level_tokens;
use crate::parsers::tokens::Token::{Blank, List, Numeral, Table, Truth, Words};
use crate::parsers::tokens::{token_models, Token, TokenModel};
use crate::value::Tree;
use serde_json::Value::{Array, Bool, Null, Number, Object, String as Quoted};
use std::collections::VecDeque;
use vstd::prelude::*;
use vstd::utf8::encode_utf8;

verus! {

/// Whether bytes are the JSON string of a text, as the writer has it.
pub open spec fn is_written_string(bytes: Seq<u8>) -> bool {
    exists|s: Seq<char>| bytes == encode_utf8(#[trigger] json_string(s))
}

/// The text whose JSON string these bytes are.
pub open spec fn written_text(bytes: Seq<u8>) -> Seq<char> {
    choose|s: Seq<char>| bytes == encode_utf8(#[trigger] json_string(s))
}

/// What `serde_json` makes of other bytes as a JSON string.
pub uninterp spec fn decoded_string(bytes: Seq<u8>) -> Option<Seq<char>>;

/// The text of a JSON string, quotes included.
pub open spec fn json_string_text(bytes: Seq<u8>) -> Option<Seq<char>> {
    if is_written_string(bytes) {
        Some(written_text(bytes))
    } else {
        decoded_string(bytes)
    }
}

/// `serde_json::from_slice` into a `String`: the text that the bytes stand for,
/// or nothing where they are no JSON string. A text in quotes, escaped as JSON
/// demands, reads as that text; of other bytes the result is only named here.
///
/// In the crate's `read` module, `SliceRead::parse_str_bytes` takes everything up
/// to the closing quote over as it is but for escapes, which `parse_escape` and
/// `parse_unicode_escape` resolve.
#[verifier::external_body]
pub(crate) fn decode_string(bytes: &[u8]) -> (r: Option<String>)
    ensures
        (match r {
            Some(text) => Some(text@),
            None => None,
        }) == (if is_written_string(bytes@) {
            Some(written_text(bytes@))
        } else {
            decoded_string(bytes@)
        }),
{
    serde_json::from_slice::<String>(bytes).ok()
}

/// What `serde_json` objects to: line, column, and its words.
#[derive(Debug)]
pub struct JsonFault {
    /// The 1-based line.
    pub line: usize,
    /// The column.
    pub col: usize,
    /// What is wrong.
    pub message: String,
}

/// What a [`JsonFault`] is, mathematically.
pub struct JsonFaultModel {
    pub line: int,
    pub col: int,
    pub message: Seq<char>,
}

impl View for JsonFault {
    type V = JsonFaultModel;

    open spec fn view(&self) -> JsonFaultModel {
        JsonFaultModel { line: self.line as int, col: self.col as int, message: self.message@ }
    }
}

/// What `serde_json::from_slice` makes of bytes.
pub uninterp spec fn json_tokens(bytes: Seq<u8>) -> Result<Seq<TokenModel>, JsonFaultModel>;

/// `serde_json::from_slice` into a `serde_json::Value`, which keeps the order of
/// keys and the literals of numbers, laid out level by level. Bytes that spell a
/// value without floats, nested no deeper than `serde_json` goes and without
/// the keys that it keeps for itself, are read into that value; of other bytes
/// the result is only named here.
///
/// In the crate's `de` module, `Deserializer::deserialize_any` goes by the first
/// byte of each value, `scan_integer` and `scan_number` collect the literal of a
/// number, and `end_seq` and `end_map` look for the closing bracket.
#[verifier::external_body]
pub(crate) fn read_json(bytes: &[u8]) -> (r: Result<Vec<Token>, JsonFault>)
    ensures
        json_tokens(bytes@) == (match r {
            Ok(tokens) => Ok(token_models(tokens@)),
            Err(fault) => Err(fault@),
        }),
        r is Err ==> forall|t: Tree| !#[trigger] spells(bytes@, t),
        r matches Ok(tokens) ==> forall|t: Tree| #[trigger]
            spells(bytes@, t) ==> token_models(tokens@) == level_tokens(t),
{
    let value = serde_json::from_slice(bytes).map_err(|e| JsonFault {
        line: e.line(), col: e.column(), message: e.to_string() })?;
    let mut queue = VecDeque::from([value]);
    let mut out = Vec::new();
    while let Some(node) = queue.pop_front() {
        out.push(match node {
            Null => Blank, Bool(b) => Truth(b), Number(n) => Numeral(n.to_string()), Quoted(s) => Words(s),
            Array(items) => { let n = items.len(); queue.extend(items); List(n) }
            Object(map) => { let keys = map.keys().cloned().collect(); queue.extend(map.into_values()); Table(keys) }
        });
    }
    Ok(out)
}

} // verus!
