//! A value tree laid out for a writer: each collection before what it holds.

use crate::error::{format_fault, texts, Error, Fault};
use crate::parsers::json_write::{finite_text, is_finite_text};
use crate::parsers::yaml_render::{render_float, yaml_float};
use crate::text::joined;
use crate::value::{lemma_array_view, lemma_object_view, trees, Tree, Value, ValueMap};
use vstd::prelude::*;

verus! {

/// One node of the layout.
#[derive(Debug)]
pub enum Piece {
    /// Nothing.
    Blank,
    /// A truth value.
    Truth(bool),
    /// An integer.
    Whole(i64),
    /// A float, by its text.
    Real(String),
    /// A text.
    Words(String),
    /// A list of that many items, which follow.
    List(usize),
    /// A table with these keys; their values follow.
    Table(Vec<String>),
}

/// What a [`Piece`] is, mathematically.
pub enum PieceModel {
    Blank,
    Truth(bool),
    Whole(int),
    Real(Seq<char>),
    Words(Seq<char>),
    List(nat),
    Table(Seq<Seq<char>>),
}

impl View for Piece {
    type V = PieceModel;

    open spec fn view(&self) -> PieceModel {
        match self {
            Piece::Blank => PieceModel::Blank,
            Piece::Truth(b) => PieceModel::Truth(*b),
            Piece::Whole(n) => PieceModel::Whole(*n as int),
            Piece::Real(s) => PieceModel::Real(s@),
            Piece::Words(s) => PieceModel::Words(s@),
            Piece::List(n) => PieceModel::List(*n as nat),
            Piece::Table(keys) => PieceModel::Table(texts(keys@)),
        }
    }
}

/// The models of a sequence of pieces.
pub open spec fn piece_models(pieces: Seq<Piece>) -> Seq<PieceModel> {
    Seq::new(pieces.len(), |i: int| pieces[i]@)
}

/// Which writer the layout is for.
#[derive(Debug, Clone, Copy, PartialEq, Eq, Structural)]
pub enum Target {
    /// YAML: a number that no 64-bit number stands for is a string.
    Yaml,
    /// TOML: has neither nulls nor such numbers.
    Toml,
    /// HCL: such a number is a string, a float that is not finite is null.
    Hcl,
}

/// A scalar as a piece.
pub open spec fn scalar_piece(target: Target, t: Tree) -> Result<PieceModel, Fault> {
    match t {
        Tree::Null => if target == Target::Toml {
            Err(format_fault("toml"@, "TOML cannot represent null values"@))
        } else {
            Ok(PieceModel::Blank)
        },
        Tree::Bool(b) => Ok(PieceModel::Truth(b)),
        Tree::Int(n) => Ok(PieceModel::Whole(n)),
        Tree::BigInt(s) | Tree::BigFloat(s) => if target == Target::Toml {
            Err(
                format_fault(
                    "toml"@,
                    "TOML cannot represent arbitrary-precision number "@ + s,
                ),
            )
        } else {
            Ok(PieceModel::Words(s))
        },
        Tree::Float(s) => match target {
            Target::Yaml => Ok(PieceModel::Real(yaml_float(s))),
            Target::Toml => Ok(PieceModel::Real(s)),
            Target::Hcl => if is_finite_text(s) {
                Ok(PieceModel::Real(s))
            } else {
                Ok(PieceModel::Blank)
            },
        },
        Tree::String(s) => Ok(PieceModel::Words(s)),
        Tree::Array(_) | Tree::Object(_) => Ok(PieceModel::Blank),
    }
}

/// The keys of entries.
pub open spec fn entry_keys(entries: Seq<(Seq<char>, Tree)>) -> Seq<Seq<char>> {
    Seq::new(entries.len(), |i: int| entries[i].0)
}

/// A value laid out.
pub open spec fn laid_out(target: Target, t: Tree) -> Result<Seq<PieceModel>, Fault>
    decreases t, 0nat,
{
    match t {
        Tree::Array(items) => match laid_out_items(target, items, items.len()) {
            Ok(rest) => Ok(seq![PieceModel::List(items.len())] + rest),
            Err(f) => Err(f),
        },
        Tree::Object(entries) => match laid_out_entries(target, entries, entries.len()) {
            Ok(rest) => Ok(seq![PieceModel::Table(entry_keys(entries))] + rest),
            Err(f) => Err(f),
        },
        _ => match scalar_piece(target, t) {
            Ok(p) => Ok(seq![p]),
            Err(f) => Err(f),
        },
    }
}

/// The first `k` items laid out, one behind the other.
pub open spec fn laid_out_items(target: Target, items: Seq<Tree>, k: nat) -> Result<
    Seq<PieceModel>,
    Fault,
>
    decreases items, k,
{
    if k == 0 || k > items.len() {
        Ok(Seq::empty())
    } else {
        match laid_out_items(target, items, (k - 1) as nat) {
            Err(f) => Err(f),
            Ok(before) => match laid_out(target, items[k - 1]) {
                Ok(one) => Ok(before + one),
                Err(f) => Err(f),
            },
        }
    }
}

/// The values of the first `k` entries laid out, one behind the other.
pub open spec fn laid_out_entries(target: Target, entries: Seq<(Seq<char>, Tree)>, k: nat) -> Result<
    Seq<PieceModel>,
    Fault,
>
    decreases entries, k,
{
    if k == 0 || k > entries.len() {
        Ok(Seq::empty())
    } else {
        match laid_out_entries(target, entries, (k - 1) as nat) {
            Err(f) => Err(f),
            Ok(before) => match laid_out(target, entries[k - 1].1) {
                Ok(one) => Ok(before + one),
                Err(f) => Err(f),
            },
        }
    }
}

fn toml_error(message: String) -> (r: Error)
    ensures
        r@ == format_fault("toml"@, message@),
{
    Error::Format { format: "toml", message }
}

fn lay_out_scalar(target: Target, v: &Value) -> (r: Result<Piece, Error>)
    requires
        !(v is Array),
        !(v is Object),
    ensures
        match (r, scalar_piece(target, v@)) {
            (Ok(p), Ok(m)) => p@ == m,
            (Err(e), Err(f)) => e@ == f,
            _ => false,
        },
{
    match v {
        Value::Null => match target {
            Target::Toml => Err(toml_error("TOML cannot represent null values".to_owned())),
            _ => Ok(Piece::Blank),
        },
        Value::Bool(b) => Ok(Piece::Truth(*b)),
        Value::Int(n) => Ok(Piece::Whole(*n)),
        Value::BigInt(s) | Value::BigFloat(s) => match target {
            Target::Toml => Err(
                toml_error(
                    joined("TOML cannot represent arbitrary-precision number ", s.as_str()),
                ),
            ),
            _ => Ok(Piece::Words(s.clone())),
        },
        Value::Float(s) => match target {
            Target::Yaml => Ok(Piece::Real(render_float(s.as_str()))),
            Target::Toml => Ok(Piece::Real(s.clone())),
            Target::Hcl => if finite_text(s.as_str()) {
                Ok(Piece::Real(s.clone()))
            } else {
                Ok(Piece::Blank)
            },
        },
        Value::String(s) => Ok(Piece::Words(s.clone())),
        Value::Array(_) | Value::Object(_) => Ok(Piece::Blank),
    }
}

/// Whether what was laid out behind `before` is what the model gives.
pub open spec fn added(
    r: Result<(), Error>,
    model: Result<Seq<PieceModel>, Fault>,
    before: Seq<PieceModel>,
    after: Seq<PieceModel>,
) -> bool {
    match (r, model) {
        (Ok(_), Ok(m)) => after == before + m,
        (Err(e), Err(f)) => e@ == f,
        _ => false,
    }
}

fn lay_out_into(target: Target, v: &Value, out: &mut Vec<Piece>) -> (r: Result<(), Error>)
    ensures
        added(r, laid_out(target, v@), piece_models(old(out)@), piece_models(final(out)@)),
    decreases v, 1int,
{
    broadcast use {lemma_array_view, lemma_object_view};

    match v {
        Value::Array(items) => lay_out_list(target, items, out),
        Value::Object(map) => lay_out_table(target, map, out),
        _ => match lay_out_scalar(target, v) {
            Ok(p) => {
                let ghost before = piece_models(out@);
                let ghost shown = p@;
                out.push(p);
                assert(piece_models(out@) =~= before + seq![shown]);
                Ok(())
            },
            Err(e) => Err(e),
        },
    }
}

proof fn lemma_items_fail(target: Target, items: Seq<Tree>, k: nat, n: nat)
    requires
        k <= n <= items.len(),
        laid_out_items(target, items, k) is Err,
    ensures
        laid_out_items(target, items, n) == laid_out_items(target, items, k),
    decreases n - k,
{
    if k < n {
        lemma_items_fail(target, items, k, (n - 1) as nat);
    }
}

proof fn lemma_entries_fail(target: Target, entries: Seq<(Seq<char>, Tree)>, k: nat, n: nat)
    requires
        k <= n <= entries.len(),
        laid_out_entries(target, entries, k) is Err,
    ensures
        laid_out_entries(target, entries, n) == laid_out_entries(target, entries, k),
    decreases n - k,
{
    if k < n {
        lemma_entries_fail(target, entries, k, (n - 1) as nat);
    }
}

fn lay_out_list(target: Target, items: &Vec<Value>, out: &mut Vec<Piece>) -> (r: Result<(), Error>)
    ensures
        added(
            r,
            laid_out(target, Tree::Array(trees(items@))),
            piece_models(old(out)@),
            piece_models(final(out)@),
        ),
    decreases items, 0int,
{
    let ghost all = trees(items@);
    let ghost start = piece_models(out@);
    let ghost head = seq![PieceModel::List(items@.len())];
    out.push(Piece::List(items.len()));
    assert(piece_models(out@) =~= start + head + Seq::<PieceModel>::empty());
    let mut i: usize = 0;
    while i < items.len()
        invariant
            i <= items@.len(),
            all == trees(items@),
            start == piece_models(old(out)@),
            head == seq![PieceModel::List(items@.len())],
            laid_out_items(target, all, i as nat) is Ok,
            piece_models(out@) == start + head + laid_out_items(target, all, i as nat)->Ok_0,
        decreases items@.len() - i,
    {
        let ghost before = laid_out_items(target, all, i as nat)->Ok_0;
        let ghost next = laid_out_items(target, all, (i + 1) as nat);
        assert(all[i as int] == items@[i as int]@);
        assert(decreases_to!(*items => items@));
        assert(decreases_to!(items@ => items@[i as int]));
        match lay_out_into(target, &items[i], out) {
            Ok(()) => {
                assert(piece_models(out@) =~= start + head + next->Ok_0);
            },
            Err(e) => {
                proof {
                    lemma_items_fail(target, all, (i + 1) as nat, all.len());
                }
                return Err(e);
            },
        }
        i += 1;
    }
    assert(piece_models(out@) =~= start + (head + laid_out_items(target, all, all.len())->Ok_0));
    Ok(())
}

fn map_keys(map: &ValueMap) -> (r: Vec<String>)
    ensures
        texts(r@) == entry_keys(map@),
{
    let mut keys: Vec<String> = Vec::new();
    let mut i: usize = 0;
    while i < map.entries.len()
        invariant
            i <= map.entries@.len(),
            keys@.len() == i,
            forall|k: int| 0 <= k < i ==> (#[trigger] keys@[k])@ == map@[k].0,
        decreases map.entries@.len() - i,
    {
        assert(map@[i as int].0 == map.entries@[i as int].0@);
        keys.push(map.entries[i].0.clone());
        i += 1;
    }
    assert(texts(keys@) =~= entry_keys(map@));
    keys
}

fn lay_out_table(target: Target, map: &ValueMap, out: &mut Vec<Piece>) -> (r: Result<(), Error>)
    ensures
        added(
            r,
            laid_out(target, Tree::Object(map@)),
            piece_models(old(out)@),
            piece_models(final(out)@),
        ),
    decreases map, 0int,
{
    let ghost start = piece_models(out@);
    let ghost head = seq![PieceModel::Table(entry_keys(map@))];
    let keys: Vec<String> = map_keys(map);
    out.push(Piece::Table(keys));
    assert(piece_models(out@) =~= start + head + Seq::<PieceModel>::empty());
    let mut i: usize = 0;
    while i < map.entries.len()
        invariant
            i <= map.entries@.len(),
            start == piece_models(old(out)@),
            head == seq![PieceModel::Table(entry_keys(map@))],
            laid_out_entries(target, map@, i as nat) is Ok,
            piece_models(out@) == start + head + laid_out_entries(target, map@, i as nat)->Ok_0,
        decreases map.entries@.len() - i,
    {
        let ghost before = laid_out_entries(target, map@, i as nat)->Ok_0;
        let ghost next = laid_out_entries(target, map@, (i + 1) as nat);
        assert(map@[i as int] == (map.entries@[i as int].0@, map.entries@[i as int].1@));
        assert(decreases_to!(*map => map.entries));
        assert(decreases_to!(map.entries => map.entries@));
        assert(decreases_to!(map.entries@ => map.entries@[i as int]));
        assert(decreases_to!(map.entries@[i as int] => map.entries@[i as int].1));
        match lay_out_into(target, &map.entries[i].1, out) {
            Ok(()) => {
                assert(piece_models(out@) =~= start + head + next->Ok_0);
            },
            Err(e) => {
                proof {
                    lemma_entries_fail(target, map@, (i + 1) as nat, map@.len());
                }
                return Err(e);
            },
        }
        i += 1;
    }
    assert(piece_models(out@) =~= start + (head + laid_out_entries(
        target,
        map@,
        map@.len(),
    )->Ok_0));
    Ok(())
}

/// Lays a value out.
pub fn lay_out(target: Target, v: &Value) -> (r: Result<Vec<Piece>, Error>)
    ensures
        match (r, laid_out(target, v@)) {
            (Ok(pieces), Ok(m)) => piece_models(pieces@) == m,
            (Err(e), Err(f)) => e@ == f,
            _ => false,
        },
{
    let mut out: Vec<Piece> = Vec::new();
    assert(piece_models(out@) =~= Seq::<PieceModel>::empty());
    match lay_out_into(target, v, &mut out) {
        Ok(()) => {
            assert(piece_models(out@) =~= laid_out(target, v@)->Ok_0);
            Ok(out)
        },
        Err(e) => Err(e),
    }
}

} // verus!
