//! Edit operations in the form of JSON Patch: objects with `op`, `path` and
//! `value`, and scripts as arrays of them.

use crate::display::fault_text;
use crate::edit_ops::{
    law_op_reads_back, next_field, op_models, op_of, op_tree, EditOp, EditScript, Op, OpError,
    OpFault, OpField, OpFields, OpFieldsModel,
};
use crate::pointer::{keyed, no_empty_key};
use crate::serial::serialised;
use crate::text::joined;
use crate::value::{lemma_array_view, lemma_object_view, trees, Tree, Value, ValueMap};
use vstd::prelude::*;

verus! {

/// The fields after one more.
pub open spec fn field_read(m: OpFieldsModel, key: Seq<char>, value: Tree) -> Result<
    OpFieldsModel,
    OpFault,
> {
    match next_field(m, key) {
        Err(f) => Err(f),
        Ok(OpField::Op) => match value {
            Tree::String(s) => Ok(OpFieldsModel { op: Some(s), ..m }),
            _ => Err(OpFault::InvalidType("a string"@)),
        },
        Ok(OpField::Path) => match value {
            Tree::String(s) => Ok(OpFieldsModel { path: Some(s), ..m }),
            _ => Err(OpFault::InvalidType("a string"@)),
        },
        Ok(OpField::Value) => Ok(OpFieldsModel { value: Some(value), ..m }),
        Ok(OpField::From) => Ok(OpFieldsModel { from_seen: true, ..m }),
    }
}

/// No field yet.
pub open spec fn no_fields() -> OpFieldsModel {
    OpFieldsModel { op: None, path: None, value: None, from_seen: false }
}

/// The first `k` fields.
pub open spec fn fields_read(entries: Seq<(Seq<char>, Tree)>, k: int) -> Result<
    OpFieldsModel,
    OpFault,
>
    decreases k,
{
    if k <= 0 {
        Ok(no_fields())
    } else {
        match fields_read(entries, k - 1) {
            Err(f) => Err(f),
            Ok(m) => field_read(m, entries[k - 1].0, entries[k - 1].1),
        }
    }
}

/// The operation that a value stands for.
pub open spec fn op_from(t: Tree) -> Result<Op, OpFault> {
    match t {
        Tree::Object(entries) => match fields_read(entries, entries.len() as int) {
            Ok(m) => op_of(m),
            Err(f) => Err(f),
        },
        _ => Err(
            OpFault::InvalidType(
                "a JSON Patch (RFC 6902) operation object with op = add | replace | remove"@,
            ),
        ),
    }
}

/// The first `k` operations of a script.
pub open spec fn ops_from(items: Seq<Tree>, k: int) -> Result<Seq<Op>, OpFault>
    decreases k,
{
    if k <= 0 {
        Ok(Seq::empty())
    } else {
        match ops_from(items, k - 1) {
            Err(f) => Err(f),
            Ok(before) => match op_from(items[k - 1]) {
                Ok(op) => Ok(before.push(op)),
                Err(f) => Err(f),
            },
        }
    }
}

/// The script that a value stands for.
pub open spec fn script_from(t: Tree) -> Result<Seq<Op>, OpFault> {
    match t {
        Tree::Array(items) => ops_from(items, items.len() as int),
        _ => Err(OpFault::InvalidType("a sequence"@)),
    }
}

/// A script as a value.
pub open spec fn script_tree(ops: Seq<Op>) -> Tree {
    Tree::Array(Seq::new(ops.len(), |i: int| op_tree(ops[i])))
}

fn read_field(fields: &mut OpFields, key: &str, value: &Value) -> (r: Result<(), OpError>)
    ensures
        match (r, field_read(old(fields)@, key@, value@)) {
            (Ok(_), Ok(m)) => final(fields)@ == m,
            (Err(e), Err(f)) => e@ == f,
            _ => false,
        },
{
    match fields.field(key) {
        Err(e) => Err(e),
        Ok(OpField::Op) => match value {
            Value::String(s) => {
                fields.op = Some(s.clone());
                Ok(())
            },
            _ => Err(OpError::InvalidType("a string")),
        },
        Ok(OpField::Path) => match value {
            Value::String(s) => {
                fields.path = Some(s.clone());
                Ok(())
            },
            _ => Err(OpError::InvalidType("a string")),
        },
        Ok(OpField::Value) => {
            fields.value = Some(value.clone());
            Ok(())
        },
        Ok(OpField::From) => {
            fields.from_seen = true;
            Ok(())
        },
    }
}

proof fn lemma_fields_fail(entries: Seq<(Seq<char>, Tree)>, k: int, n: int)
    requires
        0 <= k <= n,
        fields_read(entries, k) is Err,
    ensures
        fields_read(entries, n) == fields_read(entries, k),
    decreases n - k,
{
    if k < n {
        lemma_fields_fail(entries, k, n - 1);
    }
}

fn read_fields(map: &ValueMap) -> (r: Result<OpFields, OpError>)
    ensures
        match (r, fields_read(map@, map@.len() as int)) {
            (Ok(fields), Ok(m)) => fields@ == m,
            (Err(e), Err(f)) => e@ == f,
            _ => false,
        },
{
    let mut fields: OpFields = OpFields::new();
    let mut i: usize = 0;
    while i < map.entries.len()
        invariant
            i <= map.entries@.len(),
            fields_read(map@, i as int) == Ok::<_, OpFault>(fields@),
        decreases map.entries@.len() - i,
    {
        assert(map@[i as int] == (map.entries@[i as int].0@, map.entries@[i as int].1@));
        let ghost next = fields_read(map@, i + 1);
        match read_field(&mut fields, map.entries[i].0.as_str(), &map.entries[i].1) {
            Ok(()) => {},
            Err(e) => {
                proof {
                    lemma_fields_fail(map@, i + 1, map@.len() as int);
                }
                return Err(e);
            },
        }
        i += 1;
    }
    Ok(fields)
}

impl EditOp {
    /// Reads an operation from a JSON Patch object.
    pub fn from_value(v: &Value) -> (r: Result<EditOp, OpError>)
        ensures
            match (r, op_from(v@)) {
                (Ok(op), Ok(m)) => op@ == m,
                (Err(e), Err(f)) => e@ == f,
                _ => false,
            },
    {
        match v {
            Value::Object(map) => {
                proof {
                    lemma_object_view(*map);
                }
                match read_fields(map) {
                    Ok(fields) => fields.finish(),
                    Err(e) => Err(e),
                }
            },
            _ => Err(
                OpError::InvalidType(
                    "a JSON Patch (RFC 6902) operation object with op = add | replace | remove",
                ),
            ),
        }
    }
}

proof fn lemma_ops_fail(items: Seq<Tree>, k: int, n: int)
    requires
        0 <= k <= n,
        ops_from(items, k) is Err,
    ensures
        ops_from(items, n) == ops_from(items, k),
    decreases n - k,
{
    if k < n {
        lemma_ops_fail(items, k, n - 1);
    }
}

fn read_ops(items: &Vec<Value>) -> (r: Result<Vec<EditOp>, OpError>)
    ensures
        match (r, ops_from(trees(items@), items@.len() as int)) {
            (Ok(ops), Ok(m)) => op_models(ops@) == m,
            (Err(e), Err(f)) => e@ == f,
            _ => false,
        },
{
    let ghost all = trees(items@);
    let mut ops: Vec<EditOp> = Vec::new();
    assert(op_models(ops@) =~= Seq::<Op>::empty());
    let mut i: usize = 0;
    while i < items.len()
        invariant
            i <= items@.len() == all.len(),
            all == trees(items@),
            ops_from(all, i as int) == Ok::<_, OpFault>(op_models(ops@)),
        decreases items@.len() - i,
    {
        assert(all[i as int] == items@[i as int]@);
        let ghost before = op_models(ops@);
        let ghost next = ops_from(all, i + 1);
        match EditOp::from_value(&items[i]) {
            Ok(op) => {
                let ghost shown = op@;
                ops.push(op);
                assert(op_models(ops@) =~= before.push(shown));
            },
            Err(e) => {
                proof {
                    lemma_ops_fail(all, i + 1, all.len() as int);
                }
                return Err(e);
            },
        }
        i += 1;
    }
    Ok(ops)
}

impl EditScript {
    /// Reads a script from an array of JSON Patch objects.
    pub fn from_value(v: &Value) -> (r: Result<EditScript, OpError>)
        ensures
            match (r, script_from(v@)) {
                (Ok(script), Ok(m)) => script@ == m,
                (Err(e), Err(f)) => e@ == f,
                _ => false,
            },
    {
        match v {
            Value::Array(items) => {
                proof {
                    lemma_array_view(*items);
                }
                match read_ops(items) {
                    Ok(ops) => Ok(EditScript::from_ops(ops)),
                    Err(e) => Err(e),
                }
            },
            _ => Err(OpError::InvalidType("a sequence")),
        }
    }

    /// The script as an array of JSON Patch objects.
    pub fn to_value(&self) -> (r: Value)
        ensures
            r@ == script_tree(self@),
    {
        let ops: &[EditOp] = self.ops();
        let mut items: Vec<Value> = Vec::new();
        let mut i: usize = 0;
        while i < ops.len()
            invariant
                i <= ops@.len(),
                items@.len() == i,
                forall|k: int| 0 <= k < i ==> (#[trigger] items@[k])@ == op_tree(ops@[k]@),
            decreases ops@.len() - i,
        {
            items.push(ops[i].to_value());
            i += 1;
        }
        proof {
            lemma_array_view(items);
            assert(trees(items@) =~= script_tree(self@)->Array_0);
        }
        Value::Array(items)
    }
}

/// An objection in words.
pub open spec fn op_fault_text(f: OpFault) -> Seq<char> {
    match f {
        OpFault::DuplicateField(name) => "duplicate field `"@ + name + "`"@,
        OpFault::UnknownField(name) => "unknown field `"@ + name
            + "`, expected one of `op`, `path`, `value`"@,
        OpFault::MissingField(name) => "missing field `"@ + name + "`"@,
        OpFault::InvalidPointer(inner) => "invalid pointer: "@ + fault_text(inner),
        OpFault::UnsupportedOp(name) => "unsupported op `"@ + name
            + "`; only add/replace/remove are accepted"@,
        OpFault::InvalidType(expected) => "invalid type, expected "@ + expected,
    }
}

impl OpError {
    /// The objection in words.
    pub fn to_text(&self) -> (r: String)
        ensures
            r@ == op_fault_text(self@),
    {
        match self {
            OpError::DuplicateField(name) => {
                let mut out: String = joined("duplicate field `", name);
                out.push_str("`");
                out
            },
            OpError::UnknownField(name) => {
                let mut out: String = joined("unknown field `", name.as_str());
                out.push_str("`, expected one of `op`, `path`, `value`");
                out
            },
            OpError::MissingField(name) => {
                let mut out: String = joined("missing field `", name);
                out.push_str("`");
                out
            },
            OpError::InvalidPointer(inner) => joined(
                "invalid pointer: ",
                inner.to_text().as_str(),
            ),
            OpError::UnsupportedOp(name) => {
                let mut out: String = joined("unsupported op `", name.as_str());
                out.push_str("`; only add/replace/remove are accepted");
                out
            },
            OpError::InvalidType(expected) => joined("invalid type, expected ", expected),
        }
    }
}

/// The operation as its written form reads: each index of its pointer is a key
/// of digits, and each number beyond 64 bits in its value is a text.
pub open spec fn keyed_op(op: Op) -> Op {
    match op {
        Op::Add { path, value } => Op::Add { path: keyed(path), value: serialised(value) },
        Op::Replace { path, value } => Op::Replace { path: keyed(path), value: serialised(value) },
        Op::Remove { path } => Op::Remove { path: keyed(path) },
    }
}

/// The pointer of an operation.
pub open spec fn path_of(op: Op) -> Seq<crate::pointer::Seg> {
    match op {
        Op::Add { path, .. } => path,
        Op::Replace { path, .. } => path,
        Op::Remove { path } => path,
    }
}

/// The operation with its value as a serialiser holds it.
spec fn serialised_op(op: Op) -> Op {
    match op {
        Op::Add { path, value } => Op::Add { path, value: serialised(value) },
        Op::Replace { path, value } => Op::Replace { path, value: serialised(value) },
        Op::Remove { path } => op,
    }
}

/// An operation reads back from the object that it is written as, each index of
/// its pointer as a key of digits, and each number beyond 64 bits as a text.
pub proof fn law_written_op_reads_back(op: Op)
    requires
        no_empty_key(path_of(op)),
    ensures
        op_from(op_tree(op)) == Ok::<Op, OpFault>(keyed_op(op)),
{
    reveal_strlit("op");
    reveal_strlit("path");
    reveal_strlit("value");
    assert("op"@.len() == 2 && "path"@.len() == 4 && "value"@.len() == 5);
    law_op_reads_back(serialised_op(op));
    let entries = op_tree(op)->Object_0;
    let zero = fields_read(entries, 0);
    let one = fields_read(entries, 1);
    let two = fields_read(entries, 2);
    assert(one is Ok && two is Ok);
    if !(op is Remove) {
        let three = fields_read(entries, 3);
        assert(three is Ok);
    }
}

/// A script reads back from the array that it is written as, operation by
/// operation.
pub proof fn law_written_script_reads_back(ops: Seq<Op>)
    requires
        forall|i: int| 0 <= i < ops.len() ==> no_empty_key(#[trigger] path_of(ops[i])),
    ensures
        script_from(script_tree(ops)) == Ok::<Seq<Op>, OpFault>(
            Seq::new(ops.len(), |i: int| keyed_op(ops[i])),
        ),
{
    let items = script_tree(ops)->Array_0;
    lemma_ops_read_back(ops, items, ops.len() as int);
    assert(Seq::new(ops.len(), |i: int| keyed_op(ops[i])) =~= ops_from(
        items,
        ops.len() as int,
    )->Ok_0);
}

proof fn lemma_ops_read_back(ops: Seq<Op>, items: Seq<Tree>, k: int)
    requires
        0 <= k <= ops.len() == items.len(),
        forall|i: int| 0 <= i < ops.len() ==> items[i] == op_tree(ops[i]),
        forall|i: int| 0 <= i < ops.len() ==> no_empty_key(#[trigger] path_of(ops[i])),
    ensures
        ops_from(items, k) is Ok,
        ops_from(items, k)->Ok_0.len() == k,
        forall|i: int| 0 <= i < k ==> #[trigger] ops_from(items, k)->Ok_0[i] == keyed_op(ops[i]),
    decreases k,
{
    if k > 0 {
        lemma_ops_read_back(ops, items, k - 1);
        assert(no_empty_key(path_of(ops[k - 1])));
        law_written_op_reads_back(ops[k - 1]);
    }
}

} // verus!
