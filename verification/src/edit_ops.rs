//! Edit operations and scripts of them.

use crate::document::{can_del, can_set, del_model, set_model, DocModel, Document};
use crate::error::{Error, Fault};
use crate::pointer::{canonical, parsed_pointer, Pointer, Seg};
use crate::serial::serialised;
use crate::text::same_text;
use crate::value::{lemma_object_view, Tree, Value, ValueMap};
use vstd::prelude::*;
use vstd::std_specs::convert::FromSpecImpl;

verus! {

/// A single edit operation: the `add`, `replace` and `remove` of JSON Patch.
#[derive(Debug, PartialEq)]
pub enum EditOp {
    /// Sets the value at `path`.
    Add {
        /// Target pointer.
        path: Pointer,
        /// Value to set.
        value: Value,
    },
    /// Sets the value at `path`.
    Replace {
        /// Target pointer.
        path: Pointer,
        /// Replacement value.
        value: Value,
    },
    /// Deletes the value at `path`.
    Remove {
        /// Target pointer.
        path: Pointer,
    },
}

/// What an [`EditOp`] is, mathematically.
pub enum Op {
    Add { path: Seq<Seg>, value: Tree },
    Replace { path: Seq<Seg>, value: Tree },
    Remove { path: Seq<Seg> },
}

impl View for EditOp {
    type V = Op;

    open spec fn view(&self) -> Op {
        match self {
            EditOp::Add { path, value } => Op::Add { path: path@, value: value@ },
            EditOp::Replace { path, value } => Op::Replace { path: path@, value: value@ },
            EditOp::Remove { path } => Op::Remove { path: path@ },
        }
    }
}

impl Clone for EditOp {
    fn clone(&self) -> (r: EditOp)
        ensures
            r@ == self@,
    {
        match self {
            EditOp::Add { path, value } => EditOp::Add { path: path.clone(), value: value.clone() },
            EditOp::Replace { path, value } => EditOp::Replace {
                path: path.clone(),
                value: value.clone(),
            },
            EditOp::Remove { path } => EditOp::Remove { path: path.clone() },
        }
    }
}

/// An ordered sequence of operations.
#[derive(Debug, PartialEq)]
pub struct EditScript(Vec<EditOp>);

/// The models of a sequence of operations.
pub open spec fn op_models(ops: Seq<EditOp>) -> Seq<Op> {
    Seq::new(ops.len(), |i: int| ops[i]@)
}

impl View for EditScript {
    type V = Seq<Op>;

    closed spec fn view(&self) -> Seq<Op> {
        op_models(self.0@)
    }
}

impl Clone for EditScript {
    fn clone(&self) -> (r: EditScript)
        ensures
            r@ == self@,
    {
        let mut ops: Vec<EditOp> = Vec::new();
        let mut i: usize = 0;
        while i < self.0.len()
            invariant
                i <= self.0@.len(),
                ops@.len() == i,
                forall|k: int| 0 <= k < i ==> (#[trigger] ops@[k])@ == self.0@[k]@,
            decreases self.0@.len() - i,
        {
            ops.push(self.0[i].clone());
            i += 1;
        }
        assert(op_models(ops@) =~= op_models(self.0@));
        EditScript(ops)
    }
}

impl From<Vec<EditOp>> for EditScript {
    fn from(ops: Vec<EditOp>) -> (r: EditScript)
        ensures
            r@ == op_models(ops@),
    {
        EditScript(ops)
    }
}

impl FromSpecImpl<Vec<EditOp>> for EditScript {
    open spec fn obeys_from_spec() -> bool {
        true
    }

    closed spec fn from_spec(ops: Vec<EditOp>) -> EditScript {
        EditScript(ops)
    }
}

/// A document after one operation, and its outcome.
pub open spec fn op_model(m: DocModel, op: Op) -> (DocModel, Result<(), Fault>) {
    match op {
        Op::Add { path, value } | Op::Replace { path, value } => set_model(m, path, value),
        Op::Remove { path } => del_model(m, path),
    }
}

/// Whether one operation can be applied without leaving the bytes.
pub open spec fn can_op(m: DocModel, op: Op) -> bool {
    match op {
        Op::Add { path, value } | Op::Replace { path, value } => can_set(m, path, value),
        Op::Remove { path } => can_del(m, path),
    }
}

/// A document after a script: every operation in order, up to the first that
/// fails. What came before it stays done.
pub open spec fn script_model(m: DocModel, ops: Seq<Op>) -> (DocModel, Result<(), Fault>)
    decreases ops.len(),
{
    if ops.len() == 0 {
        (m, Ok(()))
    } else {
        let first = op_model(m, ops[0]);
        match first.1 {
            Ok(_) => script_model(first.0, ops.subrange(1, ops.len() as int)),
            Err(f) => (first.0, Err(f)),
        }
    }
}

/// Whether a script can be applied: each operation on what those before it
/// leave.
pub open spec fn can_apply(m: DocModel, ops: Seq<Op>) -> bool
    decreases ops.len(),
{
    ops.len() > 0 ==> can_op(m, ops[0]) && (op_model(m, ops[0]).1 is Ok ==> can_apply(
        op_model(m, ops[0]).0,
        ops.subrange(1, ops.len() as int),
    ))
}

/// Applying one script after another is applying the two joined; where the
/// first one fails, the second is not looked at.
pub proof fn law_scripts_compose(m: DocModel, a: Seq<Op>, b: Seq<Op>)
    ensures
        script_model(m, a).1 is Ok ==> script_model(m, a + b) == script_model(
            script_model(m, a).0,
            b,
        ),
        script_model(m, a).1 is Err ==> script_model(m, a + b) == script_model(m, a),
    decreases a.len(),
{
    if a.len() == 0 {
        assert(a + b =~= b);
    } else {
        let tail = a.subrange(1, a.len() as int);
        assert((a + b).subrange(1, (a + b).len() as int) =~= tail + b);
        if op_model(m, a[0]).1 is Ok {
            law_scripts_compose(op_model(m, a[0]).0, tail, b);
        }
    }
}

/// An operation that fails changes nothing.
pub proof fn law_operations_are_atomic(m: DocModel, op: Op)
    ensures
        op_model(m, op).1 is Err ==> op_model(m, op).0 == m,
{
}

/// Whether a script stops at operation `k`: those before it are done, it fails
/// on what they leave, and that is what the script leaves.
pub open spec fn stops_at(m: DocModel, ops: Seq<Op>, k: int) -> bool {
    let before = script_model(m, ops.subrange(0, k));
    &&& 0 <= k < ops.len()
    &&& before.1 is Ok
    &&& op_model(before.0, ops[k]).1 is Err
    &&& script_model(m, ops) == (before.0, op_model(before.0, ops[k]).1)
}

/// A script that fails leaves what the operations before the failing one have
/// done, and nothing of that one.
pub proof fn law_failed_script_keeps_what_came_before(m: DocModel, ops: Seq<Op>)
    requires
        script_model(m, ops).1 is Err,
    ensures
        exists|k: int| stops_at(m, ops, k),
    decreases ops.len(),
{
    let tail = ops.subrange(1, ops.len() as int);
    let first = op_model(m, ops[0]);
    if first.1 is Err {
        law_operations_are_atomic(m, ops[0]);
        assert(ops.subrange(0, 0) =~= Seq::<Op>::empty());
        assert(stops_at(m, ops, 0));
    } else {
        law_failed_script_keeps_what_came_before(first.0, tail);
        let k = choose|k: int| stops_at(first.0, tail, k);
        let upto = ops.subrange(0, k + 1);
        assert(upto.subrange(1, upto.len() as int) =~= tail.subrange(0, k));
        assert(upto[0] == ops[0]);
        assert(script_model(m, upto) == script_model(first.0, tail.subrange(0, k)));
        assert(ops[k + 1] == tail[k]);
        assert(stops_at(m, ops, k + 1));
    }
}

/// An empty script changes nothing.
pub proof fn law_empty_script_changes_nothing(m: DocModel)
    ensures
        script_model(m, Seq::empty()) == (m, Ok::<(), Fault>(())),
{
}

impl EditScript {
    /// An empty script.
    pub fn new() -> (r: EditScript)
        ensures
            r@ == Seq::<Op>::empty(),
    {
        let r: EditScript = EditScript(Vec::new());
        assert(r@ =~= Seq::<Op>::empty());
        r
    }

    /// A script of the given operations.
    pub fn from_ops(ops: Vec<EditOp>) -> (r: EditScript)
        ensures
            r@ == op_models(ops@),
    {
        EditScript(ops)
    }

    /// The operations, taken out of the script.
    pub fn into_ops(self) -> (r: Vec<EditOp>)
        ensures
            op_models(r@) == self@,
    {
        self.0
    }

    /// Appends an operation.
    pub fn push(&mut self, op: EditOp)
        ensures
            final(self)@ == old(self)@.push(op@),
    {
        self.0.push(op);
        assert(self@ =~= old(self)@.push(op@));
    }

    /// The operations.
    pub fn ops(&self) -> (r: &[EditOp])
        ensures
            op_models(r@) == self@,
    {
        self.0.as_slice()
    }

    /// Whether there is no operation.
    pub fn is_empty(&self) -> (r: bool)
        ensures
            r == (self@.len() == 0),
    {
        self.0.len() == 0
    }

    /// The number of operations.
    pub fn len(&self) -> (r: usize)
        ensures
            r == self@.len(),
    {
        self.0.len()
    }

    /// Whether the script does nothing because it holds no operation. A script
    /// that sets what is already there does not count.
    pub fn is_noop(&self) -> (r: bool)
        ensures
            r == (self@.len() == 0),
    {
        self.0.len() == 0
    }

    /// Applies every operation in order; the first failure stops the script
    /// and leaves what has been done. Each operation is done whole or not at all.
    pub fn apply(&self, doc: &mut Document) -> (r: Result<(), Error>)
        requires
            old(doc)@.wf(),
            can_apply(old(doc)@, self@),
        ensures
            final(doc)@ == script_model(old(doc)@, self@).0,
            match (r, script_model(old(doc)@, self@).1) {
                (Ok(_), Ok(_)) => true,
                (Err(e), Err(f)) => e@ == f,
                _ => false,
            },
            final(doc)@.wf(),
    {
        let mut i: usize = 0;
        assert(self@.subrange(0, self@.len() as int) =~= self@);
        while i < self.0.len()
            invariant
                i <= self.0@.len() == self@.len(),
                self@ == op_models(self.0@),
                doc@.wf(),
                can_apply(doc@, self@.subrange(i as int, self@.len() as int)),
                script_model(old(doc)@, self@) == script_model(
                    doc@,
                    self@.subrange(i as int, self@.len() as int),
                ),
            decreases self.0@.len() - i,
        {
            let ghost rest = self@.subrange(i as int, self@.len() as int);
            assert(rest[0] == self.0@[i as int]@);
            assert(rest.subrange(1, rest.len() as int) =~= self@.subrange(
                i + 1,
                self@.len() as int,
            ));
            let outcome: Result<(), Error> = match &self.0[i] {
                EditOp::Add { path, value } => doc.set_at(path, value.clone()),
                EditOp::Replace { path, value } => doc.set_at(path, value.clone()),
                EditOp::Remove { path } => doc.del_at(path),
            };
            match outcome {
                Ok(_) => {},
                Err(e) => {
                    return Err(e);
                },
            }
            i += 1;
        }
        Ok(())
    }
}

impl Default for EditScript {
    fn default() -> (r: EditScript)
        ensures
            r@ == Seq::<Op>::empty(),
    {
        EditScript::new()
    }
}

// ---------------------------------------------------------------------------
// The JSON Patch form
// ---------------------------------------------------------------------------

/// An operation as a JSON Patch object, its value as any serialiser can hold it.
pub open spec fn op_tree(op: Op) -> Tree {
    match op {
        Op::Add { path, value } => Tree::Object(
            seq![
                ("op"@, Tree::String("add"@)),
                ("path"@, Tree::String(canonical(path))),
                ("value"@, serialised(value)),
            ],
        ),
        Op::Replace { path, value } => Tree::Object(
            seq![
                ("op"@, Tree::String("replace"@)),
                ("path"@, Tree::String(canonical(path))),
                ("value"@, serialised(value)),
            ],
        ),
        Op::Remove { path } => Tree::Object(
            seq![("op"@, Tree::String("remove"@)), ("path"@, Tree::String(canonical(path)))],
        ),
    }
}

impl EditOp {
    /// The operation as a JSON Patch object.
    pub fn to_value(&self) -> (r: Value)
        ensures
            r@ == op_tree(self@),
    {
        broadcast use lemma_object_view;

        let mut entries: Vec<(String, Value)> = Vec::new();
        match self {
            EditOp::Add { path, value } => {
                entries.push(("op".to_owned(), Value::String("add".to_owned())));
                entries.push(("path".to_owned(), Value::String(path.as_canonical())));
                entries.push(("value".to_owned(), value.serial_form()));
            },
            EditOp::Replace { path, value } => {
                entries.push(("op".to_owned(), Value::String("replace".to_owned())));
                entries.push(("path".to_owned(), Value::String(path.as_canonical())));
                entries.push(("value".to_owned(), value.serial_form()));
            },
            EditOp::Remove { path } => {
                entries.push(("op".to_owned(), Value::String("remove".to_owned())));
                entries.push(("path".to_owned(), Value::String(path.as_canonical())));
            },
        }
        let map: ValueMap = ValueMap { entries };
        assert(map@ =~= op_tree(self@)->Object_0);
        Value::Object(map)
    }
}

/// Why a JSON Patch object is not an operation.
#[derive(Debug)]
pub enum OpError {
    /// A field occurs twice.
    DuplicateField(&'static str),
    /// A field is not one of `op`, `path` and `value`.
    UnknownField(String),
    /// A field is missing.
    MissingField(&'static str),
    /// The path is not a pointer.
    InvalidPointer(Error),
    /// The operation is not one of `add`, `replace` and `remove`.
    UnsupportedOp(String),
    /// A value of another type was expected.
    InvalidType(&'static str),
}

/// What an [`OpError`] is, mathematically.
pub enum OpFault {
    DuplicateField(Seq<char>),
    UnknownField(Seq<char>),
    MissingField(Seq<char>),
    InvalidPointer(Fault),
    UnsupportedOp(Seq<char>),
    InvalidType(Seq<char>),
}

impl View for OpError {
    type V = OpFault;

    open spec fn view(&self) -> OpFault {
        match self {
            OpError::DuplicateField(name) => OpFault::DuplicateField(name@),
            OpError::UnknownField(name) => OpFault::UnknownField(name@),
            OpError::MissingField(name) => OpFault::MissingField(name@),
            OpError::InvalidPointer(e) => OpFault::InvalidPointer(e@),
            OpError::UnsupportedOp(name) => OpFault::UnsupportedOp(name@),
            OpError::InvalidType(expected) => OpFault::InvalidType(expected@),
        }
    }
}

/// The fields of a JSON Patch object, as far as they have been read.
#[derive(Debug)]
pub struct OpFields {
    /// The operation's name.
    pub op: Option<String>,
    /// The written pointer.
    pub path: Option<String>,
    /// The value.
    pub value: Option<Value>,
    /// Whether a `from` field was seen.
    pub from_seen: bool,
}

/// Which field a key names.
#[derive(Debug, Clone, Copy, PartialEq, Eq, Structural)]
pub enum OpField {
    /// `op`.
    Op,
    /// `path`.
    Path,
    /// `value`.
    Value,
    /// `from`, whose value is not looked at.
    From,
}

/// What [`OpFields`] are, mathematically.
pub struct OpFieldsModel {
    pub op: Option<Seq<char>>,
    pub path: Option<Seq<char>>,
    pub value: Option<Tree>,
    pub from_seen: bool,
}

impl View for OpFields {
    type V = OpFieldsModel;

    open spec fn view(&self) -> OpFieldsModel {
        OpFieldsModel {
            op: match self.op {
                Some(s) => Some(s@),
                None => None,
            },
            path: match self.path {
                Some(s) => Some(s@),
                None => None,
            },
            value: match self.value {
                Some(v) => Some(v@),
                None => None,
            },
            from_seen: self.from_seen,
        }
    }
}

/// Which field comes next, or why there may be none of that name.
pub open spec fn next_field(m: OpFieldsModel, key: Seq<char>) -> Result<OpField, OpFault> {
    if key == "op"@ {
        if m.op is Some {
            Err(OpFault::DuplicateField("op"@))
        } else {
            Ok(OpField::Op)
        }
    } else if key == "path"@ {
        if m.path is Some {
            Err(OpFault::DuplicateField("path"@))
        } else {
            Ok(OpField::Path)
        }
    } else if key == "value"@ {
        if m.value is Some {
            Err(OpFault::DuplicateField("value"@))
        } else {
            Ok(OpField::Value)
        }
    } else if key == "from"@ {
        Ok(OpField::From)
    } else {
        Err(OpFault::UnknownField(key))
    }
}

/// The pointer of an operation.
pub open spec fn op_path(m: OpFieldsModel) -> Result<Seq<Seg>, OpFault> {
    match m.path {
        None => Err(OpFault::MissingField("path"@)),
        Some(text) => match parsed_pointer(text) {
            Ok(p) => Ok(p),
            Err(f) => Err(OpFault::InvalidPointer(f)),
        },
    }
}

/// The operation that the fields make up. An unsupported one is named even
/// where a `from` field goes with it; a supported one may have none.
pub open spec fn op_of(m: OpFieldsModel) -> Result<Op, OpFault> {
    match m.op {
        None => Err(OpFault::MissingField("op"@)),
        Some(name) => if name != "add"@ && name != "replace"@ && name != "remove"@ {
            Err(OpFault::UnsupportedOp(name))
        } else if m.from_seen {
            Err(OpFault::UnknownField("from"@))
        } else {
            match op_path(m) {
                Err(f) => Err(f),
                Ok(path) => if name == "remove"@ {
                    Ok(Op::Remove { path })
                } else {
                    match m.value {
                        None => Err(OpFault::MissingField("value"@)),
                        Some(value) => if name == "add"@ {
                            Ok(Op::Add { path, value })
                        } else {
                            Ok(Op::Replace { path, value })
                        },
                    }
                },
            }
        },
    }
}

impl OpFields {
    /// No field yet.
    pub fn new() -> (r: OpFields)
        ensures
            r@ == (OpFieldsModel { op: None, path: None, value: None, from_seen: false }),
    {
        OpFields { op: None, path: None, value: None, from_seen: false }
    }

    /// Which field the key names, before its value is read.
    pub fn field(&self, key: &str) -> (r: Result<OpField, OpError>)
        ensures
            match (r, next_field(self@, key@)) {
                (Ok(f), Ok(g)) => f == g,
                (Err(e), Err(f)) => e@ == f,
                _ => false,
            },
    {
        if same_text(key, "op") {
            if self.op.is_some() {
                Err(OpError::DuplicateField("op"))
            } else {
                Ok(OpField::Op)
            }
        } else if same_text(key, "path") {
            if self.path.is_some() {
                Err(OpError::DuplicateField("path"))
            } else {
                Ok(OpField::Path)
            }
        } else if same_text(key, "value") {
            if self.value.is_some() {
                Err(OpError::DuplicateField("value"))
            } else {
                Ok(OpField::Value)
            }
        } else if same_text(key, "from") {
            Ok(OpField::From)
        } else {
            Err(OpError::UnknownField(key.to_owned()))
        }
    }

    /// Puts the operation together once all fields have been read.
    pub fn finish(self) -> (r: Result<EditOp, OpError>)
        ensures
            match (r, op_of(self@)) {
                (Ok(op), Ok(m)) => op@ == m,
                (Err(e), Err(f)) => e@ == f,
                _ => false,
            },
    {
        let name: String = match self.op {
            Some(name) => name,
            None => {
                return Err(OpError::MissingField("op"));
            },
        };
        let add: bool = same_text(name.as_str(), "add");
        let replace: bool = same_text(name.as_str(), "replace");
        let remove: bool = same_text(name.as_str(), "remove");
        if !add && !replace && !remove {
            return Err(OpError::UnsupportedOp(name));
        }
        if self.from_seen {
            return Err(OpError::UnknownField("from".to_owned()));
        }
        let text: String = match self.path {
            Some(text) => text,
            None => {
                return Err(OpError::MissingField("path"));
            },
        };
        let path: Pointer = match Pointer::parse(text.as_str()) {
            Ok(path) => path,
            Err(e) => {
                return Err(OpError::InvalidPointer(e));
            },
        };
        if remove {
            return Ok(EditOp::Remove { path });
        }
        match self.value {
            None => Err(OpError::MissingField("value")),
            Some(value) => {
                if add {
                    Ok(EditOp::Add { path, value })
                } else {
                    Ok(EditOp::Replace { path, value })
                }
            },
        }
    }
}

/// Reading back what was written: the fields of a written operation give it
/// again, with each index of its pointer as digits.
pub proof fn law_op_reads_back(op: Op)
    requires
        match op {
            Op::Add { path, .. } | Op::Replace { path, .. } | Op::Remove { path } => {
                crate::pointer::no_empty_key(path)
            },
        },
    ensures
        match op {
            Op::Add { path, value } => op_of(
                OpFieldsModel {
                    op: Some("add"@),
                    path: Some(canonical(path)),
                    value: Some(value),
                    from_seen: false,
                },
            ) == Ok::<Op, OpFault>(Op::Add { path: crate::pointer::keyed(path), value }),
            Op::Replace { path, value } => op_of(
                OpFieldsModel {
                    op: Some("replace"@),
                    path: Some(canonical(path)),
                    value: Some(value),
                    from_seen: false,
                },
            ) == Ok::<Op, OpFault>(Op::Replace { path: crate::pointer::keyed(path), value }),
            Op::Remove { path } => op_of(
                OpFieldsModel {
                    op: Some("remove"@),
                    path: Some(canonical(path)),
                    value: None,
                    from_seen: false,
                },
            ) == Ok::<Op, OpFault>(Op::Remove { path: crate::pointer::keyed(path) }),
        },
{
    reveal_strlit("add");
    reveal_strlit("replace");
    reveal_strlit("remove");
    assert("replace"@[2] != "remove"@[2]);
    match op {
        Op::Add { path, .. } | Op::Replace { path, .. } | Op::Remove { path } => {
            crate::pointer::law_parse_canonical(path);
        },
    }
}

} // verus!
