//! The value tree that every format is read into, and its mathematical model.

use crate::numbers::{signed_decimal, signed_text};
use crate::text::same_text;
use vstd::prelude::*;

verus! {

/// A single value node within a parsed document.
#[derive(Debug)]
pub enum Value {
    /// JSON `null`, YAML `~`/`null`; TOML has no equivalent.
    Null,
    /// Boolean.
    Bool(bool),
    /// Signed 64-bit integer: anything that fits in `i64`.
    Int(i64),
    /// Integer that does not fit in `i64`, as its textual literal.
    BigInt(String),
    /// 64-bit float, as the shortest text that reads back to the same number
    /// (`1`, `3.5`, `NaN`, `inf`, `-inf`).
    Float(String),
    /// Float that no finite 64-bit float stands for, as its textual literal.
    BigFloat(String),
    /// String.
    String(String),
    /// Sequence of values.
    Array(Vec<Value>),
    /// Mapping from string key to value, in insertion order.
    Object(ValueMap),
}

/// A mapping from string keys to values that keeps insertion order.
#[derive(Debug)]
pub struct ValueMap {
    /// The entries, in order. No key occurs twice in a well-formed map.
    pub entries: Vec<(String, Value)>,
}

/// What a [`Value`] is, mathematically.
pub enum Tree {
    Null,
    Bool(bool),
    Int(int),
    BigInt(Seq<char>),
    Float(Seq<char>),
    BigFloat(Seq<char>),
    String(Seq<char>),
    Array(Seq<Tree>),
    Object(Seq<(Seq<char>, Tree)>),
}

impl View for Value {
    type V = Tree;

    open spec fn view(&self) -> Tree
        decreases self,
    {
        match self {
            Value::Null => Tree::Null,
            Value::Bool(b) => Tree::Bool(*b),
            Value::Int(n) => Tree::Int(*n as int),
            Value::BigInt(s) => Tree::BigInt(s@),
            Value::Float(s) => Tree::Float(s@),
            Value::BigFloat(s) => Tree::BigFloat(s@),
            Value::String(s) => Tree::String(s@),
            Value::Array(items) => Tree::Array(
                Seq::new(
                    items@.len(),
                    |i: int|
                        if 0 <= i < items@.len() {
                            items@[i].view()
                        } else {
                            Tree::Null
                        },
                ),
            ),
            Value::Object(map) => Tree::Object(
                Seq::new(
                    map.entries@.len(),
                    |i: int|
                        (
                            map.entries@[i].0@,
                            if 0 <= i < map.entries@.len() {
                                map.entries@[i].1.view()
                            } else {
                                Tree::Null
                            },
                        ),
                ),
            ),
        }
    }
}

impl View for ValueMap {
    type V = Seq<(Seq<char>, Tree)>;

    open spec fn view(&self) -> Seq<(Seq<char>, Tree)> {
        entry_trees(self.entries@)
    }
}

/// The models of a sequence of values.
pub open spec fn trees(items: Seq<Value>) -> Seq<Tree> {
    Seq::new(items.len(), |i: int| items[i]@)
}

/// The models of a sequence of entries.
pub open spec fn entry_trees(entries: Seq<(String, Value)>) -> Seq<(Seq<char>, Tree)> {
    Seq::new(entries.len(), |i: int| (entries[i].0@, entries[i].1@))
}

/// The model of an array is the sequence of its items' models.
pub broadcast proof fn lemma_array_view(items: Vec<Value>)
    ensures
        #[trigger] (Value::Array(items))@ == Tree::Array(trees(items@)),
{
    assert((Value::Array(items))@->Array_0 =~= trees(items@));
}

/// The model of an object is the model of its map.
pub broadcast proof fn lemma_object_view(map: ValueMap)
    ensures
        #[trigger] (Value::Object(map))@ == Tree::Object(map@),
{
    assert((Value::Object(map))@->Object_0 =~= map@);
}

// ---------------------------------------------------------------------------
// Ordered maps
// ---------------------------------------------------------------------------

/// The position of the first entry with `key`, or the number of entries where
/// there is none.
pub open spec fn key_index<T>(entries: Seq<(Seq<char>, T)>, key: Seq<char>) -> int
    decreases entries.len(),
{
    if entries.len() == 0 {
        0
    } else if entries[0].0 == key {
        0
    } else {
        1 + key_index(entries.subrange(1, entries.len() as int), key)
    }
}

/// Whether `key` has an entry.
pub open spec fn has_key<T>(entries: Seq<(Seq<char>, T)>, key: Seq<char>) -> bool {
    key_index(entries, key) < entries.len()
}

/// The value under `key`.
pub open spec fn lookup<T>(entries: Seq<(Seq<char>, T)>, key: Seq<char>) -> Option<T> {
    if has_key(entries, key) {
        Some(entries[key_index(entries, key)].1)
    } else {
        None
    }
}

/// The entries with `value` under `key`: in the place of the old one where
/// there was one, at the end where there was none.
pub open spec fn inserted<T>(
    entries: Seq<(Seq<char>, T)>,
    key: Seq<char>,
    value: T,
) -> Seq<(Seq<char>, T)> {
    if has_key(entries, key) {
        entries.update(key_index(entries, key), (key, value))
    } else {
        entries.push((key, value))
    }
}

/// The entries without the one under `key`; the others keep their order.
pub open spec fn removed<T>(entries: Seq<(Seq<char>, T)>, key: Seq<char>) -> Seq<(Seq<char>, T)> {
    if has_key(entries, key) {
        entries.remove(key_index(entries, key))
    } else {
        entries
    }
}

/// Whether no key occurs twice.
pub open spec fn unique_keys<T>(entries: Seq<(Seq<char>, T)>) -> bool {
    forall|i: int, j: int|
        0 <= i < j < entries.len() ==> (#[trigger] entries[i]).0 != (#[trigger] entries[j]).0
}

/// What `key_index` means.
pub proof fn lemma_key_index<T>(entries: Seq<(Seq<char>, T)>, key: Seq<char>)
    ensures
        0 <= key_index(entries, key) <= entries.len(),
        has_key(entries, key) ==> entries[key_index(entries, key)].0 == key,
        forall|k: int|
            0 <= k < key_index(entries, key) ==> (#[trigger] entries[k]).0 != key,
    decreases entries.len(),
{
    if entries.len() > 0 && entries[0].0 != key {
        let rest = entries.subrange(1, entries.len() as int);
        lemma_key_index(rest, key);
        assert forall|k: int| 0 <= k < key_index(entries, key) implies (
        #[trigger] entries[k]).0 != key by {
            if k > 0 {
                assert(rest[k - 1] == entries[k]);
            }
        }
    }
}

/// The first entry with a key is the one that no earlier entry shares it with.
pub proof fn lemma_key_index_is<T>(entries: Seq<(Seq<char>, T)>, key: Seq<char>, at: int)
    requires
        0 <= at <= entries.len(),
        at < entries.len() ==> entries[at].0 == key,
        forall|k: int| 0 <= k < at ==> (#[trigger] entries[k]).0 != key,
    ensures
        key_index(entries, key) == at,
{
    lemma_key_index(entries, key);
    let found = key_index(entries, key);
    if found < at {
        assert(entries[found].0 != key);
    } else if at < found {
        assert(entries[at].0 != key);
    }
}

/// A read after a write gives back what was written, and leaves the rest.
pub proof fn law_insert_lookup<T>(
    entries: Seq<(Seq<char>, T)>,
    key: Seq<char>,
    value: T,
    other: Seq<char>,
)
    ensures
        lookup(inserted(entries, key, value), key) == Some(value),
        other != key ==> lookup(inserted(entries, key, value), other) == lookup(entries, other),
{
    let after = inserted(entries, key, value);
    let at = key_index(entries, key);
    lemma_key_index(entries, key);
    lemma_key_index_is(after, key, at);
    if other != key {
        let o = key_index(entries, other);
        lemma_key_index(entries, other);
        if o < entries.len() {
            assert(o != at);
            lemma_key_index_is(after, other, o);
        } else {
            assert forall|k: int| 0 <= k < after.len() implies (#[trigger] after[k]).0 != other by {
                if k < entries.len() && k != at {
                    assert(entries[k].0 != other);
                }
            }
            lemma_key_index_is(after, other, after.len() as int);
        }
    }
}

/// Inserting keeps every key unique.
pub proof fn law_insert_keeps_keys_unique<T>(
    entries: Seq<(Seq<char>, T)>,
    key: Seq<char>,
    value: T,
)
    requires
        unique_keys(entries),
    ensures
        unique_keys(inserted(entries, key, value)),
{
    lemma_key_index(entries, key);
    let after = inserted(entries, key, value);
    assert forall|i: int, j: int| 0 <= i < j < after.len() implies (#[trigger] after[i]).0 != (
    #[trigger] after[j]).0 by {
        if has_key(entries, key) {
            assert(after[i].0 == entries[i].0);
            assert(after[j].0 == entries[j].0);
        } else {
            assert(after[i] == entries[i]);
            if j < entries.len() {
                assert(after[j] == entries[j]);
            }
        }
    }
}

/// Removing a key from a map without duplicates leaves no entry under it, and
/// leaves every other key as it was.
pub proof fn law_remove_lookup<T>(entries: Seq<(Seq<char>, T)>, key: Seq<char>, other: Seq<char>)
    requires
        unique_keys(entries),
    ensures
        unique_keys(removed(entries, key)),
        lookup(removed(entries, key), key) is None,
        other != key ==> lookup(removed(entries, key), other) == lookup(entries, other),
{
    let at = key_index(entries, key);
    lemma_key_index(entries, key);
    let after = removed(entries, key);
    if at < entries.len() {
        assert forall|k: int| 0 <= k < after.len() implies (#[trigger] after[k]).0 != key by {
            if k < at {
                assert(after[k] == entries[k]);
            } else {
                assert(after[k] == entries[k + 1]);
                assert(entries[at].0 != entries[k + 1].0);
            }
        }
        lemma_key_index_is(after, key, after.len() as int);
        assert forall|i: int, j: int| 0 <= i < j < after.len() implies (#[trigger] after[i]).0 != (
        #[trigger] after[j]).0 by {
            let i2 = if i < at { i } else { i + 1 };
            let j2 = if j < at { j } else { j + 1 };
            assert(after[i] == entries[i2]);
            assert(after[j] == entries[j2]);
        }
        if other != key {
            let o = key_index(entries, other);
            lemma_key_index(entries, other);
            let o2 = if o < at { o } else { o - 1 };
            if o < entries.len() {
                assert(after[o2] == entries[o]);
                assert forall|k: int| 0 <= k < o2 implies (#[trigger] after[k]).0 != other by {
                    if k < at {
                        assert(after[k] == entries[k]);
                    } else {
                        assert(after[k] == entries[k + 1]);
                    }
                }
                lemma_key_index_is(after, other, o2);
            } else {
                assert forall|k: int| 0 <= k < after.len() implies (#[trigger] after[k]).0
                    != other by {
                    if k < at {
                        assert(after[k] == entries[k]);
                    } else {
                        assert(after[k] == entries[k + 1]);
                    }
                }
                lemma_key_index_is(after, other, after.len() as int);
            }
        }
    } else {
        lemma_key_index_is(after, key, after.len() as int);
    }
}

impl ValueMap {
    /// Whether no key occurs twice.
    pub open spec fn wf(&self) -> bool {
        unique_keys(self@)
    }

    /// An empty map.
    pub fn new() -> (r: ValueMap)
        ensures
            r@ == Seq::<(Seq<char>, Tree)>::empty(),
            r.wf(),
    {
        let r: ValueMap = ValueMap { entries: Vec::new() };
        assert(r@ =~= Seq::<(Seq<char>, Tree)>::empty());
        r
    }

    /// The number of entries.
    pub fn len(&self) -> (r: usize)
        ensures
            r == self@.len(),
    {
        self.entries.len()
    }

    /// Whether there is no entry.
    pub fn is_empty(&self) -> (r: bool)
        ensures
            r == (self@.len() == 0),
    {
        self.entries.len() == 0
    }

    /// The position of the entry under `key`, or the number of entries.
    pub fn position(&self, key: &str) -> (r: usize)
        ensures
            r == key_index(self@, key@),
            r <= self.entries@.len(),
            r < self.entries@.len() ==> self.entries@[r as int].0@ == key@,
    {
        let mut i: usize = 0;
        while i < self.entries.len()
            invariant
                i <= self.entries@.len(),
                forall|k: int| 0 <= k < i ==> (#[trigger] self@[k]).0 != key@,
            decreases self.entries@.len() - i,
        {
            assert(self@[i as int].0 == self.entries@[i as int].0@);
            if same_text(self.entries[i].0.as_str(), key) {
                proof {
                    lemma_key_index_is(self@, key@, i as int);
                }
                return i;
            }
            i += 1;
        }
        proof {
            lemma_key_index_is(self@, key@, i as int);
        }
        i
    }

    /// Whether `key` has an entry.
    pub fn contains_key(&self, key: &str) -> (r: bool)
        ensures
            r == has_key(self@, key@),
    {
        self.position(key) < self.entries.len()
    }

    /// The value under `key`.
    pub fn get(&self, key: &str) -> (r: Option<&Value>)
        ensures
            match r {
                Some(v) => lookup(self@, key@) == Some(v@),
                None => lookup(self@, key@) is None,
            },
    {
        let at: usize = self.position(key);
        if at < self.entries.len() {
            Some(&self.entries[at].1)
        } else {
            None
        }
    }

    /// Puts `value` under `key`.
    pub fn insert(&mut self, key: String, value: Value)
        ensures
            final(self)@ == inserted(old(self)@, key@, value@),
            old(self).wf() ==> final(self).wf(),
    {
        let at: usize = self.position(key.as_str());
        proof {
            if old(self).wf() {
                law_insert_keeps_keys_unique(old(self)@, key@, value@);
            }
        }
        if at < self.entries.len() {
            self.entries.set(at, (key, value));
        } else {
            self.entries.push((key, value));
        }
        assert(self@ =~= inserted(old(self)@, key@, value@));
    }

    /// Takes the entry under `key` out; whether there was one.
    pub fn shift_remove(&mut self, key: &str) -> (r: bool)
        ensures
            final(self)@ == removed(old(self)@, key@),
            r == has_key(old(self)@, key@),
            old(self).wf() ==> final(self).wf(),
    {
        let at: usize = self.position(key);
        proof {
            if old(self).wf() {
                law_remove_lookup(old(self)@, key@, key@);
            }
        }
        let found: bool = at < self.entries.len();
        if found {
            let _gone: (String, Value) = self.entries.remove(at);
        }
        assert(self@ =~= removed(old(self)@, key@));
        found
    }
}

impl Default for ValueMap {
    fn default() -> (r: ValueMap)
        ensures
            r@ == Seq::<(Seq<char>, Tree)>::empty(),
    {
        ValueMap::new()
    }
}

impl Clone for ValueMap {
    fn clone(&self) -> (r: ValueMap)
        ensures
            r@ == self@,
        decreases self, 0int,
    {
        let mut entries: Vec<(String, Value)> = Vec::new();
        let mut i: usize = 0;
        while i < self.entries.len()
            invariant
                i <= self.entries@.len(),
                entries@.len() == i,
                forall|k: int|
                    0 <= k < i ==> (#[trigger] entries@[k]).0@ == self.entries@[k].0@
                        && entries@[k].1@ == self.entries@[k].1@,
            decreases self.entries@.len() - i,
        {
            let key: String = self.entries[i].0.clone();
            let value: Value = self.entries[i].1.clone();
            entries.push((key, value));
            i += 1;
        }
        let r: ValueMap = ValueMap { entries };
        assert(r@ =~= self@);
        r
    }
}

impl Clone for Value {
    fn clone(&self) -> (r: Value)
        ensures
            r@ == self@,
        decreases self, 1int,
    {
        broadcast use {lemma_array_view, lemma_object_view};

        match self {
            Value::Null => Value::Null,
            Value::Bool(b) => Value::Bool(*b),
            Value::Int(n) => Value::Int(*n),
            Value::BigInt(s) => Value::BigInt(s.clone()),
            Value::Float(s) => Value::Float(s.clone()),
            Value::BigFloat(s) => Value::BigFloat(s.clone()),
            Value::String(s) => Value::String(s.clone()),
            Value::Array(items) => {
                let mut out: Vec<Value> = Vec::new();
                let mut i: usize = 0;
                while i < items.len()
                    invariant
                        *self == Value::Array(*items),
                        i <= items@.len(),
                        out@.len() == i,
                        forall|k: int| 0 <= k < i ==> (#[trigger] out@[k])@ == items@[k]@,
                    decreases items@.len() - i,
                {
                    assert(decreases_to!(*self => self->Array_0));
                    assert(decreases_to!(*items => items@));
                    assert(decreases_to!(items@ => items@[i as int]));
                    let item: Value = items[i].clone();
                    out.push(item);
                    i += 1;
                }
                assert(trees(out@) =~= trees(items@));
                Value::Array(out)
            },
            Value::Object(map) => Value::Object(map.clone()),
        }
    }
}

// ---------------------------------------------------------------------------
// Names and scalars
// ---------------------------------------------------------------------------

/// The name of a value's type, as error messages give it.
pub open spec fn type_label_of(t: Tree) -> Seq<char> {
    match t {
        Tree::Null => "null"@,
        Tree::Bool(_) => "bool"@,
        Tree::Int(_) | Tree::BigInt(_) => "int"@,
        Tree::Float(_) | Tree::BigFloat(_) => "float"@,
        Tree::String(_) => "string"@,
        Tree::Array(_) => "array"@,
        Tree::Object(_) => "object"@,
    }
}

/// The text of a scalar in a format that knows only strings; `None` for an
/// array or an object.
pub open spec fn scalar_text_of(t: Tree) -> Option<Seq<char>> {
    match t {
        Tree::Null => Some(Seq::empty()),
        Tree::Bool(b) => Some(bool_text_of(b)),
        Tree::Int(n) => Some(signed_decimal(n)),
        Tree::BigInt(s) | Tree::Float(s) | Tree::BigFloat(s) | Tree::String(s) => Some(s),
        Tree::Array(_) | Tree::Object(_) => None,
    }
}

/// `true` or `false`.
pub open spec fn bool_text_of(b: bool) -> Seq<char> {
    if b {
        "true"@
    } else {
        "false"@
    }
}

/// `true` or `false`.
pub fn bool_text(b: bool) -> (r: String)
    ensures
        r@ == bool_text_of(b),
{
    if b {
        "true".to_owned()
    } else {
        "false".to_owned()
    }
}

impl Value {
    /// Stable type name used in error messages.
    pub fn type_label(&self) -> (r: &'static str)
        ensures
            r@ == type_label_of(self@),
    {
        match self {
            Value::Null => "null",
            Value::Bool(_) => "bool",
            Value::Int(_) | Value::BigInt(_) => "int",
            Value::Float(_) | Value::BigFloat(_) => "float",
            Value::String(_) => "string",
            Value::Array(_) => "array",
            Value::Object(_) => "object",
        }
    }

    /// The value as the text that string-only formats write for it.
    pub fn scalar_text(&self) -> (r: Option<String>)
        ensures
            match r {
                Some(s) => scalar_text_of(self@) == Some(s@),
                None => scalar_text_of(self@) is None,
            },
    {
        match self {
            Value::Null => {
                let empty: String = String::new();
                assert(empty@ =~= Seq::<char>::empty());
                Some(empty)
            },
            Value::Bool(b) => Some(bool_text(*b)),
            Value::Int(n) => Some(signed_text(*n)),
            Value::BigInt(s) | Value::Float(s) | Value::BigFloat(s) | Value::String(s) => Some(
                s.clone(),
            ),
            Value::Array(_) | Value::Object(_) => None,
        }
    }
}

} // verus!
