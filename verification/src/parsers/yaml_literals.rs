//! Numbers of a YAML text that 64 bits do not hold keep the literals that stand
//! in the text.

use crate::decimal_text::{decimal_number, is_same_number, read_decimal, same_number};
use crate::numbers::{decimal, index_text};
use crate::parsers::ini_sections::text_pairs;
use crate::parsers::tokens::{
    is_float_literal, read_yaml_number, yaml_number_forms, FormsModel, NumberForms,
};
use crate::parsers::yaml_spans::WalkModel;
use crate::pointer::{escape_segment, escaped};
use crate::spans::{span_entries, span_map_get, SpanMap, ValueSpan};
use crate::text::{chars_of, has_char, same_text};
use crate::utf8_text::{lossy_text, utf8_lossy};
use crate::value::{
    entry_trees, lemma_array_view, lemma_object_view, lookup, trees, Tree, Value, ValueMap,
};
use vstd::prelude::*;
use vstd::slice::slice_subrange;

verus! {

// ---------------------------------------------------------------------------
// One number
// ---------------------------------------------------------------------------

/// A float as a value, given the literal at its place and the forms of that
/// literal. Where the literal is that of the float, but the float does not stand
/// for it down to its last digit, the literal is kept.
pub open spec fn kept_float(text: Seq<char>, literal: Seq<char>, forms: FormsModel) -> Tree {
    if decimal_number(literal) is None || forms.real != Some(text) || same_number(literal, text) {
        Tree::Float(text)
    } else if is_float_literal(literal) {
        Tree::BigFloat(literal)
    } else {
        Tree::BigInt(literal)
    }
}

/// A float as a value, given the literal at its place and the forms of that
/// literal.
pub fn keep_float(text: &String, literal: String, forms: NumberForms) -> (r: Value)
    ensures
        r@ == kept_float(text@, literal@, forms@),
{
    let chars: Vec<char> = chars_of(literal.as_str());
    let its_own: bool = match &forms.real {
        Some(nearest) => same_text(nearest.as_str(), text.as_str()),
        None => false,
    };
    if read_decimal(&chars).is_none() || !its_own || is_same_number(literal.as_str(), text.as_str()) {
        Value::Float(text.clone())
    } else if has_char(&chars, '.') || has_char(&chars, 'e') || has_char(&chars, 'E') {
        Value::BigFloat(literal)
    } else {
        Value::BigInt(literal)
    }
}

/// The text of the source that a span covers.
pub open spec fn covered_text(bytes: Seq<u8>, span: ValueSpan) -> Option<Seq<char>> {
    let (start, end) = (span.value_range.start as int, span.value_range.end as int);
    if start <= end <= bytes.len() {
        Some(utf8_lossy(bytes.subrange(start, end)))
    } else {
        None
    }
}

/// A float as a value, given what stands at its place in the source.
pub open spec fn float_at(text: Seq<char>, bytes: Seq<u8>, span: Option<ValueSpan>) -> Tree {
    match span {
        Some(s) => match covered_text(bytes, s) {
            Some(literal) => kept_float(text, literal, yaml_number_forms(literal)),
            None => Tree::Float(text),
        },
        None => Tree::Float(text),
    }
}

fn float_from(text: &String, bytes: &[u8], span: Option<&ValueSpan>) -> (r: Value)
    ensures
        r@ == float_at(
            text@,
            bytes@,
            match span {
                Some(s) => Some(*s),
                None => None,
            },
        ),
{
    match span {
        Some(s) => {
            let (start, end): (usize, usize) = (s.value_range.start, s.value_range.end);
            if start <= end && end <= bytes.len() {
                let literal: String = lossy_text(slice_subrange(bytes, start, end));
                let forms: NumberForms = read_yaml_number(literal.as_str());
                keep_float(text, literal, forms)
            } else {
                Value::Float(text.clone())
            }
        },
        None => Value::Float(text.clone()),
    }
}

// ---------------------------------------------------------------------------
// A value
// ---------------------------------------------------------------------------

/// Where the node at a place is written: an alias is written where the node that
/// it refers to stands. The last of the first `k` aliases counts.
pub open spec fn written_at(aliases: Seq<(Seq<char>, Seq<char>)>, place: Seq<char>, k: int) -> Seq<
    char,
>
    decreases k,
{
    if k <= 0 {
        place
    } else if aliases[k - 1].0 == place {
        aliases[k - 1].1
    } else {
        written_at(aliases, place, k - 1)
    }
}

fn find_written(aliases: &Vec<(String, String)>, place: &str) -> (r: String)
    ensures
        r@ == written_at(text_pairs(aliases@), place@, aliases@.len() as int),
{
    let ghost all = text_pairs(aliases@);
    let mut k: usize = aliases.len();
    while k > 0
        invariant
            k <= aliases@.len(),
            all == text_pairs(aliases@),
            written_at(all, place@, aliases@.len() as int) == written_at(all, place@, k as int),
        decreases k,
    {
        assert(all[k - 1] == (aliases@[k - 1].0@, aliases@[k - 1].1@));
        if same_text(aliases[k - 1].0.as_str(), place) {
            return aliases[k - 1].1.clone();
        }
        k -= 1;
    }
    place.to_owned()
}

/// The place of what stands under a written segment.
pub open spec fn place_below(place: Seq<char>, segment: Seq<char>) -> Seq<char> {
    place + "/"@ + segment
}

fn join_place(place: &str, segment: &str) -> (r: String)
    ensures
        r@ == place_below(place@, segment@),
{
    let mut out: String = place.to_owned();
    out.push_str("/");
    out.push_str(segment);
    out
}

/// A value at a place, with the literals of its numbers.
pub open spec fn with_literals(t: Tree, place: Seq<char>, bytes: Seq<u8>, walk: WalkModel) -> Tree
    decreases t, 0nat,
{
    let at = written_at(walk.aliases, place, walk.aliases.len() as int);
    match t {
        Tree::Float(text) => float_at(text, bytes, lookup(walk.spans, at)),
        Tree::Array(items) => Tree::Array(
            items_with_literals(items, items.len(), at, bytes, walk),
        ),
        Tree::Object(entries) => Tree::Object(
            entries_with_literals(entries, entries.len(), at, bytes, walk),
        ),
        _ => t,
    }
}

/// The first `k` items, with the literals of their numbers.
pub open spec fn items_with_literals(
    items: Seq<Tree>,
    k: nat,
    at: Seq<char>,
    bytes: Seq<u8>,
    walk: WalkModel,
) -> Seq<Tree>
    decreases items, k,
{
    if k == 0 || k > items.len() {
        Seq::empty()
    } else {
        items_with_literals(items, (k - 1) as nat, at, bytes, walk).push(
            with_literals(
                items[k - 1],
                place_below(at, decimal((k - 1) as nat)),
                bytes,
                walk,
            ),
        )
    }
}

/// The first `k` entries, with the literals of their numbers.
pub open spec fn entries_with_literals(
    entries: Seq<(Seq<char>, Tree)>,
    k: nat,
    at: Seq<char>,
    bytes: Seq<u8>,
    walk: WalkModel,
) -> Seq<(Seq<char>, Tree)>
    decreases entries, k,
{
    if k == 0 || k > entries.len() {
        Seq::empty()
    } else {
        entries_with_literals(entries, (k - 1) as nat, at, bytes, walk).push(
            (
                entries[k - 1].0,
                with_literals(
                    entries[k - 1].1,
                    place_below(at, escaped(entries[k - 1].0)),
                    bytes,
                    walk,
                ),
            ),
        )
    }
}

/// What of a walk the literals are found by.
pub struct Places<'a> {
    /// The source.
    pub bytes: &'a [u8],
    /// Where its scalars stand.
    pub spans: &'a SpanMap,
    /// The places of its aliases, and of the nodes that they refer to.
    pub aliases: &'a Vec<(String, String)>,
}

impl Places<'_> {
    /// Whether these are the places of a walk over a source.
    pub open spec fn of(&self, bytes: Seq<u8>, walk: WalkModel) -> bool {
        &&& self.bytes@ == bytes
        &&& span_entries(*self.spans) == walk.spans
        &&& text_pairs(self.aliases@) == walk.aliases
    }

    /// The value at a place, with the literals of its numbers.
    fn restore(&self, v: &Value, place: &str, walk: Ghost<WalkModel>) -> (r: Value)
        requires
            self.of(self.bytes@, walk@),
        ensures
            r@ == with_literals(v@, place@, self.bytes@, walk@),
        decreases v, 1int,
    {
        broadcast use {lemma_array_view, lemma_object_view};

        match v {
            Value::Float(text) => {
                let at: String = find_written(self.aliases, place);
                float_from(text, self.bytes, span_map_get(self.spans, at.as_str()))
            },
            Value::Array(items) => {
                let at: String = find_written(self.aliases, place);
                Value::Array(self.restore_items(items, at.as_str(), walk))
            },
            Value::Object(map) => {
                let at: String = find_written(self.aliases, place);
                Value::Object(self.restore_map(map, at.as_str(), walk))
            },
            other => other.clone(),
        }
    }

    fn restore_items(&self, items: &Vec<Value>, at: &str, walk: Ghost<WalkModel>) -> (r: Vec<Value>)
        requires
            self.of(self.bytes@, walk@),
        ensures
            trees(r@) == items_with_literals(
                trees(items@),
                items@.len(),
                at@,
                self.bytes@,
                walk@,
            ),
        decreases items, 0int,
    {
        let ghost all = trees(items@);
        let mut out: Vec<Value> = Vec::new();
        assert(trees(out@) =~= Seq::<Tree>::empty());
        let mut i: usize = 0;
        while i < items.len()
            invariant
                i <= items@.len(),
                all == trees(items@),
                self.of(self.bytes@, walk@),
                trees(out@) == items_with_literals(all, i as nat, at@, self.bytes@, walk@),
            decreases items@.len() - i,
        {
            assert(decreases_to!(*items => items@));
            assert(decreases_to!(items@ => items@[i as int]));
            let ghost before = trees(out@);
            let place: String = join_place(at, index_text(i).as_str());
            let item: Value = self.restore(&items[i], place.as_str(), walk);
            let ghost shown = item@;
            out.push(item);
            assert(all[i as int] == items@[i as int]@);
            assert(trees(out@) =~= before.push(shown));
            i += 1;
        }
        out
    }

    fn restore_map(&self, map: &ValueMap, at: &str, walk: Ghost<WalkModel>) -> (r: ValueMap)
        requires
            self.of(self.bytes@, walk@),
        ensures
            r@ == entries_with_literals(map@, map@.len(), at@, self.bytes@, walk@),
        decreases map, 0int,
    {
        let mut out: Vec<(String, Value)> = Vec::new();
        assert(entry_trees(out@) =~= Seq::<(Seq<char>, Tree)>::empty());
        let mut i: usize = 0;
        while i < map.entries.len()
            invariant
                i <= map.entries@.len(),
                self.of(self.bytes@, walk@),
                entry_trees(out@) == entries_with_literals(
                    map@,
                    i as nat,
                    at@,
                    self.bytes@,
                    walk@,
                ),
            decreases map.entries@.len() - i,
        {
            assert(decreases_to!(*map => map.entries));
            assert(decreases_to!(map.entries => map.entries@));
            assert(decreases_to!(map.entries@ => map.entries@[i as int]));
            assert(decreases_to!(map.entries@[i as int] => map.entries@[i as int].1));
            let ghost before = entry_trees(out@);
            let key: String = map.entries[i].0.clone();
            let place: String = join_place(at, escape_segment(key.as_str()).as_str());
            let value: Value = self.restore(&map.entries[i].1, place.as_str(), walk);
            let ghost shown = (key@, value@);
            out.push((key, value));
            assert(map@[i as int] == (map.entries@[i as int].0@, map.entries@[i as int].1@));
            assert(entry_trees(out@) =~= before.push(shown));
            i += 1;
        }
        ValueMap { entries: out }
    }

    /// The documents of a source, with the literals of their numbers.
    pub(crate) fn restore_documents(&self, values: &Vec<Value>, walk: Ghost<WalkModel>) -> (r: Vec<Value>)
        requires
            self.of(self.bytes@, walk@),
        ensures
            trees(r@) == documents_with_literals(trees(values@), self.bytes@, walk@),
    {
        let ghost all = trees(values@);
        let empty: String = String::new();
        assert(empty@ =~= Seq::<char>::empty());
        let mut out: Vec<Value> = Vec::new();
        let mut i: usize = 0;
        while i < values.len()
            invariant
                i <= values@.len(),
                all == trees(values@),
                empty@ == Seq::<char>::empty(),
                self.of(self.bytes@, walk@),
                out@.len() == i,
                forall|k: int|
                    0 <= k < i ==> (#[trigger] out@[k])@ == documents_with_literals(
                        all,
                        self.bytes@,
                        walk@,
                    )[k],
            decreases values@.len() - i,
        {
            assert(all[i as int] == values@[i as int]@);
            let place: String = if values.len() > 1 {
                join_place(empty.as_str(), index_text(i).as_str())
            } else {
                empty.clone()
            };
            out.push(self.restore(&values[i], place.as_str(), walk));
            i += 1;
        }
        assert(trees(out@) =~= documents_with_literals(all, self.bytes@, walk@));
        out
    }
}

/// The place of a document: its position, where there is more than one.
pub open spec fn document_place(n: nat, i: nat) -> Seq<char> {
    if n > 1 {
        place_below(Seq::empty(), decimal(i))
    } else {
        Seq::empty()
    }
}

/// The documents of a source, with the literals of their numbers.
pub open spec fn documents_with_literals(values: Seq<Tree>, bytes: Seq<u8>, walk: WalkModel) -> Seq<
    Tree,
> {
    Seq::new(
        values.len(),
        |i: int| with_literals(values[i], document_place(values.len(), i as nat), bytes, walk),
    )
}

// ---------------------------------------------------------------------------
// Values without floats
// ---------------------------------------------------------------------------

/// Whether a value holds no float.
pub open spec fn floatless(t: Tree) -> bool
    decreases t,
{
    match t {
        Tree::Float(_) => false,
        Tree::Array(items) => forall|i: int|
            0 <= i < items.len() ==> floatless(#[trigger] items[i]),
        Tree::Object(entries) => forall|i: int|
            0 <= i < entries.len() ==> floatless((#[trigger] entries[i]).1),
        _ => true,
    }
}

/// A value without floats stays as it is.
pub proof fn lemma_floatless_stays(t: Tree, place: Seq<char>, bytes: Seq<u8>, walk: WalkModel)
    requires
        floatless(t),
    ensures
        with_literals(t, place, bytes, walk) == t,
    decreases t, 0nat,
{
    let at = written_at(walk.aliases, place, walk.aliases.len() as int);
    match t {
        Tree::Array(items) => {
            lemma_items_stay(items, items.len(), at, bytes, walk);
            assert(items.subrange(0, items.len() as int) =~= items);
        },
        Tree::Object(entries) => {
            lemma_entries_stay(entries, entries.len(), at, bytes, walk);
            assert(entries.subrange(0, entries.len() as int) =~= entries);
        },
        _ => {},
    }
}

proof fn lemma_items_stay(items: Seq<Tree>, k: nat, at: Seq<char>, bytes: Seq<u8>, walk: WalkModel)
    requires
        k <= items.len(),
        forall|i: int| 0 <= i < items.len() ==> floatless(#[trigger] items[i]),
    ensures
        items_with_literals(items, k, at, bytes, walk) == items.subrange(0, k as int),
    decreases items, k,
{
    if k > 0 {
        lemma_items_stay(items, (k - 1) as nat, at, bytes, walk);
        assert(decreases_to!(items => items[k - 1]));
        lemma_floatless_stays(
            items[k - 1],
            place_below(at, decimal((k - 1) as nat)),
            bytes,
            walk,
        );
        assert(items.subrange(0, k as int) =~= items.subrange(0, k - 1).push(items[k - 1]));
    } else {
        assert(items.subrange(0, 0) =~= Seq::<Tree>::empty());
    }
}

proof fn lemma_entries_stay(
    entries: Seq<(Seq<char>, Tree)>,
    k: nat,
    at: Seq<char>,
    bytes: Seq<u8>,
    walk: WalkModel,
)
    requires
        k <= entries.len(),
        forall|i: int| 0 <= i < entries.len() ==> floatless((#[trigger] entries[i]).1),
    ensures
        entries_with_literals(entries, k, at, bytes, walk) == entries.subrange(0, k as int),
    decreases entries, k,
{
    if k > 0 {
        lemma_entries_stay(entries, (k - 1) as nat, at, bytes, walk);
        assert(decreases_to!(entries => entries[k - 1]));
        assert(decreases_to!(entries[k - 1] => entries[k - 1].1));
        assert(floatless(entries[k - 1].1));
        lemma_floatless_stays(
            entries[k - 1].1,
            place_below(at, escaped(entries[k - 1].0)),
            bytes,
            walk,
        );
        assert(entries.subrange(0, k as int) =~= entries.subrange(0, k - 1).push(entries[k - 1]));
    } else {
        assert(entries.subrange(0, 0) =~= Seq::<(Seq<char>, Tree)>::empty());
    }
}

/// Whether a value holds no float, as far as can be seen.
fn seems_floatless(v: &Value) -> (r: bool)
    ensures
        r ==> floatless(v@),
    decreases v, 0int,
{
    broadcast use {lemma_array_view, lemma_object_view};

    match v {
        Value::Float(_) => false,
        Value::Array(items) => {
            let mut i: usize = 0;
            while i < items.len()
                invariant
                    i <= items@.len(),
                    decreases_to!(*v => *items),
                    forall|k: int| 0 <= k < i ==> floatless((#[trigger] trees(items@)[k])),
                decreases items@.len() - i,
            {
                assert(decreases_to!(*items => items@));
                assert(decreases_to!(items@ => items@[i as int]));
                if !seems_floatless(&items[i]) {
                    return false;
                }
                assert(trees(items@)[i as int] == items@[i as int]@);
                i += 1;
            }
            true
        },
        Value::Object(map) => {
            let mut i: usize = 0;
            while i < map.entries.len()
                invariant
                    i <= map.entries@.len(),
                    decreases_to!(*v => *map),
                    forall|k: int| 0 <= k < i ==> floatless((#[trigger] map@[k]).1),
                decreases map.entries@.len() - i,
            {
                assert(decreases_to!(*map => map.entries));
                assert(decreases_to!(map.entries => map.entries@));
                assert(decreases_to!(map.entries@ => map.entries@[i as int]));
                assert(decreases_to!(map.entries@[i as int] => map.entries@[i as int].1));
                if !seems_floatless(&map.entries[i].1) {
                    return false;
                }
                assert(map@[i as int] == (map.entries@[i as int].0@, map.entries@[i as int].1@));
                i += 1;
            }
            true
        },
        _ => true,
    }
}

/// Whether no value holds a float, as far as can be seen.
pub fn seem_floatless(values: &Vec<Value>) -> (r: bool)
    ensures
        r ==> forall|i: int| 0 <= i < values@.len() ==> floatless(#[trigger] trees(values@)[i]),
{
    let mut i: usize = 0;
    while i < values.len()
        invariant
            i <= values@.len(),
            forall|k: int| 0 <= k < i ==> floatless(#[trigger] trees(values@)[k]),
        decreases values@.len() - i,
    {
        if !seems_floatless(&values[i]) {
            return false;
        }
        assert(trees(values@)[i as int] == values@[i as int]@);
        i += 1;
    }
    true
}

/// Documents without floats stay as they are.
pub proof fn lemma_floatless_documents_stay(values: Seq<Tree>, bytes: Seq<u8>, walk: WalkModel)
    requires
        forall|i: int| 0 <= i < values.len() ==> floatless(#[trigger] values[i]),
    ensures
        documents_with_literals(values, bytes, walk) == values,
{
    assert forall|i: int| 0 <= i < values.len() implies documents_with_literals(
        values,
        bytes,
        walk,
    )[i] == #[trigger] values[i] by {
        lemma_floatless_stays(values[i], document_place(values.len(), i as nat), bytes, walk);
    }
    assert(documents_with_literals(values, bytes, walk) =~= values);
}

} // verus!
