//! A value tree laid out level by level: the root first, then what it holds,
//! then what that holds. What each collection holds stands together.

use crate::decimal_text::{is_same_number, same_number};
use crate::numbers::{parse_int, parsed_int, signed_decimal};
use crate::parsers::json_write::{finite_text, is_finite_text};
use crate::text::{chars_of, has_char};
use crate::value::{
    bool_text, bool_text_of, inserted, lemma_array_view, lemma_object_view, trees, Tree, Value,
    ValueMap,
};
use crate::error::texts;
use vstd::prelude::*;

verus! {

/// One node of the layout.
#[derive(Debug)]
pub enum Token {
    /// Nothing.
    Blank,
    /// A truth value.
    Truth(bool),
    /// A number, by its literal.
    Numeral(String),
    /// A number in its forms, and its text.
    Forms(NumberForms, String),
    /// A text.
    Words(String),
    /// A list of that many items.
    List(usize),
    /// A table with these keys; it holds their values.
    Table(Vec<String>),
    /// A table whose keys are nodes too: it holds each key and its value. The
    /// texts show the keys for diagnosis.
    Mapping(Vec<String>),
    /// A tag; it holds the value that it is put on.
    Tag,
}

/// What a [`Token`] is, mathematically.
pub enum TokenModel {
    Blank,
    Truth(bool),
    Numeral(Seq<char>),
    Forms(FormsModel, Seq<char>),
    Words(Seq<char>),
    List(nat),
    Table(Seq<Seq<char>>),
    Mapping(Seq<Seq<char>>),
    Tag,
}

impl View for Token {
    type V = TokenModel;

    open spec fn view(&self) -> TokenModel {
        match self {
            Token::Blank => TokenModel::Blank,
            Token::Truth(b) => TokenModel::Truth(*b),
            Token::Numeral(s) => TokenModel::Numeral(s@),
            Token::Forms(forms, s) => TokenModel::Forms(forms@, s@),
            Token::Words(s) => TokenModel::Words(s@),
            Token::List(n) => TokenModel::List(*n as nat),
            Token::Table(keys) => TokenModel::Table(texts(keys@)),
            Token::Mapping(shown) => TokenModel::Mapping(texts(shown@)),
            Token::Tag => TokenModel::Tag,
        }
    }
}

/// The models of a sequence of tokens.
pub open spec fn token_models(tokens: Seq<Token>) -> Seq<TokenModel> {
    Seq::new(tokens.len(), |i: int| tokens[i]@)
}

// ---------------------------------------------------------------------------
// Numbers
// ---------------------------------------------------------------------------

/// A number in the forms that its source offers.
#[derive(Debug)]
pub struct NumberForms {
    /// As a 64-bit integer, where it is one.
    pub whole: Option<i64>,
    /// Whether it is kept as a float.
    pub float: bool,
    /// The text of the 64-bit float nearest to it, where there is one.
    pub real: Option<String>,
}

/// What [`NumberForms`] are, mathematically.
pub struct FormsModel {
    pub whole: Option<i64>,
    pub float: bool,
    pub real: Option<Seq<char>>,
}

impl View for NumberForms {
    type V = FormsModel;

    open spec fn view(&self) -> FormsModel {
        FormsModel {
            whole: self.whole,
            float: self.float,
            real: match self.real {
                Some(s) => Some(s@),
                None => None,
            },
        }
    }
}

/// The forms that `serde_json::Number` offers of a literal.
pub uninterp spec fn json_number_forms(literal: Seq<char>) -> FormsModel;

/// `serde_json::Number`, read from a literal: `as_i64`, `is_f64`, and the text of
/// `as_f64`. A literal that it cannot read has no form. The result is a
/// function of the literal; it is only named here.
#[verifier::external_body]
fn read_json_number(literal: &str) -> (r: NumberForms)
    ensures
        r@ == json_number_forms(literal@),
{
    let number = serde_json::from_str::<serde_json::Number>(literal).ok();
    let number = number.as_ref();
    NumberForms {
        whole: number.and_then(|n| n.as_i64()),
        float: number.is_some_and(|n| n.is_f64()),
        real: number.and_then(|n| n.as_f64()).map(|f| f.to_string()),
    }
}

/// Whether a literal is the decimal text of a 64-bit integer.
pub open spec fn is_decimal_text(literal: Seq<char>) -> bool {
    parsed_int(literal) matches Some(n) && literal == signed_decimal(n as int)
}

/// The forms that `serde_norway::Number` offers of a literal.
pub uninterp spec fn yaml_forms_read(literal: Seq<char>) -> FormsModel;

/// The forms of a YAML number: the decimal text of a 64-bit integer is that
/// integer.
pub open spec fn yaml_number_forms(literal: Seq<char>) -> FormsModel {
    FormsModel {
        whole: if is_decimal_text(literal) {
            parsed_int(literal)
        } else {
            yaml_forms_read(literal).whole
        },
        ..yaml_forms_read(literal)
    }
}

/// `serde_norway::Number`, read from a literal: `as_i64`, `is_f64`, and the text
/// of `as_f64`. A literal that it cannot read has no form. The decimal text of a
/// 64-bit integer is read as that integer; otherwise the result, a function of
/// the literal, is only named here.
#[verifier::external_body]
pub(crate) fn read_yaml_number(literal: &str) -> (r: NumberForms)
    ensures
        r@ == (FormsModel {
            whole: if is_decimal_text(literal@) {
                parsed_int(literal@)
            } else {
                yaml_forms_read(literal@).whole
            },
            ..yaml_forms_read(literal@)
        }),
{
    let number = serde_norway::from_str::<serde_norway::Number>(literal).ok();
    let number = number.as_ref();
    NumberForms {
        whole: number.and_then(|n| n.as_i64()),
        float: number.is_some_and(|n| n.is_f64()),
        real: number.and_then(|n| n.as_f64()).map(|f| f.to_string()),
    }
}

/// Where a number was written.
#[derive(Debug, Clone, Copy, PartialEq, Eq, Structural)]
pub enum NumberRule {
    /// In JSON: the literal decides.
    Json,
    /// In YAML: what the number is kept as decides.
    Yaml,
}

/// Whether a literal is that of a float.
pub open spec fn is_float_literal(s: Seq<char>) -> bool {
    s.contains('.') || s.contains('e') || s.contains('E')
}

/// A JSON number as a value, given its forms. A literal that the 64-bit float
/// nearest to it does not stand for, down to its last digit, is kept.
pub open spec fn json_number_tree(literal: Seq<char>, forms: FormsModel) -> Tree {
    match parsed_int(literal) {
        Some(i) => Tree::Int(i as int),
        None => if !is_float_literal(literal) {
            Tree::BigInt(literal)
        } else {
            match forms.real {
                Some(text) => if is_finite_text(text) && same_number(literal, text) {
                    Tree::Float(text)
                } else {
                    Tree::BigFloat(literal)
                },
                None => Tree::BigFloat(literal),
            }
        },
    }
}

/// A YAML number as a value, given its forms.
pub open spec fn yaml_number_tree(literal: Seq<char>, forms: FormsModel) -> Tree {
    match forms.whole {
        Some(i) => Tree::Int(i as int),
        None => match forms.real {
            Some(text) => if !forms.float {
                Tree::BigInt(literal)
            } else if is_finite_text(text) {
                Tree::Float(text)
            } else {
                Tree::BigFloat(literal)
            },
            None => Tree::BigInt(literal),
        },
    }
}

/// A number as a value, given its text and its forms: an integer that fits is
/// an integer, one that does not keeps its text.
pub open spec fn formed_number_tree(literal: Seq<char>, forms: FormsModel) -> Tree {
    match forms.whole {
        Some(i) => Tree::Int(i as int),
        None => if !forms.float {
            Tree::BigInt(literal)
        } else {
            match forms.real {
                Some(text) => Tree::Float(text),
                None => Tree::BigFloat(literal),
            }
        },
    }
}

/// A number as a value: an integer that fits is an integer, and what no finite
/// 64-bit number stands for keeps its literal.
pub open spec fn number_tree(rule: NumberRule, literal: Seq<char>) -> Tree {
    match rule {
        NumberRule::Json => json_number_tree(literal, json_number_forms(literal)),
        NumberRule::Yaml => yaml_number_tree(literal, yaml_number_forms(literal)),
    }
}

/// A JSON number as a value, given its forms.
pub fn json_number_value(literal: String, forms: NumberForms) -> (r: Value)
    ensures
        r@ == json_number_tree(literal@, forms@),
{
    let chars: Vec<char> = chars_of(literal.as_str());
    match parse_int(&chars) {
        Some(i) => Value::Int(i),
        None => {
            if !(has_char(&chars, '.') || has_char(&chars, 'e') || has_char(&chars, 'E')) {
                return Value::BigInt(literal);
            }
            match forms.real {
                Some(text) => if finite_text(text.as_str()) && is_same_number(
                    literal.as_str(),
                    text.as_str(),
                ) {
                    Value::Float(text)
                } else {
                    Value::BigFloat(literal)
                },
                None => Value::BigFloat(literal),
            }
        },
    }
}

/// A YAML number as a value, given its forms.
pub fn yaml_number_value(literal: String, forms: NumberForms) -> (r: Value)
    ensures
        r@ == yaml_number_tree(literal@, forms@),
{
    match forms.whole {
        Some(i) => Value::Int(i),
        None => match forms.real {
            Some(text) => if !forms.float {
                Value::BigInt(literal)
            } else if finite_text(text.as_str()) {
                Value::Float(text)
            } else {
                Value::BigFloat(literal)
            },
            None => Value::BigInt(literal),
        },
    }
}

/// A number as a value, given its text and its forms.
pub fn formed_number_value(literal: &String, forms: &NumberForms) -> (r: Value)
    ensures
        r@ == formed_number_tree(literal@, forms@),
{
    match forms.whole {
        Some(i) => Value::Int(i),
        None => {
            if !forms.float {
                return Value::BigInt(literal.clone());
            }
            match &forms.real {
                Some(text) => Value::Float(text.clone()),
                None => Value::BigFloat(literal.clone()),
            }
        },
    }
}

fn number_value(rule: NumberRule, literal: &str) -> (r: Value)
    ensures
        r@ == number_tree(rule, literal@),
{
    match rule {
        NumberRule::Json => json_number_value(literal.to_owned(), read_json_number(literal)),
        NumberRule::Yaml => yaml_number_value(literal.to_owned(), read_yaml_number(literal)),
    }
}

// ---------------------------------------------------------------------------
// Planting the tree
// ---------------------------------------------------------------------------

/// How many nodes a node holds.
pub open spec fn arity(t: TokenModel) -> nat {
    match t {
        TokenModel::List(n) => n,
        TokenModel::Table(keys) => keys.len(),
        TokenModel::Mapping(shown) => 2 * shown.len(),
        TokenModel::Tag => 1,
        _ => 0,
    }
}

/// Where what node `i` holds starts: behind the root and all that the nodes
/// before `i` hold.
pub open spec fn held_from(tokens: Seq<TokenModel>, i: int) -> int
    decreases i,
{
    if i <= 0 {
        1
    } else {
        held_from(tokens, i - 1) + arity(tokens[i - 1])
    }
}

/// A key node as text.
pub open spec fn key_text_of(t: TokenModel, shown: Seq<char>) -> Seq<char> {
    match t {
        TokenModel::Words(s) | TokenModel::Numeral(s) => s,
        TokenModel::Truth(b) => bool_text_of(b),
        TokenModel::Blank => Seq::empty(),
        _ => shown,
    }
}

/// Node `k`, or nothing where the layout breaks off.
pub open spec fn node_at(tokens: Seq<TokenModel>, k: int) -> TokenModel {
    if 0 <= k < tokens.len() {
        tokens[k]
    } else {
        TokenModel::Blank
    }
}

/// The value of node `i`. What a layout that breaks off lacks counts as
/// nothing.
pub open spec fn planted(tokens: Seq<TokenModel>, rule: NumberRule, i: int) -> Tree
    decreases tokens.len() - i, 1nat, 0nat,
{
    if !(0 <= i < tokens.len()) {
        Tree::Null
    } else {
        match tokens[i] {
            TokenModel::Blank => Tree::Null,
            TokenModel::Truth(b) => Tree::Bool(b),
            TokenModel::Numeral(s) => number_tree(rule, s),
            TokenModel::Forms(forms, s) => formed_number_tree(s, forms),
            TokenModel::Words(s) => Tree::String(s),
            TokenModel::List(n) => Tree::Array(planted_items(tokens, rule, i, n)),
            TokenModel::Table(keys) => Tree::Object(planted_table(tokens, rule, i, keys, keys.len())),
            TokenModel::Mapping(shown) => Tree::Object(
                planted_mapping(tokens, rule, i, shown, shown.len()),
            ),
            TokenModel::Tag => if i < held_from(tokens, i) < tokens.len() {
                planted(tokens, rule, held_from(tokens, i))
            } else {
                Tree::Null
            },
        }
    }
}

/// The first `k` items that node `i` holds.
pub open spec fn planted_items(tokens: Seq<TokenModel>, rule: NumberRule, i: int, k: nat) -> Seq<
    Tree,
>
    decreases tokens.len() - i, 0nat, k,
{
    if k == 0 {
        Seq::empty()
    } else {
        let at = held_from(tokens, i) + k - 1;
        planted_items(tokens, rule, i, (k - 1) as nat).push(
            if 0 <= i < at < tokens.len() {
                planted(tokens, rule, at)
            } else {
                Tree::Null
            },
        )
    }
}

/// The first `k` entries that table `i` holds.
pub open spec fn planted_table(
    tokens: Seq<TokenModel>,
    rule: NumberRule,
    i: int,
    keys: Seq<Seq<char>>,
    k: nat,
) -> Seq<(Seq<char>, Tree)>
    decreases tokens.len() - i, 0nat, k,
{
    if k == 0 {
        Seq::empty()
    } else {
        let at = held_from(tokens, i) + k - 1;
        inserted(
            planted_table(tokens, rule, i, keys, (k - 1) as nat),
            keys[k - 1],
            if 0 <= i < at < tokens.len() {
                planted(tokens, rule, at)
            } else {
                Tree::Null
            },
        )
    }
}

/// The first `k` entries that mapping `i` holds.
pub open spec fn planted_mapping(
    tokens: Seq<TokenModel>,
    rule: NumberRule,
    i: int,
    shown: Seq<Seq<char>>,
    k: nat,
) -> Seq<(Seq<char>, Tree)>
    decreases tokens.len() - i, 0nat, k,
{
    if k == 0 {
        Seq::empty()
    } else {
        let at = held_from(tokens, i) + 2 * k - 1;
        inserted(
            planted_mapping(tokens, rule, i, shown, (k - 1) as nat),
            key_text_of(node_at(tokens, at - 1), shown[k - 1]),
            if 0 <= i < at < tokens.len() {
                planted(tokens, rule, at)
            } else {
                Tree::Null
            },
        )
    }
}

fn arity_of(t: &Token) -> (r: usize)
    ensures
        r == arity(t@) || (r == usize::MAX && arity(t@) > usize::MAX),
{
    match t {
        Token::List(n) => *n,
        Token::Table(keys) => keys.len(),
        Token::Mapping(shown) => if shown.len() <= usize::MAX / 2 {
            2 * shown.len()
        } else {
            usize::MAX
        },
        Token::Tag => 1,
        _ => 0,
    }
}

/// Whether each start is that of what the node holds; one past what a machine
/// counts is past every node.
pub open spec fn starts_found(tokens: Seq<TokenModel>, starts: Seq<usize>) -> bool {
    &&& starts.len() == tokens.len()
    &&& forall|i: int|
        0 <= i < tokens.len() ==> (#[trigger] starts[i] == held_from(tokens, i) || (starts[i]
            == usize::MAX && held_from(tokens, i) > usize::MAX))
}

fn find_starts(tokens: &Vec<Token>) -> (r: Vec<usize>)
    ensures
        starts_found(token_models(tokens@), r@),
{
    let ghost models = token_models(tokens@);
    let mut starts: Vec<usize> = Vec::new();
    let mut next: usize = 1;
    let mut i: usize = 0;
    while i < tokens.len()
        invariant
            i <= tokens@.len(),
            models == token_models(tokens@),
            starts@.len() == i,
            next == held_from(models, i as int) || (next == usize::MAX && held_from(
                models,
                i as int,
            ) > usize::MAX),
            forall|k: int|
                0 <= k < i ==> (#[trigger] starts@[k] == held_from(models, k) || (starts@[k]
                    == usize::MAX && held_from(models, k) > usize::MAX)),
        decreases tokens@.len() - i,
    {
        assert(models[i as int] == tokens@[i as int]@);
        starts.push(next);
        let n: usize = arity_of(&tokens[i]);
        next = if n <= usize::MAX - next {
            next + n
        } else {
            usize::MAX
        };
        i += 1;
    }
    starts
}

fn plant_key(tokens: &Vec<Token>, at: usize, shown: &str) -> (r: String)
    ensures
        r@ == key_text_of(node_at(token_models(tokens@), at as int), shown@),
{
    let empty: String = String::new();
    assert(empty@ =~= Seq::<char>::empty());
    if at >= tokens.len() {
        return empty;
    }
    assert(token_models(tokens@)[at as int] == tokens@[at as int]@);
    match &tokens[at] {
        Token::Words(s) | Token::Numeral(s) => s.clone(),
        Token::Truth(b) => bool_text(*b),
        Token::Blank => empty,
        _ => shown.to_owned(),
    }
}

/// The value of the node that `step` nodes behind `start`, where node `i` may
/// hold it.
fn plant_held(tokens: &Vec<Token>, starts: &Vec<usize>, rule: NumberRule, i: usize, step: usize) -> (r:
    Value)
    requires
        i < tokens@.len(),
        starts_found(token_models(tokens@), starts@),
    ensures
        r@ == ({
            let at = held_from(token_models(tokens@), i as int) + step;
            if i < at < tokens@.len() {
                planted(token_models(tokens@), rule, at)
            } else {
                Tree::Null
            }
        }),
    decreases tokens@.len() - i, 0int,
{
    let start: usize = starts[i];
    if start < tokens.len() && step < tokens.len() - start && i < start + step {
        plant(tokens, starts, rule, start + step)
    } else {
        Value::Null
    }
}

fn plant(tokens: &Vec<Token>, starts: &Vec<usize>, rule: NumberRule, i: usize) -> (r: Value)
    requires
        i < tokens@.len(),
        starts_found(token_models(tokens@), starts@),
    ensures
        r@ == planted(token_models(tokens@), rule, i as int),
    decreases tokens@.len() - i, 1int,
{
    let ghost models = token_models(tokens@);
    assert(models[i as int] == tokens@[i as int]@);
    match &tokens[i] {
        Token::Blank => Value::Null,
        Token::Truth(b) => Value::Bool(*b),
        Token::Numeral(s) => number_value(rule, s.as_str()),
        Token::Forms(forms, s) => formed_number_value(s, forms),
        Token::Words(s) => Value::String(s.clone()),
        Token::List(n) => {
            let mut out: Vec<Value> = Vec::new();
            assert(trees(out@) =~= Seq::<Tree>::empty());
            let mut k: usize = 0;
            while k < *n
                invariant
                    k <= *n,
                    i < tokens@.len(),
                    models == token_models(tokens@),
                    starts_found(models, starts@),
                    trees(out@) == planted_items(models, rule, i as int, k as nat),
                decreases *n - k,
            {
                let ghost before = trees(out@);
                let value: Value = plant_held(tokens, starts, rule, i, k);
                let ghost shown = value@;
                out.push(value);
                assert(trees(out@) =~= before.push(shown));
                k += 1;
            }
            proof {
                lemma_array_view(out);
            }
            Value::Array(out)
        },
        Token::Table(keys) => {
            let mut map: ValueMap = ValueMap::new();
            let mut k: usize = 0;
            while k < keys.len()
                invariant
                    k <= keys@.len(),
                    i < tokens@.len(),
                    models == token_models(tokens@),
                    starts_found(models, starts@),
                    map@ == planted_table(models, rule, i as int, texts(keys@), k as nat),
                decreases keys@.len() - k,
            {
                let value: Value = plant_held(tokens, starts, rule, i, k);
                assert(texts(keys@)[k as int] == keys@[k as int]@);
                map.insert(keys[k].clone(), value);
                k += 1;
            }
            proof {
                lemma_object_view(map);
            }
            Value::Object(map)
        },
        Token::Mapping(shown) => {
            let mut map: ValueMap = ValueMap::new();
            let mut k: usize = 0;
            let start: usize = starts[i];
            let count: usize = tokens.len();
            while k < shown.len()
                invariant
                    k <= shown@.len(),
                    i < tokens@.len(),
                    count == tokens@.len(),
                    start == starts@[i as int],
                    models == token_models(tokens@),
                    starts_found(models, starts@),
                    map@ == planted_mapping(models, rule, i as int, texts(shown@), k as nat),
                decreases shown@.len() - k,
            {
                let at: usize = double_step(start, k);
                let ghost place = held_from(models, i as int) + 2 * k;
                assert(at == place || (at == usize::MAX && place > usize::MAX));
                assert(node_at(models, at as int) == node_at(models, place));
                assert(texts(shown@)[k as int] == shown@[k as int]@);
                let key: String = plant_key(tokens, at, shown[k].as_str());
                let step: usize = double_step(1, k);
                let value: Value = plant_held(tokens, starts, rule, i, step);
                map.insert(key, value);
                k += 1;
            }
            proof {
                lemma_object_view(map);
            }
            Value::Object(map)
        },
        Token::Tag => plant_held(tokens, starts, rule, i, 0),
    }
}

/// `from` plus twice `k`, as far as a machine counts.
fn double_step(from: usize, k: usize) -> (r: usize)
    ensures
        r == from + 2 * k || (r == usize::MAX && from + 2 * k > usize::MAX),
{
    if k <= usize::MAX / 2 && 2 * k <= usize::MAX - from {
        from + 2 * k
    } else {
        usize::MAX
    }
}

/// The value that a whole layout stands for.
pub open spec fn planted_tree(tokens: Seq<TokenModel>, rule: NumberRule) -> Tree {
    planted(tokens, rule, 0)
}

/// The value that a whole layout stands for.
pub fn plant_tree(tokens: &Vec<Token>, rule: NumberRule) -> (r: Value)
    ensures
        r@ == planted_tree(token_models(tokens@), rule),
{
    if tokens.len() == 0 {
        return Value::Null;
    }
    let starts: Vec<usize> = find_starts(tokens);
    plant(tokens, &starts, rule, 0)
}

} // verus!
