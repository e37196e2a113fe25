//! JSON documents as plain values.
//!
//! The text is read by `serde_json`; what is read is a value of this module, on which everything
//! else is decided.

use crate::numeric::binary64::Binary64;
use crate::numeric::decimal;
use crate::text;
use vstd::prelude::*;

verus! {

/// A document, as mathematical values.
pub enum JsonTree {
    Null,
    Bool(bool),
    /// A whole number that is not negative.
    Unsigned(u64),
    /// A whole number below zero.
    Negative(i64),
    /// Any other number.
    Float(Binary64),
    Text(Seq<char>),
    Array(Seq<JsonTree>),
    Object(Seq<(Seq<char>, JsonTree)>),
}

/// A document.
#[derive(Debug)]
pub enum Json {
    Null,
    Bool(bool),
    /// A whole number that is not negative.
    Unsigned(u64),
    /// A whole number below zero.
    Negative(i64),
    /// Any other number.
    Float(Binary64),
    Text(String),
    Array(Vec<Json>),
    Object(Vec<(String, Json)>),
}

/// Why a text was not read.
#[derive(Clone, Copy, Debug, PartialEq, Eq, Structural)]
pub enum JsonError {
    /// The text is not a JSON document.
    Malformed,
}

/// The trees of a row of documents.
pub open spec fn trees(s: Seq<Json>) -> Seq<JsonTree>
    decreases s,
{
    if s.len() == 0 {
        Seq::empty()
    } else {
        trees(s.subrange(0, s.len() - 1)).push(s[s.len() - 1].tree())
    }
}

/// The trees of a row of named documents.
pub open spec fn named_trees(s: Seq<(String, Json)>) -> Seq<(Seq<char>, JsonTree)>
    decreases s,
{
    if s.len() == 0 {
        Seq::empty()
    } else {
        named_trees(s.subrange(0, s.len() - 1)).push(
            (s[s.len() - 1].0@, s[s.len() - 1].1.tree()),
        )
    }
}

impl Json {
    /// What the document is, as mathematical values.
    pub open spec fn tree(self) -> JsonTree
        decreases self,
    {
        match self {
            Json::Null => JsonTree::Null,
            Json::Bool(b) => JsonTree::Bool(b),
            Json::Unsigned(n) => JsonTree::Unsigned(n),
            Json::Negative(n) => JsonTree::Negative(n),
            Json::Float(x) => JsonTree::Float(x),
            Json::Text(s) => JsonTree::Text(s@),
            Json::Array(items) => JsonTree::Array(trees(items@)),
            Json::Object(entries) => JsonTree::Object(named_trees(entries@)),
        }
    }
}

/// A row of trees is made of the documents' own.
pub proof fn lemma_trees(s: Seq<Json>)
    ensures
        trees(s).len() == s.len(),
        forall|i: int| 0 <= i < s.len() ==> #[trigger] trees(s)[i] == s[i].tree(),
    decreases s.len(),
{
    if s.len() > 0 {
        let rest = s.subrange(0, s.len() - 1);
        lemma_trees(rest);
        assert forall|i: int| 0 <= i < s.len() implies #[trigger] trees(s)[i] == s[i].tree() by {
            if i < s.len() - 1 {
                assert(trees(rest)[i] == rest[i].tree());
            }
        }
    }
}

/// A row of named trees is made of the documents' names and trees.
pub proof fn lemma_named_trees(s: Seq<(String, Json)>)
    ensures
        named_trees(s).len() == s.len(),
        forall|i: int|
            0 <= i < s.len() ==> #[trigger] named_trees(s)[i] == (s[i].0@, s[i].1.tree()),
    decreases s.len(),
{
    if s.len() > 0 {
        let rest = s.subrange(0, s.len() - 1);
        lemma_named_trees(rest);
        assert forall|i: int| 0 <= i < s.len() implies #[trigger] named_trees(s)[i] == (
            s[i].0@,
            s[i].1.tree(),
        ) by {
            if i < s.len() - 1 {
                assert(named_trees(rest)[i] == (rest[i].0@, rest[i].1.tree()));
            }
        }
    }
}

/// `serde_json::Value`, a document as `serde_json` holds it.
#[verifier::external_type_specification]
#[verifier::external_body]
pub struct ExValue(serde_json::Value);

/// `serde_json::Error`, why `serde_json` did not read a text.
#[verifier::external_type_specification]
#[verifier::external_body]
pub struct ExJsonError(serde_json::Error);

/// What a `serde_json::Value` holds.
pub uninterp spec fn json_tree(v: serde_json::Value) -> JsonTree;

/// The document that `serde_json` reads from a text; none where it reads none.
pub uninterp spec fn json_document(text: Seq<char>) -> Option<JsonTree>;

/// The outermost layer of a `serde_json::Value`.
pub enum Layer<'a> {
    Null,
    Bool(bool),
    Unsigned(u64),
    Negative(i64),
    Float(Binary64),
    Text(&'a str),
    Array(&'a Vec<serde_json::Value>),
    Object(Vec<(&'a str, &'a serde_json::Value)>),
}

/// Whether a layer is the outermost one of a tree.
pub open spec fn outermost(layer: Layer<'_>, tree: JsonTree) -> bool {
    match layer {
        Layer::Null => tree == JsonTree::Null,
        Layer::Bool(b) => tree == JsonTree::Bool(b),
        Layer::Unsigned(n) => tree == JsonTree::Unsigned(n),
        Layer::Negative(n) => tree == JsonTree::Negative(n),
        Layer::Float(x) => tree == JsonTree::Float(x),
        Layer::Text(s) => tree == JsonTree::Text(s@),
        Layer::Array(items) => {
            &&& tree is Array
            &&& tree->Array_0.len() == items@.len()
            &&& forall|i: int|
                0 <= i < items@.len() ==> json_tree(#[trigger] items@[i]) == tree->Array_0[i]
        },
        Layer::Object(entries) => {
            &&& tree is Object
            &&& tree->Object_0.len() == entries@.len()
            &&& forall|i: int|
                0 <= i < entries@.len() ==> (
                #[trigger] entries@[i]).0@ == tree->Object_0[i].0 && json_tree(
                    *entries@[i].1,
                ) == tree->Object_0[i].1
        },
    }
}

/// Reads a text with `serde_json::from_str`, which depends on the text alone. The grammar is that
/// of JSON and is not restated.
#[verifier::external_body]
fn read_value(s: &str) -> (r: Result<serde_json::Value, serde_json::Error>)
    ensures
        match r {
            Ok(v) => json_document(s@) == Some(json_tree(v)),
            Err(_) => json_document(s@) is None,
        },
{
    serde_json::from_str(s)
}

/// Tells the variants of a `serde_json::Value` apart. A number is an unsigned integer, a negative
/// one, or else a floating-point number, as `serde_json::Number` holds it; the entries of an object
/// come in the order in which `serde_json::Map` walks them.
#[verifier::external_body]
fn layer_of<'a>(v: &'a serde_json::Value) -> (r: Layer<'a>)
    ensures
        outermost(r, json_tree(*v)),
{
    match v {
        serde_json::Value::Null => Layer::Null,
        serde_json::Value::Bool(b) => Layer::Bool(*b),
        serde_json::Value::Number(n) => match (n.as_u64(), n.as_i64()) {
            (Some(u), _) => Layer::Unsigned(u),
            (None, Some(i)) => Layer::Negative(i),
            (None, None) => Layer::Float(Binary64 { bits: n.as_f64().unwrap_or_default().to_bits() }),
        },
        serde_json::Value::String(s) => Layer::Text(s),
        serde_json::Value::Array(items) => Layer::Array(items),
        serde_json::Value::Object(m) => Layer::Object(m.iter().map(|(k, x)| (k.as_str(), x)).collect()),
    }
}

/// The document that a `serde_json::Value` holds.
fn document(v: &serde_json::Value) -> (r: Json)
    ensures
        r.tree() == json_tree(*v),
    decreases json_tree(*v),
{
    let ghost tree = json_tree(*v);
    match layer_of(v) {
        Layer::Null => Json::Null,
        Layer::Bool(b) => Json::Bool(b),
        Layer::Unsigned(n) => Json::Unsigned(n),
        Layer::Negative(n) => Json::Negative(n),
        Layer::Float(x) => Json::Float(x),
        Layer::Text(s) => Json::Text(s.to_owned()),
        Layer::Array(items) => {
            let mut r: Vec<Json> = Vec::new();
            let mut i: usize = 0;
            while i < items.len()
                invariant
                    i <= items@.len(),
                    tree == json_tree(*v),
                    outermost(Layer::Array(items), tree),
                    r@.len() == i,
                    forall|j: int| 0 <= j < i ==> (#[trigger] r@[j]).tree() == tree->Array_0[j],
                decreases items@.len() - i,
            {
                proof {
                    assert(json_tree(items@[i as int]) == tree->Array_0[i as int]);
                }
                r.push(document(&items[i]));
                i = i + 1;
            }
            proof {
                lemma_trees(r@);
                assert(trees(r@) =~= tree->Array_0);
            }
            Json::Array(r)
        },
        Layer::Object(entries) => {
            let mut r: Vec<(String, Json)> = Vec::new();
            let mut i: usize = 0;
            while i < entries.len()
                invariant
                    i <= entries@.len(),
                    tree == json_tree(*v),
                    outermost(Layer::Object(entries), tree),
                    r@.len() == i,
                    forall|j: int|
                        0 <= j < i ==> (#[trigger] r@[j]).0@ == tree->Object_0[j].0
                            && r@[j].1.tree() == tree->Object_0[j].1,
                decreases entries@.len() - i,
            {
                let (key, value) = entries[i];
                proof {
                    assert(json_tree(*entries@[i as int].1) == tree->Object_0[i as int].1);
                    assert(decreases_to!(tree->Object_0 => tree->Object_0[i as int]));
                }
                r.push((key.to_owned(), document(value)));
                i = i + 1;
            }
            proof {
                lemma_named_trees(r@);
                assert(named_trees(r@) =~= tree->Object_0);
            }
            Json::Object(r)
        },
    }
}

/// Reads a document.
pub fn parse(s: &str) -> (r: Result<Json, JsonError>)
    ensures
        match r {
            Ok(doc) => json_document(s@) == Some(doc.tree()),
            Err(e) => e == JsonError::Malformed && json_document(s@) is None,
        },
{
    match read_value(s) {
        Ok(v) => Ok(document(&v)),
        Err(_) => Err(JsonError::Malformed),
    }
}

impl JsonTree {
    /// The value under a key, if this is an object that has one.
    pub open spec fn field(self, key: Seq<char>) -> Option<JsonTree> {
        match self {
            JsonTree::Object(entries) => first_under(entries, key),
            _ => None,
        }
    }

    /// The text, if this is one.
    pub open spec fn as_text(self) -> Option<Seq<char>> {
        match self {
            JsonTree::Text(s) => Some(s),
            _ => None,
        }
    }

    /// The text under a key.
    pub open spec fn text_field(self, key: Seq<char>) -> Option<Seq<char>> {
        match self.field(key) {
            Some(v) => v.as_text(),
            None => None,
        }
    }

    /// The row, if this is one.
    pub open spec fn as_array(self) -> Option<Seq<JsonTree>> {
        match self {
            JsonTree::Array(items) => Some(items),
            _ => None,
        }
    }

    /// The row under a key.
    pub open spec fn array_field(self, key: Seq<char>) -> Option<Seq<JsonTree>> {
        match self.field(key) {
            Some(v) => v.as_array(),
            None => None,
        }
    }

    /// The whole number, if this is one that is not negative.
    pub open spec fn as_unsigned(self) -> Option<u64> {
        match self {
            JsonTree::Unsigned(n) => Some(n),
            _ => None,
        }
    }

    /// The whole number, if this is one of 64 bits with its sign.
    pub open spec fn as_signed(self) -> Option<i64> {
        match self {
            JsonTree::Unsigned(n) => if n <= i64::MAX {
                Some(n as i64)
            } else {
                None
            },
            JsonTree::Negative(n) => Some(n),
            _ => None,
        }
    }

    /// The number, if this is one; a whole number rounded.
    pub open spec fn as_number(self) -> Option<Binary64> {
        match self {
            JsonTree::Unsigned(n) => Some(Binary64::whole(n as int)),
            JsonTree::Negative(n) => Some(Binary64::signed(n as int)),
            JsonTree::Float(x) => Some(x),
            _ => None,
        }
    }

    /// The number under a key.
    pub open spec fn number_field(self, key: Seq<char>) -> Option<Binary64> {
        match self.field(key) {
            Some(v) => v.as_number(),
            None => None,
        }
    }

    /// The number that the text under a key is the decimal form of.
    pub open spec fn decimal_field(self, key: Seq<char>) -> Option<Binary64> {
        match self.text_field(key) {
            Some(s) => decimal::number_text(s),
            None => None,
        }
    }

    /// The whole number under a key, if it is one that is not negative.
    pub open spec fn unsigned_field(self, key: Seq<char>) -> Option<u64> {
        match self.field(key) {
            Some(v) => v.as_unsigned(),
            None => None,
        }
    }

    /// The whole number under a key, with its sign.
    pub open spec fn signed_field(self, key: Seq<char>) -> Option<i64> {
        match self.field(key) {
            Some(v) => v.as_signed(),
            None => None,
        }
    }
}

/// The value of the first entry under a key.
pub open spec fn first_under(entries: Seq<(Seq<char>, JsonTree)>, key: Seq<char>) -> Option<
    JsonTree,
>
    decreases entries.len(),
{
    if entries.len() == 0 {
        None
    } else if entries[0].0 == key {
        Some(entries[0].1)
    } else {
        first_under(entries.skip(1), key)
    }
}

impl Json {
    /// The value under a key, if this is an object that has one.
    pub fn get(&self, key: &str) -> (r: Option<&Json>)
        ensures
            match r {
                Some(v) => self.tree().field(key@) == Some(v.tree()),
                None => self.tree().field(key@) is None,
            },
    {
        match self {
            Json::Object(entries) => {
                let ghost all = named_trees(entries@);
                let mut i: usize = 0;
                proof {
                    lemma_named_trees(entries@);
                    assert(all.skip(0) == all);
                }
                while i < entries.len()
                    invariant
                        i <= entries@.len(),
                        all == named_trees(entries@),
                        all.len() == entries@.len(),
                        forall|j: int|
                            0 <= j < entries@.len() ==> #[trigger] all[j] == (
                                entries@[j].0@,
                                entries@[j].1.tree(),
                            ),
                        self.tree() == JsonTree::Object(all),
                        first_under(all, key@) == first_under(all.skip(i as int), key@),
                    decreases entries.len() - i,
                {
                    proof {
                        assert(all.skip(i as int)[0] == all[i as int]);
                        assert(all.skip(i as int).skip(1) == all.skip(i + 1));
                    }
                    if text::same_text(entries[i].0.as_str(), key) {
                        return Some(&entries[i].1);
                    }
                    i = i + 1;
                }
                None
            },
            _ => None,
        }
    }

    /// The text, if this is one.
    pub fn as_str(&self) -> (r: Option<&str>)
        ensures
            match r {
                Some(s) => self.tree().as_text() == Some(s@),
                None => self.tree().as_text() is None,
            },
    {
        match self {
            Json::Text(s) => Some(s.as_str()),
            _ => None,
        }
    }

    /// The text under a key.
    pub fn text_field(&self, key: &str) -> (r: Option<&str>)
        ensures
            match r {
                Some(s) => self.tree().text_field(key@) == Some(s@),
                None => self.tree().text_field(key@) is None,
            },
    {
        match self.get(key) {
            Some(v) => v.as_str(),
            None => None,
        }
    }

    /// The row, if this is one.
    pub fn as_array(&self) -> (r: Option<&Vec<Json>>)
        ensures
            match r {
                Some(items) => self.tree().as_array() == Some(trees(items@)),
                None => self.tree().as_array() is None,
            },
    {
        match self {
            Json::Array(items) => Some(items),
            _ => None,
        }
    }

    /// The row under a key.
    pub fn array_field(&self, key: &str) -> (r: Option<&Vec<Json>>)
        ensures
            match r {
                Some(items) => self.tree().array_field(key@) == Some(trees(items@)),
                None => self.tree().array_field(key@) is None,
            },
    {
        match self.get(key) {
            Some(v) => v.as_array(),
            None => None,
        }
    }

    /// The whole number, if this is one that is not negative.
    pub fn as_u64(&self) -> (r: Option<u64>)
        ensures
            r == self.tree().as_unsigned(),
    {
        match self {
            Json::Unsigned(n) => Some(*n),
            _ => None,
        }
    }

    /// The whole number, if this is one of 64 bits with its sign.
    pub fn as_i64(&self) -> (r: Option<i64>)
        ensures
            r == self.tree().as_signed(),
    {
        match self {
            Json::Unsigned(n) => if *n <= i64::MAX as u64 {
                Some(*n as i64)
            } else {
                None
            },
            Json::Negative(n) => Some(*n),
            _ => None,
        }
    }

    /// The number, if this is one.
    pub fn as_number(&self) -> (r: Option<Binary64>)
        ensures
            r == self.tree().as_number(),
    {
        match self {
            Json::Unsigned(n) => Some(Binary64::from_u64(*n)),
            Json::Negative(n) => Some(Binary64::from_i64(*n)),
            Json::Float(x) => Some(*x),
            _ => None,
        }
    }

    /// The number under a key.
    pub fn number_field(&self, key: &str) -> (r: Option<Binary64>)
        ensures
            r == self.tree().number_field(key@),
    {
        match self.get(key) {
            Some(v) => v.as_number(),
            None => None,
        }
    }

    /// The number that the text under a key is the decimal form of.
    pub fn decimal_field(&self, key: &str) -> (r: Option<Binary64>)
        ensures
            r == self.tree().decimal_field(key@),
    {
        match self.text_field(key) {
            Some(s) => decimal::parse_number(s),
            None => None,
        }
    }

    /// The whole number under a key, if it is one that is not negative.
    pub fn unsigned_field(&self, key: &str) -> (r: Option<u64>)
        ensures
            r == self.tree().unsigned_field(key@),
    {
        match self.get(key) {
            Some(v) => v.as_u64(),
            None => None,
        }
    }

    /// The whole number under a key, with its sign.
    pub fn signed_field(&self, key: &str) -> (r: Option<i64>)
        ensures
            r == self.tree().signed_field(key@),
    {
        match self.get(key) {
            Some(v) => v.as_i64(),
            None => None,
        }
    }
}

/// One of a row of documents.
pub fn item(items: &Vec<Json>, i: usize) -> (r: &Json)
    requires
        i < items@.len(),
    ensures
        trees(items@).len() == items@.len(),
        r.tree() == trees(items@)[i as int],
{
    proof {
        lemma_trees(items@);
    }
    &items[i]
}

} // verus!
