//! The decoded tree, and its mathematical model.
use vstd::prelude::*;

verus! {

/// What a decoded value means: objects are maps, so their order is not part of it.
pub enum JsonModel {
    Str(Seq<char>),
    Num(Seq<char>),
    Arr(Seq<JsonModel>),
    Obj(Map<Seq<char>, JsonModel>),
    Bool(bool),
    Null,
}

/// Why a text could not be decoded.
#[derive(Debug, Clone, Copy, PartialEq, Eq, Structural)]
pub enum ParseError {
    /// The document is empty or all whitespace.
    EmptyInput,
    /// An opening or closing brace, bracket or quote is missing.
    MalformedDelimiters,
    /// An entry has no colon outside quotes.
    MissingSeparator,
    /// A value is neither a literal, a string, an array, an object nor a numeral.
    InvalidNumber,
    /// An empty value, or a key that is not a quoted string.
    InvalidLiteral,
}

/// A decoded value. A number keeps its numeral as written (it is a valid
/// 64-bit floating-point literal); reading it as a float is left to the caller.
#[allow(inconsistent_fields)]
#[derive(Debug)]
pub enum Value {
    String { value: String },
    Number { value: String },
    Array { value: Vec<Value> },
    Object { value: JSON },
    Boolean { value: bool },
    Null,
}

/// An object: entries with pairwise distinct keys.
#[derive(Debug)]
pub struct JSON {
    json: Vec<(String, Value)>,
}

impl Value {
    pub open spec fn view(&self) -> JsonModel
        decreases self,
    {
        match self {
            Value::String { value } => JsonModel::Str(value@),
            Value::Number { value } => JsonModel::Num(value@),
            Value::Array { value } => JsonModel::Arr(
                Seq::new(
                    value.len() as nat,
                    |i: int|
                        if 0 <= i < value.len() {
                            value[i].view()
                        } else {
                            JsonModel::Null
                        },
                ),
            ),
            Value::Object { value } => JsonModel::Obj(value.view()),
            Value::Boolean { value } => JsonModel::Bool(*value),
            Value::Null => JsonModel::Null,
        }
    }

    /// Every object inside has pairwise distinct keys.
    pub open spec fn wf(&self) -> bool
        decreases self,
    {
        match self {
            Value::Array { value } => forall|i: int| 0 <= i < value.len() ==> (#[trigger] value[i]).wf(),
            Value::Object { value } => value.wf(),
            _ => true,
        }
    }
}

impl JSON {
    pub closed spec fn has_key_at(&self, k: Seq<char>, i: int) -> bool {
        0 <= i < self.json.len() && self.json[i].0@ == k
    }

    /// The mapping from keys to the models of their values.
    pub closed spec fn view(&self) -> Map<Seq<char>, JsonModel>
        decreases self,
    {
        Map::new(
            |k: Seq<char>| exists|i: int| self.has_key_at(k, i),
            |k: Seq<char>|
                {
                    let i = choose|i: int| self.has_key_at(k, i);
                    if 0 <= i < self.json.len() {
                        self.json[i].1.view()
                    } else {
                        JsonModel::Null
                    }
                },
        )
    }

    /// No key occurs twice, and every value is well formed.
    pub closed spec fn wf(&self) -> bool
        decreases self,
    {
        &&& forall|i: int, j: int|
            0 <= i < j < self.json.len() ==> self.json[i].0@ != self.json[j].0@
        &&& forall|i: int| 0 <= i < self.json.len() ==> (#[trigger] self.json[i]).1.wf()
    }

    proof fn lemma_view_at(&self, i: int)
        requires
            self.wf(),
            0 <= i < self.json.len(),
        ensures
            self.view().contains_key(self.json[i].0@),
            self.view()[self.json[i].0@] == self.json[i].1.view(),
    {
        let k = self.json[i].0@;
        assert(self.has_key_at(k, i));
        let j = choose|j: int| self.has_key_at(k, j);
        if j != i {
            assert(self.json[j].0@ == self.json[i].0@);
        }
    }

    /// The object with no entries.
    pub fn new() -> (r: JSON)
        ensures
            r.wf(),
            r@ == Map::<Seq<char>, JsonModel>::empty(),
    {
        let r = JSON { json: Vec::new() };
        assert(r@ =~= Map::<Seq<char>, JsonModel>::empty());
        r
    }

    /// This object with `key` mapped to `value`; an earlier entry of the key is replaced.
    pub fn with_entry(self, key: String, value: Value) -> (r: JSON)
        requires
            self.wf(),
            value.wf(),
        ensures
            r.wf(),
            r@ == self@.insert(key@, value@),
    {
        let ghost old_self = self;
        let ghost kv = key@;
        let ghost vv = value@;
        let mut entries = self.json;
        let mut i: usize = 0;
        while i < entries.len() && entries[i].0 != key
            invariant
                entries == old_self.json,
                old_self.wf(),
                key@ == kv,
                i <= entries.len(),
                forall|j: int| 0 <= j < i ==> entries[j].0@ != kv,
            decreases entries.len() - i,
        {
            i = i + 1;
        }
        if i < entries.len() {
            entries.set(i, (key, value));
            let r = JSON { json: entries };
            proof {
                assert forall|a: int, b: int| 0 <= a < b < r.json.len() implies r.json[a].0@ != r.json[b].0@ by {
                    assert(old_self.json[a].0@ != old_self.json[b].0@);
                }
                assert forall|a: int| 0 <= a < r.json.len() implies (#[trigger] r.json[a]).1.wf() by {
                    if a != i {
                        assert(old_self.json[a] == r.json[a]);
                    }
                }
                assert forall|k: Seq<char>| #[trigger] r@.contains_key(k) == old_self@.insert(kv, vv).contains_key(k) by {
                    if exists|j: int| old_self.has_key_at(k, j) {
                        let j = choose|j: int| old_self.has_key_at(k, j);
                        assert(r.has_key_at(k, j) || k == kv);
                    }
                    if exists|j: int| r.has_key_at(k, j) {
                        let j = choose|j: int| r.has_key_at(k, j);
                        assert(old_self.has_key_at(k, j) || k == kv);
                    }
                    if k == kv {
                        assert(r.has_key_at(k, i as int));
                        assert(old_self.has_key_at(k, i as int));
                    }
                }
                assert forall|k: Seq<char>| #[trigger] r@.contains_key(k) implies r@[k] == old_self@.insert(kv, vv)[k] by {
                    let j = choose|j: int| r.has_key_at(k, j);
                    r.lemma_view_at(j);
                    if j != i {
                        old_self.lemma_view_at(j);
                    }
                }
                assert(r@ =~= old_self@.insert(kv, vv));
            }
            return r;
        }
        entries.push((key, value));
        let r = JSON { json: entries };
        proof {
            let n = old_self.json.len() as int;
            assert forall|a: int, b: int| 0 <= a < b < r.json.len() implies r.json[a].0@ != r.json[b].0@ by {
                if b < n {
                    assert(old_self.json[a].0@ != old_self.json[b].0@);
                }
            }
            assert forall|a: int| 0 <= a < r.json.len() implies (#[trigger] r.json[a]).1.wf() by {
                if a < n {
                    assert(old_self.json[a] == r.json[a]);
                }
            }
            assert forall|k: Seq<char>| #[trigger] r@.contains_key(k) == old_self@.insert(kv, vv).contains_key(k) by {
                if exists|j: int| old_self.has_key_at(k, j) {
                    let j = choose|j: int| old_self.has_key_at(k, j);
                    assert(r.has_key_at(k, j));
                }
                if exists|j: int| r.has_key_at(k, j) {
                    let j = choose|j: int| r.has_key_at(k, j);
                    assert(old_self.has_key_at(k, j) || k == kv);
                }
                if k == kv {
                    assert(r.has_key_at(k, n));
                }
            }
            assert forall|k: Seq<char>| #[trigger] r@.contains_key(k) implies r@[k] == old_self@.insert(kv, vv)[k] by {
                let j = choose|j: int| r.has_key_at(k, j);
                r.lemma_view_at(j);
                if j != n {
                    old_self.lemma_view_at(j);
                }
            }
            assert(r@ =~= old_self@.insert(kv, vv));
        }
        r
    }

    /// The number of entries, that is of distinct keys.
    pub fn len(&self) -> (r: usize)
        requires
            self.wf(),
        ensures
            r == self@.dom().len(),
    {
        proof {
            self.lemma_dom_len();
        }
        self.json.len()
    }

    proof fn lemma_dom_len(&self)
        requires
            self.wf(),
        ensures
            self@.dom().len() == self.json.len(),
            self@.dom().finite(),
    {
        let keys = Seq::new(self.json.len() as nat, |i: int| self.json[i].0@);
        assert(keys.no_duplicates());
        assert(self@.dom() =~= keys.to_set()) by {
            assert forall|k: Seq<char>| self@.dom().contains(k) implies keys.to_set().contains(k) by {
                let j = choose|j: int| self.has_key_at(k, j);
                assert(keys[j] == k);
            }
            assert forall|k: Seq<char>| keys.to_set().contains(k) implies self@.dom().contains(k) by {
                let j = choose|j: int| 0 <= j < keys.len() && keys[j] == k;
                assert(self.has_key_at(k, j));
            }
        }
        keys.unique_seq_to_set();
    }

    /// The value of `key`, if the object has it.
    pub fn get(&self, key: &str) -> (r: Option<&Value>)
        requires
            self.wf(),
        ensures
            match r {
                Some(v) => self@.contains_key(key@) && v@ == self@[key@] && v.wf(),
                None => !self@.contains_key(key@),
            },
    {
        let k = key.to_owned();
        let mut i: usize = 0;
        while i < self.json.len()
            invariant
                k@ == key@,
                self.wf(),
                i <= self.json.len(),
                forall|j: int| 0 <= j < i ==> self.json[j].0@ != key@,
            decreases self.json.len() - i,
        {
            if self.json[i].0 == k {
                proof {
                    self.lemma_view_at(i as int);
                }
                return Some(&self.json[i as usize].1);
            }
            i = i + 1;
        }
        proof {
            if self@.contains_key(key@) {
                let j = choose|j: int| self.has_key_at(key@, j);
            }
        }
        None
    }
}

} // verus!
