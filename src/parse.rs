//! Decoding text into values: the meaning of a decode as spec functions over
//! characters, and the decoder proved to compute it.
use vstd::prelude::*;
use vstd::string::StrSliceExecFns;
use crate::number::{is_numeral, numeral};
use crate::scan::{chars_of, find_unnested_in, first_unnested};
use crate::text::{lemma_trim_len, lemma_trim_start_len, same_chars, trim, trim_bounds, trim_start};
use crate::value::{JsonModel, ParseError, Value, JSON};

verus! {

broadcast use vstd::string::group_string_axioms;

pub open spec fn word_null() -> Seq<char> {
    seq!['n', 'u', 'l', 'l']
}

pub open spec fn word_true() -> Seq<char> {
    seq!['t', 'r', 'u', 'e']
}

pub open spec fn word_false() -> Seq<char> {
    seq!['f', 'a', 'l', 's', 'e']
}

/// `s` without its first and last character.
pub open spec fn inner(s: Seq<char>) -> Seq<char> {
    s.subrange(1, s.len() - 1)
}

/// A quoted span decodes to its inside, taken verbatim.
pub open spec fn string_of(v: Seq<char>) -> Result<JsonModel, ParseError> {
    if v.len() >= 2 && v[0] == '"' && v.last() == '"' {
        Ok(JsonModel::Str(inner(v)))
    } else {
        Err(ParseError::MalformedDelimiters)
    }
}

/// A numeral decodes to a number that keeps it.
pub open spec fn number_of(v: Seq<char>) -> Result<JsonModel, ParseError> {
    if is_numeral(v) {
        Ok(JsonModel::Num(v))
    } else {
        Err(ParseError::InvalidNumber)
    }
}

/// The decode of one value: whitespace around it is dropped, the literals
/// match exactly, then the first character picks a string, an array, an
/// object or a numeral.
pub open spec fn value_of(s: Seq<char>) -> Result<JsonModel, ParseError>
    decreases s.len(), 1int,
    via value_of_decreases
{
    let v = trim(s);
    if v == word_null() {
        Ok(JsonModel::Null)
    } else if v == word_true() {
        Ok(JsonModel::Bool(true))
    } else if v == word_false() {
        Ok(JsonModel::Bool(false))
    } else if v.len() == 0 {
        Err(ParseError::InvalidLiteral)
    } else if v[0] == '"' {
        string_of(v)
    } else if v[0] == '[' {
        if v.len() >= 2 && v.last() == ']' {
            match elements_of(inner(v)) {
                Ok(xs) => Ok(JsonModel::Arr(xs)),
                Err(e) => Err(e),
            }
        } else {
            Err(ParseError::MalformedDelimiters)
        }
    } else if v[0] == '{' {
        match object_of(v) {
            Ok(m) => Ok(JsonModel::Obj(m)),
            Err(e) => Err(e),
        }
    } else {
        number_of(v)
    }
}

#[via_fn]
proof fn value_of_decreases(s: Seq<char>) {
    lemma_trim_len(s);
}

/// The elements of an array body: its top-level comma-separated segments
/// (commas inside `[`/`]` do not split), each decoded in order.
pub open spec fn elements_of(body: Seq<char>) -> Result<Seq<JsonModel>, ParseError>
    decreases body.len(), 2int,
{
    if body.len() == 0 {
        Ok(Seq::empty())
    } else {
        match first_unnested(body, ',', '[', ']') {
            Some(i) if 0 <= i < body.len() => match value_of(body.take(i)) {
                Ok(x) => match elements_of(body.skip(i + 1)) {
                    Ok(xs) => Ok(seq![x] + xs),
                    Err(e) => Err(e),
                },
                Err(e) => Err(e),
            },
            _ => match value_of(body) {
                Ok(x) => Ok(seq![x]),
                Err(e) => Err(e),
            },
        }
    }
}

/// The decode of a key: whitespace around it is dropped, then it must be a
/// quoted span, whose inside is the key.
pub open spec fn key_of(s: Seq<char>) -> Option<Seq<char>> {
    let t = trim(s);
    if t.len() >= 2 && t[0] == '"' && t.last() == '"' {
        Some(inner(t))
    } else {
        None
    }
}

/// The decode of one `key: value` entry, split at the first colon outside quotes.
pub open spec fn entry_of(s: Seq<char>) -> Result<(Seq<char>, JsonModel), ParseError>
    decreases s.len(), 0int,
{
    match first_unnested(s, ':', '"', '"') {
        Some(c) if 0 <= c < s.len() => match key_of(s.take(c)) {
            Some(k) => match value_of(s.skip(c + 1)) {
                Ok(v) => Ok((k, v)),
                Err(e) => Err(e),
            },
            None => Err(ParseError::InvalidLiteral),
        },
        _ => Err(ParseError::MissingSeparator),
    }
}

/// The entries of an object body added to `acc` in order, a later entry of a
/// key replacing an earlier one.
pub open spec fn entries_of(body: Seq<char>, acc: Map<Seq<char>, JsonModel>) -> Result<
    Map<Seq<char>, JsonModel>,
    ParseError,
>
    decreases body.len(), 1int,
{
    if body.len() == 0 {
        Ok(acc)
    } else {
        match first_unnested(body, ',', '[', ']') {
            Some(i) if 0 <= i < body.len() => match entry_of(body.take(i)) {
                Ok(kv) => entries_of(body.skip(i + 1), acc.insert(kv.0, kv.1)),
                Err(e) => Err(e),
            },
            _ => match entry_of(body) {
                Ok(kv) => Ok(acc.insert(kv.0, kv.1)),
                Err(e) => Err(e),
            },
        }
    }
}

/// The decode of an object: it must not be blank; past its leading
/// whitespace it must begin with `{`, its very last character must be `}`,
/// and what is between the two is its entries (an empty body has none).
pub open spec fn object_of(s: Seq<char>) -> Result<Map<Seq<char>, JsonModel>, ParseError>
    decreases s.len(), 0int,
    via object_of_decreases
{
    let t = trim_start(s);
    if t.len() == 0 {
        Err(ParseError::EmptyInput)
    } else if t.len() < 2 || t[0] != '{' || t.last() != '}' {
        Err(ParseError::MalformedDelimiters)
    } else {
        entries_of(inner(t), Map::empty())
    }
}

#[via_fn]
proof fn object_of_decreases(s: Seq<char>) {
    lemma_trim_start_len(s);
}

} // verus!

verus! {

/// The model of a decode result.
pub open spec fn value_result(r: Result<Value, ParseError>) -> Result<JsonModel, ParseError> {
    match r {
        Ok(v) => Ok(v@),
        Err(e) => Err(e),
    }
}

pub open spec fn values_view(v: Seq<Value>) -> Seq<JsonModel> {
    Seq::new(v.len(), |i: int| v[i]@)
}

/// `prefix` put before the elements of `r`.
pub open spec fn prepend(prefix: Seq<JsonModel>, r: Result<Seq<JsonModel>, ParseError>) -> Result<
    Seq<JsonModel>,
    ParseError,
> {
    match r {
        Ok(xs) => Ok(prefix + xs),
        Err(e) => Err(e),
    }
}

proof fn lemma_array_view(out: Vec<Value>)
    ensures
        (Value::Array { value: out })@ == JsonModel::Arr(values_view(out@)),
{
    assert((Value::Array { value: out })@->Arr_0 =~= values_view(out@));
}

fn copy_chars(src: &str, cs: &Vec<char>, lo: usize, hi: usize) -> (r: String)
    requires
        cs@ == src@,
        lo <= hi <= cs.len(),
    ensures
        r@ == cs@.subrange(lo as int, hi as int),
{
    src.substring_char(lo, hi).to_owned()
}

fn value_in(src: &str, cs: &Vec<char>, lo: usize, hi: usize) -> (r: Result<Value, ParseError>)
    requires
        cs@ == src@,
        lo <= hi <= cs.len(),
    ensures
        value_result(r) == value_of(cs@.subrange(lo as int, hi as int)),
        r matches Ok(v) ==> v.wf(),
    decreases hi - lo, 1int,
{
    let ghost s = cs@.subrange(lo as int, hi as int);
    let (a, b) = trim_bounds(cs, lo, hi);
    let ghost v = cs@.subrange(a as int, b as int);
    assert(v == trim(s));
    proof {
        lemma_trim_len(s);
    }
    if same_chars(cs, a, b, &vec!['n', 'u', 'l', 'l']) {
        assert(v == word_null());
        return Ok(Value::Null);
    }
    assert(v != word_null());
    if same_chars(cs, a, b, &vec!['t', 'r', 'u', 'e']) {
        assert(v == word_true());
        return Ok(Value::Boolean { value: true });
    }
    assert(v != word_true());
    if same_chars(cs, a, b, &vec!['f', 'a', 'l', 's', 'e']) {
        assert(v == word_false());
        return Ok(Value::Boolean { value: false });
    }
    assert(v != word_false()) by {
        if v == word_false() {
            assert(seq!['f', 'a', 'l', 's', 'e'] =~= word_false());
        }
    }
    if a == b {
        return Err(ParseError::InvalidLiteral);
    }
    let first = cs[a];
    assert(v[0] == first);
    if b - a >= 2 {
        assert(v.last() == cs@[b - 1]);
        assert(inner(v) =~= cs@.subrange(a + 1, b - 1));
    }
    if first == '"' {
        string_in(src, cs, a, b)
    } else if first == '[' {
        if b - a >= 2 && cs[b - 1] == ']' {
            match array_in(src, cs, a + 1, b - 1) {
                Ok(out) => {
                    proof {
                        lemma_array_view(out);
                    }
                    Ok(Value::Array { value: out })
                },
                Err(e) => Err(e),
            }
        } else {
            Err(ParseError::MalformedDelimiters)
        }
    } else if first == '{' {
        match object_in(src, cs, a, b) {
            Ok(j) => Ok(Value::Object { value: j }),
            Err(e) => Err(e),
        }
    } else {
        number_in(src, cs, a, b)
    }
}

fn string_in(src: &str, cs: &Vec<char>, lo: usize, hi: usize) -> (r: Result<Value, ParseError>)
    requires
        cs@ == src@,
        lo <= hi <= cs.len(),
    ensures
        value_result(r) == string_of(cs@.subrange(lo as int, hi as int)),
        r matches Ok(v) ==> v.wf(),
{
    let ghost v = cs@.subrange(lo as int, hi as int);
    if hi - lo >= 2 && cs[lo] == '"' && cs[hi - 1] == '"' {
        assert(inner(v) =~= cs@.subrange(lo + 1, hi - 1));
        Ok(Value::String { value: copy_chars(src, cs, lo + 1, hi - 1) })
    } else {
        assert(hi - lo >= 2 ==> v[0] == cs@[lo as int] && v.last() == cs@[hi - 1]);
        Err(ParseError::MalformedDelimiters)
    }
}

fn number_in(src: &str, cs: &Vec<char>, lo: usize, hi: usize) -> (r: Result<Value, ParseError>)
    requires
        cs@ == src@,
        lo <= hi <= cs.len(),
    ensures
        value_result(r) == number_of(cs@.subrange(lo as int, hi as int)),
        r matches Ok(v) ==> v.wf(),
{
    if numeral(cs, lo, hi) {
        Ok(Value::Number { value: copy_chars(src, cs, lo, hi) })
    } else {
        Err(ParseError::InvalidNumber)
    }
}

/// The elements of the array body `cs[lo..hi]`.
fn array_in(src: &str, cs: &Vec<char>, lo: usize, hi: usize) -> (r: Result<Vec<Value>, ParseError>)
    requires
        cs@ == src@,
        lo <= hi <= cs.len(),
    ensures
        r matches Ok(out) ==> forall|i: int| 0 <= i < out.len() ==> (#[trigger] out[i]).wf(),
        match r {
            Ok(out) => elements_of(cs@.subrange(lo as int, hi as int)) == Ok::<Seq<JsonModel>, ParseError>(
                values_view(out@),
            ),
            Err(e) => elements_of(cs@.subrange(lo as int, hi as int)) == Err::<Seq<JsonModel>, ParseError>(e),
        },
    decreases hi - lo, 2int,
{
    let mut out: Vec<Value> = Vec::new();
    let ghost body = cs@.subrange(lo as int, hi as int);
    let mut pos = lo;
    proof {
        assert(values_view(out@) =~= Seq::<JsonModel>::empty());
        match elements_of(body) {
            Ok(xs) => {
                assert(values_view(out@) + xs =~= xs);
            },
            Err(e) => {},
        }
    }
    while pos < hi
        invariant
            cs@ == src@,
            lo <= pos <= hi <= cs.len(),
            body == cs@.subrange(lo as int, hi as int),
            forall|j: int| 0 <= j < out.len() ==> (#[trigger] out[j]).wf(),
            elements_of(body) == prepend(values_view(out@), elements_of(cs@.subrange(pos as int, hi as int))),
        decreases hi - pos,
    {
        let ghost rest = cs@.subrange(pos as int, hi as int);
        match find_unnested_in(cs, pos, hi, ',', '[', ']') {
            Some(i) => {
                assert(rest.take(i as int) =~= cs@.subrange(pos as int, (pos + i) as int));
                assert(rest.skip(i + 1) =~= cs@.subrange((pos + i + 1) as int, hi as int));
                match value_in(src, cs, pos, pos + i) {
                    Ok(x) => {
                        let ghost before = values_view(out@);
                        out.push(x);
                        assert(values_view(out@) =~= before + seq![x@]);
                        proof {
                            match elements_of(rest.skip(i + 1)) {
                                Ok(xs) => {
                                    assert(before + (seq![x@] + xs) =~= values_view(out@) + xs);
                                },
                                Err(e) => {},
                            }
                        }
                        pos = pos + i + 1;
                    },
                    Err(e) => {
                        return Err(e);
                    },
                }
            },
            None => {
                match value_in(src, cs, pos, hi) {
                    Ok(x) => {
                        let ghost before = values_view(out@);
                        out.push(x);
                        assert(values_view(out@) =~= before + seq![x@]);
                        pos = hi;
                        assert(cs@.subrange(pos as int, hi as int) =~= Seq::<char>::empty());
                        assert(values_view(out@) + Seq::<JsonModel>::empty() =~= values_view(out@));
                    },
                    Err(e) => {
                        return Err(e);
                    },
                }
            },
        }
    }
    assert(values_view(out@) + Seq::<JsonModel>::empty() =~= values_view(out@));
    Ok(out)
}

fn key_in(src: &str, cs: &Vec<char>, lo: usize, hi: usize) -> (r: Option<String>)
    requires
        cs@ == src@,
        lo <= hi <= cs.len(),
    ensures
        match r {
            Some(k) => key_of(cs@.subrange(lo as int, hi as int)) == Some(k@),
            None => key_of(cs@.subrange(lo as int, hi as int)) is None,
        },
{
    let (a, b) = trim_bounds(cs, lo, hi);
    let ghost t = cs@.subrange(a as int, b as int);
    if b - a >= 2 && cs[a] == '"' && cs[b - 1] == '"' {
        assert(inner(t) =~= cs@.subrange(a + 1, b - 1));
        Some(copy_chars(src, cs, a + 1, b - 1))
    } else {
        assert(b - a >= 2 ==> t[0] == cs@[a as int] && t.last() == cs@[b - 1]);
        None
    }
}

fn entry_in(src: &str, cs: &Vec<char>, lo: usize, hi: usize) -> (r: Result<(String, Value), ParseError>)
    requires
        cs@ == src@,
        lo <= hi <= cs.len(),
    ensures
        r matches Ok(kv) ==> kv.1.wf(),
        match r {
            Ok(kv) => entry_of(cs@.subrange(lo as int, hi as int)) == Ok::<(Seq<char>, JsonModel), ParseError>((kv.0@, kv.1@)),
            Err(e) => entry_of(cs@.subrange(lo as int, hi as int)) == Err::<(Seq<char>, JsonModel), ParseError>(e),
        },
    decreases hi - lo, 0int,
{
    let ghost s = cs@.subrange(lo as int, hi as int);
    match find_unnested_in(cs, lo, hi, ':', '"', '"') {
        Some(c) => {
            assert(s.take(c as int) =~= cs@.subrange(lo as int, (lo + c) as int));
            assert(s.skip(c + 1) =~= cs@.subrange((lo + c + 1) as int, hi as int));
            match key_in(src, cs, lo, lo + c) {
                Some(k) => match value_in(src, cs, lo + c + 1, hi) {
                    Ok(v) => Ok((k, v)),
                    Err(e) => Err(e),
                },
                None => Err(ParseError::InvalidLiteral),
            }
        },
        None => Err(ParseError::MissingSeparator),
    }
}

fn object_in(src: &str, cs: &Vec<char>, lo: usize, hi: usize) -> (r: Result<JSON, ParseError>)
    requires
        cs@ == src@,
        lo <= hi <= cs.len(),
    ensures
        match r {
            Ok(j) => j.wf() && object_of(cs@.subrange(lo as int, hi as int)) == Ok::<Map<Seq<char>, JsonModel>, ParseError>(j@),
            Err(e) => object_of(cs@.subrange(lo as int, hi as int)) == Err::<Map<Seq<char>, JsonModel>, ParseError>(e),
        },
    decreases hi - lo, 0int,
{
    let ghost s = cs@.subrange(lo as int, hi as int);
    let (a, _) = trim_bounds(cs, lo, hi);
    let b = hi;
    let ghost t = cs@.subrange(a as int, b as int);
    assert(t == trim_start(s));
    if a == b {
        return Err(ParseError::EmptyInput);
    }
    if b - a < 2 || cs[a] != '{' || cs[b - 1] != '}' {
        assert(b - a >= 2 ==> t[0] == cs@[a as int] && t.last() == cs@[b - 1]);
        return Err(ParseError::MalformedDelimiters);
    }
    assert(t[0] == cs@[a as int] && t.last() == cs@[b - 1]);
    let ghost body = cs@.subrange(a + 1, b - 1);
    assert(inner(t) =~= body);
    let mut acc = JSON::new();
    assert(object_of(s) == entries_of(body, Map::empty()));
    let end = b - 1;
    let mut pos = a + 1;
    while pos < end
        invariant
            cs@ == src@,
            a + 1 <= pos <= end <= cs.len(),
            end - (a + 1) < hi - lo,
            body == cs@.subrange(a + 1, end as int),
            acc.wf(),
            object_of(cs@.subrange(lo as int, hi as int)) == entries_of(body, Map::empty()),
            entries_of(body, Map::empty()) == entries_of(cs@.subrange(pos as int, end as int), acc@),
        decreases end - pos,
    {
        let ghost rest = cs@.subrange(pos as int, end as int);
        match find_unnested_in(cs, pos, end, ',', '[', ']') {
            Some(i) => {
                assert(rest.take(i as int) =~= cs@.subrange(pos as int, (pos + i) as int));
                assert(rest.skip(i + 1) =~= cs@.subrange((pos + i + 1) as int, end as int));
                match entry_in(src, cs, pos, pos + i) {
                    Ok(kv) => {
                        let (k, v) = kv;
                        acc = acc.with_entry(k, v);
                        pos = pos + i + 1;
                    },
                    Err(e) => {
                        return Err(e);
                    },
                }
            },
            None => {
                match entry_in(src, cs, pos, end) {
                    Ok(kv) => {
                        let (k, v) = kv;
                        acc = acc.with_entry(k, v);
                        pos = end;
                        assert(cs@.subrange(pos as int, end as int) =~= Seq::<char>::empty());
                    },
                    Err(e) => {
                        return Err(e);
                    },
                }
            },
        }
    }
    Ok(acc)
}

} // verus!

verus! {

impl JSON {
    /// Decodes a document, which is an object.
    pub fn parse(content: String) -> (r: Result<JSON, ParseError>)
        ensures
            match r {
                Ok(j) => j.wf() && object_of(content@) == Ok::<Map<Seq<char>, JsonModel>, ParseError>(j@),
                Err(e) => object_of(content@) == Err::<Map<Seq<char>, JsonModel>, ParseError>(e),
            },
    {
        let src = content.as_str();
        let cs = chars_of(src);
        let n = cs.len();
        assert(cs@.subrange(0, n as int) =~= content@);
        object_in(src, &cs, 0, n)
    }

    /// Decodes one value.
    pub fn parse_value(content: String) -> (r: Result<Value, ParseError>)
        ensures
            value_result(r) == value_of(content@),
            r matches Ok(v) ==> v.wf(),
    {
        let src = content.as_str();
        let cs = chars_of(src);
        let n = cs.len();
        assert(cs@.subrange(0, n as int) =~= content@);
        value_in(src, &cs, 0, n)
    }

    /// Decodes a string value: a quoted span, kept verbatim inside its quotes.
    pub fn parse_string(content: &String) -> (r: Result<Value, ParseError>)
        ensures
            value_result(r) == string_of(content@),
    {
        let src = content.as_str();
        let cs = chars_of(src);
        let n = cs.len();
        assert(cs@.subrange(0, n as int) =~= content@);
        string_in(src, &cs, 0, n)
    }

    /// Decodes a number: the text must be a numeral, which the number keeps.
    pub fn parse_number(content: &String) -> (r: Result<Value, ParseError>)
        ensures
            value_result(r) == number_of(content@),
    {
        let src = content.as_str();
        let cs = chars_of(src);
        let n = cs.len();
        assert(cs@.subrange(0, n as int) =~= content@);
        number_in(src, &cs, 0, n)
    }

    /// Decodes one `key: value` entry.
    pub fn parse_entry(content: String) -> (r: Result<(String, Value), ParseError>)
        ensures
            r matches Ok(kv) ==> kv.1.wf(),
            match r {
                Ok(kv) => entry_of(content@) == Ok::<(Seq<char>, JsonModel), ParseError>((kv.0@, kv.1@)),
                Err(e) => entry_of(content@) == Err::<(Seq<char>, JsonModel), ParseError>(e),
            },
    {
        let src = content.as_str();
        let cs = chars_of(src);
        let n = cs.len();
        assert(cs@.subrange(0, n as int) =~= content@);
        entry_in(src, &cs, 0, n)
    }

    /// Decodes a key: a quoted span, possibly with whitespace around it.
    pub fn parse_key(key: String) -> (r: Result<String, ParseError>)
        ensures
            match r {
                Ok(k) => key_of(key@) == Some(k@),
                Err(e) => key_of(key@) is None && e == ParseError::InvalidLiteral,
            },
    {
        let src = key.as_str();
        let cs = chars_of(src);
        let n = cs.len();
        assert(cs@.subrange(0, n as int) =~= key@);
        match key_in(src, &cs, 0, n) {
            Some(k) => Ok(k),
            None => Err(ParseError::InvalidLiteral),
        }
    }
}

} // verus!
