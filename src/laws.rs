//! What holds across the decoder: decoding what an encoder wrote gives back
//! the tree that it wrote, within the limits of the format.
use vstd::prelude::*;
use crate::number::{all_digits, is_decimal, is_digit, is_exp_mark, is_exponent, is_numeral, is_sign, is_special, is_unsigned_numeral, lemma_decimal_chars, spells};
use crate::parse::{elements_of, entries_of, entry_of, inner, object_of, value_of, word_false, word_null, word_true};
use crate::scan::{depth_at, lemma_depth_concat, lemma_depth_prefix, first_unnested, lemma_first_unnested_is, lemma_first_unnested_none, unnested_at};
use crate::text::{is_space, trim, trim_end, trim_start};
use crate::value::{JsonModel, ParseError};

verus! {

/// A tree as an encoder sees it: an object lists its entries in the order
/// in which they are written.
pub enum Doc {
    Str(Seq<char>),
    Num(Seq<char>),
    Arr(Seq<Doc>),
    Obj(Seq<(Seq<char>, Doc)>),
    Bool(bool),
    Null,
}

/// The text an encoder writes for `d`, putting the whitespace `w` in every
/// gap between tokens: after an opening and before a closing brace or
/// bracket, and on both sides of every comma and colon. An empty array or
/// object is written `[]` or `{}`.
pub open spec fn render(d: Doc, w: Seq<char>) -> Seq<char>
    decreases d,
{
    match d {
        Doc::Str(s) => seq!['"'] + s + seq!['"'],
        Doc::Num(s) => s,
        Doc::Bool(b) => if b {
            word_true()
        } else {
            word_false()
        },
        Doc::Null => word_null(),
        Doc::Arr(xs) => if xs.len() == 0 {
            seq!['[', ']']
        } else {
            seq!['['] + w + render_list(xs, w) + w + seq![']']
        },
        Doc::Obj(es) => if es.len() == 0 {
            seq!['{', '}']
        } else {
            seq!['{'] + w + render_entries(es, w) + w + seq!['}']
        },
    }
}

/// The elements of `xs`, separated by commas.
pub open spec fn render_list(xs: Seq<Doc>, w: Seq<char>) -> Seq<char>
    decreases xs,
{
    if xs.len() == 0 {
        Seq::empty()
    } else if xs.len() == 1 {
        render(xs[0], w)
    } else {
        render(xs[0], w) + w + seq![','] + w + render_list(xs.drop_first(), w)
    }
}

/// `"key":value`
pub open spec fn render_entry(k: Seq<char>, d: Doc, w: Seq<char>) -> Seq<char> {
    seq!['"'] + k + seq!['"'] + w + seq![':'] + w + render(d, w)
}

/// The entries of `es`, separated by commas.
pub open spec fn render_entries(es: Seq<(Seq<char>, Doc)>, w: Seq<char>) -> Seq<char>
    decreases es,
{
    if es.len() == 0 {
        Seq::empty()
    } else if es.len() == 1 {
        seq!['"'] + es[0].0 + seq!['"'] + w + seq![':'] + w + render(es[0].1, w)
    } else {
        seq!['"'] + es[0].0 + seq!['"'] + w + seq![':'] + w + render(es[0].1, w) + w + seq![','] + w
            + render_entries(
            es.drop_first(),
            w,
        )
    }
}

/// Only whitespace.
pub open spec fn blank(w: Seq<char>) -> bool {
    forall|i: int| 0 <= i < w.len() ==> is_space(#[trigger] w[i])
}

/// What `d` means once decoded: an object's entries go into a map in order,
/// a later entry of a key replacing an earlier one.
pub open spec fn model(d: Doc) -> JsonModel
    decreases d,
{
    match d {
        Doc::Str(s) => JsonModel::Str(s),
        Doc::Num(s) => JsonModel::Num(s),
        Doc::Bool(b) => JsonModel::Bool(b),
        Doc::Null => JsonModel::Null,
        Doc::Arr(xs) => JsonModel::Arr(
            Seq::new(
                xs.len(),
                |i: int|
                    if 0 <= i < xs.len() {
                        model(xs[i])
                    } else {
                        JsonModel::Null
                    },
            ),
        ),
        Doc::Obj(es) => JsonModel::Obj(add_entries(Map::empty(), es)),
    }
}

/// `acc` with the entries of `es` added in order.
pub open spec fn add_entries(acc: Map<Seq<char>, JsonModel>, es: Seq<(Seq<char>, Doc)>) -> Map<
    Seq<char>,
    JsonModel,
>
    decreases es,
{
    if es.len() == 0 {
        acc
    } else {
        add_entries(acc.insert(es[0].0, model(es[0].1)), es.drop_first())
    }
}

/// The characters that delimit structure; the format has no escapes for them.
pub open spec fn is_structural(c: char) -> bool {
    c == '"' || c == ',' || c == ':' || c == '{' || c == '}' || c == '[' || c == ']'
}

pub open spec fn plain_text(s: Seq<char>) -> bool {
    forall|i: int| 0 <= i < s.len() ==> !is_structural(#[trigger] s[i])
}

/// `d` stays within what the format can carry: strings and keys hold no
/// structural character, numbers are numerals, and an object below the top
/// level has at most one entry (its entries are split at every comma that is
/// not inside brackets).
pub open spec fn plain(d: Doc, nested: bool) -> bool
    decreases d,
{
    match d {
        Doc::Str(s) => plain_text(s),
        Doc::Num(s) => is_numeral(s),
        Doc::Arr(xs) => forall|i: int| 0 <= i < xs.len() ==> plain(#[trigger] xs[i], true),
        Doc::Obj(es) => (nested ==> es.len() <= 1) && forall|i: int|
            0 <= i < es.len() ==> plain_text(#[trigger] es[i].0) && plain(es[i].1, true),
        _ => true,
    }
}

} // verus!

verus! {

pub open spec fn bdepth(r: Seq<char>, n: int) -> int {
    depth_at(r, n, '[', ']')
}

/// The bracket depth never drops below zero and ends at zero.
pub open spec fn level(r: Seq<char>) -> bool {
    &&& forall|n: int| 0 <= n <= r.len() ==> #[trigger] bdepth(r, n) >= 0
    &&& bdepth(r, r.len() as int) == 0
}

/// Level, and every comma stands inside brackets.
pub open spec fn balanced(r: Seq<char>) -> bool {
    &&& level(r)
    &&& forall|j: int| 0 <= j < r.len() && r[j] == ',' ==> #[trigger] bdepth(r, j + 1) > 0
}

/// No bracket and no comma.
pub open spec fn flat(r: Seq<char>) -> bool {
    forall|i: int| 0 <= i < r.len() ==> r[i] != '[' && r[i] != ']' && r[i] != ','
}

proof fn lemma_flat_depth(r: Seq<char>, n: int)
    requires
        flat(r),
        0 <= n <= r.len(),
    ensures
        bdepth(r, n) == 0,
    decreases n,
{
    if n > 0 {
        lemma_flat_depth(r, n - 1);
    }
}

proof fn lemma_flat_balanced(r: Seq<char>)
    requires
        flat(r),
    ensures
        balanced(r),
{
    assert forall|n: int| 0 <= n <= r.len() implies #[trigger] bdepth(r, n) >= 0 by {
        lemma_flat_depth(r, n);
    }
    lemma_flat_depth(r, r.len() as int);
}

proof fn lemma_concat_level(a: Seq<char>, b: Seq<char>)
    requires
        level(a),
        level(b),
    ensures
        level(a + b),
        balanced(a) && balanced(b) ==> balanced(a + b),
{
    let ab = a + b;
    assert forall|n: int| 0 <= n <= ab.len() implies #[trigger] bdepth(ab, n) >= 0 by {
        if n <= a.len() {
            lemma_depth_prefix(a, b, n, '[', ']');
            assert(bdepth(a, n) >= 0);
        } else {
            lemma_depth_concat(a, b, n - a.len());
            assert(bdepth(b, n - a.len()) >= 0);
        }
    }
    lemma_depth_concat(a, b, b.len() as int);
    if balanced(a) && balanced(b) {
        assert forall|j: int| 0 <= j < ab.len() && ab[j] == ',' implies #[trigger] bdepth(ab, j + 1) > 0 by {
            if j < a.len() {
                lemma_depth_prefix(a, b, j + 1, '[', ']');
                assert(a[j] == ab[j]);
                assert(bdepth(a, j + 1) > 0);
            } else {
                lemma_depth_concat(a, b, j + 1 - a.len());
                assert(b[j - a.len()] == ab[j]);
                assert(bdepth(b, j - a.len() + 1) > 0);
            }
        }
    }
}

/// Inside a pair of brackets every comma is nested.
proof fn lemma_bracketed(j: Seq<char>)
    requires
        level(j),
    ensures
        balanced(seq!['['] + j + seq![']']),
{
    let o = seq!['['];
    let oj = o + j;
    let r = oj + seq![']'];
    reveal_with_fuel(depth_at, 2);
    assert(bdepth(o, 1) == 1);
    assert(bdepth(seq![']'], 1) == -1);
    assert forall|n: int| 0 <= n <= oj.len() implies #[trigger] bdepth(oj, n) >= 0 && (n >= 1 ==> bdepth(
        oj,
        n,
    ) == 1 + bdepth(j, n - 1)) by {
        if n >= 1 {
            lemma_depth_concat(o, j, n - 1);
            assert(bdepth(j, n - 1) >= 0);
        }
    }
    assert forall|n: int| 0 <= n <= r.len() implies #[trigger] bdepth(r, n) >= 0 by {
        assert(bdepth(oj, oj.len() as int) == 1);
        if n <= oj.len() {
            lemma_depth_prefix(oj, seq![']'], n, '[', ']');
            assert(bdepth(oj, n) >= 0);
        } else {
            lemma_depth_concat(oj, seq![']'], 1);
        }
    }
    lemma_depth_concat(oj, seq![']'], 1);
    assert(bdepth(oj, oj.len() as int) == 1);
    assert forall|i: int| 0 <= i < r.len() && r[i] == ',' implies #[trigger] bdepth(r, i + 1) > 0 by {
        lemma_depth_prefix(oj, seq![']'], i + 1, '[', ']');
        assert(bdepth(oj, i + 1) == 1 + bdepth(j, i));
        assert(bdepth(j, i) >= 0);
    }
}

proof fn lemma_split_at_comma(a: Seq<char>, b: Seq<char>)
    requires
        balanced(a),
    ensures
        first_unnested(a + seq![','] + b, ',', '[', ']') == Some(a.len() as int),
{
    let ac = a + seq![','];
    let s = ac + b;
    reveal_with_fuel(depth_at, 2);
    assert(bdepth(seq![','], 1) == 0);
    lemma_depth_concat(a, seq![','], 1);
    lemma_depth_prefix(ac, b, a.len() + 1int, '[', ']');
    assert(s[a.len() as int] == ',');
    assert(unnested_at(s, a.len() as int, ',', '[', ']'));
    assert forall|j: int| 0 <= j < a.len() implies !unnested_at(s, j, ',', '[', ']') by {
        lemma_depth_prefix(ac, b, j + 1, '[', ']');
        lemma_depth_prefix(a, seq![','], j + 1, '[', ']');
        assert(s[j] == a[j]);
        if a[j] == ',' {
            assert(bdepth(a, j + 1) > 0);
        }
    }
    lemma_first_unnested_is(s, a.len() as int, ',', '[', ']');
}

proof fn lemma_no_comma(a: Seq<char>)
    requires
        balanced(a),
    ensures
        first_unnested(a, ',', '[', ']') is None,
{
    assert forall|j: int| 0 <= j < a.len() implies !unnested_at(a, j, ',', '[', ']') by {
        if a[j] == ',' {
            assert(bdepth(a, j + 1) > 0);
        }
    }
    lemma_first_unnested_none(a, ',', '[', ']');
}

} // verus!

verus! {

/// The characters a numeral can hold.
pub open spec fn numeral_char(c: char) -> bool {
    is_digit(c) || c == '.' || is_sign(c) || is_exp_mark(c) || c == 'i' || c == 'n' || c == 'f' || c
        == 't' || c == 'y' || c == 'a' || c == 'I' || c == 'N' || c == 'F' || c == 'T' || c == 'Y'
        || c == 'A'
}

proof fn lemma_spells_chars(b: Seq<char>, lower: Seq<char>, upper: Seq<char>)
    requires
        spells(b, lower, upper),
        forall|i: int| 0 <= i < lower.len() ==> numeral_char(#[trigger] lower[i]) && numeral_char(upper[i]),
    ensures
        forall|i: int| 0 <= i < b.len() ==> numeral_char(#[trigger] b[i]),
{
    assert forall|i: int| 0 <= i < b.len() implies numeral_char(#[trigger] b[i]) by {
        assert(numeral_char(lower[i]));
    }
}

proof fn lemma_unsigned_chars(b: Seq<char>)
    requires
        is_unsigned_numeral(b),
    ensures
        b.len() > 0,
        forall|i: int| 0 <= i < b.len() ==> numeral_char(#[trigger] b[i]),
{
    if is_special(b) {
        let w1 = seq!['i', 'n', 'f'];
        let u1 = seq!['I', 'N', 'F'];
        let w2 = seq!['i', 'n', 'f', 'i', 'n', 'i', 't', 'y'];
        let u2 = seq!['I', 'N', 'F', 'I', 'N', 'I', 'T', 'Y'];
        let w3 = seq!['n', 'a', 'n'];
        let u3 = seq!['N', 'A', 'N'];
        assert forall|i: int| 0 <= i < 3 implies numeral_char(#[trigger] w1[i]) && numeral_char(u1[i])
            && numeral_char(w3[i]) && numeral_char(u3[i]) by {
            assert(i == 0 || i == 1 || i == 2);
        }
        assert forall|i: int| 0 <= i < 8 implies numeral_char(#[trigger] w2[i]) && numeral_char(u2[i]) by {
            assert(i == 0 || i == 1 || i == 2 || i == 3 || i == 4 || i == 5 || i == 6 || i == 7);
        }
        if spells(b, w1, u1) {
            lemma_spells_chars(b, w1, u1);
        } else if spells(b, w2, u2) {
            lemma_spells_chars(b, w2, u2);
        } else {
            lemma_spells_chars(b, w3, u3);
        }
    } else if is_decimal(b) {
        assert forall|i: int| 0 <= i < b.len() implies numeral_char(#[trigger] b[i]) by {
            lemma_decimal_chars(b, i);
        }
    } else {
        let e = choose|e: int|
            0 <= e < b.len() && is_exp_mark(b[e]) && is_decimal(b.take(e)) && is_exponent(b.skip(e + 1));
        assert forall|i: int| 0 <= i < b.len() implies numeral_char(#[trigger] b[i]) by {
            if i < e {
                lemma_decimal_chars(b.take(e), i);
                assert(b.take(e)[i] == b[i]);
            } else if i > e {
                let x = b.skip(e + 1);
                assert(x[i - e - 1] == b[i]);
                if x.len() > 0 && is_sign(x[0]) && i - e - 1 > 0 {
                    assert(x.skip(1)[i - e - 2] == x[i - e - 1]);
                    assert(all_digits(x.skip(1)));
                }
            }
        }
    }
}

proof fn lemma_numeral_chars(s: Seq<char>)
    requires
        is_numeral(s),
    ensures
        s.len() > 0,
        forall|i: int| 0 <= i < s.len() ==> numeral_char(#[trigger] s[i]),
{
    if s.len() > 0 && is_sign(s[0]) {
        lemma_unsigned_chars(s.skip(1));
        assert forall|i: int| 0 <= i < s.len() implies numeral_char(#[trigger] s[i]) by {
            if i > 0 {
                assert(s.skip(1)[i - 1] == s[i]);
            }
        }
    } else {
        lemma_unsigned_chars(s);
    }
}

proof fn lemma_words_flat()
    ensures
        flat(word_null()),
        flat(word_true()),
        flat(word_false()),
        word_null()[1] == 'u',
        word_true()[1] == 'r',
        word_false()[2] == 'l',
        word_null().len() == 4,
        word_true().len() == 4,
        word_false().len() == 5,
        word_null()[0] == 'n',
        word_true()[0] == 't',
        word_false()[0] == 'f',
{
    assert forall|i: int| 0 <= i < 4 implies #[trigger] word_null()[i] != '[' && word_null()[i] != ']'
        && word_null()[i] != ',' && word_true()[i] != '[' && word_true()[i] != ']' && word_true()[i] != ',' by {
        assert(i == 0 || i == 1 || i == 2 || i == 3);
    }
    assert forall|i: int| 0 <= i < 5 implies #[trigger] word_false()[i] != '[' && word_false()[i] != ']'
        && word_false()[i] != ',' by {
        assert(i == 0 || i == 1 || i == 2 || i == 3 || i == 4);
    }
}

proof fn lemma_blank_flat(w: Seq<char>)
    requires
        blank(w),
    ensures
        flat(w),
        forall|i: int| 0 <= i < w.len() ==> w[i] != '"' && w[i] != ':',
{
    assert forall|i: int| 0 <= i < w.len() implies w[i] != '[' && w[i] != ']' && w[i] != ',' && w[i] != '"'
        && w[i] != ':' by {
        assert(is_space(w[i]));
    }
}

/// The rendering of a value below the top level: not empty, no whitespace
/// at either end, and every comma in it inside brackets.
proof fn lemma_render_facts(d: Doc, w: Seq<char>)
    requires
        plain(d, true),
        blank(w),
    ensures
        balanced(render(d, w)),
        render(d, w).len() > 0,
        !is_space(render(d, w)[0]),
        !is_space(render(d, w).last()),
    decreases d,
{
    let r = render(d, w);
    match d {
        Doc::Str(s) => {
            assert forall|i: int| 0 <= i < r.len() implies r[i] != '[' && r[i] != ']' && r[i] != ',' by {
                if 0 < i < r.len() - 1 {
                    assert(r[i] == s[i - 1]);
                }
            }
            lemma_flat_balanced(r);
        },
        Doc::Num(s) => {
            lemma_numeral_chars(s);
            lemma_flat_balanced(r);
        },
        Doc::Bool(b) => {
            lemma_words_flat();
            lemma_flat_balanced(r);
        },
        Doc::Null => {
            lemma_words_flat();
            lemma_flat_balanced(r);
        },
        Doc::Arr(xs) => {
            if xs.len() == 0 {
                lemma_flat_depth(Seq::<char>::empty(), 0);
                assert(level(Seq::<char>::empty()));
                lemma_bracketed(Seq::<char>::empty());
                assert(r =~= seq!['['] + Seq::<char>::empty() + seq![']']);
            } else {
                lemma_list_level(xs, w);
                lemma_blank_flat(w);
                lemma_flat_balanced(w);
                let j = render_list(xs, w);
                lemma_concat_level(w, j);
                lemma_concat_level(w + j, w);
                lemma_bracketed(w + j + w);
                assert(r =~= seq!['['] + (w + j + w) + seq![']']);
            }
        },
        Doc::Obj(es) => {
            if es.len() == 0 {
                assert(r =~= seq!['{', '}']);
                assert forall|i: int| 0 <= i < r.len() implies r[i] != '[' && r[i] != ']' && r[i] != ',' by {
                    assert(i == 0 || i == 1);
                }
                lemma_flat_balanced(r);
            } else {
                let k = es[0].0;
                let v = es[0].1;
                assert(plain_text(k) && plain(v, true));
                lemma_render_facts(v, w);
                lemma_blank_flat(w);
                let p = seq!['{'] + w + seq!['"'] + k + seq!['"'] + w + seq![':'] + w;
                let q = w + seq!['}'];
                assert(r =~= p + render(v, w) + q);
                let n = w.len() as int;
                let m = k.len() as int;
                assert forall|i: int| 0 <= i < p.len() implies p[i] != '[' && p[i] != ']' && p[i] != ',' by {
                    if 1 <= i < n + 1 {
                        assert(p[i] == w[i - 1]);
                    } else if n + 2 <= i < n + 2 + m {
                        assert(p[i] == k[i - n - 2]);
                    } else if n + 3 + m <= i < 2 * n + 3 + m {
                        assert(p[i] == w[i - n - 3 - m]);
                    } else if 2 * n + 4 + m <= i {
                        assert(p[i] == w[i - 2 * n - 4 - m]);
                    }
                }
                assert forall|i: int| 0 <= i < q.len() implies q[i] != '[' && q[i] != ']' && q[i] != ',' by {
                    if i < n {
                        assert(q[i] == w[i]);
                    }
                }
                lemma_flat_balanced(p);
                lemma_flat_balanced(q);
                lemma_concat_level(p, render(v, w));
                lemma_concat_level(p + render(v, w), q);
            }
        },
    }
}

proof fn lemma_list_level(xs: Seq<Doc>, w: Seq<char>)
    requires
        forall|i: int| 0 <= i < xs.len() ==> plain(#[trigger] xs[i], true),
        blank(w),
    ensures
        level(render_list(xs, w)),
        xs.len() > 0 ==> render_list(xs, w).len() > 0 && !is_space(render_list(xs, w)[0]),
    decreases xs,
{
    reveal_with_fuel(depth_at, 2);
    if xs.len() == 0 {
        assert(bdepth(Seq::<char>::empty(), 0) == 0);
    } else if xs.len() == 1 {
        assert(plain(xs[0], true));
        lemma_render_facts(xs[0], w);
    } else {
        assert(plain(xs[0], true));
        lemma_render_facts(xs[0], w);
        let rest = xs.drop_first();
        assert forall|i: int| 0 <= i < rest.len() implies plain(#[trigger] rest[i], true) by {
            assert(rest[i] == xs[i + 1]);
        }
        lemma_list_level(rest, w);
        assert forall|n: int| 0 <= n <= 1 implies #[trigger] bdepth(seq![','], n) >= 0 by {
            assert(n == 0 || n == 1);
        }
        assert(bdepth(seq![','], 1) == 0);
        lemma_blank_flat(w);
        lemma_flat_balanced(w);
        let r0 = render(xs[0], w);
        lemma_concat_level(r0, w);
        lemma_concat_level(r0 + w, seq![',']);
        lemma_concat_level(r0 + w + seq![','], w);
        lemma_concat_level(r0 + w + seq![','] + w, render_list(rest, w));
    }
}

proof fn lemma_trim_id(s: Seq<char>)
    requires
        s.len() > 0,
        !is_space(s[0]),
        !is_space(s.last()),
    ensures
        trim_start(s) == s,
        trim(s) == s,
{
    assert(trim_start(s) == s);
}

/// Blank text before `x` is dropped as leading whitespace.
proof fn lemma_trim_start_skip(pre: Seq<char>, x: Seq<char>)
    requires
        blank(pre),
        x.len() > 0,
        !is_space(x[0]),
    ensures
        trim_start(pre + x) == x,
    decreases pre.len(),
{
    if pre.len() == 0 {
        assert(pre + x =~= x);
    } else {
        assert((pre + x)[0] == pre[0]);
        assert((pre + x).drop_first() =~= pre.drop_first() + x);
        lemma_trim_start_skip(pre.drop_first(), x);
    }
}

/// Blank text after `x` is dropped as trailing whitespace.
proof fn lemma_trim_end_skip(x: Seq<char>, suf: Seq<char>)
    requires
        blank(suf),
        x.len() > 0,
        !is_space(x.last()),
    ensures
        trim_end(x + suf) == x,
    decreases suf.len(),
{
    if suf.len() == 0 {
        assert(x + suf =~= x);
    } else {
        assert((x + suf).last() == suf.last());
        assert((x + suf).drop_last() =~= x + suf.drop_last());
        lemma_trim_end_skip(x, suf.drop_last());
    }
}

/// Blank text around `r` is what trimming drops.
proof fn lemma_trim_skip(pre: Seq<char>, r: Seq<char>, suf: Seq<char>)
    requires
        blank(pre),
        blank(suf),
        r.len() > 0,
        !is_space(r[0]),
        !is_space(r.last()),
    ensures
        trim(pre + r + suf) == r,
{
    assert(pre + r + suf =~= pre + (r + suf));
    assert((r + suf)[0] == r[0]);
    lemma_trim_start_skip(pre, r + suf);
    lemma_trim_end_skip(r, suf);
}

/// Once the quote counter is back at zero, what follows counts afresh.
proof fn lemma_depth_shift(a: Seq<char>, b: Seq<char>, m: int, open: char, close: char)
    requires
        depth_at(a, a.len() as int, open, close) == 0,
        0 <= m <= b.len(),
    ensures
        depth_at(a + b, a.len() + m, open, close) == depth_at(b, m, open, close),
    decreases m,
{
    if m == 0 {
        lemma_depth_prefix(a, b, a.len() as int, open, close);
    } else {
        lemma_depth_shift(a, b, m - 1, open, close);
        assert((a + b)[a.len() + m - 1] == b[m - 1]);
    }
}

proof fn lemma_quote_free(x: Seq<char>, n: int)
    requires
        0 <= n <= x.len(),
        forall|i: int| 0 <= i < n ==> x[i] != '"',
    ensures
        depth_at(x, n, '"', '"') == 0,
    decreases n,
{
    if n > 0 {
        lemma_quote_free(x, n - 1);
    }
}

/// The models of `xs`, in order.
pub open spec fn models_of(xs: Seq<Doc>) -> Seq<JsonModel> {
    Seq::new(xs.len(), |i: int| model(xs[i]))
}

proof fn lemma_quote_depth(e: Seq<char>, k: Seq<char>, n: int)
    requires
        e.len() >= k.len() + 2,
        e[0] == '"',
        forall|i: int| 1 <= i <= k.len() ==> e[i] == k[i - 1],
        plain_text(k),
        1 <= n <= k.len() + 1,
    ensures
        depth_at(e, n, '"', '"') == 1,
    decreases n,
{
    reveal_with_fuel(depth_at, 2);
    if n > 1 {
        lemma_quote_depth(e, k, n - 1);
        assert(e[n - 1] == k[n - 2]);
    }
}

proof fn lemma_entry_balanced(pre: Seq<char>, k: Seq<char>, v: Doc, w: Seq<char>)
    requires
        blank(pre),
        blank(w),
        plain_text(k),
        plain(v, true),
    ensures
        balanced(pre + render_entry(k, v, w) + w),
{
    lemma_render_facts(v, w);
    lemma_blank_flat(w);
    lemma_blank_flat(pre);
    let rv = render(v, w);
    let kq = seq!['"'] + k + seq!['"'];
    let e = pre + render_entry(k, v, w) + w;
    let q = pre.len() as int;
    let n = w.len() as int;
    let p = pre + kq + w + seq![':'] + w;
    assert(e =~= p + rv + w);
    let m = k.len() as int;
    assert forall|i: int| 0 <= i < p.len() implies p[i] != '[' && p[i] != ']' && p[i] != ',' by {
        if i < q {
            assert(p[i] == pre[i]);
        } else if q + 1 <= i < q + 1 + m {
            assert(p[i] == k[i - q - 1]);
        } else if q + m + 2 <= i < q + m + 2 + n {
            assert(p[i] == w[i - q - m - 2]);
        } else if q + m + n + 3 <= i {
            assert(p[i] == w[i - q - m - n - 3]);
        }
    }
    lemma_flat_balanced(p);
    lemma_flat_balanced(w);
    lemma_concat_level(p, rv);
    lemma_concat_level(p + rv, w);
}

#[verifier::rlimit(40)]
#[verifier::spinoff_prover]
proof fn lemma_entry(pre: Seq<char>, k: Seq<char>, v: Doc, w: Seq<char>)
    requires
        blank(pre),
        blank(w),
        plain_text(k),
        plain(v, true),
        value_of(render(v, w)) == Ok::<JsonModel, ParseError>(model(v)),
    ensures
        entry_of(pre + render_entry(k, v, w) + w) == Ok::<(Seq<char>, JsonModel), ParseError>((k, model(v))),
        balanced(pre + render_entry(k, v, w) + w),
{
    lemma_render_facts(v, w);
    lemma_blank_flat(w);
    lemma_blank_flat(pre);
    let rv = render(v, w);
    let kq = seq!['"'] + k + seq!['"'];
    let x = w + seq![':'] + w + rv;
    let e1 = render_entry(k, v, w);
    assert(e1 =~= kq + x);
    let e = pre + e1 + w;
    let q = pre.len() as int;
    let n = w.len() as int;
    let c1 = kq.len() + n;
    let c = q + c1;
    // the quote counter over the key, then over the blank and the colon
    assert forall|i: int| 1 <= i <= k.len() implies kq[i] == k[i - 1] by {}
    lemma_quote_depth(kq, k, k.len() + 1int);
    assert(depth_at(kq, kq.len() as int, '"', '"') == 0);
    assert forall|i: int| 0 <= i < n + 1 implies x[i] != '"' by {
        if i < n {
            assert(x[i] == w[i]);
        }
    }
    lemma_quote_free(x, n + 1);
    lemma_depth_shift(kq, x, n + 1, '"', '"');
    assert(depth_at(e1, c1 + 1, '"', '"') == 0);
    lemma_quote_free(pre, q);
    lemma_depth_shift(pre, e1 + w, c1 + 1, '"', '"');
    lemma_depth_prefix(e1, w, c1 + 1, '"', '"');
    assert(pre + (e1 + w) =~= e);
    assert(e[c] == ':');
    assert(unnested_at(e, c, ':', '"', '"'));
    assert forall|j: int| 0 <= j < c implies !unnested_at(e, j, ':', '"', '"') by {
        if j < q {
            assert(e[j] == pre[j]);
        } else if j < q + kq.len() {
            assert(e[j] == kq[j - q]);
            if 1 <= j - q <= k.len() {
                assert(kq[j - q] == k[j - q - 1]);
            }
        } else {
            assert(e[j] == w[j - q - kq.len()]);
        }
    }
    lemma_first_unnested_is(e, c, ':', '"', '"');
    assert(e.take(c) =~= pre + kq + w);
    lemma_trim_skip(pre, kq, w);
    assert(inner(kq) =~= k);
    assert(e.skip(c + 1) =~= w + rv + w);
    lemma_trim_skip(w, rv, w);
    assert(value_of(e.skip(c + 1)) == value_of(rv));
    lemma_entry_balanced(pre, k, v, w);
}

#[verifier::rlimit(60)]
#[verifier::spinoff_prover]
proof fn lemma_value(d: Doc, w: Seq<char>)
    requires
        plain(d, true),
        blank(w),
    ensures
        value_of(render(d, w)) == Ok::<JsonModel, ParseError>(model(d)),
    decreases d,
{
    let v = render(d, w);
    lemma_render_facts(d, w);
    lemma_trim_id(v);
    lemma_words_flat();
    match d {
        Doc::Str(s) => {
            assert(v[0] == '"');
            assert(v.last() == '"');
            assert(v != word_null() && v != word_true() && v != word_false());
            assert(inner(v) =~= s);
        },
        Doc::Num(s) => {
            lemma_numeral_chars(s);
            assert(numeral_char(v[1]) || v.len() < 2);
            assert(v.len() >= 3 ==> numeral_char(v[2]));
        },
        Doc::Bool(b) => {
            if b {
                assert(v == word_true());
                assert(v != word_null());
            } else {
                assert(v == word_false());
                assert(v != word_null() && v != word_true());
            }
        },
        Doc::Null => {
            assert(v == word_null());
        },
        Doc::Arr(xs) => {
            if xs.len() == 0 {
                assert(inner(v) =~= Seq::<char>::empty());
                assert(models_of(xs) =~= Seq::<JsonModel>::empty());
                assert(model(d)->Arr_0 =~= Seq::<JsonModel>::empty());
            } else {
                assert(inner(v) =~= w + render_list(xs, w) + w);
                lemma_elements(xs, w, w);
                assert(model(d)->Arr_0 =~= models_of(xs));
            }
        },
        Doc::Obj(es) => {
            assert(v[0] == '{');
            assert(v.last() == '}');
            assert(v != word_null() && v != word_true() && v != word_false());
            if es.len() == 0 {
                assert(inner(v) =~= Seq::<char>::empty());
                assert(object_of(v) == Ok::<Map<Seq<char>, JsonModel>, ParseError>(Map::empty()));
            } else {
                assert(inner(v) =~= w + render_entries(es, w) + w);
                lemma_entries(es, Map::empty(), w, w);
                assert(object_of(v) == Ok::<Map<Seq<char>, JsonModel>, ParseError>(add_entries(Map::empty(), es)));
            }
            assert(model(d) == JsonModel::Obj(add_entries(Map::empty(), es)));
            assert(value_of(v) == Ok::<JsonModel, ParseError>(JsonModel::Obj(add_entries(Map::empty(), es))));
        },
    }
}

proof fn lemma_elements(xs: Seq<Doc>, w: Seq<char>, pre: Seq<char>)
    requires
        xs.len() > 0,
        forall|i: int| 0 <= i < xs.len() ==> plain(#[trigger] xs[i], true),
        blank(w),
        blank(pre),
    ensures
        elements_of(pre + render_list(xs, w) + w) == Ok::<Seq<JsonModel>, ParseError>(models_of(xs)),
    decreases xs,
{
    assert(plain(xs[0], true));
    lemma_render_facts(xs[0], w);
    lemma_value(xs[0], w);
    let r0 = render(xs[0], w);
    lemma_blank_flat(pre);
    lemma_flat_balanced(pre);
    lemma_blank_flat(w);
    lemma_flat_balanced(w);
    lemma_concat_level(pre, r0);
    lemma_concat_level(pre + r0, w);
    let pr = pre + r0 + w;
    lemma_trim_skip(pre, r0, w);
    lemma_trim_id(r0);
    assert(value_of(pr) == value_of(r0));
    if xs.len() == 1 {
        lemma_no_comma(pr);
        assert(models_of(xs) =~= seq![model(xs[0])]);
    } else {
        let rest = xs.drop_first();
        assert forall|i: int| 0 <= i < rest.len() implies plain(#[trigger] rest[i], true) by {
            assert(rest[i] == xs[i + 1]);
        }
        lemma_elements(rest, w, w);
        let rw = w + render_list(rest, w) + w;
        let body = pre + render_list(xs, w) + w;
        assert(body =~= pr + seq![','] + rw);
        lemma_split_at_comma(pr, rw);
        assert(body.take(pr.len() as int) =~= pr);
        assert(body.skip(pr.len() + 1int) =~= rw);
        assert(models_of(xs) =~= seq![model(xs[0])] + models_of(rest));
    }
}

proof fn lemma_entries(es: Seq<(Seq<char>, Doc)>, acc: Map<Seq<char>, JsonModel>, w: Seq<char>, pre: Seq<char>)
    requires
        es.len() > 0,
        forall|i: int| 0 <= i < es.len() ==> plain_text(#[trigger] es[i].0) && plain(es[i].1, true),
        blank(w),
        blank(pre),
    ensures
        entries_of(pre + render_entries(es, w) + w, acc) == Ok::<Map<Seq<char>, JsonModel>, ParseError>(
            add_entries(acc, es),
        ),
    decreases es,
{
    let k = es[0].0;
    let v = es[0].1;
    assert(plain_text(k) && plain(v, true));
    lemma_value(v, w);
    lemma_entry(pre, k, v, w);
    let pe = pre + render_entry(k, v, w) + w;
    let acc2 = acc.insert(k, model(v));
    if es.len() == 1 {
        lemma_no_comma(pe);
        assert(pre + render_entries(es, w) + w =~= pe);
        assert(es.drop_first().len() == 0);
        assert(add_entries(acc2, es.drop_first()) == acc2);
    } else {
        let rest = es.drop_first();
        assert forall|i: int| 0 <= i < rest.len() implies plain_text(#[trigger] rest[i].0) && plain(rest[i].1, true) by {
            assert(rest[i] == es[i + 1]);
        }
        lemma_entries(rest, acc2, w, w);
        let rw = w + render_entries(rest, w) + w;
        let body = pre + render_entries(es, w) + w;
        assert(body =~= pe + seq![','] + rw);
        lemma_split_at_comma(pe, rw);
        assert(body.take(pe.len() as int) =~= pe);
        assert(body.skip(pe.len() + 1int) =~= rw);
    }
}

/// Decoding the text that an encoder writes for an object, with any one run
/// of whitespace in every gap between tokens, gives back its entries as a
/// mapping (a later entry of a key replacing an earlier one), for every
/// tree whose strings and keys hold no structural character and whose
/// objects below the top level have at most one entry.
pub proof fn lemma_round_trip(es: Seq<(Seq<char>, Doc)>, w: Seq<char>)
    requires
        plain(Doc::Obj(es), false),
        blank(w),
    ensures
        object_of(render(Doc::Obj(es), w)) == Ok::<Map<Seq<char>, JsonModel>, ParseError>(
            add_entries(Map::empty(), es),
        ),
{
    let t = render(Doc::Obj(es), w);
    assert forall|i: int| 0 <= i < es.len() implies plain_text(#[trigger] es[i].0) && plain(es[i].1, true) by {
        assert(plain_text(es[i].0));
    }
    assert(t[0] == '{');
    assert(t.last() == '}');
    lemma_trim_id(t);
    if es.len() == 0 {
        assert(inner(t) =~= Seq::<char>::empty());
    } else {
        assert(inner(t) =~= w + render_entries(es, w) + w);
        lemma_entries(es, Map::empty(), w, w);
    }
}

} // verus!
