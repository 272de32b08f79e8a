//! The grammar of numerals: what a 64-bit floating-point parse of Rust's
//! standard library accepts.
use vstd::prelude::*;

verus! {

pub open spec fn is_digit(c: char) -> bool {
    '0' <= c <= '9'
}

pub open spec fn all_digits(s: Seq<char>) -> bool {
    forall|i: int| 0 <= i < s.len() ==> is_digit(#[trigger] s[i])
}

pub open spec fn is_sign(c: char) -> bool {
    c == '+' || c == '-'
}

/// `Digit+ | Digit+ '.' Digit* | Digit* '.' Digit+`
pub open spec fn is_decimal(m: Seq<char>) -> bool {
    (m.len() > 0 && all_digits(m)) || (m.len() >= 2 && exists|d: int|
        0 <= d < m.len() && m[d] == '.' && all_digits(m.take(d)) && all_digits(m.skip(d + 1)))
}

/// `Sign? Digit+`, the part after the exponent mark.
pub open spec fn is_exponent(x: Seq<char>) -> bool {
    if x.len() > 0 && is_sign(x[0]) {
        x.len() >= 2 && all_digits(x.skip(1))
    } else {
        x.len() >= 1 && all_digits(x)
    }
}

/// `s` spells `lower` with each letter in either case (`upper` is the same
/// word in capitals).
pub open spec fn spells(s: Seq<char>, lower: Seq<char>, upper: Seq<char>) -> bool {
    s.len() == lower.len() && forall|i: int| 0 <= i < s.len() ==> s[i] == lower[i] || s[i] == upper[i]
}

pub open spec fn is_special(b: Seq<char>) -> bool {
    spells(b, seq!['i', 'n', 'f'], seq!['I', 'N', 'F'])
    || spells(b, seq!['i', 'n', 'f', 'i', 'n', 'i', 't', 'y'], seq!['I', 'N', 'F', 'I', 'N', 'I', 'T', 'Y'])
    || spells(b, seq!['n', 'a', 'n'], seq!['N', 'A', 'N'])
}

pub open spec fn is_exp_mark(c: char) -> bool {
    c == 'e' || c == 'E'
}

/// A numeral without its sign.
pub open spec fn is_unsigned_numeral(b: Seq<char>) -> bool {
    is_special(b) || is_decimal(b) || exists|e: int|
        0 <= e < b.len() && is_exp_mark(b[e]) && is_decimal(b.take(e)) && is_exponent(b.skip(e + 1))
}

/// `Sign? ('inf' | 'infinity' | 'nan' | Decimal Exp?)`, letters in either case.
pub open spec fn is_numeral(s: Seq<char>) -> bool {
    if s.len() > 0 && is_sign(s[0]) {
        is_unsigned_numeral(s.skip(1))
    } else {
        is_unsigned_numeral(s)
    }
}

fn digits_only(cs: &Vec<char>, lo: usize, hi: usize) -> (r: bool)
    requires
        lo <= hi <= cs.len(),
    ensures
        r == all_digits(cs@.subrange(lo as int, hi as int)),
{
    let mut k = lo;
    while k < hi
        invariant
            lo <= k <= hi <= cs.len(),
            forall|i: int| lo <= i < k ==> is_digit(cs@[i]),
        decreases hi - k,
    {
        if !('0' <= cs[k] && cs[k] <= '9') {
            assert(!is_digit(cs@.subrange(lo as int, hi as int)[k - lo]));
            return false;
        }
        k = k + 1;
    }
    assert forall|i: int| 0 <= i < hi - lo implies is_digit(#[trigger] cs@.subrange(lo as int, hi as int)[i]) by {
        assert(cs@.subrange(lo as int, hi as int)[i] == cs@[lo + i]);
    }
    true
}

/// The first index in `cs[lo..hi]` holding `a` or `b`, or `hi`.
fn first_of(cs: &Vec<char>, lo: usize, hi: usize, a: char, b: char) -> (r: usize)
    requires
        lo <= hi <= cs.len(),
    ensures
        lo <= r <= hi,
        r < hi ==> cs@[r as int] == a || cs@[r as int] == b,
        forall|i: int| lo <= i < r ==> cs@[i] != a && cs@[i] != b,
{
    let mut k = lo;
    while k < hi && cs[k] != a && cs[k] != b
        invariant
            lo <= k <= hi <= cs.len(),
            forall|i: int| lo <= i < k ==> cs@[i] != a && cs@[i] != b,
        decreases hi - k,
    {
        k = k + 1;
    }
    k
}

pub proof fn lemma_decimal_chars(m: Seq<char>, i: int)
    requires
        is_decimal(m),
        0 <= i < m.len(),
    ensures
        is_digit(m[i]) || m[i] == '.',
{
    if !all_digits(m) {
        let d = choose|d: int|
            0 <= d < m.len() && m[d] == '.' && all_digits(m.take(d)) && all_digits(m.skip(d + 1));
        if i < d {
            assert(m.take(d)[i] == m[i]);
        } else if i > d {
            assert(m.skip(d + 1)[i - d - 1] == m[i]);
        }
    }
}

fn decimal(cs: &Vec<char>, lo: usize, hi: usize) -> (r: bool)
    requires
        lo <= hi <= cs.len(),
    ensures
        r == is_decimal(cs@.subrange(lo as int, hi as int)),
{
    let ghost m = cs@.subrange(lo as int, hi as int);
    let d = first_of(cs, lo, hi, '.', '.');
    if d == hi {
        proof {
            if !all_digits(m) {
                if exists|d: int| 0 <= d < m.len() && m[d] == '.' && all_digits(m.take(d)) && all_digits(m.skip(d + 1)) {
                    let x = choose|d: int| 0 <= d < m.len() && m[d] == '.' && all_digits(m.take(d)) && all_digits(m.skip(d + 1));
                    assert(m[x] == cs@[lo + x]);
                }
            }
        }
        lo < hi && digits_only(cs, lo, hi)
    } else {
        let rel = d - lo;
        assert(m[rel as int] == '.');
        assert(!all_digits(m));
        assert(m.take(rel as int) =~= cs@.subrange(lo as int, d as int));
        assert(m.skip(rel + 1) =~= cs@.subrange(d + 1, hi as int));
        let r = hi - lo >= 2 && digits_only(cs, lo, d) && digits_only(cs, d + 1, hi);
        proof {
            if is_decimal(m) {
                let x = choose|x: int| 0 <= x < m.len() && m[x] == '.' && all_digits(m.take(x)) && all_digits(m.skip(x + 1));
                if x < rel {
                    assert(m[x] == cs@[lo + x]);
                } else if x > rel {
                    assert(m.take(x)[rel as int] == '.');
                }
            }
        }
        r
    }
}

fn exponent(cs: &Vec<char>, lo: usize, hi: usize) -> (r: bool)
    requires
        lo <= hi <= cs.len(),
    ensures
        r == is_exponent(cs@.subrange(lo as int, hi as int)),
{
    let ghost x = cs@.subrange(lo as int, hi as int);
    if lo < hi && (cs[lo] == '+' || cs[lo] == '-') {
        assert(x.skip(1) =~= cs@.subrange(lo + 1, hi as int));
        hi - lo >= 2 && digits_only(cs, lo + 1, hi)
    } else {
        lo < hi && digits_only(cs, lo, hi)
    }
}

fn spells_word(cs: &Vec<char>, lo: usize, hi: usize, lower: &Vec<char>, upper: &Vec<char>) -> (r: bool)
    requires
        lo <= hi <= cs.len(),
        lower.len() == upper.len(),
    ensures
        r == spells(cs@.subrange(lo as int, hi as int), lower@, upper@),
{
    if hi - lo != lower.len() {
        return false;
    }
    let mut k: usize = 0;
    while k < lower.len()
        invariant
            lo <= hi <= cs.len(),
            hi - lo == lower.len() == upper.len(),
            k <= lower.len(),
            forall|i: int| 0 <= i < k ==> cs@[lo + i] == lower@[i] || cs@[lo + i] == upper@[i],
        decreases lower.len() - k,
    {
        if cs[lo + k] != lower[k] && cs[lo + k] != upper[k] {
            assert(cs@.subrange(lo as int, hi as int)[k as int] == cs@[lo + k]);
            return false;
        }
        k = k + 1;
    }
    true
}

fn special(cs: &Vec<char>, lo: usize, hi: usize) -> (r: bool)
    requires
        lo <= hi <= cs.len(),
    ensures
        r == is_special(cs@.subrange(lo as int, hi as int)),
{
    let inf_l = vec!['i', 'n', 'f'];
    let inf_u = vec!['I', 'N', 'F'];
    let infinity_l = vec!['i', 'n', 'f', 'i', 'n', 'i', 't', 'y'];
    let infinity_u = vec!['I', 'N', 'F', 'I', 'N', 'I', 'T', 'Y'];
    let nan_l = vec!['n', 'a', 'n'];
    let nan_u = vec!['N', 'A', 'N'];
    assert(inf_l@ =~= seq!['i', 'n', 'f']);
    assert(inf_u@ =~= seq!['I', 'N', 'F']);
    assert(infinity_l@ =~= seq!['i', 'n', 'f', 'i', 'n', 'i', 't', 'y']);
    assert(infinity_u@ =~= seq!['I', 'N', 'F', 'I', 'N', 'I', 'T', 'Y']);
    assert(nan_l@ =~= seq!['n', 'a', 'n']);
    assert(nan_u@ =~= seq!['N', 'A', 'N']);
    spells_word(cs, lo, hi, &inf_l, &inf_u) || spells_word(cs, lo, hi, &infinity_l, &infinity_u)
        || spells_word(cs, lo, hi, &nan_l, &nan_u)
}

fn unsigned_numeral(cs: &Vec<char>, lo: usize, hi: usize) -> (r: bool)
    requires
        lo <= hi <= cs.len(),
    ensures
        r == is_unsigned_numeral(cs@.subrange(lo as int, hi as int)),
{
    let ghost b = cs@.subrange(lo as int, hi as int);
    if special(cs, lo, hi) || decimal(cs, lo, hi) {
        return true;
    }
    let e = first_of(cs, lo, hi, 'e', 'E');
    if e == hi {
        assert(!is_unsigned_numeral(b)) by {
            if exists|e: int| 0 <= e < b.len() && is_exp_mark(b[e]) && is_decimal(b.take(e)) && is_exponent(b.skip(e + 1)) {
                let x = choose|e: int| 0 <= e < b.len() && is_exp_mark(b[e]) && is_decimal(b.take(e)) && is_exponent(b.skip(e + 1));
                assert(b[x] == cs@[lo + x]);
            }
        }
        return false;
    }
    let rel = e - lo;
    assert(b.take(rel as int) =~= cs@.subrange(lo as int, e as int));
    assert(b.skip(rel + 1) =~= cs@.subrange(e + 1, hi as int));
    assert(b[rel as int] == cs@[e as int]);
    let r = decimal(cs, lo, e) && exponent(cs, e + 1, hi);
    proof {
        if exists|e: int| 0 <= e < b.len() && is_exp_mark(b[e]) && is_decimal(b.take(e)) && is_exponent(b.skip(e + 1)) {
            let x = choose|e: int| 0 <= e < b.len() && is_exp_mark(b[e]) && is_decimal(b.take(e)) && is_exponent(b.skip(e + 1));
            if x < rel {
                assert(b[x] == cs@[lo + x]);
            } else if x > rel {
                assert(b.take(x)[rel as int] == b[rel as int]);
                lemma_decimal_chars(b.take(x), rel as int);
            }
        }
    }
    r
}

/// Whether `cs[lo..hi]` is a numeral.
pub fn numeral(cs: &Vec<char>, lo: usize, hi: usize) -> (r: bool)
    requires
        lo <= hi <= cs.len(),
    ensures
        r == is_numeral(cs@.subrange(lo as int, hi as int)),
{
    let ghost s = cs@.subrange(lo as int, hi as int);
    if lo < hi && (cs[lo] == '+' || cs[lo] == '-') {
        assert(s.skip(1) =~= cs@.subrange(lo + 1, hi as int));
        unsigned_numeral(cs, lo + 1, hi)
    } else {
        unsigned_numeral(cs, lo, hi)
    }
}

} // verus!
