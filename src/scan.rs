//! Depth-aware delimiter search over characters, and whitespace trimming.
use vstd::prelude::*;
use vstd::std_specs::iter::IteratorSpec;

verus! {

broadcast use vstd::string::group_string_axioms;

/// The structural characters of the text format.
pub enum Token {
    CurlyParOpen,
    CurlyParClose,
    SquareParOpen,
    SquareParClose,
    Whitespace,
    Comma,
    Colons,
    Quote,
}

impl Token {
    pub open spec fn spec_char(&self) -> char {
        match *self {
            Token::CurlyParOpen => '{',
            Token::CurlyParClose => '}',
            Token::SquareParOpen => '[',
            Token::SquareParClose => ']',
            Token::Whitespace => ' ',
            Token::Comma => ',',
            Token::Colons => ':',
            Token::Quote => '"',
        }
    }

    /// The character that stands for this token.
    pub fn get_token(&self) -> (c: char)
        ensures
            c == self.spec_char(),
    {
        match *self {
            Token::CurlyParOpen => '{',
            Token::CurlyParClose => '}',
            Token::SquareParOpen => '[',
            Token::SquareParClose => ']',
            Token::Whitespace => ' ',
            Token::Comma => ',',
            Token::Colons => ':',
            Token::Quote => '"',
        }
    }
}

/// One step of the nesting counter. With distinct `open` and `close` the
/// counter is a depth (it may go below zero); with `open == close` it
/// toggles between zero and one, i.e. it tracks whether a quoted span is open.
pub open spec fn depth_step(d: int, c: char, open: char, close: char) -> int {
    if c == open && (open != close || d == 0) {
        d + 1
    } else if c == close {
        d - 1
    } else {
        d
    }
}

/// The counter after the first `n` characters of `s`.
pub open spec fn depth_at(s: Seq<char>, n: int, open: char, close: char) -> int
    decreases n,
{
    if n <= 0 || n > s.len() {
        0
    } else {
        depth_step(depth_at(s, n - 1, open, close), s[n - 1], open, close)
    }
}

/// `s[i]` is `pat`, seen while the counter (after `s[i]`) is zero.
pub open spec fn unnested_at(s: Seq<char>, i: int, pat: char, open: char, close: char) -> bool {
    0 <= i < s.len() && s[i] == pat && depth_at(s, i + 1, open, close) == 0
}

pub open spec fn is_first_unnested(s: Seq<char>, i: int, pat: char, open: char, close: char) -> bool {
    unnested_at(s, i, pat, open, close) && forall|j: int| 0 <= j < i ==> !unnested_at(s, j, pat, open, close)
}

/// The index of the first unnested occurrence of `pat` in `s`, if any.
pub open spec fn first_unnested(s: Seq<char>, pat: char, open: char, close: char) -> Option<int> {
    if exists|i: int| is_first_unnested(s, i, pat, open, close) {
        Some(choose|i: int| is_first_unnested(s, i, pat, open, close))
    } else {
        None
    }
}

pub proof fn lemma_first_unnested_is(s: Seq<char>, i: int, pat: char, open: char, close: char)
    requires
        is_first_unnested(s, i, pat, open, close),
    ensures
        first_unnested(s, pat, open, close) == Some(i),
{
    let k = choose|k: int| is_first_unnested(s, k, pat, open, close);
    assert(is_first_unnested(s, k, pat, open, close));
    if k < i {
        assert(!unnested_at(s, k, pat, open, close));
    } else if i < k {
        assert(!unnested_at(s, i, pat, open, close));
    }
}

pub proof fn lemma_first_unnested_none(s: Seq<char>, pat: char, open: char, close: char)
    requires
        forall|j: int| 0 <= j < s.len() ==> !unnested_at(s, j, pat, open, close),
    ensures
        first_unnested(s, pat, open, close) is None,
{
    if exists|i: int| is_first_unnested(s, i, pat, open, close) {
        let k = choose|i: int| is_first_unnested(s, i, pat, open, close);
        assert(unnested_at(s, k, pat, open, close));
    }
}

/// The counter over a prefix of a concatenation is the counter over the
/// first part.
pub proof fn lemma_depth_prefix(a: Seq<char>, b: Seq<char>, n: int, open: char, close: char)
    requires
        0 <= n <= a.len(),
    ensures
        depth_at(a + b, n, open, close) == depth_at(a, n, open, close),
    decreases n,
{
    if n > 0 {
        lemma_depth_prefix(a, b, n - 1, open, close);
        assert((a + b)[n - 1] == a[n - 1]);
    }
}

/// Bracket depth adds up over a concatenation.
pub proof fn lemma_depth_concat(a: Seq<char>, b: Seq<char>, m: int)
    requires
        0 <= m <= b.len(),
    ensures
        depth_at(a + b, a.len() + m, '[', ']') == depth_at(a, a.len() as int, '[', ']') + depth_at(b, m, '[', ']'),
    decreases m,
{
    if m == 0 {
        lemma_depth_prefix(a, b, a.len() as int, '[', ']');
    } else {
        lemma_depth_concat(a, b, m - 1);
        assert((a + b)[a.len() + m - 1] == b[m - 1]);
    }
}

/// Where `pat` occurs unnested somewhere, there is a first such place.
pub proof fn lemma_first_unnested_some(s: Seq<char>, i: int, pat: char, open: char, close: char)
    requires
        unnested_at(s, i, pat, open, close),
    ensures
        first_unnested(s, pat, open, close) is Some,
    decreases i,
{
    if !is_first_unnested(s, i, pat, open, close) {
        let j = choose|j: int| 0 <= j < i && unnested_at(s, j, pat, open, close);
        lemma_first_unnested_some(s, j, pat, open, close);
    }
}

/// Searches `cs[lo..hi]` for the first `pat` at counter zero; the result is
/// relative to `lo`.
pub fn find_unnested_in(cs: &Vec<char>, lo: usize, hi: usize, pat: char, open: char, close: char) -> (r:
    Option<usize>)
    requires
        lo <= hi <= cs.len(),
    ensures
        match r {
            Some(i) => first_unnested(cs@.subrange(lo as int, hi as int), pat, open, close) == Some(i as int),
            None => first_unnested(cs@.subrange(lo as int, hi as int), pat, open, close) is None,
        },
{
    let ghost s = cs@.subrange(lo as int, hi as int);
    // the counter is `up - down`
    let mut up: usize = 0;
    let mut down: usize = 0;
    let mut k: usize = lo;
    while k < hi
        invariant
            lo <= k <= hi <= cs.len(),
            s == cs@.subrange(lo as int, hi as int),
            up <= k - lo,
            down <= k - lo,
            up - down == depth_at(s, k - lo, open, close),
            forall|j: int| 0 <= j < k - lo ==> !unnested_at(s, j, pat, open, close),
        decreases hi - k,
    {
        let c = cs[k];
        if c == open && (open != close || up == down) {
            up = up + 1;
        } else if c == close {
            down = down + 1;
        }
        assert(up - down == depth_at(s, k + 1 - lo, open, close));
        if c == pat && up == down {
            proof {
                assert(unnested_at(s, k - lo, pat, open, close));
                lemma_first_unnested_is(s, k - lo, pat, open, close);
            }
            return Some(k - lo);
        }
        k = k + 1;
    }
    proof {
        lemma_first_unnested_none(s, pat, open, close);
    }
    None
}

/// The characters of `s`, in order.
pub fn chars_of(s: &str) -> (r: Vec<char>)
    ensures
        r@ == s@,
{
    let mut it = s.chars();
    let mut r: Vec<char> = Vec::new();
    loop
        invariant
            r@ + it.remaining() == s@,
            it.decrease() is Some,
        ensures
            r@ == s@,
        decreases it.decrease()->0,
    {
        let ghost before = it;
        match it.next() {
            Some(c) => {
                r.push(c);
            },
            None => {
                assert(before.remaining().len() == 0);
                assert(r@ =~= s@);
                break;
            },
        }
    }
    r
}

/// Finds the first `pat` in `string` that is not nested between `open` and
/// `close`; the result counts characters.
pub fn find_not_between(string: &str, pat: char, open: char, close: char) -> (r: Option<usize>)
    ensures
        match r {
            Some(i) => first_unnested(string@, pat, open, close) == Some(i as int),
            None => first_unnested(string@, pat, open, close) is None,
        },
{
    let cs = chars_of(string);
    let n = cs.len();
    assert(cs@.subrange(0, n as int) =~= string@);
    find_unnested_in(&cs, 0, n, pat, open, close)
}

/// The number of `[` minus the number of `]` in the first `n` characters.
pub open spec fn bracket_balance(s: Seq<char>, n: int) -> int
    decreases n,
{
    if n <= 0 || n > s.len() {
        0
    } else {
        bracket_balance(s, n - 1) + if s[n - 1] == '[' {
            1int
        } else if s[n - 1] == ']' {
            -1int
        } else {
            0int
        }
    }
}

/// The number of `[` minus the number of `]` in `string`.
pub fn count_parens(string: &str) -> (r: i64)
    requires
        string@.len() <= i64::MAX,
    ensures
        r == bracket_balance(string@, string@.len() as int),
{
    let cs = chars_of(string);
    let mut parens: i64 = 0;
    let mut k: usize = 0;
    while k < cs.len()
        invariant
            cs@ == string@,
            k <= cs.len() <= i64::MAX,
            parens == bracket_balance(string@, k as int),
            -(k as int) <= parens <= k,
        decreases cs.len() - k,
    {
        if cs[k] == Token::SquareParOpen.get_token() {
            parens = parens + 1;
        } else if cs[k] == Token::SquareParClose.get_token() {
            parens = parens - 1;
        }
        k = k + 1;
    }
    parens
}

} // verus!
