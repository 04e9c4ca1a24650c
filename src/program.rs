//! Loading a program from its text: comma-separated base-10 integers,
//! with surrounding whitespace trimmed before splitting.
use vstd::prelude::*;

use crate::machine::{initial_model, Machine};
use crate::semantics::MEMORY_LIMIT;

verus! {

/// The characters that `str::trim` removes (Unicode `White_Space`).
pub open spec fn is_space(c: char) -> bool {
    ('\t' <= c && c <= '\r') || c == ' ' || c == '\u{85}' || c == '\u{a0}' || c == '\u{1680}' || (
    '\u{2000}' <= c && c <= '\u{200a}') || c == '\u{2028}' || c == '\u{2029}' || c == '\u{202f}'
        || c == '\u{205f}' || c == '\u{3000}'
}

/// `s` without its leading whitespace.
pub open spec fn trim_start(s: Seq<char>) -> Seq<char>
    decreases s.len(),
{
    if s.len() > 0 && is_space(s[0]) {
        trim_start(s.drop_first())
    } else {
        s
    }
}

/// `s` without its trailing whitespace.
pub open spec fn trim_end(s: Seq<char>) -> Seq<char>
    decreases s.len(),
{
    if s.len() > 0 && is_space(s.last()) {
        trim_end(s.drop_last())
    } else {
        s
    }
}

/// The pieces of `s` between occurrences of `sep`; there is always at least one.
pub open spec fn split_on(s: Seq<char>, sep: char) -> Seq<Seq<char>>
    decreases s.len(),
{
    if s.len() == 0 {
        seq![Seq::<char>::empty()]
    } else {
        let rest = split_on(s.drop_first(), sep);
        if s[0] == sep {
            seq![Seq::<char>::empty()] + rest
        } else {
            rest.update(0, seq![s[0]] + rest[0])
        }
    }
}

pub open spec fn is_digit(c: char) -> bool {
    '0' <= c && c <= '9'
}

pub open spec fn digit_value(c: char) -> int {
    c as int - '0' as int
}

/// The number that a string of decimal digits denotes.
pub open spec fn digits_value(d: Seq<char>) -> int
    decreases d.len(),
{
    if d.len() == 0 {
        0
    } else {
        digits_value(d.drop_last()) * 10 + digit_value(d.last())
    }
}

/// One or more decimal digits.
pub open spec fn all_digits(d: Seq<char>) -> bool {
    d.len() > 0 && forall|i: int| 0 <= i < d.len() ==> is_digit(#[trigger] d[i])
}

/// The integer a token denotes: an optional sign, then decimal digits.
pub open spec fn integer_value(t: Seq<char>) -> Option<int> {
    if t.len() > 0 && (t[0] == '-' || t[0] == '+') && all_digits(t.drop_first()) {
        if t[0] == '-' {
            Some(-digits_value(t.drop_first()))
        } else {
            Some(digits_value(t.drop_first()))
        }
    } else if all_digits(t) {
        Some(digits_value(t))
    } else {
        None
    }
}

/// The 64-bit value of a token, if it is an integer in range.
pub open spec fn token_value(t: Seq<char>) -> Option<i64> {
    match integer_value(t) {
        Some(v) => if i64::MIN <= v <= i64::MAX {
            Some(v as i64)
        } else {
            None
        },
        None => None,
    }
}

/// The values of all tokens, or `None` if one of them is no integer.
pub open spec fn parse_tokens(toks: Seq<Seq<char>>) -> Option<Seq<i64>>
    decreases toks.len(),
{
    if toks.len() == 0 {
        Some(Seq::<i64>::empty())
    } else {
        match (token_value(toks[0]), parse_tokens(toks.drop_first())) {
            (Some(v), Some(rest)) => Some(seq![v] + rest),
            _ => None,
        }
    }
}

/// The memory image that a program text denotes, or `None` for a load error.
pub open spec fn parse_program(text: Seq<char>) -> Option<Seq<i64>> {
    parse_tokens(split_on(trim_end(trim_start(text)), ','))
}

proof fn lemma_trim_start(s: Seq<char>, lo: int)
    requires
        0 <= lo <= s.len(),
        forall|i: int| 0 <= i < lo ==> is_space(#[trigger] s[i]),
        lo == s.len() || !is_space(s[lo]),
    ensures
        trim_start(s) == s.subrange(lo, s.len() as int),
    decreases lo,
{
    if lo == 0 {
        assert(s.subrange(0, s.len() as int) =~= s);
    } else {
        assert(is_space(s[0]));
        lemma_trim_start(s.drop_first(), lo - 1);
        assert(s.drop_first().subrange(lo - 1, s.len() - 1) =~= s.subrange(lo, s.len() as int));
    }
}

proof fn lemma_trim_end(t: Seq<char>, k: int)
    requires
        0 <= k <= t.len(),
        forall|i: int| k <= i < t.len() ==> is_space(#[trigger] t[i]),
        k == 0 || !is_space(t[k - 1]),
    ensures
        trim_end(t) == t.subrange(0, k),
    decreases t.len() - k,
{
    if k == t.len() {
        assert(t.subrange(0, k) =~= t);
    } else {
        assert(is_space(t[t.len() - 1]));
        lemma_trim_end(t.drop_last(), k);
        assert(t.drop_last().subrange(0, k) =~= t.subrange(0, k));
    }
}

pub(crate) proof fn lemma_split_none(a: Seq<char>, sep: char)
    requires
        forall|i: int| 0 <= i < a.len() ==> #[trigger] a[i] != sep,
    ensures
        split_on(a, sep) == seq![a],
    decreases a.len(),
{
    if a.len() == 0 {
        assert(a =~= Seq::<char>::empty());
    } else {
        lemma_split_none(a.drop_first(), sep);
        assert(seq![a[0]] + a.drop_first() =~= a);
        assert(seq![a.drop_first()].update(0, seq![a[0]] + a.drop_first()) =~= seq![a]);
    }
}

pub(crate) proof fn lemma_split_at(u: Seq<char>, sep: char, k: int)
    requires
        0 <= k < u.len(),
        u[k] == sep,
        forall|i: int| 0 <= i < k ==> #[trigger] u[i] != sep,
    ensures
        split_on(u, sep) == seq![u.subrange(0, k)] + split_on(u.subrange(k + 1, u.len() as int), sep),
    decreases k,
{
    if k == 0 {
        assert(u.subrange(0, 0) =~= Seq::<char>::empty());
        assert(u.drop_first() =~= u.subrange(1, u.len() as int));
    } else {
        let d = u.drop_first();
        assert forall|i: int| 0 <= i < k - 1 implies #[trigger] d[i] != sep by {
            assert(d[i] == u[i + 1]);
        }
        lemma_split_at(d, sep, k - 1);
        assert(d.subrange(k, d.len() as int) =~= u.subrange(k + 1, u.len() as int));
        let rest = split_on(d, sep);
        assert(seq![u[0]] + d.subrange(0, k - 1) =~= u.subrange(0, k));
        assert(rest.update(0, seq![u[0]] + rest[0]) =~= seq![u.subrange(0, k)] + split_on(
            u.subrange(k + 1, u.len() as int),
            sep,
        ));
    }
}

proof fn lemma_digits_value_prefix(d: Seq<char>, j: int)
    requires
        0 <= j <= d.len(),
        forall|i: int| 0 <= i < d.len() ==> is_digit(#[trigger] d[i]),
    ensures
        0 <= digits_value(d.subrange(0, j)) <= digits_value(d),
    decreases d.len(),
{
    if j == d.len() {
        assert(d.subrange(0, j) =~= d);
        if d.len() > 0 {
            lemma_digits_value_prefix(d.drop_last(), 0);
        }
    } else {
        lemma_digits_value_prefix(d.drop_last(), j);
        assert(d.drop_last().subrange(0, j) =~= d.subrange(0, j));
        assert(is_digit(d[d.len() - 1]));
    }
}

fn is_space_char(c: char) -> (r: bool)
    ensures
        r == is_space(c),
{
    ('\t' <= c && c <= '\r') || c == ' ' || c == '\u{85}' || c == '\u{a0}' || c == '\u{1680}' || (
    '\u{2000}' <= c && c <= '\u{200a}') || c == '\u{2028}' || c == '\u{2029}' || c == '\u{202f}'
        || c == '\u{205f}' || c == '\u{3000}'
}

pub(crate) fn collect_chars(code: &str) -> (r: Vec<char>)
    ensures
        r@ == code@,
{
    let mut v: Vec<char> = Vec::new();
    for c in it: code.chars()
        invariant
            v@ == it.seq().take(it.index() as int),
            it.seq() == code@,
    {
        v.push(c);
    }
    assert(v@ =~= code@);
    v
}

/// The characters of `text`, with the bounds of its trimmed part.
pub(crate) fn trimmed_chars(text: &str) -> (r: (Vec<char>, usize, usize))
    ensures
        r.0@ == text@,
        r.1 <= r.2 <= r.0@.len(),
        r.0@.subrange(r.1 as int, r.2 as int) == trim_end(trim_start(text@)),
{
    let chars = collect_chars(text);
    let n = chars.len();
    let mut lo: usize = 0;
    while lo < n && is_space_char(chars[lo])
        invariant
            lo <= n == chars@.len(),
            forall|i: int| 0 <= i < lo ==> is_space(#[trigger] chars@[i]),
        decreases n - lo,
    {
        lo = lo + 1;
    }
    let mut hi: usize = n;
    while hi > lo && is_space_char(chars[hi - 1])
        invariant
            lo <= hi <= n == chars@.len(),
            forall|i: int| hi <= i < n ==> is_space(#[trigger] chars@[i]),
        decreases hi,
    {
        hi = hi - 1;
    }
    proof {
        lemma_trim_start(chars@, lo as int);
        let t = chars@.subrange(lo as int, n as int);
        assert forall|i: int| hi - lo <= i < t.len() implies is_space(#[trigger] t[i]) by {
            assert(t[i] == chars@[i + lo]);
        }
        lemma_trim_end(t, hi - lo);
        assert(t.subrange(0, hi - lo) =~= chars@.subrange(lo as int, hi as int));
    }
    (chars, lo, hi)
}

/// Parses the token `chars[start..end]` as a 64-bit integer.
pub(crate) fn parse_token(chars: &Vec<char>, start: usize, end: usize) -> (r: Option<i64>)
    requires
        start <= end <= chars@.len(),
    ensures
        r == token_value(chars@.subrange(start as int, end as int)),
{
    let ghost t = chars@.subrange(start as int, end as int);
    let mut i = start;
    let mut negative = false;
    if i < end && (chars[i] == '-' || chars[i] == '+') {
        negative = chars[i] == '-';
        i = i + 1;
    }
    let digits_start = i;
    let ghost body = chars@.subrange(digits_start as int, end as int);
    assert(digits_start > start ==> body =~= t.drop_first());
    if i == end {
        assert(!is_digit('-') && !is_digit('+'));
        return None;
    }
    let mut acc: i128 = 0;
    while i < end
        invariant
            start <= digits_start <= i <= end <= chars@.len(),
            digits_start < end,
            t == chars@.subrange(start as int, end as int),
            digits_start == start || (digits_start == start + 1 && (chars@[start as int] == '-'
                || chars@[start as int] == '+')),
            negative == (digits_start == start + 1 && chars@[start as int] == '-'),
            digits_start == start ==> chars@[start as int] != '-' && chars@[start as int] != '+',
            digits_start > start ==> body =~= t.drop_first(),
            body == chars@.subrange(digits_start as int, end as int),
            forall|j: int| digits_start <= j < i ==> is_digit(#[trigger] chars@[j]),
            0 <= acc <= 0x8000_0000_0000_0000,
            acc == digits_value(chars@.subrange(digits_start as int, i as int)),
        decreases end - i,
    {
        let c = chars[i];
        if !('0' <= c && c <= '9') {
            proof {
                assert(!is_digit(body[i - digits_start]));
                assert(!all_digits(body));
                if digits_start == start {
                    assert(body =~= t);
                    assert(!is_digit('-') && !is_digit('+'));
                } else {
                    assert(t[0] == chars@[start as int]);
                    assert(!is_digit(t[0]));
                }
            }
            return None;
        }
        let ghost prev = chars@.subrange(digits_start as int, i as int);
        acc = acc * 10 + (c as u32 - '0' as u32) as i128;
        i = i + 1;
        proof {
            assert(chars@.subrange(digits_start as int, i as int).drop_last() =~= prev);
        }
        if acc > 0x8000_0000_0000_0000 {
            proof {
                if all_digits(body) {
                    lemma_digits_value_prefix(body, i - digits_start);
                    assert(body.subrange(0, i - digits_start) =~= chars@.subrange(
                        digits_start as int,
                        i as int,
                    ));
                }
                if digits_start == start {
                    assert(body =~= t);
                    assert(!is_digit('-') && !is_digit('+'));
                }
            }
            return None;
        }
    }
    proof {
        assert(chars@.subrange(digits_start as int, i as int) =~= body);
        if digits_start == start {
            assert(body =~= t);
        } else {
            assert(!is_digit(t[0]));
        }
    }
    let value: i128 = if negative {
        -acc
    } else {
        acc
    };
    if value < i64::MIN as i128 || value > i64::MAX as i128 {
        None
    } else {
        Some(value as i64)
    }
}

/// Parses a program text into its memory image. Returns `None` when a token
/// between commas is not a 64-bit integer.
pub fn parse_ascii_program(code: &str) -> (r: Option<Vec<i64>>)
    ensures
        match parse_program(code@) {
            Some(p) => r is Some && r->0@ == p,
            None => r is None,
        },
{
    let (chars, lo, hi) = trimmed_chars(code);
    let n = chars.len();
    let mut values: Vec<i64> = Vec::new();
    let mut st = lo;
    loop
        invariant
            lo <= st <= hi <= n == chars@.len(),
            parse_program(code@) == match parse_tokens(split_on(chars@.subrange(st as int, hi as int), ',')) {
                Some(rest) => Some(values@ + rest),
                None => None::<Seq<i64>>,
            },
        decreases hi - st,
    {
        let mut k = st;
        while k < hi && chars[k] != ','
            invariant
                st <= k <= hi <= chars@.len(),
                forall|i: int| st <= i < k ==> #[trigger] chars@[i] != ',',
            decreases hi - k,
        {
            k = k + 1;
        }
        let ghost w = chars@.subrange(st as int, hi as int);
        let ghost tok = chars@.subrange(st as int, k as int);
        let ghost tail = if k < hi {
            chars@.subrange(k + 1, hi as int)
        } else {
            Seq::<char>::empty()
        };
        proof {
            if k < hi {
                lemma_split_at(w, ',', k - st);
                assert(w.subrange(0, k - st) =~= tok);
                assert(w.subrange(k - st + 1, w.len() as int) =~= tail);
            } else {
                lemma_split_none(w, ',');
                assert(w =~= tok);
            }
        }
        let v = match parse_token(&chars, st, k) {
            Some(v) => v,
            None => {
                return None;
            },
        };
        let ghost prev = values@;
        values.push(v);
        if k == hi {
            proof {
                assert(seq![tok].drop_first() =~= Seq::<Seq<char>>::empty());
                assert(parse_tokens(Seq::<Seq<char>>::empty()) == Some(Seq::<i64>::empty()));
                assert(parse_tokens(seq![tok]) == Some(seq![v] + Seq::<i64>::empty()));
                assert(values@ =~= prev + (seq![v] + Seq::<i64>::empty()));
            }
            return Some(values);
        }
        proof {
            assert((seq![tok] + split_on(tail, ',')).drop_first() =~= split_on(tail, ','));
            if let Some(rest) = parse_tokens(split_on(tail, ',')) {
                assert(values@ + rest =~= prev + (seq![v] + rest));
            }
        }
        st = k + 1;
    }
}

impl Machine {
    /// Loads a machine from program text. Returns `None` on a load error,
    /// or when the image exceeds the memory limit.
    pub fn from_ascii_program(code: &str) -> (r: Option<Machine>)
        ensures
            match parse_program(code@) {
                Some(p) => if p.len() <= MEMORY_LIMIT {
                    r is Some && r->0@ == initial_model(p) && r->0.wf()
                } else {
                    r is None
                },
                None => r is None,
            },
    {
        match parse_ascii_program(code) {
            Some(p) => if p.len() <= MEMORY_LIMIT {
                Some(Machine::new(p.as_slice()))
            } else {
                None
            },
            None => None,
        }
    }
}

} // verus!
