//! The shape of a numeric token.
//!
//! The tool prints scores and vector components as decimal literals. A token
//! counts as a number when it follows this grammar, letters in either case:
//!
//! ```text
//! Number   ::= Sign? ( 'inf' | 'infinity' | 'nan' | Decimal )
//! Decimal  ::= Mantissa Exponent?
//! Mantissa ::= Digit+ | Digit+ '.' Digit* | Digit* '.' Digit+
//! Exponent ::= 'e' Sign? Digit+
//! Sign     ::= '+' | '-'
//! Digit    ::= '0' ..= '9'
//! ```
//!
//! These are the strings that `str::parse` turns into a floating-point
//! value, so a caller can convert every token that passes with no further
//! check.

use vstd::prelude::*;
use vstd::slice::slice_subrange;

verus! {

pub open spec fn is_digit(c: char) -> bool {
    '0' <= c && c <= '9'
}

pub open spec fn is_sign(c: char) -> bool {
    c == '+' || c == '-'
}

pub open spec fn all_digits(s: Seq<char>) -> bool {
    forall|i: int| 0 <= i < s.len() ==> is_digit(#[trigger] s[i])
}

/// `s` without its leading sign, if it has one.
pub open spec fn unsigned(s: Seq<char>) -> Seq<char> {
    if s.len() > 0 && is_sign(s[0]) {
        s.skip(1)
    } else {
        s
    }
}

/// Whether `s` spells the lower-case word `word` in any mix of cases.
pub open spec fn spells(s: Seq<char>, word: Seq<char>) -> bool {
    &&& s.len() == word.len()
    &&& forall|i: int| 0 <= i < s.len() ==> same_letter(#[trigger] s[i], word[i])
}

/// Whether `c` is the lower-case letter `letter` or its capital.
pub open spec fn same_letter(c: char, letter: char) -> bool {
    c == letter || (c as int) + 32 == letter as int
}

/// `Digit+ | Digit+ '.' Digit* | Digit* '.' Digit+`
pub open spec fn is_mantissa(s: Seq<char>) -> bool {
    ||| s.len() > 0 && all_digits(s)
    ||| exists|p: int|
        0 <= p < s.len() && s.len() > 1 && #[trigger] s[p] == '.' && all_digits(s.take(p))
            && all_digits(s.skip(p + 1))
}

/// `'e' Sign? Digit+`
pub open spec fn is_exponent(s: Seq<char>) -> bool {
    &&& s.len() > 0
    &&& (s[0] == 'e' || s[0] == 'E')
    &&& unsigned(s.skip(1)).len() > 0
    &&& all_digits(unsigned(s.skip(1)))
}

/// `Mantissa Exponent?`
pub open spec fn is_decimal(s: Seq<char>) -> bool {
    exists|m: int|
        0 <= m <= s.len() && is_mantissa(#[trigger] s.take(m)) && (m == s.len() || is_exponent(
            s.skip(m),
        ))
}

/// Whether `s` is a numeric token.
pub open spec fn is_number(s: Seq<char>) -> bool {
    let u = unsigned(s);
    ||| spells(u, seq!['i', 'n', 'f'])
    ||| spells(u, seq!['i', 'n', 'f', 'i', 'n', 'i', 't', 'y'])
    ||| spells(u, seq!['n', 'a', 'n'])
    ||| is_decimal(u)
}

/// A numeric token is not empty, and holds neither a blank nor a line feed.
pub proof fn lemma_number_unbroken(s: Seq<char>)
    requires
        is_number(s),
    ensures
        s.len() > 0,
        forall|i: int| 0 <= i < s.len() ==> s[i] != ' ' && s[i] != '\n',
{
    let u = unsigned(s);
    let inf = seq!['i', 'n', 'f'];
    let infinity = seq!['i', 'n', 'f', 'i', 'n', 'i', 't', 'y'];
    let nan = seq!['n', 'a', 'n'];
    assert forall|k: int| 0 <= k < u.len() implies u[k] != ' ' && u[k] != '\n' by {
        if spells(u, inf) {
            assert(same_letter(u[k], inf[k]));
        } else if spells(u, infinity) {
            assert(same_letter(u[k], infinity[k]));
        } else if spells(u, nan) {
            assert(same_letter(u[k], nan[k]));
        } else {
            let m = choose|m: int|
                0 <= m <= u.len() && is_mantissa(#[trigger] u.take(m)) && (m == u.len()
                    || is_exponent(u.skip(m)));
            let head = u.take(m);
            if k < m {
                assert(head[k] == u[k]);
                if head.len() > 0 && all_digits(head) {
                    assert(is_digit(head[k]));
                } else {
                    let p = choose|p: int|
                        0 <= p < head.len() && head.len() > 1 && #[trigger] head[p] == '.'
                            && all_digits(head.take(p)) && all_digits(head.skip(p + 1));
                    if k < p {
                        assert(is_digit(head.take(p)[k]));
                    } else if k > p {
                        assert(is_digit(head.skip(p + 1)[k - p - 1]));
                    }
                }
            } else {
                let tail = u.skip(m);
                assert(tail[k - m] == u[k]);
                if k > m {
                    let power = tail.skip(1);
                    assert(power[k - m - 1] == u[k]);
                    if power.len() > 0 && is_sign(power[0]) {
                        if k > m + 1 {
                            assert(is_digit(unsigned(power)[k - m - 2]));
                        }
                    } else {
                        assert(is_digit(unsigned(power)[k - m - 1]));
                    }
                }
            }
        }
    }
    assert(u.len() > 0) by {
        if !spells(u, inf) && !spells(u, infinity) && !spells(u, nan) {
            let m = choose|m: int|
                0 <= m <= u.len() && is_mantissa(#[trigger] u.take(m)) && (m == u.len()
                    || is_exponent(u.skip(m)));
            assert(u.take(m).len() > 0);
        }
    }
    assert forall|i: int| 0 <= i < s.len() implies s[i] != ' ' && s[i] != '\n' by {
        if s.len() > 0 && is_sign(s[0]) {
            if i > 0 {
                assert(u[i - 1] == s[i]);
            }
        }
    }
}

fn digit(c: char) -> (r: bool)
    ensures
        r == is_digit(c),
{
    '0' <= c && c <= '9'
}

/// The end of the run of digits that starts at `from`.
fn digits_end(s: &[char], from: usize) -> (to: usize)
    requires
        from <= s@.len(),
    ensures
        from <= to <= s@.len(),
        forall|j: int| from <= j < to ==> is_digit(#[trigger] s@[j]),
        to < s@.len() ==> !is_digit(s@[to as int]),
{
    let mut to: usize = from;
    while to < s.len() && digit(s[to])
        invariant
            from <= to <= s@.len(),
            forall|j: int| from <= j < to ==> is_digit(#[trigger] s@[j]),
        decreases s@.len() - to,
    {
        to += 1;
    }
    to
}

fn letter(c: char, lower: char, upper: char) -> (r: bool)
    requires
        (upper as int) + 32 == lower as int,
    ensures
        r == same_letter(c, lower),
{
    c == lower || c == upper
}

fn check_exponent(s: &[char]) -> (r: bool)
    ensures
        r == is_exponent(s@),
{
    if s.len() == 0 || !(s[0] == 'e' || s[0] == 'E') {
        return false;
    }
    let from: usize = if s.len() > 1 && (s[1] == '+' || s[1] == '-') {
        2
    } else {
        1
    };
    let to = digits_end(s, from);
    proof {
        let d = unsigned(s@.skip(1));
        assert(d =~= s@.skip(from as int));
        if to == s@.len() {
            assert forall|i: int| 0 <= i < d.len() implies is_digit(#[trigger] d[i]) by {
                assert(d[i] == s@[from + i]);
            }
        } else {
            assert(d[to - from] == s@[to as int]);
        }
    }
    from < s.len() && to == s.len()
}

fn check_decimal(s: &[char]) -> (r: bool)
    ensures
        r == is_decimal(s@),
{
    let a = digits_end(s, 0);
    let dotted = a < s.len() && s[a] == '.';
    let m = if dotted {
        digits_end(s, a + 1)
    } else {
        a
    };
    let count = if dotted {
        m - 1
    } else {
        m
    };
    let rest = slice_subrange(s, m, s.len());
    let tail = m == s.len() || check_exponent(rest);
    proof {
        let head = s@.take(m as int);
        // What was read is a mantissa exactly when it holds a digit.
        if count > 0 {
            if dotted {
                assert(head[a as int] == '.');
                assert(all_digits(head.take(a as int)));
                assert forall|i: int| 0 <= i < head.skip(a + 1).len() implies is_digit(
                    #[trigger] head.skip(a + 1)[i],
                ) by {
                    assert(head.skip(a + 1)[i] == s@[a + 1 + i]);
                }
            } else {
                assert(all_digits(head));
            }
            assert(is_mantissa(head));
        }
        // Any other reading of `s` as a decimal ends its mantissa at `m` too.
        assert forall|k: int|
            0 <= k <= s@.len() && is_mantissa(#[trigger] s@.take(k)) && (k == s@.len()
                || is_exponent(s@.skip(k))) implies k == m && count > 0 by {
            let t = s@.take(k);
            if k < s@.len() {
                assert(s@.skip(k)[0] == s@[k]);
            }
            if t.len() > 0 && all_digits(t) {
                if k > a {
                    assert(is_digit(t[a as int]));
                }
                if k < a {
                    assert(is_digit(s@[k]));
                }
            } else {
                let p = choose|p: int|
                    0 <= p < t.len() && t.len() > 1 && #[trigger] t[p] == '.' && all_digits(
                        t.take(p),
                    ) && all_digits(t.skip(p + 1));
                if p > a {
                    assert(is_digit(t.take(p)[a as int]));
                }
                if p < a {
                    assert(is_digit(s@[p]));
                }
                assert(p == a);
                if k > m {
                    assert(is_digit(t.skip(p + 1)[m - p - 1]));
                }
                if k < m {
                    assert(is_digit(s@[k]));
                }
            }
        }
    }
    count > 0 && tail
}

fn check_word(s: &[char], lower: &[char], upper: &[char]) -> (r: bool)
    requires
        lower@.len() == upper@.len(),
        forall|i: int|
            0 <= i < lower@.len() ==> (#[trigger] upper@[i] as int) + 32 == lower@[i] as int,
    ensures
        r == spells(s@, lower@),
{
    if s.len() != lower.len() {
        return false;
    }
    let mut i: usize = 0;
    while i < s.len()
        invariant
            s@.len() == lower@.len(),
            lower@.len() == upper@.len(),
            i <= s@.len(),
            forall|j: int|
                0 <= j < lower@.len() ==> (#[trigger] upper@[j] as int) + 32 == lower@[j] as int,
            forall|j: int| 0 <= j < i ==> same_letter(#[trigger] s@[j], lower@[j]),
        decreases s@.len() - i,
    {
        if !letter(s[i], lower[i], upper[i]) {
            return false;
        }
        i += 1;
    }
    true
}

/// Whether `s` is a numeric token.
pub fn number(s: &[char]) -> (r: bool)
    ensures
        r == is_number(s@),
{
    let u = if s.len() > 0 && (s[0] == '+' || s[0] == '-') {
        slice_subrange(s, 1, s.len())
    } else {
        s
    };
    assert(u@ == unsigned(s@));
    let inf_lower = ['i', 'n', 'f'];
    let inf_upper = ['I', 'N', 'F'];
    let infinity_lower = ['i', 'n', 'f', 'i', 'n', 'i', 't', 'y'];
    let infinity_upper = ['I', 'N', 'F', 'I', 'N', 'I', 'T', 'Y'];
    let nan_lower = ['n', 'a', 'n'];
    let nan_upper = ['N', 'A', 'N'];
    assert(inf_lower@ == seq!['i', 'n', 'f']);
    assert(infinity_lower@ == seq!['i', 'n', 'f', 'i', 'n', 'i', 't', 'y']);
    assert(nan_lower@ == seq!['n', 'a', 'n']);
    check_word(u, &inf_lower, &inf_upper) || check_word(u, &infinity_lower, &infinity_upper)
        || check_word(u, &nan_lower, &nan_upper) || check_decimal(u)
}

} // verus!
