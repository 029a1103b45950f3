//! Typed conversions of looked-up values.
//!
//! A lookup yields a [`Value`]; each conversion consumes it and returns
//! `Some` on success, `None` on absence or on text that does not parse.

use vstd::prelude::*;

verus! {

/// Outcome of reading one key from an environment table, prior to any
/// type conversion.
#[derive(Clone, Debug)]
pub enum LookupResult {
    /// The key is present with a valid text value.
    Found(String),
    /// The key is absent.
    NotFound,
    /// The key is present, but its value is not valid text.
    NotUnicode,
}

/// The wrapped result of an environment lookup.
#[derive(Clone, Debug)]
pub struct Value(pub LookupResult);

/// Decimal digit.
pub open spec fn is_digit(c: char) -> bool {
    '0' <= c && c <= '9'
}

/// Numeric value of a decimal digit.
pub open spec fn digit_val(c: char) -> nat {
    (c as u32 - 48) as nat
}

/// A non-empty run of decimal digits.
pub open spec fn all_digits(s: Seq<char>) -> bool {
    s.len() > 0 && forall|i: int| 0 <= i < s.len() ==> is_digit(s[i])
}

/// The number denoted by a run of decimal digits, most significant first.
pub open spec fn digits_val(s: Seq<char>) -> nat
    decreases s.len(),
{
    if s.len() == 0 {
        0
    } else {
        digits_val(s.drop_last()) * 10 + digit_val(s.last())
    }
}

/// Base-10 unsigned integer literal: an optional `+`, then digits.
pub open spec fn is_unsigned_text(s: Seq<char>) -> bool {
    if s.len() > 0 && s[0] == '+' {
        all_digits(s.drop_first())
    } else {
        all_digits(s)
    }
}

/// The number an unsigned integer literal denotes.
pub open spec fn unsigned_text_val(s: Seq<char>) -> nat {
    if s.len() > 0 && s[0] == '+' {
        digits_val(s.drop_first())
    } else {
        digits_val(s)
    }
}

/// Base-10 signed integer literal: an optional `+` or `-`, then digits.
pub open spec fn is_signed_text(s: Seq<char>) -> bool {
    if s.len() > 0 && (s[0] == '+' || s[0] == '-') {
        all_digits(s.drop_first())
    } else {
        all_digits(s)
    }
}

/// The integer a signed integer literal denotes.
pub open spec fn signed_text_val(s: Seq<char>) -> int {
    if s.len() > 0 && s[0] == '-' {
        -(digits_val(s.drop_first()) as int)
    } else {
        unsigned_text_val(s) as int
    }
}

/// What converting text to a signed machine integer yields: the denoted
/// integer when the text is a signed literal whose value fits, else nothing.
pub open spec fn signed_of_text(t: Seq<char>) -> Option<isize> {
    if is_signed_text(t) && isize::MIN <= signed_text_val(t) <= isize::MAX {
        Some(signed_text_val(t) as isize)
    } else {
        None
    }
}

/// What converting text to an unsigned machine integer yields.
pub open spec fn unsigned_of_text(t: Seq<char>) -> Option<usize> {
    if is_unsigned_text(t) && unsigned_text_val(t) <= usize::MAX {
        Some(unsigned_text_val(t) as usize)
    } else {
        None
    }
}

/// `a` equals `b` up to ASCII case; `b` is a lower-case letter.
pub open spec fn eq_ci(a: char, b: char) -> bool {
    a == b || ('a' <= b && b <= 'z' && a as u32 == b as u32 - 32)
}

/// The text spells `true`, case-insensitively.
pub open spec fn is_true_text(t: Seq<char>) -> bool {
    t.len() == 4 && eq_ci(t[0], 't') && eq_ci(t[1], 'r') && eq_ci(t[2], 'u') && eq_ci(t[3], 'e')
}

/// The text spells `false`, case-insensitively.
pub open spec fn is_false_text(t: Seq<char>) -> bool {
    t.len() == 5 && eq_ci(t[0], 'f') && eq_ci(t[1], 'a') && eq_ci(t[2], 'l') && eq_ci(t[3], 's')
        && eq_ci(t[4], 'e')
}

/// What converting text to a boolean yields: only the two literal words
/// `true` and `false` are accepted, case-insensitively.
pub open spec fn bool_of_text(t: Seq<char>) -> Option<bool> {
    if is_true_text(t) {
        Some(true)
    } else if is_false_text(t) {
        Some(false)
    } else {
        None
    }
}

proof fn lemma_digits_val_step(s: Seq<char>, k: int)
    requires
        0 <= k < s.len(),
    ensures
        digits_val(s.take(k + 1)) == digits_val(s.take(k)) * 10 + digit_val(s[k]),
{
    assert(s.take(k + 1).drop_last() =~= s.take(k));
    assert(s.take(k + 1).last() == s[k]);
}

/// Appending further digits never decreases the denoted number.
proof fn lemma_digits_val_mono(s: Seq<char>, k: int)
    requires
        0 <= k <= s.len(),
    ensures
        digits_val(s.take(k)) <= digits_val(s),
    decreases s.len() - k,
{
    if k == s.len() {
        assert(s.take(k) =~= s);
    } else {
        lemma_digits_val_step(s, k);
        lemma_digits_val_mono(s, k + 1);
    }
}

/// Parses the digits of `s` from position `from` to its end. `None` when a
/// non-digit stands there, the run is empty, or the number does not fit.
fn parse_digits(s: &str, from: usize) -> (r: Option<usize>)
    requires
        from <= s@.len(),
    ensures
        match r {
            Some(m) => all_digits(s@.skip(from as int)) && m as nat == digits_val(
                s@.skip(from as int),
            ),
            None => !all_digits(s@.skip(from as int)) || digits_val(s@.skip(from as int))
                > usize::MAX,
        },
{
    let ghost t = s@.skip(from as int);
    let n = s.unicode_len();
    if from == n {
        return None;
    }
    let mut acc: usize = 0;
    let mut i = from;
    while i < n
        invariant
            from <= i <= n,
            n == s@.len(),
            t == s@.skip(from as int),
            forall|j: int| 0 <= j < i - from ==> is_digit(t[j]),
            acc as nat == digits_val(t.take(i as int - from as int)),
        decreases n - i,
    {
        let c = s.get_char(i);
        proof {
            assert(t[i - from] == s@[i as int]);
        }
        if !(c >= '0' && c <= '9') {
            return None;
        }
        let d = (c as u32 - 48) as usize;
        proof {
            lemma_digits_val_step(t, i as int - from as int);
        }
        let next = match acc.checked_mul(10) {
            Some(a) => a.checked_add(d),
            None => None,
        };
        match next {
            Some(a) => {
                acc = a;
            },
            None => {
                proof {
                    if all_digits(t) {
                        lemma_digits_val_mono(t, i as int - from as int + 1);
                    }
                }
                return None;
            },
        }
        i = i + 1;
    }
    proof {
        assert(t.take(n as int - from as int) =~= t);
    }
    Some(acc)
}

impl Value {
    /// The text the lookup found, if any.
    pub open spec fn text(&self) -> Option<Seq<char>> {
        match self.0 {
            LookupResult::Found(s) => Some(s@),
            LookupResult::NotFound => None,
            LookupResult::NotUnicode => None,
        }
    }

    /// The found text, verbatim; nothing when the lookup found none.
    pub fn to_string(self) -> (r: Option<String>)
        ensures
            match r {
                Some(s) => self.text() == Some(s@),
                None => self.text() is None,
            },
    {
        match self.0 {
            LookupResult::Found(s) => Some(s),
            LookupResult::NotFound => None,
            LookupResult::NotUnicode => None,
        }
    }

    /// The found text read as a base-10 signed integer; nothing when the
    /// lookup found none, the text is not a signed integer literal, or the
    /// value does not fit.
    pub fn to_isize(self) -> (r: Option<isize>)
        ensures
            r == match self.text() {
                Some(t) => signed_of_text(t),
                None => None::<isize>,
            },
    {
        let s = match self.0 {
            LookupResult::Found(s) => s,
            LookupResult::NotFound => {
                return None;
            },
            LookupResult::NotUnicode => {
                return None;
            },
        };
        let st = s.as_str();
        let n = st.unicode_len();
        if n == 0 {
            return None;
        }
        let c0 = st.get_char(0);
        if c0 == '-' {
            match parse_digits(st, 1) {
                Some(m) => {
                    if m <= isize::MAX as usize {
                        Some(-(m as isize))
                    } else if m == isize::MAX as usize + 1 {
                        Some(isize::MIN)
                    } else {
                        None
                    }
                },
                None => None,
            }
        } else if c0 == '+' {
            match parse_digits(st, 1) {
                Some(m) => {
                    if m <= isize::MAX as usize {
                        Some(m as isize)
                    } else {
                        None
                    }
                },
                None => None,
            }
        } else {
            match parse_digits(st, 0) {
                Some(m) => {
                    proof {
                        assert(s@.skip(0) =~= s@);
                    }
                    if m <= isize::MAX as usize {
                        Some(m as isize)
                    } else {
                        None
                    }
                },
                None => {
                    proof {
                        assert(s@.skip(0) =~= s@);
                    }
                    None
                },
            }
        }
    }

    /// The found text read as a base-10 unsigned integer; nothing when the
    /// lookup found none, the text is not an unsigned integer literal
    /// (a minus sign is rejected), or the value does not fit.
    pub fn to_usize(self) -> (r: Option<usize>)
        ensures
            r == match self.text() {
                Some(t) => unsigned_of_text(t),
                None => None::<usize>,
            },
    {
        let s = match self.0 {
            LookupResult::Found(s) => s,
            LookupResult::NotFound => {
                return None;
            },
            LookupResult::NotUnicode => {
                return None;
            },
        };
        let st = s.as_str();
        let n = st.unicode_len();
        if n == 0 {
            return None;
        }
        let c0 = st.get_char(0);
        if c0 == '+' {
            parse_digits(st, 1)
        } else {
            let r = parse_digits(st, 0);
            proof {
                assert(s@.skip(0) =~= s@);
            }
            r
        }
    }

    /// The found text read as a boolean: exactly the words `true` and
    /// `false`, case-insensitively; anything else yields nothing.
    pub fn to_bool(self) -> (r: Option<bool>)
        ensures
            r == match self.text() {
                Some(t) => bool_of_text(t),
                None => None::<bool>,
            },
    {
        let s = match self.0 {
            LookupResult::Found(s) => s,
            LookupResult::NotFound => {
                return None;
            },
            LookupResult::NotUnicode => {
                return None;
            },
        };
        let st = s.as_str();
        let n = st.unicode_len();
        if n == 4 {
            let c0 = st.get_char(0);
            let c1 = st.get_char(1);
            let c2 = st.get_char(2);
            let c3 = st.get_char(3);
            if (c0 == 't' || c0 == 'T') && (c1 == 'r' || c1 == 'R') && (c2 == 'u' || c2 == 'U')
                && (c3 == 'e' || c3 == 'E') {
                Some(true)
            } else {
                None
            }
        } else if n == 5 {
            let c0 = st.get_char(0);
            let c1 = st.get_char(1);
            let c2 = st.get_char(2);
            let c3 = st.get_char(3);
            let c4 = st.get_char(4);
            if (c0 == 'f' || c0 == 'F') && (c1 == 'a' || c1 == 'A') && (c2 == 'l' || c2 == 'L')
                && (c3 == 's' || c3 == 'S') && (c4 == 'e' || c4 == 'E') {
                Some(false)
            } else {
                None
            }
        } else {
            None
        }
    }
}

} // verus!
