//! Parsing the numeric value handed after a command-line flag. The value of
//! a well-formed decimal argument is returned; anything else falls back to
//! the caller's default, as the surrounding argument loop expects.

use vstd::prelude::*;

verus! {

/// Whether `c` is an ASCII decimal digit.
pub open spec fn is_digit(c: char) -> bool {
    48 <= c as u32 <= 57
}

/// The number the digit characters of `s` spell in base ten.
pub open spec fn digits_value(s: Seq<char>) -> int
    decreases s.len(),
{
    if s.len() == 0 {
        0
    } else {
        digits_value(s.drop_last()) * 10 + (s.last() as u32 - 48)
    }
}

/// The digit part of a numeric argument: what follows an optional leading
/// plus sign.
pub open spec fn digits_of(s: Seq<char>) -> Seq<char> {
    if s.len() > 0 && s[0] == '+' {
        s.drop_first()
    } else {
        s
    }
}

/// A well-formed `usize` argument: an optional plus sign, then one or more
/// digits, spelling a value that fits the machine word.
pub open spec fn valid_usize_str(s: Seq<char>) -> bool {
    &&& digits_of(s).len() > 0
    &&& (forall|i: int| 0 <= i < digits_of(s).len() ==> is_digit(#[trigger] digits_of(s)[i]))
    &&& digits_value(digits_of(s)) <= usize::MAX
}

/// The spelled value never goes down as digits are appended.
proof fn lemma_digits_value_nonneg(s: Seq<char>)
    requires
        forall|i: int| 0 <= i < s.len() ==> is_digit(#[trigger] s[i]),
    ensures
        digits_value(s) >= 0,
    decreases s.len(),
{
    if s.len() > 0 {
        lemma_digits_value_nonneg(s.drop_last());
    }
}

/// A prefix of the digits spells at most the whole value.
proof fn lemma_digits_value_take_le(s: Seq<char>, i: int)
    requires
        0 <= i <= s.len(),
        forall|j: int| 0 <= j < s.len() ==> is_digit(#[trigger] s[j]),
    ensures
        digits_value(s.take(i)) <= digits_value(s),
    decreases s.len() - i,
{
    if i < s.len() {
        assert(s.take(i + 1).drop_last() =~= s.take(i));
        assert(s.take(i + 1).last() == s[i]);
        assert forall|j: int| 0 <= j < s.take(i).len() implies is_digit(#[trigger] s.take(i)[j]) by {
            assert(s.take(i)[j] == s[j]);
        }
        lemma_digits_value_nonneg(s.take(i));
        lemma_digits_value_take_le(s, i + 1);
    } else {
        assert(s.take(i) =~= s);
    }
}

/// The value of the argument handed after a flag, or the default.
///
/// A well-formed decimal argument (optionally signed with a plus, fitting a
/// machine word) yields its value; a missing argument, stray characters or
/// an overflowing number yield `default_value`, as the caller's argument
/// loop falls back to its built-in setting.
pub fn parse_usize_flag(arg: Option<&str>, default_value: usize) -> (r: usize)
    ensures
        arg is None ==> r == default_value,
        arg matches Some(s) ==> if valid_usize_str(s@) {
            r == digits_value(digits_of(s@))
        } else {
            r == default_value
        },
{
    let s: &str = match arg {
        Some(s) => s,
        None => { return default_value },
    };
    let n = s.unicode_len();
    if n == 0 {
        return default_value;
    }
    let first = s.get_char(0);
    let start: usize = if first == '+' {
        1
    } else {
        0
    };
    if start == n {
        return default_value;
    }
    let ghost digits = digits_of(s@);
    proof {
        if first == '+' {
            assert(digits =~= s@.skip(1));
        } else {
            assert(digits =~= s@);
        }
    }
    let mut acc: usize = 0;
    let mut i: usize = start;
    while i < n
        invariant
            arg == Some(s),
            start <= i <= n,
            start == if s@[0] == '+' { 1int } else { 0int },
            n == s@.len(),
            start < n,
            digits == digits_of(s@),
            digits.len() == n - start,
            forall|j: int| start <= j < i ==> is_digit(#[trigger] s@[j]),
            forall|j: int| 0 <= j < digits.len() ==> digits[j] == s@[j + start],
            acc == digits_value(digits.take(i - start)),
        decreases n - i,
    {
        let c = s.get_char(i);
        let code = c as u32;
        if code < 48 || code > 57 {
            proof {
                assert(!is_digit(digits[i - start]));
            }
            return default_value;
        }
        let d = (code - 48) as usize;
        proof {
            assert(digits.take(i - start + 1).drop_last() =~= digits.take(i - start));
            assert(digits.take(i - start + 1).last() == digits[i - start]);
            assert(digits[i - start] == s@[i as int]);
        }
        let step = match acc.checked_mul(10) {
            Some(m) => m.checked_add(d),
            None => None,
        };
        match step {
            Some(v) => {
                acc = v;
            },
            None => {
                proof {
                    if valid_usize_str(s@) {
                        lemma_digits_value_take_le(digits, i - start + 1);
                        lemma_digits_value_nonneg(digits.take(i - start));
                    }
                }
                return default_value;
            },
        }
        i = i + 1;
    }
    proof {
        assert(digits.take(n - start) =~= digits);
    }
    acc
}

} // verus!
