//! Parsing a line of user input into a cell value.
//!
//! An input line is trimmed of surrounding whitespace and read as a base-10
//! signed 32-bit integer: an optional `+` or `-` sign followed by at least
//! one ASCII digit, with the value required to fit in an `i32`.  Anything
//! else is a parse failure; the interpreter then stores 0 and reports a
//! diagnostic instead of aborting.

use vstd::prelude::*;

verus! {

/// The whitespace trimmed from an input line: the ASCII range of the
/// whitespace characters.
pub open spec fn is_space(c: char) -> bool {
    c == ' ' || c == '\t' || c == '\n' || c == '\r' || c == '\u{b}' || c == '\u{c}'
}

/// An ASCII decimal digit.
pub open spec fn is_digit(c: char) -> bool {
    '0' <= c && c <= '9'
}

/// The numeric value of a digit character.
pub open spec fn digit_val(c: char) -> int
    recommends
        is_digit(c),
{
    c as u32 - '0' as u32
}

/// Every character of `s` is a decimal digit.
pub open spec fn all_digits(s: Seq<char>) -> bool {
    forall|i: int| 0 <= i < s.len() ==> is_digit(#[trigger] s[i])
}

/// The value of a digit string read in base 10.
pub open spec fn digits_val(s: Seq<char>) -> int
    recommends
        all_digits(s),
    decreases s.len(),
{
    if s.len() == 0 {
        0
    } else {
        digits_val(s.drop_last()) * 10 + digit_val(s.last())
    }
}

/// `s` with leading whitespace removed.
pub open spec fn trim_start_spec(s: Seq<char>) -> Seq<char>
    decreases s.len(),
{
    if s.len() > 0 && is_space(s[0]) {
        trim_start_spec(s.drop_first())
    } else {
        s
    }
}

/// `s` with trailing whitespace removed.
pub open spec fn trim_end_spec(s: Seq<char>) -> Seq<char>
    decreases s.len(),
{
    if s.len() > 0 && is_space(s.last()) {
        trim_end_spec(s.drop_last())
    } else {
        s
    }
}

/// `s` with surrounding whitespace removed.
pub open spec fn trim_spec(s: Seq<char>) -> Seq<char> {
    trim_end_spec(trim_start_spec(s))
}

/// The base-10 signed integer denoted by `s`, if any: an optional sign,
/// then at least one digit, nothing else, and a value that fits in `i32`.
pub open spec fn parse_int_spec(s: Seq<char>) -> Option<int> {
    if s.len() == 0 {
        None
    } else {
        let neg = s[0] == '-';
        let digits = if s[0] == '-' || s[0] == '+' {
            s.drop_first()
        } else {
            s
        };
        if digits.len() == 0 || !all_digits(digits) {
            None
        } else {
            let v = if neg {
                -digits_val(digits)
            } else {
                digits_val(digits)
            };
            if i32::MIN <= v <= i32::MAX {
                Some(v)
            } else {
                None
            }
        }
    }
}

/// What an input line stores into a cell: its text trimmed, then parsed.
pub open spec fn parse_line_spec(s: Seq<char>) -> Option<int> {
    parse_int_spec(trim_spec(s))
}

/// A digit string has a non-negative value.
proof fn lemma_digits_val_nonneg(s: Seq<char>)
    requires
        all_digits(s),
    ensures
        digits_val(s) >= 0,
    decreases s.len(),
{
    if s.len() > 0 {
        assert(all_digits(s.drop_last()));
        lemma_digits_val_nonneg(s.drop_last());
    }
}

/// Reading more digits never decreases the value: a prefix of a digit
/// string is bounded by the whole.
proof fn lemma_digits_val_prefix(s: Seq<char>, k: int)
    requires
        all_digits(s),
        0 <= k <= s.len(),
    ensures
        digits_val(s.subrange(0, k)) <= digits_val(s),
    decreases s.len() - k,
{
    if k == s.len() {
        assert(s.subrange(0, k) =~= s);
    } else {
        let a = s.subrange(0, k);
        let b = s.subrange(0, k + 1);
        assert(b.drop_last() =~= a);
        assert(all_digits(a));
        lemma_digits_val_nonneg(a);
        assert(is_digit(s[k]));
        assert(digits_val(b) == digits_val(a) * 10 + digit_val(s[k]));
        lemma_digits_val_prefix(s, k + 1);
    }
}

fn is_space_char(c: char) -> (b: bool)
    ensures
        b == is_space(c),
{
    c == ' ' || c == '\t' || c == '\n' || c == '\r' || c == '\u{b}' || c == '\u{c}'
}

fn is_digit_char(c: char) -> (b: bool)
    ensures
        b == is_digit(c),
{
    '0' <= c && c <= '9'
}

/// Trim `line` and parse it as a base-10 `i32`: `Some` exactly when the
/// trimmed text is a well-formed in-range integer, and then the parsed
/// value; `None` on any other line.
pub fn parse_input_line(line: &str) -> (r: Option<i32>)
    ensures
        r is Some <==> parse_line_spec(line@) is Some,
        r matches Some(v) ==> parse_line_spec(line@) == Some(v as int),
{
    let ghost s = line@;
    let n: usize = line.unicode_len();
    proof {
        assert(s.subrange(0, n as int) =~= s);
    }
    let mut lo: usize = 0;
    loop
        invariant
            lo <= n,
            n == s.len(),
            s == line@,
            trim_start_spec(s) == trim_start_spec(s.subrange(lo as int, n as int)),
        ensures
            lo <= n,
            trim_start_spec(s) == trim_start_spec(s.subrange(lo as int, n as int)),
            lo < n ==> !is_space(s[lo as int]),
        decreases n - lo,
    {
        if lo >= n {
            break ;
        }
        let c = line.get_char(lo);
        if !is_space_char(c) {
            break ;
        }
        proof {
            assert(s.subrange(lo as int, n as int).drop_first() =~= s.subrange(
                lo + 1,
                n as int,
            ));
        }
        lo = lo + 1;
    }
    proof {
        if lo < n {
            assert(trim_start_spec(s) == s.subrange(lo as int, n as int));
        }
    }
    let mut hi: usize = n;
    loop
        invariant
            lo <= hi <= n,
            n == s.len(),
            s == line@,
            lo < n ==> !is_space(s[lo as int]),
            trim_spec(s) == trim_end_spec(s.subrange(lo as int, hi as int)),
        ensures
            lo <= hi <= n,
            trim_spec(s) == trim_end_spec(s.subrange(lo as int, hi as int)),
            lo < hi ==> !is_space(s[hi - 1]),
        decreases hi - lo,
    {
        if hi <= lo {
            break ;
        }
        let c = line.get_char(hi - 1);
        if !is_space_char(c) {
            break ;
        }
        proof {
            assert(s.subrange(lo as int, hi as int).drop_last() =~= s.subrange(
                lo as int,
                hi - 1,
            ));
        }
        hi = hi - 1;
    }
    let ghost t = s.subrange(lo as int, hi as int);
    proof {
        if hi > lo {
            assert(t.last() == s[hi - 1]);
        }
        assert(trim_spec(s) == t);
    }
    if lo == hi {
        proof {
            assert(t.len() == 0);
        }
        return None;
    }
    let first = line.get_char(lo);
    let neg = first == '-';
    let mut idx = lo;
    if first == '-' || first == '+' {
        idx = idx + 1;
    }
    let ghost digits = s.subrange(idx as int, hi as int);
    let ghost signed = (t[0] == '-' || t[0] == '+');
    proof {
        assert(t[0] == s[lo as int]);
        if signed {
            assert(t.drop_first() =~= digits);
        } else {
            assert(t =~= digits);
        }
    }
    if idx == hi {
        // a bare sign has no digits
        proof {
            assert(digits.len() == 0);
        }
        return None;
    }
    let mut acc: i64 = 0;
    let mut j = idx;
    while j < hi
        invariant
            lo <= idx <= j <= hi <= n,
            n == s.len(),
            s == line@,
            idx < hi,
            lo < hi,
            t == s.subrange(lo as int, hi as int),
            trim_spec(s) == t,
            digits == s.subrange(idx as int, hi as int),
            signed == (t[0] == '-' || t[0] == '+'),
            neg == (t[0] == '-'),
            signed ==> idx == lo + 1 && digits == t.drop_first(),
            !signed ==> idx == lo && digits == t,
            all_digits(s.subrange(idx as int, j as int)),
            acc == digits_val(s.subrange(idx as int, j as int)),
            0 <= acc <= 0x8000_0000,
        decreases hi - j,
    {
        let c = line.get_char(j);
        if !is_digit_char(c) {
            proof {
                assert(digits[j - idx] == s[j as int]);
                assert(!all_digits(digits));
            }
            return None;
        }
        let d: i64 = (c as u32 - '0' as u32) as i64;
        acc = acc * 10 + d;
        proof {
            let a = s.subrange(idx as int, j as int);
            let b = s.subrange(idx as int, j + 1);
            assert(b.drop_last() =~= a);
            assert(b.last() == s[j as int]);
        }
        j = j + 1;
        if acc > 0x8000_0000 {
            proof {
                if all_digits(digits) {
                    let pre = s.subrange(idx as int, j as int);
                    assert(pre =~= digits.subrange(0, j - idx));
                    assert(digits.subrange(0, digits.len() as int) =~= digits);
                    lemma_digits_val_prefix(digits, j - idx);
                    assert(digits_val(digits) >= acc);
                }
            }
            // too many digits: the value cannot fit in an i32
            return None;
        }
    }
    proof {
        assert(s.subrange(idx as int, j as int) =~= digits);
        assert(all_digits(digits));
        assert(acc == digits_val(digits));
        lemma_digits_val_nonneg(digits);
    }
    if neg {
        proof {
            assert(i32::MIN <= -acc <= i32::MAX);
        }
        Some((-acc) as i32)
    } else {
        if acc > 0x7FFF_FFFF {
            return None;
        }
        Some(acc as i32)
    }
}

} // verus!
