//! The directory-name convention that carries a measurement's index:
//! a directory called `"12th fibonacci number"` holds the measurement for
//! index 12. The integer is whatever precedes the first `th`.
use vstd::prelude::*;

verus! {

/// The separator that ends the integer part of a directory name.
pub open spec fn is_separator_at(s: Seq<char>, i: int) -> bool {
    0 <= i && i + 1 < s.len() && s[i] == 't' && s[i + 1] == 'h'
}

/// Position of the first `th` in `s` at or after `from`.
pub open spec fn separator_from(s: Seq<char>, from: int) -> Option<int>
    decreases s.len() - from,
{
    if from < 0 || from + 1 >= s.len() {
        None
    } else if is_separator_at(s, from) {
        Some(from)
    } else {
        separator_from(s, from + 1)
    }
}

pub open spec fn is_digit(c: char) -> bool {
    '0' <= c && c <= '9'
}

pub open spec fn all_digits(s: Seq<char>) -> bool {
    forall|i: int| 0 <= i < s.len() ==> is_digit(#[trigger] s[i])
}

/// The number that a string of decimal digits denotes.
pub open spec fn digits_value(s: Seq<char>) -> nat
    decreases s.len(),
{
    if s.len() == 0 {
        0
    } else {
        digits_value(s.drop_last()) * 10 + (s.last() as nat - '0' as nat) as nat
    }
}

pub open spec fn fits_i32(v: int) -> bool {
    i32::MIN <= v <= i32::MAX
}

/// A signed decimal integer as Rust's `i32` parser reads it: an optional `+`
/// or `-`, then at least one digit, and a value that fits in an `i32`.
pub open spec fn parse_i32(s: Seq<char>) -> Option<int> {
    if s.len() > 0 && (s[0] == '+' || s[0] == '-') {
        let rest = s.drop_first();
        let v: int = if s[0] == '-' {
            -digits_value(rest)
        } else {
            digits_value(rest) as int
        };
        if rest.len() > 0 && all_digits(rest) && fits_i32(v) {
            Some(v)
        } else {
            None
        }
    } else if s.len() > 0 && all_digits(s) && fits_i32(digits_value(s) as int) {
        Some(digits_value(s) as int)
    } else {
        None
    }
}

/// The index that a directory name carries: the integer before its first
/// `th`. A name without `th`, or with a prefix that is not an `i32`, carries none.
pub open spec fn index_of_name(name: Seq<char>) -> Option<int> {
    match separator_from(name, 0) {
        None => None,
        Some(p) => parse_i32(name.subrange(0, p)),
    }
}

proof fn lemma_digits_value_grows(s: Seq<char>, c: char)
    requires
        is_digit(c),
    ensures
        digits_value(s.push(c)) == digits_value(s) * 10 + (c as nat - '0' as nat),
        digits_value(s.push(c)) >= digits_value(s),
{
    assert(s.push(c).drop_last() =~= s);
}

/// Finds the first `th` in `name`.
fn find_separator(name: &str) -> (r: Option<usize>)
    ensures
        match r {
            None => separator_from(name@, 0) is None,
            Some(p) => separator_from(name@, 0) == Some(p as int) && p + 1 < name@.len(),
        },
{
    let n = name.unicode_len();
    let mut i: usize = 0;
    while n > 0 && i < n - 1
        invariant
            n == name@.len(),
            i <= n,
            separator_from(name@, 0) == separator_from(name@, i as int),
        decreases n - i,
    {
        if name.get_char(i) == 't' && name.get_char(i + 1) == 'h' {
            return Some(i);
        }
        i = i + 1;
    }
    None
}

const LIMIT: i64 = 2147483648;

/// Reads the digits of `s` in `[from, to)`; the result is capped at one past
/// the magnitude of `i32::MIN`, which is all a caller needs to tell overflow.
fn capped_digits(s: &str, from: usize, to: usize) -> (r: Option<i64>)
    requires
        from <= to <= s@.len(),
    ensures
        match r {
            None => !all_digits(s@.subrange(from as int, to as int)),
            Some(v) => all_digits(s@.subrange(from as int, to as int)) && (if digits_value(
                s@.subrange(from as int, to as int),
            ) <= LIMIT {
                v == digits_value(s@.subrange(from as int, to as int))
            } else {
                v == LIMIT + 1
            }),
        },
{
    let mut acc: i64 = 0;
    let mut i: usize = from;
    while i < to
        invariant
            from <= i <= to <= s@.len(),
            all_digits(s@.subrange(from as int, i as int)),
            0 <= acc <= LIMIT + 1,
            if digits_value(s@.subrange(from as int, i as int)) <= LIMIT {
                acc == digits_value(s@.subrange(from as int, i as int))
            } else {
                acc == LIMIT + 1
            },
        decreases to - i,
    {
        let c = s.get_char(i);
        let ghost pre = s@.subrange(from as int, i as int);
        proof {
            assert(s@.subrange(from as int, i + 1) =~= pre.push(c));
        }
        if !('0' <= c && c <= '9') {
            proof {
                let t = s@.subrange(from as int, to as int);
                assert(t[i - from] == c);
            }
            return None;
        }
        proof {
            lemma_digits_value_grows(pre, c);
        }
        let d = (c as u32 - '0' as u32) as i64;
        if acc > LIMIT {
            acc = LIMIT + 1;
        } else {
            let next = acc * 10 + d;
            if next > LIMIT {
                acc = LIMIT + 1;
            } else {
                acc = next;
            }
        }
        i = i + 1;
    }
    Some(acc)
}

/// Parses the integer before the first `th` of a directory name.
pub fn parse_index(name: &str) -> (r: Option<i32>)
    ensures
        match r {
            None => index_of_name(name@) is None,
            Some(v) => index_of_name(name@) == Some(v as int),
        },
{
    let p = match find_separator(name) {
        None => return None,
        Some(p) => p,
    };
    let ghost s = name@.subrange(0, p as int);
    if p == 0 {
        return None;
    }
    let c = name.get_char(0);
    if c == '+' || c == '-' {
        assert(s.drop_first() =~= name@.subrange(1, p as int));
        if p == 1 {
            return None;
        }
        match capped_digits(name, 1, p) {
            None => None,
            Some(v) => {
                if c == '-' {
                    if v > LIMIT {
                        None
                    } else {
                        Some((-v) as i32)
                    }
                } else {
                    if v >= LIMIT {
                        None
                    } else {
                        Some(v as i32)
                    }
                }
            },
        }
    } else {
        assert(s =~= name@.subrange(0, p as int));
        match capped_digits(name, 0, p) {
            None => None,
            Some(v) => {
                if v >= LIMIT {
                    None
                } else {
                    Some(v as i32)
                }
            },
        }
    }
}

} // verus!
