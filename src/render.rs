//! The text that a plotting tool reads: `[(i1, t1), (i2, t2), ...]`.
use vstd::prelude::*;

verus! {

pub open spec fn digit_char(d: nat) -> char {
    seq!['0', '1', '2', '3', '4', '5', '6', '7', '8', '9'][(d % 10) as int]
}

/// The decimal digits of `n`, most significant first, without leading zeros.
pub open spec fn digits_text(n: nat) -> Seq<char>
    decreases n,
{
    if n < 10 {
        seq![digit_char(n)]
    } else {
        digits_text(n / 10).push(digit_char(n % 10))
    }
}

/// `v` in decimal, with a leading `-` where it is negative.
pub open spec fn decimal_text(v: int) -> Seq<char> {
    if v < 0 {
        seq!['-'] + digits_text((-v) as nat)
    } else {
        digits_text(v as nat)
    }
}

/// One pair: `(index, time)`.
pub open spec fn pair_text(index: i32, time: Seq<char>) -> Seq<char> {
    seq!['('] + decimal_text(index as int) + seq![',', ' '] + time + seq![')']
}

/// The pairs of `s`, joined by `", "`.
pub open spec fn pairs_text(s: Seq<(i32, String)>) -> Seq<char>
    decreases s.len(),
{
    if s.len() == 0 {
        Seq::empty()
    } else if s.len() == 1 {
        pair_text(s[0].0, s[0].1@)
    } else {
        pairs_text(s.drop_last()) + seq![',', ' '] + pair_text(s.last().0, s.last().1@)
    }
}

/// The whole list, in brackets.
pub open spec fn list_text(s: Seq<(i32, String)>) -> Seq<char> {
    seq!['['] + pairs_text(s) + seq![']']
}

fn digit_str(d: u32) -> (r: &'static str)
    requires
        d < 10,
    ensures
        r@ == seq![digit_char(d as nat)],
{
    proof {
        reveal_strlit("0");
        reveal_strlit("1");
        reveal_strlit("2");
        reveal_strlit("3");
        reveal_strlit("4");
        reveal_strlit("5");
        reveal_strlit("6");
        reveal_strlit("7");
        reveal_strlit("8");
        reveal_strlit("9");
    }
    let r = match d {
        0 => "0",
        1 => "1",
        2 => "2",
        3 => "3",
        4 => "4",
        5 => "5",
        6 => "6",
        7 => "7",
        8 => "8",
        _ => "9",
    };
    assert(r@ =~= seq![digit_char(d as nat)]);
    r
}

fn push_digits(out: &mut String, n: u32)
    ensures
        final(out)@ == old(out)@ + digits_text(n as nat),
    decreases n,
{
    if n >= 10 {
        push_digits(out, n / 10);
    }
    out.append(digit_str(n % 10));
    proof {
        if n >= 10 {
            assert(old(out)@ + digits_text(n as nat) =~= old(out)@ + digits_text((n / 10) as nat)
                + seq![digit_char((n % 10) as nat)]);
        } else {
            assert(digit_char((n % 10) as nat) == digit_char(n as nat));
        }
    }
}

/// Appends `v` in decimal to `out`.
pub fn push_decimal(out: &mut String, v: i32)
    ensures
        final(out)@ == old(out)@ + decimal_text(v as int),
{
    if v < 0 {
        proof {
            reveal_strlit("-");
        }
        out.append("-");
        let m = (-(v as i64)) as u32;
        push_digits(out, m);
        assert(final(out)@ =~= old(out)@ + decimal_text(v as int));
    } else {
        push_digits(out, v as u32);
    }
}

/// Renders `(index, time)` pairs as `[(i1, t1), (i2, t2), ...]`, each time
/// given as the text that stands for it.
pub fn render(pairs: &Vec<(i32, String)>) -> (r: String)
    ensures
        r@ == list_text(pairs@),
{
    proof {
        reveal_strlit("[");
        reveal_strlit("]");
        reveal_strlit("(");
        reveal_strlit(")");
        reveal_strlit(", ");
    }
    let mut out = String::new();
    out.append("[");
    let mut i: usize = 0;
    assert(out@ =~= seq!['['] + pairs_text(pairs@.subrange(0, 0)));
    while i < pairs.len()
        invariant
            i <= pairs@.len(),
            out@ == seq!['['] + pairs_text(pairs@.subrange(0, i as int)),
        decreases pairs.len() - i,
    {
        proof {
            reveal_strlit("(");
            reveal_strlit(")");
            reveal_strlit(", ");
        }
        let ghost before = out@;
        let ghost s = pairs@.subrange(0, i + 1);
        assert(s.drop_last() =~= pairs@.subrange(0, i as int));
        if i > 0 {
            out.append(", ");
        }
        out.append("(");
        push_decimal(&mut out, pairs[i].0);
        out.append(", ");
        out.append(pairs[i].1.as_str());
        out.append(")");
        proof {
            let p = pair_text(pairs@[i as int].0, pairs@[i as int].1@);
            if i > 0 {
                assert(out@ =~= before + seq![',', ' '] + p);
            } else {
                assert(s =~= seq![pairs@[0]]);
                assert(out@ =~= before + p);
            }
        }
        i = i + 1;
    }
    out.append("]");
    assert(pairs@.subrange(0, i as int) =~= pairs@);
    assert(out@ =~= list_text(pairs@));
    out
}

} // verus!
