//! Numbers and lists of identifiers as text.

use vstd::prelude::*;
use vstd::string::StringExecFns;

verus! {

/// The character of a decimal digit.
pub open spec fn digit(d: nat) -> char
    recommends
        d < 10,
{
    if d == 0 {
        '0'
    } else if d == 1 {
        '1'
    } else if d == 2 {
        '2'
    } else if d == 3 {
        '3'
    } else if d == 4 {
        '4'
    } else if d == 5 {
        '5'
    } else if d == 6 {
        '6'
    } else if d == 7 {
        '7'
    } else if d == 8 {
        '8'
    } else {
        '9'
    }
}

/// `n` in decimal digits, without leading zeros.
pub open spec fn decimal(n: nat) -> Seq<char>
    decreases n,
{
    if n < 10 {
        seq![digit(n)]
    } else {
        decimal(n / 10).push(digit(n % 10))
    }
}

/// `x` in decimal digits, with a minus sign where it is negative.
pub open spec fn signed_decimal(x: int) -> Seq<char> {
    if x < 0 {
        seq!['-'] + decimal((-x) as nat)
    } else {
        decimal(x as nat)
    }
}

/// `ids` between square brackets, separated by a comma and a space.
pub open spec fn list_text(ids: Seq<u64>) -> Seq<char> {
    seq!['['] + joined(ids) + seq![']']
}

/// `ids` in decimal, separated by a comma and a space.
pub open spec fn joined(ids: Seq<u64>) -> Seq<char>
    decreases ids.len(),
{
    if ids.len() == 0 {
        Seq::empty()
    } else if ids.len() == 1 {
        decimal(ids[0] as nat)
    } else {
        joined(ids.drop_last()) + seq![',', ' '] + decimal(ids.last() as nat)
    }
}

/// The text of one decimal digit.
fn digit_text(d: u64) -> (s: &'static str)
    requires
        d < 10,
    ensures
        s@ == seq![digit(d as nat)],
{
    proof {
        reveal_strlit("0");
        reveal_strlit("1");
        reveal_strlit("2");
        reveal_strlit("3");
        reveal_strlit("4");
        reveal_strlit("5");
        reveal_strlit("6");
        reveal_strlit("7");
        reveal_strlit("8");
        reveal_strlit("9");
    }
    let s = if d == 0 {
        "0"
    } else if d == 1 {
        "1"
    } else if d == 2 {
        "2"
    } else if d == 3 {
        "3"
    } else if d == 4 {
        "4"
    } else if d == 5 {
        "5"
    } else if d == 6 {
        "6"
    } else if d == 7 {
        "7"
    } else if d == 8 {
        "8"
    } else {
        "9"
    };
    assert(s@ =~= seq![digit(d as nat)]);
    s
}

/// Appends `x` in decimal to `out`.
pub fn push_decimal(out: &mut String, x: u64)
    ensures
        final(out)@ == old(out)@ + decimal(x as nat),
    decreases x,
{
    if x < 10 {
        out.append(digit_text(x));
    } else {
        push_decimal(out, x / 10);
        out.append(digit_text(x % 10));
        assert(out@ =~= old(out)@ + decimal(x as nat));
    }
}

/// Appends `x` in decimal to `out`, with a minus sign where it is negative.
pub fn push_signed_decimal(out: &mut String, x: i64)
    ensures
        final(out)@ == old(out)@ + signed_decimal(x as int),
{
    if x < 0 {
        proof {
            reveal_strlit("-");
        }
        out.append("-");
        let magnitude: u64 = ((-(x + 1)) as u64) + 1;
        push_decimal(out, magnitude);
        assert(out@ =~= old(out)@ + signed_decimal(x as int));
    } else {
        push_decimal(out, x as u64);
    }
}

/// Appends `ids` to `out`, between square brackets and separated by a
/// comma and a space.
pub fn push_list(out: &mut String, ids: &Vec<u64>)
    ensures
        final(out)@ == old(out)@ + list_text(ids@),
{
    proof {
        reveal_strlit("[");
        reveal_strlit("]");
        reveal_strlit(", ");
    }
    out.append("[");
    let ghost head = out@;
    let mut i: usize = 0;
    assert(ids@.subrange(0, 0) =~= Seq::<u64>::empty());
    assert(out@ =~= head + joined(ids@.subrange(0, 0)));
    while i < ids.len()
        invariant
            i <= ids.len(),
            out@ == head + joined(ids@.subrange(0, i as int)),
            ", "@ == seq![',', ' '],
        decreases ids.len() - i,
    {
        let ghost before = ids@.subrange(0, i as int);
        if i > 0 {
            out.append(", ");
        }
        push_decimal(out, ids[i]);
        i += 1;
        proof {
            let now = ids@.subrange(0, i as int);
            assert(now.drop_last() =~= before);
            assert(now.last() == ids@[i - 1]);
            if i == 1 {
                assert(before =~= Seq::<u64>::empty());
                assert(out@ =~= head + joined(now));
            } else {
                assert(out@ =~= head + joined(now));
            }
        }
    }
    out.append("]");
    proof {
        assert(ids@.subrange(0, i as int) =~= ids@);
        assert(out@ =~= old(out)@ + list_text(ids@));
    }
}

} // verus!
