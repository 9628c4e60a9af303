//! Numbers as text.
use vstd::prelude::*;
use vstd::string::StringExecFns;

verus! {

/// The character of the decimal digit `d`.
pub open spec fn digit(d: int) -> char {
    if d == 0 {
        '0'
    } else if d == 1 {
        '1'
    } else if d == 2 {
        '2'
    } else if d == 3 {
        '3'
    } else if d == 4 {
        '4'
    } else if d == 5 {
        '5'
    } else if d == 6 {
        '6'
    } else if d == 7 {
        '7'
    } else if d == 8 {
        '8'
    } else {
        '9'
    }
}

/// The decimal digits of `n`, most significant first, without leading zeros.
pub open spec fn decimal(n: nat) -> Seq<char>
    decreases n,
{
    if n < 10 {
        seq![digit(n as int)]
    } else {
        decimal(n / 10).push(digit((n % 10) as int))
    }
}

/// `count` spaces.
pub open spec fn spaces(count: nat) -> Seq<char> {
    Seq::new(count, |i: int| ' ')
}

/// The decimal digits of `n`, with spaces before them to fill `width`
/// characters.
pub open spec fn padded(n: nat, width: nat) -> Seq<char> {
    if decimal(n).len() < width {
        spaces((width - decimal(n).len()) as nat) + decimal(n)
    } else {
        decimal(n)
    }
}

/// The characters of digits written least significant first.
pub open spec fn written(digits: Seq<u8>) -> Seq<char>
    decreases digits.len(),
{
    if digits.len() == 0 {
        Seq::empty()
    } else {
        seq![digit(digits.last() as int)] + written(digits.drop_last())
    }
}

/// The text of one decimal digit.
fn digit_text(d: u8) -> (r: &'static str)
    requires
        d < 10,
    ensures
        r@ == seq![digit(d as int)],
{
    proof {
        reveal_strlit("0");
        reveal_strlit("1");
        reveal_strlit("2");
        reveal_strlit("3");
        reveal_strlit("4");
        reveal_strlit("5");
        reveal_strlit("6");
        reveal_strlit("7");
        reveal_strlit("8");
        reveal_strlit("9");
    }
    let r = if d == 0 {
        "0"
    } else if d == 1 {
        "1"
    } else if d == 2 {
        "2"
    } else if d == 3 {
        "3"
    } else if d == 4 {
        "4"
    } else if d == 5 {
        "5"
    } else if d == 6 {
        "6"
    } else if d == 7 {
        "7"
    } else if d == 8 {
        "8"
    } else {
        "9"
    };
    assert(r@ =~= seq![digit(d as int)]);
    r
}

/// Appends `n` in decimal to `out`, with spaces before it to fill `width`
/// characters.
pub fn push_number(out: &mut String, n: u128, width: usize)
    ensures
        final(out)@ == old(out)@ + padded(n as nat, width as nat),
{
    let mut digits: Vec<u8> = Vec::new();
    digits.push((n % 10) as u8);
    let mut rest: u128 = n / 10;
    proof {
        assert(digits@.drop_last() =~= Seq::<u8>::empty());
        assert(written(digits@.drop_last()) =~= Seq::<char>::empty());
        assert(digits@.last() == n % 10);
        assert(written(digits@) =~= seq![digit((n % 10) as int)]);
        if rest > 0 {
            assert(decimal(n as nat) =~= decimal(rest as nat) + written(digits@));
        }
    }
    while rest > 0
        invariant
            digits.len() > 0,
            forall|k: int| 0 <= k < digits.len() ==> digits[k] < 10,
            rest > 0 ==> decimal(n as nat) == decimal(rest as nat) + written(digits@),
            rest == 0 ==> decimal(n as nat) == written(digits@),
            written(digits@).len() == digits.len(),
        decreases rest,
    {
        let ghost before = digits@;
        let d = (rest % 10) as u8;
        digits.push(d);
        proof {
            assert(digits@.drop_last() =~= before);
            assert(written(digits@) =~= seq![digit(d as int)] + written(before));
            if rest >= 10 {
                assert(decimal(n as nat) =~= decimal((rest / 10) as nat) + written(digits@));
            } else {
                assert(decimal(n as nat) =~= written(digits@));
            }
        }
        rest = rest / 10;
    }
    let count: usize = digits.len();
    let mut filled: usize = count;
    proof {
        assert(spaces(0) =~= Seq::<char>::empty());
    }
    while filled < width
        invariant
            count <= filled,
            filled <= width || filled == count,
            out@ == old(out)@ + spaces((filled - count) as nat),
        decreases width - filled,
    {
        proof {
            reveal_strlit(" ");
            assert(spaces((filled - count) as nat) + " "@ =~= spaces((filled + 1 - count) as nat));
        }
        out.append(" ");
        filled = filled + 1;
    }
    let ghost lead = out@;
    let mut i: usize = count;
    proof {
        assert(digits@.take(count as int) =~= digits@);
    }
    while i > 0
        invariant
            count == digits.len(),
            i <= count,
            forall|k: int| 0 <= k < digits.len() ==> digits[k] < 10,
            out@ + written(digits@.take(i as int)) == lead + written(digits@),
        decreases i,
    {
        let ghost part = digits@.take(i as int);
        i = i - 1;
        let text = digit_text(digits[i]);
        proof {
            assert(part.drop_last() =~= digits@.take(i as int));
            assert(part.last() == digits[i as int]);
            assert(out@ + text@ + written(digits@.take(i as int)) =~= out@ + written(part));
        }
        out.append(text);
    }
    proof {
        assert(digits@.take(0) =~= Seq::<u8>::empty());
        assert(out@ =~= lead + written(digits@));
    }
}

/// `n` in decimal.
pub fn decimal_string(n: u128) -> (r: String)
    ensures
        r@ == decimal(n as nat),
{
    let mut out = String::new();
    push_number(&mut out, n, 0);
    out
}

} // verus!
