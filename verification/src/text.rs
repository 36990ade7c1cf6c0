//! Text for diagnostic dumps: decimal numbers and indented lines.

use vstd::prelude::*;
use vstd::string::{StrSliceExecFns, StringExecFns};

verus! {

/// The character of a decimal digit.
pub open spec fn digit(d: int) -> char {
    if d == 0 {
        '0'
    } else if d == 1 {
        '1'
    } else if d == 2 {
        '2'
    } else if d == 3 {
        '3'
    } else if d == 4 {
        '4'
    } else if d == 5 {
        '5'
    } else if d == 6 {
        '6'
    } else if d == 7 {
        '7'
    } else if d == 8 {
        '8'
    } else {
        '9'
    }
}

/// The decimal numeral of `n`, without leading zeros.
pub open spec fn decimal(n: nat) -> Seq<char>
    decreases n,
{
    if n < 10 {
        seq![digit(n as int)]
    } else {
        decimal(n / 10).push(digit((n % 10) as int))
    }
}

/// Two spaces for each level.
pub open spec fn indent(level: int) -> Seq<char>
    decreases level,
{
    if level <= 0 {
        Seq::empty()
    } else {
        indent(level - 1) + seq![' ', ' ']
    }
}

/// One line of a dump: the indentation, a dash, the label and a line feed.
pub open spec fn line(level: int, label: Seq<char>) -> Seq<char> {
    indent(level) + seq!['-', ' '] + label + seq!['\n']
}

/// The characters of a row of digits.
pub open spec fn glyphs(digits: Seq<u64>) -> Seq<char> {
    Seq::new(digits.len(), |i: int| digit(digits[i] as int))
}

fn digit_text(d: u64) -> (text: &'static str)
    requires
        d < 10,
    ensures
        text@ == seq![digit(d as int)],
{
    proof {
        reveal_strlit("0");
        reveal_strlit("1");
        reveal_strlit("2");
        reveal_strlit("3");
        reveal_strlit("4");
        reveal_strlit("5");
        reveal_strlit("6");
        reveal_strlit("7");
        reveal_strlit("8");
        reveal_strlit("9");
    }
    let text = if d == 0 {
        "0"
    } else if d == 1 {
        "1"
    } else if d == 2 {
        "2"
    } else if d == 3 {
        "3"
    } else if d == 4 {
        "4"
    } else if d == 5 {
        "5"
    } else if d == 6 {
        "6"
    } else if d == 7 {
        "7"
    } else if d == 8 {
        "8"
    } else {
        "9"
    };
    assert(text@ =~= seq![digit(d as int)]);
    text
}

/// Writes `n` in decimal.
pub fn to_decimal(n: u64) -> (s: String)
    ensures
        s@ == decimal(n as nat),
{
    let mut digits: Vec<u64> = Vec::new();
    let mut rest = n / 10;
    digits.push(n % 10);
    assert(glyphs(digits@).reverse() =~= seq![digit((n % 10) as int)]);
    while rest > 0
        invariant
            digits@.len() > 0,
            forall|i: int| 0 <= i < digits@.len() ==> digits@[i] < 10,
            decimal(n as nat) == (if rest > 0 {
                decimal(rest as nat)
            } else {
                Seq::empty()
            }) + glyphs(digits@).reverse(),
        decreases rest,
    {
        let ghost before = digits@;
        digits.push(rest % 10);
        proof {
            assert(glyphs(digits@).reverse() =~= seq![digit((rest % 10) as int)] + glyphs(
                before,
            ).reverse());
            if rest >= 10 {
                assert(decimal(rest as nat) == decimal((rest / 10) as nat).push(
                    digit((rest % 10) as int),
                ));
            }
        }
        rest = rest / 10;
    }
    let mut s = String::new();
    let mut k = digits.len();
    while k > 0
        invariant
            k <= digits@.len(),
            forall|i: int| 0 <= i < digits@.len() ==> digits@[i] < 10,
            s@ == glyphs(digits@).reverse().subrange(0, digits@.len() - k),
        decreases k,
    {
        k -= 1;
        s.append(digit_text(digits[k]));
        assert(s@ =~= glyphs(digits@).reverse().subrange(0, digits@.len() - k));
    }
    assert(s@ =~= glyphs(digits@).reverse());
    s
}

/// Appends one line of a dump to `out`.
pub fn push_line(out: &mut String, level: usize, label: &str)
    ensures
        final(out)@ == old(out)@ + line(level as int, label@),
{
    let mut k: usize = 0;
    while k < level
        invariant
            k <= level,
            out@ == old(out)@ + indent(k as int),
        decreases level - k,
    {
        proof {
            reveal_strlit("  ");
        }
        out.append("  ");
        k += 1;
        assert(out@ =~= old(out)@ + indent(k as int)) by {
            assert("  "@ =~= seq![' ', ' ']);
        }
    }
    proof {
        reveal_strlit("- ");
        reveal_strlit("\n");
    }
    out.append("- ");
    out.append(label);
    out.append("\n");
    assert(out@ =~= old(out)@ + line(level as int, label@)) by {
        assert("- "@ =~= seq!['-', ' ']);
        assert("\n"@ =~= seq!['\n']);
    }
}

/// The code points of the characters of a string.
pub open spec fn codes(s: Seq<char>) -> Seq<u32> {
    Seq::new(s.len(), |i: int| s[i] as u32)
}

/// The code points of the characters of `s`, one by one.
pub fn codes_of(s: &str) -> (list: Vec<u32>)
    ensures
        list@ == codes(s@),
{
    let n = s.unicode_len();
    let mut list: Vec<u32> = Vec::new();
    let mut i: usize = 0;
    while i < n
        invariant
            n == s@.len(),
            i <= n,
            list@ == codes(s@).subrange(0, i as int),
        decreases n - i,
    {
        let c = s.get_char(i);
        list.push(c as u32);
        i += 1;
        assert(list@ =~= codes(s@).subrange(0, i as int));
    }
    assert(list@ =~= codes(s@));
    list
}

} // verus!
