//! The text form of a table: a constant declaration for a circuit source file.

use vstd::prelude::*;
use crate::field::{FieldElement, hex8};

verus! {

/// The decimal digits of `n`, most significant first, with no leading zero
/// (but `"0"` for zero).
pub open spec fn decimal_digits(n: nat) -> Seq<char>
    decreases n,
{
    let c = seq!['0', '1', '2', '3', '4', '5', '6', '7', '8', '9'][(n % 10) as int];
    if n < 10 {
        seq![c]
    } else {
        decimal_digits(n / 10).push(c)
    }
}

/// The one-character string of decimal digit `d`.
fn digit_str(d: usize) -> (r: &'static str)
    requires
        d < 10,
    ensures
        r@ == seq![seq!['0', '1', '2', '3', '4', '5', '6', '7', '8', '9'][d as int]],
{
    proof {
        reveal_strlit("0");
        reveal_strlit("1");
        reveal_strlit("2");
        reveal_strlit("3");
        reveal_strlit("4");
        reveal_strlit("5");
        reveal_strlit("6");
        reveal_strlit("7");
        reveal_strlit("8");
        reveal_strlit("9");
    }
    match d {
        0 => "0",
        1 => "1",
        2 => "2",
        3 => "3",
        4 => "4",
        5 => "5",
        6 => "6",
        7 => "7",
        8 => "8",
        _ => "9",
    }
}

/// Appends the decimal digits of `n` to `out`.
pub(crate) fn push_decimal(out: &mut String, n: usize)
    ensures
        final(out)@ == old(out)@ + decimal_digits(n as nat),
    decreases n,
{
    if n >= 10 {
        push_decimal(out, n / 10);
    }
    out.append(digit_str(n % 10));
    proof {
        assert(out@ =~= old(out)@ + decimal_digits(n as nat));
    }
}

/// `0x` and the zero-padded hexadecimal digits of `x`.
pub open spec fn hex_literal(x: FieldElement) -> Seq<char> {
    "0x"@ + hex8(x.value())
}

/// The hexadecimal literals of `s`, separated by `", "`.
pub open spec fn hex_list(s: Seq<FieldElement>) -> Seq<char>
    decreases s.len(),
{
    if s.len() == 0 {
        Seq::empty()
    } else if s.len() == 1 {
        hex_literal(s[0])
    } else {
        hex_list(s.drop_last()) + ", "@ + hex_literal(s.last())
    }
}

/// The declared name and its colon, or nothing.
pub open spec fn name_prefix(table_name: Option<Seq<char>>) -> Seq<char> {
    match table_name {
        Some(name) => name + ": "@,
        None => Seq::empty(),
    }
}

/// The whole declaration of a table with these stored keys and values.
pub open spec fn table_text(
    keys: Seq<FieldElement>,
    values: Seq<FieldElement>,
    maximum: FieldElement,
    table_name: Option<Seq<char>>,
    generic_name: Seq<char>,
) -> Seq<char> {
    name_prefix(table_name) + "SparseArray<"@ + decimal_digits((keys.len() - 2) as nat) + ", "@
        + generic_name + "> = SparseArray {\n    keys: ["@ + hex_list(keys) + "],\n    values: ["@
        + hex_list(values) + "],\n    maximum: "@ + hex_literal(maximum) + "\n};"@
}

/// Appends the hexadecimal literals of `s` to `out`.
pub(crate) fn push_hex_list(out: &mut String, s: &Vec<FieldElement>)
    ensures
        final(out)@ == old(out)@ + hex_list(s@),
{
    let ghost start = out@;
    let mut i: usize = 0;
    while i < s.len()
        invariant
            i <= s@.len(),
            out@ == start + hex_list(s@.subrange(0, i as int)),
        decreases s@.len() - i,
    {
        if i > 0 {
            out.append(", ");
        }
        out.append("0x");
        let h = crate::field::hex_padded(&s[i]);
        out.append(h.as_str());
        proof {
            let t = s@.subrange(0, i + 1);
            assert(t.drop_last() =~= s@.subrange(0, i as int));
            assert(t.last() == s@[i as int]);
            if i == 0 {
                assert(s@.subrange(0, 0) =~= Seq::<FieldElement>::empty());
                assert(out@ =~= start + hex_list(t));
            } else {
                assert(out@ =~= start + hex_list(t));
            }
        }
        i = i + 1;
    }
    proof {
        assert(s@.subrange(0, s@.len() as int) =~= s@);
    }
}

} // verus!
