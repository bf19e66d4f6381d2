//! Decimal length prefixes: every framing record begins with the byte length
//! of some part of the record, written as ASCII digits, most significant
//! first, with no leading zeros.

use vstd::prelude::*;

verus! {

/// ASCII decimal digits of `n`, most significant first, no leading zeros
/// (`"0"` for zero).
pub open spec fn digits_spec(n: nat) -> Seq<u8>
    decreases n,
{
    if n < 10 {
        seq![(48 + n) as u8]
    } else {
        digits_spec(n / 10).push((48 + n % 10) as u8)
    }
}

pub open spec fn is_digit(c: u8) -> bool {
    48 <= c <= 57
}

pub open spec fn all_digits(s: Seq<u8>) -> bool {
    forall|i: int| 0 <= i < s.len() ==> is_digit(#[trigger] s[i])
}

/// The value of the ASCII digit string `d` read left to right, starting from
/// an already accumulated value `acc`.
pub open spec fn digits_value(acc: nat, d: Seq<u8>) -> nat
    decreases d.len(),
{
    if d.len() == 0 {
        acc
    } else {
        digits_value(acc * 10 + (d[0] - 48) as nat, d.skip(1))
    }
}

pub proof fn lemma_digits_are_digits(n: nat)
    ensures
        digits_spec(n).len() >= 1,
        all_digits(digits_spec(n)),
    decreases n,
{
    if n >= 10 {
        lemma_digits_are_digits(n / 10);
        assert forall|i: int| 0 <= i < digits_spec(n).len() implies is_digit(
            #[trigger] digits_spec(n)[i],
        ) by {
            if i < digits_spec(n).len() - 1 {
                assert(digits_spec(n)[i] == digits_spec(n / 10)[i]);
            }
        }
    }
}

proof fn lemma_digits_value_snoc(acc: nat, d: Seq<u8>, x: u8)
    ensures
        digits_value(acc, d.push(x)) == digits_value(acc, d) * 10 + (x - 48) as nat,
    decreases d.len(),
{
    reveal_with_fuel(digits_value, 3);
    if d.len() == 0 {
        assert(d.push(x).skip(1) =~= Seq::<u8>::empty());
    } else {
        assert(d.push(x).skip(1) =~= d.skip(1).push(x));
        lemma_digits_value_snoc(acc * 10 + (d[0] - 48) as nat, d.skip(1), x);
    }
}

/// Reading back the digits of `n` yields `n`.
pub proof fn lemma_digits_roundtrip(n: nat)
    ensures
        digits_value(0, digits_spec(n)) == n,
    decreases n,
{
    reveal_with_fuel(digits_value, 3);
    if n < 10 {
        assert(digits_spec(n).skip(1) =~= Seq::<u8>::empty());
    } else {
        lemma_digits_roundtrip(n / 10);
        lemma_digits_value_snoc(0, digits_spec(n / 10), (48 + n % 10) as u8);
        assert(n / 10 * 10 + n % 10 == n) by {
            vstd::arithmetic::div_mod::lemma_fundamental_div_mod(n as int, 10);
        }
    }
}

/// Appends the ASCII decimal digits of `n` to `out`.
pub fn push_digits(n: u64, out: &mut Vec<u8>)
    ensures
        final(out)@ == old(out)@ + digits_spec(n as nat),
    decreases n,
{
    if n >= 10 {
        push_digits(n / 10, out);
    }
    out.push(48 + (n % 10) as u8);
    proof {
        assert(out@ =~= old(out)@ + digits_spec(n as nat));
    }
}

} // verus!
