//! What a number looks like.
use vstd::prelude::*;

use crate::text::{all_digits, decimal_of, digits_value, is_digit};

verus! {

/// A number in decimal is a run of digits that reads as that number, without a leading
/// zero.
pub proof fn lemma_decimal_reads_back(n: nat)
    ensures
        all_digits(decimal_of(n)),
        digits_value(decimal_of(n)) == n,
        n > 0 ==> decimal_of(n)[0] != '0',
    decreases n,
{
    let d = decimal_of(n);
    if n < 10 {
        assert(d.drop_last() =~= Seq::<char>::empty());
        reveal_with_fuel(digits_value, 2);
        assert(d[0] as u32 == 48 + n);
    } else {
        lemma_decimal_reads_back(n / 10);
        let front = decimal_of(n / 10);
        assert(d.drop_last() =~= front);
        assert(d.last() as u32 == 48 + n % 10);
        assert forall|i: int| 0 <= i < d.len() implies is_digit(#[trigger] d[i]) by {
            if i < front.len() {
                assert(d[i] == front[i]);
            }
        }
        assert(d[0] == front[0]);
    }
}

/// Different numbers are written differently.
pub proof fn lemma_decimals_differ(a: nat, b: nat)
    requires
        decimal_of(a) == decimal_of(b),
    ensures
        a == b,
{
    lemma_decimal_reads_back(a);
    lemma_decimal_reads_back(b);
}

} // verus!
