//! Numbers written as digits read back.
use crate::util::{numbers, text};
use vstd::prelude::*;

verus! {

/// The decimal digits of a number read as that number, and hold nothing but
/// digits.
pub proof fn lemma_decimal_reads_back(n: int)
    requires
        0 <= n,
    ensures
        text::number(numbers::decimal(n), 10) == Some(n),
        numbers::decimal(n).len() > 0,
        forall|k: int|
            0 <= k < numbers::decimal(n).len() ==> 0x30 <= #[trigger] numbers::decimal(n)[k]
                <= 0x39,
    decreases n,
{
    let s = numbers::decimal(n);
    if n < 10 {
        assert(s.drop_last() =~= Seq::<u8>::empty());
        assert(text::number(s.drop_last(), 10) == Some(0int));
    } else {
        lemma_decimal_reads_back(n / 10);
        assert(s.drop_last() =~= numbers::decimal(n / 10));
    }
}

/// The hexadecimal digits of a number read as that number.
pub proof fn lemma_hexadecimal_reads_back(n: int)
    requires
        0 <= n,
    ensures
        text::number(numbers::hexadecimal(n), 16) == Some(n),
        numbers::hexadecimal(n).len() > 0,
    decreases n,
{
    let s = numbers::hexadecimal(n);
    if n < 16 {
        assert(s.drop_last() =~= Seq::<u8>::empty());
        assert(text::number(s.drop_last(), 16) == Some(0int));
    } else {
        lemma_hexadecimal_reads_back(n / 16);
        assert(s.drop_last() =~= numbers::hexadecimal(n / 16));
    }
}

} // verus!
