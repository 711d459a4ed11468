//! Numbers as text.
use vstd::prelude::*;

verus! {

/// A number in decimal digits.
pub open spec fn decimal(n: int) -> Seq<u8>
    decreases n,
{
    if n < 10 {
        seq![(0x30 + n) as u8]
    } else {
        decimal(n / 10).push((0x30 + n % 10) as u8)
    }
}

/// The digit that stands for a number below 16.
pub open spec fn hex_digit(n: int) -> u8 {
    if n < 10 {
        (0x30 + n) as u8
    } else {
        (0x37 + n) as u8
    }
}

/// A number in hexadecimal digits.
pub open spec fn hexadecimal(n: int) -> Seq<u8>
    decreases n,
{
    if n < 16 {
        seq![hex_digit(n)]
    } else {
        hexadecimal(n / 16).push(hex_digit(n % 16))
    }
}

/// A text behind as many fill bytes as its width takes.
pub open spec fn right_aligned(s: Seq<u8>, width: int, fill: u8) -> Seq<u8> {
    if s.len() >= width {
        s
    } else {
        Seq::new((width - s.len()) as nat, |i: int| fill) + s
    }
}

/// Appends a number in decimal digits.
pub fn push_decimal(buf: &mut Vec<u8>, n: u64)
    ensures
        final(buf)@ == old(buf)@ + decimal(n as int),
    decreases n,
{
    let ghost before = buf@;
    if n >= 10 {
        push_decimal(buf, n / 10);
    }
    buf.push((0x30 + n % 10) as u8);
    assert(buf@ =~= before + decimal(n as int));
}

/// Appends a number in hexadecimal digits.
pub fn push_hexadecimal(buf: &mut Vec<u8>, n: u64)
    ensures
        final(buf)@ == old(buf)@ + hexadecimal(n as int),
    decreases n,
{
    let ghost before = buf@;
    if n >= 16 {
        push_hexadecimal(buf, n / 16);
    }
    let d: u8 = (n % 16) as u8;
    if d < 10 {
        buf.push(0x30 + d);
    } else {
        buf.push(0x37 + d);
    }
    assert(buf@ =~= before + hexadecimal(n as int));
}

/// Appends a text, aligned to the right of a field.
pub fn push_aligned(buf: &mut Vec<u8>, s: &[u8], width: usize, fill: u8)
    ensures
        final(buf)@ == old(buf)@ + right_aligned(s@, width as int, fill),
{
    let ghost before = buf@;
    if s.len() < width {
        let pad: usize = width - s.len();
        let mut k: usize = 0;
        assert(before + Seq::new(0nat, |i: int| fill) =~= before);
        while k < pad
            invariant
                k <= pad,
                buf@ == before + Seq::new(k as nat, |i: int| fill),
            decreases pad - k,
        {
            buf.push(fill);
            k += 1;
            assert(buf@ =~= before + Seq::new(k as nat, |i: int| fill));
        }
    }
    let ghost mid = buf@;
    crate::util::bytes::append(buf, s);
    assert(buf@ =~= before + right_aligned(s@, width as int, fill));
}

} // verus!
