//! Small utility functions.

pub mod bytes;
pub mod glob;
pub mod graph;
pub mod lists;
pub mod number_laws;
pub mod numbers;
pub mod order;
pub mod siphash;
pub mod text;

pub use glob::glob_match;
use vstd::prelude::*;
use vstd::arithmetic::power2;

verus! {

/// The smallest multiple of `align` that is not below `val`.
pub open spec fn aligned(val: int, align: int) -> int {
    (val + align - 1) / align * align
}

/// `aligned` rounds up by less than one step, onto a multiple of the step.
pub proof fn lemma_aligned(val: int, align: int)
    requires
        0 <= val,
        0 < align,
    ensures
        val <= aligned(val, align) < val + align,
        aligned(val, align) % align == 0,
{
    let q = (val + align - 1) / align;
    vstd::arithmetic::div_mod::lemma_fundamental_div_mod(val + align - 1, align);
    vstd::arithmetic::mul::lemma_mul_is_commutative(align, q);
    vstd::arithmetic::div_mod::lemma_mod_multiples_basic(q, align);
}

/// No smaller multiple of `align` reaches `val`.
pub proof fn lemma_aligned_least(val: int, align: int, x: int)
    requires
        0 <= val,
        0 < align,
        val <= x,
        x % align == 0,
    ensures
        aligned(val, align) <= x,
{
    lemma_aligned(val, align);
    let r = aligned(val, align);
    if x < r {
        vstd::arithmetic::div_mod::lemma_fundamental_div_mod(x, align);
        vstd::arithmetic::div_mod::lemma_fundamental_div_mod(r, align);
        assert(r - x < align);
        assert(align * (r / align) - align * (x / align) == r - x);
        assert(false) by (nonlinear_arith)
            requires
                align > 0,
                0 < align * (r / align) - align * (x / align) < align,
        ;
    }
}

/// Rounds `val` up to the next multiple of `align`.
pub fn align_to(val: u64, align: u64) -> (r: u64)
    requires
        0 < align,
        val + align - 1 <= u64::MAX,
    ensures
        r == aligned(val as int, align as int),
        val <= r < val + align,
{
    proof {
        lemma_aligned(val as int, align as int);
    }
    (val + (align - 1)) / align * align
}

/// The value 2^p.
pub fn two_to(p: u32) -> (r: u64)
    requires
        p < 64,
    ensures
        r == power2::pow2(p as nat),
        0 < r,
{
    proof {
        vstd::bits::lemma_u64_pow2_no_overflow(p as nat);
        vstd::bits::lemma_u64_shl_is_mul(1, p as u64);
        vstd::arithmetic::power2::lemma_pow2_pos(p as nat);
    }
    1u64 << (p as u64)
}

/// Rounds `val` up to the next multiple of 2^p.
pub fn align_to_p2(val: u64, p: u32) -> (r: u64)
    requires
        p < 64,
        val + power2::pow2(p as nat) - 1 <= u64::MAX,
    ensures
        r == aligned(val as int, power2::pow2(p as nat) as int),
        val <= r < val + power2::pow2(p as nat),
{
    let align: u64 = two_to(p);
    align_to(val, align)
}

/// Where something with the given alignment can stand at or behind `off`.
/// `None` if that is beyond the address space.
pub open spec fn place_at(off: u64, p2align: u8) -> Option<u64> {
    if p2align < 64 && off + power2::pow2(p2align as nat) - 1 <= u64::MAX {
        Some(aligned(off as int, power2::pow2(p2align as nat) as int) as u64)
    } else {
        None
    }
}

/// Finds where something with the given alignment can stand.
pub fn find_place(off: u64, p2align: u8) -> (r: Option<u64>)
    ensures
        r == place_at(off, p2align),
        r matches Some(a) ==> off <= a && a % (power2::pow2(p2align as nat) as u64) == 0,
{
    if p2align >= 64 {
        return None;
    }
    let align: u64 = two_to(p2align as u32);
    if off > u64::MAX - (align - 1) {
        return None;
    }
    proof {
        lemma_aligned(off as int, align as int);
    }
    Some(align_to(off, align))
}

/// The smallest value not below `val` that is congruent to `modulus`
/// modulo `align`.
pub open spec fn aligned_mod(val: int, align: int, modulus: int) -> int {
    if val <= modulus {
        modulus
    } else {
        aligned(val - modulus, align) + modulus
    }
}

/// `aligned_mod` is the least value in its residue class from `val` on.
pub proof fn lemma_aligned_mod(val: int, align: int, modulus: int, x: int)
    requires
        0 <= val,
        0 <= modulus < align,
    ensures
        val <= aligned_mod(val, align, modulus),
        val + align > aligned_mod(val, align, modulus) || aligned_mod(val, align, modulus) == modulus,
        aligned_mod(val, align, modulus) % align == modulus,
        val <= x && x % align == modulus ==> aligned_mod(val, align, modulus) <= x,
{
    let (v, a, m) = (val, align, modulus);
    vstd::arithmetic::div_mod::lemma_small_mod(m as nat, a as nat);
    if v > m {
        lemma_aligned(v - m, a);
        let b = aligned(v - m, a);
        vstd::arithmetic::div_mod::lemma_fundamental_div_mod(b, a);
        vstd::arithmetic::div_mod::lemma_mod_multiples_vanish(b / a, m, a);
        assert(a * (b / a) + m == b + m);
    }
    if v <= x && x % a == m {
        vstd::arithmetic::div_mod::lemma_fundamental_div_mod(x, a);
        if v <= m {
            if x < m {
                vstd::arithmetic::div_mod::lemma_small_mod(x as nat, a as nat);
            }
        } else {
            let y = x - m;
            assert(y == a * (x / a));
            vstd::arithmetic::div_mod::lemma_mod_multiples_basic(x / a, a);
            vstd::arithmetic::mul::lemma_mul_is_commutative(a, x / a);
            lemma_aligned_least(v - m, a, y);
        }
    }
}

/// Rounds `val` up to the next value congruent to `modulus` modulo
/// `align`: every atom keeps the offset it had within its section modulo
/// the section's alignment.
pub fn align_to_mod(val: u64, align: u64, modulus: u64) -> (r: u64)
    requires
        modulus < align,
        val + align - 1 <= u64::MAX,
    ensures
        r == aligned_mod(val as int, align as int, modulus as int),
        val <= r,
        r as int % align as int == modulus,
{
    proof {
        lemma_aligned_mod(val as int, align as int, modulus as int, 0);
    }
    if val <= modulus {
        modulus
    } else {
        align_to(val - modulus, align) + modulus
    }
}

/// Returns the bit field of `val` from bit `hi` down to bit `lo`,
/// inclusive.
pub fn bits(val: u64, hi: u32, lo: u32) -> (r: u64)
    requires
        lo <= hi < 64,
        hi - lo < 63,
    ensures
        r == (val as nat / power2::pow2(lo as nat)) % power2::pow2((hi - lo + 1) as nat),
{
    proof {
        vstd::bits::lemma_u64_shr_is_div(val, lo as u64);
    }
    (val >> (lo as u64)) % two_to(hi - lo + 1)
}

/// The signed value of the low `n + 1` bits of `val`, in two's complement.
pub open spec fn sign_extended(val: int, n: nat) -> int {
    let low = val % power2::pow2(n + 1) as int;
    if low < power2::pow2(n) {
        low
    } else {
        low - power2::pow2(n + 1)
    }
}

/// Sign-extends a value whose sign bit is bit `n`.
pub fn sign_extend(val: u64, n: u32) -> (r: i64)
    requires
        n < 64,
    ensures
        r == sign_extended(val as int, n as nat),
{
    let half: u64 = two_to(n);
    proof {
        vstd::arithmetic::power2::lemma_pow2_unfold((n + 1) as nat);
        vstd::arithmetic::power2::lemma_pow2_pos(n as nat);
        vstd::arithmetic::power2::lemma2_to64();
        vstd::arithmetic::power2::lemma2_to64_rest();
        vstd::bits::lemma_u64_pow2_no_overflow(n as nat);
        if n < 63 {
            vstd::arithmetic::power2::lemma_pow2_strictly_increases((n + 1) as nat, 64);
            vstd::arithmetic::power2::lemma_pow2_strictly_increases(n as nat, 63);
        }
        vstd::arithmetic::div_mod::lemma_mod_bound(val as int, 2 * half);
        if n == 63 {
            vstd::arithmetic::div_mod::lemma_small_mod(val as nat, power2::pow2(64));
        }
    }
    let low: u64 = if n == 63 {
        val
    } else {
        val % (2 * half)
    };
    if low < half {
        low as i64
    } else {
        (low as i128 - 2 * half as i128) as i64
    }
}

/// The ULEB128 encoding of a value: seven bits a byte, least significant
/// first, with the top bit set on all but the last.
pub open spec fn uleb(v: nat) -> Seq<u8>
    decreases v,
{
    if v < 128 {
        seq![v as u8]
    } else {
        seq![(128 + v % 128) as u8] + uleb(v / 128)
    }
}

/// Appends a ULEB128-encoded value.
pub fn write_uleb(buf: &mut Vec<u8>, val: u64)
    ensures
        final(buf)@ == old(buf)@ + uleb(val as nat),
{
    let ghost before = buf@;
    let mut v: u64 = val;
    while v >= 128
        invariant
            buf@ + uleb(v as nat) == before + uleb(val as nat),
        decreases v,
    {
        buf.push((128 + v % 128) as u8);
        proof {
            let b = (128 + v % 128) as u8;
            let rest = uleb((v / 128) as nat);
            assert(uleb(v as nat) == seq![b] + rest);
            assert(buf@ + rest =~= buf@.drop_last() + (seq![b] + rest));
        }
        v = v / 128;
    }
    buf.push(v as u8);
    assert(buf@ =~= buf@.drop_last() + uleb(v as nat));
}

/// The value of the ULEB128 encoding at `pos` and the position behind it,
/// if the encoding ends within `fuel` bytes.
pub open spec fn uleb_decode(data: Seq<u8>, pos: int, fuel: nat) -> Option<(nat, int)>
    decreases fuel,
{
    if fuel == 0 || pos < 0 || pos >= data.len() {
        None
    } else if data[pos] < 128 {
        Some((data[pos] as nat, pos + 1))
    } else {
        match uleb_decode(data, pos + 1, (fuel - 1) as nat) {
            Some((v, next)) => Some(((data[pos] - 128 + 128 * v) as nat, next)),
            None => None,
        }
    }
}

/// Decoding an encoded value gives the value back, whatever follows.
pub proof fn lemma_uleb_round_trip(v: nat, before: Seq<u8>, after: Seq<u8>, fuel: nat)
    requires
        0 < fuel,
        v < power2::pow2(7 * fuel),
    ensures
        uleb_decode(before + uleb(v) + after, before.len() as int, fuel) == Some(
            (v, (before.len() + uleb(v).len()) as int),
        ),
    decreases fuel,
{
    power2::lemma2_to64();
    let s = before + uleb(v) + after;
    if v < 128 {
        assert(s[before.len() as int] == v as u8);
    } else {
        let b = (128 + v % 128) as u8;
        let p = power2::pow2((7 * (fuel - 1)) as nat);
        power2::lemma_pow2_adds(7, (7 * (fuel - 1)) as nat);
        assert(v / 128 < p) by (nonlinear_arith)
            requires
                v < 128 * p,
        ;
        assert(fuel > 1);
        lemma_uleb_round_trip(v / 128, before.push(b), after, (fuel - 1) as nat);
        assert(before.push(b) + uleb(v / 128) + after =~= s);
        assert(s[before.len() as int] == b);
    }
}

/// Ten bytes hold every encoded 64-bit value.
pub proof fn lemma_uleb_u64(v: u64, before: Seq<u8>, after: Seq<u8>)
    ensures
        uleb_decode(before + uleb(v as nat) + after, before.len() as int, 10) == Some(
            (v as nat, (before.len() + uleb(v as nat).len()) as int),
        ),
{
    power2::lemma2_to64_rest();
    power2::lemma_pow2_strictly_increases(64, 70);
    lemma_uleb_round_trip(v as nat, before, after, 10);
}

/// The number of bytes of a ULEB128 encoding.
pub fn uleb_len(val: u64) -> (r: usize)
    ensures
        r == uleb(val as nat).len(),
        1 <= r <= 10,
{
    let mut v: u64 = val;
    let mut len: usize = 1;
    let ghost mut left: nat = 10;
    proof {
        power2::lemma2_to64();
        power2::lemma2_to64_rest();
        power2::lemma_pow2_strictly_increases(64, 70);
    }
    while v >= 0x80
        invariant
            len + left == 11,
            1 <= len <= 10,
            v < power2::pow2(7 * left),
            len + uleb(v as nat).len() == 1 + uleb(val as nat).len(),
        decreases v,
    {
        proof {
            power2::lemma2_to64();
            assert(left > 1);
            power2::lemma_pow2_adds(7, (7 * (left - 1)) as nat);
            assert(v / 128 < power2::pow2((7 * (left - 1)) as nat)) by (nonlinear_arith)
                requires
                    v < 128 * power2::pow2((7 * (left - 1)) as nat),
            ;
            left = (left - 1) as nat;
        }
        v = v / 128;
        len += 1;
    }
    len
}

/// The SLEB128 encoding of a value.
pub open spec fn sleb(v: int) -> Seq<u8>
    decreases (if v < 0 { -v } else { v }),
{
    if -64 <= v < 64 {
        seq![(v % 128) as u8]
    } else {
        seq![(128 + v % 128) as u8] + sleb(v / 128)
    }
}

/// Appends an SLEB128-encoded value.
pub fn write_sleb(buf: &mut Vec<u8>, val: i64)
    ensures
        final(buf)@ == old(buf)@ + sleb(val as int),
{
    let ghost before = buf@;
    let mut v: i64 = val;
    while !(-64 <= v && v < 64)
        invariant
            buf@ + sleb(v as int) == before + sleb(val as int),
        decreases (if v < 0 { -v } else { v as int }),
    {
        let next: i64 = if v >= 0 {
            v / 128
        } else {
            -((-(v + 1)) / 128) - 1
        };
        let low: i64 = v - 128 * next;
        assert(next == v as int / 128 && low == v as int % 128);
        buf.push((128 + low) as u8);
        proof {
            let b = (128 + v as int % 128) as u8;
            let rest = sleb(next as int);
            assert(sleb(v as int) == seq![b] + rest);
            assert(buf@ + rest =~= buf@.drop_last() + (seq![b] + rest));
        }
        v = next;
    }
    let low: i64 = if v >= 0 {
        v
    } else {
        v + 128
    };
    buf.push(low as u8);
    assert(buf@ =~= buf@.drop_last() + sleb(v as int));
}

/// The value of the first eight bytes of `s`, most significant first, with
/// zeros for those that are missing.
pub open spec fn prefix_value(s: Seq<u8>) -> int {
    prefix_digits(s, 8)
}

/// The first `n` bytes of `s` as digits in base 256, zero-padded.
pub open spec fn prefix_digits(s: Seq<u8>, n: nat) -> int
    decreases n,
{
    if n == 0 {
        0
    } else {
        256 * prefix_digits(s, (n - 1) as nat) + (if n - 1 < s.len() {
            s[n - 1] as int
        } else {
            0
        })
    }
}

proof fn lemma_prefix_digits_bound(s: Seq<u8>, n: nat)
    ensures
        0 <= prefix_digits(s, n) < power2::pow2(8 * n),
    decreases n,
{
    power2::lemma2_to64();
    if n > 0 {
        lemma_prefix_digits_bound(s, (n - 1) as nat);
        power2::lemma_pow2_adds((8 * (n - 1)) as nat, 8);
    }
}

/// A sort key that orders byte strings like the strings themselves but
/// settles most comparisons on one integer: the first eight bytes,
/// big-endian, zero-padded.
pub fn name_sort_key(name: &[u8]) -> (r: (u64, &[u8]))
    ensures
        r.0 == prefix_value(name@),
        r.1@ == name@,
{
    let mut val: u64 = 0;
    let mut i: usize = 0;
    while i < 8
        invariant
            i <= 8,
            val == prefix_digits(name@, i as nat),
        decreases 8 - i,
    {
        proof {
            lemma_prefix_digits_bound(name@, i as nat);
            lemma_prefix_digits_bound(name@, (i + 1) as nat);
            power2::lemma2_to64();
            power2::lemma2_to64_rest();
            if i < 7 {
                power2::lemma_pow2_strictly_increases((8 * (i + 1)) as nat, 64);
            }
        }
        let digit: u64 = if i < name.len() {
            name[i] as u64
        } else {
            0
        };
        val = 256 * val + digit;
        i += 1;
    }
    (val, name)
}

/// Ordering by (prefix value, name) is ordering by name.
pub proof fn lemma_name_sort_key_order(a: Seq<u8>, b: Seq<u8>)
    ensures
        order::lex_before(a, b) <==> (prefix_value(a) < prefix_value(b) || (prefix_value(a)
            == prefix_value(b) && order::lex_before(a, b))),
{
    if order::lex_before(a, b) {
        lemma_prefix_monotone(a, b, 8);
    }
    order::lemma_lex_total(a, b);
    if order::lex_before(b, a) {
        lemma_prefix_monotone(b, a, 8);
    }
}

/// The digits of the first `n` bytes, most significant digit first.
proof fn lemma_prefix_split(s: Seq<u8>, n: nat)
    requires
        0 < n,
    ensures
        prefix_digits(s, n) == (if s.len() > 0 {
            s[0] as int
        } else {
            0
        }) * power2::pow2((8 * (n - 1)) as nat) + prefix_digits(
            (if s.len() > 0 { s.drop_first() } else { s }),
            (n - 1) as nat,
        ),
    decreases n,
{
    power2::lemma2_to64();
    let d = if s.len() > 0 {
        s[0] as int
    } else {
        0
    };
    let t = if s.len() > 0 {
        s.drop_first()
    } else {
        s
    };
    if n > 1 {
        lemma_prefix_split(s, (n - 1) as nat);
        power2::lemma_pow2_adds(8, (8 * (n - 2)) as nat);
        let last = if n - 1 < s.len() {
            s[n - 1] as int
        } else {
            0
        };
        let p = power2::pow2((8 * (n - 2)) as nat) as int;
        assert(prefix_digits(t, (n - 1) as nat) == 256 * prefix_digits(t, (n - 2) as nat) + last);
        assert(256 * (d * p) == d * (256 * p)) by (nonlinear_arith);
        assert(power2::pow2((8 * (n - 1)) as nat) == 256 * p);
    } else {
        reveal_with_fuel(prefix_digits, 2);
        assert(d * power2::pow2(0) == d);
    }
}

/// A string that sorts first has no larger prefix value.
proof fn lemma_prefix_monotone(a: Seq<u8>, b: Seq<u8>, n: nat)
    requires
        order::lex_before(a, b),
    ensures
        prefix_digits(a, n) <= prefix_digits(b, n),
    decreases n,
{
    if n > 0 {
        lemma_prefix_split(a, n);
        lemma_prefix_split(b, n);
        let m = (n - 1) as nat;
        let p = power2::pow2(8 * m) as int;
        if a.len() == 0 {
            lemma_prefix_digits_empty(a, m);
            lemma_prefix_digits_bound(b.drop_first(), m);
            assert(0 <= b[0] * p) by (nonlinear_arith)
                requires
                    0 <= p,
                    0 <= b[0],
            ;
            assert(0 * p == 0);
        } else if a[0] == b[0] {
            lemma_prefix_monotone(a.drop_first(), b.drop_first(), m);
        } else {
            lemma_prefix_digits_bound(a.drop_first(), m);
            lemma_prefix_digits_bound(b.drop_first(), m);
            assert(a[0] * p + p <= b[0] * p) by (nonlinear_arith)
                requires
                    0 <= p,
                    a[0] + 1 <= b[0],
            ;
        }
    }
}

proof fn lemma_prefix_digits_empty(s: Seq<u8>, n: nat)
    requires
        s.len() == 0,
    ensures
        prefix_digits(s, n) == 0,
    decreases n,
{
    if n > 0 {
        lemma_prefix_digits_empty(s, (n - 1) as nat);
    }
}

/// The first position from `i` on at which `v` stands in `s`, or the length
/// of `s` if there is none.
pub open spec fn position_of(s: Seq<u32>, v: u32, i: int) -> int
    decreases s.len() - i,
{
    if i < 0 || i >= s.len() {
        s.len() as int
    } else if s[i] == v {
        i
    } else {
        position_of(s, v, i + 1)
    }
}

/// The position of a value, if it is there, is where it stands first.
pub proof fn lemma_position_of(s: Seq<u32>, v: u32, i: int)
    requires
        0 <= i <= s.len(),
    ensures
        i <= position_of(s, v, i) <= s.len(),
        position_of(s, v, i) < s.len() ==> s[position_of(s, v, i)] == v,
        forall|k: int| i <= k < position_of(s, v, i) ==> #[trigger] s[k] != v,
    decreases s.len() - i,
{
    if i < s.len() && s[i] != v {
        lemma_position_of(s, v, i + 1);
    }
}

/// Finds the first position of `v`, or the length of `s`.
pub fn find_position(s: &Vec<u32>, v: u32) -> (r: usize)
    ensures
        r == position_of(s@, v, 0),
        r <= s.len(),
        r < s.len() <==> s@.contains(v),
{
    let mut i: usize = 0;
    while i < s.len()
        invariant
            i <= s.len(),
            position_of(s@, v, 0) == position_of(s@, v, i as int),
            forall|k: int| 0 <= k < i ==> #[trigger] s[k] != v,
        decreases s.len() - i,
    {
        if s[i] == v {
            assert(s@[i as int] == v);
            return i;
        }
        i += 1;
    }
    i
}

} // verus!
