//! Byte strings: comparison, searching and little-endian fields.
use vstd::prelude::*;

verus! {

/// True when the two byte strings are equal.
pub fn same(a: &[u8], b: &[u8]) -> (r: bool)
    ensures
        r == (a@ == b@),
{
    if a.len() != b.len() {
        return false;
    }
    let mut i: usize = 0;
    while i < a.len()
        invariant
            a.len() == b.len(),
            i <= a.len(),
            forall|j: int| 0 <= j < i ==> a[j] == b[j],
        decreases a.len() - i,
    {
        if a[i] != b[i] {
            return false;
        }
        i += 1;
    }
    assert(a@ =~= b@);
    true
}

/// True when `prefix` begins `s`.
pub open spec fn has_prefix(s: Seq<u8>, prefix: Seq<u8>) -> bool {
    prefix.len() <= s.len() && s.take(prefix.len() as int) == prefix
}

/// True when `suffix` ends `s`.
pub open spec fn has_suffix(s: Seq<u8>, suffix: Seq<u8>) -> bool {
    suffix.len() <= s.len() && s.skip(s.len() - suffix.len()) == suffix
}

/// True when `needle` occurs in `s` at offset `at`.
pub open spec fn occurs_at(s: Seq<u8>, needle: Seq<u8>, at: int) -> bool {
    0 <= at && at + needle.len() <= s.len() && s.subrange(at, at + needle.len()) == needle
}

/// True when `needle` occurs in `s` at offset `at`.
pub fn is_at(s: &[u8], needle: &[u8], at: usize) -> (r: bool)
    ensures
        r == occurs_at(s@, needle@, at as int),
{
    if at > s.len() || needle.len() > s.len() - at {
        return false;
    }
    let mut i: usize = 0;
    while i < needle.len()
        invariant
            at + needle.len() <= s.len(),
            i <= needle.len(),
            forall|j: int| 0 <= j < i ==> s[at + j] == needle[j],
        decreases needle.len() - i,
    {
        if s[at + i] != needle[i] {
            proof {
                assert(s@.subrange(at as int, at + needle.len())[i as int] == s[at + i]);
            }
            return false;
        }
        i += 1;
    }
    assert(s@.subrange(at as int, at + needle.len()) =~= needle@);
    true
}

/// True when `prefix` begins `s`.
pub fn starts_with(s: &[u8], prefix: &[u8]) -> (r: bool)
    ensures
        r == has_prefix(s@, prefix@),
{
    let r = is_at(s, prefix, 0);
    proof {
        if prefix.len() <= s.len() {
            assert(s@.take(prefix.len() as int) =~= s@.subrange(0, 0 + prefix.len()));
        }
    }
    r
}

/// True when `suffix` ends `s`.
pub fn ends_with(s: &[u8], suffix: &[u8]) -> (r: bool)
    ensures
        r == has_suffix(s@, suffix@),
{
    if suffix.len() > s.len() {
        return false;
    }
    let r = is_at(s, suffix, s.len() - suffix.len());
    proof {
        let at = s.len() - suffix.len();
        assert(s@.skip(at) =~= s@.subrange(at, at + suffix.len()));
    }
    r
}

/// The first offset at or after `from` where `needle` occurs in `s`.
pub fn find_from(s: &[u8], needle: &[u8], from: usize) -> (r: Option<usize>)
    requires
        from <= s.len(),
    ensures
        match r {
            Some(at) => from <= at && occurs_at(s@, needle@, at as int) && forall|j: int|
                from <= j < at ==> !occurs_at(s@, needle@, j),
            None => forall|j: int| from <= j ==> !occurs_at(s@, needle@, j),
        },
{
    let mut at: usize = from;
    loop
        invariant
            from <= at <= s.len(),
            forall|j: int| from <= j < at ==> !occurs_at(s@, needle@, j),
        decreases s.len() - at,
    {
        if is_at(s, needle, at) {
            return Some(at);
        }
        if at == s.len() {
            return None;
        }
        at += 1;
    }
}

/// The first offset at or after `from` holding `byte`, or the length.
pub open spec fn index_of_byte(s: Seq<u8>, byte: u8, from: int) -> int
    decreases s.len() - from,
{
    if from >= s.len() || s[from] == byte {
        from
    } else {
        index_of_byte(s, byte, from + 1)
    }
}

/// The first offset at or after `from` holding `byte`, or the length.
pub fn find_byte(s: &[u8], byte: u8, from: usize) -> (r: usize)
    requires
        from <= s.len(),
    ensures
        r == index_of_byte(s@, byte, from as int),
        from <= r <= s.len(),
        r < s.len() ==> s[r as int] == byte,
        forall|j: int| from <= j < r ==> s[j] != byte,
{
    let mut i: usize = from;
    while i < s.len() && s[i] != byte
        invariant
            from <= i <= s.len(),
            forall|j: int| from <= j < i ==> s[j] != byte,
            index_of_byte(s@, byte, i as int) == index_of_byte(s@, byte, from as int),
        decreases s.len() - i,
    {
        i += 1;
    }
    i
}

/// A NUL-terminated field: the bytes before the first NUL.
pub open spec fn until_nul(s: Seq<u8>) -> Seq<u8> {
    s.take(index_of_byte(s, 0, 0))
}

pub proof fn lemma_index_of_byte_range(s: Seq<u8>, byte: u8, from: int)
    requires
        0 <= from <= s.len(),
    ensures
        from <= index_of_byte(s, byte, from) <= s.len(),
    decreases s.len() - from,
{
    if from < s.len() && s[from] != byte {
        lemma_index_of_byte_range(s, byte, from + 1);
    }
}

/// The bytes `s[from..to]` as a vector.
pub fn copy_range(s: &[u8], from: usize, to: usize) -> (r: Vec<u8>)
    requires
        from <= to <= s.len(),
    ensures
        r@ == s@.subrange(from as int, to as int),
{
    let mut out: Vec<u8> = Vec::new();
    let mut i: usize = from;
    while i < to
        invariant
            from <= i <= to <= s.len(),
            out@ == s@.subrange(from as int, i as int),
        decreases to - i,
    {
        out.push(s[i]);
        i += 1;
        assert(out@ =~= s@.subrange(from as int, i as int));
    }
    out
}

/// All of `s` as a vector.
pub fn to_vec(s: &[u8]) -> (r: Vec<u8>)
    ensures
        r@ == s@,
{
    let r = copy_range(s, 0, s.len());
    assert(s@.subrange(0, s.len() as int) =~= s@);
    r
}

/// Appends `s` to `buf`.
pub fn append(buf: &mut Vec<u8>, s: &[u8])
    ensures
        final(buf)@ == old(buf)@ + s@,
{
    let mut i: usize = 0;
    let ghost before = buf@;
    while i < s.len()
        invariant
            i <= s.len(),
            buf@ == before + s@.take(i as int),
        decreases s.len() - i,
    {
        buf.push(s[i]);
        i += 1;
        assert(before + s@.take(i as int) =~= (before + s@.take(i - 1)).push(s[i - 1]));
    }
    assert(s@.take(s.len() as int) =~= s@);
    assert(before + s@.take(0) =~= before);
}

/// Little-endian encoding of a 16-bit value.
pub open spec fn le16(v: u16) -> Seq<u8> {
    seq![(v % 256) as u8, (v / 256) as u8]
}

/// Little-endian encoding of a 32-bit value.
pub open spec fn le32(v: u32) -> Seq<u8> {
    seq![
        (v % 256) as u8,
        (v / 0x100 % 256) as u8,
        (v / 0x1_0000 % 256) as u8,
        (v / 0x100_0000) as u8,
    ]
}

/// Little-endian encoding of a 64-bit value.
pub open spec fn le64(v: u64) -> Seq<u8> {
    le32((v % 0x1_0000_0000) as u32) + le32((v / 0x1_0000_0000) as u32)
}

/// The 16-bit little-endian value at `off`.
#[verifier::opaque]
pub open spec fn u16_at(s: Seq<u8>, off: int) -> u16 {
    (s[off] + 0x100 * s[off + 1]) as u16
}

/// The 32-bit little-endian value at `off`.
#[verifier::opaque]
pub open spec fn u32_at(s: Seq<u8>, off: int) -> u32 {
    (s[off] + 0x100 * s[off + 1] + 0x1_0000 * s[off + 2] + 0x100_0000 * s[off + 3]) as u32
}

/// The 64-bit little-endian value at `off`.
#[verifier::opaque]
pub open spec fn u64_at(s: Seq<u8>, off: int) -> u64 {
    (u32_at(s, off) + 0x1_0000_0000 * u32_at(s, off + 4)) as u64
}

/// Reads the 16-bit little-endian field at `off`.
pub fn get16(s: &[u8], off: usize) -> (r: u16)
    requires
        off + 2 <= s.len(),
    ensures
        r == u16_at(s@, off as int),
{
    proof {
        reveal(u16_at);
    }
    s[off] as u16 + 0x100 * s[off + 1] as u16
}

/// Reads the 32-bit little-endian field at `off`.
pub fn get32(s: &[u8], off: usize) -> (r: u32)
    requires
        off + 4 <= s.len(),
    ensures
        r == u32_at(s@, off as int),
{
    proof {
        reveal(u32_at);
    }
    s[off] as u32 + 0x100 * s[off + 1] as u32 + 0x1_0000 * s[off + 2] as u32 + 0x100_0000 * s[off
        + 3] as u32
}

/// Reads the 64-bit little-endian field at `off`.
pub fn get64(s: &[u8], off: usize) -> (r: u64)
    requires
        off + 8 <= s.len(),
    ensures
        r == u64_at(s@, off as int),
{
    proof {
        reveal(u64_at);
    }
    get32(s, off) as u64 + 0x1_0000_0000 * get32(s, off + 4) as u64
}

/// The signed value of a 32-bit word, in two's complement.
pub open spec fn signed32(v: u32) -> int {
    if v < 0x8000_0000 {
        v as int
    } else {
        v - 0x1_0000_0000
    }
}

/// The signed value of a 64-bit word, in two's complement.
pub open spec fn signed64(v: u64) -> int {
    if v < 0x8000_0000_0000_0000 {
        v as int
    } else {
        v - 0x1_0000_0000_0000_0000
    }
}

/// The signed value of a 32-bit word.
pub fn to_signed32(v: u32) -> (r: i64)
    ensures
        r == signed32(v),
{
    if v < 0x8000_0000 {
        v as i64
    } else {
        v as i64 - 0x1_0000_0000
    }
}

/// The signed value of a 64-bit word.
pub fn to_signed64(v: u64) -> (r: i64)
    ensures
        r == signed64(v),
{
    if v < 0x8000_0000_0000_0000 {
        v as i64
    } else {
        (v as i128 - 0x1_0000_0000_0000_0000) as i64
    }
}

/// The two's complement word of a value modulo 2^64.
#[verifier::opaque]
pub open spec fn word64(v: int) -> u64 {
    (v % 0x1_0000_0000_0000_0000) as u64
}

/// The low 32 bits of a value, modulo 2^32.
#[verifier::opaque]
pub open spec fn word32(v: int) -> u32 {
    (v % 0x1_0000_0000) as u32
}

/// The two's complement word of a signed value.
pub fn from_signed64(v: i64) -> (r: u64)
    ensures
        r == word64(v as int),
{
    proof {
        reveal(word64);
    }
    if v >= 0 {
        v as u64
    } else {
        (v as i128 + 0x1_0000_0000_0000_0000) as u64
    }
}

/// The sum of a word and a signed value, modulo 2^64.
pub fn offset_by(v: u64, by: i64) -> (r: u64)
    ensures
        r == word64(v + by),
{
    proof {
        reveal(word64);
    }
    let sum: i128 = v as i128 + by as i128;
    if sum < 0 {
        (sum + 0x1_0000_0000_0000_0000) as u64
    } else if sum >= 0x1_0000_0000_0000_0000 {
        (sum - 0x1_0000_0000_0000_0000) as u64
    } else {
        sum as u64
    }
}

/// The difference of two words, modulo 2^64.
pub fn distance(a: u64, b: u64) -> (r: u64)
    ensures
        r == word64(a - b),
{
    proof {
        reveal(word64);
    }
    if a >= b {
        a - b
    } else {
        (a as i128 - b as i128 + 0x1_0000_0000_0000_0000) as u64
    }
}

/// The sum of two words, modulo 2^64.
pub fn sum64(a: u64, b: u64) -> (r: u64)
    ensures
        r == word64(a + b),
{
    proof {
        reveal(word64);
    }
    let sum: u128 = a as u128 + b as u128;
    if sum >= 0x1_0000_0000_0000_0000 {
        (sum - 0x1_0000_0000_0000_0000) as u64
    } else {
        sum as u64
    }
}

/// The low 32 bits of a word.
pub fn low32(v: u64) -> (r: u32)
    ensures
        r == word32(v as int),
{
    proof {
        reveal(word32);
    }
    (v % 0x1_0000_0000) as u32
}

/// Appends a 16-bit little-endian field.
pub fn push16(buf: &mut Vec<u8>, v: u16)
    ensures
        final(buf)@ == old(buf)@ + le16(v),
{
    buf.push((v % 256) as u8);
    buf.push((v / 256) as u8);
    assert(buf@ =~= old(buf)@ + le16(v));
}

/// Appends a 32-bit little-endian field.
pub fn push32(buf: &mut Vec<u8>, v: u32)
    ensures
        final(buf)@ == old(buf)@ + le32(v),
{
    buf.push((v % 256) as u8);
    buf.push((v / 0x100 % 256) as u8);
    buf.push((v / 0x1_0000 % 256) as u8);
    buf.push((v / 0x100_0000) as u8);
    assert(buf@ =~= old(buf)@ + le32(v));
}

/// Appends a 64-bit little-endian field.
pub fn push64(buf: &mut Vec<u8>, v: u64)
    ensures
        final(buf)@ == old(buf)@ + le64(v),
{
    push32(buf, (v % 0x1_0000_0000) as u32);
    push32(buf, (v / 0x1_0000_0000) as u32);
    assert(buf@ =~= old(buf)@ + le64(v));
}

/// Little-endian encoding of a run of 32-bit values.
pub open spec fn le32s(ws: Seq<u32>) -> Seq<u8>
    decreases ws.len(),
{
    if ws.len() == 0 {
        Seq::empty()
    } else {
        le32s(ws.drop_last()) + le32(ws.last())
    }
}

pub proof fn lemma_le32s_len(ws: Seq<u32>)
    ensures
        le32s(ws).len() == 4 * ws.len(),
    decreases ws.len(),
{
    if ws.len() > 0 {
        lemma_le32s_len(ws.drop_last());
    }
}

/// The values of a run come back in order.
pub proof fn lemma_le32s_at(ws: Seq<u32>, i: int)
    requires
        0 <= i < ws.len(),
    ensures
        u32_at(le32s(ws), 4 * i) == ws[i],
        le32s(ws).len() == 4 * ws.len(),
    decreases ws.len(),
{
    reveal(u32_at);
    let head = ws.drop_last();
    lemma_le32s_len(head);
    lemma_le32_round_trip(ws.last());
    if i < head.len() {
        lemma_le32s_at(head, i);
        assert(u32_at(le32s(ws), 4 * i) == u32_at(le32s(head), 4 * i));
    } else {
        assert(u32_at(le32s(ws), 4 * i) == u32_at(le32(ws.last()), 0));
    }
}

/// Appends a run of 32-bit little-endian fields.
pub fn push32s(buf: &mut Vec<u8>, ws: &[u32])
    ensures
        final(buf)@ == old(buf)@ + le32s(ws@),
        final(buf).len() == old(buf).len() + 4 * ws.len(),
{
    let ghost before = buf@;
    let mut i: usize = 0;
    assert(before + le32s(ws@.take(0)) =~= before);
    while i < ws.len()
        invariant
            i <= ws.len(),
            buf@ == before + le32s(ws@.take(i as int)),
        decreases ws.len() - i,
    {
        push32(buf, ws[i]);
        i += 1;
        proof {
            assert(ws@.take(i as int).drop_last() =~= ws@.take(i - 1));
            assert(buf@ =~= before + le32s(ws@.take(i as int)));
        }
    }
    proof {
        assert(ws@.take(ws.len() as int) =~= ws@);
        lemma_le32s_len(ws@);
    }
}

/// `s` with the bytes from `off` on replaced by `b`.
pub open spec fn patched(s: Seq<u8>, off: int, b: Seq<u8>) -> Seq<u8> {
    s.take(off) + b + s.skip(off + b.len())
}

pub proof fn lemma_patched_len(s: Seq<u8>, off: int, b: Seq<u8>)
    requires
        0 <= off,
        off + b.len() <= s.len(),
    ensures
        patched(s, off, b).len() == s.len(),
        forall|i: int|
            0 <= i < s.len() ==> #[trigger] patched(s, off, b)[i] == if off <= i < off + b.len() {
                b[i - off]
            } else {
                s[i]
            },
{
}

/// Replaces the bytes of `buf` from `off` on by `b`.
pub fn patch(buf: &mut Vec<u8>, off: usize, b: &[u8])
    requires
        off + b.len() <= old(buf).len(),
    ensures
        final(buf)@ == patched(old(buf)@, off as int, b@),
        final(buf).len() == old(buf).len(),
{
    let ghost before = buf@;
    let mut i: usize = 0;
    while i < b.len()
        invariant
            off + b.len() <= before.len(),
            buf.len() == before.len(),
            i <= b.len(),
            forall|j: int|
                0 <= j < before.len() ==> buf[j] == if off <= j < off + i {
                    b[j - off]
                } else {
                    before[j]
                },
        decreases b.len() - i,
    {
        buf.set(off + i, b[i]);
        i += 1;
    }
    proof {
        lemma_patched_len(before, off as int, b@);
        assert(buf@ =~= patched(before, off as int, b@));
    }
}

/// Replaces the 32-bit little-endian field at `off`.
pub fn put32(buf: &mut Vec<u8>, off: usize, v: u32)
    requires
        off + 4 <= old(buf).len(),
    ensures
        final(buf)@ == patched(old(buf)@, off as int, le32(v)),
        final(buf).len() == old(buf).len(),
{
    let mut field: Vec<u8> = Vec::new();
    push32(&mut field, v);
    assert(field@ =~= le32(v));
    patch(buf, off, field.as_slice());
}

/// Replaces the 64-bit little-endian field at `off`.
pub fn put64(buf: &mut Vec<u8>, off: usize, v: u64)
    requires
        off + 8 <= old(buf).len(),
    ensures
        final(buf)@ == patched(old(buf)@, off as int, le64(v)),
        final(buf).len() == old(buf).len(),
{
    let mut field: Vec<u8> = Vec::new();
    push64(&mut field, v);
    assert(field@ =~= le64(v));
    patch(buf, off, field.as_slice());
}

/// A list of byte strings.
pub open spec fn views(v: Seq<Vec<u8>>) -> Seq<Seq<u8>> {
    v.map_values(|s: Vec<u8>| s@)
}

/// `n` zero bytes.
pub open spec fn zeros(n: int) -> Seq<u8> {
    Seq::new(n as nat, |i: int| 0u8)
}

/// Appends `n` zero bytes.
pub fn push_zeros(buf: &mut Vec<u8>, n: usize)
    ensures
        final(buf)@ == old(buf)@ + zeros(n as int),
{
    let ghost before = buf@;
    let mut i: usize = 0;
    while i < n
        invariant
            i <= n,
            buf@ == before + zeros(i as int),
        decreases n - i,
    {
        buf.push(0);
        i += 1;
        assert(before + zeros(i as int) =~= (before + zeros(i - 1)).push(0));
    }
    assert(before + zeros(0) =~= before);
}

/// How many zero bytes take a length to the next multiple of 8.
pub open spec fn pad8_len(len: int) -> int {
    (8 - len % 8) % 8
}

/// `s` padded with zeros to a multiple of 8 bytes.
pub open spec fn padded8(s: Seq<u8>) -> Seq<u8> {
    s + zeros(pad8_len(s.len() as int))
}

/// Pads `buf` with zeros to a multiple of 8 bytes.
pub fn pad8(buf: &mut Vec<u8>)
    ensures
        final(buf)@ == padded8(old(buf)@),
        final(buf)@.len() % 8 == 0,
{
    let n: usize = (8 - buf.len() % 8) % 8;
    push_zeros(buf, n);
}

/// Reading a 16-bit field back gives the value that was written.
pub proof fn lemma_le16_round_trip(v: u16)
    ensures
        le16(v).len() == 2,
        u16_at(le16(v), 0) == v,
{
    reveal(u16_at);
}

/// Reading a 32-bit field back gives the value that was written.
pub proof fn lemma_le32_round_trip(v: u32)
    ensures
        le32(v).len() == 4,
        u32_at(le32(v), 0) == v,
{
    reveal(u32_at);
}

/// Reading a 64-bit field back gives the value that was written.
pub proof fn lemma_le64_round_trip(v: u64)
    ensures
        le64(v).len() == 8,
        u64_at(le64(v), 0) == v,
{
    reveal(u32_at);
    reveal(u64_at);
    let lo = (v % 0x1_0000_0000) as u32;
    let hi = (v / 0x1_0000_0000) as u32;
    lemma_le32_round_trip(lo);
    lemma_le32_round_trip(hi);
    assert(u32_at(le64(v), 0) == u32_at(le32(lo), 0));
    assert(u32_at(le64(v), 4) == u32_at(le32(hi), 0));
}

/// Appending is associative.
pub proof fn lemma_assoc(a: Seq<u8>, b: Seq<u8>, c: Seq<u8>)
    ensures
        (a + b) + c == a + (b + c),
{
    assert((a + b) + c =~= a + (b + c));
}

/// Appending three pieces one by one.
pub proof fn lemma_assoc3(a: Seq<u8>, b: Seq<u8>, x: Seq<u8>, y: Seq<u8>, z: Seq<u8>)
    ensures
        (((a + b) + x) + y) + z == a + (((b + x) + y) + z),
{
    assert((((a + b) + x) + y) + z =~= a + (((b + x) + y) + z));
}

/// Nothing in front changes nothing.
pub proof fn lemma_empty_left(a: Seq<u8>)
    ensures
        Seq::<u8>::empty() + a == a,
{
    assert(Seq::<u8>::empty() + a =~= a);
}

/// Nothing behind changes nothing.
pub proof fn lemma_empty_right(a: Seq<u8>)
    ensures
        a + Seq::<u8>::empty() == a,
{
    assert(a + Seq::<u8>::empty() =~= a);
}

/// Cutting to 64 bits first does not change the low 32 bits.
pub proof fn lemma_word32_word64(v: int)
    ensures
        word32(word64(v) as int) == word32(v),
{
    reveal(word32);
    reveal(word64);
    vstd::arithmetic::div_mod::lemma_mod_mod(v, 0x1_0000_0000, 0x1_0000_0000);
}

/// Cutting a summand to 64 bits does not change the sum's low 64 bits.
pub proof fn lemma_word64_sum(a: int, b: int)
    ensures
        word64(word64(a) + b) == word64(a + b),
{
    reveal(word64);
    vstd::arithmetic::div_mod::lemma_add_mod_noop_right(b, a, 0x1_0000_0000_0000_0000);
}

/// The byte stands where it is found.
pub proof fn lemma_found(s: Seq<u8>, byte: u8, from: int)
    requires
        0 <= from <= s.len(),
    ensures
        index_of_byte(s, byte, from) < s.len() ==> s[index_of_byte(s, byte, from)] == byte,
    decreases s.len() - from,
{
    if from < s.len() && s[from] != byte {
        lemma_found(s, byte, from + 1);
    }
}

/// True when `needle` stands somewhere in `s`.
pub open spec fn has_part(s: Seq<u8>, needle: Seq<u8>) -> bool {
    exists|at: int| 0 <= at && #[trigger] occurs_at(s, needle, at)
}

/// Tests whether `needle` stands somewhere in `s`.
pub fn contains(s: &[u8], needle: &[u8]) -> (r: bool)
    ensures
        r == has_part(s@, needle@),
{
    match find_from(s, needle, 0) {
        Some(at) => {
            assert(occurs_at(s@, needle@, at as int));
            true
        },
        None => false,
    }
}

} // verus!
