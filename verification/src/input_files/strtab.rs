//! String tables.
use crate::macho::NList;
use crate::util::bytes;
use vstd::prelude::*;
use vstd::utf8;

verus! {

/// The length of the longest prefix of `s` that is valid UTF-8.
pub open spec fn valid_up_to(s: Seq<u8>) -> int
    decreases s.len(),
{
    if s.len() == 0 || !utf8::valid_first_scalar(s) {
        0
    } else {
        let n = utf8::length_of_first_scalar(s);
        n + valid_up_to(s.subrange(n, s.len() as int))
    }
}

/// The length of the scalar value encoded at `pos`, or 0 if none is.
fn scalar_len(s: &[u8], pos: usize) -> (r: usize)
    requires
        pos < s.len(),
    ensures
        ({
            let t = s@.skip(pos as int);
            if utf8::valid_first_scalar(t) {
                r == utf8::length_of_first_scalar(t) && pos + r <= s.len()
            } else {
                r == 0
            }
        }),
{
    let ghost t = s@.skip(pos as int);
    let b1: u8 = s[pos];
    assert(t[0] == b1);
    let left: usize = s.len() - pos;
    if b1 <= 0x7f {
        assert((b1 & 0x7f) as u32 <= 0x7f) by (bit_vector);
        return 1;
    }
    if b1 < 0xc0 || b1 > 0xf7 || left < 2 {
        return 0;
    }
    let b2: u8 = s[pos + 1];
    assert(t[1] == b2);
    if b2 < 0x80 || b2 > 0xbf {
        return 0;
    }
    if b1 <= 0xdf {
        let c: u32 = (((b1 & 0x1f) as u32) << 6) | ((b2 & 0x3f) as u32);
        assert(c <= 0x7ff) by (bit_vector)
            requires
                c == (((b1 & 0x1f) as u32) << 6) | ((b2 & 0x3f) as u32),
        ;
        return if 0x80 <= c {
            2
        } else {
            0
        };
    }
    if left < 3 {
        return 0;
    }
    let b3: u8 = s[pos + 2];
    assert(t[2] == b3);
    if b3 < 0x80 || b3 > 0xbf {
        return 0;
    }
    if b1 <= 0xef {
        let c: u32 = (((b1 & 0x0f) as u32) << 12) | (((b2 & 0x3f) as u32) << 6) | ((b3
            & 0x3f) as u32);
        return if 0x800 <= c && !(0xd800 <= c && c <= 0xdfff) {
            3
        } else {
            0
        };
    }
    if left < 4 {
        return 0;
    }
    let b4: u8 = s[pos + 3];
    assert(t[3] == b4);
    if b4 < 0x80 || b4 > 0xbf {
        return 0;
    }
    let c: u32 = (((b1 & 0x07) as u32) << 18) | (((b2 & 0x3f) as u32) << 12) | (((b3
        & 0x3f) as u32) << 6) | ((b4 & 0x3f) as u32);
    if 0x10000 <= c && c <= 0x10ffff {
        4
    } else {
        0
    }
}

/// Counts the bytes up to the first that is not valid UTF-8.
pub fn count_valid(s: &[u8]) -> (r: usize)
    ensures
        r == valid_up_to(s@),
{
    let mut pos: usize = 0;
    assert(s@.skip(0) =~= s@);
    while pos < s.len()
        invariant
            pos <= s.len(),
            valid_up_to(s@) == pos + valid_up_to(s@.skip(pos as int)),
        decreases s.len() - pos,
    {
        let n: usize = scalar_len(s, pos);
        let ghost t = s@.skip(pos as int);
        if n == 0 {
            return pos;
        }
        proof {
            assert(t.subrange(n as int, t.len() as int) =~= s@.skip(pos + n));
        }
        pos += n;
    }
    pos
}

/// The string table as far as it can be used: all of it if it is UTF-8, and
/// nothing otherwise.
pub open spec fn validated(strtab: Seq<u8>) -> Seq<u8> {
    if valid_up_to(strtab) == strtab.len() {
        strtab
    } else {
        Seq::empty()
    }
}

/// A table that can be used is valid UTF-8, and one that is valid UTF-8 can be
/// used as it is.
pub proof fn lemma_validated(strtab: Seq<u8>)
    ensures
        utf8::valid_utf8(validated(strtab)),
        utf8::valid_utf8(strtab) ==> validated(strtab) == strtab,
{
    lemma_valid_up_to(strtab);
}

proof fn lemma_valid_up_to(s: Seq<u8>)
    ensures
        0 <= valid_up_to(s) <= s.len(),
        valid_up_to(s) == s.len() <==> utf8::valid_utf8(s),
    decreases s.len(),
{
    if s.len() > 0 && utf8::valid_first_scalar(s) {
        let n = utf8::length_of_first_scalar(s);
        let rest = s.subrange(n, s.len() as int);
        lemma_valid_up_to(rest);
        assert(utf8::pop_first_scalar(s) =~= rest);
    }
}

/// Checks a whole string table as UTF-8 once. Returns an empty table, in
/// which every name is "", if it is not.
pub fn validate_strtab(strtab: &[u8]) -> (r: &[u8])
    ensures
        r@ == validated(strtab@),
{
    if count_valid(strtab) == strtab.len() {
        strtab
    } else {
        let r = vstd::slice::slice_subrange(strtab, 0, 0);
        assert(r@ =~= Seq::<u8>::empty());
        r
    }
}

/// The NUL-terminated name at an offset of a string table; empty when the
/// offset is out of range.
pub open spec fn name_at(strtab: Seq<u8>, strx: u32) -> Seq<u8> {
    if strx >= strtab.len() {
        Seq::empty()
    } else {
        bytes::until_nul(strtab.skip(strx as int))
    }
}

/// Extracts one NUL-terminated name from a string table.
pub fn symbol_name(strtab: &[u8], nlist: &NList) -> (r: Vec<u8>)
    ensures
        r@ == name_at(strtab@, nlist.n_strx),
{
    let off: usize = nlist.n_strx as usize;
    if off >= strtab.len() {
        return Vec::new();
    }
    let end: usize = bytes::find_byte(strtab, 0, off);
    proof {
        lemma_index_skip(strtab@, off as int, off as int);
        assert(strtab@.subrange(off as int, end as int) =~= strtab@.skip(off as int).take(
            end - off,
        ));
    }
    bytes::copy_range(strtab, off, end)
}

/// Searching a tail finds what searching from the tail's start does.
pub proof fn lemma_index_skip(s: Seq<u8>, off: int, from: int)
    requires
        0 <= off <= from <= s.len(),
    ensures
        bytes::index_of_byte(s, 0, from) == off + bytes::index_of_byte(s.skip(off), 0, from - off),
    decreases s.len() - from,
{
    if from < s.len() && s[from] != 0 {
        lemma_index_skip(s, off, from + 1);
    }
}

} // verus!
