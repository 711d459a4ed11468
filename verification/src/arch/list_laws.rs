//! Applying a list of relocations is applying each of them.
use super::arm64::{self, Arm64};
use super::x86_64::{self, X86_64};
use super::{ApplyError, Arch, ResolvedReloc};
use crate::util::bytes;
use vstd::prelude::*;

verus! {

/// Where the bytes of a relocation start.
pub open spec fn arm64_low(x: ResolvedReloc) -> int {
    x.rel.offset as int
}

/// Where the bytes of a relocation end.
pub open spec fn arm64_high(x: ResolvedReloc) -> int {
    x.rel.offset + if x.rel.r_type == 0 {
        8int
    } else {
        4
    }
}

/// What one relocation makes of a section's bytes.
spec fn arm64_one(x: ResolvedReloc, base: u64, tls: u64, b: Seq<u8>) -> Result<Seq<u8>, ApplyError> {
    match arm64::apply_one(seq![x], 0, base, tls, b) {
        Ok((c, _)) => Ok(c),
        Err(e) => Err(e),
    }
}

proof fn lemma_arm64_alone(rels: Seq<ResolvedReloc>, i: int, base: u64, tls: u64, b: Seq<u8>)
    requires
        0 <= i < rels.len(),
        rels[i].rel.r_type != 1,
    ensures
        arm64::apply_one(rels, i, base, tls, b) == match arm64_one(rels[i], base, tls, b) {
            Ok(c) => Ok::<(Seq<u8>, int), ApplyError>((c, i + 1)),
            Err(e) => Err(e),
        },
        Arm64::applied(seq![rels[i]], base, tls, b) == arm64_one(rels[i], base, tls, b),
{
    reveal(arm64::apply_one);
    let x = rels[i];
    let single = seq![x];
    if let Ok((c, _)) = arm64::apply_one(single, 0, base, tls, b) {
        assert(arm64::apply_from(single, 1, base, tls, c) == Ok::<Seq<u8>, ApplyError>(c));
    }
}

/// A relocation reads and writes its own bytes alone.
proof fn lemma_arm64_local(x: ResolvedReloc, base: u64, tls: u64, b: Seq<u8>, d: Seq<u8>)
    requires
        x.rel.r_type != 1,
        0 <= arm64_low(x),
        arm64_high(x) <= b.len(),
        b.len() == d.len(),
        forall|k: int| arm64_low(x) <= k < arm64_high(x) ==> #[trigger] b[k] == d[k],
    ensures
        arm64_one(x, base, tls, b) is Ok <==> arm64_one(x, base, tls, d) is Ok,
        arm64_one(x, base, tls, b) matches Ok(c) ==> c.len() == b.len() && (forall|k: int|
            0 <= k < b.len() && !(arm64_low(x) <= k < arm64_high(x)) ==> #[trigger] c[k] == b[k]) && (
        forall|k: int|
            arm64_low(x) <= k < arm64_high(x) ==> #[trigger] c[k] == arm64_one(x, base, tls, d)->Ok_0[k]),
{
    reveal(arm64::apply_one);
    reveal(bytes::u32_at);
    let off = x.rel.offset as int;
    let p = bytes::word64(base + x.rel.offset);
    let sa = bytes::word64(x.s + x.rel.addend);
    if x.rel.r_type == 0 {
        bytes::lemma_patched_len(b, off, bytes::le64(sa));
        bytes::lemma_patched_len(d, off, bytes::le64(sa));
        bytes::lemma_patched_len(b, off, bytes::le64(bytes::word64(sa - tls)));
        bytes::lemma_patched_len(d, off, bytes::le64(bytes::word64(sa - tls)));
    } else {
        assert(bytes::u32_at(b, off) == bytes::u32_at(d, off));
        if let Ok(w) = arm64::relocated_insn(x, bytes::u32_at(b, off), p) {
            bytes::lemma_patched_len(b, off, bytes::le32(w));
            bytes::lemma_patched_len(d, off, bytes::le32(w));
        }
    }
}

/// True when the bytes of relocations lie in the section and apart from one
/// another.
pub open spec fn arm64_apart(rels: Seq<ResolvedReloc>, n: int) -> bool {
    &&& forall|i: int|
        0 <= i < rels.len() ==> (#[trigger] rels[i]).rel.r_type != 1 && 0 <= arm64_low(rels[i])
            && arm64_high(rels[i]) <= n
    &&& forall|i: int, j: int|
        0 <= i < j < rels.len() ==> arm64_high(#[trigger] rels[i]) <= arm64_low(#[trigger] rels[j]) || arm64_high(
            rels[j],
        ) <= arm64_low(rels[i])
}

proof fn lemma_arm64_from(
    rels: Seq<ResolvedReloc>,
    i: int,
    base: u64,
    tls: u64,
    b: Seq<u8>,
    d: Seq<u8>,
    j: int,
)
    requires
        0 <= i <= rels.len(),
        b.len() == d.len(),
        arm64_apart(rels, d.len() as int),
        forall|m: int, k: int|
            i <= m < rels.len() && arm64_low(#[trigger] rels[m]) <= k < arm64_high(rels[m])
                ==> #[trigger] b[k] == d[k],
        arm64::apply_from(rels, i, base, tls, b) is Ok,
        0 <= j < rels.len(),
    ensures
        ({
            let c = arm64::apply_from(rels, i, base, tls, b)->Ok_0;
            &&& c.len() == d.len()
            &&& j >= i ==> arm64_one(rels[j], base, tls, d) is Ok
            &&& j >= i ==> forall|k: int|
                arm64_low(rels[j]) <= k < arm64_high(rels[j]) ==> #[trigger] c[k] == arm64_one(
                    rels[j],
                    base,
                    tls,
                    d,
                )->Ok_0[k]
            &&& j < i ==> forall|k: int|
                arm64_low(rels[j]) <= k < arm64_high(rels[j]) ==> #[trigger] c[k] == b[k]
        }),
    decreases rels.len() - i,
{
    if i < rels.len() {
        lemma_arm64_alone(rels, i, base, tls, b);
        lemma_arm64_local(rels[i], base, tls, b, d);
        let next = arm64_one(rels[i], base, tls, b)->Ok_0;
        assert forall|m: int, k: int|
            i + 1 <= m < rels.len() && arm64_low(#[trigger] rels[m]) <= k < arm64_high(
                rels[m],
            ) implies #[trigger] next[k] == d[k] by {
            assert(arm64_high(rels[i]) <= arm64_low(rels[m]) || arm64_high(rels[m]) <= arm64_low(rels[i]));
            assert(b[k] == d[k]);
        }
        lemma_arm64_from(rels, i + 1, base, tls, next, d, j);
        if j < i {
            assert(arm64_high(rels[j]) <= arm64_low(rels[i]) || arm64_high(rels[i]) <= arm64_low(rels[j]));
        }
    }
}

/// Every relocation of a list is applied as if it were alone: where their
/// bytes lie apart, each one's bytes end up as applying it alone to the
/// section makes them.
pub proof fn lemma_arm64_each_applied(rels: Seq<ResolvedReloc>, base: u64, tls: u64, b: Seq<u8>, j: int)
    requires
        arm64_apart(rels, b.len() as int),
        0 <= j < rels.len(),
        Arm64::applied(rels, base, tls, b) is Ok,
    ensures
        Arm64::applied(seq![rels[j]], base, tls, b) is Ok,
        Arm64::applied(rels, base, tls, b)->Ok_0.len() == b.len(),
        forall|k: int|
            arm64_low(rels[j]) <= k < arm64_high(rels[j]) ==> #[trigger] Arm64::applied(
                rels,
                base,
                tls,
                b,
            )->Ok_0[k] == Arm64::applied(seq![rels[j]], base, tls, b)->Ok_0[k],
{
    lemma_arm64_from(rels, 0, base, tls, b, b, j);
    lemma_arm64_alone(rels, j, base, tls, b);
}

/// Where the bytes of a relocation start.
pub open spec fn x86_64_low(x: ResolvedReloc) -> int {
    if (x.rel.r_type == 3 || x.rel.r_type == 9) && x.rel.offset >= 2 {
        x.rel.offset - 2
    } else {
        x.rel.offset as int
    }
}

/// Where the bytes of a relocation end.
pub open spec fn x86_64_high(x: ResolvedReloc) -> int {
    x.rel.offset + if x.rel.r_type == 0 {
        8int
    } else {
        4
    }
}

/// What one relocation makes of a section's bytes.
spec fn x86_64_one(x: ResolvedReloc, base: u64, tls: u64, b: Seq<u8>) -> Result<Seq<u8>, ApplyError> {
    match x86_64::apply_one(seq![x], 0, base, tls, b) {
        Ok((c, _)) => Ok(c),
        Err(e) => Err(e),
    }
}

proof fn lemma_x86_64_alone(rels: Seq<ResolvedReloc>, i: int, base: u64, tls: u64, b: Seq<u8>)
    requires
        0 <= i < rels.len(),
        rels[i].rel.r_type != 5,
    ensures
        x86_64::apply_one(rels, i, base, tls, b) == match x86_64_one(rels[i], base, tls, b) {
            Ok(c) => Ok::<(Seq<u8>, int), ApplyError>((c, i + 1)),
            Err(e) => Err(e),
        },
        X86_64::applied(seq![rels[i]], base, tls, b) == x86_64_one(rels[i], base, tls, b),
{
    reveal(x86_64::apply_one);
    let x = rels[i];
    let single = seq![x];
    if let Ok((c, _)) = x86_64::apply_one(single, 0, base, tls, b) {
        assert(x86_64::apply_from(single, 1, base, tls, c) == Ok::<Seq<u8>, ApplyError>(c));
    }
}

/// A relocation reads and writes its own bytes alone.
proof fn lemma_x86_64_local(x: ResolvedReloc, base: u64, tls: u64, b: Seq<u8>, d: Seq<u8>)
    requires
        x.rel.r_type != 5,
        0 <= x86_64_low(x),
        x86_64_high(x) <= b.len(),
        b.len() == d.len(),
        forall|k: int| x86_64_low(x) <= k < x86_64_high(x) ==> #[trigger] b[k] == d[k],
    ensures
        x86_64_one(x, base, tls, b) is Ok <==> x86_64_one(x, base, tls, d) is Ok,
        x86_64_one(x, base, tls, b) matches Ok(c) ==> c.len() == b.len() && (forall|k: int|
            0 <= k < b.len() && !(x86_64_low(x) <= k < x86_64_high(x)) ==> #[trigger] c[k] == b[k]) && (
        forall|k: int|
            x86_64_low(x) <= k < x86_64_high(x) ==> #[trigger] c[k] == x86_64_one(x, base, tls, d)->Ok_0[k]),
{
    reveal(x86_64::apply_one);
    reveal(bytes::u32_at);
    let off = x.rel.offset as int;
    let p = bytes::word64(base + x.rel.offset);
    let sa = bytes::word64(x.s + x.rel.addend);
    if x.rel.r_type == 0 {
        bytes::lemma_patched_len(b, off, bytes::le64(sa));
        bytes::lemma_patched_len(d, off, bytes::le64(sa));
        bytes::lemma_patched_len(b, off, bytes::le64(bytes::word64(sa - tls)));
        bytes::lemma_patched_len(d, off, bytes::le64(bytes::word64(sa - tls)));
    } else {
        let relaxed = x86_64::relaxes(x, b);
        assert(relaxed == x86_64::relaxes(x, d)) by {
            if (x.rel.r_type == 3 || x.rel.r_type == 9) && off >= 2 {
                assert(b[off - 2] == d[off - 2]);
            }
        }
        if let Ok(w) = x86_64::relocated_word(x, relaxed, p) {
            let b1 = if relaxed {
                b.update(off - 2, 0x8du8)
            } else {
                b
            };
            let d1 = if relaxed {
                d.update(off - 2, 0x8du8)
            } else {
                d
            };
            bytes::lemma_patched_len(b1, off, bytes::le32(w));
            bytes::lemma_patched_len(d1, off, bytes::le32(w));
        }
    }
}

/// True when the bytes of relocations lie in the section and apart from one
/// another.
pub open spec fn x86_64_apart(rels: Seq<ResolvedReloc>, n: int) -> bool {
    &&& forall|i: int|
        0 <= i < rels.len() ==> (#[trigger] rels[i]).rel.r_type != 5 && 0 <= x86_64_low(rels[i])
            && x86_64_high(rels[i]) <= n
    &&& forall|i: int, j: int|
        0 <= i < j < rels.len() ==> x86_64_high(#[trigger] rels[i]) <= x86_64_low(#[trigger] rels[j]) || x86_64_high(
            rels[j],
        ) <= x86_64_low(rels[i])
}

proof fn lemma_x86_64_from(
    rels: Seq<ResolvedReloc>,
    i: int,
    base: u64,
    tls: u64,
    b: Seq<u8>,
    d: Seq<u8>,
    j: int,
)
    requires
        0 <= i <= rels.len(),
        b.len() == d.len(),
        x86_64_apart(rels, d.len() as int),
        forall|m: int, k: int|
            i <= m < rels.len() && x86_64_low(#[trigger] rels[m]) <= k < x86_64_high(rels[m])
                ==> #[trigger] b[k] == d[k],
        x86_64::apply_from(rels, i, base, tls, b) is Ok,
        0 <= j < rels.len(),
    ensures
        ({
            let c = x86_64::apply_from(rels, i, base, tls, b)->Ok_0;
            &&& c.len() == d.len()
            &&& j >= i ==> x86_64_one(rels[j], base, tls, d) is Ok
            &&& j >= i ==> forall|k: int|
                x86_64_low(rels[j]) <= k < x86_64_high(rels[j]) ==> #[trigger] c[k] == x86_64_one(
                    rels[j],
                    base,
                    tls,
                    d,
                )->Ok_0[k]
            &&& j < i ==> forall|k: int|
                x86_64_low(rels[j]) <= k < x86_64_high(rels[j]) ==> #[trigger] c[k] == b[k]
        }),
    decreases rels.len() - i,
{
    if i < rels.len() {
        lemma_x86_64_alone(rels, i, base, tls, b);
        lemma_x86_64_local(rels[i], base, tls, b, d);
        let next = x86_64_one(rels[i], base, tls, b)->Ok_0;
        assert forall|m: int, k: int|
            i + 1 <= m < rels.len() && x86_64_low(#[trigger] rels[m]) <= k < x86_64_high(
                rels[m],
            ) implies #[trigger] next[k] == d[k] by {
            assert(x86_64_high(rels[i]) <= x86_64_low(rels[m]) || x86_64_high(rels[m]) <= x86_64_low(rels[i]));
            assert(b[k] == d[k]);
        }
        lemma_x86_64_from(rels, i + 1, base, tls, next, d, j);
        if j < i {
            assert(x86_64_high(rels[j]) <= x86_64_low(rels[i]) || x86_64_high(rels[i]) <= x86_64_low(rels[j]));
        }
    }
}

/// Every relocation of a list is applied as if it were alone: where their
/// bytes lie apart, each one's bytes end up as applying it alone to the
/// section makes them.
pub proof fn lemma_x86_64_each_applied(rels: Seq<ResolvedReloc>, base: u64, tls: u64, b: Seq<u8>, j: int)
    requires
        x86_64_apart(rels, b.len() as int),
        0 <= j < rels.len(),
        X86_64::applied(rels, base, tls, b) is Ok,
    ensures
        X86_64::applied(seq![rels[j]], base, tls, b) is Ok,
        X86_64::applied(rels, base, tls, b)->Ok_0.len() == b.len(),
        forall|k: int|
            x86_64_low(rels[j]) <= k < x86_64_high(rels[j]) ==> #[trigger] X86_64::applied(
                rels,
                base,
                tls,
                b,
            )->Ok_0[k] == X86_64::applied(seq![rels[j]], base, tls, b)->Ok_0[k],
{
    lemma_x86_64_from(rels, 0, base, tls, b, b, j);
    lemma_x86_64_alone(rels, j, base, tls, b);
}

} // verus!
