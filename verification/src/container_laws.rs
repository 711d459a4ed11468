//! What is laid down in an archive or a universal file is read back.
use crate::archive_file::{field, is_index, member_at, members_from};
use crate::filetype::{fat_slice, FatError};
use crate::input_files::strtab::valid_up_to;
use crate::mapped_file::MappedView;
use crate::util::number_laws::lemma_decimal_reads_back;
use crate::util::{bytes, numbers, text};
use vstd::prelude::*;
use vstd::string::*;

verus! {

/// True when a header field at `off` holds a text, filled up with spaces.
pub open spec fn padded_at(data: Seq<u8>, off: int, width: int, s: Seq<u8>) -> bool {
    &&& 0 <= off
    &&& s.len() <= width
    &&& off + width <= data.len()
    &&& forall|k: int| 0 <= k < s.len() ==> #[trigger] data[off + k] == s[k]
    &&& forall|k: int| s.len() <= k < width ==> #[trigger] data[off + k] == 0x20
}

/// True for ASCII text that does not end in a blank.
pub open spec fn is_plain(s: Seq<u8>) -> bool {
    &&& forall|k: int| 0 <= k < s.len() ==> #[trigger] s[k] < 0x80
    &&& s.len() > 0 ==> s.last() > 0x20
}

proof fn lemma_ascii(s: Seq<u8>)
    requires
        forall|k: int| 0 <= k < s.len() ==> #[trigger] s[k] < 0x80,
    ensures
        text::is_text(s),
    decreases s.len(),
{
    if s.len() > 0 {
        assert(s[0] < 0x80);
        let rest = s.subrange(1, s.len() as int);
        lemma_ascii(rest);
        assert(valid_up_to(rest) == rest.len());
    }
}

proof fn lemma_trimmed(s: Seq<u8>, t: Seq<u8>)
    requires
        is_plain(s),
        s.len() <= t.len(),
        t.take(s.len() as int) == s,
        forall|k: int| s.len() <= k < t.len() ==> #[trigger] t[k] == 0x20,
    ensures
        text::trim_end(t) == s,
    decreases t.len(),
{
    if t.len() > s.len() {
        let u = t.take(t.len() - 1);
        assert(t[t.len() - 1] == 0x20);
        assert(text::ws_tail(t) == 1);
        assert(u.take(s.len() as int) =~= t.take(s.len() as int));
        lemma_trimmed(s, u);
    } else {
        assert(t =~= s);
        if s.len() > 0 {
            assert(s[s.len() - 1] < 0x80);
        }
    }
}

proof fn lemma_field(data: Seq<u8>, off: int, width: int, s: Seq<u8>)
    requires
        padded_at(data, off, width, s),
        is_plain(s),
    ensures
        field(data, off, off + width) == s,
{
    let f = data.subrange(off, off + width);
    assert forall|k: int| 0 <= k < f.len() implies #[trigger] f[k] < 0x80 by {
        assert(f[k] == data[off + k]);
    }
    assert forall|k: int| s.len() <= k < f.len() implies #[trigger] f[k] == 0x20 by {
        assert(f[k] == data[off + k]);
    }
    assert forall|k: int| 0 <= k < s.len() implies #[trigger] f.take(s.len() as int)[k] == s[k] by {
        assert(f[k] == data[off + k]);
    }
    assert(f.take(s.len() as int) =~= s);
    lemma_ascii(f);
    lemma_trimmed(s, f);
}

proof fn lemma_size(n: int)
    requires
        0 <= n <= usize::MAX,
    ensures
        is_plain(numbers::decimal(n)),
        text::parsed(numbers::decimal(n), 10, usize::MAX as int) == Some(n),
{
    lemma_decimal_reads_back(n);
    let s = numbers::decimal(n);
    assert(0x30 <= s[0] <= 0x39);
    assert(0x30 <= s[s.len() - 1] <= 0x39);
}

/// Reading an archive from a member on gives that member, under its name in
/// brackets behind the archive's and with its contents, and then what reading
/// from the next even offset gives.
pub proof fn lemma_member_reads_back(
    data: Seq<u8>,
    archive: Seq<u8>,
    off: int,
    acc: Seq<MappedView>,
    name: Seq<u8>,
    contents: Seq<u8>,
)
    requires
        is_plain(name),
        !bytes::has_prefix(name, "#1/".spec_bytes()),
        !bytes::has_prefix(name, "__.SYMDEF".spec_bytes()),
        padded_at(data, off, 16, name),
        padded_at(data, off + 48, 10, numbers::decimal(contents.len() as int)),
        off + 60 + contents.len() <= data.len() <= usize::MAX,
        data.subrange(off + 60, off + 60 + contents.len()) == contents,
    ensures
        members_from(data, archive, off, acc) == members_from(
            data,
            archive,
            if (off + contents.len()) % 2 == 0 {
                off + 60 + contents.len()
            } else {
                off + 60 + contents.len() + 1
            },
            acc.push(
                MappedView {
                    name: archive + seq![0x28u8] + name + seq![0x29u8],
                    data: contents,
                    parent: Some(archive),
                },
            ),
        ),
{
    let n = contents.len() as int;
    lemma_field(data, off, 16, name);
    lemma_size(n);
    lemma_field(data, off + 48, 10, numbers::decimal(n));
    assert(crate::mapped_file::bracketed(archive, name) =~= archive + seq![0x28u8] + name
        + seq![0x29u8]);
    assert(member_at(data, off) is Ok);
}

/// A member whose header says that a name of some bytes stands in front of
/// its contents is read under that name, up to its first zero byte, with what
/// follows the name as its contents.
pub proof fn lemma_long_name_reads_back(
    data: Seq<u8>,
    archive: Seq<u8>,
    off: int,
    acc: Seq<MappedView>,
    name: Seq<u8>,
    contents: Seq<u8>,
)
    requires
        padded_at(data, off, 16, "#1/".spec_bytes() + numbers::decimal(name.len() as int)),
        padded_at(data, off + 48, 10, numbers::decimal((name.len() + contents.len()) as int)),
        off + 60 + name.len() + contents.len() <= data.len() <= usize::MAX,
        data.subrange(off + 60, off + 60 + name.len() + contents.len()) == name + contents,
        !bytes::has_prefix(text::lossy(bytes::until_nul(name)), "__.SYMDEF".spec_bytes()),
    ensures
        members_from(data, archive, off, acc) == members_from(
            data,
            archive,
            if (off + name.len() + contents.len()) % 2 == 0 {
                off + 60 + name.len() + contents.len()
            } else {
                off + 60 + name.len() + contents.len() + 1
            },
            acc.push(
                MappedView {
                    name: archive + seq![0x28u8] + text::lossy(bytes::until_nul(name))
                        + seq![0x29u8],
                    data: contents,
                    parent: Some(archive),
                },
            ),
        ),
{
    let len = name.len() as int;
    let n = len + contents.len();
    let lead = "#1/".spec_bytes();
    let head = lead + numbers::decimal(len);
    lemma_size(len);
    lemma_size(n);
    assert(lead =~= seq![0x23u8, 0x31u8, 0x2fu8]) by {
        reveal_strlit("#1/");
        is_ascii_spec_bytes("#1/");
    }
    assert forall|k: int| 0 <= k < head.len() implies #[trigger] head[k] < 0x80 by {
        if k >= 3 {
            assert(head[k] == numbers::decimal(len)[k - 3]);
        }
    }
    assert(head.last() == numbers::decimal(len).last());
    lemma_field(data, off, 16, head);
    lemma_field(data, off + 48, 10, numbers::decimal(n));
    assert(head.take(lead.len() as int) =~= lead);
    assert(head.skip(lead.len() as int) =~= numbers::decimal(len));
    let all = data.subrange(off + 60, off + 60 + n);
    assert(data.subrange(off + 60, off + 60 + len) =~= all.take(len));
    assert((name + contents).take(len) =~= name);
    assert(data.subrange(off + 60 + len, off + 60 + n) =~= all.skip(len));
    assert((name + contents).skip(len) =~= contents);
    let shown = text::lossy(bytes::until_nul(name));
    assert(crate::mapped_file::bracketed(archive, shown) =~= archive + seq![0x28u8] + shown
        + seq![0x29u8]);
    assert(!is_index(shown));
}

/// The big-endian number in four bytes.
pub open spec fn big_endian(data: Seq<u8>, off: int) -> int {
    ((data[off] * 256 + data[off + 1]) * 256 + data[off + 2]) * 256 + data[off + 3]
}

/// The slice of a universal file for a CPU type is where the first entry of
/// that type says, if that lies in the file.
pub proof fn lemma_first_slice_found(data: Seq<u8>, cputype: u32, n: int, k: int)
    requires
        0 <= k < n,
        8 + 20 * n <= data.len(),
        forall|i: int| 0 <= i < k ==> #[trigger] big_endian(data, 8 + 20 * i) != cputype,
        big_endian(data, 8 + 20 * k) == cputype,
    ensures
        ({
            let off = big_endian(data, 8 + 20 * k + 8);
            let size = big_endian(data, 8 + 20 * k + 12);
            match fat_slice(data, cputype, n, 0) {
                Ok(p) => off + size <= data.len() && p.0 == off && p.1 == size,
                Err(e) => off + size > data.len() && e == FatError::Malformed,
            }
        }),
{
    lemma_slice_from(data, cputype, n, k, 0);
}

proof fn lemma_slice_from(data: Seq<u8>, cputype: u32, n: int, k: int, i: int)
    requires
        0 <= i <= k < n,
        8 + 20 * n <= data.len(),
        forall|j: int| 0 <= j < k ==> #[trigger] big_endian(data, 8 + 20 * j) != cputype,
    ensures
        fat_slice(data, cputype, n, i) == fat_slice(data, cputype, n, k),
    decreases k - i,
{
    if i < k {
        assert(big_endian(data, 8 + 20 * i) != cputype);
        lemma_slice_from(data, cputype, n, k, i + 1);
    }
}

/// A universal file without an entry of a CPU type has no slice for it.
pub proof fn lemma_no_slice(data: Seq<u8>, cputype: u32, n: int, i: int)
    requires
        0 <= i <= n,
        8 + 20 * n <= data.len(),
        forall|j: int| i <= j < n ==> #[trigger] big_endian(data, 8 + 20 * j) != cputype,
    ensures
        fat_slice(data, cputype, n, i) == Err::<(u32, u32), FatError>(FatError::NoSlice),
    decreases n - i,
{
    if i < n {
        assert(big_endian(data, 8 + 20 * i) != cputype);
        lemma_no_slice(data, cputype, n, i + 1);
    }
}

} // verus!
