//! The auto-link requests that a relocatable output carries on.
use crate::input_files::ObjectFile;
use crate::macho::consts::LC_LINKER_OPTION;
use crate::util::{self, bytes};
use vstd::prelude::*;

verus! {

/// A list of requests.
pub open spec fn request_views(v: Seq<&Vec<Vec<u8>>>) -> Seq<Seq<Seq<u8>>> {
    v.map_values(|o: &Vec<Vec<u8>>| bytes::views(o@))
}

/// A list with the first `k` requests of an object added, each once.
pub open spec fn with_requests(acc: Seq<Seq<Seq<u8>>>, opts: Seq<Vec<Vec<u8>>>, k: int) -> Seq<
    Seq<Seq<u8>>,
>
    decreases k,
{
    if k <= 0 {
        acc
    } else {
        let before = with_requests(acc, opts, k - 1);
        let o = bytes::views(opts[k - 1]@);
        if before.contains(o) {
            before
        } else {
            before.push(o)
        }
    }
}

/// The distinct requests of the first `n` objects, as far as these are live,
/// in the order in which they are first seen.
pub open spec fn requests_to(objs: Seq<ObjectFile>, n: int) -> Seq<Seq<Seq<u8>>>
    decreases n,
{
    if n <= 0 {
        Seq::empty()
    } else if objs[n - 1].is_alive {
        with_requests(
            requests_to(objs, n - 1),
            objs[n - 1].linker_options@,
            objs[n - 1].linker_options.len() as int,
        )
    } else {
        requests_to(objs, n - 1)
    }
}

/// Tests whether two requests are the same.
fn same_request(a: &Vec<Vec<u8>>, b: &Vec<Vec<u8>>) -> (r: bool)
    ensures
        r == (bytes::views(a@) == bytes::views(b@)),
{
    let ghost va = bytes::views(a@);
    let ghost vb = bytes::views(b@);
    if a.len() != b.len() {
        assert(va.len() != vb.len());
        return false;
    }
    let mut i: usize = 0;
    while i < a.len()
        invariant
            i <= a.len(),
            a.len() == b.len(),
            va == bytes::views(a@),
            vb == bytes::views(b@),
            forall|j: int| 0 <= j < i ==> #[trigger] va[j] == vb[j],
        decreases a.len() - i,
    {
        if !bytes::same(a[i].as_slice(), b[i].as_slice()) {
            assert(va[i as int] != vb[i as int]);
            return false;
        }
        i += 1;
    }
    assert(va =~= vb);
    true
}

fn holds_request(list: &Vec<&Vec<Vec<u8>>>, o: &Vec<Vec<u8>>) -> (r: bool)
    ensures
        r == request_views(list@).contains(bytes::views(o@)),
{
    let ghost v = request_views(list@);
    let mut i: usize = 0;
    while i < list.len()
        invariant
            i <= list.len(),
            v == request_views(list@),
            forall|j: int| 0 <= j < i ==> #[trigger] v[j] != bytes::views(o@),
        decreases list.len() - i,
    {
        if same_request(list[i], o) {
            assert(v[i as int] == bytes::views(o@));
            return true;
        }
        i += 1;
    }
    false
}

/// Lists the distinct requests of the live objects.
pub fn list_requests(objs: &Vec<ObjectFile>) -> (r: Vec<&Vec<Vec<u8>>>)
    ensures
        request_views(r@) == requests_to(objs@, objs.len() as int),
{
    let mut list: Vec<&Vec<Vec<u8>>> = Vec::new();
    assert(request_views(list@) =~= Seq::empty());
    let mut n: usize = 0;
    while n < objs.len()
        invariant
            n <= objs.len(),
            request_views(list@) == requests_to(objs@, n as int),
        decreases objs.len() - n,
    {
        if objs[n].is_alive {
            let ghost acc = request_views(list@);
            let mut k: usize = 0;
            while k < objs[n].linker_options.len()
                invariant
                    n < objs.len(),
                    k <= objs[n as int].linker_options.len(),
                    request_views(list@) == with_requests(
                        acc,
                        objs[n as int].linker_options@,
                        k as int,
                    ),
                decreases objs[n as int].linker_options.len() - k,
            {
                let o: &Vec<Vec<u8>> = &objs[n].linker_options[k];
                let ghost before = request_views(list@);
                if !holds_request(&list, o) {
                    list.push(o);
                    assert(request_views(list@) =~= before.push(bytes::views(o@)));
                }
                k += 1;
            }
        }
        n += 1;
    }
    list
}

/// The strings of a request, each with a NUL.
pub open spec fn request_strings(o: Seq<Seq<u8>>, n: int) -> Seq<u8>
    decreases n,
{
    if n <= 0 {
        Seq::empty()
    } else {
        request_strings(o, n - 1) + o[n - 1].push(0)
    }
}

/// The size of a request's command.
pub open spec fn request_size(o: Seq<Seq<u8>>) -> int {
    util::aligned(12int + request_strings(o, o.len() as int).len(), 8)
}

/// A request's command: its size, its count and its strings, padded to eight
/// bytes.
pub open spec fn request_command(o: Seq<Seq<u8>>) -> Seq<u8> {
    bytes::padded8(
        bytes::le32s(seq![LC_LINKER_OPTION, request_size(o) as u32, o.len() as u32])
            + request_strings(o, o.len() as int),
    )
}

/// The commands of the first `n` requests.
pub open spec fn request_commands(v: Seq<Seq<Seq<u8>>>, n: int) -> Seq<u8>
    decreases n,
{
    if n <= 0 {
        Seq::empty()
    } else {
        request_commands(v, n - 1) + request_command(v[n - 1])
    }
}

/// A request's command has the size that it states.
pub proof fn lemma_request_size(o: Seq<Seq<u8>>)
    ensures
        request_command(o).len() == request_size(o),
{
    let n = request_strings(o, o.len() as int).len() as int;
    bytes::lemma_le32s_len(seq![LC_LINKER_OPTION, request_size(o) as u32, o.len() as u32]);
    util::lemma_aligned(12 + n, 8);
    assert(request_size(o) == 12 + n + bytes::pad8_len(12 + n));
}

/// Encodes a request's command. `None` when its size does not fit in 32
/// bits.
fn encode_request(o: &Vec<Vec<u8>>) -> (r: Option<Vec<u8>>)
    ensures
        match r {
            Some(v) => v@ == request_command(bytes::views(o@)) && request_size(bytes::views(o@))
                <= u32::MAX,
            None => request_size(bytes::views(o@)) > u32::MAX,
        },
{
    let ghost ov = bytes::views(o@);
    let mut strings: Vec<u8> = Vec::new();
    assert(strings@ =~= Seq::empty());
    let mut i: usize = 0;
    while i < o.len()
        invariant
            i <= o.len(),
            ov == bytes::views(o@),
            strings@ == request_strings(ov, i as int),
        decreases o.len() - i,
    {
        let ghost before = strings@;
        bytes::append(&mut strings, o[i].as_slice());
        strings.push(0);
        assert(ov[i as int] == o[i as int]@);
        assert(strings@ =~= before + ov[i as int].push(0));
        i += 1;
    }
    proof {
        util::lemma_aligned(12 + strings.len(), 8);
        lemma_strings_cover(ov, ov.len() as int);
    }
    if strings.len() > u32::MAX as usize - 19 {
        return None;
    }
    let size: u64 = util::align_to(12 + strings.len() as u64, 8);
    let mut buf: Vec<u8> = Vec::new();
    let words: [u32; 3] = [LC_LINKER_OPTION, size as u32, o.len() as u32];
    bytes::push32s(&mut buf, words.as_slice());
    assert(words@ =~= seq![LC_LINKER_OPTION, request_size(ov) as u32, ov.len() as u32]);
    bytes::append(&mut buf, strings.as_slice());
    bytes::pad8(&mut buf);
    assert(buf@ =~= request_command(ov));
    Some(buf)
}

/// Every string takes at least a byte.
proof fn lemma_strings_cover(o: Seq<Seq<u8>>, n: int)
    requires
        0 <= n,
    ensures
        request_strings(o, n).len() >= n,
    decreases n,
{
    if n > 0 {
        lemma_strings_cover(o, n - 1);
    }
}

/// True when all of the first `n` requests fit in a command.
pub open spec fn requests_fit(v: Seq<Seq<Seq<u8>>>, n: int) -> bool {
    forall|i: int| 0 <= i < n ==> request_size(#[trigger] v[i]) <= u32::MAX
}

/// Every request takes at least a byte.
pub proof fn lemma_requests_cover(v: Seq<Seq<Seq<u8>>>, n: int)
    requires
        0 <= n,
    ensures
        request_commands(v, n).len() >= n,
    decreases n,
{
    if n > 0 {
        lemma_requests_cover(v, n - 1);
        lemma_request_size(v[n - 1]);
        let len = request_strings(v[n - 1], v[n - 1].len() as int).len();
        util::lemma_aligned(12 + len as int, 8);
    }
}

/// Encodes the commands of all requests. `None` when one is too large.
pub fn encode_requests(v: &Vec<&Vec<Vec<u8>>>) -> (r: Option<Vec<u8>>)
    ensures
        ({
            let rv = request_views(v@);
            match r {
                Some(b) => requests_fit(rv, rv.len() as int) && b@ == request_commands(
                    rv,
                    rv.len() as int,
                ),
                None => !requests_fit(rv, rv.len() as int),
            }
        }),
{
    let ghost rv = request_views(v@);
    let mut buf: Vec<u8> = Vec::new();
    assert(buf@ =~= Seq::empty());
    let mut i: usize = 0;
    while i < v.len()
        invariant
            i <= v.len(),
            rv == request_views(v@),
            requests_fit(rv, i as int),
            buf@ == request_commands(rv, i as int),
        decreases v.len() - i,
    {
        assert(rv[i as int] == bytes::views(v[i as int]@));
        match encode_request(v[i]) {
            Some(b) => {
                bytes::append(&mut buf, b.as_slice());
            },
            None => {
                return None;
            },
        }
        i += 1;
    }
    Some(buf)
}

} // verus!
