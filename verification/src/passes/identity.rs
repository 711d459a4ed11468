//! The UUID that identifies an image: a hash of its contents.
//!
//! The image is hashed up to its signature while its UUID is zero. The UUID
//! is then made of the hash, and the header is written again.
use super::contents::CopyError;
use super::output::{copy_mach_header, make_uuid};
use crate::arch::Arch;
use crate::context::Context;
use crate::output_chunks::header::ChunkKind;
use crate::output_chunks::load_commands::{
    cmds_before_uuid, find_extent, image_header, joined, load_commands, uuid_cmd, Identity,
};
use crate::util::bytes;
use vstd::prelude::*;

verus! {

/// Where the part of an image of `len` bytes ends that its UUID is made of:
/// at the signature, or with the image.
pub open spec fn hashed_end(ctx: Context, len: int) -> int {
    match crate::output_chunks::load_commands::extent_of(
        crate::output_chunks::header::chunk_views(ctx.layout.chunks@),
        ChunkKind::CodeSignature,
    ) {
        Some(e) => if e.0 < len {
            e.0 as int
        } else {
            len
        },
        None => len,
    }
}

/// Finds where the part of an image ends that its UUID is made of.
pub fn find_hashed_end(ctx: &Context, image: &[u8]) -> (r: usize)
    ensures
        r == hashed_end(*ctx, image.len() as int),
        r <= image.len(),
{
    match find_extent(&ctx.layout.chunks, ChunkKind::CodeSignature) {
        Some(e) => if e.0 < image.len() as u64 {
            e.0 as usize
        } else {
            image.len()
        },
        None => image.len(),
    }
}

/// True when two identities differ in their UUIDs at most.
pub open spec fn same_but_uuid(a: Identity, b: Identity) -> bool {
    &&& a.nsyms == b.nsyms
    &&& a.nlocal == b.nlocal
    &&& a.nextdef == b.nextdef
    &&& a.nundef == b.nundef
}

/// Makes the UUID of a hash of the image and writes the header again, unless
/// the image shall have no UUID.
pub fn stamp_uuid<E: Arch>(
    ctx: &Context,
    hash: &[u8],
    id: &mut Identity,
    image: &mut Vec<u8>,
) -> (r: Result<(), CopyError>)
    requires
        ctx.wf(),
        super::fixups::slots_exist(*ctx),
        super::chunk_list::segs_ok(ctx.layout.segments@, ctx.layout.chunks.len() as int),
        hash.len() >= 16,
    ensures
        if ctx.args.sw.uuid {
            &&& same_but_uuid(*old(id), *final(id))
            &&& final(id).uuid@ == super::output::uuid_of(hash@)
            &&& match r {
                Ok(()) => super::output::with_header::<E>(*ctx, *final(id), old(image)@) == Ok::<
                    Seq<u8>,
                    CopyError,
                >(final(image)@),
                Err(e) => super::output::with_header::<E>(*ctx, *final(id), old(image)@) == Err::<
                    Seq<u8>,
                    CopyError,
                >(e),
            }
        } else {
            r is Ok && *final(id) == *old(id) && final(image)@ == old(image)@
        },
{
    if !ctx.args.sw.uuid {
        return Ok(());
    }
    id.uuid = make_uuid(hash);
    copy_mach_header::<E>(ctx, id, image)
}

/// Where the UUID stands in an image.
pub open spec fn uuid_offset(ctx: Context, id: Identity) -> int {
    let before = cmds_before_uuid(ctx, id);
    32 + joined(before, before.len() as int).len() + 8int
}

/// An image with its UUID taken out.
pub open spec fn without_uuid(ctx: Context, id: Identity, image: Seq<u8>) -> Seq<u8> {
    bytes::patched(image, uuid_offset(ctx, id), bytes::zeros(16))
}

/// Where the parts of a list of commands lie.
proof fn lemma_parts(
    pre: Seq<Seq<u8>>,
    u: Seq<u8>,
    v: Seq<u8>,
    w: Seq<u8>,
    xs: (
        Seq<Seq<u8>>,
        Seq<Seq<u8>>,
        Seq<Seq<u8>>,
        Seq<Seq<u8>>,
        Seq<Seq<u8>>,
        Seq<Seq<u8>>,
        Seq<Seq<u8>>,
    ),
)
    ensures
        ({
            let all = pre + seq![u, v, w] + xs.0 + xs.1 + xs.2 + xs.3 + xs.4 + xs.5 + xs.6;
            all == pre.push(u) + (seq![v, w] + xs.0 + xs.1 + xs.2 + xs.3 + xs.4 + xs.5 + xs.6)
        }),
{
    let all = pre + seq![u, v, w] + xs.0 + xs.1 + xs.2 + xs.3 + xs.4 + xs.5 + xs.6;
    assert(all =~= pre.push(u) + (seq![v, w] + xs.0 + xs.1 + xs.2 + xs.3 + xs.4 + xs.5 + xs.6));
}

#[verifier::rlimit(40)]
proof fn lemma_cmds_are(ctx: Context, a: Identity, b: Identity, text: u64)
    requires
        same_but_uuid(a, b),
    ensures
        exists|post: Seq<Seq<u8>>|
            load_commands(ctx, a, text) == #[trigger] (cmds_before_uuid(ctx, a).push(uuid_cmd(a))
                + post) && load_commands(ctx, b, text) == cmds_before_uuid(ctx, b).push(
                uuid_cmd(b),
            ) + post,
{
    let chunks = crate::output_chunks::header::chunk_views(ctx.layout.chunks@);
    let exe = ctx.args.sw.output_type == crate::macho::consts::MH_EXECUTE;
    let starts = crate::output_chunks::load_commands::extent_or_zero(
        crate::output_chunks::load_commands::extent_of(chunks, ChunkKind::FunctionStarts),
    );
    let split = crate::output_chunks::load_commands::extent_of(chunks, ChunkKind::SplitInfo);
    let dice = crate::output_chunks::load_commands::extent_of(chunks, ChunkKind::DataInCode);
    let sig = crate::output_chunks::load_commands::extent_of(chunks, ChunkKind::CodeSignature);
    let v = crate::output_chunks::load_commands::build_version_cmd(ctx.args);
    let w = crate::output_chunks::load_commands::source_version_cmd();
    let xs = (
        crate::output_chunks::load_commands::cmd_if(
            exe,
            crate::output_chunks::load_commands::main_cmd(
                ctx.args,
                ctx.layout.entry_addr,
                text,
            ),
        ),
        crate::output_chunks::load_commands::dylib_cmds(ctx.dylibs@),
        crate::output_chunks::load_commands::path_cmds(
            crate::macho::consts::LC_RPATH,
            bytes::views(ctx.args.rpaths@),
        ),
        crate::output_chunks::load_commands::cmd_if(
            split is Some,
            crate::output_chunks::load_commands::linkedit_cmd(
                crate::macho::consts::LC_SEGMENT_SPLIT_INFO,
                crate::output_chunks::load_commands::extent_or_zero(split),
            ),
        ),
        crate::output_chunks::load_commands::cmd_if(
            starts.1 > 0,
            crate::output_chunks::load_commands::linkedit_cmd(
                crate::macho::consts::LC_FUNCTION_STARTS,
                starts,
            ),
        ),
        crate::output_chunks::load_commands::cmd_if(
            dice is Some,
            crate::output_chunks::load_commands::linkedit_cmd(
                crate::macho::consts::LC_DATA_IN_CODE,
                crate::output_chunks::load_commands::extent_or_zero(dice),
            ),
        ),
        crate::output_chunks::load_commands::cmd_if(
            sig is Some,
            crate::output_chunks::load_commands::linkedit_cmd(
                crate::macho::consts::LC_CODE_SIGNATURE,
                crate::output_chunks::load_commands::extent_or_zero(sig),
            ),
        ),
    );
    reveal(load_commands);
    let post = seq![v, w] + xs.0 + xs.1 + xs.2 + xs.3 + xs.4 + xs.5 + xs.6;
    lemma_parts(cmds_before_uuid(ctx, a), uuid_cmd(a), v, w, xs);
    lemma_parts(cmds_before_uuid(ctx, b), uuid_cmd(b), v, w, xs);
    assert(load_commands(ctx, a, text) == cmds_before_uuid(ctx, a).push(uuid_cmd(a)) + post);
}

proof fn lemma_before_alike(ctx: Context, a: Identity, b: Identity)
    requires
        same_but_uuid(a, b),
    ensures
        cmds_before_uuid(ctx, a) == cmds_before_uuid(ctx, b),
{
    let chunks = crate::output_chunks::header::chunk_views(ctx.layout.chunks@);
    reveal(cmds_before_uuid);
    assert(crate::output_chunks::load_commands::symtab_cmd(chunks, a)
        == crate::output_chunks::load_commands::symtab_cmd(chunks, b));
    assert(crate::output_chunks::load_commands::dysymtab_cmd(chunks, a)
        == crate::output_chunks::load_commands::dysymtab_cmd(chunks, b));
}

proof fn lemma_joined_take(c: Seq<Seq<u8>>, k: int, n: int)
    requires
        0 <= n <= k <= c.len(),
    ensures
        joined(c, n)
            == joined(c.take(k), n),
    decreases n,
{
    if n > 0 {
        lemma_joined_take(c, k, n - 1);
        assert(c.take(k)[n - 1] == c[n - 1]);
    }
}

/// Lists of commands that differ in the tail of one make lists of bytes that
/// differ there.
proof fn lemma_joined_alike(a: Seq<Seq<u8>>, b: Seq<Seq<u8>>, k: int, n: int)
    requires
        0 <= k < a.len(),
        0 <= n <= a.len(),
        a.len() == b.len(),
        a[k].len() == 24,
        b[k].len() == 24,
        a[k].take(8) == b[k].take(8),
        forall|i: int| 0 <= i < a.len() && i != k ==> #[trigger] a[i] == b[i],
    ensures
        ({
            let ja = joined(a, n);
            let jb = joined(b, n);
            let p: int = joined(a, k).len() + 8int;
            &&& ja.len() == jb.len()
            &&& n <= k ==> ja == jb
            &&& n > k ==> ja.len() >= p + 16 && ja.subrange(p, p + 16) == a[k].skip(8)
                && jb.subrange(p, p + 16) == b[k].skip(8)
            &&& forall|i: int|
                0 <= i < ja.len() && !(p <= i < p + 16) ==> #[trigger] ja[i] == jb[i]
        }),
    decreases n,
{
    if n > 0 {
        lemma_joined_alike(a, b, k, n - 1);
        let ja = joined(a, n - 1);
        let jb = joined(b, n - 1);
        let na = joined(a, n);
        let nb = joined(b, n);
        let p: int = joined(a, k).len() + 8int;
        assert(na == ja + a[n - 1]);
        assert(nb == jb + b[n - 1]);
        if n - 1 == k {
            assert(na.subrange(p, p + 16) =~= a[k].skip(8));
            assert(nb.subrange(p, p + 16) =~= b[k].skip(8));
            assert forall|i: int| 0 <= i < na.len() && !(p <= i < p + 16) implies #[trigger] na[i]
                == nb[i] by {
                if i < ja.len() {
                    assert(ja == jb);
                    assert(na[i] == ja[i]);
                    assert(nb[i] == jb[i]);
                } else {
                    let j = i - ja.len();
                    assert(0 <= j < 8);
                    assert(na[i] == a[k][j]);
                    assert(nb[i] == b[k][j]);
                    assert(a[k].take(8)[j] == a[k][j]);
                    assert(b[k].take(8)[j] == b[k][j]);
                }
            }
        } else if n - 1 > k {
            assert(na.subrange(p, p + 16) =~= ja.subrange(p, p + 16));
            assert(nb.subrange(p, p + 16) =~= jb.subrange(p, p + 16));
            assert forall|i: int| 0 <= i < na.len() && !(p <= i < p + 16) implies #[trigger] na[i]
                == nb[i] by {
                if i < ja.len() {
                    assert(ja[i] == jb[i]);
                }
            }
        } else {
            assert(na =~= nb);
        }
    }
}

/// Headers of one image with different UUIDs differ in the UUID alone.
proof fn lemma_headers_alike<E: Arch>(ctx: Context, a: Identity, b: Identity)
    requires
        same_but_uuid(a, b),
        a.uuid.len() == 16,
        b.uuid.len() == 16,
    ensures
        ({
            let m = super::output::imports::<E>(ctx);
            let ha = image_header::<E>(ctx, a, m);
            let hb = image_header::<E>(ctx, b, m);
            let p = uuid_offset(ctx, a);
            &&& p == uuid_offset(ctx, b)
            &&& ha.len() == hb.len()
            &&& 0 <= p
            &&& p + 16 <= ha.len()
            &&& ha.subrange(p, p + 16) == a.uuid@
            &&& hb.subrange(p, p + 16) == b.uuid@
            &&& forall|i: int|
                0 <= i < ha.len() && !(p <= i < p + 16) ==> #[trigger] ha[i] == hb[i]
        }),
{
    let text = crate::output_chunks::load_commands::text_of(ctx)->0;
    let ca = load_commands(ctx, a, text);
    let cb = load_commands(ctx, b, text);
    let pre = cmds_before_uuid(ctx, a);
    lemma_before_alike(ctx, a, b);
    lemma_cmds_are(ctx, a, b, text);
    let post = choose|post: Seq<Seq<u8>>|
        ca == #[trigger] (pre.push(uuid_cmd(a)) + post) && cb == cmds_before_uuid(ctx, b).push(
            uuid_cmd(b),
        ) + post;
    lemma_joined_parts(pre, uuid_cmd(a), uuid_cmd(b), post, a.uuid@, b.uuid@);
    let ja = joined(ca, ca.len() as int);
    let jb = joined(cb, cb.len() as int);
    let m = super::output::imports::<E>(ctx);
    let h = crate::output_chunks::load_commands::mach_header::<E>(
        ctx,
        m,
        ca.len() as int,
        ja.len() as int,
    );
    let ha = image_header::<E>(ctx, a, m);
    let hb = image_header::<E>(ctx, b, m);
    assert(ha == h.encoded() + ja);
    assert(hb == h.encoded() + jb);
    bytes::lemma_le32s_len(h.words());
    lemma_front(h.encoded(), ja, jb, joined(pre, pre.len() as int).len() + 8int);
}

/// What stands behind a front differs where it differed.
proof fn lemma_front(h: Seq<u8>, a: Seq<u8>, b: Seq<u8>, p: int)
    requires
        h.len() == 32,
        a.len() == b.len(),
        0 <= p,
        p + 16 <= a.len(),
        forall|i: int| 0 <= i < a.len() && !(p <= i < p + 16) ==> #[trigger] a[i] == b[i],
    ensures
        (h + a).subrange(32 + p, 32 + p + 16) == a.subrange(p, p + 16),
        (h + b).subrange(32 + p, 32 + p + 16) == b.subrange(p, p + 16),
        forall|i: int|
            0 <= i < (h + a).len() && !(32 + p <= i < 32 + p + 16) ==> #[trigger] (h + a)[i] == (h
                + b)[i],
{
    assert((h + a).subrange(32 + p, 32 + p + 16) =~= a.subrange(p, p + 16));
    assert((h + b).subrange(32 + p, 32 + p + 16) =~= b.subrange(p, p + 16));
    assert forall|i: int| 0 <= i < (h + a).len() && !(32 + p <= i < 32 + p + 16) implies #[trigger] (
    h + a)[i] == (h + b)[i] by {
        if i >= 32 {
            assert(a[i - 32] == b[i - 32]);
        }
    }
}

/// Commands with different UUIDs between the same ones make bytes that
/// differ in the UUID.
proof fn lemma_joined_parts(
    pre: Seq<Seq<u8>>,
    u: Seq<u8>,
    v: Seq<u8>,
    post: Seq<Seq<u8>>,
    x: Seq<u8>,
    y: Seq<u8>,
)
    requires
        x.len() == 16,
        y.len() == 16,
        u == bytes::le32s(seq![crate::macho::consts::LC_UUID, 24u32]) + x,
        v == bytes::le32s(seq![crate::macho::consts::LC_UUID, 24u32]) + y,
    ensures
        ({
            let a = pre.push(u) + post;
            let b = pre.push(v) + post;
            let ja = joined(a, a.len() as int);
            let jb = joined(b, b.len() as int);
            let p = joined(pre, pre.len() as int).len() + 8int;
            &&& a.len() == b.len()
            &&& ja.len() == jb.len()
            &&& p + 16 <= ja.len()
            &&& ja.subrange(p, p + 16) == x
            &&& jb.subrange(p, p + 16) == y
            &&& forall|i: int|
                0 <= i < ja.len() && !(p <= i < p + 16) ==> #[trigger] ja[i] == jb[i]
        }),
{
    let a = pre.push(u) + post;
    let b = pre.push(v) + post;
    let k = pre.len() as int;
    let words = seq![crate::macho::consts::LC_UUID, 24u32];
    bytes::lemma_le32s_len(words);
    let w = bytes::le32s(words);
    assert(w.len() == 8);
    assert(a[k] == u && b[k] == v);
    assert(a[k].take(8) =~= w);
    assert(b[k].take(8) =~= w);
    assert(a[k].skip(8) =~= x);
    assert(b[k].skip(8) =~= y);
    assert(a.take(k) =~= pre);
    lemma_joined_take(a, k, k);
    assert forall|i: int| 0 <= i < a.len() && i != k implies #[trigger] a[i] == b[i] by {}
    lemma_joined_alike(a, b, k, a.len() as int);
}

/// Writing the header again with another UUID changes the UUID alone: with
/// the UUID taken out the image is what it was.
pub proof fn lemma_stamp_changes_uuid<E: Arch>(
    ctx: Context,
    blank: Identity,
    id: Identity,
    body: Seq<u8>,
    image: Seq<u8>,
    stamped: Seq<u8>,
)
    requires
        same_but_uuid(blank, id),
        blank.uuid@ == bytes::zeros(16),
        id.uuid.len() == 16,
        super::output::with_header::<E>(ctx, blank, body) == Ok::<Seq<u8>, CopyError>(image),
        super::output::with_header::<E>(ctx, id, image) == Ok::<Seq<u8>, CopyError>(stamped),
    ensures
        stamped.len() == image.len(),
        0 <= uuid_offset(ctx, id),
        uuid_offset(ctx, id) + 16 <= stamped.len(),
        stamped == bytes::patched(image, uuid_offset(ctx, id), id.uuid@),
        without_uuid(ctx, id, stamped) == image,
{
    let m = super::output::imports::<E>(ctx);
    let h0 = image_header::<E>(ctx, blank, m);
    let h1 = image_header::<E>(ctx, id, m);
    let p = uuid_offset(ctx, id);
    assert(blank.uuid.len() == 16);
    lemma_headers_alike::<E>(ctx, blank, id);
    bytes::lemma_patched_len(body, 0, h0);
    bytes::lemma_patched_len(image, 0, h1);
    bytes::lemma_patched_len(image, p, id.uuid@);
    assert forall|i: int| 0 <= i < image.len() implies stamped[i] == #[trigger] bytes::patched(
        image,
        p,
        id.uuid@,
    )[i] by {
        if p <= i < p + 16 {
            assert(h1.subrange(p, p + 16)[i - p] == h1[i]);
        } else if i < h1.len() {
            assert(h0[i] == h1[i]);
        }
    }
    assert(stamped =~= bytes::patched(image, p, id.uuid@));
    let z = bytes::zeros(16);
    bytes::lemma_patched_len(stamped, p, z);
    assert forall|i: int| 0 <= i < image.len() implies image[i] == #[trigger] bytes::patched(
        stamped,
        p,
        z,
    )[i] by {
        if p <= i < p + 16 {
            assert(h0.subrange(p, p + 16)[i - p] == h0[i]);
            assert(z[i - p] == h0[i]);
        }
    }
    assert(without_uuid(ctx, id, stamped) =~= image);
}

/// A link that ends with the stamping of a UUID.
pub struct Stamping {
    pub ctx: Context,
    /// The identity without a UUID.
    pub blank: Identity,
    /// The identity with the UUID.
    pub id: Identity,
    /// The image before it has a header.
    pub body: Seq<u8>,
    /// The image with a header without a UUID.
    pub image: Seq<u8>,
    /// The image with the UUID.
    pub stamped: Seq<u8>,
}

impl Stamping {
    /// The part of an image that the UUID is made of.
    pub open spec fn hashed(self, image: Seq<u8>) -> Seq<u8> {
        image.take(hashed_end(self.ctx, image.len() as int))
    }

    /// True when the UUID was made of the image by a hash function.
    pub open spec fn is_by<E: Arch>(self, hash: spec_fn(Seq<u8>) -> Seq<u8>) -> bool {
        let h = hash(self.hashed(self.image));
        &&& same_but_uuid(self.blank, self.id)
        &&& self.blank.uuid@ == bytes::zeros(16)
        &&& h.len() >= 16
        &&& self.id.uuid@ == super::output::uuid_of(h)
        &&& super::output::with_header::<E>(self.ctx, self.blank, self.body) == Ok::<
            Seq<u8>,
            CopyError,
        >(self.image)
        &&& super::output::with_header::<E>(self.ctx, self.id, self.image) == Ok::<
            Seq<u8>,
            CopyError,
        >(self.stamped)
    }

    /// What an output holds up to its signature, but for the UUID.
    pub open spec fn contents(self) -> Seq<u8> {
        self.hashed(without_uuid(self.ctx, self.id, self.stamped))
    }
}

/// The UUID is a function of the contents: two outputs that agree up to
/// their signatures but for their UUIDs have the same UUID, whatever the
/// hash function.
pub proof fn lemma_uuid_of_contents<E: Arch>(
    hash: spec_fn(Seq<u8>) -> Seq<u8>,
    a: Stamping,
    b: Stamping,
)
    requires
        a.is_by::<E>(hash),
        b.is_by::<E>(hash),
        a.contents() == b.contents(),
    ensures
        a.id.uuid@ == b.id.uuid@,
        a.id.uuid@[6] >> 4u8 == 4,
        a.id.uuid@[8] >> 6u8 == 2,
{
    lemma_stamp_changes_uuid::<E>(a.ctx, a.blank, a.id, a.body, a.image, a.stamped);
    lemma_stamp_changes_uuid::<E>(b.ctx, b.blank, b.id, b.body, b.image, b.stamped);
    super::output::lemma_uuid_version(hash(a.hashed(a.image)));
}

} // verus!
