//! Decides what each input brings into the link.
use crate::archive_file::{read_archive_members, ArchiveError};
use crate::arch::Arch;
use crate::args::{Args, InputArg, InputView};
use crate::filetype::{get_fat_slice, get_file_type, FatError, FileType};
use crate::input_files::integrate::{check_staged, integrate_objects, IntegrateError};
use crate::input_files::peek::has_objc_sections;
use crate::input_files::stage::{stage_object, StageError, StagedView};
use crate::input_files::{DylibFile, ObjectFile, StagedObject};
use crate::inputs::Inputs;
use crate::mapped_file::{MappedFile, MappedView};
use crate::name_set::NameSet;
use crate::symbol::Symbol;
use crate::util::{bytes, text};
use vstd::prelude::*;
use vstd::string::*;

verus! {

/// Where an input is looked for.
#[derive(Debug)]
pub enum Target {
    /// At a path.
    File(Vec<u8>),
    /// Among the libraries.
    Lib(Vec<u8>),
    /// Among the frameworks.
    Framework(Vec<u8>),
}

/// Where an input is looked for, as mathematical values.
#[verifier::ext_equal]
pub enum TargetView {
    File(Seq<u8>),
    Lib(Seq<u8>),
    Framework(Seq<u8>),
}

impl View for Target {
    type V = TargetView;

    open spec fn view(&self) -> TargetView {
        match self {
            Target::File(p) => TargetView::File(p@),
            Target::Lib(p) => TargetView::Lib(p@),
            Target::Framework(p) => TargetView::Framework(p@),
        }
    }
}

/// How an input takes part in the link.
#[derive(Clone, Copy, Debug, PartialEq, Eq, Structural)]
pub struct Role {
    pub force_load: bool,
    pub weak: bool,
    pub reexport: bool,
    pub hidden: bool,
    pub needed: bool,
}

/// An input without any special role.
pub open spec fn plain() -> Role {
    Role { force_load: false, weak: false, reexport: false, hidden: false, needed: false }
}

fn plain_role() -> (r: Role)
    ensures
        r == plain(),
{
    Role { force_load: false, weak: false, reexport: false, hidden: false, needed: false }
}

/// Where an argument's input is looked for, and its role.
pub open spec fn request(a: InputView) -> (TargetView, Role) {
    match a {
        InputView::File(p) => (TargetView::File(p), plain()),
        InputView::ForceLoad(p) => (TargetView::File(p), Role { force_load: true, ..plain() }),
        InputView::WeakFile(p) => (TargetView::File(p), Role { weak: true, ..plain() }),
        InputView::ReexportFile(p) => (TargetView::File(p), Role { reexport: true, ..plain() }),
        InputView::NeededFile(p) => (TargetView::File(p), Role { needed: true, ..plain() }),
        InputView::Lib(n, weak) => (TargetView::Lib(n), Role { weak, ..plain() }),
        InputView::ReexportLib(n) => (TargetView::Lib(n), Role { reexport: true, ..plain() }),
        InputView::HiddenLib(n) => (TargetView::Lib(n), Role { hidden: true, ..plain() }),
        InputView::NeededLib(n) => (TargetView::Lib(n), Role { needed: true, ..plain() }),
        InputView::Framework(n, weak) => (TargetView::Framework(n), Role { weak, ..plain() }),
        InputView::ReexportFramework(n) => (
            TargetView::Framework(n),
            Role { reexport: true, ..plain() },
        ),
        InputView::NeededFramework(n) => (
            TargetView::Framework(n),
            Role { needed: true, ..plain() },
        ),
    }
}

/// Finds out where an argument's input is looked for, and its role.
pub fn request_of(a: &InputArg) -> (r: (Target, Role))
    ensures
        (r.0@, r.1) == request(a@),
{
    let p: Role = plain_role();
    match a {
        InputArg::File(n) => (Target::File(bytes::to_vec(n.as_slice())), p),
        InputArg::ForceLoad(n) => (
            Target::File(bytes::to_vec(n.as_slice())),
            Role { force_load: true, ..p },
        ),
        InputArg::WeakFile(n) => (
            Target::File(bytes::to_vec(n.as_slice())),
            Role { weak: true, ..p },
        ),
        InputArg::ReexportFile(n) => (
            Target::File(bytes::to_vec(n.as_slice())),
            Role { reexport: true, ..p },
        ),
        InputArg::NeededFile(n) => (
            Target::File(bytes::to_vec(n.as_slice())),
            Role { needed: true, ..p },
        ),
        InputArg::Lib(n, weak) => (
            Target::Lib(bytes::to_vec(n.as_slice())),
            Role { weak: *weak, ..p },
        ),
        InputArg::ReexportLib(n) => (
            Target::Lib(bytes::to_vec(n.as_slice())),
            Role { reexport: true, ..p },
        ),
        InputArg::HiddenLib(n) => (
            Target::Lib(bytes::to_vec(n.as_slice())),
            Role { hidden: true, ..p },
        ),
        InputArg::NeededLib(n) => (
            Target::Lib(bytes::to_vec(n.as_slice())),
            Role { needed: true, ..p },
        ),
        InputArg::Framework(n, weak) => (
            Target::Framework(bytes::to_vec(n.as_slice())),
            Role { weak: *weak, ..p },
        ),
        InputArg::ReexportFramework(n) => (
            Target::Framework(bytes::to_vec(n.as_slice())),
            Role { reexport: true, ..p },
        ),
        InputArg::NeededFramework(n) => (
            Target::Framework(bytes::to_vec(n.as_slice())),
            Role { needed: true, ..p },
        ),
    }
}

/// The libraries among the first `n` inputs, each once, and those that were
/// named again.
pub open spec fn repeated_to(inputs: Seq<InputView>, n: int) -> (Seq<Seq<u8>>, Seq<Seq<u8>>)
    decreases n,
{
    if n <= 0 {
        (Seq::empty(), Seq::empty())
    } else {
        let (known, again) = repeated_to(inputs, n - 1);
        match inputs[n - 1] {
            InputView::Lib(name, _) => if known.contains(name) {
                (known, again.push(name))
            } else {
                (known.push(name), again)
            },
            _ => (known, again),
        }
    }
}

/// Lists the libraries that are named more than once, as often as they are
/// named again.
pub fn repeated_libraries(inputs: &Vec<InputArg>) -> (r: Vec<Vec<u8>>)
    ensures
        bytes::views(r@) == repeated_to(
            crate::args::input_views(inputs@),
            inputs.len() as int,
        ).1,
{
    let ghost iv = crate::args::input_views(inputs@);
    let mut seen: NameSet = NameSet::new();
    let mut r: Vec<Vec<u8>> = Vec::new();
    assert(bytes::views(r@) =~= Seq::empty());
    let mut n: usize = 0;
    while n < inputs.len()
        invariant
            n <= inputs.len(),
            iv == crate::args::input_views(inputs@),
            seen.wf(),
            (seen@, bytes::views(r@)) == repeated_to(iv, n as int),
        decreases inputs.len() - n,
    {
        assert(iv[n as int] == inputs[n as int]@);
        if let InputArg::Lib(name, _) = &inputs[n] {
            if !seen.insert(name.as_slice()) {
                text::push_name(&mut r, bytes::to_vec(name.as_slice()));
            }
        }
        n += 1;
    }
    r
}

/// A library's roles after an input named it. It is needed only when the
/// input brought it in.
pub open spec fn in_role(d: DylibFile, r: Role, is_new: bool) -> DylibFile {
    DylibFile {
        is_weak: d.is_weak || r.weak,
        is_reexported: d.is_reexported || r.reexport,
        is_needed: d.is_needed || (r.needed && is_new),
        ..d
    }
}

/// Notes the role of the input that named a library.
pub fn set_role(dylibs: &mut Vec<DylibFile>, idx: usize, r: Role, is_new: bool)
    requires
        idx < old(dylibs).len(),
    ensures
        final(dylibs)@ == old(dylibs)@.update(
            idx as int,
            in_role(old(dylibs)@[idx as int], r, is_new),
        ),
{
    let ghost before = dylibs@;
    dylibs[idx].is_weak = dylibs[idx].is_weak || r.weak;
    dylibs[idx].is_reexported = dylibs[idx].is_reexported || r.reexport;
    dylibs[idx].is_needed = dylibs[idx].is_needed || (r.needed && is_new);
    assert(dylibs@ =~= before.update(idx as int, in_role(before[idx as int], r, is_new)));
}

/// An object that is to be staged.
#[derive(Debug)]
pub struct PendingObject {
    pub file: MappedFile,
    pub alive: bool,
    pub hidden: bool,
    pub priority: u32,
}

/// An object that is to be staged, as mathematical values.
#[verifier::ext_equal]
pub struct PendingView {
    pub file: MappedView,
    pub alive: bool,
    pub hidden: bool,
    pub priority: u32,
}

impl View for PendingObject {
    type V = PendingView;

    open spec fn view(&self) -> PendingView {
        PendingView {
            file: self.file@,
            alive: self.alive,
            hidden: self.hidden,
            priority: self.priority,
        }
    }
}

/// What a list of objects holds.
pub open spec fn pending_views(v: Seq<PendingObject>) -> Seq<PendingView> {
    v.map_values(|p: PendingObject| p@)
}

/// Why an input cannot be taken in.
#[derive(Clone, Copy, Debug, PartialEq, Eq, Structural)]
pub enum CollectError {
    /// The file is of no kind that can be linked.
    UnknownType,
    Archive(ArchiveError),
    Fat(FatError),
    /// An archive member is malformed.
    BadMember,
    /// There are more inputs than can be counted.
    TooMany,
}

/// What is to be done with an input.
#[derive(Debug)]
pub enum Collected {
    /// Nothing more: it is empty, was seen before, or its objects are queued.
    Done,
    /// It is a stub file that describes a library.
    Stub(MappedFile),
    /// It is a dylib binary.
    Binary(MappedFile),
}

/// What is to be done with an input, as mathematical values.
#[verifier::ext_equal]
pub enum CollectedView {
    Done,
    Stub(MappedView),
    Binary(MappedView),
}

impl View for Collected {
    type V = CollectedView;

    open spec fn view(&self) -> CollectedView {
        match self {
            Collected::Done => CollectedView::Done,
            Collected::Stub(f) => CollectedView::Stub(f@),
            Collected::Binary(f) => CollectedView::Binary(f@),
        }
    }
}

/// True when an object holds Objective-C lists. `None` when it is malformed.
pub open spec fn objc_of(data: Seq<u8>) -> Option<bool> {
    if data.len() < 32 || bytes::u32_at(data, 0) != crate::macho::consts::MH_MAGIC_64 {
        Some(false)
    } else {
        crate::input_files::peek::objc_from(data, 32, bytes::u32_at(data, 16) as nat)
    }
}

/// True when an archive member is live from the start: with -force_load or
/// -all_load, and with -ObjC when it registers classes by its mere presence.
pub open spec fn member_alive(args: Args, r: Role, data: Seq<u8>) -> Option<bool> {
    if r.force_load || args.sw.all_load {
        Some(true)
    } else if args.sw.load_objc {
        objc_of(data)
    } else {
        Some(false)
    }
}

/// The first `n` members of an archive as objects, behind a priority.
pub open spec fn members_to(
    args: Args,
    r: Role,
    files: Seq<MappedView>,
    last: u32,
    n: int,
) -> Result<Seq<PendingView>, CollectError>
    decreases n,
{
    if n <= 0 {
        Ok(Seq::empty())
    } else {
        match members_to(args, r, files, last, n - 1) {
            Err(e) => Err(e),
            Ok(v) => match member_alive(args, r, files[n - 1].data) {
                None => Err(CollectError::BadMember),
                Some(alive) => if last + n > u32::MAX {
                    Err(CollectError::TooMany)
                } else {
                    Ok(
                        v.push(
                            PendingView {
                                file: files[n - 1],
                                alive,
                                hidden: r.hidden,
                                priority: (last + n) as u32,
                            },
                        ),
                    )
                },
            },
        }
    }
}

proof fn lemma_members_err(
    args: Args,
    r: Role,
    files: Seq<MappedView>,
    last: u32,
    e: CollectError,
    a: int,
    b: int,
)
    requires
        0 <= a <= b,
        members_to(args, r, files, last, a) == Err::<Seq<PendingView>, CollectError>(e),
    ensures
        members_to(args, r, files, last, b) == Err::<Seq<PendingView>, CollectError>(e),
    decreases b - a,
{
    if a < b {
        lemma_members_err(args, r, files, last, e, a, b - 1);
    }
}

/// The objects that a file that is not universal brings, and what is left to
/// be done with it. Bitcode modules are queued like objects.
pub open spec fn brought(args: Args, r: Role, f: MappedView, last: u32) -> Result<
    (Seq<PendingView>, CollectedView),
    CollectError,
> {
    match crate::filetype::file_type(f.data) {
        FileType::Object | FileType::LlvmBitcode => if last == u32::MAX {
            Err(CollectError::TooMany)
        } else {
            Ok(
                (
                    seq![
                        PendingView {
                            file: f,
                            alive: true,
                            hidden: r.hidden,
                            priority: (last + 1) as u32,
                        },
                    ],
                    CollectedView::Done,
                ),
            )
        },
        FileType::Tapi => Ok((Seq::empty(), CollectedView::Stub(f))),
        FileType::Dylib => Ok((Seq::empty(), CollectedView::Binary(f))),
        FileType::Archive => match crate::archive_file::members_from(
            f.data,
            f.name,
            8,
            Seq::empty(),
        ) {
            Err(e) => Err(CollectError::Archive(e)),
            Ok(files) => match members_to(args, r, files, last, files.len() as int) {
                Err(e) => Err(e),
                Ok(v) => Ok((v, CollectedView::Done)),
            },
        },
        FileType::Empty => Ok((Seq::empty(), CollectedView::Done)),
        _ => Err(CollectError::UnknownType),
    }
}

/// The slice of a universal file that is for the target.
pub open spec fn slice_of<E: Arch>(f: MappedView, arch: Seq<u8>) -> Result<MappedView, FatError> {
    let place = if f.data.len() < 8 {
        Err(FatError::Malformed)
    } else {
        crate::filetype::fat_slice(
            f.data,
            E::info().cputype,
            crate::filetype::be32_at(f.data, 4) as int,
            0,
        )
    };
    match place {
        Err(e) => Err(e),
        Ok(p) => Ok(
            MappedView {
                name: crate::filetype::slice_name(f.name, arch),
                data: f.data.subrange(p.0 as int, p.0 + p.1),
                parent: Some(f.name),
            },
        ),
    }
}

/// The files that were seen after a file was taken in, the objects that it
/// brings, and what is left to be done with it. A file that was seen before
/// is passed over. The slice for the target stands for a universal file; it
/// may be universal again, but not the whole of the file that it is in.
pub open spec fn collected<E: Arch>(
    args: Args,
    r: Role,
    f: MappedView,
    arch: Seq<u8>,
    last: u32,
    seen: Seq<Seq<u8>>,
) -> (Seq<Seq<u8>>, Result<(Seq<PendingView>, CollectedView), CollectError>)
    decreases f.data.len(),
{
    let now = crate::name_set::with_name(seen, f.name);
    if seen.contains(f.name) {
        (now, Ok((Seq::empty(), CollectedView::Done)))
    } else if crate::filetype::file_type(f.data) == FileType::Fat {
        match slice_of::<E>(f, arch) {
            Err(e) => (now, Err(CollectError::Fat(e))),
            Ok(s) => if s.data.len() >= f.data.len() {
                (now, Err(CollectError::Fat(FatError::Malformed)))
            } else {
                collected::<E>(args, r, s, arch, last, now)
            },
        }
    } else {
        (now, brought(args, r, f, last))
    }
}

fn check_alive(args: &Args, r: Role, data: &[u8]) -> (a: Option<bool>)
    ensures
        a == member_alive(*args, r, data@),
{
    if r.force_load || args.sw.all_load {
        Some(true)
    } else if args.sw.load_objc {
        has_objc_sections(data)
    } else {
        Some(false)
    }
}

fn take_file(files: &mut Vec<MappedFile>, i: usize) -> (f: MappedFile)
    requires
        i < old(files).len(),
    ensures
        f == old(files)[i as int],
        final(files).len() == old(files).len(),
        forall|k: int| 0 <= k < final(files).len() && k != i ==> #[trigger] final(files)[k] == old(
            files,
        )[k],
{
    let mut f = MappedFile { name: Vec::new(), data: Vec::new(), parent: None };
    core::mem::swap(&mut f, &mut files[i]);
    f
}

/// Queues the members of an archive.
fn queue_members(
    args: &Args,
    r: Role,
    files: Vec<MappedFile>,
    counter: &mut u32,
    queue: &mut Vec<PendingObject>,
) -> (e: Result<(), CollectError>)
    ensures
        ({
            let fv = crate::archive_file::file_views(files@);
            let want = members_to(*args, r, fv, *old(counter), fv.len() as int);
            match e {
                Ok(()) => want matches Ok(v) && pending_views(final(queue)@) == pending_views(
                    old(queue)@,
                ) + v && *final(counter) == *old(counter) + v.len(),
                Err(x) => want == Err::<Seq<PendingView>, CollectError>(x),
            }
        }),
{
    let ghost fv = crate::archive_file::file_views(files@);
    let ghost start = pending_views(queue@);
    let ghost s0 = files@;
    let last: u32 = *counter;
    let ghost end = fv.len() as int;
    let mut rest: Vec<MappedFile> = files;
    assert(start + Seq::<PendingView>::empty() =~= start);
    let mut n: usize = 0;
    while n < rest.len()
        invariant
            n <= rest.len(),
            s0 == files@,
            rest.len() == s0.len(),
            end == s0.len(),
            fv == crate::archive_file::file_views(s0),
            last == *old(counter),
            fv.len() == end,
            forall|k: int| n <= k < rest.len() ==> #[trigger] rest[k] == s0[k],
            *counter == last + n,
            members_to(*args, r, fv, last, n as int) is Ok,
            members_to(*args, r, fv, last, n as int)->Ok_0.len() == n,
            pending_views(queue@) == start + members_to(*args, r, fv, last, n as int)->Ok_0,
        decreases rest.len() - n,
    {
        assert(fv[n as int] == s0[n as int]@);
        let f: MappedFile = take_file(&mut rest, n);
        assert(f == s0[n as int]);
        let alive: bool = match check_alive(args, r, f.data.as_slice()) {
            Some(a) => a,
            None => {
                proof {
                    lemma_members_err(*args, r, fv, last, CollectError::BadMember, n + 1, end);
                }
                return Err(CollectError::BadMember);
            },
        };
        if *counter == u32::MAX {
            proof {
                lemma_members_err(*args, r, fv, last, CollectError::TooMany, n + 1, end);
            }
            return Err(CollectError::TooMany);
        }
        *counter = *counter + 1;
        let ghost head = members_to(*args, r, fv, last, n as int)->Ok_0;
        let ghost qv = pending_views(queue@);
        let p = PendingObject { file: f, alive, hidden: r.hidden, priority: *counter };
        let ghost pv = p@;
        queue.push(p);
        assert(pending_views(queue@) =~= qv.push(pv));
        assert((start + head).push(pv) =~= start + head.push(pv));
        n += 1;
    }
    Ok(())
}

/// Takes in one file that is no universal file.
fn collect_plain(
    args: &Args,
    r: Role,
    f: MappedFile,
    counter: &mut u32,
    queue: &mut Vec<PendingObject>,
) -> (c: Result<Collected, CollectError>)
    ensures
        ({
            let want = brought(*args, r, f@, *old(counter));
            match c {
                Ok(d) => want matches Ok(w) && pending_views(final(queue)@) == pending_views(
                    old(queue)@,
                ) + w.0 && d@ == w.1 && *final(counter) == *old(counter) + w.0.len(),
                Err(e) => want == Err::<(Seq<PendingView>, CollectedView), CollectError>(e),
            }
        }),
{
    let ghost start = pending_views(queue@);
    let ghost fv = f@;
    assert(start + Seq::<PendingView>::empty() =~= start);
    match get_file_type(f.data.as_slice()) {
        FileType::Object | FileType::LlvmBitcode => {
            if *counter == u32::MAX {
                return Err(CollectError::TooMany);
            }
            *counter = *counter + 1;
            let p = PendingObject {
                file: f,
                alive: true,
                hidden: r.hidden,
                priority: *counter,
            };
            let ghost pv = p@;
            queue.push(p);
            assert(pending_views(queue@) =~= start + seq![pv]);
            Ok(Collected::Done)
        },
        FileType::Tapi => Ok(Collected::Stub(f)),
        FileType::Dylib => Ok(Collected::Binary(f)),
        FileType::Archive => match read_archive_members(&f) {
            Ok(files) => match queue_members(args, r, files, counter, queue) {
                Ok(()) => Ok(Collected::Done),
                Err(e) => Err(e),
            },
            Err(e) => Err(CollectError::Archive(e)),
        },
        FileType::Empty => Ok(Collected::Done),
        _ => Err(CollectError::UnknownType),
    }
}

/// Takes in one file: queues the objects that it brings, and says what is
/// left to be done. A file that was seen before is passed over.
pub fn collect_file<E: Arch>(
    args: &Args,
    r: Role,
    f: MappedFile,
    arch: &[u8],
    visited: &mut NameSet,
    counter: &mut u32,
    queue: &mut Vec<PendingObject>,
) -> (c: Result<Collected, CollectError>)
    requires
        old(visited).wf(),
    ensures
        final(visited).wf(),
        ({
            let want = collected::<E>(*args, r, f@, arch@, *old(counter), old(visited)@);
            &&& final(visited)@ == want.0
            &&& match c {
                Ok(d) => want.1 matches Ok(w) && pending_views(final(queue)@) == pending_views(
                    old(queue)@,
                ) + w.0 && d@ == w.1 && *final(counter) == *old(counter) + w.0.len(),
                Err(e) => want.1 == Err::<(Seq<PendingView>, CollectedView), CollectError>(e),
            }
        }),
    decreases f.data.len(),
{
    assert(pending_views(queue@) + Seq::<PendingView>::empty() =~= pending_views(queue@));
    if !visited.insert(f.name.as_slice()) {
        return Ok(Collected::Done);
    }
    if get_file_type(f.data.as_slice()) == FileType::Fat {
        let s: MappedFile = match get_fat_slice::<E>(&f, arch) {
            Ok(s) => s,
            Err(e) => {
                return Err(CollectError::Fat(e));
            },
        };
        assert(s@ == slice_of::<E>(f@, arch@)->Ok_0);
        if s.data.len() >= f.data.len() {
            return Err(CollectError::Fat(FatError::Malformed));
        }
        return collect_file::<E>(args, r, s, arch, visited, counter, queue);
    }
    collect_plain(args, r, f, counter, queue)
}

/// The global names of the first `n` entries of an object.
pub open spec fn global_names(st: StagedObject, n: int) -> Seq<Seq<u8>>
    decreases n,
{
    if n <= 0 {
        Seq::empty()
    } else if crate::input_files::integrate::is_local(st.nlists[n - 1]) {
        global_names(st, n - 1)
    } else {
        global_names(st, n - 1).push(st.sym_names[n - 1]@)
    }
}

/// The global names of the first `n` objects, in order.
pub open spec fn batch_of(staged: Seq<StagedObject>, n: int) -> Seq<Seq<u8>>
    decreases n,
{
    if n <= 0 {
        Seq::empty()
    } else {
        batch_of(staged, n - 1) + global_names(staged[n - 1], staged[n - 1].nlists.len() as int)
    }
}

fn push_globals(st: &StagedObject, out: &mut Vec<(Vec<u8>, u64)>)
    requires
        crate::input_files::hashes_match(*st),
        forall|i: int|
            0 <= i < old(out).len() ==> (#[trigger] old(out)[i]).1 == crate::symbol::xxh3(
                old(out)[i].0@,
            ),
    ensures
        crate::symbol::batch_names(final(out)@) == crate::symbol::batch_names(old(out)@)
            + global_names(*st, st.nlists.len() as int),
        forall|i: int|
            0 <= i < final(out).len() ==> (#[trigger] final(out)[i]).1 == crate::symbol::xxh3(
                final(out)[i].0@,
            ),
{
    let ghost start = crate::symbol::batch_names(out@);
    assert(start + Seq::<Seq<u8>>::empty() =~= start);
    let mut n: usize = 0;
    while n < st.nlists.len()
        invariant
            n <= st.nlists.len(),
            crate::input_files::hashes_match(*st),
            crate::symbol::batch_names(out@) == start + global_names(*st, n as int),
            forall|i: int|
                0 <= i < out.len() ==> (#[trigger] out[i]).1 == crate::symbol::xxh3(out[i].0@),
        decreases st.nlists.len() - n,
    {
        let ghost head = global_names(*st, n as int);
        if !(st.nlists[n].is_stab() || !st.nlists[n].is_extern()) {
            let name: Vec<u8> = bytes::to_vec(st.sym_names[n].as_slice());
            let hash: u64 = st.sym_hashes[n];
            let ghost nv = name@;
            let ghost before = out@;
            out.push((name, hash));
            assert(crate::symbol::batch_names(out@) =~= crate::symbol::batch_names(before).push(
                nv,
            ));
            assert((start + head).push(nv) =~= start + head.push(nv));
            assert forall|i: int| 0 <= i < out.len() implies (#[trigger] out[i]).1
                == crate::symbol::xxh3(out[i].0@) by {
                if i < before.len() {
                    assert(before[i] == out[i]);
                }
            }
        }
        n += 1;
    }
}

/// What inputs are once the global names of objects were interned: `ids` are
/// the names' symbols.
pub open spec fn interned(before: Inputs, mid: Inputs, names: Seq<Seq<u8>>, ids: Seq<u32>) -> bool {
    &&& mid == (Inputs { symtab: mid.symtab, ..before })
    &&& mid.symtab.gathered(before.symtab, names, ids)
}

/// What inputs are once objects were loaded: their global names were
/// interned all at once, and then they were appended.
pub open spec fn loaded(before: Inputs, x: Inputs, staged: Seq<StagedObject>) -> bool {
    exists|mid: Inputs, ids: Seq<u32>| #[trigger]
        interned(before, mid, batch_of(staged, staged.len() as int), ids)
            && crate::input_files::integrate::all_appended(
            mid,
            x,
            staged,
            ids,
            staged.len() as int,
        )
}

/// What inputs are when the names of objects were interned, but there is no
/// room for the objects.
pub open spec fn overflows(before: Inputs, mid: Inputs, staged: Seq<StagedObject>) -> bool {
    &&& !crate::input_files::integrate::all_have_room(mid, staged)
    &&& exists|ids: Seq<u32>| #[trigger]
        interned(before, mid, batch_of(staged, staged.len() as int), ids)
}

proof fn lemma_global_names(st: StagedObject, n: int)
    ensures
        global_names(st, n).len() == crate::input_files::integrate::global_count(st.nlists@, n),
    decreases n,
{
    if n > 0 {
        lemma_global_names(st, n - 1);
    }
}

proof fn lemma_batch(staged: Seq<StagedObject>, n: int)
    ensures
        batch_of(staged, n).len() == crate::input_files::integrate::globals_before(staged, n),
    decreases n,
{
    if n > 0 {
        lemma_batch(staged, n - 1);
        lemma_global_names(staged[n - 1], staged[n - 1].nlists.len() as int);
    }
}

/// What comes of adding staged objects to inputs.
pub open spec fn is_load(
    before: Inputs,
    x: Inputs,
    staged: Seq<StagedObject>,
    r: Result<(), IntegrateError>,
) -> bool {
    match r {
        Ok(()) => {
            &&& crate::input_files::integrate::all_staged_ok(staged)
            &&& loaded(before, x, staged)
        },
        Err(e) => if !crate::input_files::integrate::all_staged_ok(staged) {
            e == IntegrateError::BadReference && x == before
        } else {
            &&& e == IntegrateError::TooMany
            &&& {
                ||| x == before && before.symtab.syms.len() + batch_of(
                    staged,
                    staged.len() as int,
                ).len() >= 0xffff_ffff
                ||| overflows(before, x, staged)
            }
        },
    }
}

/// Why objects cannot be loaded.
#[derive(Clone, Copy, Debug, PartialEq, Eq, Structural)]
pub enum LoadError {
    /// An object, by its place in the queue, cannot be parsed.
    Stage(usize, StageError),
    Integrate(IntegrateError),
}

/// True when `st` is a queued object, parsed.
pub open spec fn is_staged<E: Arch>(p: PendingObject, keep_debug: bool, st: StagedObject) -> bool {
    &&& crate::input_files::stage::staged::<E>(p.file.data@, keep_debug) == Ok::<
        StagedView,
        StageError,
    >(st@)
    &&& st.name == p.file.name
    &&& st.parent == p.file.parent
    &&& st.alive == p.alive
    &&& st.hidden == p.hidden
    &&& st.priority == p.priority
}

/// True when the objects are the first queued ones, parsed.
pub open spec fn all_staged<E: Arch>(
    queue: Seq<PendingObject>,
    keep_debug: bool,
    staged: Seq<StagedObject>,
) -> bool {
    &&& staged.len() <= queue.len()
    &&& forall|i: int|
        0 <= i < staged.len() ==> is_staged::<E>(queue[i], keep_debug, #[trigger] staged[i])
}

/// True when the queued objects were parsed and added to inputs, with that
/// outcome.
pub open spec fn is_queue_load<E: Arch>(
    before: Inputs,
    x: Inputs,
    queue: Seq<PendingObject>,
    keep_debug: bool,
    r: Result<(), IntegrateError>,
) -> bool {
    exists|staged: Seq<StagedObject>| #[trigger]
        all_staged::<E>(queue, keep_debug, staged) && staged.len() == queue.len() && is_load(
            before,
            x,
            staged,
            r,
        )
}

/// Parses the queued objects and adds them to the link in order. When it
/// fails no object is added, though names may be known that were not.
pub fn load_pending<E: Arch>(
    x: &mut Inputs,
    queue: Vec<PendingObject>,
    keep_debug: bool,
) -> (r: Result<(), LoadError>)
    requires
        old(x).wf(),
        old(x).fdes_exist(),
        old(x).symtab.wf(),
    ensures
        final(x).wf(),
        final(x).fdes_exist(),
        final(x).symtab.wf(),
        match r {
            Ok(()) => is_queue_load::<E>(*old(x), *final(x), queue@, keep_debug, Ok(())),
            Err(LoadError::Integrate(e)) => is_queue_load::<E>(
                *old(x),
                *final(x),
                queue@,
                keep_debug,
                Err(e),
            ),
            Err(LoadError::Stage(n, e)) => {
                &&& *final(x) == *old(x)
                &&& n < queue.len()
                &&& crate::input_files::stage::staged::<E>(
                    queue[n as int].file.data@,
                    keep_debug,
                ) == Err::<StagedView, StageError>(e)
                &&& forall|i: int|
                    0 <= i < n ==> crate::input_files::stage::staged::<E>(
                        (#[trigger] queue[i]).file.data@,
                        keep_debug,
                    ) is Ok
            },
        },
{
    let ghost q0 = queue@;
    let ghost before = *x;
    let mut rest: Vec<PendingObject> = queue;
    let mut staged: Vec<StagedObject> = Vec::new();
    while staged.len() < rest.len()
        invariant
            *x == before,
            x.wf(),
            x.fdes_exist(),
            x.symtab.wf(),
            q0 == queue@,
            rest.len() == q0.len(),
            staged.len() <= rest.len(),
            forall|k: int| staged.len() <= k < rest.len() ==> #[trigger] rest[k] == q0[k],
            all_staged::<E>(q0, keep_debug, staged@),
            forall|i: int|
                0 <= i < staged.len() ==> crate::input_files::stage::staged::<E>(
                    (#[trigger] q0[i]).file.data@,
                    keep_debug,
                ) is Ok,
            forall|i: int|
                0 <= i < staged.len() ==> crate::input_files::hashes_match(#[trigger] staged[i]),
        decreases rest.len() - staged.len(),
    {
        let n: usize = staged.len();
        let p: PendingObject = take_pending(&mut rest, n);
        assert(p == q0[n as int]);
        let f: MappedFile = p.file;
        match stage_object::<E>(
            f.data.as_slice(),
            f.name,
            f.parent,
            p.alive,
            p.hidden,
            p.priority,
            keep_debug,
        ) {
            Ok(st) => {
                assert(is_staged::<E>(q0[n as int], keep_debug, st));
                staged.push(st);
            },
            Err(e) => {
                return Err(LoadError::Stage(n, e));
            },
        }
    }
    let ghost sv = staged@;
    let r: Result<(), IntegrateError> = load_staged(x, staged);
    assert(all_staged::<E>(q0, keep_debug, sv));
    match r {
        Ok(()) => Ok(()),
        Err(e) => Err(LoadError::Integrate(e)),
    }
}

fn take_pending(queue: &mut Vec<PendingObject>, i: usize) -> (p: PendingObject)
    requires
        i < old(queue).len(),
    ensures
        p == old(queue)[i as int],
        final(queue).len() == old(queue).len(),
        forall|k: int| 0 <= k < final(queue).len() && k != i ==> #[trigger] final(queue)[k] == old(
            queue,
        )[k],
{
    let file = MappedFile { name: Vec::new(), data: Vec::new(), parent: None };
    let mut p = PendingObject { file, alive: false, hidden: false, priority: 0 };
    core::mem::swap(&mut p, &mut queue[i]);
    p
}

/// Adds staged objects to the link. When it fails no object is added, though
/// names may be known that were not.
pub fn load_staged(x: &mut Inputs, staged: Vec<StagedObject>) -> (r: Result<(), IntegrateError>)
    requires
        old(x).wf(),
        old(x).fdes_exist(),
        old(x).symtab.wf(),
        forall|i: int|
            0 <= i < staged.len() ==> crate::input_files::hashes_match(#[trigger] staged[i]),
    ensures
        final(x).wf(),
        final(x).fdes_exist(),
        final(x).symtab.wf(),
        is_load(*old(x), *final(x), staged@, r),
{
    let ghost start = *x;
    let mut batch: Vec<(Vec<u8>, u64)> = Vec::new();
    assert(crate::symbol::batch_names(batch@) =~= Seq::empty());
    let mut n: usize = 0;
    while n < staged.len()
        invariant
            n <= staged.len(),
            start == *old(x),
            *x == start,
            x.wf(),
            x.fdes_exist(),
            x.symtab.wf(),
            forall|i: int|
                0 <= i < staged.len() ==> crate::input_files::hashes_match(#[trigger] staged[i]),
            forall|i: int|
                0 <= i < n ==> crate::input_files::integrate::staged_ok(#[trigger] staged[i]),
            crate::symbol::batch_names(batch@) == batch_of(staged@, n as int),
            forall|i: int|
                0 <= i < batch.len() ==> (#[trigger] batch[i]).1 == crate::symbol::xxh3(
                    batch[i].0@,
                ),
        decreases staged.len() - n,
    {
        if !check_staged(&staged[n]) {
            assert(!crate::input_files::integrate::staged_ok(staged@[n as int]));
            return Err(IntegrateError::BadReference);
        }
        push_globals(&staged[n], &mut batch);
        n += 1;
    }
    assert(crate::input_files::integrate::all_staged_ok(staged@));
    if x.symtab.syms.len() as u128 + batch.len() as u128 >= 0xffff_ffff {
        return Err(IntegrateError::TooMany);
    }
    let ids: Vec<u32> = x.symtab.gather(batch.as_slice());
    let ghost names = crate::symbol::batch_names(batch@);
    let ghost mid = *x;
    proof {
        let added = crate::symbol::new_names(
            start.symtab.ids().dom(),
            crate::symbol::by_shard(names, 64),
        );
        assert(crate::symbol::sym_names(mid.symtab.syms@).len() == mid.symtab.syms.len());
        assert(crate::symbol::sym_names(start.symtab.syms@).len() == start.symtab.syms.len());
        assert forall|i: int| 0 <= i < start.isecs.len() implies crate::inputs::same_part(
            start.isecs[i],
            #[trigger] mid.isecs[i],
        ) && (mid.isecs[i].replacement == crate::input_sections::NO_REPLACEMENT
            || mid.isecs[i].replacement < mid.isecs.len()) by {
            assert(start.isec_ok(start.isecs[i]));
        }
        assert forall|i: int| 0 <= i < mid.symtab.syms.len() implies mid.sym_ok(
            #[trigger] mid.symtab.syms[i],
        ) by {
            if i < start.symtab.syms.len() {
                assert(mid.symtab.syms@.take(start.symtab.syms.len() as int)[i]
                    == start.symtab.syms@[i]);
                assert(start.sym_ok(start.symtab.syms[i]));
            } else {
                assert(mid.symtab.syms[i] == Symbol::fresh(mid.symtab.syms[i].name));
            }
        }
        crate::inputs::lemma_wf_grown(start, mid);
        assert(interned(start, mid, names, ids@));
    }
    let ghost s0 = staged@;
    let r: Result<(), IntegrateError> = integrate_objects(x, staged, &ids);
    proof {
        lemma_batch(s0, s0.len() as int);
        assert(crate::input_files::integrate::all_ids_ok(mid, s0, ids@)) by {
            assert forall|i: int| 0 <= i < ids.len() implies (#[trigger] ids@[i])
                < mid.symtab.syms.len() by {
                assert(mid.symtab.ids().contains_key(names[i]));
            }
        }
        assert(interned(start, mid, batch_of(s0, s0.len() as int), ids@));
    }
    r
}

/// True when an option was acted on before.
pub open spec fn is_processed(done: Seq<Seq<Seq<u8>>>, opt: Seq<Seq<u8>>) -> bool {
    done.contains(opt)
}

/// The options of an object, from the `k`th back, that were not acted on.
pub open spec fn obj_options(o: ObjectFile, done: Seq<Seq<Seq<u8>>>, k: int) -> Seq<Seq<Seq<u8>>>
    decreases k,
{
    if k <= 0 {
        Seq::empty()
    } else {
        let opt = bytes::views(o.linker_options[k - 1]@);
        if is_processed(done, opt) {
            obj_options(o, done, k - 1)
        } else {
            obj_options(o, done, k - 1).push(opt)
        }
    }
}

/// The options of the first `n` objects, as far as they are live.
pub open spec fn options_to(objs: Seq<ObjectFile>, done: Seq<Seq<Seq<u8>>>, n: int) -> Seq<
    Seq<Seq<u8>>,
>
    decreases n,
{
    if n <= 0 {
        Seq::empty()
    } else if objs[n - 1].is_alive {
        options_to(objs, done, n - 1) + obj_options(
            objs[n - 1],
            done,
            objs[n - 1].linker_options.len() as int,
        )
    } else {
        options_to(objs, done, n - 1)
    }
}

fn same_names(a: &Vec<Vec<u8>>, b: &Vec<Vec<u8>>) -> (r: bool)
    ensures
        r == (bytes::views(a@) == bytes::views(b@)),
{
    let ghost av = bytes::views(a@);
    let ghost bv = bytes::views(b@);
    assert(av.len() == a.len() && bv.len() == b.len());
    if a.len() != b.len() {
        return false;
    }
    let mut i: usize = 0;
    while i < a.len()
        invariant
            i <= a.len(),
            a.len() == b.len(),
            av == bytes::views(a@),
            bv == bytes::views(b@),
            forall|k: int| 0 <= k < i ==> #[trigger] av[k] == bv[k],
        decreases a.len() - i,
    {
        assert(av[i as int] == a[i as int]@);
        assert(bv[i as int] == b[i as int]@);
        if !bytes::same(a[i].as_slice(), b[i].as_slice()) {
            return false;
        }
        i += 1;
    }
    assert(av =~= bv);
    true
}

fn check_processed(done: &Vec<Vec<Vec<u8>>>, opt: &Vec<Vec<u8>>) -> (r: bool)
    ensures
        r == is_processed(
            crate::input_files::commands::option_views(done@),
            bytes::views(opt@),
        ),
{
    let ghost dv = crate::input_files::commands::option_views(done@);
    let mut i: usize = 0;
    while i < done.len()
        invariant
            i <= done.len(),
            dv == crate::input_files::commands::option_views(done@),
            forall|k: int| 0 <= k < i ==> #[trigger] dv[k] != bytes::views(opt@),
        decreases done.len() - i,
    {
        assert(dv[i as int] == bytes::views(done[i as int]@));
        if same_names(&done[i], opt) {
            assert(dv[i as int] == bytes::views(opt@));
            return true;
        }
        i += 1;
    }
    assert(dv.len() == done.len());
    false
}

fn copy_names(v: &Vec<Vec<u8>>) -> (r: Vec<Vec<u8>>)
    ensures
        bytes::views(r@) == bytes::views(v@),
{
    let mut r: Vec<Vec<u8>> = Vec::new();
    assert(bytes::views(r@) =~= Seq::empty());
    text::push_names(&mut r, v);
    assert(bytes::views(r@) =~= bytes::views(v@));
    r
}

fn push_options(o: &ObjectFile, done: &Vec<Vec<Vec<u8>>>, out: &mut Vec<Vec<Vec<u8>>>)
    ensures
        crate::input_files::commands::option_views(final(out)@)
            == crate::input_files::commands::option_views(old(out)@) + obj_options(
            *o,
            crate::input_files::commands::option_views(done@),
            o.linker_options.len() as int,
        ),
{
    let ghost dv = crate::input_files::commands::option_views(done@);
    let ghost start = crate::input_files::commands::option_views(out@);
    assert(start + Seq::<Seq<Seq<u8>>>::empty() =~= start);
    let mut k: usize = 0;
    while k < o.linker_options.len()
        invariant
            k <= o.linker_options.len(),
            dv == crate::input_files::commands::option_views(done@),
            crate::input_files::commands::option_views(out@) == start + obj_options(
                *o,
                dv,
                k as int,
            ),
        decreases o.linker_options.len() - k,
    {
        let ghost head = obj_options(*o, dv, k as int);
        let opt: &Vec<Vec<u8>> = &o.linker_options[k];
        let ghost ov = bytes::views(opt@);
        if !check_processed(done, opt) {
            let ghost before = out@;
            out.push(copy_names(opt));
            assert(crate::input_files::commands::option_views(out@)
                =~= crate::input_files::commands::option_views(before).push(ov));
            assert((start + head).push(ov) =~= start + head.push(ov));
        }
        k += 1;
    }
}

/// Lists the auto-link options of live objects that were not acted on.
pub fn pending_options(objs: &Vec<ObjectFile>, done: &Vec<Vec<Vec<u8>>>) -> (r: Vec<Vec<Vec<u8>>>)
    ensures
        crate::input_files::commands::option_views(r@) == options_to(
            objs@,
            crate::input_files::commands::option_views(done@),
            objs.len() as int,
        ),
{
    let ghost dv = crate::input_files::commands::option_views(done@);
    let mut r: Vec<Vec<Vec<u8>>> = Vec::new();
    assert(crate::input_files::commands::option_views(r@) =~= Seq::empty());
    let mut n: usize = 0;
    while n < objs.len()
        invariant
            n <= objs.len(),
            dv == crate::input_files::commands::option_views(done@),
            crate::input_files::commands::option_views(r@) == options_to(objs@, dv, n as int),
        decreases objs.len() - n,
    {
        if objs[n].is_alive {
            push_options(&objs[n], done, &mut r);
        }
        n += 1;
    }
    r
}

/// Where an auto-link option leads. `None` for one that is not known.
pub open spec fn option_target(opt: Seq<Seq<u8>>) -> Option<TargetView> {
    if opt.len() == 1 {
        match crate::input_files::dylib::behind(opt[0], "-l".spec_bytes()) {
            Some(name) => Some(TargetView::Lib(name)),
            None => None,
        }
    } else if opt.len() == 2 && opt[0] == "-framework".spec_bytes() {
        Some(TargetView::Framework(opt[1]))
    } else {
        None
    }
}

/// Finds out where an auto-link option leads.
pub fn autolink_target(opt: &Vec<Vec<u8>>) -> (r: Option<Target>)
    ensures
        match r {
            Some(t) => option_target(bytes::views(opt@)) == Some(t@),
            None => option_target(bytes::views(opt@)) is None,
        },
{
    let ghost ov = bytes::views(opt@);
    assert(ov.len() == opt.len());
    if opt.len() == 1 {
        assert(ov[0] == opt[0]@);
        return match crate::input_files::dylib::strip_prefix(opt[0].as_slice(), "-l".as_bytes()) {
            Some(name) => Some(Target::Lib(name)),
            None => None,
        };
    }
    if opt.len() == 2 {
        assert(ov[0] == opt[0]@ && ov[1] == opt[1]@);
        if bytes::same(opt[0].as_slice(), "-framework".as_bytes()) {
            return Some(Target::Framework(bytes::to_vec(opt[1].as_slice())));
        }
    }
    None
}

/// What a round of auto-linking added to the link.
#[derive(Clone, Copy, Debug, PartialEq, Eq, Structural)]
pub enum Autolinked {
    Nothing,
    /// Only libraries, starting at this index. They cannot change which
    /// object defines what, so that a light claim pass replaces a full
    /// resolution.
    DylibsOnly(usize),
    Objects,
}

/// Says what a round of auto-linking added: how many objects and libraries
/// there were before, and are now.
pub fn autolinked(
    objs_before: usize,
    dylibs_before: usize,
    objs: usize,
    dylibs: usize,
) -> (r: Autolinked)
    ensures
        r == if objs != objs_before {
            Autolinked::Objects
        } else if dylibs != dylibs_before {
            Autolinked::DylibsOnly(dylibs_before)
        } else {
            Autolinked::Nothing
        },
{
    if objs != objs_before {
        Autolinked::Objects
    } else if dylibs != dylibs_before {
        Autolinked::DylibsOnly(dylibs_before)
    } else {
        Autolinked::Nothing
    }
}

} // verus!
