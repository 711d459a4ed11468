//! Reports for other tools: the -map file and the -dependency_info file.
use crate::arch::Arch;
use crate::context::Context;
use crate::input_files::ObjectFile;
use crate::inputs::resolve_isec;
use crate::name_set::NameSet;
use crate::output_chunks::header::{Chunk, ChunkHeader, HeaderView, OutputSegment};
use crate::passes::symtab::sort_by_name;
use crate::symbol::{Origin, Symbol};
use crate::util::{bytes, numbers, order};
use vstd::prelude::*;
use vstd::string::*;

verus! {

/// One entry of a dependency file: an opcode and a NUL-terminated string.
pub open spec fn dependency(op: u8, s: Seq<u8>) -> Seq<u8> {
    seq![op] + s + seq![0u8]
}

/// The entries of the first `n` input files.
pub open spec fn input_entries(names: Seq<Seq<u8>>, n: int) -> Seq<u8>
    decreases n,
{
    if n <= 0 {
        Seq::empty()
    } else {
        input_entries(names, n - 1) + dependency(0x10, names[n - 1])
    }
}

/// The file that an object came from: its archive, or itself.
pub open spec fn source_of(o: ObjectFile) -> Seq<u8> {
    match o.parent {
        Some(p) => p@,
        None => o.name@,
    }
}

/// True for a file that the link read: one that a live object came from, or
/// one that was visited.
pub open spec fn was_read(objs: Seq<ObjectFile>, visited: Seq<Seq<u8>>, name: Seq<u8>) -> bool {
    visited.contains(name) || exists|o: int|
        0 <= o < objs.len() && (#[trigger] objs[o]).is_alive && source_of(objs[o]) == name
}

/// True for names in strictly increasing order.
pub open spec fn increasing(names: Seq<Seq<u8>>) -> bool {
    forall|i: int, j: int|
        0 <= i < j < names.len() ==> order::lex_before(#[trigger] names[i], #[trigger] names[j])
}

fn push_dependency(buf: &mut Vec<u8>, op: u8, s: &[u8])
    ensures
        final(buf)@ == old(buf)@ + dependency(op, s@),
{
    let ghost before = buf@;
    buf.push(op);
    bytes::append(buf, s);
    buf.push(0);
    assert(buf@ =~= before + dependency(op, s@));
}

proof fn lemma_all_names(names: Seq<Seq<u8>>, more: Seq<Seq<u8>>, n: int, x: Seq<u8>)
    requires
        0 <= n <= more.len(),
    ensures
        crate::name_set::with_names(names, more, n).contains(x) <==> names.contains(x)
            || more.take(n).contains(x),
    decreases n,
{
    if n > 0 {
        lemma_all_names(names, more, n - 1, x);
        let before = crate::name_set::with_names(names, more, n - 1);
        let m = more[n - 1];
        lemma_one_name(before, m, x);
        let (a, b) = (more.take(n - 1), more.take(n));
        if a.contains(x) {
            let k = choose|k: int| 0 <= k < a.len() && a[k] == x;
            assert(b[k] == x);
        }
        assert(b[n - 1] == m);
        if b.contains(x) && x != m {
            let k = choose|k: int| 0 <= k < b.len() && b[k] == x;
            assert(a[k] == x);
        }
    }
}

proof fn lemma_one_name(names: Seq<Seq<u8>>, m: Seq<u8>, x: Seq<u8>)
    ensures
        crate::name_set::with_name(names, m).contains(x) <==> names.contains(x) || x == m,
{
    let after = crate::name_set::with_name(names, m);
    if !names.contains(m) {
        assert(after.last() == m);
        if names.contains(x) {
            let k = choose|k: int| 0 <= k < names.len() && names[k] == x;
            assert(after[k] == x);
        }
        if after.contains(x) && x != m {
            let k = choose|k: int| 0 <= k < after.len() && after[k] == x;
            assert(names[k] == x);
        }
    }
}

/// Lists the files that the link read, sorted and each once.
pub fn list_inputs(objs: &Vec<ObjectFile>, visited: &Vec<Vec<u8>>) -> (r: Vec<Vec<u8>>)
    ensures
        increasing(bytes::views(r@)),
        forall|name: Seq<u8>| #[trigger]
            bytes::views(r@).contains(name) <==> was_read(
                objs@,
                bytes::views(visited@),
                name,
            ),
{
    let ghost vv = bytes::views(visited@);
    let mut set: NameSet = NameSet::new();
    set.insert_all(visited);
    proof {
        assert forall|x: Seq<u8>| set@.contains(x) <==> vv.contains(x) by {
            lemma_all_names(Seq::empty(), vv, vv.len() as int, x);
            assert(vv.take(vv.len() as int) =~= vv);
        }
    }
    let mut o: usize = 0;
    while o < objs.len()
        invariant
            o <= objs.len(),
            vv == bytes::views(visited@),
            set.wf(),
            forall|x: Seq<u8>| #[trigger]
                set@.contains(x) <==> vv.contains(x) || exists|k: int|
                    0 <= k < o && (#[trigger] objs[k]).is_alive && source_of(objs[k]) == x,
        decreases objs.len() - o,
    {
        let ghost before = set@;
        let obj: &ObjectFile = &objs[o];
        if obj.is_alive {
            match &obj.parent {
                Some(p) => {
                    set.insert(p.as_slice());
                },
                None => {
                    set.insert(obj.name.as_slice());
                },
            }
            proof {
                assert forall|x: Seq<u8>| #[trigger] set@.contains(x) <==> vv.contains(x)
                    || exists|k: int|
                    0 <= k < o + 1 && (#[trigger] objs[k]).is_alive && source_of(objs[k]) == x by {
                    lemma_one_name(before, source_of(*obj), x);
                    assert(before.contains(x) <==> vv.contains(x) || exists|k: int|
                        0 <= k < o && (#[trigger] objs[k]).is_alive && source_of(objs[k]) == x);
                    assert(objs[o as int].is_alive);
                }
            }
        }
        o += 1;
    }
    proof {
        set.lemma_distinct();
    }
    let ghost sv = set@;
    let names: Vec<Vec<u8>> = set.into_names();
    let at: Vec<usize> = order::stable_order(names.as_slice());
    let mut r: Vec<Vec<u8>> = Vec::new();
    while r.len() < at.len()
        invariant
            r.len() <= at.len(),
            at.len() == names.len(),
            order::is_stable_order(names@, at@),
            forall|k: int| 0 <= k < r.len() ==> (#[trigger] r[k])@ == names[at[k] as int]@,
        decreases at.len() - r.len(),
    {
        let k: usize = at[r.len()];
        r.push(bytes::to_vec(names[k].as_slice()));
    }
    proof {
        let rv = bytes::views(r@);
        let nv = bytes::views(names@);
        assert forall|i: int, j: int| 0 <= i < j < rv.len() implies order::lex_before(
            #[trigger] rv[i],
            #[trigger] rv[j],
        ) by {
            let (a, b) = (at[i] as int, at[j] as int);
            assert(order::item_before(names@, a, b));
            if a == b {
                order::lemma_item_before_asymmetric(names@, a, b);
            }
            assert(nv[a] == names[a]@ && nv[b] == names[b]@);
            assert(nv[a] != nv[b]);
            order::lemma_lex_total(nv[a], nv[b]);
        }
        assert forall|x: Seq<u8>| #[trigger] rv.contains(x) <==> was_read(objs@, vv, x) by {
            assert(sv.contains(x) <==> was_read(objs@, vv, x));
            if rv.contains(x) {
                let k = choose|k: int| 0 <= k < rv.len() && rv[k] == x;
                assert(nv[at[k] as int] == x);
            }
            if nv.contains(x) {
                let p = choose|p: int| 0 <= p < nv.len() && nv[p] == x;
                assert(at@.contains(p as usize));
                let k = choose|k: int| 0 <= k < at.len() && at@[k] == p as usize;
                assert(rv[k] == x);
            }
        }
    }
    r
}

/// The contents of a dependency file: the linker's version, the files that
/// it read and the file that it wrote.
pub open spec fn dependency_bytes(version: Seq<u8>, inputs: Seq<Seq<u8>>, output: Seq<u8>) -> Seq<
    u8,
> {
    dependency(0, "mold-macho ".spec_bytes() + version) + input_entries(
        inputs,
        inputs.len() as int,
    ) + dependency(0x40, output)
}

/// Builds the contents of the -dependency_info file, which build systems
/// read to learn which files the link consumed.
pub fn write_dependency_info(version: &[u8], inputs: &Vec<Vec<u8>>, output: &[u8]) -> (r: Vec<u8>)
    ensures
        r@ == dependency_bytes(version@, bytes::views(inputs@), output@),
{
    let ghost iv = bytes::views(inputs@);
    let mut title: Vec<u8> = Vec::new();
    bytes::append(&mut title, "mold-macho ".as_bytes());
    bytes::append(&mut title, version);
    assert(title@ =~= "mold-macho ".spec_bytes() + version@);
    let mut buf: Vec<u8> = Vec::new();
    push_dependency(&mut buf, 0, title.as_slice());
    let ghost head = dependency(0, title@);
    assert(buf@ =~= head);
    assert(head + Seq::<u8>::empty() =~= head);
    let mut n: usize = 0;
    while n < inputs.len()
        invariant
            n <= inputs.len(),
            iv == bytes::views(inputs@),
            buf@ == head + input_entries(iv, n as int),
        decreases inputs.len() - n,
    {
        assert(iv[n as int] == inputs[n as int]@);
        push_dependency(&mut buf, 0x10, inputs[n].as_slice());
        assert(buf@ =~= head + input_entries(iv, n + 1));
        n += 1;
    }
    push_dependency(&mut buf, 0x40, output);
    buf
}

/// A number in a field of three, right-aligned.
pub open spec fn in_three(n: int) -> Seq<u8> {
    numbers::right_aligned(numbers::decimal(n), 3, 0x20)
}

/// An address in at least eight digits.
pub open spec fn in_eight(n: int) -> Seq<u8> {
    "0x".spec_bytes() + numbers::right_aligned(numbers::hexadecimal(n), 8, 0x30)
}

fn push_in_three(buf: &mut Vec<u8>, n: u64)
    ensures
        final(buf)@ == old(buf)@ + in_three(n as int),
{
    let mut d: Vec<u8> = Vec::new();
    numbers::push_decimal(&mut d, n);
    assert(d@ =~= numbers::decimal(n as int));
    numbers::push_aligned(buf, d.as_slice(), 3, 0x20);
}

fn push_in_eight(buf: &mut Vec<u8>, n: u64)
    ensures
        final(buf)@ == old(buf)@ + in_eight(n as int),
{
    let ghost before = buf@;
    let mut d: Vec<u8> = Vec::new();
    numbers::push_hexadecimal(&mut d, n);
    assert(d@ =~= numbers::hexadecimal(n as int));
    bytes::append(buf, "0x".as_bytes());
    numbers::push_aligned(buf, d.as_slice(), 8, 0x30);
    assert(buf@ =~= before + in_eight(n as int));
}

/// The line of an object file.
pub open spec fn object_line(i: int, name: Seq<u8>) -> Seq<u8> {
    seq![0x5bu8] + in_three(i) + seq![0x5du8, 0x20] + name + seq![0x0au8]
}

/// The lines of the live ones among the first `n` objects.
pub open spec fn object_lines(objs: Seq<ObjectFile>, n: int) -> Seq<u8>
    decreases n,
{
    if n <= 0 {
        Seq::empty()
    } else if objs[n - 1].is_alive {
        object_lines(objs, n - 1) + object_line(n - 1, objs[n - 1].name@)
    } else {
        object_lines(objs, n - 1)
    }
}

fn push_object_lines(buf: &mut Vec<u8>, objs: &Vec<ObjectFile>)
    ensures
        final(buf)@ == old(buf)@ + object_lines(objs@, objs.len() as int),
{
    let ghost start = buf@;
    assert(start + Seq::<u8>::empty() =~= start);
    let mut n: usize = 0;
    while n < objs.len()
        invariant
            n <= objs.len(),
            buf@ == start + object_lines(objs@, n as int),
        decreases objs.len() - n,
    {
        let ghost before = buf@;
        if objs[n].is_alive {
            buf.push(0x5b);
            push_in_three(buf, n as u64);
            buf.push(0x5d);
            buf.push(0x20);
            bytes::append(buf, objs[n].name.as_slice());
            buf.push(0x0a);
            assert(buf@ =~= before + object_line(n as int, objs[n as int].name@));
            assert(buf@ =~= start + object_lines(objs@, n + 1));
        }
        n += 1;
    }
}

/// The line of a section.
pub open spec fn section_line(h: HeaderView) -> Seq<u8> {
    in_eight(h.addr as int) + seq![9u8] + in_eight(h.size as int) + seq![9u8] + h.segname + seq![
        9u8,
    ] + h.sectname + seq![0x0au8]
}

/// The lines of the sections among the first `k` chunks of a list.
pub open spec fn listed_sections(chunks: Seq<Chunk>, list: Seq<usize>, k: int) -> Seq<u8>
    decreases k,
{
    if k <= 0 {
        Seq::empty()
    } else {
        let h = chunks[list[k - 1] as int].hdr@;
        if h.is_sect {
            listed_sections(chunks, list, k - 1) + section_line(h)
        } else {
            listed_sections(chunks, list, k - 1)
        }
    }
}

/// The lines of the sections of the first `n` segments.
pub open spec fn section_lines(chunks: Seq<Chunk>, segs: Seq<OutputSegment>, n: int) -> Seq<u8>
    decreases n,
{
    if n <= 0 {
        Seq::empty()
    } else {
        section_lines(chunks, segs, n - 1) + listed_sections(
            chunks,
            segs[n - 1].chunks@,
            segs[n - 1].chunks.len() as int,
        )
    }
}

fn push_section_line(buf: &mut Vec<u8>, h: &ChunkHeader)
    ensures
        final(buf)@ == old(buf)@ + section_line(h@),
{
    let ghost before = buf@;
    push_in_eight(buf, h.addr);
    buf.push(9);
    push_in_eight(buf, h.size);
    buf.push(9);
    bytes::append(buf, h.segname.as_slice());
    buf.push(9);
    bytes::append(buf, h.sectname.as_slice());
    buf.push(0x0a);
    assert(buf@ =~= before + section_line(h@));
}

fn push_section_lines(buf: &mut Vec<u8>, chunks: &Vec<Chunk>, segs: &Vec<OutputSegment>)
    requires
        crate::passes::chunk_list::segs_ok(segs@, chunks.len() as int),
    ensures
        final(buf)@ == old(buf)@ + section_lines(chunks@, segs@, segs.len() as int),
{
    let ghost start = buf@;
    assert(start + Seq::<u8>::empty() =~= start);
    let mut n: usize = 0;
    while n < segs.len()
        invariant
            n <= segs.len(),
            crate::passes::chunk_list::segs_ok(segs@, chunks.len() as int),
            buf@ == start + section_lines(chunks@, segs@, n as int),
        decreases segs.len() - n,
    {
        let list: &Vec<usize> = &segs[n].chunks;
        let ghost before = buf@;
        assert(before + Seq::<u8>::empty() =~= before);
        let mut k: usize = 0;
        while k < list.len()
            invariant
                k <= list.len(),
                n < segs.len(),
                *list == segs[n as int].chunks,
                crate::passes::chunk_list::segs_ok(segs@, chunks.len() as int),
                buf@ == before + listed_sections(chunks@, list@, k as int),
            decreases list.len() - k,
        {
            assert(segs[n as int].chunks[k as int] < chunks.len());
            let h: &ChunkHeader = &chunks[list[k]].hdr;
            let ghost mid = buf@;
            if h.is_sect {
                push_section_line(buf, h);
                assert(buf@ =~= before + listed_sections(chunks@, list@, k + 1));
            }
            k += 1;
        }
        assert(buf@ =~= start + section_lines(chunks@, segs@, n + 1));
        n += 1;
    }
}

/// True for a symbol that the map lists: a named one that a live subsection
/// of an object defines.
pub open spec fn is_mapped(ctx: Context, s: Symbol) -> bool {
    match (s.defined_by(), s.section()) {
        (Origin::Obj(_), Some(i)) => s.name.len() > 0 && ctx.inputs.isecs[crate::inputs::survivor(
            ctx.inputs.isecs@,
            i as int,
        )].is_alive,
        _ => false,
    }
}

/// The symbols among the first `n` that the map lists.
pub open spec fn mapped_to(ctx: Context, n: int) -> Seq<u32>
    decreases n,
{
    if n <= 0 {
        Seq::empty()
    } else if is_mapped(ctx, ctx.inputs.symtab.syms[n - 1]) {
        mapped_to(ctx, n - 1).push((n - 1) as u32)
    } else {
        mapped_to(ctx, n - 1)
    }
}

/// What a symbol is sorted by, besides its name: its address and its
/// object.
pub open spec fn map_key<E: Arch>(ctx: Context, id: u32) -> (u64, u64, u64) {
    (ctx.addr_of_sym::<E>(id as int), ctx.inputs.symtab.syms[id as int].file as u64, 0)
}

/// The symbols that the map lists, by address, object and name.
pub open spec fn mapped_symbols<E: Arch>(ctx: Context) -> Seq<u32> {
    let ids = crate::passes::symtab::by_name(
        ctx.inputs.symtab.syms@,
        mapped_to(ctx, ctx.inputs.symtab.syms.len() as int),
    );
    order::stable_order_of(ids.map_values(|id: u32| map_key::<E>(ctx, id))).map_values(
        |k: usize| ids[k as int],
    )
}

/// The line of a symbol.
pub open spec fn symbol_line<E: Arch>(ctx: Context, id: u32) -> Seq<u8> {
    let s = ctx.inputs.symtab.syms[id as int];
    in_eight(ctx.addr_of_sym::<E>(id as int) as int) + seq![9u8, 0x5b] + in_three(s.file as int)
        + seq![0x5du8, 0x20] + s.name@ + seq![0x0au8]
}

/// The lines of the first `n` symbols of a list.
pub open spec fn symbol_lines<E: Arch>(ctx: Context, ids: Seq<u32>, n: int) -> Seq<u8>
    decreases n,
{
    if n <= 0 {
        Seq::empty()
    } else {
        symbol_lines::<E>(ctx, ids, n - 1) + symbol_line::<E>(ctx, ids[n - 1])
    }
}

fn list_mapped(ctx: &Context) -> (r: Vec<u32>)
    requires
        ctx.wf(),
    ensures
        r@ == mapped_to(*ctx, ctx.inputs.symtab.syms.len() as int),
        forall|i: int| 0 <= i < r.len() ==> (#[trigger] r[i]) < ctx.inputs.symtab.syms.len(),
{
    proof {
        crate::inputs::lemma_wf_redirects(ctx.inputs);
    }
    let mut r: Vec<u32> = Vec::new();
    let mut n: usize = 0;
    while n < ctx.inputs.symtab.syms.len()
        invariant
            n <= ctx.inputs.symtab.syms.len(),
            ctx.wf(),
            crate::inputs::redirects_exist(ctx.inputs.isecs@),
            r@ == mapped_to(*ctx, n as int),
            forall|i: int| 0 <= i < r.len() ==> (#[trigger] r[i]) < ctx.inputs.symtab.syms.len(),
        decreases ctx.inputs.symtab.syms.len() - n,
    {
        let s: &Symbol = &ctx.inputs.symtab.syms[n];
        assert(ctx.inputs.sym_ok(*s));
        if let Origin::Obj(_) = s.origin() {
            if let Some(i) = s.isec() {
                let at: usize = resolve_isec(&ctx.inputs.isecs, i as usize);
                if s.name.len() > 0 && ctx.inputs.isecs[at].is_alive {
                    r.push(n as u32);
                }
            }
        }
        n += 1;
    }
    r
}

fn sort_mapped<E: Arch>(ctx: &Context) -> (r: Vec<u32>)
    requires
        ctx.wf(),
    ensures
        r@ == mapped_symbols::<E>(*ctx),
        forall|i: int| 0 <= i < r.len() ==> (#[trigger] r[i]) < ctx.inputs.symtab.syms.len(),
{
    let listed: Vec<u32> = list_mapped(ctx);
    let ids: Vec<u32> = sort_by_name(&ctx.inputs.symtab.syms, &listed);
    let mut keys: Vec<(u64, u64, u64)> = Vec::new();
    while keys.len() < ids.len()
        invariant
            keys.len() <= ids.len(),
            ctx.wf(),
            forall|i: int|
                0 <= i < ids.len() ==> (#[trigger] ids[i]) < ctx.inputs.symtab.syms.len(),
            forall|i: int|
                0 <= i < keys.len() ==> #[trigger] keys[i] == map_key::<E>(*ctx, ids[i]),
        decreases ids.len() - keys.len(),
    {
        let id: u32 = ids[keys.len()];
        let addr: u64 = ctx.sym_addr::<E>(id);
        keys.push((addr, ctx.inputs.symtab.syms[id as usize].file as u64, 0));
    }
    assert(keys@ =~= ids@.map_values(|id: u32| map_key::<E>(*ctx, id)));
    let at: Vec<usize> = order::stable_order(keys.as_slice());
    let mut r: Vec<u32> = Vec::new();
    while r.len() < at.len()
        invariant
            r.len() <= at.len(),
            forall|i: int|
                0 <= i < ids.len() ==> (#[trigger] ids[i]) < ctx.inputs.symtab.syms.len(),
            forall|i: int| 0 <= i < at.len() ==> (#[trigger] at[i]) < ids.len(),
            forall|i: int| 0 <= i < r.len() ==> #[trigger] r[i] == ids[at[i] as int],
        decreases at.len() - r.len(),
    {
        let k: usize = at[r.len()];
        r.push(ids[k]);
    }
    assert(r@ =~= mapped_symbols::<E>(*ctx));
    r
}

fn push_symbol_lines<E: Arch>(buf: &mut Vec<u8>, ctx: &Context, ids: &Vec<u32>)
    requires
        ctx.wf(),
        forall|i: int| 0 <= i < ids.len() ==> (#[trigger] ids[i]) < ctx.inputs.symtab.syms.len(),
    ensures
        final(buf)@ == old(buf)@ + symbol_lines::<E>(*ctx, ids@, ids.len() as int),
{
    let ghost start = buf@;
    assert(start + Seq::<u8>::empty() =~= start);
    let mut n: usize = 0;
    while n < ids.len()
        invariant
            n <= ids.len(),
            ctx.wf(),
            forall|i: int|
                0 <= i < ids.len() ==> (#[trigger] ids[i]) < ctx.inputs.symtab.syms.len(),
            buf@ == start + symbol_lines::<E>(*ctx, ids@, n as int),
        decreases ids.len() - n,
    {
        let ghost before = buf@;
        let id: u32 = ids[n];
        let addr: u64 = ctx.sym_addr::<E>(id);
        let s: &Symbol = &ctx.inputs.symtab.syms[id as usize];
        push_in_eight(buf, addr);
        buf.push(9);
        buf.push(0x5b);
        push_in_three(buf, s.file as u64);
        buf.push(0x5d);
        buf.push(0x20);
        bytes::append(buf, s.name.as_slice());
        buf.push(0x0a);
        assert(buf@ =~= before + symbol_line::<E>(*ctx, id));
        assert(buf@ =~= start + symbol_lines::<E>(*ctx, ids@, n + 1));
        n += 1;
    }
}

/// A line of text.
pub open spec fn line(s: Seq<u8>) -> Seq<u8> {
    s + seq![0x0au8]
}

fn push_line(buf: &mut Vec<u8>, s: &[u8])
    ensures
        final(buf)@ == old(buf)@ + line(s@),
{
    let ghost before = buf@;
    bytes::append(buf, s);
    buf.push(0x0a);
    assert(buf@ =~= before + line(s@));
}

/// The map's lines about files and sections.
pub open spec fn map_head(ctx: Context, arch: Seq<u8>) -> Seq<u8> {
    line("# Path: ".spec_bytes() + ctx.args.output@) + line("# Arch: ".spec_bytes() + arch) + line(
        "# Object files:".spec_bytes(),
    ) + object_lines(ctx.inputs.objs@, ctx.inputs.objs.len() as int) + line(
        "# Sections:".spec_bytes(),
    ) + line("# Address\tSize    \tSegment\tSection".spec_bytes()) + section_lines(
        ctx.layout.chunks@,
        ctx.layout.segments@,
        ctx.layout.segments.len() as int,
    )
}

/// The contents of the map: where every object file, section and symbol
/// ended up.
pub open spec fn map_text<E: Arch>(ctx: Context, arch: Seq<u8>) -> Seq<u8> {
    map_head(ctx, arch) + line("# Symbols:".spec_bytes()) + line(
        "# Address\tFile  Name".spec_bytes(),
    ) + symbol_lines::<E>(
        ctx,
        mapped_symbols::<E>(ctx),
        mapped_symbols::<E>(ctx).len() as int,
    )
}

fn push_titled(buf: &mut Vec<u8>, title: &[u8], s: &[u8])
    ensures
        final(buf)@ == old(buf)@ + line(title@ + s@),
{
    let ghost before = buf@;
    bytes::append(buf, title);
    bytes::append(buf, s);
    buf.push(0x0a);
    assert(buf@ =~= before + line(title@ + s@));
}

/// Builds the contents of the -map file.
pub fn print_map<E: Arch>(ctx: &Context, arch: &[u8]) -> (r: Vec<u8>)
    requires
        ctx.wf(),
        crate::passes::chunk_list::segs_ok(
            ctx.layout.segments@,
            ctx.layout.chunks.len() as int,
        ),
    ensures
        r@ == map_text::<E>(*ctx, arch@),
{
    let mut buf: Vec<u8> = Vec::new();
    push_titled(&mut buf, "# Path: ".as_bytes(), ctx.args.output.as_slice());
    assert(buf@ =~= line("# Path: ".spec_bytes() + ctx.args.output@));
    push_titled(&mut buf, "# Arch: ".as_bytes(), arch);
    push_line(&mut buf, "# Object files:".as_bytes());
    push_object_lines(&mut buf, &ctx.inputs.objs);
    push_line(&mut buf, "# Sections:".as_bytes());
    push_line(&mut buf, "# Address\tSize    \tSegment\tSection".as_bytes());
    push_section_lines(&mut buf, &ctx.layout.chunks, &ctx.layout.segments);
    assert(buf@ == map_head(*ctx, arch@));
    let ids: Vec<u32> = sort_mapped::<E>(ctx);
    push_line(&mut buf, "# Symbols:".as_bytes());
    push_line(&mut buf, "# Address\tFile  Name".as_bytes());
    push_symbol_lines::<E>(&mut buf, ctx, &ids);
    buf
}

} // verus!
