//! The tables of an image, read back as the loader reads them.
use mold_macho::chunks::bind_info::{encode_bind_info, Bind};
use mold_macho::chunks::function_starts::encode_function_starts;
use mold_macho::chunks::rebase_info::encode_rebase_info;
use mold_macho::chunks::split_info::{encode_split_info, SplitEntry};
use mold_macho::macho::{MachHeader, MachRel, NList};
use mold_macho::output_chunks::export_trie::{encode_export_trie, Export, Exported};
use mold_macho::output_chunks::header::{OutputSegment, SegmentPlace};
use mold_macho::output_chunks::places::segment_and_offset;
use mold_macho::output_chunks::string_table::{encode_string_table, place_names, Named};

fn read_uleb(b: &[u8], at: &mut usize) -> u64 {
    let mut v: u64 = 0;
    let mut shift = 0;
    loop {
        let c = b[*at];
        *at += 1;
        v |= ((c & 0x7f) as u64) << shift;
        shift += 7;
        if c & 0x80 == 0 {
            return v;
        }
    }
}

fn read_sleb(b: &[u8], at: &mut usize) -> i64 {
    let mut v: i64 = 0;
    let mut shift = 0;
    loop {
        let c = b[*at];
        *at += 1;
        v |= ((c & 0x7f) as i64) << shift;
        shift += 7;
        if c & 0x80 == 0 {
            if c & 0x40 != 0 && shift < 64 {
                v |= -1 << shift;
            }
            return v;
        }
    }
}

fn read_name(b: &[u8], at: &mut usize) -> Vec<u8> {
    let start = *at;
    while b[*at] != 0 {
        *at += 1;
    }
    *at += 1;
    b[start..*at - 1].to_vec()
}

/// __TEXT at 4 GiB and __DATA behind it.
fn segments() -> Vec<OutputSegment> {
    let mut text = OutputSegment::new(b"__TEXT");
    text.cmd =
        SegmentPlace { vmaddr: 0x1_0000_0000, vmsize: 0x4000, fileoff: 0, filesize: 0x4000 };
    let mut data = OutputSegment::new(b"__DATA");
    data.cmd =
        SegmentPlace { vmaddr: 0x1_0000_4000, vmsize: 0x8000, fileoff: 0x4000, filesize: 0x4000 };
    vec![text, data]
}

/// The addresses that a rebase opcode stream names.
fn rebased(b: &[u8], segs: &[OutputSegment]) -> Vec<u64> {
    let mut out = Vec::new();
    let mut at = 0;
    let mut addr: u64 = 0;
    while at < b.len() {
        let op = b[at] & 0xf0;
        let imm = (b[at] & 0x0f) as u64;
        at += 1;
        let mut times = 0;
        let mut skip = 0;
        match op {
            0x00 => break,
            0x10 => assert_eq!(imm, 1),
            0x20 => addr = segs[imm as usize].cmd.vmaddr + read_uleb(b, &mut at),
            0x30 => addr = addr.wrapping_add(read_uleb(b, &mut at)),
            0x40 => addr += imm * 8,
            0x50 => times = imm,
            0x60 => times = read_uleb(b, &mut at),
            0x70 => {
                times = 1;
                skip = read_uleb(b, &mut at);
            }
            0x80 => {
                times = read_uleb(b, &mut at);
                skip = read_uleb(b, &mut at);
            }
            _ => panic!("bad opcode"),
        }
        for _ in 0..times {
            out.push(addr);
            addr = addr.wrapping_add(8).wrapping_add(skip);
        }
    }
    out
}

#[test]
fn rebase_stream_names_each_pointer() {
    let segs = segments();
    let locs: Vec<u64> = vec![
        0x1_0000_4100,
        0x1_0000_4000,
        0x1_0000_4008,
        0x1_0000_4010,
        0x1_0000_5000,
        0x1_0000_7ff8,
    ];
    let b = encode_rebase_info(&locs, &segs).unwrap();
    let mut want = locs.clone();
    want.sort();
    assert_eq!(rebased(&b, &segs), want);
    assert_eq!(b.len() % 8, 0);
}

#[test]
fn rebase_stream_of_nothing_is_empty() {
    assert_eq!(encode_rebase_info(&Vec::new(), &segments()), Some(Vec::new()));
}

#[test]
fn rebase_of_a_stray_pointer_fails() {
    assert_eq!(encode_rebase_info(&vec![0x10], &segments()), None);
}

#[test]
fn bind_stream_names_each_import() {
    let segs = segments();
    let bind = |addr: u64, ordinal: i32, name: &str, addend: i64| Bind {
        addr,
        ordinal,
        weak: false,
        name: name.as_bytes().to_vec(),
        addend,
    };
    let binds = vec![
        bind(0x1_0000_4010, 2, "_b", -8),
        bind(0x1_0000_4000, 1, "_a", 0),
        bind(0x1_0000_4008, 1, "_a", 0),
        bind(0x1_0000_4100, 20, "_c", 0x1000),
    ];
    let b = encode_bind_info(&binds, &segs).unwrap();
    let mut out: Vec<(u64, i64, Vec<u8>, i64)> = Vec::new();
    let (mut at, mut addr, mut ordinal, mut addend) = (0, 0u64, 0i64, 0i64);
    let mut name: Vec<u8> = Vec::new();
    while at < b.len() {
        let op = b[at] & 0xf0;
        let imm = (b[at] & 0x0f) as u64;
        at += 1;
        match op {
            0x00 => break,
            0x10 => ordinal = imm as i64,
            0x20 => ordinal = read_uleb(&b, &mut at) as i64,
            0x30 => ordinal = if imm == 0 { 0 } else { (imm as i64) - 16 },
            0x40 => name = read_name(&b, &mut at),
            0x50 => assert_eq!(imm, 1),
            0x60 => addend = read_sleb(&b, &mut at),
            0x70 => addr = segs[imm as usize].cmd.vmaddr + read_uleb(&b, &mut at),
            0x80 => addr = addr.wrapping_add(read_uleb(&b, &mut at)),
            0x90 => {
                out.push((addr, ordinal, name.clone(), addend));
                addr += 8;
            }
            _ => panic!("bad opcode"),
        }
    }
    let mut want: Vec<(u64, i64, Vec<u8>, i64)> = binds
        .iter()
        .map(|x| (x.addr, x.ordinal as i64, x.name.clone(), x.addend))
        .collect();
    want.sort();
    out.sort();
    assert_eq!(out, want);
}

#[test]
fn function_starts_are_distances() {
    let b = encode_function_starts(&vec![0x1400, 0x1410, 0x1500], 0x1000).unwrap();
    assert_eq!(&b[..6], &[0x80, 0x08, 0x10, 0xf0, 0x01, 0]);
    assert_eq!(b.len() % 8, 0);
    assert!(b[6..].iter().all(|c| *c == 0));
}

fn exported(name: &str, addr: u64) -> Exported {
    Exported { name: name.as_bytes().to_vec(), export: Export::Addr { flags: 0, addr } }
}

/// Looks a name up as the loader does: what stands at its node.
fn lookup(trie: &[u8], name: &[u8]) -> Option<Vec<u8>> {
    let mut at = 0;
    let mut rest = name;
    loop {
        let size = read_uleb(trie, &mut at) as usize;
        if rest.is_empty() {
            return if size == 0 { None } else { Some(trie[at..at + size].to_vec()) };
        }
        at += size;
        let kids = trie[at];
        at += 1;
        let mut next = None;
        for _ in 0..kids {
            let label = read_name(trie, &mut at);
            let child = read_uleb(trie, &mut at) as usize;
            if rest.starts_with(&label) {
                next = Some((child, label.len()));
            }
        }
        let (child, n) = next?;
        at = child;
        rest = &rest[n..];
    }
}

#[test]
fn trie_of_one_export() {
    let b = encode_export_trie(&vec![exported("_a", 0x1000)]).unwrap();
    assert_eq!(&b[..11], &[0, 1, b'_', b'a', 0, 6, 3, 0, 0x80, 0x20, 0]);
    assert!(b[11..].iter().all(|c| *c == 0));
}

#[test]
fn trie_finds_each_export_and_nothing_else() {
    let mut names: Vec<Exported> = Vec::new();
    for (i, n) in ["_a", "_ab", "_abc", "_b", "_main", "_malloc", "x"].iter().enumerate() {
        names.push(exported(n, 0x1000 * (i as u64 + 1)));
    }
    names.push(Exported {
        name: b"_zz".to_vec(),
        export: Export::Reexport { ordinal: 3, name: b"_other".to_vec() },
    });
    names.sort_by(|a, b| a.name.cmp(&b.name));
    let b = encode_export_trie(&names).unwrap();
    assert_eq!(lookup(&b, b"_abc"), Some(vec![0, 0x80, 0x60]));
    assert_eq!(lookup(&b, b"_a"), Some(vec![0, 0x80, 0x20]));
    assert_eq!(lookup(&b, b"_malloc"), Some(vec![0, 0x80, 0xc0, 0x01]));
    assert_eq!(lookup(&b, b"_zz").unwrap(), b"\x08\x03_other\0");
    for absent in ["_", "_abcd", "_m", "y", ""] {
        assert_eq!(lookup(&b, absent.as_bytes()), None);
    }
}

#[test]
fn string_table_shares_names() {
    // An entry without a name keeps its place in the table's start, " \0-\0".
    let ent = NList { n_strx: 1, n_type: 1, n_sect: 0, n_desc: 0, n_value: 0 };
    let named = |name: &str, sym: Option<u32>| Named { name: name.as_bytes().to_vec(), ent, sym };
    let es = vec![named("_a", Some(0)), named("_bc", None), named("_a", Some(0)), named("", None)];
    let s = place_names(&es, 1).unwrap();
    let table = encode_string_table(&s.uniques);
    for (e, x) in es.iter().zip(&s.entries) {
        let mut at = x.0.n_strx as usize;
        assert_eq!(read_name(&table, &mut at), e.name);
    }
    assert_eq!(s.entries[0].0.n_strx, s.entries[2].0.n_strx);
}

#[test]
fn address_is_found_in_its_segment() {
    let segs = segments();
    assert_eq!(segment_and_offset(&segs, 0x1_0000_4010), Some((1, 0x10)));
    assert_eq!(segment_and_offset(&segs, 0x1_0000_0000), Some((0, 0)));
    assert_eq!(segment_and_offset(&segs, 0x2_0000_0000), None);
}

#[test]
fn records_read_back_as_written() {
    let h = MachHeader {
        magic: 0xfeedfacf,
        cputype: 0x0100000c,
        cpusubtype: 2,
        filetype: 1,
        ncmds: 4,
        sizeofcmds: 0x200,
        flags: 0x2000,
        reserved: 0,
    };
    let mut buf: Vec<u8> = Vec::new();
    h.push_to(&mut buf);
    assert_eq!(buf.len(), 32);
    let back = MachHeader::read(&buf, 0);
    assert_eq!((back.cputype, back.cpusubtype, back.sizeofcmds), (0x0100000c, 2, 0x200));
    let n = NList { n_strx: 5, n_type: 0x0f, n_sect: 1, n_desc: 0x80, n_value: 0x1234 };
    let mut buf: Vec<u8> = Vec::new();
    n.push_to(&mut buf);
    assert_eq!(buf, [5, 0, 0, 0, 0x0f, 1, 0x80, 0, 0x34, 0x12, 0, 0, 0, 0, 0, 0]);
    let back = NList::read(&buf, 0);
    assert_eq!((back.n_strx, back.n_desc, back.n_value), (5, 0x80, 0x1234));
    assert!(back.is_extern() && !back.is_stab() && !back.is_private_extern());
    let r = MachRel::pack(0x10, 3, true, 2, true, 2);
    assert_eq!(r.bits, 3 | 1 << 24 | 2 << 25 | 1 << 27 | 2 << 28);
    assert_eq!((r.r_symbolnum(), r.r_length(), r.r_type()), (3, 2, 2));
    assert!(r.is_pcrel() && r.is_extern());
}

/// Reads the references back as a program that slides segments does.
fn read_split_info(b: &[u8]) -> Vec<SplitEntry> {
    let mut out = Vec::new();
    assert_eq!(b[0], 0x7f);
    let mut at = 1;
    for _ in 0..read_uleb(b, &mut at) {
        let from_sect = read_uleb(b, &mut at) as u8;
        let to_sect = read_uleb(b, &mut at) as u8;
        let mut to_offset = 0;
        for _ in 0..read_uleb(b, &mut at) {
            to_offset += read_uleb(b, &mut at);
            for _ in 0..read_uleb(b, &mut at) {
                let kind = read_uleb(b, &mut at) as u8;
                let mut from_offset = 0;
                for _ in 0..read_uleb(b, &mut at) {
                    from_offset += read_uleb(b, &mut at);
                    out.push(SplitEntry { from_sect, to_sect, kind, from_offset, to_offset });
                }
            }
        }
    }
    out
}

#[test]
fn references_between_sections_are_read_back() {
    let e = |from_sect, to_sect, kind, from_offset, to_offset| SplitEntry {
        from_sect,
        to_sect,
        kind,
        from_offset,
        to_offset,
    };
    let entries = vec![
        e(2, 1, 2, 0x300, 8),
        e(1, 3, 5, 16, 0x1234),
        e(1, 3, 6, 20, 0x1234),
        e(2, 1, 2, 8, 8),
        e(1, 3, 5, 4, 0x1234),
        e(1, 3, 5, 4, 0x1234),
        e(1, 3, 5, 0, 0),
    ];
    let back = read_split_info(&encode_split_info(&entries));
    assert_eq!(
        back,
        vec![
            e(1, 3, 5, 0, 0),
            e(1, 3, 5, 4, 0x1234),
            e(1, 3, 5, 4, 0x1234),
            e(1, 3, 5, 16, 0x1234),
            e(1, 3, 6, 20, 0x1234),
            e(2, 1, 2, 8, 8),
            e(2, 1, 2, 0x300, 8),
        ]
    );
    assert!(encode_split_info(&Vec::new()).is_empty());
}
