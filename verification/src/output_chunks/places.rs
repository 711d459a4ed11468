//! Addresses in terms of segments.
use super::header::{OutputSegment, SegmentView};
use crate::util::bytes;
use vstd::prelude::*;
use vstd::string::*;

verus! {

/// True when a segment that can hold fixups contains the address.
pub open spec fn holds_addr(seg: SegmentView, addr: u64) -> bool {
    seg.cmd.vmaddr <= addr < seg.cmd.vmaddr + seg.cmd.vmsize && seg.name
        != "__PAGEZERO".spec_bytes()
}

/// The index of the first segment at or behind `from` that contains the
/// address, and the offset within it.
pub open spec fn place_of(segs: Seq<SegmentView>, addr: u64, from: int) -> Option<(usize, u64)>
    decreases segs.len() - from,
{
    if from < 0 || from >= segs.len() {
        None
    } else if holds_addr(segs[from], addr) {
        Some((from as usize, (addr - segs[from].cmd.vmaddr) as u64))
    } else {
        place_of(segs, addr, from + 1)
    }
}

/// Finds the segment that contains an address, and the offset within it.
pub fn segment_and_offset(segs: &Vec<OutputSegment>, addr: u64) -> (r: Option<(usize, u64)>)
    ensures
        r == place_of(super::header::segment_views(segs@), addr, 0),
        r matches Some(p) ==> p.0 < segs.len() && segs[p.0 as int].cmd.vmaddr + p.1 == addr,
{
    let ghost views = super::header::segment_views(segs@);
    let mut i: usize = 0;
    while i < segs.len()
        invariant
            i <= segs.len(),
            views == super::header::segment_views(segs@),
            place_of(views, addr, i as int) == place_of(views, addr, 0),
        decreases segs.len() - i,
    {
        let s: &OutputSegment = &segs[i];
        assert(views[i as int] == s@);
        if s.cmd.vmaddr <= addr && addr - s.cmd.vmaddr < s.cmd.vmsize && !bytes::same(
            s.name.as_slice(),
            "__PAGEZERO".as_bytes(),
        ) {
            return Some((i, addr - s.cmd.vmaddr));
        }
        i += 1;
    }
    None
}

/// A found place is that of the address.
pub proof fn lemma_place_of(segs: Seq<SegmentView>, addr: u64, from: int)
    requires
        0 <= from,
        segs.len() <= usize::MAX,
    ensures
        place_of(segs, addr, from) matches Some(p) ==> p.0 < segs.len() && segs[p.0 as int].cmd.vmaddr
            + p.1 == addr,
    decreases segs.len() - from,
{
    if from < segs.len() && !holds_addr(segs[from], addr) {
        lemma_place_of(segs, addr, from + 1);
    }
}

} // verus!
