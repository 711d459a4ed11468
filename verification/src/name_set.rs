//! A set of names that keeps the order in which they came.
use crate::name_map;
use crate::name_map::NameMap;
use crate::util::bytes;
use vstd::prelude::*;

verus! {

/// A set of names, in the order of their first insertion.
#[derive(Debug)]
pub struct NameSet {
    names: Vec<Vec<u8>>,
    places: NameMap,
}

/// The names with one more, unless it is there.
pub open spec fn with_name(names: Seq<Seq<u8>>, name: Seq<u8>) -> Seq<Seq<u8>> {
    if names.contains(name) {
        names
    } else {
        names.push(name)
    }
}

/// The names with the first `n` of others.
pub open spec fn with_names(names: Seq<Seq<u8>>, more: Seq<Seq<u8>>, n: int) -> Seq<Seq<u8>>
    decreases n,
{
    if n <= 0 {
        names
    } else {
        with_name(with_names(names, more, n - 1), more[n - 1])
    }
}

/// The names with all of others.
pub open spec fn with_all(names: Seq<Seq<u8>>, more: Seq<Seq<u8>>) -> Seq<Seq<u8>> {
    with_names(names, more, more.len() as int)
}

impl View for NameSet {
    type V = Seq<Seq<u8>>;

    closed spec fn view(&self) -> Seq<Seq<u8>> {
        bytes::views(self.names@)
    }
}

impl NameSet {
    /// True when no name occurs twice and each can be found.
    pub closed spec fn wf(&self) -> bool {
        &&& forall|name: Seq<u8>| #[trigger]
            name_map::entries(self.places).contains_key(name) <==> self@.contains(name)
        &&& self@.no_duplicates()
    }

    /// A set without names.
    pub fn new() -> (r: NameSet)
        ensures
            r.wf(),
            r@ == Seq::<Seq<u8>>::empty(),
    {
        let r = NameSet { names: Vec::new(), places: NameMap::new() };
        assert(r@ =~= Seq::<Seq<u8>>::empty());
        r
    }

    /// No name occurs twice.
    pub proof fn lemma_distinct(&self)
        requires
            self.wf(),
        ensures
            self@.no_duplicates(),
    {
    }

    /// Adds a name; true if it was not there.
    pub fn insert(&mut self, name: &[u8]) -> (r: bool)
        requires
            old(self).wf(),
        ensures
            final(self).wf(),
            r == !old(self)@.contains(name@),
            final(self)@ == with_name(old(self)@, name@),
    {
        if self.places.get(name).is_some() {
            return false;
        }
        let ghost before = self@;
        self.places.insert(bytes::to_vec(name), 0);
        self.names.push(bytes::to_vec(name));
        proof {
            assert(self@ =~= before.push(name@));
            assert forall|n: Seq<u8>| #[trigger]
                name_map::entries(self.places).contains_key(n) <==> self@.contains(n) by {
                if n == name@ {
                    assert(self@[before.len() as int] == n);
                } else if before.contains(n) {
                    let k = choose|k: int| 0 <= k < before.len() && before[k] == n;
                    assert(self@[k] == n);
                }
            }
        }
        true
    }

    /// Adds names.
    pub fn insert_all(&mut self, more: &Vec<Vec<u8>>)
        requires
            old(self).wf(),
        ensures
            final(self).wf(),
            final(self)@ == with_all(old(self)@, bytes::views(more@)),
    {
        let ghost start = self@;
        let ghost mv = bytes::views(more@);
        let mut n: usize = 0;
        while n < more.len()
            invariant
                n <= more.len(),
                mv == bytes::views(more@),
                self.wf(),
                self@ == with_names(start, mv, n as int),
            decreases more.len() - n,
        {
            assert(mv[n as int] == more[n as int]@);
            let _fresh: bool = self.insert(more[n].as_slice());
            n += 1;
        }
    }

    /// The names, in the order of their first insertion.
    pub fn into_names(self) -> (r: Vec<Vec<u8>>)
        requires
            self.wf(),
        ensures
            bytes::views(r@) == self@,
    {
        self.names
    }
}

} // verus!
