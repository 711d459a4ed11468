//! Ranks subsections by the -order_file lists.
use crate::input_files::ObjectFile;
use crate::inputs::{resolve_isec, Inputs};
use crate::symbol::{Origin, Symbol};
use crate::util::{bytes, text};
use vstd::prelude::*;
use vstd::string::*;

verus! {

/// A line of an order file.
#[derive(Debug)]
pub struct OrderRule {
    /// The object that the symbol must come from, if one is named.
    pub file: Option<Vec<u8>>,
    pub name: Vec<u8>,
}

/// A line of an order file, as mathematical values.
#[verifier::ext_equal]
pub struct RuleView {
    pub file: Option<Seq<u8>>,
    pub name: Seq<u8>,
}

impl View for OrderRule {
    type V = RuleView;

    open spec fn view(&self) -> RuleView {
        RuleView {
            file: match self.file {
                Some(f) => Some(f@),
                None => None,
            },
            name: self.name@,
        }
    }
}

/// What a list of rules holds.
pub open spec fn rule_views(v: Seq<OrderRule>) -> Seq<RuleView> {
    v.map_values(|r: OrderRule| r@)
}

/// True for the name of an architecture that a line may be limited to.
pub open spec fn is_arch_name(s: Seq<u8>) -> bool {
    ||| s == "arm64".spec_bytes()
    ||| s == "arm64e".spec_bytes()
    ||| s == "x86_64".spec_bytes()
    ||| s == "i386".spec_bytes()
    ||| s == "armv7".spec_bytes()
    ||| s == "ppc".spec_bytes()
}

fn check_arch_name(s: &[u8]) -> (r: bool)
    ensures
        r == is_arch_name(s@),
{
    bytes::same(s, "arm64".as_bytes()) || bytes::same(s, "arm64e".as_bytes()) || bytes::same(
        s,
        "x86_64".as_bytes(),
    ) || bytes::same(s, "i386".as_bytes()) || bytes::same(s, "armv7".as_bytes()) || bytes::same(
        s,
        "ppc".as_bytes(),
    )
}

/// The part of a line behind its architecture, if it is for this one. A
/// line without an architecture is for all.
pub open spec fn line_for(line: Seq<u8>, arch: Seq<u8>) -> Option<Seq<u8>> {
    match text::parts_at(line, 0x3a) {
        Some((first, rest)) => if !is_arch_name(text::trim(first)) {
            Some(line)
        } else if text::trim(first) == arch {
            Some(text::trim(rest))
        } else {
            None
        },
        None => Some(line),
    }
}

/// The rule that a line states: a symbol, behind the object that it must
/// come from.
pub open spec fn rule_of(line: Seq<u8>) -> RuleView {
    match text::parts_at(line, 0x3a) {
        Some((file, name)) => RuleView { file: Some(text::trim(file)), name: text::trim(name) },
        None => RuleView { file: None, name: line },
    }
}

/// The rules of the first `n` lines for an architecture.
pub open spec fn rules_to(lines: Seq<Seq<u8>>, arch: Seq<u8>, n: int) -> Seq<RuleView>
    decreases n,
{
    if n <= 0 {
        Seq::empty()
    } else {
        match line_for(lines[n - 1], arch) {
            Some(line) => rules_to(lines, arch, n - 1).push(rule_of(line)),
            None => rules_to(lines, arch, n - 1),
        }
    }
}

/// The rules of the first `n` order files, in order.
pub open spec fn order_rules(texts: Seq<Seq<u8>>, arch: Seq<u8>, n: int) -> Seq<RuleView>
    decreases n,
{
    if n <= 0 {
        Seq::empty()
    } else {
        let lines = text::list_entries(texts[n - 1]);
        order_rules(texts, arch, n - 1) + rules_to(lines, arch, lines.len() as int)
    }
}

fn trimmed_vec(s: &[u8]) -> (r: Vec<u8>)
    ensures
        r@ == text::trim(s@),
{
    bytes::to_vec(text::trimmed(s))
}

fn parse_rule(line: &[u8]) -> (r: OrderRule)
    ensures
        r@ == rule_of(line@),
{
    match text::split_once(line, 0x3a) {
        Some((file, name)) => OrderRule {
            file: Some(trimmed_vec(file.as_slice())),
            name: trimmed_vec(name.as_slice()),
        },
        None => OrderRule { file: None, name: bytes::to_vec(line) },
    }
}

fn parse_line(line: &[u8], arch: &[u8]) -> (r: Option<OrderRule>)
    ensures
        match r {
            Some(x) => line_for(line@, arch@) matches Some(l) && x@ == rule_of(l),
            None => line_for(line@, arch@) is None,
        },
{
    if let Some((first, rest)) = text::split_once(line, 0x3a) {
        let first: &[u8] = text::trimmed(first.as_slice());
        if check_arch_name(first) {
            if !bytes::same(first, arch) {
                return None;
            }
            return Some(parse_rule(text::trimmed(rest.as_slice())));
        }
    }
    Some(parse_rule(line))
}

/// Reads the rules of order files.
pub fn parse_order_files(texts: &Vec<Vec<u8>>, arch: &[u8]) -> (r: Vec<OrderRule>)
    ensures
        rule_views(r@) == order_rules(bytes::views(texts@), arch@, texts.len() as int),
{
    let ghost tv = bytes::views(texts@);
    let mut r: Vec<OrderRule> = Vec::new();
    assert(rule_views(r@) =~= Seq::empty());
    let mut t: usize = 0;
    while t < texts.len()
        invariant
            t <= texts.len(),
            tv == bytes::views(texts@),
            rule_views(r@) == order_rules(tv, arch@, t as int),
        decreases texts.len() - t,
    {
        assert(tv[t as int] == texts[t as int]@);
        let lines: Vec<Vec<u8>> = text::symbol_list(texts[t].as_slice());
        let ghost lv = bytes::views(lines@);
        let ghost start = rule_views(r@);
        assert(start + Seq::<RuleView>::empty() =~= start);
        let mut n: usize = 0;
        while n < lines.len()
            invariant
                n <= lines.len(),
                lv == bytes::views(lines@),
                rule_views(r@) == start + rules_to(lv, arch@, n as int),
            decreases lines.len() - n,
        {
            let ghost head = rules_to(lv, arch@, n as int);
            assert(lv[n as int] == lines[n as int]@);
            if let Some(x) = parse_line(lines[n].as_slice(), arch) {
                let ghost before = r@;
                let ghost xv = x@;
                r.push(x);
                assert(rule_views(r@) =~= rule_views(before).push(xv));
                assert((start + head).push(xv) =~= start + head.push(xv));
            }
            n += 1;
        }
        t += 1;
    }
    r
}

/// True when a rule is about a symbol of an object: a rule that names a
/// file wants the object's path to end with it.
pub open spec fn is_about(r: RuleView, name: Seq<u8>, path: Seq<u8>) -> bool {
    r.name == name && (r.file matches Some(f) ==> bytes::has_suffix(path, f))
}

/// True when a rule places a subsection through a symbol.
pub open spec fn places_through(x: Inputs, r: RuleView, s: Symbol, isec: int) -> bool {
    match (s.defined_by(), s.section()) {
        (Origin::Obj(o), Some(i)) => o < x.objs.len() && is_about(
            r,
            s.name@,
            x.objs[o as int].name@,
        ) && crate::inputs::survivor(x.isecs@, i as int) == isec,
        _ => false,
    }
}

/// True when a rule places a subsection through one of the first `n`
/// symbols.
pub open spec fn places(x: Inputs, r: RuleView, isec: int, n: int) -> bool {
    exists|k: int| 0 <= k < n && places_through(x, r, #[trigger] x.symtab.syms[k], isec)
}

/// True when a subsection's rank is the first rule that places it through
/// one of the first `n` symbols, or the last of all ranks without one.
pub open spec fn is_rank(x: Inputs, rules: Seq<RuleView>, isec: int, rank: u64, n: int) -> bool {
    &&& rank == u64::MAX || (rank < rules.len() && places(x, rules[rank as int], isec, n))
    &&& forall|r: int|
        0 <= r < rules.len() && places(x, #[trigger] rules[r], isec, n) ==> rank <= r
}

fn find_rule(rules: &Vec<OrderRule>, name: &[u8], path: &[u8]) -> (r: usize)
    ensures
        r <= rules.len(),
        r < rules.len() ==> is_about(rules[r as int]@, name@, path@),
        forall|k: int| 0 <= k < r ==> !is_about((#[trigger] rules[k])@, name@, path@),
{
    let mut r: usize = 0;
    while r < rules.len()
        invariant
            r <= rules.len(),
            forall|k: int| 0 <= k < r ==> !is_about((#[trigger] rules[k])@, name@, path@),
        decreases rules.len() - r,
    {
        let rule: &OrderRule = &rules[r];
        if bytes::same(rule.name.as_slice(), name) {
            let fits: bool = match &rule.file {
                Some(f) => bytes::ends_with(path, f.as_slice()),
                None => true,
            };
            if fits {
                return r;
            }
        }
        r += 1;
    }
    r
}

proof fn lemma_rank_kept(x: Inputs, rules: Seq<RuleView>, isec: int, rank: u64, n: int)
    requires
        0 <= n < x.symtab.syms.len(),
        is_rank(x, rules, isec, rank, n),
        forall|r: int|
            0 <= r < rules.len() && places_through(
                x,
                #[trigger] rules[r],
                x.symtab.syms[n],
                isec,
            ) ==> rank <= r,
    ensures
        is_rank(x, rules, isec, rank, n + 1),
{
    if rank != u64::MAX {
        let k = choose|k: int|
            0 <= k < n && places_through(
                x,
                rules[rank as int],
                #[trigger] x.symtab.syms[k],
                isec,
            );
        assert(places_through(x, rules[rank as int], x.symtab.syms[k], isec));
        assert(places(x, rules[rank as int], isec, n + 1));
    }
    assert forall|r: int|
        0 <= r < rules.len() && places(x, #[trigger] rules[r], isec, n + 1) implies rank <= r by {
        let k = choose|k: int|
            0 <= k < n + 1 && places_through(x, rules[r], #[trigger] x.symtab.syms[k], isec);
        if k < n {
            assert(places(x, rules[r], isec, n));
        }
    }
}

/// Ranks every subsection by the order files: one that defines the symbol
/// of the first rule comes first. Subsections that no rule is about come
/// last.
pub fn order_file_ranks(x: &Inputs, rules: &Vec<OrderRule>) -> (r: Vec<u64>)
    requires
        x.wf(),
    ensures
        r.len() == x.isecs.len(),
        forall|i: int|
            0 <= i < r.len() ==> is_rank(
                *x,
                rule_views(rules@),
                i,
                #[trigger] r[i],
                x.symtab.syms.len() as int,
            ),
{
    let ghost rv = rule_views(rules@);
    proof {
        crate::inputs::lemma_wf_redirects(*x);
    }
    let mut ranks: Vec<u64> = Vec::new();
    while ranks.len() < x.isecs.len()
        invariant
            ranks.len() <= x.isecs.len(),
            forall|i: int| 0 <= i < ranks.len() ==> #[trigger] ranks[i] == u64::MAX,
        decreases x.isecs.len() - ranks.len(),
    {
        ranks.push(u64::MAX);
    }
    let mut n: usize = 0;
    while n < x.symtab.syms.len()
        invariant
            n <= x.symtab.syms.len(),
            x.wf(),
            crate::inputs::redirects_exist(x.isecs@),
            rv == rule_views(rules@),
            ranks.len() == x.isecs.len(),
            forall|i: int|
                0 <= i < ranks.len() ==> is_rank(*x, rv, i, #[trigger] ranks[i], n as int),
        decreases x.symtab.syms.len() - n,
    {
        let s: &Symbol = &x.symtab.syms[n];
        assert(x.sym_ok(*s));
        let ghost before = ranks@;
        let ghost mut at: int = -1;
        if let Origin::Obj(o) = s.origin() {
            if let Some(i) = s.isec() {
                if (o as usize) < x.objs.len() {
                    let obj: &ObjectFile = &x.objs[o as usize];
                    let r: usize = find_rule(rules, s.name.as_slice(), obj.name.as_slice());
                    let sv: usize = resolve_isec(&x.isecs, i as usize);
                    if r < rules.len() && (r as u64) < ranks[sv] {
                        ranks.set(sv, r as u64);
                    }
                    proof {
                        at = sv as int;
                        assert forall|k: int|
                            0 <= k < rv.len() && places_through(
                                *x,
                                #[trigger] rv[k],
                                *s,
                                at,
                            ) implies ranks[at] <= k by {
                            assert(rv[k] == rules[k]@);
                        }
                        if r < rules.len() && ranks[at] == r && before[at] != r {
                            assert(rv[r as int] == rules[r as int]@);
                            assert(places_through(*x, rv[r as int], x.symtab.syms[n as int], at));
                            assert(places(*x, rv[r as int], at, n + 1));
                        }
                    }
                }
            }
        }
        proof {
            assert forall|i: int| 0 <= i < ranks.len() implies is_rank(
                *x,
                rv,
                i,
                #[trigger] ranks[i],
                n + 1,
            ) by {
                assert(is_rank(*x, rv, i, before[i], n as int));
                if ranks[i] == before[i] {
                    lemma_rank_kept(*x, rv, i, before[i], n as int);
                } else {
                    assert(i == at);
                    assert forall|k: int|
                        0 <= k < rv.len() && places(*x, #[trigger] rv[k], i, n + 1) implies
                        ranks[i] <= k by {
                        let j = choose|j: int|
                            0 <= j < n + 1 && places_through(
                                *x,
                                rv[k],
                                #[trigger] x.symtab.syms[j],
                                i,
                            );
                        if j < n {
                            assert(places(*x, rv[k], i, n as int));
                        }
                    }
                }
            }
        }
        n += 1;
    }
    ranks
}

} // verus!
