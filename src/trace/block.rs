use vstd::prelude::*;
use vstd::std_specs::btree::increasing_seq;
use vstd::std_specs::cmp::OrdSpec;
use vstd::std_specs::iter::IteratorSpec;
use std::collections::BTreeMap;

use super::{Instruction, JumpKind};
use crate::text::{hex_text, push_hex};

verus! {

/// The address just past an instruction: its address plus its size, or its address alone
/// when the size is unknown, held at the top of the address space.
pub open spec fn insn_end(addr: u64, size: Option<u16>) -> u64 {
    match size {
        Some(n) => if addr as int + n as int > u64::MAX as int {
            u64::MAX
        } else {
            (addr + n) as u64
        },
        None => addr,
    }
}

/// The edges after one more traversal of the edge to `target`: its counter goes up by one,
/// or a new edge of `kind` is added with a count of one.
pub open spec fn edges_after(
    edges: Seq<(JumpKind, u64, u64)>,
    target: u64,
    kind: JumpKind,
) -> Seq<(JumpKind, u64, u64)> {
    if exists|i: int| 0 <= i < edges.len() && #[trigger] edges[i].1 == target {
        let i = choose|i: int| 0 <= i < edges.len() && #[trigger] edges[i].1 == target;
        let c = edges[i].2;
        edges.update(i, (edges[i].0, target, if c == u64::MAX { c } else { (c + 1) as u64 }))
    } else {
        edges.push((kind, target, 1))
    }
}

/// `es` lists the entries of `m` by increasing key.
pub open spec fn in_address_order<V>(es: Seq<(u64, V)>, m: Map<u64, V>) -> bool {
    &&& forall|i: int, j: int| 0 <= i < j < es.len() ==> #[trigger] es[i].0 < #[trigger] es[j].0
    &&& forall|i: int|
        0 <= i < es.len() ==> #[trigger] m.contains_key(es[i].0) && m[es[i].0] == es[i].1
    &&& forall|k: u64| #[trigger]
        m.contains_key(k) ==> exists|i: int| 0 <= i < es.len() && #[trigger] es[i].0 == k
}

/// The entries of `m` by increasing key.
pub open spec fn address_order<V>(m: Map<u64, V>) -> Seq<(u64, V)> {
    choose|es: Seq<(u64, V)>| in_address_order(es, m)
}

/// The facts that walking a `BTreeMap` gives, as order and coverage of the walked entries.
pub proof fn lemma_walk_in_order<V>(m: Map<u64, V>, full: Seq<(&u64, &V)>)
    requires
        increasing_seq(full.map_values(|kv: (&u64, &V)| *kv.0)),
        full.len() == m.dom().len(),
        forall|i: int|
            0 <= i < full.len() ==> #[trigger] m.contains_key(*full[i].0) && m[*full[i].0]
                == *full[i].1,
        forall|k: u64| #[trigger] m.contains_key(k) ==> full.contains((&k, &m[k])),
    ensures
        forall|i: int, j: int|
            0 <= i < j < full.len() ==> *(#[trigger] full[i]).0 < *(#[trigger] full[j]).0,
        forall|k: u64| #[trigger]
            m.contains_key(k) ==> exists|i: int| 0 <= i < full.len() && *(#[trigger] full[i]).0 == k,
{
    let ks = full.map_values(|kv: (&u64, &V)| *kv.0);
    assert forall|i: int, j: int| 0 <= i < j < full.len() implies *(#[trigger] full[i]).0 < *(
        #[trigger] full[j]).0 by {
        assert(ks[i].cmp_spec(&ks[j]) is Less);
        assert(ks[i] == *full[i].0 && ks[j] == *full[j].0);
    }
    assert forall|k: u64| #[trigger] m.contains_key(k) implies exists|i: int|
        0 <= i < full.len() && *(#[trigger] full[i]).0 == k by {
        assert(full.contains((&k, &m[k])));
    }
}

proof fn lemma_keys_agree<V>(a: Seq<(u64, V)>, b: Seq<(u64, V)>, m: Map<u64, V>, i: int)
    requires
        in_address_order(a, m),
        in_address_order(b, m),
        0 <= i < a.len(),
        i < b.len(),
    ensures
        forall|n: int| 0 <= n <= i ==> #[trigger] a[n].0 == b[n].0,
    decreases i,
{
    if i > 0 {
        lemma_keys_agree(a, b, m, i - 1);
    }
    assert(m.contains_key(a[i].0));
    assert(m.contains_key(b[i].0));
    let kb = choose|k: int| 0 <= k < b.len() && #[trigger] b[k].0 == a[i].0;
    let ka = choose|k: int| 0 <= k < a.len() && #[trigger] a[k].0 == b[i].0;
    if kb < i {
        assert(a[kb].0 == b[kb].0);
        assert(a[kb].0 < a[i].0);
    }
    if ka < i {
        assert(a[ka].0 == b[ka].0);
        assert(b[ka].0 < b[i].0);
    }
    if a[i].0 < b[i].0 {
        if kb > i {
            assert(b[i].0 < b[kb].0);
        }
    } else if b[i].0 < a[i].0 {
        if ka > i {
            assert(a[i].0 < a[ka].0);
        }
    }
}

/// A map has one listing by increasing key.
pub proof fn lemma_address_order_unique<V>(a: Seq<(u64, V)>, m: Map<u64, V>)
    requires
        in_address_order(a, m),
    ensures
        address_order(m) == a,
{
    let b = address_order(m);
    assert(in_address_order(b, m));
    if a.len() > 0 && b.len() > 0 {
        let n = if a.len() < b.len() { a.len() - 1 } else { b.len() - 1 };
        lemma_keys_agree(a, b, m, n);
    }
    if a.len() < b.len() {
        let x = b[a.len() as int].0;
        assert(m.contains_key(x));
        let k = choose|k: int| 0 <= k < a.len() && #[trigger] a[k].0 == x;
        assert(a[k].0 == b[k].0);
        assert(b[k].0 < b[a.len() as int].0);
    }
    if b.len() < a.len() {
        let x = a[b.len() as int].0;
        assert(m.contains_key(x));
        let k = choose|k: int| 0 <= k < b.len() && #[trigger] b[k].0 == x;
        assert(a[k].0 == b[k].0);
        assert(a[k].0 < a[b.len() as int].0);
    }
    assert forall|i: int| 0 <= i < a.len() implies a[i] == b[i] by {
        assert(a[i].0 == b[i].0);
        assert(m.contains_key(a[i].0));
        assert(m.contains_key(b[i].0));
        assert(m[a[i].0] == a[i].1);
        assert(m[b[i].0] == b[i].1);
    }
    assert(a =~= b);
}

/// One line of a block listing: the address in hexadecimal, a tab, the instruction text, and
/// an escaped line break for a graph label.
pub open spec fn line_text(a: u64, t: Seq<char>) -> Seq<char> {
    "0x"@ + hex_text(a as nat) + "\t"@ + t + "\\n"@
}

/// The lines of all entries, in order.
pub open spec fn lines_text(es: Seq<(u64, Seq<char>)>) -> Seq<char>
    decreases es.len(),
{
    if es.len() == 0 {
        Seq::empty()
    } else {
        lines_text(es.drop_last()) + line_text(es.last().0, es.last().1)
    }
}

/// A run of executed instructions with its outgoing edges.
pub struct BasicBlock {
    pub start: u64,
    pub end: u64,
    /// Instruction text by address.
    pub block: BTreeMap<u64, String>,
    /// The kind, the target address and the number of traversals of each edge.
    pub edges: Vec<(JumpKind, u64, u64)>,
}

impl BasicBlock {
    /// No two edges share a target, and every instruction lies below the end address.
    pub open spec fn wf(&self) -> bool {
        &&& forall|i: int, j: int|
            0 <= i < j < self.edges.len() ==> #[trigger] self.edges@[i].1 != #[trigger] self.edges@[j].1
        &&& forall|a: u64| #[trigger] self.block@.contains_key(a) ==> a <= self.end
    }

    /// Instruction text by address.
    pub open spec fn texts(&self) -> Map<u64, Seq<char>> {
        self.block@.map_values(|t: String| t@)
    }

    /// A block that starts and ends at `start`, with no instruction and no edge.
    pub fn new(start: u64) -> (r: Self)
        ensures
            r.wf(),
            r.start == start,
            r.end == start,
            r.block@ == Map::<u64, String>::empty(),
            r.edges@ == Seq::<(JumpKind, u64, u64)>::empty(),
    {
        BasicBlock { start, end: start, block: BTreeMap::new(), edges: Vec::new() }
    }

    /// Adds an instruction, unless its address is already in the block, and moves the end
    /// address up to the end of the instruction.
    pub fn execute(&mut self, insn: &Instruction)
        requires
            old(self).wf(),
        ensures
            final(self).wf(),
            final(self).start == old(self).start,
            final(self).edges == old(self).edges,
            final(self).texts() == if old(self).block@.contains_key(insn.addr) {
                old(self).texts()
            } else {
                old(self).texts().insert(insn.addr, insn.insn@)
            },
            final(self).end == if insn_end(insn.addr, insn.size) > old(self).end {
                insn_end(insn.addr, insn.size)
            } else {
                old(self).end
            },
    {
        if !self.block.contains_key(&insn.addr) {
            self.block.insert(insn.addr, insn.insn.clone());
        }
        let e = match insn.size {
            Some(n) => insn.addr.saturating_add(n as u64),
            None => insn.addr,
        };
        if e > self.end {
            self.end = e;
        }
        assert(self.texts() =~= if old(self).block@.contains_key(insn.addr) {
            old(self).texts()
        } else {
            old(self).texts().insert(insn.addr, insn.insn@)
        });
    }

    /// The instructions, one line each, by increasing address.
    pub fn to_string(&self) -> (r: String)
        ensures
            r@ == lines_text(address_order(self.texts())),
    {
        let mut s = String::new();
        let ghost mut es: Seq<(u64, Seq<char>)> = Seq::empty();
        let entries = self.block.iter();
        let ghost full = entries.remaining();
        proof {
            lemma_walk_in_order(self.block@, full);
        }
        for (a, t) in it: entries
            invariant
                it.seq() == full,
                es.len() == it.index(),
                full.len() == self.block@.dom().len(),
                forall|i: int, j: int|
                    0 <= i < j < full.len() ==> *(#[trigger] full[i]).0 < *(#[trigger] full[j]).0,
                forall|i: int|
                    0 <= i < full.len() ==> self.block@.contains_key(*(#[trigger] full[i]).0)
                        && self.block@[*full[i].0] == *full[i].1,
                forall|k: u64| #[trigger]
                    self.block@.contains_key(k) ==> exists|i: int|
                        0 <= i < full.len() && *(#[trigger] full[i]).0 == k,
                forall|i: int| 0 <= i < es.len() ==> #[trigger] es[i] == (*full[i].0, full[i].1@),
                s@ == lines_text(es),
        {
            s.append("0x");
            push_hex(&mut s, *a);
            s.append("\t");
            s.append(t.as_str());
            s.append("\\n");
            proof {
                let old_es = es;
                es = es.push((*a, t@));
                assert(es.drop_last() =~= old_es);
            }
        }
        proof {
            assert(es.len() == full.len());
            assert(self.texts().dom() =~= self.block@.dom());
            assert forall|k: u64| #[trigger] self.texts().contains_key(k) implies exists|i: int|
                0 <= i < es.len() && #[trigger] es[i].0 == k by {
                assert(self.block@.contains_key(k));
                let i = choose|i: int| 0 <= i < full.len() && *(#[trigger] full[i]).0 == k;
                assert(es[i].0 == k);
            }
            assert(in_address_order(es, self.texts()));
            lemma_address_order_unique(es, self.texts());
        }
        s
    }

    /// Whether the address lies between the start and the end address, both included.
    pub fn in_range(&self, address: u64) -> (r: bool)
        ensures
            r == (self.start <= address && address <= self.end),
    {
        self.start <= address && address <= self.end
    }

    /// The instructions by address.
    pub fn iter(&self) -> (r: &BTreeMap<u64, String>)
        ensures
            r@ == self.block@,
    {
        &self.block
    }

    /// The outgoing edges with their kinds and traversal counts.
    pub fn edges(&self) -> (r: &[(JumpKind, u64, u64)])
        ensures
            r@ == self.edges@,
    {
        self.edges.as_slice()
    }

    /// Whether an edge to `edge` exists.
    pub fn contains_edge(&self, edge: u64) -> (r: bool)
        ensures
            r == exists|i: int| 0 <= i < self.edges.len() && #[trigger] self.edges@[i].1 == edge,
    {
        self.find_edge(edge).is_some()
    }

    fn find_edge(&self, edge: u64) -> (r: Option<usize>)
        ensures
            r matches Some(i) ==> i < self.edges.len() && self.edges@[i as int].1 == edge,
            r is None ==> forall|i: int| 0 <= i < self.edges.len() ==> #[trigger] self.edges@[i].1 != edge,
    {
        let mut i: usize = 0;
        while i < self.edges.len()
            invariant
                i <= self.edges.len(),
                forall|j: int| 0 <= j < i ==> #[trigger] self.edges@[j].1 != edge,
            decreases self.edges.len() - i,
        {
            if self.edges[i].1 == edge {
                return Some(i);
            }
            i = i + 1;
        }
        None
    }

    /// Counts one more traversal of the edge to `edge`, adding the edge with `kind` when it
    /// is new.
    pub fn add_edge(&mut self, edge: u64, kind: JumpKind)
        requires
            old(self).wf(),
        ensures
            final(self).wf(),
            final(self).start == old(self).start,
            final(self).end == old(self).end,
            final(self).block == old(self).block,
            final(self).edges@ == edges_after(old(self).edges@, edge, kind),
    {
        match self.find_edge(edge) {
            Some(i) => {
                let (k, t, c) = self.edges[i];
                self.edges.set(i, (k, t, c.saturating_add(1)));
                proof {
                    let j = choose|j: int| 0 <= j < old(self).edges.len() && #[trigger] old(self).edges@[j].1 == edge;
                    if j != i {
                        if j < i {
                            assert(old(self).edges@[j].1 != old(self).edges@[i as int].1);
                        } else {
                            assert(old(self).edges@[i as int].1 != old(self).edges@[j].1);
                        }
                    }
                }
            },
            None => {
                self.edges.push((kind, edge, 1));
            },
        }
    }
}

} // verus!
