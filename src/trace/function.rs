use vstd::prelude::*;
use std::collections::BTreeMap;

use vstd::std_specs::iter::IteratorSpec;

use super::block::{
    BasicBlock,
    address_order,
    edges_after,
    in_address_order,
    insn_end,
    lemma_address_order_unique,
    lemma_walk_in_order,
    lines_text,
};
use super::{Error, Instruction, JumpKind, is_branch};
use crate::text::{dec_text, push_dec};

verus! {

/// The name of the function that starts at `address`.
pub open spec fn function_name(address: u64) -> Seq<char> {
    "sub_"@ + dec_text(address as nat)
}

/// A block with no instruction and no edge that starts and ends at `start`.
pub open spec fn is_fresh_block(b: BasicBlock, start: u64) -> bool {
    &&& b.wf()
    &&& b.start == start
    &&& b.end == start
    &&& b.block@ == Map::<u64, String>::empty()
    &&& b.edges@ == Seq::<(JumpKind, u64, u64)>::empty()
}

/// The graph node of a block: a box labelled with the block's listing.
pub open spec fn node_text(a: u64, b: BasicBlock) -> Seq<char> {
    "\tnode_"@ + dec_text(a as nat) + " [shape=box][label=\""@ + lines_text(
        address_order(b.texts()),
    ) + "\"][color=\"gray0\"][penwidth=2]\n"@
}

/// Conditional edges are red, unconditional ones blue, any other black.
pub open spec fn edge_color(k: JumpKind) -> Seq<char> {
    match k {
        JumpKind::Conditional => "red"@,
        JumpKind::Unconditional => "blue"@,
        _ => "black"@,
    }
}

/// The graph edge from the block at `a`, labelled with its traversal count.
pub open spec fn edge_text(a: u64, e: (JumpKind, u64, u64)) -> Seq<char> {
    "\tnode_"@ + dec_text(a as nat) + " -> node_"@ + dec_text(e.1 as nat) + " [label=\""@
        + dec_text(e.2 as nat) + "\"][color=\""@ + edge_color(e.0)
        + "\", headport=n, tailport=s]\n"@
}

/// The graph edges of the first `n` edges of the block at `a`.
pub open spec fn edges_text(a: u64, es: Seq<(JumpKind, u64, u64)>, n: nat) -> Seq<char>
    decreases n,
{
    if n == 0 || n > es.len() {
        Seq::empty()
    } else {
        edges_text(a, es, (n - 1) as nat) + edge_text(a, es[n - 1])
    }
}

/// The nodes of the listed blocks, in order.
pub open spec fn nodes_text(bs: Seq<(u64, BasicBlock)>) -> Seq<char>
    decreases bs.len(),
{
    if bs.len() == 0 {
        Seq::empty()
    } else {
        nodes_text(bs.drop_last()) + node_text(bs.last().0, bs.last().1)
    }
}

/// The edges of the listed blocks, block by block.
pub open spec fn all_edges_text(bs: Seq<(u64, BasicBlock)>) -> Seq<char>
    decreases bs.len(),
{
    if bs.len() == 0 {
        Seq::empty()
    } else {
        all_edges_text(bs.drop_last()) + edges_text(
            bs.last().0,
            bs.last().1.edges@,
            bs.last().1.edges@.len(),
        )
    }
}

/// The graph description of a function: its blocks by increasing address, then their edges.
pub open spec fn dot_text(blocks: Map<u64, BasicBlock>) -> Seq<char> {
    let bs = address_order(blocks);
    "digraph {\n"@ + nodes_text(bs) + all_edges_text(bs) + "}"@
}

/// Appends the graph edges of the block at `a`.
fn push_edges(s: &mut String, a: u64, es: &Vec<(JumpKind, u64, u64)>)
    ensures
        final(s)@ == old(s)@ + edges_text(a, es@, es@.len()),
{
    let mut i: usize = 0;
    while i < es.len()
        invariant
            i <= es.len(),
            s@ == old(s)@ + edges_text(a, es@, i as nat),
        decreases es.len() - i,
    {
        let (k, t, c) = es[i];
        s.append("\tnode_");
        push_dec(s, a);
        s.append(" -> node_");
        push_dec(s, t);
        s.append(" [label=\"");
        push_dec(s, c);
        s.append("\"][color=\"");
        match k {
            JumpKind::Conditional => s.append("red"),
            JumpKind::Unconditional => s.append("blue"),
            _ => s.append("black"),
        }
        s.append("\", headport=n, tailport=s]\n");
        proof {
            assert(s@ =~= old(s)@ + edges_text(a, es@, (i + 1) as nat));
        }
        i = i + 1;
    }
}

/// One procedure of the trace: its blocks by start address, and the block that execution
/// is in while the graph is built.
pub struct Function {
    pub name: String,
    pub start: u64,
    pub blocks: BTreeMap<u64, BasicBlock>,
    pub current_block: u64,
}

impl Function {
    /// The entry block and the current block exist; each block is stored under its start
    /// address; and every edge leads to a block of this function.
    pub open spec fn wf(&self) -> bool {
        &&& self.blocks@.contains_key(self.start)
        &&& self.blocks@.contains_key(self.current_block)
        &&& forall|k: u64| #[trigger]
            self.blocks@.contains_key(k) ==> self.blocks@[k].start == k && self.blocks@[k].wf()
        &&& forall|k: u64, i: int|
            self.blocks@.contains_key(k) && 0 <= i < self.blocks@[k].edges.len()
                ==> self.blocks@.contains_key(#[trigger] self.blocks@[k].edges@[i].1)
    }

    /// A function at `address` with one empty block there, which is the current one.
    pub fn new(address: u64) -> (r: Self)
        ensures
            r.wf(),
            r.name@ == function_name(address),
            r.start == address,
            r.current_block == address,
            r.blocks@.dom() == set![address],
            is_fresh_block(r.blocks@[address], address),
    {
        let mut name = String::new();
        name.append("sub_");
        push_dec(&mut name, address);
        let mut blocks: BTreeMap<u64, BasicBlock> = BTreeMap::new();
        blocks.insert(address, BasicBlock::new(address));
        assert(blocks@.dom() =~= set![address]);
        Function { name, start: address, blocks, current_block: address }
    }

    /// Executes one instruction: it joins the current block unless the block holds its
    /// address already. A conditional or unconditional jump then counts an edge from the
    /// current block to the next instruction's address, creates the block there if needed,
    /// and makes it current. Calls and returns change nothing more here.
    pub fn execute(&mut self, insn: &Instruction, next_insn: Option<&Instruction>) -> (r: Result<
        (),
        Error,
    >)
        requires
            old(self).wf(),
        ensures
            r is Err <==> (insn.kind matches Some(k) && is_branch(k) && next_insn is None),
            r is Err ==> r == Err::<(), Error>(Error::MissingInstruction) && *final(self)
                == *old(self),
            r is Ok ==> final(self).executed(*old(self), *insn, next_insn),
    {
        match insn.kind {
            Some(k) => {
                if (k == JumpKind::Conditional || k == JumpKind::Unconditional) && next_insn.is_none() {
                    return Err(Error::MissingInstruction);
                }
            },
            None => {},
        }
        let cur = self.current_block;
        let mut b = match self.blocks.remove(&cur) {
            Some(b) => b,
            None => {
                return Err(Error::MissingCurrentBlock);
            },
        };
        if !b.block.contains_key(&insn.addr) {
            b.execute(insn);
        }
        match (insn.kind, next_insn) {
            (Some(k), Some(n)) => {
                if k == JumpKind::Conditional || k == JumpKind::Unconditional {
                    b.add_edge(n.addr, k);
                    self.blocks.insert(cur, b);
                    if !self.blocks.contains_key(&n.addr) {
                        self.blocks.insert(n.addr, BasicBlock::new(n.addr));
                    }
                    self.current_block = n.addr;
                } else {
                    self.blocks.insert(cur, b);
                }
            },
            _ => {
                self.blocks.insert(cur, b);
            },
        }
        proof {
            let old_dom = old(self).blocks@.dom();
            if insn.kind matches Some(k) && is_branch(k) {
                assert(self.blocks@.dom() =~= old_dom.insert(next_insn->0.addr));
            } else {
                assert(self.blocks@.dom() =~= old_dom);
            }
        }
        Ok(())
    }

    /// The graph description of the function, for a renderer of the dot language.
    pub fn dot(&self) -> (r: String)
        ensures
            r@ == dot_text(self.blocks@),
    {
        let mut nodes = String::new();
        let mut edges = String::new();
        let ghost mut bs: Seq<(u64, BasicBlock)> = Seq::empty();
        let entries = self.blocks.iter();
        let ghost full = entries.remaining();
        proof {
            lemma_walk_in_order(self.blocks@, full);
        }
        for (a, b) in it: entries
            invariant
                it.seq() == full,
                bs.len() == it.index(),
                full.len() == self.blocks@.dom().len(),
                forall|i: int, j: int|
                    0 <= i < j < full.len() ==> *(#[trigger] full[i]).0 < *(#[trigger] full[j]).0,
                forall|i: int|
                    0 <= i < full.len() ==> self.blocks@.contains_key(*(#[trigger] full[i]).0)
                        && self.blocks@[*full[i].0] == *full[i].1,
                forall|k: u64| #[trigger]
                    self.blocks@.contains_key(k) ==> exists|i: int|
                        0 <= i < full.len() && *(#[trigger] full[i]).0 == k,
                forall|i: int| 0 <= i < bs.len() ==> #[trigger] bs[i] == (*full[i].0, *full[i].1),
                nodes@ == nodes_text(bs),
                edges@ == all_edges_text(bs),
        {
            nodes.append("\tnode_");
            push_dec(&mut nodes, *a);
            nodes.append(" [shape=box][label=\"");
            let listing = b.to_string();
            nodes.append(listing.as_str());
            nodes.append("\"][color=\"gray0\"][penwidth=2]\n");
            push_edges(&mut edges, *a, &b.edges);
            proof {
                let old_bs = bs;
                bs = bs.push((*a, *b));
                assert(bs.drop_last() =~= old_bs);
            }
        }
        proof {
            assert(bs.len() == full.len());
            assert forall|k: u64| #[trigger] self.blocks@.contains_key(k) implies exists|i: int|
                0 <= i < bs.len() && #[trigger] bs[i].0 == k by {
                let i = choose|i: int| 0 <= i < full.len() && *(#[trigger] full[i]).0 == k;
                assert(bs[i].0 == k);
            }
            assert(in_address_order(bs, self.blocks@));
            lemma_address_order_unique(bs, self.blocks@);
        }
        let mut s = String::new();
        s.append("digraph {\n");
        s.append(nodes.as_str());
        s.append(edges.as_str());
        s.append("}");
        s
    }

    /// `self` is `before` after `insn` was executed with `next` as the next instruction.
    pub open spec fn executed(&self, before: Function, insn: Instruction, next: Option<&Instruction>) -> bool {
        let cur = before.current_block;
        let ob = before.blocks@[cur];
        let nb = self.blocks@[cur];
        let seen = ob.block@.contains_key(insn.addr);
        let jump = insn.kind matches Some(k) && is_branch(k);
        &&& self.wf()
        &&& self.name == before.name
        &&& self.start == before.start
        &&& nb.start == cur
        &&& nb.texts() == if seen { ob.texts() } else { ob.texts().insert(insn.addr, insn.insn@) }
        &&& nb.end == if seen || insn_end(insn.addr, insn.size) <= ob.end {
            ob.end
        } else {
            insn_end(insn.addr, insn.size)
        }
        &&& nb.edges@ == if jump {
            edges_after(ob.edges@, next->0.addr, insn.kind->0)
        } else {
            ob.edges@
        }
        &&& forall|k: u64|
            #[trigger] before.blocks@.contains_key(k) && k != cur ==> self.blocks@[k]
                == before.blocks@[k]
        &&& if jump {
            let t = next->0.addr;
            &&& self.blocks@.dom() == before.blocks@.dom().insert(t)
            &&& self.current_block == t
            &&& !before.blocks@.contains_key(t) ==> is_fresh_block(self.blocks@[t], t)
        } else {
            &&& self.blocks@.dom() == before.blocks@.dom()
            &&& self.current_block == cur
        }
    }
}

/// In a well-formed function every instruction of a block lies at or below the block's end
/// address, every block is stored under its start address, and every edge leads to the
/// start address of a block of the same function.
pub proof fn lemma_blocks_and_edges(f: Function, k: u64, a: u64, e: int)
    requires
        f.wf(),
        f.blocks@.contains_key(k),
    ensures
        f.blocks@[k].start == k,
        f.blocks@[k].block@.contains_key(a) ==> a <= f.blocks@[k].end,
        0 <= e < f.blocks@[k].edges.len() ==> f.blocks@.contains_key(f.blocks@[k].edges@[e].1)
            && f.blocks@[f.blocks@[k].edges@[e].1].start == f.blocks@[k].edges@[e].1,
{
    if 0 <= e < f.blocks@[k].edges.len() {
        assert(f.blocks@.contains_key(f.blocks@[k].edges@[e].1));
    }
}

} // verus!
