use vstd::prelude::*;
use std::collections::BTreeMap;

use vstd::std_specs::iter::IteratorSpec;

use super::block::{address_order, in_address_order, lemma_address_order_unique, lemma_walk_in_order};
use super::function::{Function, dot_text, function_name, is_fresh_block};
use super::{Error, GraphFile, Instruction, JumpKind};

verus! {

/// The current function and the call stack after instruction `i` of `insns`, or the error
/// that it raises: a jump or call with no next instruction, or a return with nothing to
/// return to.
pub open spec fn control_step(insns: Seq<Instruction>, i: int, cur: u64, stack: Seq<u64>) -> Result<
    (u64, Seq<u64>),
    Error,
> {
    let has_next = i + 1 < insns.len();
    match insns[i].kind {
        Some(JumpKind::Call) => if has_next {
            Ok((insns[i + 1].addr, stack.push(cur)))
        } else {
            Err(Error::MissingInstruction)
        },
        Some(JumpKind::Return) => if stack.len() > 0 {
            Ok((stack.last(), stack.drop_last()))
        } else {
            Err(Error::CallStackUnderflow)
        },
        Some(k) => if has_next {
            Ok((cur, stack))
        } else {
            Err(Error::MissingInstruction)
        },
        None => Ok((cur, stack)),
    }
}

/// The current function and the call stack after the first `n` instructions, starting from
/// `cur` and `stack`, or the first error.
pub open spec fn control_after(
    insns: Seq<Instruction>,
    cur: u64,
    stack: Seq<u64>,
    n: nat,
) -> Result<(u64, Seq<u64>), Error>
    decreases n,
{
    if n == 0 {
        Ok((cur, stack))
    } else {
        match control_after(insns, cur, stack, (n - 1) as nat) {
            Ok((c, s)) => control_step(insns, n - 1, c, s),
            Err(e) => Err(e),
        }
    }
}

/// The addresses that the first `n` instructions call.
pub open spec fn call_targets(insns: Seq<Instruction>, n: int) -> Set<u64> {
    Set::new(
        |a: u64|
            exists|m: int|
                0 <= m < n && m + 1 < insns.len() && insns[m].kind == Some(JumpKind::Call)
                    && #[trigger] insns[m + 1].addr == a,
    )
}

/// A function just created at `address`: named after it, with one empty block there, which
/// is current.
pub open spec fn is_fresh_function(f: Function, address: u64) -> bool {
    &&& f.wf()
    &&& f.name@ == function_name(address)
    &&& f.start == address
    &&& f.current_block == address
    &&& f.blocks@.dom() == set![address]
    &&& is_fresh_block(f.blocks@[address], address)
}

/// The functions after instruction `i` ran in the function at `cur`: that function executed
/// it, and a call also created the function at the next instruction's address if it was
/// missing. Every other function is unchanged.
pub open spec fn graph_step(
    before: Map<u64, Function>,
    after: Map<u64, Function>,
    insns: Seq<Instruction>,
    i: int,
    cur: u64,
) -> bool {
    let next = if i + 1 < insns.len() {
        Some(&insns[i + 1])
    } else {
        None
    };
    let call = insns[i].kind == Some(JumpKind::Call) && i + 1 < insns.len();
    &&& after[cur].executed(before[cur], insns[i], next)
    &&& forall|k: u64| #[trigger] before.contains_key(k) && k != cur ==> after[k] == before[k]
    &&& if call {
        let t = insns[i + 1].addr;
        &&& after.dom() == before.dom().insert(t)
        &&& !before.contains_key(t) ==> is_fresh_function(after[t], t)
    } else {
        after.dom() == before.dom()
    }
}

/// `states` goes from `first` to `last` one instruction at a time, each instruction running
/// in the function that is current when it comes.
pub open spec fn built_by(
    states: Seq<Map<u64, Function>>,
    first: Map<u64, Function>,
    last: Map<u64, Function>,
    insns: Seq<Instruction>,
    cur: u64,
    stack: Seq<u64>,
) -> bool {
    &&& states.len() == insns.len() + 1
    &&& states[0] == first
    &&& states[insns.len() as int] == last
    &&& forall|m: int|
        0 <= m < insns.len() ==> #[trigger] graph_step(
            states[m],
            states[m + 1],
            insns,
            m,
            control_after(insns, cur, stack, m as nat)->Ok_0.0,
        )
}

/// `files` describe the functions by increasing start address: each with its address, its
/// name and its graph description.
pub open spec fn describes(files: Seq<GraphFile>, functions: Map<u64, Function>) -> bool {
    let fs = address_order(functions);
    &&& files.len() == fs.len()
    &&& forall|i: int|
        0 <= i < files.len() ==> (#[trigger] files[i]).address == fs[i].0 && files[i].name@
            == fs[i].1.name@ && files[i].dot@ == dot_text(fs[i].1.blocks@)
}

/// The interprocedural graph: functions by start address, the function that execution is
/// in, and the functions to return to.
pub struct ControlFlowGraph {
    pub functions: BTreeMap<u64, Function>,
    pub current_function: u64,
    pub call_stack: Vec<u64>,
}

impl ControlFlowGraph {
    pub open spec fn wf(&self) -> bool {
        &&& self.functions@.contains_key(self.current_function)
        &&& forall|k: u64| #[trigger]
            self.functions@.contains_key(k) ==> self.functions@[k].start == k
                && self.functions@[k].wf()
        &&& forall|i: int|
            0 <= i < self.call_stack.len() ==> self.functions@.contains_key(
                #[trigger] self.call_stack@[i],
            )
    }

    /// A graph with one function, at the entry point, which is current.
    pub fn new(entry_point: u64) -> (r: Self)
        ensures
            r.wf(),
            r.current_function == entry_point,
            r.call_stack@ == Seq::<u64>::empty(),
            r.functions@.dom() == set![entry_point],
            r.functions@[entry_point].name@ == function_name(entry_point),
            r.functions@[entry_point].current_block == entry_point,
            r.functions@[entry_point].blocks@.dom() == set![entry_point],
            is_fresh_block(r.functions@[entry_point].blocks@[entry_point], entry_point),
    {
        let mut functions: BTreeMap<u64, Function> = BTreeMap::new();
        functions.insert(entry_point, Function::new(entry_point));
        assert(functions@.dom() =~= set![entry_point]);
        ControlFlowGraph { functions, current_function: entry_point, call_stack: Vec::new() }
    }

    /// Builds the graph in one pass over the instructions: each one is executed in the
    /// current function; a call enters the function at the next instruction's address,
    /// creating it if needed, and a return goes back to the function that made the call.
    pub fn construct(&mut self, insns: &[Instruction]) -> (r: Result<(), Error>)
        requires
            old(self).wf(),
        ensures
            match control_after(
                insns@,
                old(self).current_function,
                old(self).call_stack@,
                insns@.len(),
            ) {
                Ok((cur, stack)) => {
                    &&& r is Ok
                    &&& final(self).wf()
                    &&& final(self).current_function == cur
                    &&& final(self).call_stack@ == stack
                    &&& final(self).functions@.dom() == old(self).functions@.dom() + call_targets(
                        insns@,
                        insns@.len() as int,
                    )
                    &&& exists|states: Seq<Map<u64, Function>>|
                        built_by(
                            states,
                            old(self).functions@,
                            final(self).functions@,
                            insns@,
                            old(self).current_function,
                            old(self).call_stack@,
                        )
                },
                Err(e) => r == Err::<(), Error>(e),
            },
    {
        let ghost c0 = self.current_function;
        let ghost s0 = self.call_stack@;
        let ghost d0 = self.functions@.dom();
        let ghost mut states: Seq<Map<u64, Function>> = seq![self.functions@];
        let n = insns.len();
        let mut i: usize = 0;
        while i < n
            invariant
                n == insns.len(),
                i <= n,
                c0 == old(self).current_function,
                s0 == old(self).call_stack@,
                self.wf(),
                control_after(insns@, c0, s0, i as nat) == Ok::<(u64, Seq<u64>), Error>(
                    (self.current_function, self.call_stack@),
                ),
                self.functions@.dom() == d0 + call_targets(insns@, i as int),
                states.len() == i + 1,
                states[0] == old(self).functions@,
                states[i as int] == self.functions@,
                forall|m: int|
                    0 <= m < i ==> #[trigger] graph_step(
                        states[m],
                        states[m + 1],
                        insns@,
                        m,
                        control_after(insns@, c0, s0, m as nat)->Ok_0.0,
                    ),
            decreases n - i,
        {
            proof {
                assert(control_after(insns@, c0, s0, (i + 1) as nat) == control_step(
                    insns@,
                    i as int,
                    self.current_function,
                    self.call_stack@,
                ));
            }
            let ghost g0 = self.functions@;
            let insn = &insns[i];
            let next = if i + 1 < n {
                Some(&insns[i + 1])
            } else {
                None
            };
            let cur = self.current_function;
            let mut f = match self.functions.remove(&cur) {
                Some(f) => f,
                None => {
                    return Err(Error::MissingCurrentFunction);
                },
            };
            match f.execute(insn, next) {
                Ok(()) => {},
                Err(e) => {
                    proof {
                        lemma_error_persists(insns@, c0, s0, (i + 1) as nat, insns@.len());
                    }
                    return Err(e);
                },
            }
            let start = f.start;
            self.functions.insert(cur, f);
            let ghost before = self.functions@.dom();
            match insn.kind {
                Some(JumpKind::Call) => {
                    match next {
                        Some(t) => {
                            self.call_stack.push(start);
                            self.add_function(t.addr);
                            self.current_function = t.addr;
                        },
                        None => {
                            proof {
                                lemma_error_persists(insns@, c0, s0, (i + 1) as nat, insns@.len());
                            }
                            return Err(Error::MissingInstruction);
                        },
                    }
                },
                Some(JumpKind::Return) => {
                    match self.call_stack.pop() {
                        Some(a) => {
                            self.current_function = a;
                        },
                        None => {
                            proof {
                                lemma_error_persists(insns@, c0, s0, (i + 1) as nat, insns@.len());
                            }
                            return Err(Error::CallStackUnderflow);
                        },
                    }
                },
                _ => {},
            }
            proof {
                let t2 = call_targets(insns@, i as int + 1);
                if insn.kind == Some(JumpKind::Call) {
                    assert(t2 =~= call_targets(insns@, i as int).insert(insns@[i + 1].addr));
                } else {
                    assert forall|a: u64| #[trigger] t2.contains(a) implies call_targets(insns@, i as int).contains(a) by {
                        let m = choose|m: int|
                            0 <= m < i + 1 && m + 1 < insns@.len() && insns@[m].kind == Some(JumpKind::Call)
                                && #[trigger] insns@[m + 1].addr == a;
                        assert(m != i);
                    }
                    assert(t2 =~= call_targets(insns@, i as int));
                }
                assert(self.functions@.dom() =~= d0 + t2);
                if insn.kind == Some(JumpKind::Call) {
                    assert(self.functions@.dom() =~= g0.dom().insert(insns@[i + 1].addr));
                } else {
                    assert(self.functions@.dom() =~= g0.dom());
                }
                assert(graph_step(g0, self.functions@, insns@, i as int, cur));
                states = states.push(self.functions@);
                assert forall|m: int|
                    0 <= m < i + 1 implies #[trigger] graph_step(
                        states[m],
                        states[m + 1],
                        insns@,
                        m,
                        control_after(insns@, c0, s0, m as nat)->Ok_0.0,
                    ) by {
                    if m < i {
                        assert(states[m] == states.drop_last()[m]);
                    }
                }
            }
            i = i + 1;
        }
        proof {
            assert(built_by(states, old(self).functions@, self.functions@, insns@, c0, s0));
        }
        Ok(())
    }

    /// The graph description of every function, by increasing start address.
    pub fn gen_graphs(&self) -> (r: Vec<GraphFile>)
        ensures
            describes(r@, self.functions@),
    {
        let mut files: Vec<GraphFile> = Vec::new();
        let ghost mut fs: Seq<(u64, Function)> = Seq::empty();
        let entries = self.functions.iter();
        let ghost full = entries.remaining();
        proof {
            lemma_walk_in_order(self.functions@, full);
        }
        for (a, f) in it: entries
            invariant
                it.seq() == full,
                fs.len() == it.index(),
                files.len() == fs.len(),
                full.len() == self.functions@.dom().len(),
                forall|i: int, j: int|
                    0 <= i < j < full.len() ==> *(#[trigger] full[i]).0 < *(#[trigger] full[j]).0,
                forall|i: int|
                    0 <= i < full.len() ==> self.functions@.contains_key(*(#[trigger] full[i]).0)
                        && self.functions@[*full[i].0] == *full[i].1,
                forall|k: u64| #[trigger]
                    self.functions@.contains_key(k) ==> exists|i: int|
                        0 <= i < full.len() && *(#[trigger] full[i]).0 == k,
                forall|i: int| 0 <= i < fs.len() ==> #[trigger] fs[i] == (*full[i].0, *full[i].1),
                forall|i: int|
                    0 <= i < files.len() ==> (#[trigger] files@[i]).address == fs[i].0
                        && files@[i].name@ == fs[i].1.name@ && files@[i].dot@ == dot_text(
                        fs[i].1.blocks@,
                    ),
        {
            let name = f.name.clone();
            let dot = f.dot();
            files.push(GraphFile { address: *a, name, dot });
            proof {
                fs = fs.push((*a, *f));
            }
        }
        proof {
            assert(fs.len() == full.len());
            assert forall|k: u64| #[trigger] self.functions@.contains_key(k) implies exists|i: int|
                0 <= i < fs.len() && #[trigger] fs[i].0 == k by {
                let i = choose|i: int| 0 <= i < full.len() && *(#[trigger] full[i]).0 == k;
                assert(fs[i].0 == k);
            }
            assert(in_address_order(fs, self.functions@));
            lemma_address_order_unique(fs, self.functions@);
        }
        files
    }

    /// Adds the function at `starting_address` unless it exists.
    fn add_function(&mut self, starting_address: u64)
        requires
            forall|k: u64| #[trigger]
                old(self).functions@.contains_key(k) ==> old(self).functions@[k].start == k
                    && old(self).functions@[k].wf(),
        ensures
            final(self).current_function == old(self).current_function,
            final(self).call_stack == old(self).call_stack,
            final(self).functions@.dom() == old(self).functions@.dom().insert(starting_address),
            forall|k: u64| #[trigger]
                old(self).functions@.contains_key(k) ==> final(self).functions@[k]
                    == old(self).functions@[k],
            forall|k: u64| #[trigger]
                final(self).functions@.contains_key(k) ==> final(self).functions@[k].start == k
                    && final(self).functions@[k].wf(),
            !old(self).functions@.contains_key(starting_address) ==> is_fresh_function(
                final(self).functions@[starting_address],
                starting_address,
            ),
    {
        if !self.functions.contains_key(&starting_address) {
            self.functions.insert(starting_address, Function::new(starting_address));
        }
        assert(self.functions@.dom() =~= old(self).functions@.dom().insert(starting_address));
    }
}

/// Once the control state has failed, it stays failed with the same error.
pub proof fn lemma_error_persists(insns: Seq<Instruction>, cur: u64, stack: Seq<u64>, m: nat, n: nat)
    requires
        m <= n,
        control_after(insns, cur, stack, m) is Err,
    ensures
        control_after(insns, cur, stack, n) == control_after(insns, cur, stack, m),
    decreases n - m,
{
    if m < n {
        lemma_error_persists(insns, cur, stack, m, (n - 1) as nat);
    }
}

/// The call stack after `m` instructions, when no error came before.
pub open spec fn stack_after(insns: Seq<Instruction>, cur: u64, stack: Seq<u64>, m: nat) -> Seq<u64> {
    control_after(insns, cur, stack, m)->Ok_0.1
}

/// Between a call at `i` and instruction `m`, the stack kept the frame that the call pushed.
proof fn lemma_frame_kept(insns: Seq<Instruction>, cur: u64, stack: Seq<u64>, i: nat, m: nat)
    requires
        i < m < insns.len(),
        insns[i as int].kind == Some(JumpKind::Call),
        control_after(insns, cur, stack, i) is Ok,
        forall|n: nat|
            i < n <= m ==> #[trigger] control_after(insns, cur, stack, n) is Ok && stack_after(
                insns,
                cur,
                stack,
                n,
            ).len() > stack_after(insns, cur, stack, i).len(),
    ensures
        ({
            let d = stack_after(insns, cur, stack, i).len();
            let frame = stack_after(insns, cur, stack, i).push(
                control_after(insns, cur, stack, i)->Ok_0.0,
            );
            stack_after(insns, cur, stack, m).subrange(0, d as int + 1) == frame
        }),
    decreases m - i,
{
    let d = stack_after(insns, cur, stack, i).len();
    let frame = stack_after(insns, cur, stack, i).push(control_after(insns, cur, stack, i)->Ok_0.0);
    assert(control_after(insns, cur, stack, m) is Ok);
    if m == i + 1 {
        assert(stack_after(insns, cur, stack, m) == frame);
        assert(frame.subrange(0, d as int + 1) =~= frame);
    } else {
        let p = (m - 1) as nat;
        lemma_frame_kept(insns, cur, stack, i, p);
        let sp = stack_after(insns, cur, stack, p);
        let sm = stack_after(insns, cur, stack, m);
        assert(control_after(insns, cur, stack, p) is Ok);
        assert(control_after(insns, cur, stack, m) == control_step(
            insns,
            p as int,
            control_after(insns, cur, stack, p)->Ok_0.0,
            sp,
        ));
        assert(sp.len() > d);
        assert(sm.len() > d);
        match insns[p as int].kind {
            Some(JumpKind::Call) => {
                assert(sm.subrange(0, d as int + 1) =~= sp.subrange(0, d as int + 1));
            },
            Some(JumpKind::Return) => {
                assert(sm.subrange(0, d as int + 1) =~= sp.subrange(0, d as int + 1));
            },
            _ => {},
        }
    }
}

/// A call followed by its matching return makes the function that made the call current
/// again, with the call stack it had: the return is the first one after the call at which
/// the stack has fallen back to one frame above its depth before the call. Applied to each
/// pair of a nested run of calls, calls are undone in last-in, first-out order.
pub proof fn lemma_call_return_restores(
    insns: Seq<Instruction>,
    cur: u64,
    stack: Seq<u64>,
    i: nat,
    j: nat,
)
    requires
        i < j < insns.len(),
        insns[i as int].kind == Some(JumpKind::Call),
        insns[j as int].kind == Some(JumpKind::Return),
        control_after(insns, cur, stack, i) is Ok,
        forall|n: nat|
            i < n <= j ==> #[trigger] control_after(insns, cur, stack, n) is Ok && stack_after(
                insns,
                cur,
                stack,
                n,
            ).len() > stack_after(insns, cur, stack, i).len(),
        stack_after(insns, cur, stack, j).len() == stack_after(insns, cur, stack, i).len() + 1,
    ensures
        control_after(insns, cur, stack, j + 1) == control_after(insns, cur, stack, i),
{
    lemma_frame_kept(insns, cur, stack, i, j);
    let d = stack_after(insns, cur, stack, i).len();
    let sj = stack_after(insns, cur, stack, j);
    assert(sj.subrange(0, d as int + 1) =~= sj);
    assert(control_after(insns, cur, stack, j) is Ok);
    assert(control_after(insns, cur, stack, j + 1) == control_step(
        insns,
        j as int,
        control_after(insns, cur, stack, j)->Ok_0.0,
        sj,
    ));
    assert(sj.drop_last() =~= stack_after(insns, cur, stack, i));
}

} // verus!
