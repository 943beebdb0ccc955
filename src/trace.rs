use vstd::prelude::*;

pub mod block;
pub mod cfg;
pub mod function;
pub mod register;

use std::collections::BTreeMap;

use self::cfg::{
    ControlFlowGraph,
    built_by,
    call_targets,
    control_after,
    describes,
    is_fresh_function,
};
use self::function::Function;
use self::register::{Registers, bank_error, overwrite, write_values};

verus! {

/// How an instruction transfers control, when it does.
#[derive(Debug, Clone, Copy, PartialEq, Eq, Structural)]
pub enum JumpKind {
    Call,
    Return,
    Unconditional,
    Conditional,
}

/// True when the kind is a branch that stays inside one function.
pub open spec fn is_branch(k: JumpKind) -> bool {
    k == JumpKind::Conditional || k == JumpKind::Unconditional
}

/// A side effect recorded for one executed instruction.
#[derive(Debug)]
pub enum Event {
    RegRead(u32),
    RegWrite(u32, Vec<u8>),
    MemRead(u64),
    MemWrite(u64, u64),
}

/// The graph description of one function, ready to be rendered.
#[derive(Debug)]
pub struct GraphFile {
    pub address: u64,
    pub name: String,
    /// The graph in the dot language.
    pub dot: String,
}

/// One executed instruction of a trace, in the order of execution.
#[derive(Debug)]
pub struct Instruction {
    pub addr: u64,
    pub insn: String,
    pub size: Option<u16>,
    pub kind: Option<JumpKind>,
    pub events: Vec<Event>,
}

/// Metadata of one register of the traced architecture.
#[derive(Debug)]
pub struct RegisterInfo {
    pub name: String,
    pub register: u32,
    pub full_register: Option<u32>,
    pub size: u16,
}

/// The architecture section of a trace document.
#[derive(Debug)]
pub struct ArchInfo {
    pub registers: Vec<RegisterInfo>,
    pub memory: Vec<(u64, u64)>,
}

/// A whole trace document.
#[derive(Debug)]
pub struct TraceFile {
    pub info: ArchInfo,
    pub instructions: Vec<Instruction>,
}

/// Why a trace could not be loaded.
#[derive(Debug, Clone, Copy, PartialEq, Eq, Structural)]
pub enum Error {
    /// The block that was queried for in the function does not exist.
    MissingBlock,
    /// The current basic block is missing from its function.
    MissingCurrentBlock,
    /// The current function is missing from the control flow graph.
    MissingCurrentFunction,
    /// A jump, call or branch was the last instruction, so its target is unknown.
    MissingInstruction,
    /// A return was seen with no call left to return to.
    CallStackUnderflow,
    /// The trace holds no instruction at all.
    MissingFirstInstruction,
    /// Two registers share one index.
    DuplicateRegister,
    /// A register is neither 1, 2, 3, 4, 6, 8 nor 16 bytes wide.
    UnsupportedRegisterSize,
    /// An alias reaches no full register: its chain of aliases leaves the metadata or loops.
    UnresolvedAlias,
}

} // verus!

verus! {

/// The replayed state: the bytes of every full register, and memory by address.
pub type Machine = (Seq<Seq<u8>>, Map<u64, u64>);

/// The state after one event: writes change a register or a memory cell, reads change
/// nothing.
pub open spec fn apply_event(lookup: Map<usize, usize>, m: Machine, e: Event) -> Machine {
    match e {
        Event::RegWrite(r, v) => (write_values(lookup, m.0, r as usize, v@), m.1),
        Event::MemWrite(a, v) => (m.0, m.1.insert(a, v)),
        _ => m,
    }
}

/// The state after the first `n` events of `evs`, in order.
pub open spec fn apply_events(lookup: Map<usize, usize>, m: Machine, evs: Seq<Event>, n: nat) -> Machine
    decreases n,
{
    if n == 0 || n > evs.len() {
        m
    } else {
        apply_event(lookup, apply_events(lookup, m, evs, (n - 1) as nat), evs[n - 1])
    }
}

/// The state after all events of one instruction.
pub open spec fn apply_instruction(lookup: Map<usize, usize>, m: Machine, insn: Instruction) -> Machine {
    apply_events(lookup, m, insn.events@, insn.events@.len())
}

/// The state after the first `n` instructions, starting from `m`.
pub open spec fn replay(lookup: Map<usize, usize>, m: Machine, insns: Seq<Instruction>, n: nat) -> Machine
    decreases n,
{
    if n == 0 || n > insns.len() {
        m
    } else {
        apply_instruction(lookup, replay(lookup, m, insns, (n - 1) as nat), insns[n - 1])
    }
}

/// What one event overwrote, kept so that the event can be undone.
#[derive(Debug)]
pub enum Undo {
    /// The event wrote nothing.
    Nothing,
    /// The register slot and its bytes before the write.
    Reg(usize, Vec<u8>),
    /// The memory address and its value before the write, if it had one.
    Mem(u64, Option<u64>),
}

/// `u` records what `e` overwrites when it is applied to `m`.
pub open spec fn undo_matches(u: Undo, lookup: Map<usize, usize>, m: Machine, e: Event) -> bool {
    match e {
        Event::RegWrite(r, _) => if lookup.contains_key(r as usize) && lookup[r as usize] < m.0.len() {
            u matches Undo::Reg(p, old) && p == lookup[r as usize] && old@ == m.0[p as int]
        } else {
            u is Nothing
        },
        Event::MemWrite(a, _) => u matches Undo::Mem(b, o) && b == a && o == if m.1.contains_key(a) {
            Some(m.1[a])
        } else {
            None
        },
        _ => u is Nothing,
    }
}

/// The state with the overwritten value that `u` recorded put back.
pub open spec fn revert(u: Undo, m: Machine) -> Machine {
    match u {
        Undo::Nothing => m,
        Undo::Reg(p, old) => (m.0.update(p as int, old@), m.1),
        Undo::Mem(a, Some(x)) => (m.0, m.1.insert(a, x)),
        Undo::Mem(a, None) => (m.0, m.1.remove(a)),
    }
}

/// Undoing an event with what it overwrote gives back the state before it.
pub proof fn lemma_revert_event(u: Undo, lookup: Map<usize, usize>, m: Machine, e: Event)
    requires
        undo_matches(u, lookup, m, e),
    ensures
        revert(u, apply_event(lookup, m, e)) == m,
{
    match e {
        Event::RegWrite(r, v) => {
            if lookup.contains_key(r as usize) && lookup[r as usize] < m.0.len() {
                assert(revert(u, apply_event(lookup, m, e)).0 =~= m.0);
            }
        },
        Event::MemWrite(a, v) => {
            assert(revert(u, apply_event(lookup, m, e)).1 =~= m.1);
        },
        _ => {},
    }
}

/// Memory after the pairs are stored in order, a later pair winning over an earlier one.
pub open spec fn memory_from(pairs: Seq<(u64, u64)>) -> Map<u64, u64>
    decreases pairs.len(),
{
    if pairs.len() == 0 {
        Map::empty()
    } else {
        memory_from(pairs.drop_last()).insert(pairs.last().0, pairs.last().1)
    }
}

/// Replays a trace forwards and backwards over the register bank and memory, and holds the
/// graph that was built from the trace.
pub struct Tracer {
    pub step: usize,
    pub registers: Registers,
    pub memory: BTreeMap<u64, u64>,
    pub graph: ControlFlowGraph,
    /// The graph description of every function, by increasing start address.
    pub graphs: Vec<GraphFile>,
    pub instructions: Vec<Instruction>,
    /// For each applied instruction, what each of its events overwrote.
    pub undo: Vec<Vec<Undo>>,
    /// The state before the first instruction.
    pub initial: Ghost<Machine>,
}

impl Tracer {
    /// The current replayed state.
    pub open spec fn machine(&self) -> Machine {
        (self.registers.values(), self.memory@)
    }

    /// The state after the first `k` instructions.
    pub open spec fn state_at(&self, k: nat) -> Machine {
        replay(self.registers.lookup@, self.initial@, self.instructions@, k)
    }

    /// The undo log of instruction `k` records what each of its events overwrote.
    pub open spec fn log_matches(&self, k: int) -> bool {
        let evs = self.instructions@[k].events@;
        let log = self.undo@[k]@;
        &&& log.len() == evs.len()
        &&& forall|j: int|
            0 <= j < evs.len() ==> undo_matches(
                #[trigger] log[j],
                self.registers.lookup@,
                apply_events(self.registers.lookup@, self.state_at(k as nat), evs, j as nat),
                evs[j],
            )
    }

    pub open spec fn wf(&self) -> bool {
        &&& self.registers.wf()
        &&& self.step <= self.instructions.len()
        &&& self.undo.len() == self.step
        &&& self.machine() == self.state_at(self.step as nat)
        &&& forall|k: int| 0 <= k < self.step ==> #[trigger] self.log_matches(k)
    }

    /// What stays the same while stepping: the trace, its graph, the starting state, the
    /// register names and how register indices resolve.
    pub open spec fn same_trace(&self, before: Tracer) -> bool {
        &&& self.wf()
        &&& self.instructions == before.instructions
        &&& self.graph == before.graph
        &&& self.graphs == before.graphs
        &&& self.initial == before.initial
        &&& self.registers.lookup@ == before.registers.lookup@
        &&& self.registers.names() == before.registers.names()
    }

    /// `self` is `before` after one forward step: the instruction at the cursor was applied
    /// and the cursor moved on, or, at the end of the trace, nothing changed.
    pub open spec fn stepped_forward(&self, before: Tracer) -> bool {
        &&& self.same_trace(before)
        &&& if before.step < before.instructions.len() {
            &&& self.step == before.step + 1
            &&& self.machine() == apply_instruction(
                before.registers.lookup@,
                before.machine(),
                before.instructions@[before.step as int],
            )
        } else {
            &&& self.step == before.step
            &&& self.machine() == before.machine()
        }
    }

    /// `self` is `before` after one backward step: the cursor moved back by one and the
    /// state is the one before the instruction now at the cursor, or, at the start of the
    /// trace, nothing changed.
    pub open spec fn stepped_backward(&self, before: Tracer) -> bool {
        &&& self.same_trace(before)
        &&& if before.step >= 1 {
            &&& self.step == before.step - 1
            &&& self.machine() == before.state_at((before.step - 1) as nat)
        } else {
            &&& self.step == before.step
            &&& self.machine() == before.machine()
        }
    }

    /// Loads a trace: builds the register bank and memory, and the graph in one pass over
    /// the instructions, starting at the first one. Nothing is applied yet.
    pub fn new(trace: TraceFile) -> (r: Result<Tracer, Error>)
        ensures
            match bank_error(trace.info.registers@) {
                Some(e) => r == Err::<Tracer, Error>(e),
                None => if trace.instructions.len() == 0 {
                    r == Err::<Tracer, Error>(Error::MissingFirstInstruction)
                } else {
                    match control_after(
                        trace.instructions@,
                        trace.instructions@[0].addr,
                        Seq::empty(),
                        trace.instructions@.len(),
                    ) {
                        Err(e) => r == Err::<Tracer, Error>(e),
                        Ok((cur, stack)) => r matches Ok(t) && {
                            &&& t.wf()
                            &&& t.step == 0
                            &&& t.registers.built_from(trace.info.registers@)
                            &&& t.memory@ == memory_from(trace.info.memory@)
                            &&& t.instructions@ == trace.instructions@
                            &&& t.graph.wf()
                            &&& describes(t.graphs@, t.graph.functions@)
                            &&& t.graph.current_function == cur
                            &&& t.graph.call_stack@ == stack
                            &&& t.graph.functions@.dom() == set![trace.instructions@[0].addr]
                                + call_targets(trace.instructions@, trace.instructions@.len() as int)
                            &&& exists|states: Seq<Map<u64, Function>>|
                                states.len() > 0 && states[0].dom() == set![
                                    trace.instructions@[0].addr,
                                ] && is_fresh_function(
                                    states[0][trace.instructions@[0].addr],
                                    trace.instructions@[0].addr,
                                ) && #[trigger] built_by(
                                    states,
                                    states[0],
                                    t.graph.functions@,
                                    trace.instructions@,
                                    trace.instructions@[0].addr,
                                    Seq::empty(),
                                )
                        },
                    }
                },
            },
    {
        let TraceFile { info, instructions } = trace;
        let registers = match Registers::new(info.registers.as_slice()) {
            Ok(b) => b,
            Err(e) => {
                return Err(e);
            },
        };
        let mut memory: BTreeMap<u64, u64> = BTreeMap::new();
        let mut i: usize = 0;
        while i < info.memory.len()
            invariant
                i <= info.memory.len(),
                memory@ == memory_from(info.memory@.subrange(0, i as int)),
            decreases info.memory.len() - i,
        {
            let (a, v) = info.memory[i];
            memory.insert(a, v);
            proof {
                assert(info.memory@.subrange(0, i as int + 1).drop_last() =~= info.memory@.subrange(0, i as int));
            }
            i = i + 1;
        }
        assert(info.memory@.subrange(0, info.memory@.len() as int) =~= info.memory@);
        if instructions.len() == 0 {
            return Err(Error::MissingFirstInstruction);
        }
        let mut graph = ControlFlowGraph::new(instructions[0].addr);
        let ghost g0 = graph.functions@;
        let ghost mut steps: Seq<Map<u64, Function>> = Seq::empty();
        match graph.construct(instructions.as_slice()) {
            Ok(()) => {
                proof {
                    let first = instructions@[0].addr;
                    steps = choose|states: Seq<Map<u64, Function>>|
                        built_by(states, g0, graph.functions@, instructions@, first, Seq::empty());
                    assert(is_fresh_function(g0[first], first));
                    assert(steps[0] == g0);
                }
            },
            Err(e) => {
                return Err(e);
            },
        }
        let graphs = graph.gen_graphs();
        let ghost initial = (registers.values(), memory@);
        let t = Tracer {
            step: 0,
            registers,
            memory,
            graph,
            graphs,
            instructions,
            undo: Vec::new(),
            initial: Ghost(initial),
        };
        proof {
            assert(built_by(
                steps,
                steps[0],
                t.graph.functions@,
                t.instructions@,
                t.instructions@[0].addr,
                Seq::empty(),
            ));
        }
        Ok(t)
    }

    /// The text of the instruction at the cursor, the one that the next forward step applies;
    /// none at the end of the trace.
    pub fn current_insn(&self) -> (r: Option<&String>)
        ensures
            self.step < self.instructions.len() ==> r == Some(&self.instructions@[self.step as int].insn),
            self.step >= self.instructions.len() ==> r is None,
    {
        if self.step < self.instructions.len() {
            Some(&self.instructions[self.step].insn)
        } else {
            None
        }
    }

    /// Applies the events of the instruction at the cursor, remembering what they
    /// overwrite, and moves the cursor on; at the end of the trace it does nothing.
    pub fn step_forward(&mut self)
        requires
            old(self).wf(),
        ensures
            final(self).stepped_forward(*old(self)),
    {
        if self.step >= self.instructions.len() {
            return;
        }
        let k = self.step;
        let ghost lookup = self.registers.lookup@;
        let ghost s0 = self.machine();
        let n = self.instructions[k].events.len();
        let mut log: Vec<Undo> = Vec::new();
        let mut j: usize = 0;
        while j < n
            invariant
                k == old(self).step,
                k < self.instructions.len(),
                self.instructions == old(self).instructions,
                self.initial == old(self).initial,
                self.undo == old(self).undo,
                self.step == old(self).step,
                self.graph == old(self).graph,
                self.graphs == old(self).graphs,
                n == self.instructions@[k as int].events.len(),
                j <= n,
                self.registers.wf(),
                self.registers.lookup@ == lookup,
                lookup == old(self).registers.lookup@,
                self.registers.names() == old(self).registers.names(),
                s0 == old(self).machine(),
                self.machine() == apply_events(lookup, s0, self.instructions@[k as int].events@, j as nat),
                log.len() == j,
                forall|i: int| 0 <= i < j ==> undo_matches(
                    #[trigger] log@[i],
                    lookup,
                    apply_events(lookup, s0, self.instructions@[k as int].events@, i as nat),
                    self.instructions@[k as int].events@[i],
                ),
            decreases n - j,
        {
            let ghost before = self.machine();
            match &self.instructions[k].events[j] {
                Event::RegWrite(r, v) => {
                    match self.registers.lookup.get(&(*r as usize)) {
                        Some(p) => {
                            let p = *p;
                            log.push(Undo::Reg(p, self.registers.slot_value(p)));
                        },
                        None => {
                            log.push(Undo::Nothing);
                        },
                    }
                    self.registers.write(*r as usize, v.as_slice());
                },
                Event::MemWrite(a, v) => {
                    let prior = match self.memory.get(a) {
                        Some(x) => Some(*x),
                        None => None,
                    };
                    log.push(Undo::Mem(*a, prior));
                    self.memory.insert(*a, *v);
                },
                _ => {
                    log.push(Undo::Nothing);
                },
            }
            proof {
                let evs = self.instructions@[k as int].events@;
                assert(apply_events(lookup, s0, evs, (j + 1) as nat) == apply_event(lookup, before, evs[j as int]));
                assert(self.machine().1 =~= apply_event(lookup, before, evs[j as int]).1);
            }
            j = j + 1;
        }
        self.undo.push(log);
        self.step = k + 1;
        proof {
            assert(self.state_at((k + 1) as nat) == apply_instruction(lookup, self.state_at(k as nat), self.instructions@[k as int]));
            assert forall|m: int| 0 <= m < self.step implies #[trigger] self.log_matches(m) by {
                if m < k {
                    assert(old(self).log_matches(m));
                }
            }
        }
    }

    /// Moves the cursor back by one instruction and puts back what that instruction's events
    /// overwrote, last event first; at the start of the trace it does nothing.
    pub fn step_backward(&mut self)
        requires
            old(self).wf(),
        ensures
            final(self).stepped_backward(*old(self)),
    {
        if self.step < 1 {
            return;
        }
        let k = self.step - 1;
        let mut log = match self.undo.pop() {
            Some(l) => l,
            None => {
                return;
            },
        };
        self.step = k;
        let ghost lookup = self.registers.lookup@;
        let ghost evs = self.instructions@[k as int].events@;
        let ghost s0 = self.state_at(k as nat);
        proof {
            assert(old(self).log_matches(k as int));
            assert(old(self).undo@[k as int] == log);
            assert(self.state_at((k + 1) as nat) == apply_events(lookup, s0, evs, evs.len()));
        }
        let ghost pre = *self;
        let mut j: usize = log.len();
        while j > 0
            invariant
                j == log.len(),
                j <= evs.len(),
                k == self.step,
                k < self.instructions.len(),
                self.undo == pre.undo,
                self.step == pre.step,
                self.graph == old(self).graph,
                self.graphs == old(self).graphs,
                self.instructions == pre.instructions,
                self.initial == pre.initial,
                pre.instructions == old(self).instructions,
                pre.initial == old(self).initial,
                evs == self.instructions@[k as int].events@,
                s0 == pre.state_at(k as nat),
                lookup == self.registers.lookup@,
                lookup == pre.registers.lookup@,
                lookup == old(self).registers.lookup@,
                self.registers.names() == old(self).registers.names(),
                self.registers.wf(),
                self.machine() == apply_events(lookup, s0, evs, j as nat),
                forall|i: int| 0 <= i < j ==> undo_matches(
                    #[trigger] log@[i],
                    lookup,
                    apply_events(lookup, s0, evs, i as nat),
                    evs[i],
                ),
            decreases j,
        {
            let ghost before = self.machine();
            let ghost ulog = log@;
            let ghost prev = apply_events(lookup, s0, evs, (j - 1) as nat);
            proof {
                assert(before == apply_event(lookup, prev, evs[j - 1]));
                lemma_revert_event(ulog[j - 1], lookup, prev, evs[j - 1]);
            }
            let u = log.pop();
            match u {
                Some(Undo::Reg(p, old_bytes)) => {
                    proof {
                        assert(undo_matches(ulog[j - 1], lookup, prev, evs[j - 1]));
                        match evs[j - 1] {
                            Event::RegWrite(r, v) => {
                                assert(before.0[p as int] == overwrite(prev.0[p as int], v@));
                            },
                            _ => {},
                        }
                        assert(self.registers.values()[p as int]
                            == self.registers.registers@[p as int].value@);
                    }
                    self.registers.restore(p, old_bytes);
                },
                Some(Undo::Mem(a, Some(x))) => {
                    self.memory.insert(a, x);
                },
                Some(Undo::Mem(a, None)) => {
                    self.memory.remove(&a);
                },
                _ => {},
            }
            proof {
                assert(self.machine().1 =~= prev.1);
                assert(self.machine().0 =~= prev.0);
            }
            j = j - 1;
        }
        proof {
            assert forall|m: int| 0 <= m < k implies #[trigger] self.log_matches(m) by {
                assert(old(self).log_matches(m));
                assert(old(self).undo@[m] == self.undo@[m]);
            }
        }
        assert(self.machine() == s0);
    }
}

/// A forward step followed by a backward step gives back the cursor, the register bytes and
/// the memory exactly as they were, wherever the forward step had an instruction to apply.
pub proof fn lemma_step_round_trip(t: Tracer, u: Tracer, v: Tracer)
    requires
        t.wf(),
        t.step < t.instructions.len(),
        u.stepped_forward(t),
        v.stepped_backward(u),
    ensures
        v.step == t.step,
        v.machine() == t.machine(),
        v.registers.names() == t.registers.names(),
{
}

/// Whichever way the replay steps, the cursor stays between zero and the number of
/// instructions, both included.
pub proof fn lemma_cursor_in_range(t: Tracer, u: Tracer)
    requires
        t.wf(),
        u.stepped_forward(t) || u.stepped_backward(t),
    ensures
        0 <= u.step <= u.instructions.len(),
{
}

} // verus!
