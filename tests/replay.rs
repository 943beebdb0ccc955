use traceview::trace::block::BasicBlock;
use traceview::trace::cfg::ControlFlowGraph;
use traceview::trace::function::Function;
use traceview::trace::register::{Register, Registers};
use traceview::trace::{ArchInfo, Error, Event, Instruction, JumpKind, RegisterInfo, TraceFile, Tracer};

fn reg(name: &str, register: u32, full_register: Option<u32>, size: u16) -> RegisterInfo {
    RegisterInfo { name: String::from(name), register, full_register, size }
}

fn insn(addr: u64, text: &str, size: Option<u16>, kind: Option<JumpKind>, events: Vec<Event>) -> Instruction {
    Instruction { addr, insn: String::from(text), size, kind, events }
}

fn trace(registers: Vec<RegisterInfo>, memory: Vec<(u64, u64)>, instructions: Vec<Instruction>) -> TraceFile {
    TraceFile { info: ArchInfo { registers, memory }, instructions }
}

fn two_instruction_trace() -> TraceFile {
    trace(
        vec![reg("r0", 0, None, 8)],
        vec![],
        vec![
            insn(0x10, "jne 0x20", Some(2), Some(JumpKind::Conditional), vec![Event::RegWrite(0, vec![5, 0, 0, 0, 0, 0, 0, 0])]),
            insn(0x20, "nop", Some(1), None, vec![]),
        ],
    )
}

#[test]
fn conditional_jump_builds_two_blocks_and_replays() {
    let mut t = Tracer::new(two_instruction_trace()).unwrap();
    assert_eq!(t.graph.functions.len(), 1);
    let f = &t.graph.functions[&0x10];
    let starts: Vec<u64> = f.blocks.keys().copied().collect();
    assert_eq!(starts, vec![0x10, 0x20]);
    assert_eq!(f.blocks[&0x10].edges(), &[(JumpKind::Conditional, 0x20, 1)]);
    assert!(f.blocks[&0x20].edges().is_empty());

    t.step_forward();
    t.step_forward();
    assert_eq!(t.step, 2);
    assert_eq!(t.registers.iter()[0].value, vec![5, 0, 0, 0, 0, 0, 0, 0]);
    // The second instruction wrote nothing, so undoing it keeps the value.
    t.step_backward();
    assert_eq!(t.step, 1);
    assert_eq!(t.registers.iter()[0].value, vec![5, 0, 0, 0, 0, 0, 0, 0]);
    t.step_backward();
    assert_eq!(t.step, 0);
    assert_eq!(t.registers.iter()[0].value, vec![0; 8]);
}

#[test]
fn call_as_last_instruction_is_an_error() {
    let tr = trace(vec![], vec![], vec![
        insn(0x10, "nop", Some(1), None, vec![]),
        insn(0x11, "call 0x40", Some(5), Some(JumpKind::Call), vec![]),
    ]);
    assert_eq!(Tracer::new(tr).err(), Some(Error::MissingInstruction));
}

#[test]
fn branch_as_last_instruction_is_an_error() {
    let tr = trace(vec![], vec![], vec![insn(0x10, "jmp 0x10", Some(2), Some(JumpKind::Unconditional), vec![])]);
    assert_eq!(Tracer::new(tr).err(), Some(Error::MissingInstruction));
}

#[test]
fn return_as_last_instruction_is_accepted_inside_a_call() {
    let mut g = ControlFlowGraph::new(0x10);
    let insns = vec![
        insn(0x10, "call 0x40", Some(5), Some(JumpKind::Call), vec![]),
        insn(0x40, "ret", Some(1), Some(JumpKind::Return), vec![]),
    ];
    assert_eq!(g.construct(&insns), Ok(()));
    assert_eq!(g.current_function, 0x10);
}

#[test]
fn nested_calls_return_in_order() {
    let mut g = ControlFlowGraph::new(0x10);
    let insns = vec![
        insn(0x10, "call 0x100", Some(5), Some(JumpKind::Call), vec![]),
        insn(0x100, "call 0x200", Some(5), Some(JumpKind::Call), vec![]),
        insn(0x200, "ret", Some(1), Some(JumpKind::Return), vec![]),
        insn(0x105, "ret", Some(1), Some(JumpKind::Return), vec![]),
        insn(0x15, "nop", Some(1), None, vec![]),
    ];
    assert_eq!(g.construct(&insns), Ok(()));
    assert_eq!(g.current_function, 0x10);
    assert!(g.call_stack.is_empty());
    let starts: Vec<u64> = g.functions.keys().copied().collect();
    assert_eq!(starts, vec![0x10, 0x100, 0x200]);
    let caller = &g.functions[&0x10];
    let listed: Vec<u64> = caller.blocks[&0x10].iter().keys().copied().collect();
    assert_eq!(listed, vec![0x10, 0x15]);
    assert_eq!(caller.blocks[&0x10].end, 0x16);
}

#[test]
fn return_without_call_underflows() {
    let mut g = ControlFlowGraph::new(0x10);
    let insns = vec![insn(0x10, "ret", Some(1), Some(JumpKind::Return), vec![]), insn(0x20, "nop", None, None, vec![])];
    assert_eq!(g.construct(&insns), Err(Error::CallStackUnderflow));
}

#[test]
fn empty_trace_is_an_error() {
    let tr = trace(vec![reg("r0", 0, None, 8)], vec![], vec![]);
    assert_eq!(Tracer::new(tr).err(), Some(Error::MissingFirstInstruction));
}

#[test]
fn loop_counts_edge_traversals() {
    let mut g = ControlFlowGraph::new(0x10);
    let insns = vec![
        insn(0x10, "dec ecx", Some(2), None, vec![]),
        insn(0x12, "jnz 0x10", Some(2), Some(JumpKind::Conditional), vec![]),
        insn(0x10, "dec ecx", Some(2), None, vec![]),
        insn(0x12, "jnz 0x10", Some(2), Some(JumpKind::Conditional), vec![]),
        insn(0x10, "dec ecx", Some(2), None, vec![]),
    ];
    assert_eq!(g.construct(&insns), Ok(()));
    let f = &g.functions[&0x10];
    assert_eq!(f.blocks.len(), 1);
    assert_eq!(f.blocks[&0x10].edges(), &[(JumpKind::Conditional, 0x10, 2)]);
    assert_eq!(f.blocks[&0x10].to_string(), "0x10\tdec ecx\\n0x12\tjnz 0x10\\n");
}

#[test]
fn memory_write_round_trip() {
    let tr = trace(vec![], vec![(0x1000, 7)], vec![
        insn(0x10, "mov [0x1000], 9", Some(4), None, vec![Event::MemWrite(0x1000, 9), Event::MemWrite(0x2000, 1), Event::MemRead(0x1000)]),
        insn(0x14, "nop", Some(1), None, vec![]),
    ]);
    let mut t = Tracer::new(tr).unwrap();
    t.step_forward();
    assert_eq!(t.memory.get(&0x1000), Some(&9));
    assert_eq!(t.memory.get(&0x2000), Some(&1));
    t.step_backward();
    assert_eq!(t.memory.get(&0x1000), Some(&7));
    assert_eq!(t.memory.get(&0x2000), None);
    assert_eq!(t.memory.len(), 1);
}

#[test]
fn forward_then_backward_restores_registers() {
    let tr = trace(vec![reg("rax", 0, None, 8), reg("eax", 1, Some(0), 4)], vec![], vec![
        insn(0x10, "mov rax, 1", Some(7), None, vec![Event::RegWrite(0, vec![1, 0, 0, 0, 0, 0, 0, 0])]),
        insn(0x17, "mov eax, 2", Some(5), None, vec![Event::RegWrite(1, vec![2, 0, 0, 0]), Event::RegWrite(0, vec![3, 3, 3, 3, 3, 3, 3, 3])]),
    ]);
    let mut t = Tracer::new(tr).unwrap();
    t.step_forward();
    let before = t.registers.iter()[0].value.clone();
    t.step_forward();
    assert_eq!(t.registers.iter()[0].value, vec![3; 8]);
    t.step_backward();
    assert_eq!(t.registers.iter()[0].value, before);
}

#[test]
fn stepping_is_clamped_at_both_ends() {
    let mut t = Tracer::new(two_instruction_trace()).unwrap();
    t.step_backward();
    assert_eq!(t.step, 0);
    t.step_forward();
    t.step_forward();
    t.step_forward();
    assert_eq!(t.step, 2);
    assert_eq!(t.registers.iter()[0].value, vec![5, 0, 0, 0, 0, 0, 0, 0]);
}

#[test]
fn alias_write_reaches_full_register() {
    let info = vec![reg("rax", 0, None, 8), reg("eax", 1, Some(0), 4), reg("ax", 2, Some(0), 2)];
    let mut b = Registers::new(&info).unwrap();
    assert_eq!(b.iter().len(), 1);
    b.write(1, &[0x11, 0x22, 0x33, 0x44]);
    b.write(2, &[0xAA, 0xBB]);
    assert_eq!(b.iter()[0].value, vec![0xAA, 0xBB, 0x33, 0x44, 0, 0, 0, 0]);
    assert_eq!(b.iter()[0].to_string(), "rax : 000000004433BBAA");
}

#[test]
fn alias_and_direct_writes_agree() {
    let info = vec![reg("rax", 0, None, 8), reg("eax", 1, Some(0), 4)];
    let mut a = Registers::new(&info).unwrap();
    let mut d = Registers::new(&info).unwrap();
    a.write(1, &[1, 2, 3, 4]);
    d.write(0, &[1, 2, 3, 4]);
    assert_eq!(a.iter()[0].value, d.iter()[0].value);
}

#[test]
fn unknown_register_index_changes_nothing() {
    let mut b = Registers::new(&[reg("r0", 0, None, 1)]).unwrap();
    b.write(9, &[7]);
    assert_eq!(b.iter()[0].value, vec![0]);
}

#[test]
fn register_errors() {
    assert_eq!(Registers::new(&[reg("a", 0, None, 5)]).err().map(|_| ()), Some(()));
    assert!(matches!(Registers::new(&[reg("a", 0, None, 5)]), Err(Error::UnsupportedRegisterSize)));
    assert!(matches!(Registers::new(&[reg("a", 0, None, 8), reg("b", 0, None, 8)]), Err(Error::DuplicateRegister)));
    assert!(matches!(Registers::new(&[reg("a", 0, None, 8), reg("b", 1, Some(7), 4)]), Err(Error::UnresolvedAlias)));
    assert!(matches!(Registers::new(&[reg("a", 1, Some(2), 4), reg("b", 2, Some(1), 4)]), Err(Error::UnresolvedAlias)));
    let tr = trace(vec![reg("a", 0, None, 7)], vec![], vec![insn(0x10, "nop", None, None, vec![])]);
    assert_eq!(Tracer::new(tr).err(), Some(Error::UnsupportedRegisterSize));
}

#[test]
fn register_formatting_widths() {
    let mut r = Register::new(String::from("al"), 1);
    r.write(&[0x0F]);
    assert_eq!(r.to_string(), "al : 0F");
    let mut r = Register::new(String::from("r24"), 3);
    r.write(&[0x01, 0x02, 0x03]);
    assert_eq!(r.to_string(), "r24 : 030201");
    let r = Register::new(String::from("xmm0"), 16);
    assert_eq!(r.to_string(), format!("xmm0 : {}", "0".repeat(32)));
}

#[test]
fn block_basics() {
    let mut b = BasicBlock::new(0x100);
    assert_eq!(b.end, 0x100);
    assert!(b.in_range(0x100));
    assert!(!b.in_range(0x101));
    b.execute(&insn(0x100, "push rbp", Some(1), None, vec![]));
    b.execute(&insn(0x101, "mov rbp, rsp", Some(3), None, vec![]));
    assert_eq!(b.end, 0x104);
    assert!(b.in_range(0x103));
    assert!(!b.in_range(0xFF));
    b.execute(&insn(0x100, "other", Some(1), None, vec![]));
    assert_eq!(b.iter()[&0x100], "push rbp");
    assert_eq!(b.end, 0x104);
    assert!(!b.contains_edge(0x200));
    b.add_edge(0x200, JumpKind::Unconditional);
    b.add_edge(0x300, JumpKind::Conditional);
    b.add_edge(0x200, JumpKind::Conditional);
    assert!(b.contains_edge(0x200));
    assert_eq!(b.edges(), &[(JumpKind::Unconditional, 0x200, 2), (JumpKind::Conditional, 0x300, 1)]);
    assert_eq!(b.to_string(), "0x100\tpush rbp\\n0x101\tmov rbp, rsp\\n");
}

#[test]
fn block_end_saturates_and_handles_unknown_size() {
    let mut b = BasicBlock::new(u64::MAX - 1);
    b.execute(&insn(u64::MAX - 1, "long", Some(16), None, vec![]));
    assert_eq!(b.end, u64::MAX);
    let mut c = BasicBlock::new(0x50);
    c.execute(&insn(0x50, "nop", None, None, vec![]));
    assert_eq!(c.end, 0x50);
}

#[test]
fn function_name_and_dot() {
    let mut f = Function::new(16);
    assert_eq!(f.name, "sub_16");
    let a = insn(16, "jmp 32", Some(2), Some(JumpKind::Unconditional), vec![]);
    let b = insn(32, "nop", Some(1), None, vec![]);
    assert_eq!(f.execute(&a, Some(&b)), Ok(()));
    assert_eq!(f.current_block, 32);
    assert_eq!(f.execute(&b, None), Ok(()));
    assert_eq!(f.execute(&a, None), Err(Error::MissingInstruction));
    let expected = "digraph {\n\
\tnode_16 [shape=box][label=\"0x10\tjmp 32\\n\"][color=\"gray0\"][penwidth=2]\n\
\tnode_32 [shape=box][label=\"0x20\tnop\\n\"][color=\"gray0\"][penwidth=2]\n\
\tnode_16 -> node_32 [label=\"1\"][color=\"blue\", headport=n, tailport=s]\n\
}";
    assert_eq!(f.dot(), expected);
}

#[test]
fn graph_files_follow_function_addresses() {
    let tr = trace(vec![], vec![], vec![
        insn(0x30, "call 0x20", Some(5), Some(JumpKind::Call), vec![]),
        insn(0x20, "ret", Some(1), Some(JumpKind::Return), vec![]),
        insn(0x35, "nop", Some(1), None, vec![]),
    ]);
    let t = Tracer::new(tr).unwrap();
    let names: Vec<&str> = t.graphs.iter().map(|g| g.name.as_str()).collect();
    assert_eq!(names, vec!["sub_32", "sub_48"]);
    assert_eq!(t.graphs[0].address, 0x20);
    assert!(t.graphs[1].dot.starts_with("digraph {\n"));
}

#[test]
fn current_instruction_follows_cursor() {
    let mut t = Tracer::new(two_instruction_trace()).unwrap();
    assert_eq!(t.current_insn().map(|s| s.as_str()), Some("jne 0x20"));
    t.step_forward();
    assert_eq!(t.current_insn().map(|s| s.as_str()), Some("nop"));
    t.step_forward();
    assert_eq!(t.current_insn(), None);
}

#[test]
fn alias_of_alias_reaches_full_register() {
    let info = vec![reg("ax", 2, Some(1), 2), reg("rax", 0, None, 8), reg("eax", 1, Some(0), 4)];
    let mut b = Registers::new(&info).unwrap();
    b.write(2, &[0x34, 0x12]);
    assert_eq!(b.iter()[0].to_string(), "rax : 0000000000001234");
    assert!(matches!(Registers::new(&[reg("a", 1, Some(1), 4)]), Err(Error::UnresolvedAlias)));
}
