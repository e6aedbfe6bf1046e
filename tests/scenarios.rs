use wcet::block::Instruction;
use wcet::jump::{FlowDetail, FlowKind};
use wcet::wcet::{analyze, Analysis, AnalysisError};

fn insn(address: u64, mnemonic: &str, kind: FlowKind, conditional: bool, target: Option<u64>) -> (Instruction, FlowDetail) {
    (
        Instruction::new(address, mnemonic.to_string(), String::new(), 1),
        FlowDetail { kind, relative: true, conditional, target },
    )
}

fn nop(a: u64) -> (Instruction, FlowDetail) {
    insn(a, "nop", FlowKind::Sequential, false, None)
}

fn jmp(a: u64, t: u64) -> (Instruction, FlowDetail) {
    insn(a, "jmp", FlowKind::Jump, false, Some(t))
}

fn jcc(a: u64, t: u64) -> (Instruction, FlowDetail) {
    insn(a, "jne", FlowKind::Jump, true, Some(t))
}

fn call(a: u64, t: u64) -> (Instruction, FlowDetail) {
    insn(a, "call", FlowKind::Call, false, Some(t))
}

fn ret(a: u64) -> (Instruction, FlowDetail) {
    insn(a, "ret", FlowKind::Ret, false, None)
}

fn run(program: Vec<(Instruction, FlowDetail)>) -> Result<Analysis, AnalysisError> {
    let mut insns = Vec::new();
    let mut details = Vec::new();
    for (i, d) in program {
        insns.push(i);
        details.push(d);
    }
    analyze(&insns, &details)
}

#[test]
fn linear_program_is_one_block() {
    let a = run(vec![nop(0x1000), nop(0x1001), nop(0x1002), nop(0x1003), nop(0x1004)]).unwrap();
    assert_eq!(a.blocks.len(), 1);
    assert_eq!(a.blocks[0].instructions.len(), 5);
    assert_eq!(a.wcet, 5);
}

#[test]
fn if_then_else_takes_the_heavier_arm() {
    let a = run(vec![
        nop(0x1000),
        jcc(0x1001, 0x1005),
        // first arm
        nop(0x1002),
        nop(0x1003),
        jmp(0x1004, 0x1008),
        // second arm, falls into the join
        nop(0x1005),
        nop(0x1006),
        nop(0x1007),
        // join
        nop(0x1008),
        nop(0x1009),
    ])
    .unwrap();
    assert_eq!(a.blocks.len(), 4);
    assert_eq!(a.wcet, 7);
}

#[test]
fn simple_loop_is_folded_once() {
    let a = run(vec![
        // entry
        nop(0x1000),
        nop(0x1001),
        // header
        nop(0x1002),
        jmp(0x1003, 0x1004),
        // body, back to the header
        nop(0x1004),
        nop(0x1005),
        nop(0x1006),
        jcc(0x1007, 0x1002),
        // exit successor
        nop(0x1008),
    ])
    .unwrap();
    assert_eq!(a.blocks.len(), 4);
    assert_eq!(a.condensation.cycles.len(), 1);
    let c = &a.condensation.cycles[0];
    assert_eq!(c.entry, 0x1002);
    assert_eq!(c.exit, 0x1004);
    assert_eq!(c.latency, 6);
    assert_eq!(a.wcet, 9);
}

#[test]
fn nested_loops_resolve_inner_first() {
    let a = run(vec![
        nop(0x1000),
        // outer header
        nop(0x1001),
        jmp(0x1002, 0x1003),
        // inner header
        nop(0x1003),
        jmp(0x1004, 0x1005),
        // inner body, back to the inner header
        nop(0x1005),
        jcc(0x1006, 0x1003),
        // outer tail, back to the outer header
        nop(0x1007),
        jcc(0x1008, 0x1001),
        // exit
        nop(0x1009),
    ])
    .unwrap();
    assert_eq!(a.blocks.len(), 6);
    assert_eq!(a.condensation.cycles.len(), 1);
    let outer = &a.condensation.cycles[0];
    assert_eq!(outer.entry, 0x1001);
    assert_eq!(outer.exit, 0x1007);
    // inner folded weight 2 + 2 = 4; outer: header 2 + inner 4 + tail 2
    assert_eq!(outer.latency, 8);
    assert_eq!(a.wcet, 1 + 8 + 1);
}

#[test]
fn function_called_twice_gets_a_copy() {
    let a = run(vec![
        // f
        nop(0x1000),
        nop(0x1001),
        ret(0x1002),
        // main
        nop(0x1003),
        call(0x1004, 0x1000),
        call(0x1005, 0x1000),
        nop(0x1006),
    ])
    .unwrap();
    assert_eq!(a.copies.len(), 1);
    assert_eq!(a.copies[0].target, 0x1000);
    assert_eq!(a.copies[0].return_address, 0x1006);
    assert!(a.copies[0].first > 0x1006);
    assert_eq!(a.blocks.len(), 5);
    let f_body = 3;
    assert_eq!(a.wcet, 2 * f_body + 2 + 1 + 1);
    assert_eq!(a.recursive_delay, 0);
}

#[test]
fn self_recursive_function_is_detected() {
    let a = run(vec![
        // f calls f
        nop(0x1000),
        call(0x1001, 0x1000),
        ret(0x1002),
        // main calls f
        call(0x1003, 0x1000),
        nop(0x1004),
    ])
    .unwrap();
    assert!(a.recursive_functions.contains_key(&0x1000));
    assert_eq!(a.copies.len(), 1);
    assert!(a.copies[0].recursive);
    // f's first block is counted once on top of main's path (call 1 + copy 2)
    assert_eq!(a.recursive_delay, 2);
    assert_eq!(a.wcet, 3 + 2);
}

#[test]
fn empty_input_is_rejected() {
    let r = analyze(&Vec::new(), &Vec::new());
    assert!(matches!(r, Err(AnalysisError::NoInstructions)));
}

#[test]
fn loop_without_exit_is_rejected() {
    let r = run(vec![nop(0x1000), jmp(0x1001, 0x1002), nop(0x1002), jmp(0x1003, 0x1000), nop(0x1004)]);
    assert!(matches!(r, Err(AnalysisError::NoExit)));
}

#[test]
fn folded_weight_covers_entry_and_exit() {
    let a = run(vec![
        nop(0x1000),
        nop(0x1001),
        nop(0x1002),
        jmp(0x1003, 0x1004),
        nop(0x1004),
        nop(0x1005),
        nop(0x1006),
        jcc(0x1007, 0x1002),
        nop(0x1008),
    ])
    .unwrap();
    let c = &a.condensation.cycles[0];
    let lat = |leader: u64| a.graph.nodes.iter().find(|n| n.leader == leader).unwrap().latency;
    assert_ne!(c.entry, c.exit);
    assert!(c.latency >= lat(c.entry) + lat(c.exit));
}

#[test]
fn copies_of_different_call_sites_are_disjoint() {
    let a = run(vec![
        // f: two blocks
        nop(0x1000),
        jmp(0x1001, 0x1002),
        ret(0x1002),
        // main calls f three times
        call(0x1003, 0x1000),
        call(0x1004, 0x1000),
        call(0x1005, 0x1000),
        nop(0x1006),
    ])
    .unwrap();
    assert_eq!(a.copies.len(), 2);
    let (c1, c2) = (a.copies[0], a.copies[1]);
    assert_eq!(c1.end - c1.first, 2);
    assert_eq!(c2.end - c2.first, 2);
    assert!(c1.end <= c2.first);
    assert!(c1.first > 0x1006);
    assert_ne!(c1.site_block, c2.site_block);
    // three calls, each followed by f's three instructions, then the last one
    assert_eq!(a.wcet, 3 * (1 + 3) + 1);
}

#[test]
fn two_runs_give_identical_results() {
    let program = || {
        vec![
            nop(0x1000),
            jcc(0x1001, 0x1005),
            nop(0x1002),
            call(0x1003, 0x1008),
            jmp(0x1004, 0x1007),
            call(0x1005, 0x1008),
            nop(0x1006),
            nop(0x1007),
            nop(0x1008),
            ret(0x1009),
        ]
    };
    let a = run(program()).unwrap();
    let b = run(program()).unwrap();
    assert_eq!(a.wcet, b.wcet);
    assert_eq!(a.graph.nodes, b.graph.nodes);
    assert_eq!(a.graph.edges, b.graph.edges);
    assert_eq!(a.condensation.graph.edges, b.condensation.graph.edges);
    assert_eq!(a.copies, b.copies);
}
