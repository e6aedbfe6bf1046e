use wcet::arch::{flow_detail, prepare, ArchMode, CsArch, CsMode, ObjectArch, RawInsn};
use wcet::block::{Block, Instruction};
use wcet::cfg::build_blocks;
use wcet::duplicate::{duplicate, first_free_address};
use wcet::graph::{build_graph, MappedGraph, Node};
use wcet::jump::{classify, ExitJump, FlowDetail, FlowKind};
use wcet::loader::{join_text_sections, load_text, LoadError};
use wcet::paths::overhead;
use wcet::scc::condense;

fn detail(kind: FlowKind, conditional: bool, target: Option<u64>) -> FlowDetail {
    FlowDetail { kind, relative: false, conditional, target }
}

fn block(leader: u64, n: u64, exit: Option<ExitJump>) -> Block {
    let mut b = Block::new(Instruction::new(leader, "nop".to_string(), String::new(), 1));
    for k in 1..n {
        b.add_instruction(Instruction::new(leader + k, "nop".to_string(), String::new(), 1));
    }
    if let Some(j) = exit {
        b.set_exit_jump(j);
    }
    b
}

#[test]
fn classify_covers_every_kind() {
    assert_eq!(classify(0x10, detail(FlowKind::Sequential, false, None)), None);
    assert_eq!(classify(0x10, detail(FlowKind::Jump, false, None)), Some(ExitJump::Indirect));
    assert_eq!(
        classify(0x10, detail(FlowKind::Jump, true, Some(0x40))),
        Some(ExitJump::ConditionalAbsolute { taken: 0x40, not_taken: 0x10 })
    );
    assert_eq!(classify(0x10, detail(FlowKind::Jump, false, Some(0x40))), Some(ExitJump::UnconditionalAbsolute(0x40)));
    assert_eq!(classify(0x10, detail(FlowKind::Call, false, Some(0x40))), Some(ExitJump::Call(0x40, 0x10)));
    assert_eq!(classify(0x10, detail(FlowKind::Call, false, None)), None);
    assert_eq!(classify(0x10, detail(FlowKind::Ret, false, None)), Some(ExitJump::Ret(0)));
}

#[test]
fn blocks_are_led_by_their_first_instruction() {
    let insns: Vec<Instruction> =
        (0..6u64).map(|k| Instruction::new(0x2000 + k, "i".to_string(), String::new(), (k + 1) as u32)).collect();
    let mut details = vec![detail(FlowKind::Sequential, false, None); 6];
    details[1] = detail(FlowKind::Jump, true, Some(0x2004));
    let cfg = build_blocks(&insns, &details).unwrap();
    assert_eq!(cfg.blocks.len(), 3);
    let mut order = Vec::new();
    for b in &cfg.blocks {
        assert_eq!(b.leader, b.instructions[0].address);
        for i in &b.instructions {
            order.push(i.address);
        }
    }
    assert_eq!(order, (0..6u64).map(|k| 0x2000 + k).collect::<Vec<_>>());
    // latencies 1 + 2, 3 + 4, 5 + 6
    assert_eq!(cfg.blocks[0].latency(), 3);
    assert_eq!(cfg.blocks[1].latency(), 7);
    assert_eq!(cfg.blocks[2].latency(), 11);
    assert_eq!(cfg.blocks[0].exit_jump, Some(ExitJump::ConditionalAbsolute { taken: 0x2004, not_taken: 0x2002 }));
    assert_eq!(cfg.blocks[1].exit_jump, Some(ExitJump::Next(0x2004)));
}

#[test]
fn indirect_jump_makes_no_leader() {
    let insns: Vec<Instruction> =
        (0..3u64).map(|k| Instruction::new(0x10 + k, "i".to_string(), String::new(), 1)).collect();
    let details = vec![detail(FlowKind::Sequential, false, None), detail(FlowKind::Jump, false, None), detail(FlowKind::Sequential, false, None)];
    let cfg = build_blocks(&insns, &details).unwrap();
    assert_eq!(cfg.blocks.len(), 1);
}

#[test]
fn duplicate_renames_the_callee_body() {
    let blocks = vec![
        block(0x100, 2, Some(ExitJump::ConditionalAbsolute { taken: 0x200, not_taken: 0x300 })),
        block(0x200, 1, Some(ExitJump::Next(0x300))),
        block(0x300, 1, Some(ExitJump::Ret(0))),
    ];
    let free = first_free_address(&blocks).unwrap();
    assert_eq!(free, 0x301);
    let c = duplicate(&blocks, 0x100, 0x999, free).unwrap();
    assert_eq!(c.blocks.len(), 3);
    assert_eq!(c.origins, vec![0, 1, 2]);
    assert_eq!(c.blocks[0].leader, free);
    assert_eq!(c.blocks[0].exit_jump, Some(ExitJump::ConditionalAbsolute { taken: free + 1, not_taken: free + 2 }));
    assert_eq!(c.blocks[1].exit_jump, Some(ExitJump::Next(free + 2)));
    assert_eq!(c.blocks[2].exit_jump, Some(ExitJump::Ret(0x999)));
    // the join is reached a second time
    assert_eq!(c.back_edges, vec![(1, 0)]);
    assert_eq!(c.discovered_by, vec![(0, 0), (0, 1)]);
    assert!(duplicate(&blocks, 0x555, 0x999, free).is_none());
}

#[test]
fn condensation_orders_groups_backwards() {
    let blocks = vec![
        block(0x10, 1, Some(ExitJump::Next(0x20))),
        block(0x20, 2, Some(ExitJump::Next(0x30))),
        block(0x30, 3, Some(ExitJump::ConditionalAbsolute { taken: 0x20, not_taken: 0x40 })),
        block(0x40, 1, None),
    ];
    let g = build_graph(&blocks);
    assert_eq!(g.nodes.len(), 4);
    assert_eq!(g.edges.len(), 4);
    for e in &g.edges {
        let target = blocks.iter().find(|b| b.leader == e.target).unwrap();
        assert_eq!(e.weight, target.latency());
    }
    let cg = condense(&g);
    assert_eq!(cg.groups.len(), 3);
    let cyclic: Vec<_> = cg.groups.iter().filter(|grp| grp.len() > 1).collect();
    assert_eq!(cyclic.len(), 1);
    assert_eq!(cyclic[0].iter().map(|n| n.leader).collect::<Vec<_>>(), vec![0x20, 0x30]);
    for e in &cg.edges {
        assert!(e.target < e.source);
    }
}

#[test]
fn overhead_is_the_heaviest_simple_path() {
    let g = MappedGraph {
        nodes: vec![
            Node { leader: 1, latency: 1 },
            Node { leader: 2, latency: 5 },
            Node { leader: 3, latency: 2 },
            Node { leader: 4, latency: 1 },
        ],
        edges: vec![
            wcet::graph::Edge { source: 1, target: 2, weight: 5 },
            wcet::graph::Edge { source: 1, target: 3, weight: 2 },
            wcet::graph::Edge { source: 2, target: 4, weight: 1 },
            wcet::graph::Edge { source: 3, target: 4, weight: 1 },
            wcet::graph::Edge { source: 4, target: 1, weight: 1 },
        ],
    };
    assert_eq!(overhead(&g, 1, 4), Ok(Some(1 + 5 + 1)));
    assert_eq!(overhead(&g, 2, 3), Ok(Some(5 + 1 + 1 + 2)));
}

#[test]
fn architectures_map_to_disassembler_modes() {
    assert_eq!(ArchMode::from_object(ObjectArch::X86_64), Some(ArchMode { arch: CsArch::X86, mode: CsMode::Mode64 }));
    assert_eq!(ArchMode::from_object(ObjectArch::X86_64X32), Some(ArchMode { arch: CsArch::X86, mode: CsMode::Mode32 }));
    assert_eq!(ArchMode::from_object(ObjectArch::LoongArch64), Some(ArchMode { arch: CsArch::Arm64, mode: CsMode::Arm }));
    assert_eq!(ArchMode::from_object(ObjectArch::Unsupported), None);
}

#[test]
fn flow_detail_reads_groups_and_mnemonic() {
    let raw = RawInsn {
        address: 0x10,
        mnemonic: "jne".to_string(),
        op_str: "0x40".to_string(),
        groups: vec![1, 7],
        operands: vec![None, Some(0x40)],
        latency: 1,
    };
    let d = flow_detail(CsArch::X86, &raw);
    assert_eq!(d, FlowDetail { kind: FlowKind::Jump, relative: true, conditional: true, target: Some(0x40) });
    let jmp = RawInsn { mnemonic: "jmp".to_string(), ..raw };
    assert!(!flow_detail(CsArch::X86, &jmp).conditional);
    let (insns, details) = prepare(vec![jmp], CsArch::X86);
    assert_eq!(insns[0].address, 0x10);
    assert_eq!(details[0].kind, FlowKind::Jump);
}

#[test]
fn text_sections_are_joined_in_order() {
    let sections = vec![
        (b".text".to_vec(), vec![1u8, 2]),
        (b".data".to_vec(), vec![9u8]),
        (b".text.startup".to_vec(), vec![3u8]),
    ];
    assert_eq!(join_text_sections(&sections), vec![1u8, 2, 3]);
}

#[test]
fn garbage_is_not_an_object_file() {
    assert!(matches!(load_text(&vec![0u8, 1, 2, 3]), Err(LoadError::Parse)));
}

/// A relocatable x86-64 ELF file with one `.text` section holding `code`.
fn tiny_elf(code: &[u8]) -> Vec<u8> {
    let shstrtab = b"\0.text\0.shstrtab\0";
    let text_off = 64u64;
    let str_off = text_off + code.len() as u64;
    let sh_off = (str_off + shstrtab.len() as u64 + 7) / 8 * 8;
    let mut f = Vec::new();
    f.extend_from_slice(&[0x7f, b'E', b'L', b'F', 2, 1, 1, 0]);
    f.extend_from_slice(&[0u8; 8]);
    f.extend_from_slice(&1u16.to_le_bytes()); // relocatable
    f.extend_from_slice(&62u16.to_le_bytes()); // x86-64
    f.extend_from_slice(&1u32.to_le_bytes());
    f.extend_from_slice(&0u64.to_le_bytes()); // entry
    f.extend_from_slice(&0u64.to_le_bytes()); // program headers
    f.extend_from_slice(&sh_off.to_le_bytes());
    f.extend_from_slice(&0u32.to_le_bytes()); // flags
    f.extend_from_slice(&64u16.to_le_bytes()); // header size
    f.extend_from_slice(&0u16.to_le_bytes());
    f.extend_from_slice(&0u16.to_le_bytes());
    f.extend_from_slice(&64u16.to_le_bytes()); // section header size
    f.extend_from_slice(&3u16.to_le_bytes()); // section count
    f.extend_from_slice(&2u16.to_le_bytes()); // section names
    f.extend_from_slice(code);
    f.extend_from_slice(shstrtab);
    while (f.len() as u64) < sh_off {
        f.push(0);
    }
    let header = |f: &mut Vec<u8>, name: u32, kind: u32, flags: u64, off: u64, size: u64| {
        f.extend_from_slice(&name.to_le_bytes());
        f.extend_from_slice(&kind.to_le_bytes());
        f.extend_from_slice(&flags.to_le_bytes());
        f.extend_from_slice(&0u64.to_le_bytes());
        f.extend_from_slice(&off.to_le_bytes());
        f.extend_from_slice(&size.to_le_bytes());
        f.extend_from_slice(&0u32.to_le_bytes());
        f.extend_from_slice(&0u32.to_le_bytes());
        f.extend_from_slice(&1u64.to_le_bytes());
        f.extend_from_slice(&0u64.to_le_bytes());
    };
    header(&mut f, 0, 0, 0, 0, 0);
    header(&mut f, 1, 1, 6, text_off, code.len() as u64);
    header(&mut f, 7, 3, 0, str_off, shstrtab.len() as u64);
    f
}

#[test]
fn object_file_text_and_architecture_are_read() {
    let bytes = tiny_elf(&[0x90, 0x90, 0xc3]);
    let (mode, text) = load_text(&bytes).unwrap();
    assert_eq!(mode, ArchMode { arch: CsArch::X86, mode: CsMode::Mode64 });
    assert_eq!(text, vec![0x90, 0x90, 0xc3]);
}

#[test]
fn call_to_its_own_address_is_an_ordinary_call() {
    let insns: Vec<Instruction> =
        (0..2u64).map(|k| Instruction::new(0x30 + k, "i".to_string(), String::new(), 1)).collect();
    let details = vec![detail(FlowKind::Call, false, Some(0x30)), detail(FlowKind::Sequential, false, None)];
    let cfg = build_blocks(&insns, &details).unwrap();
    assert_eq!(cfg.blocks.len(), 2);
    assert_eq!(cfg.blocks[0].exit_jump, Some(ExitJump::Call(0x30, 0x31)));
    assert_eq!(cfg.blocks[1].exit_jump, None);
}

#[test]
fn return_closes_the_most_recent_open_call() {
    // f = 0x40: its entry block falls through into a second block that returns
    let insns: Vec<Instruction> =
        (0..6u64).map(|k| Instruction::new(0x40 + k, "i".to_string(), String::new(), 1)).collect();
    let details = vec![
        detail(FlowKind::Sequential, false, None),
        detail(FlowKind::Jump, false, Some(0x42)),
        detail(FlowKind::Ret, false, None),
        detail(FlowKind::Call, false, Some(0x40)),
        detail(FlowKind::Sequential, false, None),
        detail(FlowKind::Sequential, false, None),
    ];
    let cfg = build_blocks(&insns, &details).unwrap();
    assert_eq!(cfg.blocks.len(), 4);
    assert_eq!(cfg.blocks[1].leader, 0x42);
    assert_eq!(cfg.blocks[1].exit_jump, Some(ExitJump::Ret(0x44)));
    assert!(cfg.calls.is_empty());
}
