use luajit_decompiler::error::DecompileError;
use luajit_decompiler::graph::Graph;
use luajit_decompiler::resolver::resolve_basic_blocks;
use luajit_decompiler::resolver::scan_block;
use luajit_decompiler::resolver::Block;
use luajit_decompiler::resolver::BlockExit;
use luajit_decompiler::resolver::BranchKind;

fn ins(op: u32, a: u32, d: u32) -> u32 {
    op | (a << 8) | (d << 16)
}

fn jump(offset: i32) -> u32 {
    (0x8000 + offset) as u32
}

const ISLT: u32 = 0x00;
const MOV: u32 = 0x12;
const UCLO: u32 = 0x32;
const ISNEXT: u32 = 0x48;
const RET0: u32 = 0x4b;
const RET1: u32 = 0x4c;
const FORI: u32 = 0x4d;
const FORL: u32 = 0x4f;
const JFORL: u32 = 0x51;
const ITERL: u32 = 0x52;
const JITERL: u32 = 0x54;
const LOOP: u32 = 0x55;
const JMP: u32 = 0x58;

fn shape(graph: &Graph<Block, BranchKind>) -> (Vec<(u32, usize)>, Vec<(u32, u32, BranchKind)>) {
    let blocks = graph.iter_node_weights().into_iter().map(|(k, b)| (k, b.len())).collect();
    let mut edges: Vec<(u32, u32, BranchKind)> =
        graph.edges().iter().map(|e| (e.from(), e.to(), *e.weight())).collect();
    edges.sort_by_key(|e| (e.0, e.1));
    (blocks, edges)
}

fn check_partition(bc: &[u32], graph: &Graph<Block, BranchKind>) {
    let mut end = 0usize;
    let mut total = 0usize;
    for (k, b) in graph.iter_node_weights() {
        assert!(k as usize >= end, "blocks overlap at {}", k);
        assert_eq!(b.data().as_slice(), &bc[k as usize..k as usize + b.len()]);
        end = k as usize + b.len();
        total += b.len();
    }
    assert!(total <= bc.len());
    for e in graph.edges() {
        assert!(graph.contains_node(e.from()));
        assert!(graph.contains_node(e.to()));
    }
}

#[test]
fn single_return_is_one_block() {
    let bc = vec![ins(RET0, 0, 1)];
    let graph = resolve_basic_blocks(&bc).unwrap();
    assert_eq!(shape(&graph), (vec![(0, 1)], vec![]));
    check_partition(&bc, &graph);
}

#[test]
fn empty_stream_is_one_empty_block() {
    let graph = resolve_basic_blocks(&[]).unwrap();
    assert_eq!(shape(&graph), (vec![(0, 0)], vec![]));
}

#[test]
fn if_then_else() {
    // 0: ISLT; 1: JMP +3 (to 5); 2,3: then; 4: JMP +1 (to 6); 5: else; 6: RET0
    let bc = vec![
        ins(ISLT, 0, 1),
        ins(JMP, 0, jump(3)),
        ins(MOV, 0, 1),
        ins(MOV, 0, 1),
        ins(JMP, 0, jump(1)),
        ins(MOV, 0, 1),
        ins(RET0, 0, 1),
    ];
    let graph = resolve_basic_blocks(&bc).unwrap();
    let (blocks, edges) = shape(&graph);
    assert_eq!(blocks, vec![(0, 2), (2, 3), (5, 1), (6, 1)]);
    assert_eq!(
        edges,
        vec![
            (0, 2, BranchKind::False),
            (0, 5, BranchKind::True),
            (2, 6, BranchKind::Unconditional),
            (5, 6, BranchKind::Unconditional),
        ]
    );
    check_partition(&bc, &graph);
}

#[test]
fn numeric_for() {
    // 0: FORI (exit at 3); 1: body, a jump to the loop end; 2: FORL (body at 1); 3: RET0
    let bc = vec![
        ins(FORI, 0, jump(2)),
        ins(JMP, 0, jump(0)),
        ins(FORL, 0, jump(-2)),
        ins(RET0, 0, 1),
    ];
    let graph = resolve_basic_blocks(&bc).unwrap();
    let (blocks, edges) = shape(&graph);
    assert_eq!(blocks, vec![(0, 1), (1, 1), (2, 1), (3, 1)]);
    assert!(edges.contains(&(0, 1, BranchKind::LoopBody)));
    assert!(edges.contains(&(0, 3, BranchKind::LoopOut)));
    assert!(edges.contains(&(2, 1, BranchKind::LoopBody)));
    assert!(edges.contains(&(2, 3, BranchKind::LoopOut)));
    assert_eq!(edges.len(), 5);
    assert!(edges.contains(&(1, 2, BranchKind::Unconditional)));
    check_partition(&bc, &graph);
}

#[test]
fn numeric_for_with_a_plain_body() {
    let bc = vec![
        ins(FORI, 0, jump(2)),
        ins(MOV, 0, 1),
        ins(FORL, 0, jump(-2)),
        ins(RET0, 0, 1),
    ];
    let graph = resolve_basic_blocks(&bc).unwrap();
    let (blocks, edges) = shape(&graph);
    assert_eq!(blocks, vec![(0, 1), (1, 2), (3, 1)]);
    assert_eq!(
        edges,
        vec![
            (0, 1, BranchKind::LoopBody),
            (0, 3, BranchKind::LoopOut),
            (1, 1, BranchKind::LoopBody),
            (1, 3, BranchKind::LoopOut),
        ]
    );
}

#[test]
fn late_target_splits_a_block() {
    // 0: LOOP, 1-8: plain, 9: JMP to 11, 10: RET0, 11: JMP back to 7
    let mut bc = vec![ins(LOOP, 0, jump(0))];
    for _ in 1..9 {
        bc.push(ins(MOV, 0, 1));
    }
    bc.push(ins(JMP, 0, jump(1)));
    bc.push(ins(RET0, 0, 1));
    bc.push(ins(JMP, 0, jump(-5)));
    let graph = resolve_basic_blocks(&bc).unwrap();
    let (blocks, edges) = shape(&graph);
    assert_eq!(blocks, vec![(0, 7), (7, 3), (11, 1)]);
    assert_eq!(
        edges,
        vec![
            (0, 7, BranchKind::Unconditional),
            (7, 11, BranchKind::Unconditional),
            (11, 7, BranchKind::Unconditional),
        ]
    );
    check_partition(&bc, &graph);
    // exactly one split: the edge of the split is the first one that was added
    let first = graph.edge(0).unwrap();
    assert_eq!((first.from(), first.to()), (0, 7));
}

#[test]
fn jump_to_the_start_of_a_block_splits_nothing() {
    // 0: JMP to 2; 1: RET0; 2: JMP to 0
    let bc = vec![ins(JMP, 0, jump(1)), ins(RET0, 0, 1), ins(JMP, 0, jump(-3))];
    let graph = resolve_basic_blocks(&bc).unwrap();
    let (blocks, edges) = shape(&graph);
    assert_eq!(blocks, vec![(0, 1), (2, 1)]);
    assert_eq!(
        edges,
        vec![(0, 2, BranchKind::Unconditional), (2, 0, BranchKind::Unconditional)]
    );
}

#[test]
fn return_before_a_jump_does_not_end_the_block() {
    let bc = vec![ins(RET1, 0, 2), ins(JMP, 0, jump(0)), ins(RET0, 0, 1)];
    let graph = resolve_basic_blocks(&bc).unwrap();
    let (blocks, edges) = shape(&graph);
    assert_eq!(blocks, vec![(0, 2), (2, 1)]);
    assert_eq!(edges, vec![(0, 2, BranchKind::Unconditional)]);
    // a return before anything else does
    let bc = vec![ins(RET1, 0, 2), ins(MOV, 0, 1), ins(RET0, 0, 1)];
    let graph = resolve_basic_blocks(&bc).unwrap();
    assert_eq!(shape(&graph), (vec![(0, 1)], vec![]));
}

#[test]
fn iterator_loop_end_falls_out_of_the_loop() {
    // 0: ISNEXT to 2; 1: body; 2: ITERL back to 1; 3: RET0
    let bc = vec![
        ins(ISNEXT, 0, jump(1)),
        ins(MOV, 0, 1),
        ins(ITERL, 0, jump(-2)),
        ins(RET0, 0, 1),
    ];
    let graph = resolve_basic_blocks(&bc).unwrap();
    let (blocks, edges) = shape(&graph);
    assert_eq!(blocks, vec![(0, 1), (1, 1), (2, 1), (3, 1)]);
    assert_eq!(
        edges,
        vec![
            (0, 2, BranchKind::LoopIter),
            (1, 2, BranchKind::Unconditional),
            (2, 1, BranchKind::LoopBody),
            (2, 3, BranchKind::LoopOut),
        ]
    );
    check_partition(&bc, &graph);
}

#[test]
fn uclo_branches_only_with_an_offset() {
    let bc = vec![ins(UCLO, 0, jump(0)), ins(RET0, 0, 1)];
    let graph = resolve_basic_blocks(&bc).unwrap();
    assert_eq!(shape(&graph), (vec![(0, 2)], vec![]));
    let bc = vec![ins(UCLO, 0, jump(1)), ins(RET0, 0, 1), ins(RET0, 0, 1)];
    let graph = resolve_basic_blocks(&bc).unwrap();
    assert_eq!(
        shape(&graph),
        (vec![(0, 1), (2, 1)], vec![(0, 2, BranchKind::Unconditional)])
    );
}

#[test]
fn a_jump_to_the_end_of_the_stream_gives_an_empty_block() {
    let bc = vec![ins(ISLT, 0, 1), ins(JMP, 0, jump(0))];
    let graph = resolve_basic_blocks(&bc).unwrap();
    let (blocks, edges) = shape(&graph);
    assert_eq!(blocks, vec![(0, 2), (2, 0)]);
    assert_eq!(edges, vec![(0, 2, BranchKind::True), (0, 2, BranchKind::False)]);
}

#[test]
fn faults_of_the_resolver() {
    assert_eq!(
        resolve_basic_blocks(&[ins(MOV, 0, 1), 0x61]).err(),
        Some(DecompileError::UnknownInsOpcode)
    );
    assert_eq!(
        resolve_basic_blocks(&[ins(JITERL, 0, 1)]).err(),
        Some(DecompileError::UnexpectedInsOpcode)
    );
    assert_eq!(
        resolve_basic_blocks(&[ins(JFORL, 0, 1)]).err(),
        Some(DecompileError::UnexpectedInsOpcode)
    );
    assert_eq!(
        resolve_basic_blocks(&[ins(JMP, 0, jump(1))]).err(),
        Some(DecompileError::InvalidJumpTarget)
    );
    assert_eq!(
        resolve_basic_blocks(&[ins(JMP, 0, jump(-2))]).err(),
        Some(DecompileError::InvalidJumpTarget)
    );
    assert_eq!(
        resolve_basic_blocks(&[ins(0x2b, 0, 7)]).err(),
        Some(DecompileError::InvalidPriValue)
    );
    // the instruction behind a return is looked at
    assert_eq!(
        resolve_basic_blocks(&[ins(RET0, 0, 1), 0xff]).err(),
        Some(DecompileError::UnknownInsOpcode)
    );
}

#[test]
fn scanning_one_block() {
    let bc = vec![ins(MOV, 0, 1), ins(ISLT, 0, 1), ins(JMP, 0, jump(-3)), ins(RET0, 0, 1)];
    assert_eq!(
        scan_block(&bc, 0, None),
        Ok((3, BlockExit::Branch { dest: 0, taken: BranchKind::True, other: Some(BranchKind::False) }))
    );
    assert_eq!(scan_block(&bc, 0, Some(1)), Ok((1, BlockExit::Fall)));
    assert_eq!(
        scan_block(&bc, 2, None),
        Ok((3, BlockExit::Branch { dest: 0, taken: BranchKind::Unconditional, other: None }))
    );
    assert_eq!(scan_block(&bc, 3, None), Ok((4, BlockExit::Stop)));
    assert_eq!(scan_block(&bc, 4, None), Ok((4, BlockExit::Stop)));
}

#[test]
fn blocks_split_and_copy() {
    let mut block = Block::from_ins_vec(vec![1, 2, 3, 4]);
    let tail = block.split(1);
    assert_eq!(block.data().clone(), vec![1]);
    assert_eq!(tail.data().clone(), vec![2, 3, 4]);
    assert_eq!(tail.clone().len(), 3);
    assert_eq!(Block::new().len(), 0);
}
