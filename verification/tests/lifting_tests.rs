use luajit_decompiler::bytecode_reader::read_prototype;
use luajit_decompiler::bytecode_reader::ByteCodeProto;
use luajit_decompiler::bytecode_reader::GlobalConst;
use luajit_decompiler::error::DecompileError;
use luajit_decompiler::ir::Expr;
use luajit_decompiler::ir::Insn;
use luajit_decompiler::ir::Var;
use luajit_decompiler::lifting::Lifter;
use luajit_decompiler::op::Op;
use luajit_decompiler::types::Base;
use luajit_decompiler::types::Dst;
use luajit_decompiler::types::Jump;
use luajit_decompiler::types::Lit;
use luajit_decompiler::types::Num;
use luajit_decompiler::types::Pri;
use luajit_decompiler::types::RBase;
use luajit_decompiler::types::Str;
use luajit_decompiler::types::Var as Slot;
use luajit_decompiler::types::UV;

fn lift(op: Op) -> Result<Vec<Insn>, DecompileError> {
    let mut lifter = Lifter::new();
    let mut out = Vec::new();
    let consts = vec![
        GlobalConst::Str(b"second".to_vec()),
        GlobalConst::I64(1, 2),
        GlobalConst::Str(b"first".to_vec()),
    ];
    lifter.lift_op(op, &consts, &mut out)?;
    Ok(out)
}

fn proto_of(code: &[u32]) -> ByteCodeProto {
    let mut bytes = vec![0u8, 0, 2, 0, 0, 0, code.len() as u8];
    for w in code {
        bytes.extend(w.to_le_bytes());
    }
    let mut cur: &[u8] = &bytes;
    let mut proto = ByteCodeProto::new();
    read_prototype(&mut cur, &mut proto).unwrap();
    proto
}

fn v(i: u16) -> Expr {
    Expr::Var(Var(i))
}

#[test]
fn call_with_two_results_and_one_argument() {
    assert_eq!(
        lift(Op::CALL(Base(2), Lit(3), Lit(2))),
        Ok(vec![Insn::Call(vec![Var(2), Var(3)], vec![v(2), v(3)])])
    );
}

#[test]
fn calls_of_other_shapes() {
    assert_eq!(lift(Op::CALL(Base(2), Lit(1), Lit(1))), Ok(vec![Insn::Call(vec![], vec![v(2)])]));
    assert_eq!(lift(Op::CALL(Base(2), Lit(0), Lit(0))), Ok(vec![Insn::Call(vec![], vec![v(2)])]));
    assert_eq!(
        lift(Op::CALL(Base(0), Lit(2), Lit(4))),
        Ok(vec![Insn::Call(vec![Var(0)], vec![v(0), v(1), v(2), v(3)])])
    );
    assert_eq!(lift(Op::CALLT(Base(1), Lit(3))), Ok(vec![Insn::TailCall(vec![v(1), v(2), v(3)])]));
}

#[test]
fn open_results_widen_the_next_call() {
    let mut lifter = Lifter::new();
    let mut out = Vec::new();
    let consts = Vec::new();
    lifter.lift_op(Op::CALL(Base(4), Lit(0), Lit(3)), &consts, &mut out).unwrap();
    assert_eq!(lifter.multres(), 2);
    lifter.lift_op(Op::CALLM(Base(1), Lit(2), Lit(2)), &consts, &mut out).unwrap();
    assert_eq!(
        out,
        vec![
            Insn::Call(vec![], vec![v(4), v(5), v(6)]),
            Insn::Call(vec![Var(1)], vec![v(1), v(2), v(3), v(4)]),
        ]
    );
    assert_eq!(lifter.multres(), 2);
}

#[test]
fn return_statements() {
    assert_eq!(lift(Op::RET0(RBase(0), Lit(1))), Ok(vec![Insn::Return(vec![])]));
    assert_eq!(lift(Op::RET1(RBase(3), Lit(2))), Ok(vec![Insn::Return(vec![v(3)])]));
    assert_eq!(lift(Op::RET(RBase(1), Lit(5))), Ok(vec![Insn::Return(vec![v(1), v(2), v(3)])]));
    assert_eq!(lift(Op::RET(RBase(4), Lit(5))), Ok(vec![Insn::Return(vec![])]));
    assert_eq!(lift(Op::RET(RBase(0), Lit(1))), Ok(vec![Insn::Return(vec![])]));
}

#[test]
fn comparisons_and_tests() {
    assert_eq!(lift(Op::ISLT(Slot(1), Slot(2))), Ok(vec![Insn::If(Expr::lt(Expr::var(1), Expr::var(2)))]));
    assert_eq!(lift(Op::ISGE(Slot(1), Slot(2))), Ok(vec![Insn::If(Expr::ge(Expr::var(1), Expr::var(2)))]));
    assert_eq!(
        lift(Op::ISEQS(Slot(1), Str(0))),
        Ok(vec![Insn::If(Expr::eq(Expr::var(1), Expr::str("first".to_string())))])
    );
    assert_eq!(
        lift(Op::ISNES(Slot(1), Str(2))),
        Ok(vec![Insn::If(Expr::ne(Expr::var(1), Expr::str("second".to_string())))])
    );
    assert_eq!(
        lift(Op::ISEQP(Slot(1), Pri::False)),
        Ok(vec![Insn::If(Expr::eq(Expr::var(1), Box::new(Expr::Bool(false))))])
    );
    assert_eq!(
        lift(Op::ISTC(Dst(1), Slot(2))),
        Ok(vec![Insn::SetVars(vec![Var(1)], Expr::var(2)), Insn::If(Expr::var(2))])
    );
    assert_eq!(
        lift(Op::ISFC(Dst(1), Slot(2))),
        Ok(vec![Insn::SetVars(vec![Var(1)], Expr::var(2)), Insn::If(Expr::not(Expr::var(2)))])
    );
    assert_eq!(lift(Op::IST(Slot(2))), Ok(vec![Insn::If(Expr::var(2))]));
    assert_eq!(lift(Op::ISF(Slot(2))), Ok(vec![Insn::If(Expr::not(Expr::var(2)))]));
    assert_eq!(lift(Op::ISTYPE(Slot(2), Lit(1))), Ok(vec![Insn::Unimplemented]));
}

#[test]
fn arithmetic_keeps_or_turns_the_operands() {
    assert_eq!(
        lift(Op::SUBVN(Dst(0), Slot(1), Num(2))),
        Ok(vec![Insn::SetVars(vec![Var(0)], Expr::sub(Expr::var(1), Expr::num(2)))])
    );
    assert_eq!(
        lift(Op::SUBNV(Dst(0), Slot(1), Num(2))),
        Ok(vec![Insn::SetVars(vec![Var(0)], Expr::sub(Expr::num(2), Expr::var(1)))])
    );
    assert_eq!(
        lift(Op::POW(Dst(0), Slot(1), Slot(2))),
        Ok(vec![Insn::SetVars(vec![Var(0)], Expr::pow(Expr::var(1), Expr::var(2)))])
    );
    assert_eq!(
        lift(Op::UNM(Dst(0), Slot(1))),
        Ok(vec![Insn::SetVars(vec![Var(0)], Expr::minus(Expr::var(1)))])
    );
}

#[test]
fn ranges_of_slots() {
    assert_eq!(
        lift(Op::KNIL(Base(2), Base(4))),
        Ok(vec![Insn::SetVars(vec![Var(2), Var(3), Var(4)], Expr::nil())])
    );
    assert_eq!(lift(Op::KNIL(Base(2), Base(2))), Err(DecompileError::UnexpectedInsOpcode));
    assert_eq!(
        lift(Op::CAT(Dst(0), RBase(1), RBase(3))),
        Ok(vec![Insn::Cat(Var(0), vec![v(1), v(2), v(3)])])
    );
    assert_eq!(lift(Op::CAT(Dst(0), RBase(3), RBase(3))), Err(DecompileError::UnexpectedInsOpcode));
    assert_eq!(lift(Op::CAT(Dst(0), RBase(3), RBase(1))), Err(DecompileError::UnexpectedInsOpcode));
    assert_eq!(
        lift(Op::FORI(Base(5), Jump(3))),
        Ok(vec![Insn::For(vec![v(5), v(6), v(7)])])
    );
}

#[test]
fn tables_and_globals() {
    assert_eq!(
        lift(Op::GGET(Dst(0), Str(0))),
        Ok(vec![Insn::SetVars(
            vec![Var(0)],
            Expr::table(Box::new(Expr::GlobalTable), Expr::str("first".to_string()))
        )])
    );
    assert_eq!(
        lift(Op::GSET(Slot(3), Str(2))),
        Ok(vec![Insn::SetGlobalTableVar([Expr::str("second".to_string()), Expr::var(3)])])
    );
    assert_eq!(
        lift(Op::TGETB(Dst(0), Slot(1), Lit(9))),
        Ok(vec![Insn::SetVars(vec![Var(0)], Expr::table(Expr::var(1), Expr::lit(9)))])
    );
    assert_eq!(
        lift(Op::TSETV(Slot(0), Slot(1), Slot(2))),
        Ok(vec![Insn::SetTableVar(Var(1), [Expr::var(2), Expr::var(0)])])
    );
    assert_eq!(lift(Op::TGETR(Dst(0), Slot(1), Slot(2))), Ok(vec![Insn::Unimplemented]));
    // a constant that is no string, and one that is not there
    assert_eq!(lift(Op::KSTR(Dst(0), Str(1))), Err(DecompileError::UnexpectedInsOpcode));
    assert_eq!(lift(Op::KSTR(Dst(0), Str(3))), Err(DecompileError::UnexpectedInsOpcode));
}

#[test]
fn strings_that_are_no_text_are_made_text() {
    let mut lifter = Lifter::new();
    let mut out = Vec::new();
    let consts = vec![GlobalConst::Str(vec![b'a', 0xff, b'b'])];
    lifter.lift_op(Op::KSTR(Dst(0), Str(0)), &consts, &mut out).unwrap();
    assert_eq!(out, vec![Insn::SetVars(vec![Var(0)], Expr::str("a\u{fffd}b".to_string()))]);
}

#[test]
fn written_slots_are_entered_and_counted() {
    let mut lifter = Lifter::new();
    let mut out = Vec::new();
    let consts = Vec::new();
    assert!(lifter.slot_info(1).is_none());
    lifter.lift_op(Op::MOV(Dst(1), Slot(2)), &consts, &mut out).unwrap();
    let info = lifter.slot_info(1).unwrap();
    assert_eq!(info.name(), "slot_1");
    assert_eq!(info.usage_count(), 0);
    assert!(!info.is_upvalue());
    assert!(lifter.slot_info(2).is_none());
    lifter.lift_op(Op::MOV(Dst(1), Slot(3)), &consts, &mut out).unwrap();
    lifter.lift_op(Op::KNIL(Base(0), Base(1)), &consts, &mut out).unwrap();
    assert_eq!(lifter.slot_info(1).unwrap().usage_count(), 2);
    assert_eq!(lifter.slot_info(0).unwrap().usage_count(), 0);
    lifter.lift_op(Op::USETV(UV(7), Slot(1)), &consts, &mut out).unwrap();
    assert!(lifter.slot_info(7).unwrap().is_upvalue());
    assert_eq!(lifter.var_for_slot(9, true, false), Var(9));
    assert!(lifter.slot_info(9).unwrap().is_table());
    assert_eq!(out.len(), 4);
}

#[test]
fn branches_give_no_statement() {
    assert_eq!(lift(Op::JMP(RBase(0), Jump(1))), Ok(vec![]));
    assert_eq!(lift(Op::FORL(Base(0), Jump(-1))), Ok(vec![]));
    assert_eq!(lift(Op::ITERL(Base(0), Jump(-1))), Ok(vec![]));
    assert_eq!(lift(Op::UCLO(RBase(0), Jump(0))), Ok(vec![]));
    assert_eq!(lift(Op::FUNCF(RBase(0))), Ok(vec![]));
    assert_eq!(lift(Op::LOOP(RBase(2), Jump(0))), Ok(vec![Insn::While(Expr::var(2))]));
}

#[test]
fn prototype_with_one_return_lifts_to_one_statement() {
    let proto = proto_of(&[0x0001_004b]);
    let mut lifter = Lifter::new();
    let graph = lifter.analyze_bc_proto(&proto).unwrap();
    assert_eq!(graph.node_count(), 1);
    assert_eq!(*graph.node_weight(0).unwrap().iter_insn(), vec![Insn::Return(vec![])]);
    assert_eq!(graph.edge_count(), 0);
}

#[test]
fn lifted_graph_has_the_blocks_and_edges_of_the_prototype() {
    // 0: ISLT 0 1; 1: JMP to 3; 2: MOV 2 0; 3: RET1 2
    let proto = proto_of(&[0x0001_0000, 0x8001_0058, 0x0000_0212, 0x0002_024c]);
    let mut lifter = Lifter::new();
    let graph = lifter.analyze_bc_proto(&proto).unwrap();
    let src = proto.basic_block_graph_ref();
    assert_eq!(graph.keys().clone(), vec![0, 2, 3]);
    assert_eq!(graph.keys().clone(), src.keys().clone());
    assert_eq!(graph.edge_count(), src.edge_count());
    for i in 0..graph.edge_count() as u32 {
        let (a, b) = (graph.edge(i).unwrap(), src.edge(i).unwrap());
        assert_eq!((a.from(), a.to(), *a.weight()), (b.from(), b.to(), *b.weight()));
    }
    assert_eq!(
        *graph.node_weight(0).unwrap().iter_insn(),
        vec![Insn::If(Expr::lt(Expr::var(0), Expr::var(1)))]
    );
    assert_eq!(
        *graph.node_weight(2).unwrap().iter_insn(),
        vec![Insn::SetVars(vec![Var(2)], Expr::var(0))]
    );
    assert_eq!(*graph.node_weight(3).unwrap().iter_insn(), vec![Insn::Return(vec![v(2)])]);
    assert_eq!(lifter.slot_info(2).unwrap().usage_count(), 0);
}

#[test]
fn lifting_fails_on_a_malformed_instruction() {
    // CAT with an empty range
    let proto = proto_of(&[0x0101_0026, 0x0001_004b]);
    let mut lifter = Lifter::new();
    assert_eq!(lifter.analyze_bc_proto(&proto).err(), Some(DecompileError::UnexpectedInsOpcode));
    let mut lifter = Lifter::new();
    assert_eq!(
        lifter.lift_block(&vec![0x0003_012b], &Vec::new()).err(),
        Some(DecompileError::InvalidPriValue)
    );
}

#[test]
fn a_failed_lifting_keeps_what_came_before() {
    let mut lifter = Lifter::new();
    // MOV 1 2; CALL 4 0 3; CAT with an empty range; MOV 9 9
    let words = vec![0x0002_0112, 0x0300_0442, 0x0101_0026, 0x0009_0912];
    assert_eq!(
        lifter.lift_block(&words, &Vec::new()).err(),
        Some(DecompileError::UnexpectedInsOpcode)
    );
    assert!(lifter.slot_info(1).is_some());
    assert!(lifter.slot_info(9).is_none());
    assert_eq!(lifter.multres(), 2);
}
