use luajit_decompiler::disasm::disasm;
use luajit_decompiler::disasm::get_a;
use luajit_decompiler::disasm::get_b;
use luajit_decompiler::disasm::get_c;
use luajit_decompiler::disasm::get_d;
use luajit_decompiler::disasm::get_op;
use luajit_decompiler::error::DecompileError;
use luajit_decompiler::op::Op;
use luajit_decompiler::types::Base;
use luajit_decompiler::types::CData;
use luajit_decompiler::types::Dst;
use luajit_decompiler::types::Func;
use luajit_decompiler::types::Jump;
use luajit_decompiler::types::Lit;
use luajit_decompiler::types::LitS;
use luajit_decompiler::types::Num;
use luajit_decompiler::types::Pri;
use luajit_decompiler::types::RBase;
use luajit_decompiler::types::Str;
use luajit_decompiler::types::Tab;
use luajit_decompiler::types::Var;
use luajit_decompiler::types::UV;

#[test]
fn fields_are_taken_by_position() {
    let ins = 0xc4b3_a291u32;
    assert_eq!(get_op(ins), 0x91);
    assert_eq!(get_a::<Lit>(ins), Lit(0xa2));
    assert_eq!(get_b::<Lit>(ins), Lit(0xb3));
    assert_eq!(get_c::<Lit>(ins), Lit(0xc4));
    assert_eq!(get_d::<Var>(ins), Var(0xc4b3));
    assert_eq!(get_a::<Var>(ins), Var(0xa2));
}

#[test]
fn operands_of_every_shape() {
    assert_eq!(disasm(0x0005_0300), Ok(Op::ISLT(Var(3), Var(5))));
    assert_eq!(disasm(0x0201_0316), Ok(Op::ADDVN(Dst(3), Var(1), Num(2))));
    assert_eq!(disasm(0x0201_0326), Ok(Op::CAT(Dst(3), RBase(1), RBase(2))));
    assert_eq!(disasm(0x1234_0027), Ok(Op::KSTR(Dst(0), Str(0x1234))));
    assert_eq!(disasm(0x0001_0128), Ok(Op::KCDATA(Dst(1), CData(1))));
    assert_eq!(disasm(0x00ff_0129), Ok(Op::KSHORT(Dst(1), LitS(-1))));
    assert_eq!(disasm(0x017f_0129), Ok(Op::KSHORT(Dst(1), LitS(127))));
    assert_eq!(disasm(0x0080_0129), Ok(Op::KSHORT(Dst(1), LitS(-128))));
    assert_eq!(disasm(0x0002_012b), Ok(Op::KPRI(Dst(1), Pri::True)));
    assert_eq!(disasm(0x0001_012b), Ok(Op::KPRI(Dst(1), Pri::False)));
    assert_eq!(disasm(0x0000_012b), Ok(Op::KPRI(Dst(1), Pri::Nil)));
    assert_eq!(disasm(0x0005_022c), Ok(Op::KNIL(Base(2), Base(5))));
    assert_eq!(disasm(0x0003_012d), Ok(Op::UGET(Dst(1), UV(3))));
    assert_eq!(disasm(0x0003_0133), Ok(Op::FNEW(Dst(1), Func(3))));
    assert_eq!(disasm(0x0103_0134), Ok(Op::TNEW(Dst(1), Lit(3))));
    assert_eq!(disasm(0x0003_0135), Ok(Op::TDUP(Dst(1), Tab(3))));
    assert_eq!(disasm(0x0203_0242), Ok(Op::CALL(Base(2), Lit(3), Lit(2))));
    assert_eq!(disasm(0x0001_004b), Ok(Op::RET0(RBase(0), Lit(1))));
    assert_eq!(disasm(0x0000_050e), Ok(Op::IST(Var(0))));
    assert_eq!(disasm(0x0000_0559), Ok(Op::FUNCF(RBase(5))));
    assert_eq!(disasm(0xffff_ff60), Ok(Op::FUNCCW(RBase(0xff))));
}

#[test]
fn jumps_are_biased() {
    assert_eq!(disasm(0x8000_0058), Ok(Op::JMP(RBase(0), Jump(0))));
    assert_eq!(disasm(0x8003_0058), Ok(Op::JMP(RBase(0), Jump(3))));
    assert_eq!(disasm(0x7fff_0058), Ok(Op::JMP(RBase(0), Jump(-1))));
    assert_eq!(disasm(0x0000_0058), Ok(Op::JMP(RBase(0), Jump(-32768))));
    assert_eq!(disasm(0xffff_0058), Ok(Op::JMP(RBase(0), Jump(32767))));
    assert_eq!(disasm(0x8002_034d), Ok(Op::FORI(Base(3), Jump(2))));
}

#[test]
fn faults_of_the_decoder() {
    assert_eq!(disasm(0x0000_0061), Err(DecompileError::UnknownInsOpcode));
    assert_eq!(disasm(0xffff_ffff), Err(DecompileError::UnknownInsOpcode));
    assert_eq!(disasm(0x0003_012b), Err(DecompileError::InvalidPriValue));
    assert_eq!(disasm(0x0100_000a), Err(DecompileError::InvalidPriValue));
    assert_eq!(disasm(0x0100_000b), Err(DecompileError::InvalidPriValue));
    assert_eq!(disasm(0xffff_0031), Err(DecompileError::InvalidPriValue));
}

#[test]
fn every_opcode_up_to_the_last_decodes() {
    for op in 0u32..=0x60 {
        assert!(disasm(op).is_ok(), "opcode {:#x}", op);
    }
    for op in 0x61u32..=0xff {
        assert_eq!(disasm(op), Err(DecompileError::UnknownInsOpcode));
    }
}

#[test]
fn operand_conversions() {
    assert_eq!(Lit::from(0x1234u16), Lit(0x34));
    assert_eq!(LitS::from(0x80u8), LitS(-128));
    assert_eq!(LitS::from(0x7fu8), LitS(127));
    assert_eq!(LitS::from(0x12ffu16), LitS(-1));
    assert_eq!(Jump::from(0x8000u16), Jump(0));
    assert_eq!(Jump::from(0u16), Jump(-32768));
    assert_eq!(Jump::from(0u8), Jump(-32768));
    assert_eq!(Jump::from(1u8), Jump(32767));
    assert_eq!(Jump::from(255u8), Jump(32513));
    assert_eq!(Var::from(7u8), Var(7));
    assert_eq!(Var::from(700u16), Var(700));
    assert_eq!(Pri::try_from(2u8), Ok(Pri::True));
    assert_eq!(Pri::try_from(3u8), Err(DecompileError::InvalidPriValue));
    assert_eq!(Pri::try_from(256u16), Err(DecompileError::InvalidPriValue));
    assert_eq!(Pri::try_from(0u16), Ok(Pri::Nil));
}
