//! The instruction decoder.
//!
//! An instruction is a 32-bit word. Its lowest byte is the operation. The
//! next byte is operand `A`. The upper half is either one wide operand `D`,
//! or two byte operands: `B` in the byte below `C`.

use crate::error::DecompileError;
use crate::op::Op;
use crate::types::Base;
use crate::types::CData;
use crate::types::Dst;
use crate::types::Func;
use crate::types::Jump;
use crate::types::Lit;
use crate::types::LitS;
use crate::types::Num;
use crate::types::Pri;
use crate::types::RBase;
use crate::types::Str;
use crate::types::Tab;
use crate::types::Var;
use crate::types::UV;
use crate::types::pri_of;
use crate::types::signed_byte;
use vstd::prelude::*;
use vstd::std_specs::convert::FromSpec;

verus! {

/// The operation byte of an instruction word.
pub open spec fn field_op(ins: u32) -> u8 {
    (ins % 0x100) as u8
}

/// Operand `A` of an instruction word.
pub open spec fn field_a(ins: u32) -> u8 {
    ((ins / 0x100) % 0x100) as u8
}

/// Operand `B` of an instruction word.
pub open spec fn field_b(ins: u32) -> u8 {
    ((ins / 0x1_0000) % 0x100) as u8
}

/// Operand `C` of an instruction word.
pub open spec fn field_c(ins: u32) -> u8 {
    (ins / 0x100_0000) as u8
}

/// Operand `D` of an instruction word.
pub open spec fn field_d(ins: u32) -> u16 {
    (ins / 0x1_0000) as u16
}

/// The instruction that a word encodes, or the reason why it encodes none:
/// the operation byte is outside the instruction set, or an operand that has
/// to be a primitive is not one.
pub open spec fn decode(ins: u32) -> Result<Op, DecompileError> {
    match field_op(ins) {
        0x00 => Ok(Op::ISLT(Var(field_a(ins) as u16), Var(field_d(ins)))),
        0x01 => Ok(Op::ISGE(Var(field_a(ins) as u16), Var(field_d(ins)))),
        0x02 => Ok(Op::ISLE(Var(field_a(ins) as u16), Var(field_d(ins)))),
        0x03 => Ok(Op::ISGT(Var(field_a(ins) as u16), Var(field_d(ins)))),
        0x04 => Ok(Op::ISEQV(Var(field_a(ins) as u16), Var(field_d(ins)))),
        0x05 => Ok(Op::ISNEV(Var(field_a(ins) as u16), Var(field_d(ins)))),
        0x06 => Ok(Op::ISEQS(Var(field_a(ins) as u16), Str(field_d(ins)))),
        0x07 => Ok(Op::ISNES(Var(field_a(ins) as u16), Str(field_d(ins)))),
        0x08 => Ok(Op::ISEQN(Var(field_a(ins) as u16), Num(field_d(ins)))),
        0x09 => Ok(Op::ISNEN(Var(field_a(ins) as u16), Num(field_d(ins)))),
        0x0a => match pri_of(field_d(ins) as int) {
            Ok(p) => Ok(Op::ISEQP(Var(field_a(ins) as u16), p)),
            Err(e) => Err(e),
        },
        0x0b => match pri_of(field_d(ins) as int) {
            Ok(p) => Ok(Op::ISNEP(Var(field_a(ins) as u16), p)),
            Err(e) => Err(e),
        },
        0x0c => Ok(Op::ISTC(Dst(field_a(ins) as u16), Var(field_d(ins)))),
        0x0d => Ok(Op::ISFC(Dst(field_a(ins) as u16), Var(field_d(ins)))),
        0x0e => Ok(Op::IST(Var(field_d(ins)))),
        0x0f => Ok(Op::ISF(Var(field_d(ins)))),
        0x10 => Ok(Op::ISTYPE(Var(field_a(ins) as u16), Lit((field_d(ins) % 256) as u8))),
        0x11 => Ok(Op::ISNUM(Var(field_a(ins) as u16), Lit((field_d(ins) % 256) as u8))),
        0x12 => Ok(Op::MOV(Dst(field_a(ins) as u16), Var(field_d(ins)))),
        0x13 => Ok(Op::NOT(Dst(field_a(ins) as u16), Var(field_d(ins)))),
        0x14 => Ok(Op::UNM(Dst(field_a(ins) as u16), Var(field_d(ins)))),
        0x15 => Ok(Op::LEN(Dst(field_a(ins) as u16), Var(field_d(ins)))),
        0x16 => Ok(Op::ADDVN(Dst(field_a(ins) as u16), Var(field_b(ins) as u16), Num(field_c(ins) as u16))),
        0x17 => Ok(Op::SUBVN(Dst(field_a(ins) as u16), Var(field_b(ins) as u16), Num(field_c(ins) as u16))),
        0x18 => Ok(Op::MULVN(Dst(field_a(ins) as u16), Var(field_b(ins) as u16), Num(field_c(ins) as u16))),
        0x19 => Ok(Op::DIVVN(Dst(field_a(ins) as u16), Var(field_b(ins) as u16), Num(field_c(ins) as u16))),
        0x1a => Ok(Op::MODVN(Dst(field_a(ins) as u16), Var(field_b(ins) as u16), Num(field_c(ins) as u16))),
        0x1b => Ok(Op::ADDNV(Dst(field_a(ins) as u16), Var(field_b(ins) as u16), Num(field_c(ins) as u16))),
        0x1c => Ok(Op::SUBNV(Dst(field_a(ins) as u16), Var(field_b(ins) as u16), Num(field_c(ins) as u16))),
        0x1d => Ok(Op::MULNV(Dst(field_a(ins) as u16), Var(field_b(ins) as u16), Num(field_c(ins) as u16))),
        0x1e => Ok(Op::DIVNV(Dst(field_a(ins) as u16), Var(field_b(ins) as u16), Num(field_c(ins) as u16))),
        0x1f => Ok(Op::MODNV(Dst(field_a(ins) as u16), Var(field_b(ins) as u16), Num(field_c(ins) as u16))),
        0x20 => Ok(Op::ADDVV(Dst(field_a(ins) as u16), Var(field_b(ins) as u16), Var(field_c(ins) as u16))),
        0x21 => Ok(Op::SUBVV(Dst(field_a(ins) as u16), Var(field_b(ins) as u16), Var(field_c(ins) as u16))),
        0x22 => Ok(Op::MULVV(Dst(field_a(ins) as u16), Var(field_b(ins) as u16), Var(field_c(ins) as u16))),
        0x23 => Ok(Op::DIVVV(Dst(field_a(ins) as u16), Var(field_b(ins) as u16), Var(field_c(ins) as u16))),
        0x24 => Ok(Op::MODVV(Dst(field_a(ins) as u16), Var(field_b(ins) as u16), Var(field_c(ins) as u16))),
        0x25 => Ok(Op::POW(Dst(field_a(ins) as u16), Var(field_b(ins) as u16), Var(field_c(ins) as u16))),
        0x26 => Ok(Op::CAT(Dst(field_a(ins) as u16), RBase(field_b(ins) as u16), RBase(field_c(ins) as u16))),
        0x27 => Ok(Op::KSTR(Dst(field_a(ins) as u16), Str(field_d(ins)))),
        0x28 => Ok(Op::KCDATA(Dst(field_a(ins) as u16), CData(field_d(ins)))),
        0x29 => Ok(Op::KSHORT(Dst(field_a(ins) as u16), LitS(signed_byte((field_d(ins) % 256) as u8)))),
        0x2a => Ok(Op::KNUM(Dst(field_a(ins) as u16), Num(field_d(ins)))),
        0x2b => match pri_of(field_d(ins) as int) {
            Ok(p) => Ok(Op::KPRI(Dst(field_a(ins) as u16), p)),
            Err(e) => Err(e),
        },
        0x2c => Ok(Op::KNIL(Base(field_a(ins) as u16), Base(field_d(ins)))),
        0x2d => Ok(Op::UGET(Dst(field_a(ins) as u16), UV(field_d(ins)))),
        0x2e => Ok(Op::USETV(UV(field_a(ins) as u16), Var(field_d(ins)))),
        0x2f => Ok(Op::USETS(UV(field_a(ins) as u16), Str(field_d(ins)))),
        0x30 => Ok(Op::USETN(UV(field_a(ins) as u16), Num(field_d(ins)))),
        0x31 => match pri_of(field_d(ins) as int) {
            Ok(p) => Ok(Op::USETP(UV(field_a(ins) as u16), p)),
            Err(e) => Err(e),
        },
        0x32 => Ok(Op::UCLO(RBase(field_a(ins) as u16), Jump((field_d(ins) - 0x8000) as i16))),
        0x33 => Ok(Op::FNEW(Dst(field_a(ins) as u16), Func(field_d(ins)))),
        0x34 => Ok(Op::TNEW(Dst(field_a(ins) as u16), Lit((field_d(ins) % 256) as u8))),
        0x35 => Ok(Op::TDUP(Dst(field_a(ins) as u16), Tab(field_d(ins)))),
        0x36 => Ok(Op::GGET(Dst(field_a(ins) as u16), Str(field_d(ins)))),
        0x37 => Ok(Op::GSET(Var(field_a(ins) as u16), Str(field_d(ins)))),
        0x38 => Ok(Op::TGETV(Dst(field_a(ins) as u16), Var(field_b(ins) as u16), Var(field_c(ins) as u16))),
        0x39 => Ok(Op::TGETS(Dst(field_a(ins) as u16), Var(field_b(ins) as u16), Str(field_c(ins) as u16))),
        0x3a => Ok(Op::TGETB(Dst(field_a(ins) as u16), Var(field_b(ins) as u16), Lit(field_c(ins)))),
        0x3b => Ok(Op::TGETR(Dst(field_a(ins) as u16), Var(field_b(ins) as u16), Var(field_c(ins) as u16))),
        0x3c => Ok(Op::TSETV(Var(field_a(ins) as u16), Var(field_b(ins) as u16), Var(field_c(ins) as u16))),
        0x3d => Ok(Op::TSETS(Var(field_a(ins) as u16), Var(field_b(ins) as u16), Str(field_c(ins) as u16))),
        0x3e => Ok(Op::TSETB(Var(field_a(ins) as u16), Var(field_b(ins) as u16), Lit(field_c(ins)))),
        0x3f => Ok(Op::TSETM(Base(field_a(ins) as u16), Num(field_d(ins)))),
        0x40 => Ok(Op::TSETR(Var(field_a(ins) as u16), Var(field_b(ins) as u16), Var(field_c(ins) as u16))),
        0x41 => Ok(Op::CALLM(Base(field_a(ins) as u16), Lit(field_b(ins)), Lit(field_c(ins)))),
        0x42 => Ok(Op::CALL(Base(field_a(ins) as u16), Lit(field_b(ins)), Lit(field_c(ins)))),
        0x43 => Ok(Op::CALLMT(Base(field_a(ins) as u16), Lit((field_d(ins) % 256) as u8))),
        0x44 => Ok(Op::CALLT(Base(field_a(ins) as u16), Lit((field_d(ins) % 256) as u8))),
        0x45 => Ok(Op::ITERC(Base(field_a(ins) as u16), Lit(field_b(ins)), Lit(field_c(ins)))),
        0x46 => Ok(Op::ITERN(Base(field_a(ins) as u16), Lit(field_b(ins)), Lit(field_c(ins)))),
        0x47 => Ok(Op::VARG(Base(field_a(ins) as u16), Lit(field_b(ins)), Lit(field_c(ins)))),
        0x48 => Ok(Op::ISNEXT(Base(field_a(ins) as u16), Jump((field_d(ins) - 0x8000) as i16))),
        0x49 => Ok(Op::RETM(Base(field_a(ins) as u16), Lit((field_d(ins) % 256) as u8))),
        0x4a => Ok(Op::RET(RBase(field_a(ins) as u16), Lit((field_d(ins) % 256) as u8))),
        0x4b => Ok(Op::RET0(RBase(field_a(ins) as u16), Lit((field_d(ins) % 256) as u8))),
        0x4c => Ok(Op::RET1(RBase(field_a(ins) as u16), Lit((field_d(ins) % 256) as u8))),
        0x4d => Ok(Op::FORI(Base(field_a(ins) as u16), Jump((field_d(ins) - 0x8000) as i16))),
        0x4e => Ok(Op::JFORI(Base(field_a(ins) as u16), Jump((field_d(ins) - 0x8000) as i16))),
        0x4f => Ok(Op::FORL(Base(field_a(ins) as u16), Jump((field_d(ins) - 0x8000) as i16))),
        0x50 => Ok(Op::IFORL(Base(field_a(ins) as u16), Jump((field_d(ins) - 0x8000) as i16))),
        0x51 => Ok(Op::JFORL(Base(field_a(ins) as u16), Lit((field_d(ins) % 256) as u8))),
        0x52 => Ok(Op::ITERL(Base(field_a(ins) as u16), Jump((field_d(ins) - 0x8000) as i16))),
        0x53 => Ok(Op::IITERL(Base(field_a(ins) as u16), Jump((field_d(ins) - 0x8000) as i16))),
        0x54 => Ok(Op::JITERL(Base(field_a(ins) as u16), Lit((field_d(ins) % 256) as u8))),
        0x55 => Ok(Op::LOOP(RBase(field_a(ins) as u16), Jump((field_d(ins) - 0x8000) as i16))),
        0x56 => Ok(Op::ILOOP(RBase(field_a(ins) as u16), Jump((field_d(ins) - 0x8000) as i16))),
        0x57 => Ok(Op::JLOOP(RBase(field_a(ins) as u16), Lit((field_d(ins) % 256) as u8))),
        0x58 => Ok(Op::JMP(RBase(field_a(ins) as u16), Jump((field_d(ins) - 0x8000) as i16))),
        0x59 => Ok(Op::FUNCF(RBase(field_a(ins) as u16))),
        0x5a => Ok(Op::IFUNCF(RBase(field_a(ins) as u16))),
        0x5b => Ok(Op::JFUNCF(RBase(field_a(ins) as u16), Lit((field_d(ins) % 256) as u8))),
        0x5c => Ok(Op::FUNCV(RBase(field_a(ins) as u16))),
        0x5d => Ok(Op::IFUNCV(RBase(field_a(ins) as u16))),
        0x5e => Ok(Op::JFUNCV(RBase(field_a(ins) as u16), Lit((field_d(ins) % 256) as u8))),
        0x5f => Ok(Op::FUNCC(RBase(field_a(ins) as u16))),
        0x60 => Ok(Op::FUNCCW(RBase(field_a(ins) as u16))),
        _ => Err(DecompileError::UnknownInsOpcode),
    }
}

#[inline(always)]
pub fn get_op(ins: u32) -> (r: u8)
    ensures
        r == field_op(ins),
{
    assert(ins & 0xff == ins % 0x100) by (bit_vector);
    (ins & 0xff) as u8
}

#[inline(always)]
pub fn get_a<R: From<u8>>(ins: u32) -> (r: R)
    ensures
        R::obeys_from_spec() ==> r == R::from_spec(field_a(ins)),
{
    assert((ins >> 8) & 0xff == (ins / 0x100) % 0x100) by (bit_vector);
    R::from(((ins >> 8) & 0xff) as u8)
}

#[inline(always)]
pub fn get_b<R: From<u8>>(ins: u32) -> (r: R)
    ensures
        R::obeys_from_spec() ==> r == R::from_spec(field_b(ins)),
{
    assert((ins >> 16) & 0xff == (ins / 0x1_0000) % 0x100) by (bit_vector);
    R::from(((ins >> 16) & 0xff) as u8)
}

#[inline(always)]
pub fn get_c<R: From<u8>>(ins: u32) -> (r: R)
    ensures
        R::obeys_from_spec() ==> r == R::from_spec(field_c(ins)),
{
    assert(ins >> 24 == ins / 0x100_0000) by (bit_vector);
    assert(ins >> 24 < 0x100) by (bit_vector);
    R::from((ins >> 24) as u8)
}

#[inline(always)]
pub fn get_d<R: From<u16>>(ins: u32) -> (r: R)
    ensures
        R::obeys_from_spec() ==> r == R::from_spec(field_d(ins)),
{
    assert(ins >> 16 == ins / 0x1_0000) by (bit_vector);
    assert(ins >> 16 < 0x1_0000) by (bit_vector);
    R::from((ins >> 16) as u16)
}

/// Operand `D` read as a primitive.
fn get_pri(ins: u32) -> (r: Result<Pri, DecompileError>)
    ensures
        r == pri_of(field_d(ins) as int),
{
    assert(ins >> 16 == ins / 0x1_0000) by (bit_vector);
    assert(ins >> 16 < 0x1_0000) by (bit_vector);
    Pri::try_from((ins >> 16) as u16)
}

/// Decodes one instruction word.
pub fn disasm(ins_raw: u32) -> (r: Result<Op, DecompileError>)
    ensures
        r == decode(ins_raw),
{
    Ok(
        match get_op(ins_raw) {
            0x00 => Op::ISLT(get_a(ins_raw), get_d(ins_raw)),
            0x01 => Op::ISGE(get_a(ins_raw), get_d(ins_raw)),
            0x02 => Op::ISLE(get_a(ins_raw), get_d(ins_raw)),
            0x03 => Op::ISGT(get_a(ins_raw), get_d(ins_raw)),
            0x04 => Op::ISEQV(get_a(ins_raw), get_d(ins_raw)),
            0x05 => Op::ISNEV(get_a(ins_raw), get_d(ins_raw)),
            0x06 => Op::ISEQS(get_a(ins_raw), get_d(ins_raw)),
            0x07 => Op::ISNES(get_a(ins_raw), get_d(ins_raw)),
            0x08 => Op::ISEQN(get_a(ins_raw), get_d(ins_raw)),
            0x09 => Op::ISNEN(get_a(ins_raw), get_d(ins_raw)),
            0x0a => Op::ISEQP(get_a(ins_raw), get_pri(ins_raw)?),
            0x0b => Op::ISNEP(get_a(ins_raw), get_pri(ins_raw)?),
            0x0c => Op::ISTC(get_a(ins_raw), get_d(ins_raw)),
            0x0d => Op::ISFC(get_a(ins_raw), get_d(ins_raw)),
            0x0e => Op::IST(get_d(ins_raw)),
            0x0f => Op::ISF(get_d(ins_raw)),
            0x10 => Op::ISTYPE(get_a(ins_raw), get_d(ins_raw)),
            0x11 => Op::ISNUM(get_a(ins_raw), get_d(ins_raw)),
            0x12 => Op::MOV(get_a(ins_raw), get_d(ins_raw)),
            0x13 => Op::NOT(get_a(ins_raw), get_d(ins_raw)),
            0x14 => Op::UNM(get_a(ins_raw), get_d(ins_raw)),
            0x15 => Op::LEN(get_a(ins_raw), get_d(ins_raw)),
            0x16 => Op::ADDVN(get_a(ins_raw), get_b(ins_raw), get_c(ins_raw)),
            0x17 => Op::SUBVN(get_a(ins_raw), get_b(ins_raw), get_c(ins_raw)),
            0x18 => Op::MULVN(get_a(ins_raw), get_b(ins_raw), get_c(ins_raw)),
            0x19 => Op::DIVVN(get_a(ins_raw), get_b(ins_raw), get_c(ins_raw)),
            0x1a => Op::MODVN(get_a(ins_raw), get_b(ins_raw), get_c(ins_raw)),
            0x1b => Op::ADDNV(get_a(ins_raw), get_b(ins_raw), get_c(ins_raw)),
            0x1c => Op::SUBNV(get_a(ins_raw), get_b(ins_raw), get_c(ins_raw)),
            0x1d => Op::MULNV(get_a(ins_raw), get_b(ins_raw), get_c(ins_raw)),
            0x1e => Op::DIVNV(get_a(ins_raw), get_b(ins_raw), get_c(ins_raw)),
            0x1f => Op::MODNV(get_a(ins_raw), get_b(ins_raw), get_c(ins_raw)),
            0x20 => Op::ADDVV(get_a(ins_raw), get_b(ins_raw), get_c(ins_raw)),
            0x21 => Op::SUBVV(get_a(ins_raw), get_b(ins_raw), get_c(ins_raw)),
            0x22 => Op::MULVV(get_a(ins_raw), get_b(ins_raw), get_c(ins_raw)),
            0x23 => Op::DIVVV(get_a(ins_raw), get_b(ins_raw), get_c(ins_raw)),
            0x24 => Op::MODVV(get_a(ins_raw), get_b(ins_raw), get_c(ins_raw)),
            0x25 => Op::POW(get_a(ins_raw), get_b(ins_raw), get_c(ins_raw)),
            0x26 => Op::CAT(get_a(ins_raw), get_b(ins_raw), get_c(ins_raw)),
            0x27 => Op::KSTR(get_a(ins_raw), get_d(ins_raw)),
            0x28 => Op::KCDATA(get_a(ins_raw), get_d(ins_raw)),
            0x29 => Op::KSHORT(get_a(ins_raw), get_d(ins_raw)),
            0x2a => Op::KNUM(get_a(ins_raw), get_d(ins_raw)),
            0x2b => Op::KPRI(get_a(ins_raw), get_pri(ins_raw)?),
            0x2c => Op::KNIL(get_a(ins_raw), get_d(ins_raw)),
            0x2d => Op::UGET(get_a(ins_raw), get_d(ins_raw)),
            0x2e => Op::USETV(get_a(ins_raw), get_d(ins_raw)),
            0x2f => Op::USETS(get_a(ins_raw), get_d(ins_raw)),
            0x30 => Op::USETN(get_a(ins_raw), get_d(ins_raw)),
            0x31 => Op::USETP(get_a(ins_raw), get_pri(ins_raw)?),
            0x32 => Op::UCLO(get_a(ins_raw), get_d(ins_raw)),
            0x33 => Op::FNEW(get_a(ins_raw), get_d(ins_raw)),
            0x34 => Op::TNEW(get_a(ins_raw), get_d(ins_raw)),
            0x35 => Op::TDUP(get_a(ins_raw), get_d(ins_raw)),
            0x36 => Op::GGET(get_a(ins_raw), get_d(ins_raw)),
            0x37 => Op::GSET(get_a(ins_raw), get_d(ins_raw)),
            0x38 => Op::TGETV(get_a(ins_raw), get_b(ins_raw), get_c(ins_raw)),
            0x39 => Op::TGETS(get_a(ins_raw), get_b(ins_raw), get_c(ins_raw)),
            0x3a => Op::TGETB(get_a(ins_raw), get_b(ins_raw), get_c(ins_raw)),
            0x3b => Op::TGETR(get_a(ins_raw), get_b(ins_raw), get_c(ins_raw)),
            0x3c => Op::TSETV(get_a(ins_raw), get_b(ins_raw), get_c(ins_raw)),
            0x3d => Op::TSETS(get_a(ins_raw), get_b(ins_raw), get_c(ins_raw)),
            0x3e => Op::TSETB(get_a(ins_raw), get_b(ins_raw), get_c(ins_raw)),
            0x3f => Op::TSETM(get_a(ins_raw), get_d(ins_raw)),
            0x40 => Op::TSETR(get_a(ins_raw), get_b(ins_raw), get_c(ins_raw)),
            0x41 => Op::CALLM(get_a(ins_raw), get_b(ins_raw), get_c(ins_raw)),
            0x42 => Op::CALL(get_a(ins_raw), get_b(ins_raw), get_c(ins_raw)),
            0x43 => Op::CALLMT(get_a(ins_raw), get_d(ins_raw)),
            0x44 => Op::CALLT(get_a(ins_raw), get_d(ins_raw)),
            0x45 => Op::ITERC(get_a(ins_raw), get_b(ins_raw), get_c(ins_raw)),
            0x46 => Op::ITERN(get_a(ins_raw), get_b(ins_raw), get_c(ins_raw)),
            0x47 => Op::VARG(get_a(ins_raw), get_b(ins_raw), get_c(ins_raw)),
            0x48 => Op::ISNEXT(get_a(ins_raw), get_d(ins_raw)),
            0x49 => Op::RETM(get_a(ins_raw), get_d(ins_raw)),
            0x4a => Op::RET(get_a(ins_raw), get_d(ins_raw)),
            0x4b => Op::RET0(get_a(ins_raw), get_d(ins_raw)),
            0x4c => Op::RET1(get_a(ins_raw), get_d(ins_raw)),
            0x4d => Op::FORI(get_a(ins_raw), get_d(ins_raw)),
            0x4e => Op::JFORI(get_a(ins_raw), get_d(ins_raw)),
            0x4f => Op::FORL(get_a(ins_raw), get_d(ins_raw)),
            0x50 => Op::IFORL(get_a(ins_raw), get_d(ins_raw)),
            0x51 => Op::JFORL(get_a(ins_raw), get_d(ins_raw)),
            0x52 => Op::ITERL(get_a(ins_raw), get_d(ins_raw)),
            0x53 => Op::IITERL(get_a(ins_raw), get_d(ins_raw)),
            0x54 => Op::JITERL(get_a(ins_raw), get_d(ins_raw)),
            0x55 => Op::LOOP(get_a(ins_raw), get_d(ins_raw)),
            0x56 => Op::ILOOP(get_a(ins_raw), get_d(ins_raw)),
            0x57 => Op::JLOOP(get_a(ins_raw), get_d(ins_raw)),
            0x58 => Op::JMP(get_a(ins_raw), get_d(ins_raw)),
            0x59 => Op::FUNCF(get_a(ins_raw)),
            0x5a => Op::IFUNCF(get_a(ins_raw)),
            0x5b => Op::JFUNCF(get_a(ins_raw), get_d(ins_raw)),
            0x5c => Op::FUNCV(get_a(ins_raw)),
            0x5d => Op::IFUNCV(get_a(ins_raw)),
            0x5e => Op::JFUNCV(get_a(ins_raw), get_d(ins_raw)),
            0x5f => Op::FUNCC(get_a(ins_raw)),
            0x60 => Op::FUNCCW(get_a(ins_raw)),
            _ => {
                return Err(DecompileError::UnknownInsOpcode);
            },
        },
    )
}

} // verus!
