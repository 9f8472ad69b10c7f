//! The instruction set.

use crate::types::Base;
use crate::types::CData;
use crate::types::Dst;
use crate::types::Func;
use crate::types::Jump;
use crate::types::Lit;
use crate::types::LitS;
use crate::types::Num;
use crate::types::Pri;
use crate::types::RBase;
use crate::types::Str;
use crate::types::Tab;
use crate::types::Var;
use crate::types::UV;
use vstd::prelude::*;

verus! {

/// One decoded instruction: the operation and its operands, each operand in
/// the type that says what it denotes.
#[allow(non_camel_case_types)]
#[derive(Debug, Clone, Copy, PartialEq, Eq, Structural)]
pub enum Op {
    // Comparisons
    ISLT(Var, Var),
    ISGE(Var, Var),
    ISLE(Var, Var),
    ISGT(Var, Var),
    ISEQV(Var, Var),
    ISNEV(Var, Var),
    ISEQS(Var, Str),
    ISNES(Var, Str),
    ISEQN(Var, Num),
    ISNEN(Var, Num),
    ISEQP(Var, Pri),
    ISNEP(Var, Pri),
    // Unary tests, with and without a copy
    ISTC(Dst, Var),
    ISFC(Dst, Var),
    IST(Var),
    ISF(Var),
    ISTYPE(Var, Lit),
    ISNUM(Var, Lit),
    // Unary operations
    MOV(Dst, Var),
    NOT(Dst, Var),
    UNM(Dst, Var),
    LEN(Dst, Var),
    // Binary operations
    ADDVN(Dst, Var, Num),
    SUBVN(Dst, Var, Num),
    MULVN(Dst, Var, Num),
    DIVVN(Dst, Var, Num),
    MODVN(Dst, Var, Num),
    ADDNV(Dst, Var, Num),
    SUBNV(Dst, Var, Num),
    MULNV(Dst, Var, Num),
    DIVNV(Dst, Var, Num),
    MODNV(Dst, Var, Num),
    ADDVV(Dst, Var, Var),
    SUBVV(Dst, Var, Var),
    MULVV(Dst, Var, Var),
    DIVVV(Dst, Var, Var),
    MODVV(Dst, Var, Var),
    POW(Dst, Var, Var),
    CAT(Dst, RBase, RBase),
    // Constants
    KSTR(Dst, Str),
    KCDATA(Dst, CData),
    KSHORT(Dst, LitS),
    KNUM(Dst, Num),
    KPRI(Dst, Pri),
    KNIL(Base, Base),
    // Upvalues and closures
    UGET(Dst, UV),
    USETV(UV, Var),
    USETS(UV, Str),
    USETN(UV, Num),
    USETP(UV, Pri),
    UCLO(RBase, Jump),
    FNEW(Dst, Func),
    // Tables
    TNEW(Dst, Lit),
    TDUP(Dst, Tab),
    GGET(Dst, Str),
    GSET(Var, Str),
    TGETV(Dst, Var, Var),
    TGETS(Dst, Var, Str),
    TGETB(Dst, Var, Lit),
    TGETR(Dst, Var, Var),
    TSETV(Var, Var, Var),
    TSETS(Var, Var, Str),
    TSETB(Var, Var, Lit),
    TSETM(Base, Num),
    TSETR(Var, Var, Var),
    // Calls and variable arguments
    CALLM(Base, Lit, Lit),
    CALL(Base, Lit, Lit),
    CALLMT(Base, Lit),
    CALLT(Base, Lit),
    ITERC(Base, Lit, Lit),
    ITERN(Base, Lit, Lit),
    VARG(Base, Lit, Lit),
    ISNEXT(Base, Jump),
    // Returns
    RETM(Base, Lit),
    RET(RBase, Lit),
    RET0(RBase, Lit),
    RET1(RBase, Lit),
    // Loops and branches
    FORI(Base, Jump),
    JFORI(Base, Jump),
    FORL(Base, Jump),
    IFORL(Base, Jump),
    JFORL(Base, Lit),
    ITERL(Base, Jump),
    IITERL(Base, Jump),
    JITERL(Base, Lit),
    LOOP(RBase, Jump),
    ILOOP(RBase, Jump),
    JLOOP(RBase, Lit),
    JMP(RBase, Jump),
    // Function headers
    FUNCF(RBase),
    IFUNCF(RBase),
    JFUNCF(RBase, Lit),
    FUNCV(RBase),
    IFUNCV(RBase),
    JFUNCV(RBase, Lit),
    FUNCC(RBase),
    FUNCCW(RBase),
}

} // verus!
