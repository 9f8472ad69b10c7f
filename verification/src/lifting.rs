//! The lifter: from the instructions of a prototype to statements.
//!
//! Every basic block becomes a block of statements under the same key, and
//! the edges between the blocks stay as they are. The lifter keeps, from
//! block to block, what it knows of the variables in the slots, and the
//! number of results that the last call with an open result list left.

use crate::bytecode_reader::ByteCodeProto;
use crate::bytecode_reader::GlobalConst;
use crate::bytecode_reader::GlobalConstView;
use crate::disasm::decode;
use crate::disasm::disasm;
use crate::error::DecompileError;
use crate::graph::Graph;
use crate::graph::GraphView;
use crate::ir::primitive_view;
use crate::ir::views_of_exprs;
use crate::ir::views_of_insns;
use crate::ir::Block;
use crate::ir::Expr;
use crate::ir::ExprView;
use crate::ir::Insn;
use crate::ir::InsnView;
use crate::ir::Var;
use crate::ir::VarInfo;
use crate::ir::VarInfoView;
use crate::ir::slot_name;
use crate::op::Op;
use crate::resolver::BranchKind;
use std::collections::HashMap;
use vstd::prelude::*;

verus! {

broadcast use vstd::std_specs::hash::group_hash_axioms;

/// The text that `String::from_utf8_lossy` makes of bytes: the characters
/// they encode, with a replacement character for what is no valid encoding.
pub uninterp spec fn utf8_lossy(bytes: Seq<u8>) -> Seq<char>;

/// `String::from_utf8_lossy`, written out through `format!`: the text of
/// the bytes, where every run that is no valid encoding gives a replacement
/// character. The result depends on the bytes alone.
#[verifier::external_body]
fn lossy_text(bytes: &[u8]) -> (text: String)
    ensures
        text@ == utf8_lossy(bytes@),
{
    format!("{}", String::from_utf8_lossy(bytes))
}

/// A slot that a statement writes, with what is known of the variable then.
pub ghost struct Write {
    pub slot: u16,
    pub table: bool,
    pub up_value: bool,
}

/// What the lifter knows.
pub ghost struct LifterView {
    pub slots: Map<u16, VarInfoView>,
    pub multres: nat,
}

/// What one instruction is lifted to: its statements, the slots it writes,
/// in order, and the number of open results behind it.
pub ghost struct Lifted {
    pub insns: Seq<InsnView>,
    pub writes: Seq<Write>,
    pub multres: nat,
}

/// The variables of the slots from `lo` to `hi`, both included.
pub open spec fn slot_vars(lo: int, hi: int) -> Seq<Var> {
    Seq::new(
        if hi >= lo {
            (hi - lo + 1) as nat
        } else {
            0
        },
        |i: int| Var((lo + i) as u16),
    )
}

/// The slots from `lo` to `hi`, both included, as expressions.
pub open spec fn slot_exprs(lo: int, hi: int) -> Seq<ExprView> {
    Seq::new(
        if hi >= lo {
            (hi - lo + 1) as nat
        } else {
            0
        },
        |i: int| ExprView::Var((lo + i) as u16),
    )
}

/// Plain writes to the variables.
pub open spec fn writes_to(vars: Seq<Var>) -> Seq<Write> {
    Seq::new(vars.len(), |i: int| Write { slot: vars[i].0, table: false, up_value: false })
}

/// The string constant that an operand names. Operands count the pool from
/// its end.
pub open spec fn string_const(consts: Seq<GlobalConstView>, index: u16) -> Option<Seq<u8>> {
    if index < consts.len() {
        match consts[consts.len() - 1 - index] {
            GlobalConstView::Str(bytes) => Some(bytes),
            _ => None,
        }
    } else {
        None
    }
}

/// The string constant that an operand names, as an expression.
pub open spec fn string_expr(consts: Seq<GlobalConstView>, index: u16) -> Option<ExprView> {
    match string_const(consts, index) {
        Some(bytes) => Some(ExprView::Str(utf8_lossy(bytes))),
        None => None,
    }
}

/// A slot as an expression.
pub open spec fn slot(index: u16) -> Box<ExprView> {
    Box::new(ExprView::Var(index))
}

/// One statement that writes nothing.
pub open spec fn emits(insn: InsnView, multres: nat) -> Lifted {
    Lifted { insns: seq![insn], writes: Seq::empty(), multres }
}

/// The statement that sets one slot.
pub open spec fn sets(index: u16, value: ExprView, multres: nat) -> Lifted {
    Lifted {
        insns: seq![InsnView::SetVars(seq![Var(index)], value)],
        writes: seq![Write { slot: index, table: false, up_value: false }],
        multres,
    }
}

/// The statement that sets one upvalue.
pub open spec fn sets_upvalue(index: u16, value: ExprView, multres: nat) -> Lifted {
    Lifted {
        insns: seq![InsnView::SetVars(seq![Var(index)], value)],
        writes: seq![Write { slot: index, table: false, up_value: true }],
        multres,
    }
}

/// No statement.
pub open spec fn silent(multres: nat) -> Lifted {
    Lifted { insns: Seq::empty(), writes: Seq::empty(), multres }
}

/// A call of the function in slot `a` with `c - 1` arguments behind it and
/// `extra` more, whose `b - 1` results go to the slots from `a` on. With `b`
/// zero the result list is open, and its width is taken to be `c - 1`.
pub open spec fn call(a: u16, b: u8, c: u8, extra: nat, multres: nat) -> Lifted {
    let rets = if b != 0 {
        slot_vars(a as int, a + b - 2)
    } else {
        Seq::empty()
    };
    let last = a + (if c > 1 {
        c - 1
    } else {
        0
    }) + extra;
    Lifted {
        insns: seq![InsnView::Call(rets, slot_exprs(a as int, last))],
        writes: writes_to(rets),
        multres: if b != 0 {
            multres
        } else if c >= 1 {
            (c - 1) as nat
        } else {
            0
        },
    }
}

/// What an instruction is lifted to. `consts` is the global pool of the
/// prototype, and `multres` the number of open results before the
/// instruction.
///
/// Branches and loop ends give no statement, since the edges of the graph
/// stand for them. Neither do function headers, iterator calls, and the
/// instructions that build a table or pass on an open result list.
pub open spec fn lift_op(op: Op, consts: Seq<GlobalConstView>, multres: nat) -> Result<
    Lifted,
    DecompileError,
> {
    match op {
        // comparisons
        Op::ISLT(a, d) => Ok(emits(InsnView::If(ExprView::Lt(slot(a.0), slot(d.0))), multres)),
        Op::ISGE(a, d) => Ok(emits(InsnView::If(ExprView::Ge(slot(a.0), slot(d.0))), multres)),
        Op::ISLE(a, d) => Ok(emits(InsnView::If(ExprView::Le(slot(a.0), slot(d.0))), multres)),
        Op::ISGT(a, d) => Ok(emits(InsnView::If(ExprView::Gt(slot(a.0), slot(d.0))), multres)),
        Op::ISEQV(a, d) => Ok(emits(InsnView::If(ExprView::Eq(slot(a.0), slot(d.0))), multres)),
        Op::ISNEV(a, d) => Ok(emits(InsnView::If(ExprView::Ne(slot(a.0), slot(d.0))), multres)),
        Op::ISEQS(a, d) => match string_expr(consts, d.0) {
            Some(s) => Ok(emits(InsnView::If(ExprView::Eq(slot(a.0), Box::new(s))), multres)),
            None => Err(DecompileError::UnexpectedInsOpcode),
        },
        Op::ISNES(a, d) => match string_expr(consts, d.0) {
            Some(s) => Ok(emits(InsnView::If(ExprView::Ne(slot(a.0), Box::new(s))), multres)),
            None => Err(DecompileError::UnexpectedInsOpcode),
        },
        Op::ISEQN(a, d) => Ok(
            emits(InsnView::If(ExprView::Eq(slot(a.0), Box::new(ExprView::Num(d.0)))), multres),
        ),
        Op::ISNEN(a, d) => Ok(
            emits(InsnView::If(ExprView::Ne(slot(a.0), Box::new(ExprView::Num(d.0)))), multres),
        ),
        Op::ISEQP(a, d) => Ok(
            emits(InsnView::If(ExprView::Eq(slot(a.0), Box::new(primitive_view(d)))), multres),
        ),
        Op::ISNEP(a, d) => Ok(
            emits(InsnView::If(ExprView::Ne(slot(a.0), Box::new(primitive_view(d)))), multres),
        ),
        // tests, with and without a copy
        Op::ISTC(a, d) => Ok(
            Lifted {
                insns: seq![
                    InsnView::SetVars(seq![Var(a.0)], ExprView::Var(d.0)),
                    InsnView::If(ExprView::Var(d.0)),
                ],
                writes: seq![Write { slot: a.0, table: false, up_value: false }],
                multres,
            },
        ),
        Op::ISFC(a, d) => Ok(
            Lifted {
                insns: seq![
                    InsnView::SetVars(seq![Var(a.0)], ExprView::Var(d.0)),
                    InsnView::If(ExprView::Not(slot(d.0))),
                ],
                writes: seq![Write { slot: a.0, table: false, up_value: false }],
                multres,
            },
        ),
        Op::IST(d) => Ok(emits(InsnView::If(ExprView::Var(d.0)), multres)),
        Op::ISF(d) => Ok(emits(InsnView::If(ExprView::Not(slot(d.0))), multres)),
        Op::ISTYPE(_, _) | Op::ISNUM(_, _) => Ok(emits(InsnView::Unimplemented, multres)),
        // unary operations
        Op::MOV(a, d) => Ok(sets(a.0, ExprView::Var(d.0), multres)),
        Op::NOT(a, d) => Ok(sets(a.0, ExprView::Not(slot(d.0)), multres)),
        Op::UNM(a, d) => Ok(sets(a.0, ExprView::Minus(slot(d.0)), multres)),
        Op::LEN(a, d) => Ok(sets(a.0, ExprView::Len(slot(d.0)), multres)),
        // binary operations: slot and number
        Op::ADDVN(a, b, c) => Ok(
            sets(a.0, ExprView::Add(slot(b.0), Box::new(ExprView::Num(c.0))), multres),
        ),
        Op::SUBVN(a, b, c) => Ok(
            sets(a.0, ExprView::Sub(slot(b.0), Box::new(ExprView::Num(c.0))), multres),
        ),
        Op::MULVN(a, b, c) => Ok(
            sets(a.0, ExprView::Mul(slot(b.0), Box::new(ExprView::Num(c.0))), multres),
        ),
        Op::DIVVN(a, b, c) => Ok(
            sets(a.0, ExprView::Div(slot(b.0), Box::new(ExprView::Num(c.0))), multres),
        ),
        Op::MODVN(a, b, c) => Ok(
            sets(a.0, ExprView::Mod(slot(b.0), Box::new(ExprView::Num(c.0))), multres),
        ),
        // binary operations: number and slot
        Op::ADDNV(a, b, c) => Ok(
            sets(a.0, ExprView::Add(Box::new(ExprView::Num(c.0)), slot(b.0)), multres),
        ),
        Op::SUBNV(a, b, c) => Ok(
            sets(a.0, ExprView::Sub(Box::new(ExprView::Num(c.0)), slot(b.0)), multres),
        ),
        Op::MULNV(a, b, c) => Ok(
            sets(a.0, ExprView::Mul(Box::new(ExprView::Num(c.0)), slot(b.0)), multres),
        ),
        Op::DIVNV(a, b, c) => Ok(
            sets(a.0, ExprView::Div(Box::new(ExprView::Num(c.0)), slot(b.0)), multres),
        ),
        Op::MODNV(a, b, c) => Ok(
            sets(a.0, ExprView::Mod(Box::new(ExprView::Num(c.0)), slot(b.0)), multres),
        ),
        // binary operations: two slots
        Op::ADDVV(a, b, c) => Ok(sets(a.0, ExprView::Add(slot(b.0), slot(c.0)), multres)),
        Op::SUBVV(a, b, c) => Ok(sets(a.0, ExprView::Sub(slot(b.0), slot(c.0)), multres)),
        Op::MULVV(a, b, c) => Ok(sets(a.0, ExprView::Mul(slot(b.0), slot(c.0)), multres)),
        Op::DIVVV(a, b, c) => Ok(sets(a.0, ExprView::Div(slot(b.0), slot(c.0)), multres)),
        Op::MODVV(a, b, c) => Ok(sets(a.0, ExprView::Mod(slot(b.0), slot(c.0)), multres)),
        Op::POW(a, b, c) => Ok(sets(a.0, ExprView::Pow(slot(b.0), slot(c.0)), multres)),
        Op::CAT(a, b, c) => if c.0 > b.0 {
            Ok(
                Lifted {
                    insns: seq![InsnView::Cat(Var(a.0), slot_exprs(b.0 as int, c.0 as int))],
                    writes: seq![Write { slot: a.0, table: false, up_value: false }],
                    multres,
                },
            )
        } else {
            Err(DecompileError::UnexpectedInsOpcode)
        },
        // constants
        Op::KSTR(a, d) => match string_expr(consts, d.0) {
            Some(s) => Ok(sets(a.0, s, multres)),
            None => Err(DecompileError::UnexpectedInsOpcode),
        },
        Op::KCDATA(a, d) => Ok(sets(a.0, ExprView::Cdata(d.0), multres)),
        Op::KSHORT(a, d) => Ok(sets(a.0, ExprView::Short(d.0 as i16), multres)),
        Op::KNUM(a, d) => Ok(sets(a.0, ExprView::Num(d.0), multres)),
        Op::KPRI(a, d) => Ok(sets(a.0, primitive_view(d), multres)),
        Op::KNIL(a, d) => if d.0 > a.0 {
            Ok(
                Lifted {
                    insns: seq![
                        InsnView::SetVars(slot_vars(a.0 as int, d.0 as int), ExprView::Nil),
                    ],
                    writes: writes_to(slot_vars(a.0 as int, d.0 as int)),
                    multres,
                },
            )
        } else {
            Err(DecompileError::UnexpectedInsOpcode)
        },
        // upvalues and closures
        Op::UGET(a, d) => Ok(sets(a.0, ExprView::Uv(d.0), multres)),
        Op::USETV(a, d) => Ok(sets_upvalue(a.0, ExprView::Var(d.0), multres)),
        Op::USETS(a, d) => match string_expr(consts, d.0) {
            Some(s) => Ok(sets_upvalue(a.0, s, multres)),
            None => Err(DecompileError::UnexpectedInsOpcode),
        },
        Op::USETN(a, d) => Ok(sets_upvalue(a.0, ExprView::Num(d.0), multres)),
        Op::USETP(a, d) => Ok(sets_upvalue(a.0, primitive_view(d), multres)),
        Op::FNEW(a, d) => Ok(sets(a.0, ExprView::Closure(d.0), multres)),
        // tables
        Op::TDUP(a, d) => Ok(
            Lifted {
                insns: seq![InsnView::SetVars(seq![Var(a.0)], ExprView::Var(d.0))],
                writes: seq![Write { slot: a.0, table: true, up_value: false }],
                multres,
            },
        ),
        Op::GGET(a, d) => match string_expr(consts, d.0) {
            Some(s) => Ok(
                sets(a.0, ExprView::Table(Box::new(ExprView::GlobalTable), Box::new(s)), multres),
            ),
            None => Err(DecompileError::UnexpectedInsOpcode),
        },
        Op::GSET(a, d) => match string_expr(consts, d.0) {
            Some(s) => Ok(emits(InsnView::SetGlobalTableVar(s, ExprView::Var(a.0)), multres)),
            None => Err(DecompileError::UnexpectedInsOpcode),
        },
        Op::TGETV(a, b, c) => Ok(sets(a.0, ExprView::Table(slot(b.0), slot(c.0)), multres)),
        Op::TGETS(a, b, c) => match string_expr(consts, c.0) {
            Some(s) => Ok(sets(a.0, ExprView::Table(slot(b.0), Box::new(s)), multres)),
            None => Err(DecompileError::UnexpectedInsOpcode),
        },
        Op::TGETB(a, b, c) => Ok(
            sets(a.0, ExprView::Table(slot(b.0), Box::new(ExprView::Lit(c.0))), multres),
        ),
        Op::TGETR(_, _, _) | Op::TSETR(_, _, _) => Ok(emits(InsnView::Unimplemented, multres)),
        Op::TSETV(a, b, c) => Ok(
            emits(InsnView::SetTableVar(Var(b.0), ExprView::Var(c.0), ExprView::Var(a.0)), multres),
        ),
        Op::TSETS(a, b, c) => match string_expr(consts, c.0) {
            Some(s) => Ok(emits(InsnView::SetTableVar(Var(b.0), s, ExprView::Var(a.0)), multres)),
            None => Err(DecompileError::UnexpectedInsOpcode),
        },
        Op::TSETB(a, b, c) => Ok(
            emits(InsnView::SetTableVar(Var(b.0), ExprView::Lit(c.0), ExprView::Var(a.0)), multres),
        ),
        // calls
        Op::CALL(a, b, c) => Ok(call(a.0, b.0, c.0, 0, multres)),
        Op::CALLM(a, b, c) => Ok(call(a.0, b.0, c.0, multres, multres)),
        Op::CALLT(a, d) => Ok(
            emits(
                InsnView::TailCall(
                    slot_exprs(
                        a.0 as int,
                        a.0 + if d.0 > 1 {
                            d.0 - 1
                        } else {
                            0
                        },
                    ),
                ),
                multres,
            ),
        ),
        // returns
        Op::RET(a, d) => Ok(emits(InsnView::Return(slot_exprs(a.0 as int, d.0 - 2)), multres)),
        Op::RET0(_, _) => Ok(emits(InsnView::Return(Seq::empty()), multres)),
        Op::RET1(a, _) => Ok(emits(InsnView::Return(seq![ExprView::Var(a.0)]), multres)),
        // loops
        Op::FORI(a, _) => Ok(emits(InsnView::For(slot_exprs(a.0 as int, a.0 + 2)), multres)),
        Op::LOOP(a, _) => Ok(emits(InsnView::While(ExprView::Var(a.0)), multres)),
        _ => Ok(silent(multres)),
    }
}

/// Every statement that an instruction is lifted to has the parts that its
/// written form names.
pub proof fn lemma_lifted_is_complete(op: Op, consts: Seq<GlobalConstView>, multres: nat)
    ensures
        lift_op(op, consts, multres) matches Ok(lifted) ==> forall|i: int|
            0 <= i < lifted.insns.len() ==> (#[trigger] lifted.insns[i]).complete(),
{
}

/// What is known of a slot after one more write to it: a slot that is
/// written for the first time is entered, and every later write is counted.
pub open spec fn register(slots: Map<u16, VarInfoView>, w: Write) -> Map<u16, VarInfoView> {
    if slots.dom().contains(w.slot) {
        slots.insert(
            w.slot,
            VarInfoView {
                usage_cnt: if slots[w.slot].usage_cnt < u16::MAX {
                    (slots[w.slot].usage_cnt + 1) as u16
                } else {
                    u16::MAX
                },
                ..slots[w.slot]
            },
        )
    } else {
        slots.insert(
            w.slot,
            VarInfoView {
                name: slot_name(w.slot),
                table: w.table,
                up_value: w.up_value,
                usage_cnt: 0,
            },
        )
    }
}

/// What is known of the slots after the writes, in their order.
pub open spec fn registered(slots: Map<u16, VarInfoView>, writes: Seq<Write>) -> Map<
    u16,
    VarInfoView,
>
    decreases writes.len(),
{
    if writes.len() == 0 {
        slots
    } else {
        register(registered(slots, writes.drop_last()), writes.last())
    }
}

/// What the lifter knows behind an instruction.
pub open spec fn advanced(state: LifterView, lifted: Lifted) -> LifterView {
    LifterView { slots: registered(state.slots, lifted.writes), multres: lifted.multres }
}

/// What a run of instruction words is lifted to, and what the lifter knows
/// behind it. The lifting ends at the first instruction that cannot be
/// lifted; the lifter then knows what it knew before that instruction.
pub open spec fn lift_words(words: Seq<u32>, consts: Seq<GlobalConstView>, state: LifterView) -> (
    Result<Seq<InsnView>, DecompileError>,
    LifterView,
)
    decreases words.len(),
{
    if words.len() == 0 {
        (Ok(Seq::empty()), state)
    } else {
        match decode(words[0]) {
            Err(e) => (Err(e), state),
            Ok(op) => match lift_op(op, consts, state.multres) {
                Err(e) => (Err(e), state),
                Ok(lifted) => lifted_on(
                    lifted.insns,
                    lift_words(words.skip(1), consts, advanced(state, lifted)),
                ),
            },
        }
    }
}

/// What the blocks at `keys` are lifted to, one after the other, and what
/// the lifter knows behind them. The lifting ends at the first instruction
/// that cannot be lifted.
pub open spec fn lift_blocks(
    cfg: GraphView<crate::resolver::Block, BranchKind>,
    keys: Seq<u32>,
    consts: Seq<GlobalConstView>,
    state: LifterView,
) -> (Result<Seq<Seq<InsnView>>, DecompileError>, LifterView)
    decreases keys.len(),
{
    if keys.len() == 0 {
        (Ok(Seq::empty()), state)
    } else {
        match lift_words(cfg.nodes[keys[0]]@, consts, state) {
            (Err(e), at) => (Err(e), at),
            (Ok(insns), next) => lifted_on(seq![insns], lift_blocks(cfg, keys.skip(1), consts, next)),
        }
    }
}

/// What was lifted so far, with what comes of the rest.
pub open spec fn lifted_on<T>(
    done: Seq<T>,
    rest: (Result<Seq<T>, DecompileError>, LifterView),
) -> (Result<Seq<T>, DecompileError>, LifterView) {
    (
        match rest.0 {
            Ok(more) => Ok(done + more),
            Err(e) => Err(e),
        },
        rest.1,
    )
}

/// The slots that a call or a loop counts up from are byte-wide operands.
pub open spec fn narrow(op: Op) -> bool {
    match op {
        Op::CALL(a, _, _) | Op::CALLM(a, _, _) | Op::CALLT(a, _) | Op::FORI(a, _) => a.0 <= 0xff,
        _ => true,
    }
}

/// What the decoder yields is narrow.
pub proof fn lemma_decoded_is_narrow(ins: u32)
    ensures
        decode(ins) matches Ok(op) ==> narrow(op),
{
}

/// The lifter.
pub struct Lifter {
    slots: HashMap<u16, VarInfo>,
    multres: u8,
}

impl View for Lifter {
    type V = LifterView;

    closed spec fn view(&self) -> LifterView {
        LifterView {
            slots: self.slots@.map_values(|v: VarInfo| v@),
            multres: self.multres as nat,
        }
    }
}

proof fn lemma_registered_one(slots: Map<u16, VarInfoView>, w: Write)
    ensures
        registered(slots, seq![w]) == register(slots, w),
{
    assert(seq![w].drop_last() =~= Seq::<Write>::empty());
    assert(registered(slots, Seq::<Write>::empty()) == slots);
}

proof fn lemma_registered_none(slots: Map<u16, VarInfoView>)
    ensures
        registered(slots, Seq::<Write>::empty()) == slots,
{
}

/// Adds a statement to a list.
fn emit(out: &mut Vec<Insn>, insn: Insn)
    ensures
        views_of_insns(final(out)@) == views_of_insns(old(out)@) + seq![insn@],
{
    out.push(insn);
    proof {
        assert(views_of_insns(out@) =~= views_of_insns(old(out)@) + seq![insn@]);
    }
}

/// The expressions of the slots from `lo` to `hi`.
fn exprs_of_slots(lo: u32, hi: u32) -> (r: Vec<Expr>)
    requires
        hi <= u16::MAX,
    ensures
        views_of_exprs(r@) == slot_exprs(lo as int, hi as int),
{
    let mut out: Vec<Expr> = Vec::new();
    let mut i: u32 = lo;
    while i <= hi
        invariant
            lo <= i <= hi + 1 || (i == lo && lo > hi),
            hi <= u16::MAX,
            out@.len() == i - lo,
            forall|j: int| 0 <= j < out@.len() ==> (#[trigger] out@[j])@ == ExprView::Var((lo + j) as u16),
        decreases hi + 1 - i,
    {
        out.push(Expr::Var(Var(i as u16)));
        i += 1;
    }
    proof {
        assert(views_of_exprs(out@) =~= slot_exprs(lo as int, hi as int));
    }
    out
}

impl Lifter {
    pub fn new() -> (l: Self)
        ensures
            l@ == (LifterView { slots: Map::empty(), multres: 0 }),
    {
        let l = Self { slots: HashMap::new(), multres: 0 };
        proof {
            assert(l@.slots =~= Map::<u16, VarInfoView>::empty());
        }
        l
    }

    /// The number of results that the last call with an open result list
    /// is taken to have left.
    pub fn multres(&self) -> (r: u8)
        ensures
            r == self@.multres,
    {
        self.multres
    }

    /// What is known of the variable in a slot.
    pub fn slot_info(&self, index: u16) -> (r: Option<&VarInfo>)
        ensures
            match r {
                Some(info) => self@.slots.dom().contains(index) && info@ == self@.slots[index],
                None => !self@.slots.dom().contains(index),
            },
    {
        self.slots.get(&index)
    }

    /// The variable of a slot that is written. The first write enters the
    /// slot with what is known of it; every later one is counted.
    pub fn var_for_slot(&mut self, index: u16, table: bool, up_value: bool) -> (r: Var)
        ensures
            r == Var(index),
            final(self)@ == (LifterView {
                slots: register(old(self)@.slots, Write { slot: index, table, up_value }),
                ..old(self)@
            }),
    {
        let ghost before = self.slots@;
        match self.slots.remove(&index) {
            Some(info) => {
                let mut info = info;
                info.increment_usage_counter();
                self.slots.insert(index, info);
                proof {
                    assert(self@.slots =~= register(
                        old(self)@.slots,
                        Write { slot: index, table, up_value },
                    ));
                }
            },
            None => {
                self.slots.insert(index, VarInfo::new(index, table, up_value));
                proof {
                    assert(self@.slots =~= register(
                        old(self)@.slots,
                        Write { slot: index, table, up_value },
                    ));
                }
            },
        }
        Var(index)
    }

    /// The variables of the slots from `lo` to `hi`, every one of them
    /// written.
    fn vars_for_slots(&mut self, lo: u32, hi: u32) -> (r: Vec<Var>)
        requires
            hi <= u16::MAX,
        ensures
            r@ == slot_vars(lo as int, hi as int),
            final(self)@ == (LifterView {
                slots: registered(old(self)@.slots, writes_to(slot_vars(lo as int, hi as int))),
                ..old(self)@
            }),
    {
        let mut out: Vec<Var> = Vec::new();
        let mut i: u32 = lo;
        let ghost all = writes_to(slot_vars(lo as int, hi as int));
        while i <= hi
            invariant
                lo <= i <= hi + 1 || (i == lo && lo > hi),
                hi <= u16::MAX,
                all == writes_to(slot_vars(lo as int, hi as int)),
                out@.len() == i - lo,
                out@ == slot_vars(lo as int, hi as int).take(i - lo),
                self@ == (LifterView {
                    slots: registered(old(self)@.slots, all.take(i - lo)),
                    ..old(self)@
                }),
            decreases hi + 1 - i,
        {
            let var = self.var_for_slot(i as u16, false, false);
            out.push(var);
            proof {
                let n = i - lo;
                assert(all.take(n + 1).drop_last() =~= all.take(n));
                assert(all.take(n + 1).last() == Write {
                    slot: i as u16,
                    table: false,
                    up_value: false,
                });
                assert(out@ =~= slot_vars(lo as int, hi as int).take(n + 1));
            }
            i += 1;
        }
        proof {
            let full = slot_vars(lo as int, hi as int);
            assert(full.take(full.len() as int) =~= full);
            assert(all.take(all.len() as int) =~= all);
            assert(all.take(0) =~= Seq::<Write>::empty());
            assert(full.take(0) =~= Seq::<Var>::empty());
        }
        out
    }

    /// Lifts the setting of one slot.
    fn set(&mut self, out: &mut Vec<Insn>, index: u16, value: Box<Expr>)
        ensures
            views_of_insns(final(out)@) == views_of_insns(old(out)@) + sets(
                index,
                (*value)@,
                old(self)@.multres,
            ).insns,
            final(self)@ == advanced(old(self)@, sets(index, (*value)@, old(self)@.multres)),
    {
        proof {
            lemma_registered_one(
                self@.slots,
                Write { slot: index, table: false, up_value: false },
            );
        }
        let var = self.var_for_slot(index, false, false);
        emit(out, Insn::set_var(var, value));
    }

    /// Lifts the setting of one upvalue.
    fn set_upvalue(&mut self, out: &mut Vec<Insn>, index: u16, value: Box<Expr>)
        ensures
            views_of_insns(final(out)@) == views_of_insns(old(out)@) + sets_upvalue(
                index,
                (*value)@,
                old(self)@.multres,
            ).insns,
            final(self)@ == advanced(
                old(self)@,
                sets_upvalue(index, (*value)@, old(self)@.multres),
            ),
    {
        proof {
            lemma_registered_one(self@.slots, Write { slot: index, table: false, up_value: true });
        }
        let var = self.var_for_slot(index, false, true);
        emit(out, Insn::set_var(var, value));
    }

    /// Lifts one statement that writes no slot.
    fn plain(&mut self, out: &mut Vec<Insn>, insn: Insn)
        ensures
            views_of_insns(final(out)@) == views_of_insns(old(out)@) + emits(
                insn@,
                old(self)@.multres,
            ).insns,
            final(self)@ == advanced(old(self)@, emits(insn@, old(self)@.multres)),
            *final(self) == *old(self),
    {
        proof {
            lemma_registered_none(self@.slots);
        }
        emit(out, insn);
    }

    /// Lifts a call.
    fn lift_call(&mut self, out: &mut Vec<Insn>, a: u16, b: u8, c: u8, extra: u8)
        requires
            a <= 0xff,
        ensures
            views_of_insns(final(out)@) == views_of_insns(old(out)@) + call(
                a,
                b,
                c,
                extra as nat,
                old(self)@.multres,
            ).insns,
            final(self)@ == advanced(
                old(self)@,
                call(a, b, c, extra as nat, old(self)@.multres),
            ),
    {
        let ghost before = self@;
        let results: Vec<Var> = if b != 0 {
            if b >= 2 {
                self.vars_for_slots(a as u32, a as u32 + b as u32 - 2)
            } else {
                proof {
                    assert(slot_vars(a as int, a + b - 2) =~= Seq::<Var>::empty());
                    assert(writes_to(Seq::<Var>::empty()) =~= Seq::<Write>::empty());
                    lemma_registered_none(self@.slots);
                }
                Vec::new()
            }
        } else {
            proof {
                assert(writes_to(Seq::<Var>::empty()) =~= Seq::<Write>::empty());
                lemma_registered_none(self@.slots);
            }
            Vec::new()
        };
        let last: u32 = a as u32 + (if c > 1 {
            c as u32 - 1
        } else {
            0
        }) + extra as u32;
        let args = exprs_of_slots(a as u32, last);
        if b == 0 {
            self.multres = if c >= 1 {
                c - 1
            } else {
                0
            };
        }
        emit(out, Insn::Call(results, args));
    }
}

/// The string constant that an operand names, as text.
fn string_for(consts: &Vec<GlobalConst>, index: u16) -> (r: Option<String>)
    ensures
        match string_expr(crate::bytecode_reader::views_of_consts(consts@), index) {
            Some(e) => r is Some && ExprView::Str(r->Some_0@) == e,
            None => r is None,
        },
{
    if (index as usize) < consts.len() {
        match &consts[consts.len() - 1 - index as usize] {
            GlobalConst::Str(bytes) => Some(lossy_text(bytes.as_slice())),
            _ => None,
        }
    } else {
        None
    }
}

impl Lifter {
    /// Lifts one instruction: adds its statements to `out` and takes note of
    /// the slots that it writes. An instruction that cannot be lifted
    /// changes nothing.
    #[verifier::rlimit(50)]
    pub fn lift_op(&mut self, op: Op, consts: &Vec<GlobalConst>, out: &mut Vec<Insn>) -> (r: Result<
        (),
        DecompileError,
    >)
        requires
            narrow(op),
        ensures
            match lift_op(
                op,
                crate::bytecode_reader::views_of_consts(consts@),
                old(self)@.multres,
            ) {
                Ok(lifted) => r is Ok && views_of_insns(final(out)@) == views_of_insns(old(out)@)
                    + lifted.insns && final(self)@ == advanced(old(self)@, lifted),
                Err(e) => r == Err::<(), DecompileError>(e) && *final(out) == *old(out)
                    && *final(self) == *old(self),
            },
    {
        match op {
            Op::ISLT(a, d) => self.plain(out, Insn::If(Expr::lt(Expr::var(a.0), Expr::var(d.0)))),
            Op::ISGE(a, d) => self.plain(out, Insn::If(Expr::ge(Expr::var(a.0), Expr::var(d.0)))),
            Op::ISLE(a, d) => self.plain(out, Insn::If(Expr::le(Expr::var(a.0), Expr::var(d.0)))),
            Op::ISGT(a, d) => self.plain(out, Insn::If(Expr::gt(Expr::var(a.0), Expr::var(d.0)))),
            Op::ISEQV(a, d) => self.plain(out, Insn::If(Expr::eq(Expr::var(a.0), Expr::var(d.0)))),
            Op::ISNEV(a, d) => self.plain(out, Insn::If(Expr::ne(Expr::var(a.0), Expr::var(d.0)))),
            Op::ISEQS(a, d) => match string_for(consts, d.0) {
                Some(s) => {
                    self.plain(out, Insn::If(Expr::eq(Expr::var(a.0), Expr::str(s))));
                },
                None => {
                    return Err(DecompileError::UnexpectedInsOpcode);
                },
            },
            Op::ISNES(a, d) => match string_for(consts, d.0) {
                Some(s) => {
                    self.plain(out, Insn::If(Expr::ne(Expr::var(a.0), Expr::str(s))));
                },
                None => {
                    return Err(DecompileError::UnexpectedInsOpcode);
                },
            },
            Op::ISEQN(a, d) => self.plain(out, Insn::If(Expr::eq(Expr::var(a.0), Expr::num(d.0)))),
            Op::ISNEN(a, d) => self.plain(out, Insn::If(Expr::ne(Expr::var(a.0), Expr::num(d.0)))),
            Op::ISEQP(a, d) => self.plain(out, Insn::If(Expr::eq(Expr::var(a.0), Expr::primitive(d)))),
            Op::ISNEP(a, d) => self.plain(out, Insn::If(Expr::ne(Expr::var(a.0), Expr::primitive(d)))),
            Op::ISTC(a, d) => {
                proof {
                    lemma_registered_one(
                        self@.slots,
                        Write { slot: a.0, table: false, up_value: false },
                    );
                }
                let var = self.var_for_slot(a.0, false, false);
                emit(out, Insn::set_var(var, Expr::var(d.0)));
                emit(out, Insn::If(Expr::var(d.0)));
            },
            Op::ISFC(a, d) => {
                proof {
                    lemma_registered_one(
                        self@.slots,
                        Write { slot: a.0, table: false, up_value: false },
                    );
                }
                let var = self.var_for_slot(a.0, false, false);
                emit(out, Insn::set_var(var, Expr::var(d.0)));
                emit(out, Insn::If(Expr::not(Expr::var(d.0))));
            },
            Op::IST(d) => self.plain(out, Insn::If(Expr::var(d.0))),
            Op::ISF(d) => self.plain(out, Insn::If(Expr::not(Expr::var(d.0)))),
            Op::ISTYPE(_, _) | Op::ISNUM(_, _) => self.plain(out, Insn::Unimplemented),
            Op::MOV(a, d) => self.set(out, a.0, Expr::var(d.0)),
            Op::NOT(a, d) => self.set(out, a.0, Expr::not(Expr::var(d.0))),
            Op::UNM(a, d) => self.set(out, a.0, Expr::minus(Expr::var(d.0))),
            Op::LEN(a, d) => self.set(out, a.0, Expr::len(Expr::var(d.0))),
            Op::ADDVN(a, b, c) => self.set(out, a.0, Expr::add(Expr::var(b.0), Expr::num(c.0))),
            Op::SUBVN(a, b, c) => self.set(out, a.0, Expr::sub(Expr::var(b.0), Expr::num(c.0))),
            Op::MULVN(a, b, c) => self.set(out, a.0, Expr::mul(Expr::var(b.0), Expr::num(c.0))),
            Op::DIVVN(a, b, c) => self.set(out, a.0, Expr::div(Expr::var(b.0), Expr::num(c.0))),
            Op::MODVN(a, b, c) => self.set(out, a.0, Expr::mod_(Expr::var(b.0), Expr::num(c.0))),
            Op::ADDNV(a, b, c) => self.set(out, a.0, Expr::add(Expr::num(c.0), Expr::var(b.0))),
            Op::SUBNV(a, b, c) => self.set(out, a.0, Expr::sub(Expr::num(c.0), Expr::var(b.0))),
            Op::MULNV(a, b, c) => self.set(out, a.0, Expr::mul(Expr::num(c.0), Expr::var(b.0))),
            Op::DIVNV(a, b, c) => self.set(out, a.0, Expr::div(Expr::num(c.0), Expr::var(b.0))),
            Op::MODNV(a, b, c) => self.set(out, a.0, Expr::mod_(Expr::num(c.0), Expr::var(b.0))),
            Op::ADDVV(a, b, c) => self.set(out, a.0, Expr::add(Expr::var(b.0), Expr::var(c.0))),
            Op::SUBVV(a, b, c) => self.set(out, a.0, Expr::sub(Expr::var(b.0), Expr::var(c.0))),
            Op::MULVV(a, b, c) => self.set(out, a.0, Expr::mul(Expr::var(b.0), Expr::var(c.0))),
            Op::DIVVV(a, b, c) => self.set(out, a.0, Expr::div(Expr::var(b.0), Expr::var(c.0))),
            Op::MODVV(a, b, c) => self.set(out, a.0, Expr::mod_(Expr::var(b.0), Expr::var(c.0))),
            Op::POW(a, b, c) => self.set(out, a.0, Expr::pow(Expr::var(b.0), Expr::var(c.0))),
            Op::CAT(a, b, c) => {
                if c.0 > b.0 {
                    proof {
                        lemma_registered_one(
                            self@.slots,
                            Write { slot: a.0, table: false, up_value: false },
                        );
                    }
                    let var = self.var_for_slot(a.0, false, false);
                    emit(out, Insn::Cat(var, exprs_of_slots(b.0 as u32, c.0 as u32)));
                } else {
                    return Err(DecompileError::UnexpectedInsOpcode);
                }
            },
            Op::KSTR(a, d) => match string_for(consts, d.0) {
                Some(s) => {
                    self.set(out, a.0, Expr::str(s));
                },
                None => {
                    return Err(DecompileError::UnexpectedInsOpcode);
                },
            },
            Op::KCDATA(a, d) => self.set(out, a.0, Expr::cdata(d.0)),
            Op::KSHORT(a, d) => self.set(out, a.0, Expr::short(d.0 as i16)),
            Op::KNUM(a, d) => self.set(out, a.0, Expr::num(d.0)),
            Op::KPRI(a, d) => self.set(out, a.0, Expr::primitive(d)),
            Op::KNIL(a, d) => {
                if d.0 > a.0 {
                    let vars = self.vars_for_slots(a.0 as u32, d.0 as u32);
                    emit(out, Insn::SetVars(vars, Expr::nil()));
                } else {
                    return Err(DecompileError::UnexpectedInsOpcode);
                }
            },
            Op::UGET(a, d) => self.set(out, a.0, Expr::uv(d.0)),
            Op::USETV(a, d) => self.set_upvalue(out, a.0, Expr::var(d.0)),
            Op::USETS(a, d) => match string_for(consts, d.0) {
                Some(s) => {
                    self.set_upvalue(out, a.0, Expr::str(s));
                },
                None => {
                    return Err(DecompileError::UnexpectedInsOpcode);
                },
            },
            Op::USETN(a, d) => self.set_upvalue(out, a.0, Expr::num(d.0)),
            Op::USETP(a, d) => self.set_upvalue(out, a.0, Expr::primitive(d)),
            Op::FNEW(a, d) => self.set(out, a.0, Expr::closure(d.0)),
            Op::TDUP(a, d) => {
                proof {
                    lemma_registered_one(
                        self@.slots,
                        Write { slot: a.0, table: true, up_value: false },
                    );
                }
                let var = self.var_for_slot(a.0, true, false);
                emit(out, Insn::set_var(var, Expr::var(d.0)));
            },
            Op::GGET(a, d) => match string_for(consts, d.0) {
                Some(s) => {
                    self.set(out, a.0, Expr::table(Box::new(Expr::GlobalTable), Expr::str(s)));
                },
                None => {
                    return Err(DecompileError::UnexpectedInsOpcode);
                },
            },
            Op::GSET(a, d) => match string_for(consts, d.0) {
                Some(s) => {
                    self.plain(out, Insn::set_global_table_var(Expr::str(s), Expr::var(a.0)));
                },
                None => {
                    return Err(DecompileError::UnexpectedInsOpcode);
                },
            },
            Op::TGETV(a, b, c) => self.set(out, a.0, Expr::table(Expr::var(b.0), Expr::var(c.0))),
            Op::TGETS(a, b, c) => match string_for(consts, c.0) {
                Some(s) => {
                    self.set(out, a.0, Expr::table(Expr::var(b.0), Expr::str(s)));
                },
                None => {
                    return Err(DecompileError::UnexpectedInsOpcode);
                },
            },
            Op::TGETB(a, b, c) => self.set(out, a.0, Expr::table(Expr::var(b.0), Expr::lit(c.0))),
            Op::TGETR(_, _, _) | Op::TSETR(_, _, _) => self.plain(out, Insn::Unimplemented),
            Op::TSETV(a, b, c) => self.plain(
                out,
                Insn::set_table_var(Var(b.0), Expr::var(c.0), Expr::var(a.0)),
            ),
            Op::TSETS(a, b, c) => match string_for(consts, c.0) {
                Some(s) => {
                    self.plain(out, Insn::set_table_var(Var(b.0), Expr::str(s), Expr::var(a.0)));
                },
                None => {
                    return Err(DecompileError::UnexpectedInsOpcode);
                },
            },
            Op::TSETB(a, b, c) => self.plain(
                out,
                Insn::set_table_var(Var(b.0), Expr::lit(c.0), Expr::var(a.0)),
            ),
            Op::CALL(a, b, c) => self.lift_call(out, a.0, b.0, c.0, 0),
            Op::CALLM(a, b, c) => {
                let extra = self.multres;
                self.lift_call(out, a.0, b.0, c.0, extra)
            },
            Op::CALLT(a, d) => {
                let last: u32 = a.0 as u32 + if d.0 > 1 {
                    d.0 as u32 - 1
                } else {
                    0
                };
                self.plain(out, Insn::TailCall(exprs_of_slots(a.0 as u32, last)))
            },
            Op::RET(a, d) => {
                let args = if d.0 >= 2 {
                    exprs_of_slots(a.0 as u32, d.0 as u32 - 2)
                } else {
                    proof {
                        assert(slot_exprs(a.0 as int, d.0 - 2) =~= Seq::<ExprView>::empty());
                    }
                    let none: Vec<Expr> = Vec::new();
                    proof {
                        assert(views_of_exprs(none@) =~= Seq::<ExprView>::empty());
                    }
                    none
                };
                self.plain(out, Insn::Return(args))
            },
            Op::RET0(_, _) => {
                let none: Vec<Expr> = Vec::new();
                proof {
                    assert(views_of_exprs(none@) =~= Seq::<ExprView>::empty());
                }
                self.plain(out, Insn::Return(none))
            },
            Op::RET1(a, _) => {
                let mut one: Vec<Expr> = Vec::new();
                one.push(Expr::Var(Var(a.0)));
                proof {
                    assert(views_of_exprs(one@) =~= seq![ExprView::Var(a.0)]);
                }
                self.plain(out, Insn::Return(one))
            },
            Op::FORI(a, _) => self.plain(
                out,
                Insn::For(exprs_of_slots(a.0 as u32, a.0 as u32 + 2)),
            ),
            Op::LOOP(a, _) => self.plain(out, Insn::While(Expr::var(a.0))),
            _ => {
                proof {
                    lemma_registered_none(self@.slots);
                    assert(views_of_insns(out@) + Seq::<InsnView>::empty() =~= views_of_insns(
                        out@,
                    ));
                }
            },
        }
        Ok(())
    }
}

impl Lifter {
    /// Lifts a run of instruction words to statements. The lifting ends at
    /// the first instruction that cannot be lifted.
    #[verifier::rlimit(50)]
    pub fn lift_block(&mut self, words: &Vec<u32>, consts: &Vec<GlobalConst>) -> (r: Result<
        Vec<Insn>,
        DecompileError,
    >)
        ensures
            final(self)@ == lift_words(
                words@,
                crate::bytecode_reader::views_of_consts(consts@),
                old(self)@,
            ).1,
            match lift_words(
                words@,
                crate::bytecode_reader::views_of_consts(consts@),
                old(self)@,
            ).0 {
                Ok(insns) => r is Ok && views_of_insns(r->Ok_0@) == insns,
                Err(e) => r == Err::<Vec<Insn>, DecompileError>(e),
            },
    {
        let ghost pool = crate::bytecode_reader::views_of_consts(consts@);
        let ghost whole = lift_words(words@, pool, self@);
        let mut out: Vec<Insn> = Vec::new();
        let mut i: usize = 0;
        proof {
            assert(words@.skip(0) =~= words@);
            assert(views_of_insns(out@) =~= Seq::<InsnView>::empty());
            assert(Seq::<InsnView>::empty() + whole.0->Ok_0 =~= whole.0->Ok_0);
        }
        while i < words.len()
            invariant
                i <= words@.len(),
                pool == crate::bytecode_reader::views_of_consts(consts@),
                whole == lift_words(words@, pool, old(self)@),
                whole == lifted_on(
                    views_of_insns(out@),
                    lift_words(words@.skip(i as int), pool, self@),
                ),
            decreases words@.len() - i,
        {
            let ghost rest = words@.skip(i as int);
            let ghost done = views_of_insns(out@);
            let ghost state = self@;
            proof {
                assert(rest[0] == words@[i as int]);
                assert(rest.skip(1) =~= words@.skip(i + 1));
                lemma_decoded_is_narrow(words@[i as int]);
            }
            let op = disasm(words[i])?;
            self.lift_op(op, consts, &mut out)?;
            proof {
                let lifted = lift_op(op, pool, state.multres)->Ok_0;
                if let Ok(more) = lift_words(words@.skip(i + 1), pool, self@).0 {
                    assert((done + lifted.insns) + more =~= done + (lifted.insns + more));
                }
            }
            i += 1;
        }
        proof {
            assert(views_of_insns(out@) + Seq::<InsnView>::empty() =~= views_of_insns(out@));
        }
        Ok(out)
    }

    /// Lifts a prototype: a graph with the keys and edges of its
    /// control-flow graph, and in every node the statements that the
    /// instructions of the basic block stand for. The blocks are lifted in
    /// the order of their keys, up to the first instruction that cannot be
    /// lifted.
    #[verifier::rlimit(50)]
    pub fn analyze_bc_proto(&mut self, bc_proto: &ByteCodeProto) -> (r: Result<
        Graph<Block, BranchKind>,
        DecompileError,
    >)
        requires
            bc_proto.wf(),
        ensures
            final(self)@ == lift_blocks(
                bc_proto.cfg(),
                bc_proto.block_keys(),
                bc_proto@.global_consts,
                old(self)@,
            ).1,
            match lift_blocks(
                bc_proto.cfg(),
                bc_proto.block_keys(),
                bc_proto@.global_consts,
                old(self)@,
            ).0 {
                Ok(blocks) => r is Ok && r->Ok_0.wf() && r->Ok_0.key_seq() == bc_proto.block_keys()
                    && r->Ok_0@.edges == bc_proto.cfg().edges && r->Ok_0@.nodes.dom()
                    == bc_proto.cfg().nodes.dom() && blocks.len() == bc_proto.block_keys().len()
                    && (forall|i: int|
                    0 <= i < blocks.len() ==> r->Ok_0@.nodes[bc_proto.block_keys()[i]]@
                        == #[trigger] blocks[i]),
                Err(e) => r == Err::<Graph<Block, BranchKind>, DecompileError>(e),
            },
    {
        let src = bc_proto.basic_block_graph_ref();
        let consts = bc_proto.global_consts();
        let ghost cfg = bc_proto.cfg();
        let ghost keys = bc_proto.block_keys();
        let ghost pool = bc_proto@.global_consts;
        let ghost whole = lift_blocks(cfg, keys, pool, self@);
        let mut graph: Graph<Block, BranchKind> = src.structure_copy();
        let blocks = src.iter_node_weights();
        let ghost mut done: Seq<Seq<InsnView>> = Seq::empty();
        proof {
            src.lemma_wf();
            graph.lemma_wf();
            assert(graph@.edges =~= cfg.edges);
            assert(keys.skip(0) =~= keys);
            assert(Seq::<Seq<InsnView>>::empty() + whole.0->Ok_0 =~= whole.0->Ok_0);
        }
        let mut i: usize = 0;
        while i < blocks.len()
            invariant
                i <= blocks@.len(),
                blocks@.len() == keys.len(),
                forall|j: int|
                    0 <= j < blocks@.len() ==> (#[trigger] blocks@[j]).0 == keys[j] && *blocks@[j].1
                        == cfg.nodes[keys[j]],
                crate::graph::graph_impl::lists_in_order(keys, cfg.nodes.dom()),
                pool == crate::bytecode_reader::views_of_consts(consts@),
                graph.wf(),
                graph.key_seq() == keys,
                graph@.edges == cfg.edges,
                graph@.nodes.dom() == cfg.nodes.dom(),
                done.len() == i,
                cfg == bc_proto.cfg(),
                keys == bc_proto.block_keys(),
                pool == bc_proto@.global_consts,
                whole == lift_blocks(cfg, keys, pool, old(self)@),
                forall|j: int| 0 <= j < i ==> graph@.nodes[keys[j]]@ == #[trigger] done[j],
                whole == lifted_on(done, lift_blocks(cfg, keys.skip(i as int), pool, self@)),
            decreases blocks@.len() - i,
        {
            let ghost rest = keys.skip(i as int);
            let key = blocks[i].0;
            let raw = blocks[i].1;
            proof {
                assert(rest[0] == keys[i as int]);
                assert(rest.skip(1) =~= keys.skip(i + 1));
                assert(keys.contains(keys[i as int]));
            }
            let insns = self.lift_block(raw.data(), consts)?;
            let ghost lifted = views_of_insns(insns@);
            let ghost before = graph@;
            match graph.node_weight_mut(key) {
                Some(weight) => {
                    *weight = Block::from_insns(insns);
                },
                None => {},
            }
            proof {
                let old_done = done;
                done = done.push(lifted);
                assert(graph@.nodes.dom() =~= cfg.nodes.dom());
                assert forall|j: int| 0 <= j < i + 1 implies graph@.nodes[keys[j]]@
                    == #[trigger] done[j] by {
                    if j < i {
                        assert(keys[j] < keys[i as int]);
                        assert(done[j] == old_done[j]);
                    }
                }
                if let Ok(more) = lift_blocks(cfg, keys.skip(i + 1), pool, self@).0 {
                    assert((old_done + seq![lifted]) + more =~= old_done + (seq![lifted] + more));
                }
                assert(done =~= old_done + seq![lifted]);
            }
            i += 1;
        }
        proof {
            assert(done + Seq::<Seq<InsnView>>::empty() =~= done);
        }
        Ok(graph)
    }
}

} // verus!
