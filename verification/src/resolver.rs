//! Recovery of basic blocks and typed branch edges from an instruction stream.

use crate::disasm::decode;
use crate::disasm::disasm;
use crate::error::DecompileError;
use crate::graph::Graph;
use crate::graph::EdgeView;
use crate::graph::GraphView;
use crate::graph::graph_impl::with_source_moved;
use crate::graph::graph_impl::lists_in_order;
use crate::op::Op;
use crate::types::Jump;
use vstd::prelude::*;
use vstd::slice::slice_subrange;
use vstd::slice::slice_to_vec;

verus! {

/// A basic block: a run of instruction words.
#[derive(Debug)]
pub struct Block {
    data: Vec<u32>,
}

impl Clone for Block {
    fn clone(&self) -> (b: Self)
        ensures
            b@ == self@,
    {
        let data = self.data.clone();
        assert(data@ =~= self.data@);
        Block { data }
    }
}

impl View for Block {
    type V = Seq<u32>;

    closed spec fn view(&self) -> Seq<u32> {
        self.data@
    }
}

impl Block {
    #[inline(always)]
    pub fn new() -> (b: Self)
        ensures
            b@ == Seq::<u32>::empty(),
    {
        Block { data: vec![] }
    }

    #[inline(always)]
    pub fn len(&self) -> (n: usize)
        ensures
            n == self@.len(),
    {
        self.data.len()
    }

    #[inline(always)]
    pub fn from_ins_vec(data: Vec<u32>) -> (b: Self)
        ensures
            b@ == data@,
    {
        Block { data }
    }

    /// Cuts the block at `idx`: the block keeps the instructions before it,
    /// and those from `idx` on are returned as a block of their own.
    #[inline(always)]
    pub fn split(&mut self, idx: usize) -> (tail: Block)
        requires
            idx <= old(self)@.len(),
        ensures
            final(self)@ == old(self)@.subrange(0, idx as int),
            tail@ == old(self)@.subrange(idx as int, old(self)@.len() as int),
    {
        Block { data: self.data.split_off(idx) }
    }

    #[inline(always)]
    pub fn data(&self) -> (d: &Vec<u32>)
        ensures
            d@ == self@,
    {
        &self.data
    }
}

/// What an edge of the control-flow graph stands for.
#[derive(Debug, Clone, Copy, PartialEq, Eq, Structural)]
pub enum BranchKind {
    /// The branch of a conditional jump that is taken when the test holds.
    True,
    /// The way past a conditional jump.
    False,
    /// The only way on.
    Unconditional,
    /// Out of a loop, past its end.
    LoopOut,
    /// Into the body of a loop.
    LoopBody,
    /// From the set-up of an iterator loop to its test.
    LoopIter,
}

/// How the scan of a block came to its end.
#[derive(Debug, Clone, Copy, PartialEq, Eq, Structural)]
pub enum BlockExit {
    /// The next instruction already begins another block.
    Fall,
    /// A return, or the end of the instruction stream.
    Stop,
    /// A branch to `dest`. Where the branch may also be passed by, `other`
    /// is the kind of the way to the instruction behind it.
    Branch { dest: u32, taken: BranchKind, other: Option<BranchKind> },
}

/// What the scan has to do with an instruction.
pub enum Step {
    /// Nothing: go on.
    Plain,
    /// A comparison or test: a jump right behind it is conditional.
    Test,
    /// A jump that is conditional if it stands right behind a test.
    Jump(Jump),
    /// A branch of fixed kinds.
    Branch(Jump, BranchKind, Option<BranchKind>),
    /// A return.
    Return,
    /// An instruction that the analysis does not handle.
    Unsupported,
}

/// The part an instruction plays in the recovery of blocks.
pub open spec fn step_of(op: Op) -> Step {
    match op {
        Op::ISLT(_, _)
        | Op::ISGE(_, _)
        | Op::ISLE(_, _)
        | Op::ISGT(_, _)
        | Op::ISEQV(_, _)
        | Op::ISNEV(_, _)
        | Op::ISEQS(_, _)
        | Op::ISNES(_, _)
        | Op::ISEQN(_, _)
        | Op::ISNEN(_, _)
        | Op::ISEQP(_, _)
        | Op::ISNEP(_, _)
        | Op::ISTC(_, _)
        | Op::ISFC(_, _)
        | Op::IST(_)
        | Op::ISF(_) => Step::Test,
        Op::JMP(_, jump) => Step::Jump(jump),
        Op::UCLO(_, jump) => if jump.0 == 0 {
            Step::Plain
        } else {
            Step::Branch(jump, BranchKind::Unconditional, None)
        },
        Op::ISNEXT(_, jump) => Step::Branch(jump, BranchKind::LoopIter, None),
        Op::ITERL(_, jump) | Op::IITERL(_, jump) | Op::FORL(_, jump) | Op::IFORL(_, jump) => {
            Step::Branch(jump, BranchKind::LoopBody, Some(BranchKind::LoopOut))
        },
        Op::FORI(_, jump) | Op::JFORI(_, jump) => Step::Branch(
            jump,
            BranchKind::LoopOut,
            Some(BranchKind::LoopBody),
        ),
        Op::JITERL(_, _) | Op::JFORL(_, _) => Step::Unsupported,
        Op::RET(_, _) | Op::RET0(_, _) | Op::RET1(_, _) | Op::RETM(_, _) => Step::Return,
        _ => Step::Plain,
    }
}

/// The offset of an instruction that branches.
pub open spec fn branch_offset(op: Op) -> Option<Jump> {
    match step_of(op) {
        Step::Jump(jump) => Some(jump),
        Step::Branch(jump, _, _) => Some(jump),
        _ => None,
    }
}

/// Where the branch at position `cur` leads: offsets count from the
/// instruction behind the branch.
pub open spec fn jump_target(cur: int, jump: Jump) -> int {
    cur + 1 + jump.0
}

/// What is wrong with the instruction at position `i`, if anything: it does
/// not decode, the analysis does not handle it, or it branches out of the
/// stream.
pub open spec fn fault_at(bc: Seq<u32>, i: int) -> Option<DecompileError> {
    match decode(bc[i]) {
        Err(e) => Some(e),
        Ok(op) => match step_of(op) {
            Step::Unsupported => Some(DecompileError::UnexpectedInsOpcode),
            Step::Jump(jump) | Step::Branch(jump, _, _) => if 0 <= jump_target(i, jump)
                <= bc.len() {
                None
            } else {
                Some(DecompileError::InvalidJumpTarget)
            },
            _ => None,
        },
    }
}

/// Some instruction of the stream is at fault in the way that `e` names.
pub open spec fn faulty(bc: Seq<u32>, e: DecompileError) -> bool {
    exists|i: int| 0 <= i < bc.len() && fault_at(bc, i) == Some(e)
}

/// The scan of one block, from position `cur` on. `limit` is where the next
/// known block begins, and `after_test` says that the instruction before
/// `cur` belongs to the block and is a comparison or test. The result is the
/// position behind the block's last instruction, with the way the block
/// ends.
pub open spec fn scan_from(bc: Seq<u32>, cur: int, limit: Option<u32>, after_test: bool) -> Result<
    (int, BlockExit),
    DecompileError,
>
    decreases bc.len() - cur,
{
    if cur >= bc.len() {
        Ok((bc.len() as int, BlockExit::Stop))
    } else if limit == Some(cur as u32) {
        Ok((cur, BlockExit::Fall))
    } else {
        match decode(bc[cur]) {
            Err(e) => Err(e),
            Ok(op) => match step_of(op) {
                Step::Plain => scan_from(bc, cur + 1, limit, false),
                Step::Test => scan_from(bc, cur + 1, limit, true),
                Step::Unsupported => Err(DecompileError::UnexpectedInsOpcode),
                Step::Return => if cur + 1 < bc.len() {
                    match decode(bc[cur + 1]) {
                        Err(e) => Err(e),
                        Ok(next) => if next is JMP {
                            scan_from(bc, cur + 1, limit, false)
                        } else {
                            Ok((cur + 1, BlockExit::Stop))
                        },
                    }
                } else {
                    Ok((cur + 1, BlockExit::Stop))
                },
                Step::Jump(jump) => if 0 <= jump_target(cur, jump) <= bc.len() {
                    Ok(
                        (
                            cur + 1,
                            if after_test {
                                BlockExit::Branch {
                                    dest: jump_target(cur, jump) as u32,
                                    taken: BranchKind::True,
                                    other: Some(BranchKind::False),
                                }
                            } else {
                                BlockExit::Branch {
                                    dest: jump_target(cur, jump) as u32,
                                    taken: BranchKind::Unconditional,
                                    other: None,
                                }
                            },
                        ),
                    )
                } else {
                    Err(DecompileError::InvalidJumpTarget)
                },
                Step::Branch(jump, taken, other) => if 0 <= jump_target(cur, jump) <= bc.len() {
                    Ok((cur + 1, BlockExit::Branch { dest: jump_target(cur, jump) as u32, taken, other }))
                } else {
                    Err(DecompileError::InvalidJumpTarget)
                },
            },
        }
    }
}

/// The part an instruction plays in the recovery of blocks.
fn classify(op: Op) -> (s: Step)
    ensures
        s == step_of(op),
{
    match op {
        Op::ISLT(_, _)
        | Op::ISGE(_, _)
        | Op::ISLE(_, _)
        | Op::ISGT(_, _)
        | Op::ISEQV(_, _)
        | Op::ISNEV(_, _)
        | Op::ISEQS(_, _)
        | Op::ISNES(_, _)
        | Op::ISEQN(_, _)
        | Op::ISNEN(_, _)
        | Op::ISEQP(_, _)
        | Op::ISNEP(_, _)
        | Op::ISTC(_, _)
        | Op::ISFC(_, _)
        | Op::IST(_)
        | Op::ISF(_) => Step::Test,
        Op::JMP(_, jump) => Step::Jump(jump),
        Op::UCLO(_, jump) => if jump.0 == 0 {
            Step::Plain
        } else {
            Step::Branch(jump, BranchKind::Unconditional, None)
        },
        Op::ISNEXT(_, jump) => Step::Branch(jump, BranchKind::LoopIter, None),
        Op::ITERL(_, jump) | Op::IITERL(_, jump) | Op::FORL(_, jump) | Op::IFORL(_, jump) => {
            Step::Branch(jump, BranchKind::LoopBody, Some(BranchKind::LoopOut))
        },
        Op::FORI(_, jump) | Op::JFORI(_, jump) => Step::Branch(
            jump,
            BranchKind::LoopOut,
            Some(BranchKind::LoopBody),
        ),
        Op::JITERL(_, _) | Op::JFORL(_, _) => Step::Unsupported,
        Op::RET(_, _) | Op::RET0(_, _) | Op::RET1(_, _) | Op::RETM(_, _) => Step::Return,
        _ => Step::Plain,
    }
}

/// The position that the branch at `cur` leads to, if it lies in the stream
/// or right behind it.
fn branch_dest(cur: usize, jump: Jump, len: usize) -> (r: Result<u32, DecompileError>)
    requires
        cur < len <= u32::MAX,
    ensures
        r == if 0 <= jump_target(cur as int, jump) <= len {
            Ok::<u32, DecompileError>(jump_target(cur as int, jump) as u32)
        } else {
            Err::<u32, DecompileError>(DecompileError::InvalidJumpTarget)
        },
{
    let dest: i64 = cur as i64 + 1 + jump.0 as i64;
    if dest < 0 || dest > len as i64 {
        Err(DecompileError::InvalidJumpTarget)
    } else {
        Ok(dest as u32)
    }
}

/// Scans the block that begins at `start`: finds where it ends and how.
pub fn scan_block(bc_raw: &[u32], start: u32, next_block: Option<u32>) -> (r: Result<
    (u32, BlockExit),
    DecompileError,
>)
    requires
        start <= bc_raw@.len() <= u32::MAX,
    ensures
        match r {
            Ok((end, exit)) => scan_from(bc_raw@, start as int, next_block, false) == Ok::<
                (int, BlockExit),
                DecompileError,
            >((end as int, exit)),
            Err(e) => scan_from(bc_raw@, start as int, next_block, false) == Err::<
                (int, BlockExit),
                DecompileError,
            >(e),
        },
{
    let len = bc_raw.len();
    let mut cur: usize = start as usize;
    let mut after_test = false;
    while cur < len
        invariant
            start <= cur <= len,
            len == bc_raw@.len(),
            len <= u32::MAX,
            scan_from(bc_raw@, start as int, next_block, false) == scan_from(
                bc_raw@,
                cur as int,
                next_block,
                after_test,
            ),
        decreases len - cur,
    {
        if next_block == Some(cur as u32) {
            return Ok((cur as u32, BlockExit::Fall));
        }
        match classify(disasm(bc_raw[cur])?) {
            Step::Plain => {
                after_test = false;
            },
            Step::Test => {
                after_test = true;
            },
            Step::Unsupported => {
                return Err(DecompileError::UnexpectedInsOpcode);
            },
            Step::Return => {
                if cur + 1 < len {
                    if let Op::JMP(..) = disasm(bc_raw[cur + 1])? {
                        after_test = false;
                    } else {
                        return Ok(((cur + 1) as u32, BlockExit::Stop));
                    }
                } else {
                    return Ok(((cur + 1) as u32, BlockExit::Stop));
                }
            },
            Step::Jump(jump) => {
                let dest = branch_dest(cur, jump, len)?;
                return Ok(
                    (
                        (cur + 1) as u32,
                        if after_test {
                            BlockExit::Branch {
                                dest,
                                taken: BranchKind::True,
                                other: Some(BranchKind::False),
                            }
                        } else {
                            BlockExit::Branch {
                                dest,
                                taken: BranchKind::Unconditional,
                                other: None,
                            }
                        },
                    ),
                );
            },
            Step::Branch(jump, taken, other) => {
                let dest = branch_dest(cur, jump, len)?;
                return Ok(((cur + 1) as u32, BlockExit::Branch { dest, taken, other }));
            },
        }
        cur += 1;
    }
    Ok((len as u32, BlockExit::Stop))
}

/// A control-flow graph as a mathematical value: the instructions of the
/// block at every key, and the edges in the order they were added.
pub ghost struct Cfg {
    pub blocks: Map<u32, Seq<u32>>,
    pub edges: Seq<EdgeView<BranchKind>>,
}

/// The control-flow graph that a graph of blocks stands for.
pub open spec fn cfg_of(g: GraphView<Block, BranchKind>) -> Cfg {
    Cfg {
        blocks: Map::new(|k: u32| g.nodes.dom().contains(k), |k: u32| g.nodes[k]@),
        edges: g.edges,
    }
}

/// Both ends of every edge are keys of blocks.
pub open spec fn edges_join(c: Cfg) -> bool {
    forall|j: int|
        0 <= j < c.edges.len() ==> c.blocks.dom().contains(#[trigger] c.edges[j].from)
            && c.blocks.dom().contains(c.edges[j].to)
}

/// The number of instructions in the block at `k`.
pub open spec fn span(g: Cfg, k: u32) -> int {
    g.blocks[k].len() as int
}

/// The block at `k` holds position `i`. An empty block holds its own key.
pub open spec fn covers(g: Cfg, k: u32, i: int) -> bool {
    g.blocks.dom().contains(k) && k <= i && (i < k + span(g, k) || i == k)
}

/// Some block holds position `i`.
pub open spec fn covered(g: Cfg, i: int) -> bool {
    exists|k: u32| covers(g, k, i)
}

/// The positions up to `n` that no block holds.
pub open spec fn uncovered(g: Cfg, n: int) -> Set<int> {
    Set::new(|i: int| 0 <= i <= n && !covered(g, i))
}

/// The instruction at `i` branches, and `k` is where it leads or the
/// position behind it.
pub open spec fn enters(bc: Seq<u32>, i: int, k: int) -> bool {
    decode(bc[i]) matches Ok(op) && branch_offset(op) matches Some(jump) && (k == jump_target(
        i,
        jump,
    ) || k == i + 1)
}

/// Position `k` is the entry of the function, the target of a branch, or the
/// position behind a branch.
pub open spec fn is_entry(bc: Seq<u32>, k: int) -> bool {
    k == 0 || exists|i: int| 0 <= i < bc.len() && enters(bc, i, k)
}

/// The graph is a partition of part of the instruction stream `bc` into
/// blocks: every block is the run of instructions that begins at its key,
/// blocks do not overlap, only a block at the very end of the stream is
/// empty, every block begins at an entry, and every edge joins two blocks.
pub open spec fn cfg_wf(g: Cfg, bc: Seq<u32>) -> bool {
    &&& forall|k: u32| #[trigger]
        g.blocks.dom().contains(k) ==> k + span(g, k) <= bc.len() && g.blocks[k] == bc.subrange(
            k as int,
            k + span(g, k),
        )
    &&& forall|k: u32| #[trigger] g.blocks.dom().contains(k) ==> span(g, k) > 0 || k == bc.len()
    &&& forall|k: u32| #[trigger] g.blocks.dom().contains(k) ==> is_entry(bc, k as int)
    &&& forall|k1: u32, k2: u32|
        #![trigger g.blocks.dom().contains(k1), g.blocks.dom().contains(k2)]
        g.blocks.dom().contains(k1) && g.blocks.dom().contains(k2) && k1 < k2 ==> k1 + span(g, k1)
            <= k2
    &&& edges_join(g)
}

/// `g1` has every block boundary of `g0` and holds every position that `g0`
/// holds.
pub open spec fn grown(g0: Cfg, g1: Cfg) -> bool {
    &&& forall|k: u32| g0.blocks.dom().contains(k) ==> #[trigger] g1.blocks.dom().contains(k)
    &&& forall|i: int| covered(g0, i) ==> #[trigger] covered(g1, i)
}

/// The sum of the lengths of the blocks at the first `n` of `keys`.
pub open spec fn total_span(g: Cfg, keys: Seq<u32>, n: int) -> int
    decreases n,
{
    if n <= 0 {
        0
    } else {
        total_span(g, keys, n - 1) + span(g, keys[n - 1])
    }
}

/// The most instructions that a stream may hold, so that every edge of its
/// graph has an index.
pub const MAX_INSTRUCTIONS: usize = 0x3fff_ffff;

/// `p` is the greatest key that is at most `idx`.
pub open spec fn is_floor(c: Cfg, idx: u32, p: u32) -> bool {
    c.blocks.dom().contains(p) && p <= idx && forall|q: u32|
        c.blocks.dom().contains(q) && q <= idx ==> q <= p
}

/// `p` is the least key that is at least `idx`.
pub open spec fn is_ceiling(c: Cfg, idx: u32, p: u32) -> bool {
    c.blocks.dom().contains(p) && p >= idx && forall|q: u32|
        c.blocks.dom().contains(q) && q >= idx ==> q >= p
}

/// The greatest key that is at most `idx`.
pub open spec fn block_before(c: Cfg, idx: u32) -> Option<u32> {
    if exists|p: u32| is_floor(c, idx, p) {
        Some(choose|p: u32| is_floor(c, idx, p))
    } else {
        None
    }
}

/// The least key that is at least `idx`.
pub open spec fn block_after(c: Cfg, idx: u32) -> Option<u32> {
    if exists|p: u32| is_ceiling(c, idx, p) {
        Some(choose|p: u32| is_ceiling(c, idx, p))
    } else {
        None
    }
}

/// The block that holds position `idx`, if there is one: the block that
/// begins there, or the block before that reaches over it.
pub open spec fn holder(c: Cfg, idx: u32) -> Option<u32> {
    match block_before(c, idx) {
        Some(p) => if p == idx || c.blocks[p].len() > idx - p {
            Some(p)
        } else {
            None
        },
        None => None,
    }
}

/// The graph with one more edge, from the block that holds position `cur`
/// to the block at `to`.
pub open spec fn with_edge(c: Cfg, kind: BranchKind, cur: u32, to: u32) -> Cfg {
    match block_before(c, cur) {
        Some(from) => Cfg { edges: c.edges.push(EdgeView { weight: kind, from, to }), ..c },
        None => c,
    }
}

/// The graph after the block at `p` was cut at position `idx`: the block
/// keeps what lies before `idx`, a new block at `idx` has the rest and every
/// edge that left the block, and an unconditional edge joins the two.
pub open spec fn split_at(c: Cfg, p: u32, idx: u32) -> Cfg {
    Cfg {
        blocks: c.blocks.insert(p, c.blocks[p].subrange(0, idx - p)).insert(
            idx,
            c.blocks[p].subrange(idx - p, c.blocks[p].len() as int),
        ),
        edges: with_source_moved(c.edges, p, idx).push(
            EdgeView { weight: BranchKind::Unconditional, from: p, to: idx },
        ),
    }
}

/// The graph after the blocks that can be reached from position `idx` were
/// added to it. `fuel` bounds the depth of the search; a search needs no
/// more of it than there are positions that no block holds yet, and finds
/// the same with any more.
///
/// A position that begins a block changes nothing. A position inside a block
/// cuts the block. Any other position begins a new block, which is scanned
/// to its end; where it ends in a branch, the search goes on at the target
/// and adds the edge to it, and then, where the branch can be passed by, at
/// the position behind the branch.
pub open spec fn discover(c: Cfg, bc: Seq<u32>, idx: u32, fuel: nat) -> Result<Cfg, DecompileError>
    decreases fuel,
{
    if fuel == 0 {
        Ok(c)
    } else {
        match holder(c, idx) {
            Some(p) => Ok(
                if p == idx {
                    c
                } else {
                    split_at(c, p, idx)
                },
            ),
            None => match scan_from(bc, idx as int, block_after(c, idx), false) {
                Err(e) => Err(e),
                Ok((end, exit)) => {
                    let c1 = Cfg {
                        blocks: c.blocks.insert(idx, bc.subrange(idx as int, end)),
                        ..c
                    };
                    match exit {
                        BlockExit::Stop => Ok(c1),
                        BlockExit::Fall => Ok(
                            Cfg {
                                edges: c1.edges.push(
                                    EdgeView {
                                        weight: BranchKind::Unconditional,
                                        from: idx,
                                        to: end as u32,
                                    },
                                ),
                                ..c1
                            },
                        ),
                        BlockExit::Branch { dest, taken, other } => match discover(
                            c1,
                            bc,
                            dest,
                            (fuel - 1) as nat,
                        ) {
                            Err(e) => Err(e),
                            Ok(c2) => {
                                let c3 = with_edge(c2, taken, (end - 1) as u32, dest);
                                match other {
                                    None => Ok(c3),
                                    Some(kind) => match discover(
                                        c3,
                                        bc,
                                        end as u32,
                                        (fuel - 1) as nat,
                                    ) {
                                        Err(e) => Err(e),
                                        Ok(c4) => Ok(
                                            with_edge(c4, kind, (end - 1) as u32, end as u32),
                                        ),
                                    },
                                }
                            },
                        },
                    }
                },
            },
        }
    }
}

/// The control-flow graph of an instruction stream: what the search from
/// position 0 finds.
#[verifier::opaque]
pub open spec fn resolve(bc: Seq<u32>) -> Result<Cfg, DecompileError> {
    discover(Cfg { blocks: Map::empty(), edges: Seq::empty() }, bc, 0, bc.len() + 2)
}

proof fn lemma_floor(c: Cfg, idx: u32, p: u32)
    requires
        is_floor(c, idx, p),
    ensures
        block_before(c, idx) == Some(p),
{
    let q = choose|q: u32| is_floor(c, idx, q);
    assert(is_floor(c, idx, q));
    assert(q <= p && p <= q);
}

proof fn lemma_no_floor(c: Cfg, idx: u32)
    requires
        forall|k: u32| c.blocks.dom().contains(k) ==> k > idx,
    ensures
        block_before(c, idx).is_none(),
{
    if exists|p: u32| is_floor(c, idx, p) {
        let p = choose|p: u32| is_floor(c, idx, p);
        assert(c.blocks.dom().contains(p));
    }
}

proof fn lemma_ceiling(c: Cfg, idx: u32, p: u32)
    requires
        is_ceiling(c, idx, p),
    ensures
        block_after(c, idx) == Some(p),
{
    let q = choose|q: u32| is_ceiling(c, idx, q);
    assert(is_ceiling(c, idx, q));
    assert(q <= p && p <= q);
}

proof fn lemma_no_ceiling(c: Cfg, idx: u32)
    requires
        forall|k: u32| c.blocks.dom().contains(k) ==> k < idx,
    ensures
        block_after(c, idx).is_none(),
{
    if exists|p: u32| is_ceiling(c, idx, p) {
        let p = choose|p: u32| is_ceiling(c, idx, p);
        assert(c.blocks.dom().contains(p));
    }
}

/// `head` and `tail` are the two parts of `whole` before and from `at`.
spec fn cut_at(whole: Seq<u32>, at: int, head: Seq<u32>, tail: Seq<u32>) -> bool {
    head == whole.subrange(0, at) && tail == whole.subrange(at, whole.len() as int)
}

spec fn budget(g: Cfg, n: int) -> int {
    (g.edges.len() + 3 * uncovered(g, n).len()) as int
}

proof fn lemma_uncovered_finite(g: Cfg, n: int)
    requires
        0 <= n,
    ensures
        uncovered(g, n).finite(),
        uncovered(g, n).len() <= n + 1,
{
    vstd::set_lib::lemma_int_range(0, n + 1);
    let all = vstd::set_lib::set_int_range(0, n + 1);
    assert(uncovered(g, n).subset_of(all));
    vstd::set_lib::lemma_len_subset(uncovered(g, n), all);
}

proof fn lemma_uncovered_shrinks(
    g0: Cfg,
    g1: Cfg,
    n: int,
)
    requires
        0 <= n,
        forall|i: int| covered(g0, i) ==> #[trigger] covered(g1, i),
    ensures
        uncovered(g1, n).len() <= uncovered(g0, n).len(),
        forall|i: int|
            0 <= i <= n && covered(g1, i) && !covered(g0, i) ==> uncovered(g1, n).len()
                < uncovered(g0, n).len(),
{
    lemma_uncovered_finite(g0, n);
    lemma_uncovered_finite(g1, n);
    assert(uncovered(g1, n).subset_of(uncovered(g0, n)));
    vstd::set_lib::lemma_len_subset(uncovered(g1, n), uncovered(g0, n));
    assert forall|i: int| 0 <= i <= n && covered(g1, i) && !covered(g0, i) implies uncovered(
        g1,
        n,
    ).len() < uncovered(g0, n).len() by {
        let smaller = uncovered(g0, n).remove(i);
        assert(uncovered(g0, n).contains(i));
        assert(uncovered(g1, n).subset_of(smaller));
        vstd::set_lib::lemma_len_subset(uncovered(g1, n), smaller);
    }
}

/// What a scan yields lies within the stream and before the next block, and
/// a failed scan has met a faulty instruction.
proof fn lemma_scan(bc: Seq<u32>, cur: int, limit: Option<u32>, after_test: bool)
    requires
        0 <= cur <= bc.len() <= u32::MAX,
        limit matches Some(n) ==> cur <= n,
    ensures
        match scan_from(bc, cur, limit, after_test) {
            Ok((end, exit)) => {
                &&& cur <= end <= bc.len()
                &&& limit matches Some(n) ==> end <= n
                &&& exit is Fall ==> limit == Some(end as u32) && end < bc.len()
                &&& exit is Stop ==> end > cur || cur == bc.len()
                &&& exit matches BlockExit::Branch { dest, .. } ==> end > cur && dest <= bc.len()
                    && enters(bc, end - 1, dest as int) && enters(bc, end - 1, end)
            },
            Err(e) => exists|i: int| cur <= i < bc.len() && fault_at(bc, i) == Some(e),
        },
    decreases bc.len() - cur,
{
    if cur >= bc.len() {
    } else if limit == Some(cur as u32) {
    } else {
        match decode(bc[cur]) {
            Err(e) => {
                assert(fault_at(bc, cur) == Some(e));
            },
            Ok(op) => match step_of(op) {
                Step::Plain => {
                    lemma_scan(bc, cur + 1, limit, false);
                },
                Step::Test => {
                    lemma_scan(bc, cur + 1, limit, true);
                },
                Step::Unsupported => {
                    assert(fault_at(bc, cur) == Some(DecompileError::UnexpectedInsOpcode));
                },
                Step::Return => {
                    if cur + 1 < bc.len() {
                        match decode(bc[cur + 1]) {
                            Err(e) => {
                                assert(fault_at(bc, cur + 1) == Some(e));
                            },
                            Ok(next) => {
                                if next is JMP {
                                    lemma_scan(bc, cur + 1, limit, false);
                                }
                            },
                        }
                    }
                },
                Step::Jump(jump) => {
                    if !(0 <= jump_target(cur, jump) <= bc.len()) {
                        assert(fault_at(bc, cur) == Some(DecompileError::InvalidJumpTarget));
                    }
                },
                Step::Branch(jump, taken, other) => {
                    if !(0 <= jump_target(cur, jump) <= bc.len()) {
                        assert(fault_at(bc, cur) == Some(DecompileError::InvalidJumpTarget));
                    }
                },
            },
        }
    }
}

/// Cutting a block in two keeps the partition.
proof fn lemma_split_keeps(
    g0: Cfg,
    g1: Cfg,
    bc: Seq<u32>,
    prev: u32,
    idx: u32,
    head: Seq<u32>,
    tail: Seq<u32>,
)
    requires
        cfg_wf(g0, bc),
        g0.blocks.dom().contains(prev),
        prev < idx < prev + span(g0, prev),
        head == g0.blocks[prev].subrange(0, idx - prev),
        tail == g0.blocks[prev].subrange(idx - prev, span(g0, prev)),
        g1.blocks == g0.blocks.insert(prev, head).insert(idx, tail),
        edges_join(g1),
        is_entry(bc, idx as int),
    ensures
        cfg_wf(g1, bc),
        grown(g0, g1),
        forall|i: int| covered(g1, i) ==> #[trigger] covered(g0, i),
        !g0.blocks.dom().contains(idx),
{
    assert(!g0.blocks.dom().contains(idx)) by {
        if g0.blocks.dom().contains(idx) {
            assert(prev + span(g0, prev) <= idx);
        }
    }
    assert forall|k: u32| #[trigger] g1.blocks.dom().contains(k) implies k + span(g1, k) <= bc.len()
        && g1.blocks[k] == bc.subrange(k as int, k + span(g1, k)) && (span(g1, k) > 0 || k
        == bc.len()) && is_entry(bc, k as int) by {
        if k == idx || k == prev {
            assert(g0.blocks.dom().contains(prev));
            assert(g1.blocks[k] =~= bc.subrange(k as int, k + span(g1, k)));
        } else {
            assert(g0.blocks.dom().contains(k));
        }
    }
    assert forall|k1: u32, k2: u32|
        #![trigger g1.blocks.dom().contains(k1), g1.blocks.dom().contains(k2)]
        g1.blocks.dom().contains(k1) && g1.blocks.dom().contains(k2) && k1 < k2 implies k1 + span(
        g1,
        k1,
    ) <= k2 by {
        let o1 = if k1 == idx {
            prev
        } else {
            k1
        };
        let o2 = if k2 == idx {
            prev
        } else {
            k2
        };
        assert(g0.blocks.dom().contains(o1) && g0.blocks.dom().contains(o2));
        assert(g0.blocks.dom().contains(prev));
    }
    assert forall|i: int| covered(g0, i) implies #[trigger] covered(g1, i) by {
        let k = choose|k: u32| covers(g0, k, i);
        if k == prev {
            if i < idx {
                assert(covers(g1, prev, i));
            } else {
                assert(covers(g1, idx, i));
            }
        } else {
            assert(covers(g1, k, i));
        }
    }
    assert forall|i: int| covered(g1, i) implies #[trigger] covered(g0, i) by {
        let k = choose|k: u32| covers(g1, k, i);
        if k == prev || k == idx {
            assert(covers(g0, prev, i));
        } else {
            assert(covers(g0, k, i));
        }
    }
}

/// A new block on free ground keeps the partition.
proof fn lemma_emit_keeps(
    g0: Cfg,
    g1: Cfg,
    bc: Seq<u32>,
    idx: u32,
    end: int,
    block: Seq<u32>,
)
    requires
        cfg_wf(g0, bc),
        idx <= end <= bc.len(),
        end > idx || idx == bc.len(),
        block == bc.subrange(idx as int, end),
        is_entry(bc, idx as int),
        forall|k: u32| #[trigger] g0.blocks.dom().contains(k) && k <= idx ==> k + span(g0, k) <= idx
            && k != idx,
        forall|k: u32| #[trigger] g0.blocks.dom().contains(k) && k >= idx ==> end <= k,
        g1.blocks == g0.blocks.insert(idx, block),
        g1.edges == g0.edges,
    ensures
        cfg_wf(g1, bc),
        grown(g0, g1),
        covered(g1, idx as int),
        !covered(g0, idx as int),
{
    assert forall|k: u32| #[trigger] g1.blocks.dom().contains(k) implies k + span(g1, k) <= bc.len()
        && g1.blocks[k] == bc.subrange(k as int, k + span(g1, k)) && (span(g1, k) > 0 || k
        == bc.len()) && is_entry(bc, k as int) by {
        if k != idx {
            assert(g0.blocks.dom().contains(k));
        }
    }
    assert forall|k1: u32, k2: u32|
        #![trigger g1.blocks.dom().contains(k1), g1.blocks.dom().contains(k2)]
        g1.blocks.dom().contains(k1) && g1.blocks.dom().contains(k2) && k1 < k2 implies k1 + span(
        g1,
        k1,
    ) <= k2 by {
        if k1 != idx {
            assert(g0.blocks.dom().contains(k1));
        }
        if k2 != idx {
            assert(g0.blocks.dom().contains(k2));
        }
    }
    assert forall|j: int| 0 <= j < g1.edges.len() implies g1.blocks.dom().contains(
        #[trigger] g1.edges[j].from,
    ) && g1.blocks.dom().contains(g1.edges[j].to) by {
        assert(g0.blocks.dom().contains(g0.edges[j].from));
    }
    assert(edges_join(g1));
    assert forall|i: int| covered(g0, i) implies #[trigger] covered(g1, i) by {
        let k = choose|k: u32| covers(g0, k, i);
        assert(covers(g1, k, i));
    }
    assert(covers(g1, idx, idx as int));
    assert(!covered(g0, idx as int)) by {
        if covered(g0, idx as int) {
            let k = choose|k: u32| covers(g0, k, idx as int);
            assert(g0.blocks.dom().contains(k));
        }
    }
}

/// Another edge between two blocks keeps the partition.
proof fn lemma_edge_keeps(
    g0: Cfg,
    g1: Cfg,
    bc: Seq<u32>,
)
    requires
        cfg_wf(g0, bc),
        g1.blocks == g0.blocks,
        edges_join(g1),
    ensures
        cfg_wf(g1, bc),
        grown(g0, g1),
        forall|n: int| uncovered(g1, n) == uncovered(g0, n),
{
    assert forall|i: int| covered(g0, i) <==> covered(g1, i) by {
        if covered(g0, i) {
            let k = choose|k: u32| covers(g0, k, i);
            assert(covers(g1, k, i));
        }
        if covered(g1, i) {
            let k = choose|k: u32| covers(g1, k, i);
            assert(covers(g0, k, i));
        }
    }
    assert forall|n: int| uncovered(g1, n) == uncovered(g0, n) by {
        assert(uncovered(g1, n) =~= uncovered(g0, n));
    }
}

proof fn lemma_grown_trans(
    g0: Cfg,
    g1: Cfg,
    g2: Cfg,
)
    requires
        grown(g0, g1),
        grown(g1, g2),
    ensures
        grown(g0, g2),
{
}

/// Adds an edge from the block that holds position `cur` to the block at
/// `to`.
fn link(graph: &mut Graph<Block, BranchKind>, Ghost(bc): Ghost<Seq<u32>>, kind: BranchKind, cur: u32, to: u32)
    requires
        old(graph).wf(),
        cfg_wf(cfg_of(old(graph)@), bc),
        exists|k: u32| old(graph)@.nodes.dom().contains(k) && k <= cur,
        old(graph)@.nodes.dom().contains(to),
        old(graph)@.edges.len() < u32::MAX,
    ensures
        final(graph).wf(),
        cfg_wf(cfg_of(final(graph)@), bc),
        grown(cfg_of(old(graph)@), cfg_of(final(graph)@)),
        final(graph)@.nodes == old(graph)@.nodes,
        final(graph)@.edges.len() == old(graph)@.edges.len() + 1,
        forall|n: int| uncovered(cfg_of(final(graph)@), n) == uncovered(cfg_of(old(graph)@), n),
        cfg_of(final(graph)@) == with_edge(cfg_of(old(graph)@), kind, cur, to),
{
    let from = graph.try_prev_node(cur).unwrap();
    proof {
        lemma_floor(cfg_of(graph@), cur, from);
    }
    graph.add_edge(kind, from, to);
    proof {
        graph.lemma_wf();
        assert(cfg_of(graph@).blocks =~= cfg_of(old(graph)@).blocks);
        lemma_closed(graph@);
        lemma_edge_keeps(cfg_of(old(graph)@), cfg_of(graph@), bc);
    }
}

/// The edges of a graph whose edges join nodes join the blocks of its
/// control-flow graph.
proof fn lemma_closed(g: GraphView<Block, BranchKind>)
    requires
        g.edges_closed(),
    ensures
        edges_join(cfg_of(g)),
{
    assert forall|j: int| 0 <= j < g.edges.len() implies cfg_of(g).blocks.dom().contains(
        #[trigger] cfg_of(g).edges[j].from,
    ) && cfg_of(g).blocks.dom().contains(cfg_of(g).edges[j].to) by {
        assert(g.nodes.dom().contains(g.edges[j].from));
    }
}

/// Makes sure that a block begins at `idx`, and with it every block that can
/// be reached from there.
///
/// A block that already begins at `idx` is left alone. A block that holds
/// `idx` further in is cut there, and the two halves are joined by an
/// unconditional edge. Otherwise the block is scanned from `idx`, added, and
/// followed along its exits.
#[verifier::rlimit(100)]
fn recurse_block(
    graph: &mut Graph<Block, BranchKind>,
    bc_raw: &[u32],
    idx: u32,
    Ghost(fuel): Ghost<nat>,
) -> (r: Result<(), DecompileError>)
    requires
        old(graph).wf(),
        cfg_wf(cfg_of(old(graph)@), bc_raw@),
        bc_raw@.len() <= MAX_INSTRUCTIONS,
        idx <= bc_raw@.len(),
        is_entry(bc_raw@, idx as int),
        budget(cfg_of(old(graph)@), bc_raw@.len() as int) + 1 <= u32::MAX,
        fuel > uncovered(cfg_of(old(graph)@), bc_raw@.len() as int).len(),
    ensures
        match discover(cfg_of(old(graph)@), bc_raw@, idx, fuel) {
            Ok(c) => r is Ok && cfg_of(final(graph)@) == c,
            Err(e) => r == Err::<(), DecompileError>(e),
        },
        r is Ok ==> {
            &&& final(graph).wf()
            &&& cfg_wf(cfg_of(final(graph)@), bc_raw@)
            &&& grown(cfg_of(old(graph)@), cfg_of(final(graph)@))
            &&& final(graph)@.nodes.dom().contains(idx)
            &&& budget(cfg_of(final(graph)@), bc_raw@.len() as int) <= budget(
                cfg_of(old(graph)@),
                bc_raw@.len() as int,
            ) + 1
        },
        r matches Err(e) ==> faulty(bc_raw@, e),
    decreases uncovered(cfg_of(old(graph)@), bc_raw@.len() as int).len(),
{
    let ghost bc = bc_raw@;
    let ghost n = bc_raw@.len() as int;
    let ghost c0 = cfg_of(graph@);
    proof {
        lemma_uncovered_finite(c0, n);
    }
    let prev = graph.try_prev_node(idx);
    proof {
        match prev {
            Some(p) => {
                lemma_floor(c0, idx, p);
            },
            None => {
                lemma_no_floor(c0, idx);
            },
        }
    }
    if let Some(prev_idx) = prev {
        // a block already begins here
        if idx == prev_idx {
            return Ok(());
        }
        let dist = (idx - prev_idx) as usize;
        let block_len = graph.node_weight(prev_idx).unwrap().len();
        // the block before holds this position: cut it
        if block_len > dist {
            let cut = |block: &mut Block| -> (tail: Block)
                requires
                    dist <= old(block)@.len(),
                ensures
                    cut_at(old(block)@, dist as int, final(block)@, tail@),
                {
                    block.split(dist)
                };
            graph.split_node(prev_idx, idx, cut);
            let ghost c1 = cfg_of(graph@);
            proof {
                graph.lemma_wf();
                lemma_closed(graph@);
                assert(c1.blocks =~= c0.blocks.insert(prev_idx, c1.blocks[prev_idx]).insert(
                    idx,
                    c1.blocks[idx],
                ));
                lemma_split_keeps(c0, c1, bc, prev_idx, idx, c1.blocks[prev_idx], c1.blocks[idx]);
                lemma_uncovered_shrinks(c0, c1, n);
                assert(c1.edges.len() == c0.edges.len());
            }
            graph.add_edge(BranchKind::Unconditional, prev_idx, idx);
            proof {
                graph.lemma_wf();
                lemma_closed(graph@);
                assert(cfg_of(graph@).blocks =~= c1.blocks);
                lemma_edge_keeps(c1, cfg_of(graph@), bc);
                assert(cfg_of(graph@).blocks =~= split_at(c0, prev_idx, idx).blocks);
            }
            return Ok(());
        }
    }
    let next_block = graph.try_next_node(idx);
    proof {
        match next_block {
            Some(p) => {
                lemma_ceiling(c0, idx, p);
            },
            None => {
                lemma_no_ceiling(c0, idx);
            },
        }
        assert(holder(c0, idx).is_none());
        lemma_scan(bc, idx as int, next_block, false);
    }
    let (end, exit) = scan_block(bc_raw, idx, next_block)?;
    let block = Block::from_ins_vec(
        slice_to_vec(slice_subrange(bc_raw, idx as usize, end as usize)),
    );
    graph.add_node(idx, block);
    let ghost c1 = cfg_of(graph@);
    proof {
        assert forall|k: u32| #[trigger] c0.blocks.dom().contains(k) && k <= idx implies k + span(
            c0,
            k,
        ) <= idx && k != idx by {
            if let Some(p) = prev {
                assert(c0.blocks.dom().contains(p));
                assert(k <= p);
            }
        }
        assert(c1.blocks =~= c0.blocks.insert(idx, bc.subrange(idx as int, end as int)));
        lemma_emit_keeps(c0, c1, bc, idx, end as int, bc.subrange(idx as int, end as int));
        lemma_uncovered_shrinks(c0, c1, n);
        lemma_uncovered_finite(c1, n);
    }
    match exit {
        BlockExit::Fall => {
            graph.add_edge(BranchKind::Unconditional, idx, end);
            proof {
                graph.lemma_wf();
                lemma_closed(graph@);
                assert(cfg_of(graph@).blocks =~= c1.blocks);
                lemma_edge_keeps(c1, cfg_of(graph@), bc);
            }
        },
        BlockExit::Stop => {},
        BlockExit::Branch { dest, taken, other } => {
            let cur = end - 1;
            proof {
                assert(enters(bc, cur as int, dest as int));
                assert(enters(bc, cur as int, end as int));
            }
            recurse_block(graph, bc_raw, dest, Ghost((fuel - 1) as nat))?;
            let ghost c2 = cfg_of(graph@);
            proof {
                lemma_uncovered_finite(c2, n);
                assert(c2.blocks.dom().contains(idx));
            }
            link(graph, Ghost(bc), taken, cur, dest);
            let ghost c3 = cfg_of(graph@);
            proof {
                lemma_grown_trans(c0, c1, c2);
                lemma_grown_trans(c0, c2, c3);
            }
            if let Some(kind) = other {
                proof {
                    lemma_grown_trans(c1, c2, c3);
                    lemma_uncovered_shrinks(c1, c3, n);
                }
                recurse_block(graph, bc_raw, end, Ghost((fuel - 1) as nat))?;
                let ghost c4 = cfg_of(graph@);
                proof {
                    lemma_uncovered_finite(c4, n);
                    assert(c3.blocks.dom().contains(idx));
                    assert(c4.blocks.dom().contains(idx));
                }
                link(graph, Ghost(bc), kind, cur, end);
                proof {
                    lemma_grown_trans(c0, c3, c4);
                    lemma_grown_trans(c0, c4, cfg_of(graph@));
                }
            }
        },
    }
    Ok(())
}

/// Partitions an instruction stream into basic blocks and joins them by
/// edges that say how control passes from one to the next.
///
/// The analysis starts at position 0 and follows every branch. It fails only
/// on a faulty instruction: one that does not decode, one that the analysis
/// does not handle, or one that branches out of the stream.
pub fn resolve_basic_blocks(bc_raw: &[u32]) -> (r: Result<Graph<Block, BranchKind>, DecompileError>)
    requires
        bc_raw@.len() <= MAX_INSTRUCTIONS,
    ensures
        match resolve(bc_raw@) {
            Ok(c) => r is Ok && cfg_of(r->Ok_0@) == c,
            Err(e) => r == Err::<Graph<Block, BranchKind>, DecompileError>(e),
        },
        match r {
            Ok(graph) => {
                &&& graph.wf()
                &&& cfg_wf(cfg_of(graph@), bc_raw@)
                &&& graph@.nodes.dom().contains(0)
            },
            Err(e) => faulty(bc_raw@, e),
        },
{
    let mut graph: Graph<Block, BranchKind> = Graph::new();
    proof {
        reveal(resolve);
        assert(cfg_of(graph@).blocks =~= Map::<u32, Seq<u32>>::empty());
        lemma_uncovered_finite(cfg_of(graph@), bc_raw@.len() as int);
    }
    recurse_block(&mut graph, bc_raw, 0, Ghost((bc_raw@.len() + 2) as nat))?;
    Ok(graph)
}

proof fn lemma_total_span(g: Cfg, bc: Seq<u32>, keys: Seq<u32>, n: int)
    requires
        cfg_wf(g, bc),
        lists_in_order(keys, g.blocks.dom()),
        0 < n <= keys.len(),
    ensures
        total_span(g, keys, n) <= keys[n - 1] + span(g, keys[n - 1]),
    decreases n,
{
    assert(keys.contains(keys[n - 1]));
    assert(g.blocks.dom().contains(keys[n - 1]));
    if n > 1 {
        lemma_total_span(g, bc, keys, n - 1);
        assert(keys.contains(keys[n - 2]));
        assert(g.blocks.dom().contains(keys[n - 2]));
        assert(keys[n - 2] < keys[n - 1]);
    } else {
        assert(total_span(g, keys, 0) == 0);
    }
}

/// The blocks of a control-flow graph hold, taken together, no more
/// instructions than the stream has.
pub proof fn lemma_blocks_fit(g: Cfg, bc: Seq<u32>, keys: Seq<u32>)
    requires
        cfg_wf(g, bc),
        lists_in_order(keys, g.blocks.dom()),
    ensures
        total_span(g, keys, keys.len() as int) <= bc.len(),
{
    if keys.len() > 0 {
        lemma_total_span(g, bc, keys, keys.len() as int);
        let last = keys[keys.len() - 1];
        assert(keys.contains(last));
        assert(g.blocks.dom().contains(last));
    }
}

/// Every block of a control-flow graph begins at position 0, at the target
/// of a branch, or right behind a branch.
pub proof fn lemma_blocks_begin_at_entries(g: Cfg, bc: Seq<u32>, k: u32)
    requires
        cfg_wf(g, bc),
        g.blocks.dom().contains(k),
    ensures
        k == 0 || exists|i: int|
            0 <= i < bc.len() && decode(bc[i]) is Ok && branch_offset(decode(bc[i])->Ok_0) is Some
                && (k == i + 1 + branch_offset(decode(bc[i])->Ok_0)->Some_0.0 || k == i + 1),
{
    if k != 0 {
        let i = choose|i: int| 0 <= i < bc.len() && enters(bc, i, k as int);
        assert(enters(bc, i, k as int));
    }
}

/// Both ends of every edge of a control-flow graph are keys of blocks.
pub proof fn lemma_edges_join_blocks(g: Cfg, bc: Seq<u32>, j: int)
    requires
        cfg_wf(g, bc),
        0 <= j < g.edges.len(),
    ensures
        g.blocks.dom().contains(g.edges[j].from),
        g.blocks.dom().contains(g.edges[j].to),
{
    assert(g.blocks.dom().contains(g.edges[j].from));
}

/// Two blocks of a control-flow graph do not overlap: either one ends where
/// the other begins, or before.
pub proof fn lemma_blocks_apart(g: Cfg, bc: Seq<u32>, k: u32, other: u32)
    requires
        cfg_wf(g, bc),
        g.blocks.dom().contains(k),
        g.blocks.dom().contains(other),
        k != other,
    ensures
        other >= k + span(g, k) || other + span(g, other) <= k,
{
}

proof fn lemma_floor_exists(c: Cfg, idx: u32, k: u32)
    requires
        c.blocks.dom().contains(k),
        k <= idx,
    ensures
        exists|p: u32| is_floor(c, idx, p),
    decreases idx,
{
    if c.blocks.dom().contains(idx) {
        assert(is_floor(c, idx, idx));
    } else {
        let below = (idx - 1) as u32;
        lemma_floor_exists(c, below, k);
        let p = choose|p: u32| is_floor(c, below, p);
        assert(is_floor(c, idx, p));
    }
}

/// A branch to a position where a block begins cuts no block and adds no
/// block: the search from there changes nothing, and the branch adds one
/// edge, from the block that holds the branch to the block at its target.
pub proof fn lemma_jump_to_block_start(
    c: Cfg,
    bc: Seq<u32>,
    kind: BranchKind,
    cur: u32,
    dest: u32,
    fuel: nat,
)
    requires
        fuel > 0,
        c.blocks.dom().contains(dest),
        exists|k: u32| c.blocks.dom().contains(k) && k <= cur,
    ensures
        discover(c, bc, dest, fuel) == Ok::<Cfg, DecompileError>(c),
        block_before(c, cur) is Some,
        with_edge(c, kind, cur, dest) == (Cfg {
            blocks: c.blocks,
            edges: c.edges.push(
                EdgeView { weight: kind, from: block_before(c, cur)->Some_0, to: dest },
            ),
        }),
{
    assert(is_floor(c, dest, dest));
    lemma_floor(c, dest, dest);
    let k = choose|k: u32| c.blocks.dom().contains(k) && k <= cur;
    lemma_floor_exists(c, cur, k);
}

/// A branch to a position inside a block cuts that block once: the two
/// parts are the block's instructions before and from the position, the part
/// from the position is a block of its own there, and the one edge that is
/// added leads from the first part to it.
pub proof fn lemma_jump_into_block(c: Cfg, bc: Seq<u32>, idx: u32, p: u32, fuel: nat)
    requires
        fuel > 0,
        is_floor(c, idx, p),
        p < idx < p + c.blocks[p].len(),
    ensures
        discover(c, bc, idx, fuel) == Ok::<Cfg, DecompileError>(split_at(c, p, idx)),
        split_at(c, p, idx).blocks.dom() == c.blocks.dom().insert(idx),
        split_at(c, p, idx).blocks[p] + split_at(c, p, idx).blocks[idx] == c.blocks[p],
        split_at(c, p, idx).blocks[p].len() == idx - p,
        split_at(c, p, idx).edges.len() == c.edges.len() + 1,
        split_at(c, p, idx).edges.last() == (EdgeView {
            weight: BranchKind::Unconditional,
            from: p,
            to: idx,
        }),
{
    lemma_floor(c, idx, p);
    let d = split_at(c, p, idx);
    assert(d.blocks.dom() =~= c.blocks.dom().insert(idx));
    assert(d.blocks[p] + d.blocks[idx] =~= c.blocks[p]);
}

/// A return right before a jump does not end its block: the scan goes on
/// behind it.
pub proof fn lemma_return_before_jump(bc: Seq<u32>, cur: int, limit: Option<u32>, after_test: bool)
    requires
        0 <= cur,
        cur + 1 < bc.len(),
        limit != Some(cur as u32),
        decode(bc[cur]) is Ok,
        step_of(decode(bc[cur])->Ok_0) is Return,
        decode(bc[cur + 1]) is Ok,
        decode(bc[cur + 1])->Ok_0 is JMP,
    ensures
        scan_from(bc, cur, limit, after_test) == scan_from(bc, cur + 1, limit, false),
{
}

/// The end of an iterator loop leads back into the body of the loop, and
/// the way past it leads out of the loop.
pub proof fn lemma_iterator_loop_end(bc: Seq<u32>, cur: int, limit: Option<u32>, after_test: bool)
    requires
        0 <= cur < bc.len(),
        limit != Some(cur as u32),
        decode(bc[cur]) is Ok,
        decode(bc[cur])->Ok_0 is ITERL || decode(bc[cur])->Ok_0 is IITERL,
        0 <= jump_target(cur, branch_offset(decode(bc[cur])->Ok_0)->Some_0) <= bc.len(),
    ensures
        scan_from(bc, cur, limit, after_test) == Ok::<(int, BlockExit), DecompileError>(
            (
                cur + 1,
                BlockExit::Branch {
                    dest: jump_target(cur, branch_offset(decode(bc[cur])->Ok_0)->Some_0) as u32,
                    taken: BranchKind::LoopBody,
                    other: Some(BranchKind::LoopOut),
                },
            ),
        ),
{
}

/// The graph with one more edge between two of its blocks is a partition
/// as before.
proof fn lemma_with_edge(c: Cfg, bc: Seq<u32>, kind: BranchKind, cur: u32, to: u32, k: u32)
    requires
        cfg_wf(c, bc),
        c.blocks.dom().contains(k),
        k <= cur,
        c.blocks.dom().contains(to),
    ensures
        cfg_wf(with_edge(c, kind, cur, to), bc),
        grown(c, with_edge(c, kind, cur, to)),
        with_edge(c, kind, cur, to).blocks == c.blocks,
        forall|n: int| uncovered(with_edge(c, kind, cur, to), n) == uncovered(c, n),
{
    lemma_floor_exists(c, cur, k);
    let from = choose|p: u32| is_floor(c, cur, p);
    lemma_floor(c, cur, from);
    let d = with_edge(c, kind, cur, to);
    assert forall|j: int| 0 <= j < d.edges.len() implies d.blocks.dom().contains(
        #[trigger] d.edges[j].from,
    ) && d.blocks.dom().contains(d.edges[j].to) by {
        if j < c.edges.len() {
            assert(c.blocks.dom().contains(c.edges[j].from));
        }
    }
    assert(edges_join(d));
    lemma_edge_keeps(c, d, bc);
}

/// The search keeps a partition a partition, adds the block it was sent
/// for, fails only on a faulty instruction, and finds the same with any
/// fuel above the number of positions that no block holds yet.
#[verifier::rlimit(50)]
proof fn lemma_discover(c: Cfg, bc: Seq<u32>, idx: u32, fuel: nat, other: nat)
    requires
        cfg_wf(c, bc),
        bc.len() <= u32::MAX,
        idx <= bc.len(),
        is_entry(bc, idx as int),
        fuel > uncovered(c, bc.len() as int).len(),
        other > uncovered(c, bc.len() as int).len(),
    ensures
        discover(c, bc, idx, fuel) == discover(c, bc, idx, other),
        match discover(c, bc, idx, fuel) {
            Ok(d) => cfg_wf(d, bc) && grown(c, d) && d.blocks.dom().contains(idx),
            Err(e) => faulty(bc, e),
        },
    decreases uncovered(c, bc.len() as int).len(),
{
    let n = bc.len() as int;
    lemma_uncovered_finite(c, n);
    match holder(c, idx) {
        Some(p) => {
            if p != idx {
                let moved = Cfg {
                    blocks: split_at(c, p, idx).blocks,
                    edges: with_source_moved(c.edges, p, idx),
                };
                let d = split_at(c, p, idx);
                assert(is_floor(c, idx, p)) by {
                    if exists|q: u32| is_floor(c, idx, q) {
                    }
                }
                assert forall|j: int| 0 <= j < moved.edges.len() implies moved.blocks.dom().contains(
                    #[trigger] moved.edges[j].from,
                ) && moved.blocks.dom().contains(moved.edges[j].to) by {
                    assert(c.blocks.dom().contains(c.edges[j].from));
                }
                assert(edges_join(moved));
                lemma_split_keeps(c, moved, bc, p, idx, d.blocks[p], d.blocks[idx]);
                assert forall|j: int| 0 <= j < d.edges.len() implies d.blocks.dom().contains(
                    #[trigger] d.edges[j].from,
                ) && d.blocks.dom().contains(d.edges[j].to) by {
                    if j < moved.edges.len() {
                        assert(moved.blocks.dom().contains(moved.edges[j].from));
                    }
                }
                assert(edges_join(d));
                lemma_edge_keeps(moved, d, bc);
                lemma_grown_trans(c, moved, d);
            } else {
                assert(is_floor(c, idx, p)) by {
                    if exists|q: u32| is_floor(c, idx, q) {
                    }
                }
            }
        },
        None => {
            let limit = block_after(c, idx);
            if let Some(q) = limit {
                assert(is_ceiling(c, idx, q));
            }
            lemma_scan(bc, idx as int, limit, false);
            if let Ok((end, exit)) = scan_from(bc, idx as int, limit, false) {
                let block = bc.subrange(idx as int, end);
                let c1 = Cfg { blocks: c.blocks.insert(idx, block), ..c };
                assert forall|k: u32| #[trigger] c.blocks.dom().contains(k) && k <= idx implies k
                    + span(c, k) <= idx && k != idx by {
                    lemma_floor_exists(c, idx, k);
                    let p = choose|p: u32| is_floor(c, idx, p);
                    lemma_floor(c, idx, p);
                    assert(c.blocks.dom().contains(p));
                    assert(k <= p);
                }
                assert forall|k: u32| #[trigger] c.blocks.dom().contains(k) && k >= idx implies end
                    <= k by {
                    if limit is None {
                        assert(is_ceiling(c, idx, k) || exists|q: u32| is_ceiling(c, idx, q)) by {
                            lemma_ceiling_exists(c, idx, k);
                        }
                    }
                }
                lemma_emit_keeps(c, c1, bc, idx, end, block);
                lemma_uncovered_shrinks(c, c1, n);
                lemma_uncovered_finite(c1, n);
                match exit {
                    BlockExit::Stop => {},
                    BlockExit::Fall => {
                        let d = Cfg {
                            edges: c1.edges.push(
                                EdgeView {
                                    weight: BranchKind::Unconditional,
                                    from: idx,
                                    to: end as u32,
                                },
                            ),
                            ..c1
                        };
                        assert forall|j: int| 0 <= j < d.edges.len() implies d.blocks.dom().contains(
                            #[trigger] d.edges[j].from,
                        ) && d.blocks.dom().contains(d.edges[j].to) by {
                            if j < c1.edges.len() {
                                assert(c1.blocks.dom().contains(c1.edges[j].from));
                            }
                        }
                        assert(edges_join(d));
                        lemma_edge_keeps(c1, d, bc);
                        lemma_grown_trans(c, c1, d);
                    },
                    BlockExit::Branch { dest, taken, other: passed } => {
                        let cur = (end - 1) as u32;
                        assert(enters(bc, cur as int, dest as int));
                        assert(enters(bc, cur as int, end));
                        lemma_discover(c1, bc, dest, (fuel - 1) as nat, (other - 1) as nat);
                        if let Ok(c2) = discover(c1, bc, dest, (fuel - 1) as nat) {
                            lemma_uncovered_shrinks(c1, c2, n);
                            lemma_with_edge(c2, bc, taken, cur, dest, idx);
                            let c3 = with_edge(c2, taken, cur, dest);
                            lemma_grown_trans(c, c1, c2);
                            lemma_grown_trans(c, c2, c3);
                            if let Some(kind) = passed {
                                lemma_discover(
                                    c3,
                                    bc,
                                    end as u32,
                                    (fuel - 1) as nat,
                                    (other - 1) as nat,
                                );
                                if let Ok(c4) = discover(c3, bc, end as u32, (fuel - 1) as nat) {
                                    lemma_with_edge(c4, bc, kind, cur, end as u32, idx);
                                    lemma_grown_trans(c, c3, c4);
                                    lemma_grown_trans(c, c4, with_edge(c4, kind, cur, end as u32));
                                }
                            }
                        }
                    },
                }
            }
        },
    }
}

proof fn lemma_ceiling_exists(c: Cfg, idx: u32, k: u32)
    requires
        c.blocks.dom().contains(k),
        k >= idx,
    ensures
        exists|p: u32| is_ceiling(c, idx, p),
    decreases k - idx,
{
    if c.blocks.dom().contains(idx) {
        assert(is_ceiling(c, idx, idx));
    } else {
        let above = (idx + 1) as u32;
        lemma_ceiling_exists(c, above, k);
        let p = choose|p: u32| is_ceiling(c, above, p);
        assert(is_ceiling(c, idx, p));
    }
}

/// The control-flow graph of an instruction stream is a partition of part of
/// the stream with a block at position 0, there is one unless an instruction
/// is at fault, and more fuel than the stream is long finds nothing else.
pub proof fn lemma_resolve(bc: Seq<u32>, fuel: nat)
    requires
        bc.len() <= u32::MAX,
        fuel >= bc.len() + 2,
    ensures
        match resolve(bc) {
            Ok(c) => cfg_wf(c, bc) && c.blocks.dom().contains(0),
            Err(e) => faulty(bc, e),
        },
        discover(Cfg { blocks: Map::empty(), edges: Seq::empty() }, bc, 0, fuel) == resolve(bc),
{
    reveal(resolve);
    let none = Cfg { blocks: Map::empty(), edges: Seq::empty() };
    lemma_uncovered_finite(none, bc.len() as int);
    lemma_discover(none, bc, 0, bc.len() + 2, fuel);
}

} // verus!
