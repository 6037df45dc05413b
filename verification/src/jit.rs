use vstd::prelude::*;
use crate::code::EvmOp;
use crate::indexed::{opidx_offset, IndexedEvmCode, lemma_opidx_offset_injective};
use crate::interpreter::StorageMap;
use crate::word::Word;

verus! {

/// A failure while building a compiled module.
#[derive(Clone, Debug, PartialEq, Eq)]
pub enum JitEvmEngineError {
    UnknownStringError(String),
}

/// The record handed to a compiled contract: the addresses of the stack,
/// memory and storage regions, in that order.
#[derive(Clone, Copy, Debug, PartialEq, Eq, Structural)]
pub struct JitEvmExecutionContext {
    pub stack: usize,
    pub memory: usize,
    pub storage: usize,
}

/// Owns the three regions an execution context points into.
#[derive(Clone, Debug)]
pub struct JitEvmExecutionContextHolder {
    pub stack: Vec<Word>,
    pub memory: Vec<u8>,
    pub storage: StorageMap,
}

impl JitEvmExecutionContextHolder {
    /// A fresh all-zero execution state: a zeroed stack of `EVM_STACK_SIZE`
    /// words, zeroed linear memory, and empty storage.
    pub fn new_from_empty() -> (r: JitEvmExecutionContextHolder)
        ensures
            r.stack@.len() == crate::EVM_STACK_SIZE,
            forall|i: int|
                0 <= i < r.stack@.len() ==> #[trigger] r.stack@[i] == (Word {
                    d0: 0u64,
                    d1: 0u64,
                    d2: 0u64,
                    d3: 0u64,
                }),
            r.memory@.len() == crate::EVM_MEMORY_BYTES,
            forall|i: int| 0 <= i < r.memory@.len() ==> #[trigger] r.memory@[i] == 0u8,
            r.storage@ == Map::<nat, Word>::empty(),
    {
        let mut stack: Vec<Word> = Vec::new();
        let mut i: usize = 0;
        while i < crate::EVM_STACK_SIZE
            invariant
                i <= crate::EVM_STACK_SIZE,
                stack@.len() == i,
                forall|k: int|
                    0 <= k < i ==> #[trigger] stack@[k] == (Word {
                        d0: 0u64,
                        d1: 0u64,
                        d2: 0u64,
                        d3: 0u64,
                    }),
            decreases crate::EVM_STACK_SIZE - i,
        {
            stack.push(Word::zero());
            i += 1;
        }
        let mut memory: Vec<u8> = Vec::new();
        let mut j: usize = 0;
        while j < crate::EVM_MEMORY_BYTES
            invariant
                j <= crate::EVM_MEMORY_BYTES,
                memory@.len() == j,
                forall|k: int| 0 <= k < j ==> #[trigger] memory@[k] == 0u8,
            decreases crate::EVM_MEMORY_BYTES - j,
        {
            memory.push(0u8);
            j += 1;
        }
        JitEvmExecutionContextHolder { stack, memory, storage: StorageMap::new() }
    }
}

/// What one emitted basic block computes before its terminator. The three
/// bookkeeping values (stack base, stack pointer, status) enter every block
/// as phi nodes and leave through the terminator's registered edges.
#[derive(Clone, Copy, Debug, PartialEq, Eq, Structural)]
pub enum JitBlockOp {
    /// No instructions: the block only merges bookkeeping and terminates.
    Empty,
    /// Load the stack pointer from the execution context.
    Setup,
    /// Materialize a 256-bit constant and push it.
    PushWord(Word),
    /// Push a small constant (the ISZERO result tails).
    PushConst(u64),
    /// Pop and discard.
    PopDiscard,
    /// Pop two operands (the first popped is the first argument) and push
    /// the result of the instruction's two-operand kernel operation.
    BinaryNative(EvmOp),
    /// Pop one operand and push the result of the instruction's unary
    /// kernel operation.
    UnaryNative(EvmOp),
    /// Pop one value; the terminator branches on whether it is nonzero.
    PopBranchValue,
    /// Pop the branch target; the terminator compares it in the jump chain.
    PopJumpTarget,
    /// Pop the branch target, then the condition.
    PopJumpTargetAndCond,
    /// Duplicate the element `i` positions below the top (memcpy form).
    Dup(u64),
    /// Exchange the top with the element `i` positions below it.
    Swap(u64),
    /// Call the SLOAD host callback; the stack pointer is unchanged.
    CallSload,
    /// Call the SSTORE host callback, then drop its two operands.
    CallSstore,
    /// Compare the already-popped jump target against one JUMPDEST offset.
    JumpChainCmp(u64),
}

/// How one emitted basic block ends. Every listed successor is one
/// control-flow edge, and the module keeps one phi-incoming registration
/// per edge.
#[derive(Clone, Copy, Debug, PartialEq, Eq, Structural)]
pub enum JitTerm {
    /// Unconditional branch.
    Branch(usize),
    /// Branch to `then_block` when the block's compared offset equals the
    /// popped target, else to `else_block` (the jump-chain step).
    CondBranchEq { then_block: usize, else_block: usize },
    /// Branch to `then_block` when the popped value is nonzero, else fall
    /// through to `else_block`.
    CondBranchNonzero { then_block: usize, else_block: usize },
    /// Return a constant status code.
    ReturnConst(u64),
    /// Return the accumulated status phi (the end block).
    ReturnPhi,
}

/// One emitted basic block: its computation and its terminator, if already
/// sealed.
#[derive(Clone, Copy, Debug, PartialEq, Eq, Structural)]
pub struct JitEvmEngineSimpleBlock {
    pub body: JitBlockOp,
    pub term: Option<JitTerm>,
}

/// One phi-incoming registration: the three bookkeeping values flow from
/// block `pred` into the phis of block `succ`.
#[derive(Clone, Copy, Debug, PartialEq, Eq, Structural)]
pub struct JitPhiEdge {
    pub pred: usize,
    pub succ: usize,
}

/// The number of control-flow edges from a block with terminator `t` to
/// block `s`.
pub open spec fn term_edge_count(t: Option<JitTerm>, s: int) -> nat {
    match t {
        None => 0,
        Some(JitTerm::Branch(b)) => if b == s {
            1nat
        } else {
            0nat
        },
        Some(JitTerm::CondBranchEq { then_block, else_block }) => (if then_block == s {
            1nat
        } else {
            0nat
        }) + (if else_block == s {
            1nat
        } else {
            0nat
        }),
        Some(JitTerm::CondBranchNonzero { then_block, else_block }) => (if then_block == s {
            1nat
        } else {
            0nat
        }) + (if else_block == s {
            1nat
        } else {
            0nat
        }),
        Some(JitTerm::ReturnConst(_)) => 0,
        Some(JitTerm::ReturnPhi) => 0,
    }
}

/// The number of registered phi incomings from `p` to `s`.
pub open spec fn edge_count(edges: Seq<JitPhiEdge>, p: int, s: int) -> nat
    decreases edges.len(),
{
    if edges.len() == 0 {
        0
    } else {
        edge_count(edges.drop_last(), p, s) + (if edges.last().pred == p && edges.last().succ == s {
            1nat
        } else {
            0nat
        })
    }
}

proof fn lemma_edge_count_push(edges: Seq<JitPhiEdge>, e: JitPhiEdge, p: int, s: int)
    ensures
        edge_count(edges.push(e), p, s) == edge_count(edges, p, s) + (if e.pred == p && e.succ == s {
            1nat
        } else {
            0nat
        }),
{
    assert(edges.push(e).drop_last() =~= edges);
}

/// The successors a terminator names all exist.
pub open spec fn term_targets_ok(t: Option<JitTerm>, len: int) -> bool {
    match t {
        None => true,
        Some(JitTerm::Branch(b)) => b < len,
        Some(JitTerm::CondBranchEq { then_block, else_block }) => then_block < len && else_block
            < len,
        Some(JitTerm::CondBranchNonzero { then_block, else_block }) => then_block < len
            && else_block < len,
        Some(JitTerm::ReturnConst(_)) => true,
        Some(JitTerm::ReturnPhi) => true,
    }
}

/// The phi discipline: every block's terminator names existing blocks, and
/// each target's phis have exactly one incoming registration per
/// control-flow edge — no more, no fewer.
pub open spec fn module_wf(m: JitEvmEngine) -> bool {
    &&& forall|p: int|
        0 <= p < m.blocks@.len() ==> term_targets_ok(
            #[trigger] m.blocks@[p].term,
            m.blocks@.len() as int,
        )
    &&& forall|i: int|
        0 <= i < m.edges@.len() ==> (#[trigger] m.edges@[i]).pred < m.blocks@.len()
            && m.edges@[i].succ < m.blocks@.len()
    &&& forall|p: int, s: int|
        0 <= p < m.blocks@.len() && 0 <= s < m.blocks@.len() ==> #[trigger] edge_count(
            m.edges@,
            p,
            s,
        ) == term_edge_count(m.blocks@[p].term, s)
}

/// Every block has been sealed with a terminator.
pub open spec fn module_complete(m: JitEvmEngine) -> bool {
    forall|p: int| 0 <= p < m.blocks@.len() ==> (#[trigger] m.blocks@[p].term) is Some
}

/// A module under construction: the emitted blocks and the registered
/// phi-incoming edges.
#[derive(Clone, Debug)]
pub struct JitEvmEngine {
    pub blocks: Vec<JitEvmEngineSimpleBlock>,
    pub edges: Vec<JitPhiEdge>,
}

/// `m2` extends `m1`: every block of `m1` is unchanged in `m2`.
pub open spec fn module_extends(m1: JitEvmEngine, m2: JitEvmEngine) -> bool {
    &&& m1.blocks@.len() <= m2.blocks@.len()
    &&& forall|i: int| 0 <= i < m1.blocks@.len() ==> #[trigger] m2.blocks@[i] == m1.blocks@[i]
}

impl JitEvmEngine {
    pub fn new() -> (r: JitEvmEngine)
        ensures
            r.blocks@.len() == 0,
            r.edges@.len() == 0,
            module_wf(r),
    {
        JitEvmEngine { blocks: Vec::new(), edges: Vec::new() }
    }

    /// Append a new, unsealed block.
    fn add_block(&mut self, body: JitBlockOp) -> (r: usize)
        requires
            module_wf(*old(self)),
        ensures
            module_wf(*final(self)),
            r == old(self).blocks@.len(),
            final(self).blocks@ == old(self).blocks@.push(
                JitEvmEngineSimpleBlock { body, term: None },
            ),
            final(self).edges == old(self).edges,
    {
        let r = self.blocks.len();
        self.blocks.push(JitEvmEngineSimpleBlock { body, term: None });
        proof {
            let m = *self;
            assert forall|p: int, s: int|
                0 <= p < m.blocks@.len() && 0 <= s < m.blocks@.len() implies edge_count(
                m.edges@,
                p,
                s,
            ) == term_edge_count(m.blocks@[p].term, s) by {
                if p >= old(self).blocks@.len() || s >= old(self).blocks@.len() {
                    lemma_edge_count_zero_out_of_range(
                        m.edges@,
                        p,
                        s,
                        old(self).blocks@.len() as int,
                    );
                }
            }
        }
        r
    }

    /// Seal a block with its terminator and register the phi incomings of
    /// every edge the terminator creates.
    fn seal(&mut self, from: usize, t: JitTerm)
        requires
            module_wf(*old(self)),
            from < old(self).blocks@.len(),
            old(self).blocks@[from as int].term is None,
            term_targets_ok(Some(t), old(self).blocks@.len() as int),
        ensures
            module_wf(*final(self)),
            final(self).blocks@ == old(self).blocks@.update(
                from as int,
                JitEvmEngineSimpleBlock {
                    body: old(self).blocks@[from as int].body,
                    term: Some(t),
                },
            ),
            module_extends_except(*old(self), *final(self), from as int),
    {
        let body = self.blocks[from].body;
        self.blocks[from] = JitEvmEngineSimpleBlock { body, term: Some(t) };
        let ghost edges0 = self.edges@;
        match t {
            JitTerm::Branch(b) => {
                self.edges.push(JitPhiEdge { pred: from, succ: b });
            },
            JitTerm::CondBranchEq { then_block, else_block } => {
                self.edges.push(JitPhiEdge { pred: from, succ: then_block });
                self.edges.push(JitPhiEdge { pred: from, succ: else_block });
            },
            JitTerm::CondBranchNonzero { then_block, else_block } => {
                self.edges.push(JitPhiEdge { pred: from, succ: then_block });
                self.edges.push(JitPhiEdge { pred: from, succ: else_block });
            },
            JitTerm::ReturnConst(_) => {},
            JitTerm::ReturnPhi => {},
        }
        proof {
            let m = *self;
            assert forall|p: int, s: int|
                0 <= p < m.blocks@.len() && 0 <= s < m.blocks@.len() implies edge_count(
                m.edges@,
                p,
                s,
            ) == term_edge_count(m.blocks@[p].term, s) by {
                match t {
                    JitTerm::Branch(b) => {
                        lemma_edge_count_push(edges0, JitPhiEdge { pred: from, succ: b }, p, s);
                    },
                    JitTerm::CondBranchEq { then_block, else_block } => {
                        lemma_edge_count_push(
                            edges0,
                            JitPhiEdge { pred: from, succ: then_block },
                            p,
                            s,
                        );
                        lemma_edge_count_push(
                            edges0.push(JitPhiEdge { pred: from, succ: then_block }),
                            JitPhiEdge { pred: from, succ: else_block },
                            p,
                            s,
                        );
                    },
                    JitTerm::CondBranchNonzero { then_block, else_block } => {
                        lemma_edge_count_push(
                            edges0,
                            JitPhiEdge { pred: from, succ: then_block },
                            p,
                            s,
                        );
                        lemma_edge_count_push(
                            edges0.push(JitPhiEdge { pred: from, succ: then_block }),
                            JitPhiEdge { pred: from, succ: else_block },
                            p,
                            s,
                        );
                    },
                    JitTerm::ReturnConst(_) => {},
                    JitTerm::ReturnPhi => {},
                }
            }
        }
    }
}

impl JitEvmEngine {
    /// Emit the linear comparison chain for one JUMP/JUMPI: one block per
    /// JUMPDEST, each comparing the popped target against that JUMPDEST's
    /// byte offset. Returns the chain's first block.
    fn build_chain(&mut self, code: &IndexedEvmCode, jds: &Vec<usize>) -> (c: usize)
        requires
            module_wf(*old(self)),
            code.wf(),
            jds@ == jumpdest_seq(code.code.ops@),
            jds@.len() > 0,
            old(self).blocks@.len() >= code.code.ops@.len() + 3,
        ensures
            module_wf(*final(self)),
            c == old(self).blocks@.len(),
            final(self).blocks@.len() == old(self).blocks@.len() + jds@.len(),
            forall|i: int|
                0 <= i < old(self).blocks@.len() ==> #[trigger] final(self).blocks@[i] == old(
                    self,
                ).blocks@[i],
            chain_ok(*final(self), c as int, jds@, code.code.ops@),
            forall|p: int|
                c <= p < final(self).blocks@.len() ==> (#[trigger] final(self).blocks@[p].term)
                    is Some,
    {
        let ghost ops = code.code.ops@;
        let m_ = jds.len();
        let n = code.code.ops.len();
        let c = self.blocks.len();
        proof {
            lemma_jumpdest_seq_bounds(ops);
        }
        let mut j: usize = 0;
        while j < m_
            invariant
                module_wf(*self),
                code.wf(),
                jds@ == jumpdest_seq(ops),
                ops == code.code.ops@,
                m_ == jds@.len(),
                n == ops.len(),
                c == old(self).blocks@.len() >= n + 3,
                j <= m_,
                self.blocks@.len() == c + j,
                forall|i: int|
                    0 <= i < c ==> #[trigger] self.blocks@[i] == old(self).blocks@[i],
                forall|jj: int|
                    0 <= jj < j ==> #[trigger] self.blocks@[c + jj] == (JitEvmEngineSimpleBlock {
                        body: JitBlockOp::JumpChainCmp(opidx_offset(ops, jds@[jj] as int) as u64),
                        term: None,
                    }),
                forall|k: int|
                    0 <= k < jds@.len() ==> (#[trigger] jds@[k]) < n && ops[jds@[k] as int]
                        == EvmOp::Jumpdest,
            decreases m_ - j,
        {
            let target_off = code.opidx2target[jds[j]];
            self.add_block(JitBlockOp::JumpChainCmp(target_off as u64));
            j += 1;
        }
        let total = self.blocks.len();
        let mut j2: usize = 0;
        while j2 < m_
            invariant
                module_wf(*self),
                code.wf(),
                jds@ == jumpdest_seq(ops),
                ops == code.code.ops@,
                m_ == jds@.len(),
                n == ops.len(),
                c == old(self).blocks@.len() >= n + 3,
                j2 <= m_,
                total == c + m_,
                self.blocks@.len() == c + m_,
                forall|i: int|
                    0 <= i < c ==> #[trigger] self.blocks@[i] == old(self).blocks@[i],
                forall|jj: int|
                    0 <= jj < j2 ==> #[trigger] self.blocks@[c + jj] == (JitEvmEngineSimpleBlock {
                        body: JitBlockOp::JumpChainCmp(opidx_offset(ops, jds@[jj] as int) as u64),
                        term: Some(
                            JitTerm::CondBranchEq {
                                then_block: jds@[jj],
                                else_block: if jj + 1 < jds@.len() {
                                    (c + jj + 1) as usize
                                } else {
                                    (n + 1) as usize
                                },
                            },
                        ),
                    }),
                forall|jj: int|
                    j2 <= jj < m_ ==> #[trigger] self.blocks@[c + jj] == (JitEvmEngineSimpleBlock {
                        body: JitBlockOp::JumpChainCmp(opidx_offset(ops, jds@[jj] as int) as u64),
                        term: None,
                    }),
                forall|k: int|
                    0 <= k < jds@.len() ==> (#[trigger] jds@[k]) < n && ops[jds@[k] as int]
                        == EvmOp::Jumpdest,
            decreases m_ - j2,
        {
            let then_b = jds[j2];
            let else_b = if j2 + 1 < m_ {
                c + j2 + 1
            } else {
                n + 1
            };
            self.seal(
                c + j2,
                JitTerm::CondBranchEq { then_block: then_b, else_block: else_b },
            );
            j2 += 1;
        }
        proof {
            assert forall|p: int| c <= p < self.blocks@.len() implies (
            #[trigger] self.blocks@[p].term) is Some by {
                let jj = p - c;
                assert(self.blocks@[c + jj].term is Some);
            }
        }
        c
    }
}

/// Whether this compiler can lower the instruction (the executable
/// counterpart of `jit_supported`).
pub fn jit_supports(op: &EvmOp) -> (r: bool)
    ensures
        r == jit_supported(*op),
{
    match op {
        EvmOp::Stop | EvmOp::Return | EvmOp::Revert | EvmOp::Invalid | EvmOp::Push(_, _)
            | EvmOp::Pop | EvmOp::Jumpdest | EvmOp::Sload | EvmOp::Sstore | EvmOp::Jump
            | EvmOp::Jumpi | EvmOp::Iszero | EvmOp::Not | EvmOp::Add | EvmOp::Mul
            | EvmOp::Sub | EvmOp::Div | EvmOp::Sdiv | EvmOp::Mod | EvmOp::Exp | EvmOp::Lt
            | EvmOp::Gt | EvmOp::Slt | EvmOp::Sgt | EvmOp::Eq | EvmOp::And | EvmOp::Or
            | EvmOp::Shl | EvmOp::Shr | EvmOp::AugmentedPushJump(_, _)
            | EvmOp::AugmentedPushJumpi(_, _) | EvmOp::Swap1 | EvmOp::Swap2 | EvmOp::Swap3 | EvmOp::Swap4 | EvmOp::Swap5
            | EvmOp::Swap6 | EvmOp::Swap7 | EvmOp::Swap8 | EvmOp::Swap9 | EvmOp::Swap10
            | EvmOp::Swap11 | EvmOp::Swap12 | EvmOp::Swap13 | EvmOp::Swap14 | EvmOp::Swap15
            | EvmOp::Swap16 | EvmOp::Dup1 | EvmOp::Dup2 | EvmOp::Dup3 | EvmOp::Dup4
            | EvmOp::Dup5 | EvmOp::Dup6 | EvmOp::Dup7 | EvmOp::Dup8 | EvmOp::Dup9
            | EvmOp::Dup10 | EvmOp::Dup11 | EvmOp::Dup12 | EvmOp::Dup13 | EvmOp::Dup14
            | EvmOp::Dup15 | EvmOp::Dup16 => true,
        _ => false,
    }
}

/// The executable counterpart of `body_of`.
fn block_body_of(op: &EvmOp) -> (r: JitBlockOp)
    ensures
        r == body_of(*op),
{
    match op {
        EvmOp::Stop => JitBlockOp::Empty,
        EvmOp::Push(_, v) => JitBlockOp::PushWord(*v),
        EvmOp::Pop => JitBlockOp::PopDiscard,
        EvmOp::Jumpdest => JitBlockOp::Empty,
        EvmOp::Sload => JitBlockOp::CallSload,
        EvmOp::Sstore => JitBlockOp::CallSstore,
        EvmOp::Jump => JitBlockOp::PopJumpTarget,
        EvmOp::Jumpi => JitBlockOp::PopJumpTargetAndCond,
        EvmOp::Iszero => JitBlockOp::PopBranchValue,
        EvmOp::Not => JitBlockOp::UnaryNative(EvmOp::Not),
        EvmOp::Add | EvmOp::Mul | EvmOp::Sub | EvmOp::Div | EvmOp::Sdiv | EvmOp::Mod
            | EvmOp::Exp | EvmOp::Lt | EvmOp::Gt | EvmOp::Slt | EvmOp::Sgt | EvmOp::Eq
            | EvmOp::And | EvmOp::Or | EvmOp::Shl | EvmOp::Shr => JitBlockOp::BinaryNative(*op),
        EvmOp::AugmentedPushJump(_, _) => JitBlockOp::Empty,
        EvmOp::AugmentedPushJumpi(_, _) => JitBlockOp::PopBranchValue,
        EvmOp::Swap1 => JitBlockOp::Swap(2),
        EvmOp::Swap2 => JitBlockOp::Swap(3),
        EvmOp::Swap3 => JitBlockOp::Swap(4),
        EvmOp::Swap4 => JitBlockOp::Swap(5),
        EvmOp::Swap5 => JitBlockOp::Swap(6),
        EvmOp::Swap6 => JitBlockOp::Swap(7),
        EvmOp::Swap7 => JitBlockOp::Swap(8),
        EvmOp::Swap8 => JitBlockOp::Swap(9),
        EvmOp::Swap9 => JitBlockOp::Swap(10),
        EvmOp::Swap10 => JitBlockOp::Swap(11),
        EvmOp::Swap11 => JitBlockOp::Swap(12),
        EvmOp::Swap12 => JitBlockOp::Swap(13),
        EvmOp::Swap13 => JitBlockOp::Swap(14),
        EvmOp::Swap14 => JitBlockOp::Swap(15),
        EvmOp::Swap15 => JitBlockOp::Swap(16),
        EvmOp::Swap16 => JitBlockOp::Swap(17),
        EvmOp::Dup1 => JitBlockOp::Dup(1),
        EvmOp::Dup2 => JitBlockOp::Dup(2),
        EvmOp::Dup3 => JitBlockOp::Dup(3),
        EvmOp::Dup4 => JitBlockOp::Dup(4),
        EvmOp::Dup5 => JitBlockOp::Dup(5),
        EvmOp::Dup6 => JitBlockOp::Dup(6),
        EvmOp::Dup7 => JitBlockOp::Dup(7),
        EvmOp::Dup8 => JitBlockOp::Dup(8),
        EvmOp::Dup9 => JitBlockOp::Dup(9),
        EvmOp::Dup10 => JitBlockOp::Dup(10),
        EvmOp::Dup11 => JitBlockOp::Dup(11),
        EvmOp::Dup12 => JitBlockOp::Dup(12),
        EvmOp::Dup13 => JitBlockOp::Dup(13),
        EvmOp::Dup14 => JitBlockOp::Dup(14),
        EvmOp::Dup15 => JitBlockOp::Dup(15),
        EvmOp::Dup16 => JitBlockOp::Dup(16),
        _ => JitBlockOp::Empty,
    }
}

impl JitEvmEngine {
    /// Lower an indexed code to a complete control-flow graph: one block per
    /// instruction in source order, a setup block, an end block returning
    /// the status phi, and an error-jumpdest block returning 1. Terminal
    /// instructions emit their own terminator and are never followed by an
    /// implicit fall-through; fused branches are resolved statically; and
    /// every emitted edge registers the phi incomings of its target.
    pub fn jit_compile_contract(code: &IndexedEvmCode) -> (r: Result<
        JitEvmEngine,
        JitEvmEngineError,
    >)
        requires
            code.wf(),
            code.code.ops@.len() > 0,
            forall|i: int|
                0 <= i < code.code.ops@.len() ==> jit_supported(#[trigger] code.code.ops@[i]),
        ensures
            r matches Ok(m) ==> module_wf(m) && module_complete(m) && module_layout(
                m,
                code.code.ops@,
            ),
            r is Ok,
    {
        let ghost ops = code.code.ops@;
        let n = code.code.ops.len();
        let mut engine = JitEvmEngine::new();

        // One block per instruction, in source order.
        let mut i: usize = 0;
        while i < n
            invariant
                module_wf(engine),
                ops == code.code.ops@,
                n == ops.len(),
                i <= n,
                engine.blocks@.len() == i,
                forall|k: int|
                    0 <= k < i ==> #[trigger] engine.blocks@[k] == (JitEvmEngineSimpleBlock {
                        body: body_of(ops[k]),
                        term: None,
                    }),
            decreases n - i,
        {
            let b = block_body_of(&code.code.ops[i]);
            engine.add_block(b);
            i += 1;
        }

        // The end, error-jumpdest and setup handlers.
        let end = engine.add_block(JitBlockOp::Empty);
        let err_b = engine.add_block(JitBlockOp::Empty);
        let setup = engine.add_block(JitBlockOp::Setup);
        engine.seal(end, JitTerm::ReturnPhi);
        engine.seal(err_b, JitTerm::ReturnConst(1));
        engine.seal(setup, JitTerm::Branch(0));

        // The JUMPDEST positions, in ascending order.
        let mut jds: Vec<usize> = Vec::new();
        let mut i2: usize = 0;
        while i2 < n
            invariant
                ops == code.code.ops@,
                n == ops.len(),
                i2 <= n,
                jds@ == jumpdest_seq(ops.take(i2 as int)),
            decreases n - i2,
        {
            proof {
                assert(ops.take(i2 + 1).drop_last() =~= ops.take(i2 as int));
                assert(ops.take(i2 + 1).last() == ops[i2 as int]);
            }
            if code.code.ops[i2].is_jumpdest_op() {
                jds.push(i2);
            }
            i2 += 1;
        }
        proof {
            assert(ops.take(n as int) =~= ops);
            lemma_jumpdest_seq_bounds(ops);
        }

        // Render each instruction's terminator (and synthesized blocks).
        let mut i3: usize = 0;
        while i3 < n
            invariant
                module_wf(engine),
                code.wf(),
                ops == code.code.ops@,
                n == ops.len(),
                i3 <= n,
                forall|k: int|
                    0 <= k < ops.len() ==> jit_supported(#[trigger] ops[k]),
                jds@ == jumpdest_seq(ops),
                err_b == n + 1,
                engine.blocks@.len() >= n + 3,
                forall|k: int|
                    0 <= k < n ==> #[trigger] engine.blocks@[k].body == body_of(ops[k]),
                forall|k: int|
                    i3 <= k < n ==> #[trigger] engine.blocks@[k].term is None,
                engine.blocks@[n as int] == (JitEvmEngineSimpleBlock {
                    body: JitBlockOp::Empty,
                    term: Some(JitTerm::ReturnPhi),
                }),
                engine.blocks@[n + 1] == (JitEvmEngineSimpleBlock {
                    body: JitBlockOp::Empty,
                    term: Some(JitTerm::ReturnConst(1)),
                }),
                engine.blocks@[n + 2] == (JitEvmEngineSimpleBlock {
                    body: JitBlockOp::Setup,
                    term: Some(JitTerm::Branch(0)),
                }),
                forall|k: int| 0 <= k < i3 ==> #[trigger] op_lowering_ok(engine, ops, k),
                forall|p: int|
                    n + 3 <= p < engine.blocks@.len() ==> (#[trigger] engine.blocks@[p].term)
                        is Some,
            decreases n - i3,
        {
            let ghost m_before = engine;
            let op = code.code.ops[i3];
            let next = if i3 + 1 == n {
                n
            } else {
                i3 + 1
            };
            match op {
                EvmOp::Stop => {
                    engine.seal(i3, JitTerm::ReturnConst(0));
                },
                EvmOp::Return => {
                    engine.seal(i3, JitTerm::ReturnConst(0));
                },
                EvmOp::Revert => {
                    engine.seal(i3, JitTerm::ReturnConst(2));
                },
                EvmOp::Invalid => {
                    engine.seal(i3, JitTerm::ReturnConst(3));
                },
                EvmOp::Jump => {
                    if jds.len() == 0 {
                        engine.seal(i3, JitTerm::Branch(err_b));
                    } else {
                        let c = engine.build_chain(code, &jds);
                        let ghost m_chain = engine;
                        engine.seal(i3, JitTerm::Branch(c));
                        proof {
                            assert(chain_ok(engine, c as int, jds@, ops)) by {
                                assert forall|j: int| 0 <= j < jds@.len() implies #[trigger] engine.blocks@[c
                                    + j] == m_chain.blocks@[c + j] by {}
                            }
                        }
                    }
                },
                EvmOp::Jumpi => {
                    if jds.len() == 0 {
                        engine.seal(
                            i3,
                            JitTerm::CondBranchNonzero { then_block: err_b, else_block: next },
                        );
                    } else {
                        let c = engine.build_chain(code, &jds);
                        let ghost m_chain = engine;
                        engine.seal(
                            i3,
                            JitTerm::CondBranchNonzero { then_block: c, else_block: next },
                        );
                        proof {
                            assert(chain_ok(engine, c as int, jds@, ops)) by {
                                assert forall|j: int| 0 <= j < jds@.len() implies #[trigger] engine.blocks@[c
                                    + j] == m_chain.blocks@[c + j] by {}
                            }
                        }
                    }
                },
                EvmOp::Iszero => {
                    let p0 = engine.add_block(JitBlockOp::PushConst(0));
                    let p1 = engine.add_block(JitBlockOp::PushConst(1));
                    engine.seal(p0, JitTerm::Branch(next));
                    engine.seal(p1, JitTerm::Branch(next));
                    engine.seal(
                        i3,
                        JitTerm::CondBranchNonzero { then_block: p0, else_block: p1 },
                    );
                    proof {
                        assert(engine.blocks@[p0 as int] == (JitEvmEngineSimpleBlock {
                            body: JitBlockOp::PushConst(0),
                            term: Some(JitTerm::Branch(next)),
                        }));
                        assert(engine.blocks@[p1 as int] == (JitEvmEngineSimpleBlock {
                            body: JitBlockOp::PushConst(1),
                            term: Some(JitTerm::Branch(next)),
                        }));
                    }
                },
                EvmOp::AugmentedPushJump(_, val) => {
                    let dest = Self::resolve_static(code, &val);
                    engine.seal(i3, JitTerm::Branch(dest));
                },
                EvmOp::AugmentedPushJumpi(_, val) => {
                    let dest = Self::resolve_static(code, &val);
                    engine.seal(
                        i3,
                        JitTerm::CondBranchNonzero { then_block: dest, else_block: next },
                    );
                },
                _ => {
                    engine.seal(i3, JitTerm::Branch(next));
                },
            }
            proof {
                assert forall|k: int| 0 <= k < i3 + 1 implies #[trigger] op_lowering_ok(
                    engine,
                    ops,
                    k,
                ) by {
                    if k < i3 {
                        lemma_lowering_frame(m_before, engine, ops, k);
                    }
                }
            }
            i3 += 1;
        }
        proof {
            assert(module_complete(engine)) by {
                assert forall|p: int| 0 <= p < engine.blocks@.len() implies (
                #[trigger] engine.blocks@[p].term) is Some by {
                    if p < n {
                        assert(op_lowering_ok(engine, ops, p));
                    }
                }
            }
        }
        Ok(engine)
    }

    /// Resolve a fused branch's constant target: the block of the
    /// instruction at that byte offset if it is a JUMPDEST, else the end
    /// block.
    fn resolve_static(code: &IndexedEvmCode, val: &Word) -> (r: usize)
        requires
            code.wf(),
        ensures
            r == match static_target(code.code.ops@, *val) {
                Some(t) => t,
                None => code.code.ops@.len() as usize,
            },
    {
        let ghost ops = code.code.ops@;
        match code.target2opidx(val) {
            Some(opidx) => {
                proof {
                    if exists|t: int|
                        0 <= t < ops.len() && opidx_offset(ops, t) == val.as_nat() && ops[t]
                            == EvmOp::Jumpdest {
                        let t = choose|t: int|
                            0 <= t < ops.len() && opidx_offset(ops, t) == val.as_nat() && ops[t]
                                == EvmOp::Jumpdest;
                        lemma_opidx_offset_injective(ops, t, opidx as int);
                    }
                }
                if code.is_jumpdest(opidx) {
                    opidx
                } else {
                    code.code.ops.len()
                }
            },
            None => code.code.ops.len(),
        }
    }
}

/// `m2` is `m1` with only block `except` changed and edges appended.
pub open spec fn module_extends_except(m1: JitEvmEngine, m2: JitEvmEngine, except: int) -> bool {
    &&& m1.blocks@.len() == m2.blocks@.len()
    &&& forall|i: int|
        0 <= i < m1.blocks@.len() && i != except ==> #[trigger] m2.blocks@[i] == m1.blocks@[i]
}

/// The instructions this compiler can lower.
pub open spec fn jit_supported(op: EvmOp) -> bool {
    match op {
        EvmOp::Stop | EvmOp::Return | EvmOp::Revert | EvmOp::Invalid | EvmOp::Push(_, _)
            | EvmOp::Pop | EvmOp::Jumpdest | EvmOp::Sload | EvmOp::Sstore | EvmOp::Jump
            | EvmOp::Jumpi | EvmOp::Iszero | EvmOp::Not | EvmOp::AugmentedPushJump(_, _)
            | EvmOp::AugmentedPushJumpi(_, _) => true,
        _ => crate::interpreter::is_swap_or_dup(op) || crate::interpreter::is_two_operand(op),
    }
}

/// The block body each instruction lowers to.
pub open spec fn body_of(op: EvmOp) -> JitBlockOp {
    match op {
        EvmOp::Stop => JitBlockOp::Empty,
        EvmOp::Push(_, v) => JitBlockOp::PushWord(v),
        EvmOp::Pop => JitBlockOp::PopDiscard,
        EvmOp::Jumpdest => JitBlockOp::Empty,
        EvmOp::Sload => JitBlockOp::CallSload,
        EvmOp::Sstore => JitBlockOp::CallSstore,
        EvmOp::Jump => JitBlockOp::PopJumpTarget,
        EvmOp::Jumpi => JitBlockOp::PopJumpTargetAndCond,
        EvmOp::Iszero => JitBlockOp::PopBranchValue,
        EvmOp::Not => JitBlockOp::UnaryNative(EvmOp::Not),
        EvmOp::Add | EvmOp::Mul | EvmOp::Sub | EvmOp::Div | EvmOp::Sdiv | EvmOp::Mod
            | EvmOp::Exp | EvmOp::Lt | EvmOp::Gt | EvmOp::Slt | EvmOp::Sgt | EvmOp::Eq
            | EvmOp::And | EvmOp::Or | EvmOp::Shl | EvmOp::Shr => JitBlockOp::BinaryNative(op),
        EvmOp::AugmentedPushJump(_, _) => JitBlockOp::Empty,
        EvmOp::AugmentedPushJumpi(_, _) => JitBlockOp::PopBranchValue,
        EvmOp::Swap1 => JitBlockOp::Swap(2),
        EvmOp::Swap2 => JitBlockOp::Swap(3),
        EvmOp::Swap3 => JitBlockOp::Swap(4),
        EvmOp::Swap4 => JitBlockOp::Swap(5),
        EvmOp::Swap5 => JitBlockOp::Swap(6),
        EvmOp::Swap6 => JitBlockOp::Swap(7),
        EvmOp::Swap7 => JitBlockOp::Swap(8),
        EvmOp::Swap8 => JitBlockOp::Swap(9),
        EvmOp::Swap9 => JitBlockOp::Swap(10),
        EvmOp::Swap10 => JitBlockOp::Swap(11),
        EvmOp::Swap11 => JitBlockOp::Swap(12),
        EvmOp::Swap12 => JitBlockOp::Swap(13),
        EvmOp::Swap13 => JitBlockOp::Swap(14),
        EvmOp::Swap14 => JitBlockOp::Swap(15),
        EvmOp::Swap15 => JitBlockOp::Swap(16),
        EvmOp::Swap16 => JitBlockOp::Swap(17),
        EvmOp::Dup1 => JitBlockOp::Dup(1),
        EvmOp::Dup2 => JitBlockOp::Dup(2),
        EvmOp::Dup3 => JitBlockOp::Dup(3),
        EvmOp::Dup4 => JitBlockOp::Dup(4),
        EvmOp::Dup5 => JitBlockOp::Dup(5),
        EvmOp::Dup6 => JitBlockOp::Dup(6),
        EvmOp::Dup7 => JitBlockOp::Dup(7),
        EvmOp::Dup8 => JitBlockOp::Dup(8),
        EvmOp::Dup9 => JitBlockOp::Dup(9),
        EvmOp::Dup10 => JitBlockOp::Dup(10),
        EvmOp::Dup11 => JitBlockOp::Dup(11),
        EvmOp::Dup12 => JitBlockOp::Dup(12),
        EvmOp::Dup13 => JitBlockOp::Dup(13),
        EvmOp::Dup14 => JitBlockOp::Dup(14),
        EvmOp::Dup15 => JitBlockOp::Dup(15),
        EvmOp::Dup16 => JitBlockOp::Dup(16),
        _ => JitBlockOp::Empty,
    }
}

/// The op indices of all JUMPDEST instructions, in ascending order.
pub open spec fn jumpdest_seq(ops: Seq<EvmOp>) -> Seq<usize>
    decreases ops.len(),
{
    if ops.len() == 0 {
        Seq::empty()
    } else {
        let pre = jumpdest_seq(ops.drop_last());
        if ops.last() == EvmOp::Jumpdest {
            pre.push((ops.len() - 1) as usize)
        } else {
            pre
        }
    }
}

pub proof fn lemma_jumpdest_seq_bounds(ops: Seq<EvmOp>)
    requires
        ops.len() <= usize::MAX,
    ensures
        forall|k: int|
            0 <= k < jumpdest_seq(ops).len() ==> (#[trigger] jumpdest_seq(ops)[k]) < ops.len()
                && ops[jumpdest_seq(ops)[k] as int] == EvmOp::Jumpdest,
    decreases ops.len(),
{
    if ops.len() > 0 {
        lemma_jumpdest_seq_bounds(ops.drop_last());
        let pre = jumpdest_seq(ops.drop_last());
        let full = jumpdest_seq(ops);
        assert forall|k: int| 0 <= k < full.len() implies full[k] < ops.len() && ops[full[k] as int]
            == EvmOp::Jumpdest by {
            if k < pre.len() {
                assert(full[k] == pre[k]);
                assert(ops.drop_last()[pre[k] as int] == ops[pre[k] as int]);
            } else {
                assert(ops.last() == EvmOp::Jumpdest && full[k] == ops.len() - 1);
                assert(ops[ops.len() - 1] == EvmOp::Jumpdest);
            }
        }
    }
}

/// The statically resolved destination of a fused branch: the instruction
/// starting at byte offset `v`, provided it is a JUMPDEST.
pub open spec fn static_target(ops: Seq<EvmOp>, v: Word) -> Option<usize> {
    if exists|t: int|
        0 <= t < ops.len() && opidx_offset(ops, t) == v.as_nat() && ops[t] == EvmOp::Jumpdest {
        Some(
            (choose|t: int|
                0 <= t < ops.len() && opidx_offset(ops, t) == v.as_nat() && ops[t]
                    == EvmOp::Jumpdest) as usize,
        )
    } else {
        None
    }
}

/// One well-formed step of the linear comparison chain per JUMPDEST: block
/// `c + j` compares the popped target against the offset of the `j`-th
/// JUMPDEST and branches there on equality, else to the next comparison, or
/// to the error block after the last one.
pub open spec fn chain_ok(m: JitEvmEngine, c: int, jds: Seq<usize>, ops: Seq<EvmOp>) -> bool {
    forall|j: int|
        0 <= j < jds.len() ==> #[trigger] m.blocks@[c + j] == (JitEvmEngineSimpleBlock {
            body: JitBlockOp::JumpChainCmp(opidx_offset(ops, jds[j] as int) as u64),
            term: Some(
                JitTerm::CondBranchEq {
                    then_block: jds[j],
                    else_block: if j + 1 < jds.len() {
                        (c + j + 1) as usize
                    } else {
                        (ops.len() + 1) as usize
                    },
                },
            ),
        })
}

/// What the lowering of instruction `i` must look like: the block body
/// matches the instruction, non-terminal instructions fall through to the
/// next block, terminal ones emit their own terminator, and the fused
/// branches are resolved statically. A JUMP in a code with no JUMPDEST at
/// all can never land: it goes straight to the error-jumpdest block (and a
/// JUMPI there fails only when its condition is nonzero).
pub open spec fn op_lowering_ok(m: JitEvmEngine, ops: Seq<EvmOp>, i: int) -> bool {
    let n = ops.len() as int;
    let next = if i + 1 == n {
        n as usize
    } else {
        (i + 1) as usize
    };
    let end = n as usize;
    let jds = jumpdest_seq(ops);
    &&& m.blocks@[i].body == body_of(ops[i])
    &&& match ops[i] {
        EvmOp::Stop => m.blocks@[i].term == Some(JitTerm::ReturnConst(0)),
        EvmOp::Return => m.blocks@[i].term == Some(JitTerm::ReturnConst(0)),
        EvmOp::Revert => m.blocks@[i].term == Some(JitTerm::ReturnConst(2)),
        EvmOp::Invalid => m.blocks@[i].term == Some(JitTerm::ReturnConst(3)),
        EvmOp::Jump => if jds.len() == 0 {
            m.blocks@[i].term == Some(JitTerm::Branch((n + 1) as usize))
        } else {
            exists|c: usize|
                n + 3 <= c && c + jds.len() <= m.blocks@.len() && m.blocks@[i].term == Some(
                    JitTerm::Branch(c),
                ) && #[trigger] chain_ok(m, c as int, jds, ops)
        },
        EvmOp::Jumpi => if jds.len() == 0 {
            m.blocks@[i].term == Some(
                JitTerm::CondBranchNonzero { then_block: (n + 1) as usize, else_block: next },
            )
        } else {
            exists|c: usize|
                n + 3 <= c && c + jds.len() <= m.blocks@.len() && m.blocks@[i].term == Some(
                    JitTerm::CondBranchNonzero { then_block: c, else_block: next },
                ) && #[trigger] chain_ok(m, c as int, jds, ops)
        },
        EvmOp::Iszero => exists|p0: usize, p1: usize|
            #![trigger m.blocks@[p0 as int], m.blocks@[p1 as int]]
            n + 3 <= p0 < m.blocks@.len() && n + 3 <= p1 < m.blocks@.len() && m.blocks@[i].term
                == Some(JitTerm::CondBranchNonzero { then_block: p0, else_block: p1 })
                && m.blocks@[p0 as int] == (JitEvmEngineSimpleBlock {
                body: JitBlockOp::PushConst(0),
                term: Some(JitTerm::Branch(next)),
            }) && m.blocks@[p1 as int] == (JitEvmEngineSimpleBlock {
                body: JitBlockOp::PushConst(1),
                term: Some(JitTerm::Branch(next)),
            }),
        EvmOp::AugmentedPushJump(_, v) => m.blocks@[i].term == Some(
            JitTerm::Branch(
                match static_target(ops, v) {
                    Some(t) => t,
                    None => end,
                },
            ),
        ),
        EvmOp::AugmentedPushJumpi(_, v) => m.blocks@[i].term == Some(
            JitTerm::CondBranchNonzero {
                then_block: match static_target(ops, v) {
                    Some(t) => t,
                    None => end,
                },
                else_block: next,
            },
        ),
        _ => m.blocks@[i].term == Some(JitTerm::Branch(next)),
    }
}

/// The full shape of a compiled module: one block per instruction in order,
/// then the end block returning the status phi, the error-jumpdest block
/// returning 1, and the setup block branching to instruction 0.
pub open spec fn module_layout(m: JitEvmEngine, ops: Seq<EvmOp>) -> bool {
    let n = ops.len() as int;
    &&& m.blocks@.len() >= n + 3
    &&& m.blocks@[n] == (JitEvmEngineSimpleBlock {
        body: JitBlockOp::Empty,
        term: Some(JitTerm::ReturnPhi),
    })
    &&& m.blocks@[n + 1] == (JitEvmEngineSimpleBlock {
        body: JitBlockOp::Empty,
        term: Some(JitTerm::ReturnConst(1)),
    })
    &&& m.blocks@[n + 2] == (JitEvmEngineSimpleBlock {
        body: JitBlockOp::Setup,
        term: Some(JitTerm::Branch(0)),
    })
    &&& forall|i: int| 0 <= i < n ==> #[trigger] op_lowering_ok(m, ops, i)
}

/// A lowering fact survives any later emission: later work only appends
/// blocks or seals blocks that had no terminator yet.
proof fn lemma_lowering_frame(m1: JitEvmEngine, m2: JitEvmEngine, ops: Seq<EvmOp>, k: int)
    requires
        0 <= k < ops.len(),
        ops.len() + 3 <= m1.blocks@.len() <= m2.blocks@.len(),
        op_lowering_ok(m1, ops, k),
        forall|idx: int|
            0 <= idx < m1.blocks@.len() && #[trigger] m2.blocks@[idx] != m1.blocks@[idx]
                ==> m1.blocks@[idx].term is None,
    ensures
        op_lowering_ok(m2, ops, k),
{
    let n = ops.len() as int;
    let jds = jumpdest_seq(ops);
    assert(m2.blocks@[k] == m1.blocks@[k]);
    match ops[k] {
        EvmOp::Jump => {
            if jds.len() > 0 {
                let c = choose|c: usize|
                    n + 3 <= c && c + jds.len() <= m1.blocks@.len() && m1.blocks@[k].term == Some(
                        JitTerm::Branch(c),
                    ) && #[trigger] chain_ok(m1, c as int, jds, ops);
                assert(chain_ok(m2, c as int, jds, ops)) by {
                    assert forall|j: int| 0 <= j < jds.len() implies #[trigger] m2.blocks@[c + j]
                        == m1.blocks@[c + j] by {}
                }
                assert(n + 3 <= c && c + jds.len() <= m2.blocks@.len() && m2.blocks@[k].term
                    == Some(JitTerm::Branch(c)) && chain_ok(m2, c as int, jds, ops));
            }
        },
        EvmOp::Jumpi => {
            if jds.len() > 0 {
                let next = if k + 1 == n {
                    n as usize
                } else {
                    (k + 1) as usize
                };
                let c = choose|c: usize|
                    n + 3 <= c && c + jds.len() <= m1.blocks@.len() && m1.blocks@[k].term == Some(
                        JitTerm::CondBranchNonzero { then_block: c, else_block: next },
                    ) && #[trigger] chain_ok(m1, c as int, jds, ops);
                assert(chain_ok(m2, c as int, jds, ops)) by {
                    assert forall|j: int| 0 <= j < jds.len() implies #[trigger] m2.blocks@[c + j]
                        == m1.blocks@[c + j] by {}
                }
                assert(n + 3 <= c && c + jds.len() <= m2.blocks@.len() && m2.blocks@[k].term
                    == Some(JitTerm::CondBranchNonzero { then_block: c, else_block: next })
                    && chain_ok(m2, c as int, jds, ops));
            }
        },
        EvmOp::Iszero => {
            let next = if k + 1 == n {
                n as usize
            } else {
                (k + 1) as usize
            };
            let (p0, p1) = choose|p0: usize, p1: usize|
                #![trigger m1.blocks@[p0 as int], m1.blocks@[p1 as int]]
                n + 3 <= p0 < m1.blocks@.len() && n + 3 <= p1 < m1.blocks@.len() && m1.blocks@[
                k].term == Some(
                    JitTerm::CondBranchNonzero { then_block: p0, else_block: p1 },
                ) && m1.blocks@[p0 as int] == (JitEvmEngineSimpleBlock {
                    body: JitBlockOp::PushConst(0),
                    term: Some(JitTerm::Branch(next)),
                }) && m1.blocks@[p1 as int] == (JitEvmEngineSimpleBlock {
                    body: JitBlockOp::PushConst(1),
                    term: Some(JitTerm::Branch(next)),
                });
            assert(m2.blocks@[p0 as int] == m1.blocks@[p0 as int]);
            assert(m2.blocks@[p1 as int] == m1.blocks@[p1 as int]);
            assert(n + 3 <= p0 < m2.blocks@.len() && n + 3 <= p1 < m2.blocks@.len()
                && m2.blocks@[k].term == Some(
                JitTerm::CondBranchNonzero { then_block: p0, else_block: p1 },
            ) && m2.blocks@[p0 as int] == (JitEvmEngineSimpleBlock {
                body: JitBlockOp::PushConst(0),
                term: Some(JitTerm::Branch(next)),
            }) && m2.blocks@[p1 as int] == (JitEvmEngineSimpleBlock {
                body: JitBlockOp::PushConst(1),
                term: Some(JitTerm::Branch(next)),
            }));
        },
        _ => {},
    }
}

/// No edges reach beyond the blocks that exist.
proof fn lemma_edge_count_zero_out_of_range(edges: Seq<JitPhiEdge>, p: int, s: int, len: int)
    requires
        forall|i: int| 0 <= i < edges.len() ==> (#[trigger] edges[i]).pred < len && edges[i].succ < len,
        p >= len || s >= len,
    ensures
        edge_count(edges, p, s) == 0,
    decreases edges.len(),
{
    if edges.len() > 0 {
        lemma_edge_count_zero_out_of_range(edges.drop_last(), p, s, len);
    }
}

} // verus!
