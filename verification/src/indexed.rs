use vstd::prelude::*;
use crate::code::{op_len, EvmCode, EvmOp};
use crate::word::{pow2_64, Word};

verus! {

/// The byte offset at which instruction `i` of `ops` starts: the sum of the
/// encoded lengths of all earlier instructions.
pub open spec fn opidx_offset(ops: Seq<EvmOp>, i: int) -> nat
    decreases i,
{
    if i <= 0 {
        0
    } else {
        opidx_offset(ops, i - 1) + op_len(ops[i - 1])
    }
}

/// A 256-bit value names a valid branch target of `ops` exactly when it is
/// the starting offset of some instruction and that instruction is JUMPDEST.
pub open spec fn is_valid_jump_target(ops: Seq<EvmOp>, v: nat) -> bool {
    exists|i: int|
        0 <= i < ops.len() && opidx_offset(ops, i) == v && ops[i] == EvmOp::Jumpdest
}

/// Offsets grow strictly with the instruction index: every instruction
/// occupies at least one byte.
pub proof fn lemma_opidx_offset_mono(ops: Seq<EvmOp>, i: int, j: int)
    requires
        0 <= i <= j <= ops.len(),
    ensures
        opidx_offset(ops, i) + (j - i) <= opidx_offset(ops, j),
    decreases j - i,
{
    if i < j {
        lemma_opidx_offset_mono(ops, i, j - 1);
    }
}

/// No two instructions start at the same byte offset.
pub proof fn lemma_opidx_offset_injective(ops: Seq<EvmOp>, i: int, j: int)
    requires
        0 <= i < ops.len(),
        0 <= j < ops.len(),
        opidx_offset(ops, i) == opidx_offset(ops, j),
    ensures
        i == j,
{
    if i < j {
        lemma_opidx_offset_mono(ops, i, j);
    } else if j < i {
        lemma_opidx_offset_mono(ops, j, i);
    }
}

/// The two direction maps are mutually inverse: the byte offset at which
/// instruction `i` starts is the starting offset of no other instruction,
/// so looking it up finds exactly `i` again.
pub proof fn lemma_offset_opidx_roundtrip(ops: Seq<EvmOp>, i: int)
    requires
        0 <= i < ops.len(),
    ensures
        forall|j: int|
            0 <= j < ops.len() ==> ((opidx_offset(ops, j) == opidx_offset(ops, i)) <==> j == i),
{
    assert forall|j: int|
        0 <= j < ops.len() && opidx_offset(ops, j) == opidx_offset(ops, i) implies j == i by {
        lemma_opidx_offset_injective(ops, i, j);
    }
}

/// A code together with its branch-target index: the byte offset of each
/// instruction, and which instructions are JUMPDESTs. The inverse direction,
/// from a byte offset back to an instruction index, is the (verified) binary
/// search `target2opidx`.
#[derive(Clone, Debug)]
pub struct IndexedEvmCode {
    pub code: EvmCode,
    pub opidx2target: Vec<usize>,
    pub jumpdests: Vec<bool>,
}

impl IndexedEvmCode {
    /// The index is consistent with the code it was built from.
    pub open spec fn wf(self) -> bool {
        &&& self.code.wf()
        &&& self.opidx2target@.len() == self.code.ops@.len()
        &&& self.jumpdests@.len() == self.code.ops@.len()
        &&& forall|i: int|
            0 <= i < self.code.ops@.len() ==> #[trigger] self.opidx2target@[i] == opidx_offset(
                self.code.ops@,
                i,
            )
        &&& forall|i: int|
            0 <= i < self.code.ops@.len() ==> (#[trigger] self.jumpdests@[i] == (self.code.ops@[i]
                == EvmOp::Jumpdest))
    }

    /// Build the index in one pass over the instructions.
    pub fn new_from_evmcode(code: EvmCode) -> (r: IndexedEvmCode)
        requires
            code.wf(),
            opidx_offset(code.ops@, code.ops@.len() as int) <= usize::MAX,
        ensures
            r.wf(),
            r.code.ops@ == code.ops@,
    {
        let mut opidx2target: Vec<usize> = Vec::new();
        let mut jumpdests: Vec<bool> = Vec::new();
        let mut target: usize = 0;
        let n = code.ops.len();
        let mut opidx: usize = 0;
        while opidx < n
            invariant
                code.wf(),
                opidx_offset(code.ops@, code.ops@.len() as int) <= usize::MAX,
                n == code.ops@.len(),
                opidx <= n,
                opidx2target@.len() == opidx,
                jumpdests@.len() == opidx,
                target == opidx_offset(code.ops@, opidx as int),
                forall|i: int|
                    0 <= i < opidx ==> #[trigger] opidx2target@[i] == opidx_offset(
                        code.ops@,
                        i,
                    ),
                forall|i: int|
                    0 <= i < opidx ==> (#[trigger] jumpdests@[i] == (code.ops@[i]
                        == EvmOp::Jumpdest)),
            decreases n - opidx,
        {
            proof {
                lemma_opidx_offset_mono(code.ops@, opidx + 1, code.ops@.len() as int);
            }
            opidx2target.push(target);
            jumpdests.push(code.ops[opidx].is_jumpdest_op());
            target = target + code.ops[opidx].len();
            opidx += 1;
        }
        IndexedEvmCode { code, opidx2target, jumpdests }
    }

    /// Whether instruction `opidx` is a JUMPDEST.
    pub fn is_jumpdest(&self, opidx: usize) -> (r: bool)
        requires
            self.wf(),
        ensures
            r == (opidx < self.code.ops@.len() && self.code.ops@[opidx as int]
                == EvmOp::Jumpdest),
    {
        opidx < self.jumpdests.len() && self.jumpdests[opidx]
    }

    /// The instruction index starting at byte offset `target`, if any: the
    /// inverse of `opidx2target`, realized as a binary search over the
    /// strictly increasing offsets.
    pub fn target2opidx(&self, target: &Word) -> (r: Option<usize>)
        requires
            self.wf(),
        ensures
            (r matches Some(i) ==> 0 <= i < self.code.ops@.len() && opidx_offset(
                self.code.ops@,
                i as int,
            ) == target.as_nat()),
            (r is None ==> forall|i: int|
                0 <= i < self.code.ops@.len() ==> opidx_offset(self.code.ops@, i)
                    != target.as_nat()),
    {
        let ops_len = self.opidx2target.len();
        if !target.fits_u64() {
            proof {
                assert forall|i: int| 0 <= i < self.code.ops@.len() implies opidx_offset(
                    self.code.ops@,
                    i,
                ) != target.as_nat() by {
                    assert(self.opidx2target@[i] == opidx_offset(self.code.ops@, i));
                    assert(self.opidx2target@[i] <= usize::MAX < pow2_64());
                }
            }
            return None;
        }
        let t = target.low_u64();
        proof {
            assert(t == target.as_nat());
        }
        let mut lo: usize = 0;
        let mut hi: usize = ops_len;
        while lo < hi
            invariant
                self.wf(),
                t == target.as_nat(),
                ops_len == self.code.ops@.len(),
                0 <= lo <= hi <= ops_len,
                forall|i: int| 0 <= i < lo ==> opidx_offset(self.code.ops@, i) < t,
                forall|i: int|
                    hi <= i < ops_len ==> opidx_offset(self.code.ops@, i) > t,
            decreases hi - lo,
        {
            let mid = lo + (hi - lo) / 2;
            let off = self.opidx2target[mid];
            if off as u64 == t {
                return Some(mid);
            } else if (off as u64) < t {
                proof {
                    assert forall|i: int| 0 <= i < mid + 1 implies opidx_offset(
                        self.code.ops@,
                        i,
                    ) < t by {
                        lemma_opidx_offset_mono(self.code.ops@, i, mid as int);
                    }
                }
                lo = mid + 1;
            } else {
                proof {
                    assert forall|i: int| mid <= i < ops_len implies opidx_offset(
                        self.code.ops@,
                        i,
                    ) > t by {
                        lemma_opidx_offset_mono(self.code.ops@, mid as int, i);
                    }
                }
                hi = mid;
            }
        }
        None
    }

    /// Whether `target` is a legal branch destination: it must start an
    /// instruction, and that instruction must be JUMPDEST.
    pub fn is_valid_target(&self, target: &Word) -> (r: bool)
        requires
            self.wf(),
        ensures
            r == is_valid_jump_target(self.code.ops@, target.as_nat()),
    {
        match self.target2opidx(target) {
            Some(opidx) => {
                let r = self.is_jumpdest(opidx);
                proof {
                    if !r {
                        assert forall|i: int|
                            0 <= i < self.code.ops@.len() && opidx_offset(self.code.ops@, i)
                                == target.as_nat() implies self.code.ops@[i] != EvmOp::Jumpdest by {
                            lemma_opidx_offset_injective(self.code.ops@, i, opidx as int);
                        }
                    }
                }
                r
            },
            None => false,
        }
    }
}

impl EvmOp {
    /// Whether this instruction is JUMPDEST.
    pub fn is_jumpdest_op(&self) -> (r: bool)
        ensures
            r == (*self == EvmOp::Jumpdest),
    {
        match self {
            EvmOp::Jumpdest => true,
            _ => false,
        }
    }
}

impl EvmCode {
    /// Build the branch-target index for this code.
    pub fn index(&self) -> (r: IndexedEvmCode)
        requires
            self.wf(),
            opidx_offset(self.ops@, self.ops@.len() as int) <= usize::MAX,
        ensures
            r.wf(),
            r.code.ops@ == self.ops@,
    {
        let mut ops: Vec<EvmOp> = Vec::new();
        let mut i: usize = 0;
        let n = self.ops.len();
        while i < n
            invariant
                n == self.ops@.len(),
                i <= n,
                ops@ == self.ops@.take(i as int),
            decreases n - i,
        {
            proof {
                assert(self.ops@.take(i as int).push(self.ops@[i as int]) =~= self.ops@.take(
                    i + 1,
                ));
            }
            ops.push(self.ops[i]);
            i += 1;
        }
        proof {
            assert(self.ops@.take(n as int) =~= self.ops@);
        }
        IndexedEvmCode::new_from_evmcode(EvmCode { ops })
    }
}

} // verus!
