use vstd::prelude::*;
use crate::bytes::{be_to_nat, lemma_be_to_nat_bound};
use crate::code::{EvmOp, EvmCode};
use crate::indexed::{lemma_opidx_offset_injective, opidx_offset, IndexedEvmCode};
use crate::operations;
use crate::word::{lemma_pow2_bridge, pow2_256, word_of_nat, Word};
use crate::EVM_STACK_SIZE;

verus! {

/// The failure modes of the interpreter oracle. Stack bounds are checked on
/// every access; branch targets must name a JUMPDEST; memory offsets must
/// stay addressable on the host.
#[derive(Clone, Copy, Debug, PartialEq, Eq, Structural)]
pub enum EvmInterpreterError {
    StackFull,
    StackEmpty,
    StackTooSmall,
    SloadKeyNotFound,
    JumpDestinationInvalid,
    JumpDestinationNotJumpdest,
    MemoryAccessTooLarge,
    UnknownInstruction(EvmOp),
}

/// The zero word.
pub open spec fn word_zero() -> Word {
    Word { d0: 0, d1: 0, d2: 0, d3: 0 }
}

/// The mathematical content of a storage log: later writes shadow earlier
/// ones.
pub open spec fn entries_map(s: Seq<(Word, Word)>) -> Map<nat, Word>
    decreases s.len(),
{
    if s.len() == 0 {
        Map::empty()
    } else {
        entries_map(s.drop_last()).insert(s.last().0.as_nat(), s.last().1)
    }
}

/// What SLOAD sees: the stored word, or zero for an absent key.
pub open spec fn storage_lookup(m: Map<nat, Word>, k: nat) -> Word {
    if m.contains_key(k) {
        m[k]
    } else {
        word_zero()
    }
}

/// Entries at positions `i` and beyond whose keys all differ from `k` do not
/// affect the lookup of `k`.
proof fn lemma_entries_map_prefix(s: Seq<(Word, Word)>, k: nat, i: int)
    requires
        0 <= i <= s.len(),
        forall|j: int| i <= j < s.len() ==> (#[trigger] s[j]).0.as_nat() != k,
    ensures
        entries_map(s).contains_key(k) == entries_map(s.take(i)).contains_key(k),
        entries_map(s).contains_key(k) ==> entries_map(s)[k] == entries_map(s.take(i))[k],
    decreases s.len() - i,
{
    if i == s.len() {
        assert(s.take(i) =~= s);
    } else {
        let s2 = s.drop_last();
        lemma_entries_map_prefix(s2, k, i);
        assert(s2.take(i) =~= s.take(i));
    }
}

/// The persistent 256-bit key/value store, kept as a write log. Its view is
/// the map where the latest write to each key wins.
#[derive(Clone, Debug)]
pub struct StorageMap {
    pub entries: Vec<(Word, Word)>,
}

impl StorageMap {
    pub open spec fn view(&self) -> Map<nat, Word> {
        entries_map(self.entries@)
    }

    pub fn new() -> (r: StorageMap)
        ensures
            r@ == Map::<nat, Word>::empty(),
    {
        StorageMap { entries: Vec::new() }
    }

    /// Read a key, with the EVM's zero-default semantics.
    pub fn get(&self, key: &Word) -> (r: Word)
        ensures
            r == storage_lookup(self@, key.as_nat()),
    {
        let n = self.entries.len();
        let mut i: usize = n;
        while i > 0
            invariant
                i <= n,
                n == self.entries@.len(),
                forall|j: int|
                    i <= j < n ==> (#[trigger] self.entries@[j]).0.as_nat() != key.as_nat(),
            decreases i,
        {
            i = i - 1;
            let (k, v) = self.entries[i];
            proof {
                if k == *key {
                } else {
                    if k.as_nat() == key.as_nat() {
                        k.lemma_as_nat_injective(*key);
                    }
                }
            }
            if k.d0 == key.d0 && k.d1 == key.d1 && k.d2 == key.d2 && k.d3 == key.d3 {
                proof {
                    lemma_entries_map_prefix(self.entries@, key.as_nat(), i + 1);
                    let pre = self.entries@.take(i + 1);
                    assert(pre.drop_last() =~= self.entries@.take(i as int));
                    assert(pre.last() == self.entries@[i as int]);
                }
                return v;
            }
        }
        proof {
            lemma_entries_map_prefix(self.entries@, key.as_nat(), 0);
            assert(self.entries@.take(0) =~= Seq::<(Word, Word)>::empty());
        }
        Word::zero()
    }

    /// Write a key.
    pub fn insert(&mut self, key: Word, val: Word)
        ensures
            final(self)@ == old(self)@.insert(key.as_nat(), val),
    {
        proof {
            assert(old(self).entries@.push((key, val)).drop_last() =~= old(self).entries@);
        }
        self.entries.push((key, val));
    }
}

/// The world outside the contract: call data, persistent storage, and the
/// value sent with the call.
#[derive(Clone, Debug)]
pub struct EvmOuterContext {
    pub calldata: Vec<u8>,
    pub storage: StorageMap,
    pub callvalue: Word,
}

/// The contract's own machine state: its code, operand stack, program
/// counter (an instruction index), and linear memory.
#[derive(Clone, Debug)]
pub struct EvmInnerContext {
    pub code: IndexedEvmCode,
    pub stack: Vec<Word>,
    pub pc: usize,
    pub memory: Vec<u8>,
}

impl EvmInnerContext {
    /// Push a word; the stack holds at most `EVM_STACK_SIZE` elements.
    pub fn push(&mut self, val: Word) -> (r: Result<(), EvmInterpreterError>)
        ensures
            old(self).stack@.len() >= EVM_STACK_SIZE ==> r == Err::<(), EvmInterpreterError>(
                EvmInterpreterError::StackFull,
            ) && *final(self) == *old(self),
            old(self).stack@.len() < EVM_STACK_SIZE ==> r == Ok::<(), EvmInterpreterError>(())
                && final(self).code == old(self).code && final(self).pc == old(self).pc
                && final(self).memory == old(self).memory && final(self).stack@ == old(
            self).stack@.push(val),
    {
        if self.stack.len() >= EVM_STACK_SIZE {
            Err(EvmInterpreterError::StackFull)
        } else {
            self.stack.push(val);
            Ok(())
        }
    }

    /// Pop the top word.
    pub fn pop(&mut self) -> (r: Result<Word, EvmInterpreterError>)
        ensures
            old(self).stack@.len() == 0 ==> r == Err::<Word, EvmInterpreterError>(
                EvmInterpreterError::StackEmpty,
            ) && final(self).code == old(self).code && final(self).pc == old(self).pc
                && final(self).memory == old(self).memory && final(self).stack@ == old(
            self).stack@,
            old(self).stack@.len() > 0 ==> r == Ok::<Word, EvmInterpreterError>(
                old(self).stack@.last(),
            ) && final(self).code == old(self).code && final(self).pc == old(self).pc
                && final(self).memory == old(self).memory && final(self).stack@ == old(
            self).stack@.drop_last(),
    {
        match self.stack.pop() {
            Some(v) => Ok(v),
            None => Err(EvmInterpreterError::StackEmpty),
        }
    }
}

/// The SWAP and DUP instructions.
pub open spec fn is_swap_or_dup(op: EvmOp) -> bool {
    match op {
        EvmOp::Swap1 | EvmOp::Swap2 | EvmOp::Swap3 | EvmOp::Swap4 | EvmOp::Swap5 | EvmOp::Swap6
            | EvmOp::Swap7 | EvmOp::Swap8 | EvmOp::Swap9 | EvmOp::Swap10 | EvmOp::Swap11
            | EvmOp::Swap12 | EvmOp::Swap13 | EvmOp::Swap14 | EvmOp::Swap15 | EvmOp::Swap16
            | EvmOp::Dup1 | EvmOp::Dup2 | EvmOp::Dup3 | EvmOp::Dup4 | EvmOp::Dup5 | EvmOp::Dup6
            | EvmOp::Dup7 | EvmOp::Dup8 | EvmOp::Dup9 | EvmOp::Dup10 | EvmOp::Dup11
            | EvmOp::Dup12 | EvmOp::Dup13 | EvmOp::Dup14 | EvmOp::Dup15 | EvmOp::Dup16 => true,
        _ => false,
    }
}

/// The instructions that pop two operands and push one result.
pub open spec fn is_two_operand(op: EvmOp) -> bool {
    match op {
        EvmOp::Add | EvmOp::Mul | EvmOp::Sub | EvmOp::Div | EvmOp::Sdiv | EvmOp::Mod
            | EvmOp::Exp | EvmOp::Lt | EvmOp::Gt | EvmOp::Slt | EvmOp::Sgt | EvmOp::Eq
            | EvmOp::And | EvmOp::Or | EvmOp::Shl | EvmOp::Shr => true,
        _ => false,
    }
}

/// A mathematical snapshot of the whole interpreter state.
#[verifier::ext_equal]
pub ghost struct StateV {
    pub stack: Seq<Word>,
    pub pc: nat,
    pub mem: Seq<u8>,
    pub storage: Map<nat, Word>,
    pub calldata: Seq<u8>,
    pub callvalue: Word,
}

/// Memory after being zero-extended to hold at least `min_len` bytes.
pub open spec fn mem_grown(mem: Seq<u8>, min_len: nat) -> Seq<u8> {
    if mem.len() >= min_len {
        mem
    } else {
        mem + Seq::new((min_len - mem.len()) as nat, |i: int| 0u8)
    }
}

/// Memory after a 32-byte big-endian store of `v` at `offset`, growing first.
pub open spec fn mem_write32(mem: Seq<u8>, offset: nat, v: nat) -> Seq<u8> {
    let g = mem_grown(mem, offset + 32);
    g.take(offset as int) + crate::bytes::be_bytes(v, 32) + g.skip(offset as int + 32)
}

/// Call data zero-extended by a word, as CALLDATALOAD reads it.
pub open spec fn calldata_padded(calldata: Seq<u8>) -> Seq<u8> {
    calldata + Seq::new(32, |i: int| 0u8)
}

/// One step of the interpreter on instruction `op`, with the program counter
/// already advanced past `op`. Returns the next state and whether execution
/// continues, or the error the interpreter reports.
pub open spec fn step_op(op: EvmOp, st: StateV, ops: Seq<EvmOp>) -> Result<
    (StateV, bool),
    EvmInterpreterError,
> {
    let len = st.stack.len();
    match op {
        EvmOp::Stop => Ok((st, false)),
        EvmOp::Push(_n, val) => if len >= EVM_STACK_SIZE {
            Err(EvmInterpreterError::StackFull)
        } else {
            Ok((StateV { stack: st.stack.push(val), ..st }, true))
        },
        EvmOp::Pop => if len == 0 {
            Err(EvmInterpreterError::StackEmpty)
        } else {
            Ok((StateV { stack: st.stack.drop_last(), ..st }, true))
        },
        EvmOp::Jumpdest => Ok((st, true)),
        EvmOp::Mload => if len == 0 {
            Err(EvmInterpreterError::StackEmpty)
        } else {
            let off = st.stack.last().as_nat();
            if off + 32 > usize::MAX {
                Err(EvmInterpreterError::MemoryAccessTooLarge)
            } else {
                let g = mem_grown(st.mem, off + 32);
                let v = be_to_nat(g.subrange(off as int, off as int + 32));
                Ok(
                    (
                        StateV { stack: st.stack.drop_last().push(word_of_nat(v)), mem: g, ..st },
                        true,
                    ),
                )
            }
        },
        EvmOp::Mstore => if len < 2 {
            Err(EvmInterpreterError::StackEmpty)
        } else {
            let off = st.stack.last().as_nat();
            let val = st.stack[len - 2].as_nat();
            if off + 32 > usize::MAX {
                Err(EvmInterpreterError::MemoryAccessTooLarge)
            } else {
                Ok(
                    (
                        StateV {
                            stack: st.stack.take(len - 2),
                            mem: mem_write32(st.mem, off, val),
                            ..st
                        },
                        true,
                    ),
                )
            }
        },
        EvmOp::Sload => if len == 0 {
            Err(EvmInterpreterError::StackEmpty)
        } else {
            let k = st.stack.last().as_nat();
            Ok(
                (
                    StateV {
                        stack: st.stack.drop_last().push(storage_lookup(st.storage, k)),
                        ..st
                    },
                    true,
                ),
            )
        },
        EvmOp::Sstore => if len < 2 {
            Err(EvmInterpreterError::StackEmpty)
        } else {
            let k = st.stack.last().as_nat();
            let v = st.stack[len - 2];
            Ok(
                (
                    StateV {
                        stack: st.stack.take(len - 2),
                        storage: st.storage.insert(k, v),
                        ..st
                    },
                    true,
                ),
            )
        },
        EvmOp::Jump => if len == 0 {
            Err(EvmInterpreterError::StackEmpty)
        } else {
            let t = st.stack.last().as_nat();
            if exists|i: int| 0 <= i < ops.len() && opidx_offset(ops, i) == t {
                let i = choose|i: int| 0 <= i < ops.len() && opidx_offset(ops, i) == t;
                if ops[i] == EvmOp::Jumpdest {
                    Ok((StateV { stack: st.stack.drop_last(), pc: i as nat, ..st }, true))
                } else {
                    Err(EvmInterpreterError::JumpDestinationNotJumpdest)
                }
            } else {
                Err(EvmInterpreterError::JumpDestinationInvalid)
            }
        },
        EvmOp::Jumpi => if len < 2 {
            Err(EvmInterpreterError::StackEmpty)
        } else {
            let t = st.stack.last().as_nat();
            let c = st.stack[len - 2].as_nat();
            if c != 0 {
                if exists|i: int| 0 <= i < ops.len() && opidx_offset(ops, i) == t {
                    let i = choose|i: int| 0 <= i < ops.len() && opidx_offset(ops, i) == t;
                    if ops[i] == EvmOp::Jumpdest {
                        Ok((StateV { stack: st.stack.take(len - 2), pc: i as nat, ..st }, true))
                    } else {
                        Err(EvmInterpreterError::JumpDestinationNotJumpdest)
                    }
                } else {
                    Err(EvmInterpreterError::JumpDestinationInvalid)
                }
            } else {
                Ok((StateV { stack: st.stack.take(len - 2), ..st }, true))
            }
        },
        EvmOp::Callvalue => if len >= EVM_STACK_SIZE {
            Err(EvmInterpreterError::StackFull)
        } else {
            Ok((StateV { stack: st.stack.push(st.callvalue), ..st }, true))
        },
        EvmOp::Calldatasize => if len >= EVM_STACK_SIZE {
            Err(EvmInterpreterError::StackFull)
        } else {
            Ok((StateV { stack: st.stack.push(word_of_nat(st.calldata.len())), ..st }, true))
        },
        EvmOp::Calldataload => if len == 0 {
            Err(EvmInterpreterError::StackEmpty)
        } else {
            let off = st.stack.last().as_nat();
            let v = if off >= st.calldata.len() {
                word_zero()
            } else {
                word_of_nat(
                    be_to_nat(calldata_padded(st.calldata).subrange(off as int, off as int + 32)),
                )
            };
            Ok((StateV { stack: st.stack.drop_last().push(v), ..st }, true))
        },
        EvmOp::Iszero => step_unary(st, |a: Word| word_of_nat(iszero_val(a))),
        EvmOp::Not => step_unary(st, |a: Word| Word { d0: !a.d0, d1: !a.d1, d2: !a.d2, d3: !a.d3 }),
        EvmOp::Add => step_binary(
            st,
            |a: Word, b: Word| word_of_nat((a.as_nat() + b.as_nat()) % pow2_256()),
        ),
        EvmOp::Mul => step_binary(
            st,
            |a: Word, b: Word| word_of_nat((a.as_nat() * b.as_nat()) % pow2_256()),
        ),
        EvmOp::Sub => step_binary(
            st,
            |a: Word, b: Word|
                word_of_nat(((a.as_nat() - b.as_nat()) % (pow2_256() as int)) as nat),
        ),
        EvmOp::Div => step_binary(
            st,
            |a: Word, b: Word|
                word_of_nat(
                    if b.as_nat() == 0 {
                        0nat
                    } else {
                        a.as_nat() / b.as_nat()
                    },
                ),
        ),
        EvmOp::Sdiv => step_binary(
            st,
            |a: Word, b: Word|
                word_of_nat(
                    (operations::evm_sdiv(a.as_int(), b.as_int()) % (pow2_256() as int)) as nat,
                ),
        ),
        EvmOp::Mod => step_binary(
            st,
            |a: Word, b: Word|
                word_of_nat(
                    if b.as_nat() == 0 {
                        0nat
                    } else {
                        a.as_nat() % b.as_nat()
                    },
                ),
        ),
        EvmOp::Exp => step_binary(
            st,
            |a: Word, b: Word|
                word_of_nat(
                    (vstd::arithmetic::power::pow(a.as_nat() as int, b.as_nat()) % (
                    pow2_256() as int)) as nat,
                ),
        ),
        EvmOp::Lt => step_binary(st, |a: Word, b: Word| word_of_nat(bool_val(a.as_nat() < b.as_nat()))),
        EvmOp::Gt => step_binary(st, |a: Word, b: Word| word_of_nat(bool_val(a.as_nat() > b.as_nat()))),
        EvmOp::Slt => step_binary(st, |a: Word, b: Word| word_of_nat(bool_val(a.as_int() < b.as_int()))),
        EvmOp::Sgt => step_binary(st, |a: Word, b: Word| word_of_nat(bool_val(a.as_int() > b.as_int()))),
        EvmOp::Eq => step_binary(st, |a: Word, b: Word| word_of_nat(bool_val(a.as_nat() == b.as_nat()))),
        EvmOp::And => step_binary(
            st,
            |a: Word, b: Word|
                Word { d0: a.d0 & b.d0, d1: a.d1 & b.d1, d2: a.d2 & b.d2, d3: a.d3 & b.d3 },
        ),
        EvmOp::Or => step_binary(
            st,
            |a: Word, b: Word|
                Word { d0: a.d0 | b.d0, d1: a.d1 | b.d1, d2: a.d2 | b.d2, d3: a.d3 | b.d3 },
        ),
        EvmOp::Shl => step_binary(
            st,
            |a: Word, b: Word|
                word_of_nat(
                    if a.as_nat() >= 256 {
                        0nat
                    } else {
                        (b.as_nat() * vstd::arithmetic::power2::pow2(a.as_nat())) % pow2_256()
                    },
                ),
        ),
        EvmOp::Shr => step_binary(
            st,
            |a: Word, b: Word|
                word_of_nat(
                    if a.as_nat() >= 256 {
                        0nat
                    } else {
                        b.as_nat() / vstd::arithmetic::power2::pow2(a.as_nat())
                    },
                ),
        ),
        EvmOp::Swap1 => step_swap(st, 1),
        EvmOp::Swap2 => step_swap(st, 2),
        EvmOp::Swap3 => step_swap(st, 3),
        EvmOp::Swap4 => step_swap(st, 4),
        EvmOp::Swap5 => step_swap(st, 5),
        EvmOp::Swap6 => step_swap(st, 6),
        EvmOp::Swap7 => step_swap(st, 7),
        EvmOp::Swap8 => step_swap(st, 8),
        EvmOp::Swap9 => step_swap(st, 9),
        EvmOp::Swap10 => step_swap(st, 10),
        EvmOp::Swap11 => step_swap(st, 11),
        EvmOp::Swap12 => step_swap(st, 12),
        EvmOp::Swap13 => step_swap(st, 13),
        EvmOp::Swap14 => step_swap(st, 14),
        EvmOp::Swap15 => step_swap(st, 15),
        EvmOp::Swap16 => step_swap(st, 16),
        EvmOp::Dup1 => step_dup(st, 1),
        EvmOp::Dup2 => step_dup(st, 2),
        EvmOp::Dup3 => step_dup(st, 3),
        EvmOp::Dup4 => step_dup(st, 4),
        EvmOp::Dup5 => step_dup(st, 5),
        EvmOp::Dup6 => step_dup(st, 6),
        EvmOp::Dup7 => step_dup(st, 7),
        EvmOp::Dup8 => step_dup(st, 8),
        EvmOp::Dup9 => step_dup(st, 9),
        EvmOp::Dup10 => step_dup(st, 10),
        EvmOp::Dup11 => step_dup(st, 11),
        EvmOp::Dup12 => step_dup(st, 12),
        EvmOp::Dup13 => step_dup(st, 13),
        EvmOp::Dup14 => step_dup(st, 14),
        EvmOp::Dup15 => step_dup(st, 15),
        EvmOp::Dup16 => step_dup(st, 16),
        _ => Err(EvmInterpreterError::UnknownInstruction(op)),
    }
}

pub open spec fn bool_val(b: bool) -> nat {
    if b {
        1nat
    } else {
        0nat
    }
}

pub open spec fn iszero_val(a: Word) -> nat {
    bool_val(a.as_nat() == 0)
}

/// Pop one operand and push `f` of it.
pub open spec fn step_unary(st: StateV, f: spec_fn(Word) -> Word) -> Result<
    (StateV, bool),
    EvmInterpreterError,
> {
    if st.stack.len() == 0 {
        Err(EvmInterpreterError::StackEmpty)
    } else {
        Ok((StateV { stack: st.stack.drop_last().push(f(st.stack.last())), ..st }, true))
    }
}

/// Pop two operands (the first popped is the first argument) and push `f`
/// of them.
pub open spec fn step_binary(st: StateV, f: spec_fn(Word, Word) -> Word) -> Result<
    (StateV, bool),
    EvmInterpreterError,
> {
    let len = st.stack.len();
    if len < 2 {
        Err(EvmInterpreterError::StackEmpty)
    } else {
        Ok(
            (
                StateV {
                    stack: st.stack.take(len - 2).push(f(st.stack[len - 1], st.stack[len - 2])),
                    ..st
                },
                true,
            ),
        )
    }
}

/// Exchange the top of the stack with the element `idx` positions below it.
pub open spec fn step_swap(st: StateV, idx: int) -> Result<(StateV, bool), EvmInterpreterError> {
    let len = st.stack.len();
    if len <= idx {
        Err(EvmInterpreterError::StackTooSmall)
    } else {
        Ok(
            (
                StateV {
                    stack: st.stack.update(len - 1, st.stack[len - 1 - idx]).update(
                        len - 1 - idx,
                        st.stack[len - 1],
                    ),
                    ..st
                },
                true,
            ),
        )
    }
}

/// Push a copy of the element `idx` positions from the top.
pub open spec fn step_dup(st: StateV, idx: int) -> Result<(StateV, bool), EvmInterpreterError> {
    let len = st.stack.len();
    if len < idx {
        Err(EvmInterpreterError::StackTooSmall)
    } else if len >= EVM_STACK_SIZE {
        Err(EvmInterpreterError::StackFull)
    } else {
        Ok((StateV { stack: st.stack.push(st.stack[len - idx]), ..st }, true))
    }
}

/// One step of the simplified interpreter regime: JUMP and JUMPI take the
/// popped value directly as the next instruction index, with no check
/// against the branch-target index; a target too large for the host is
/// rejected. Memory, storage and call-data instructions are not part of
/// this regime; every other instruction steps as in `step_op`.
pub open spec fn step_op_simplified(op: EvmOp, st: StateV, ops: Seq<EvmOp>) -> Result<
    (StateV, bool),
    EvmInterpreterError,
> {
    let len = st.stack.len();
    match op {
        EvmOp::Mload | EvmOp::Mstore | EvmOp::Sload | EvmOp::Sstore | EvmOp::Callvalue
            | EvmOp::Calldatasize | EvmOp::Calldataload => Err(
            EvmInterpreterError::UnknownInstruction(op),
        ),
        EvmOp::Jump => if len == 0 {
            Err(EvmInterpreterError::StackEmpty)
        } else {
            let t = st.stack.last().as_nat();
            if t > usize::MAX {
                Err(EvmInterpreterError::JumpDestinationInvalid)
            } else {
                Ok((StateV { stack: st.stack.drop_last(), pc: t, ..st }, true))
            }
        },
        EvmOp::Jumpi => if len < 2 {
            Err(EvmInterpreterError::StackEmpty)
        } else {
            let t = st.stack.last().as_nat();
            let c = st.stack[len - 2].as_nat();
            if c != 0 {
                if t > usize::MAX {
                    Err(EvmInterpreterError::JumpDestinationInvalid)
                } else {
                    Ok((StateV { stack: st.stack.take(len - 2), pc: t, ..st }, true))
                }
            } else {
                Ok((StateV { stack: st.stack.take(len - 2), ..st }, true))
            }
        },
        _ => step_op(op, st, ops),
    }
}

/// One whole interpreter tick: fetch at `pc`, advance, and step; at the end
/// of the code, report normal termination.
pub open spec fn tick_spec(st: StateV, ops: Seq<EvmOp>) -> Result<
    (StateV, bool),
    EvmInterpreterError,
> {
    if st.pc >= ops.len() {
        Ok((st, false))
    } else {
        step_op(ops[st.pc as int], StateV { pc: st.pc + 1, ..st }, ops)
    }
}

/// Zero-extend the memory vector to hold at least `min_len` bytes.
fn grow_memory(mem: &mut Vec<u8>, min_len: usize)
    ensures
        final(mem)@ == mem_grown(old(mem)@, min_len as nat),
{
    if mem.len() >= min_len {
        return ;
    }
    let ghost orig = mem@;
    while mem.len() < min_len
        invariant
            orig.len() <= mem@.len() <= min_len,
            mem@ == orig + Seq::new((mem@.len() - orig.len()) as nat, |i: int| 0u8),
        decreases min_len - mem@.len(),
    {
        proof {
            assert(mem@.push(0u8) =~= orig + Seq::new(
                (mem@.len() + 1 - orig.len()) as nat,
                |i: int| 0u8,
            ));
        }
        mem.push(0u8);
    }
}

/// Grow, then read a 32-byte big-endian word at `offset`.
fn mem_load32(mem: &mut Vec<u8>, offset: usize) -> (r: Word)
    requires
        offset + 32 <= usize::MAX,
    ensures
        final(mem)@ == mem_grown(old(mem)@, offset as nat + 32),
        r.as_nat() == be_to_nat(final(mem)@.subrange(offset as int, offset as int + 32)),
{
    grow_memory(mem, offset + 32);
    crate::bytes::word_from_be_range(mem, offset, offset + 32)
}

/// Grow, then store a word as 32 big-endian bytes at `offset`.
fn mem_store32(mem: &mut Vec<u8>, offset: usize, val: &Word)
    requires
        offset + 32 <= usize::MAX,
    ensures
        final(mem)@ == mem_write32(old(mem)@, offset as nat, val.as_nat()),
{
    grow_memory(mem, offset + 32);
    let ghost g = mem@;
    let n = mem.len();
    let bytes = crate::bytes::word_to_be_n(val, 32);
    let mut j: usize = 0;
    proof {
        assert(mem@ =~= g.take(offset as int) + bytes@.take(0) + g.skip(offset as int));
    }
    while j < 32
        invariant
            offset + 32 <= n,
            n == g.len(),
            g.len() == mem@.len(),
            j <= 32,
            bytes@ == crate::bytes::be_bytes(val.as_nat(), 32),
            bytes@.len() == 32,
            mem@ == g.take(offset as int) + bytes@.take(j as int) + g.skip(offset as int + j),
        decreases 32 - j,
    {
        proof {
            assert(mem@.update(offset + j, bytes@[j as int]) =~= g.take(offset as int)
                + bytes@.take(j + 1) + g.skip(offset as int + j + 1));
        }
        mem[offset + j] = bytes[j];
        j += 1;
    }
    proof {
        assert(mem@ =~= mem_write32(old(mem)@, offset as nat, val.as_nat()));
    }
}

/// The interpreter: an oracle that executes a code directly, one
/// instruction per tick.
#[derive(Clone, Debug)]
pub struct EvmContext {
    pub inner: EvmInnerContext,
    pub outer: EvmOuterContext,
}

impl EvmContext {
    /// The conditions every tick preserves: a consistent index and a stack
    /// within the EVM bound.
    pub open spec fn wf(self) -> bool {
        &&& self.inner.code.wf()
        &&& self.inner.stack@.len() <= EVM_STACK_SIZE
    }

    /// The mathematical snapshot of this context.
    pub open spec fn view_state(self) -> StateV {
        StateV {
            stack: self.inner.stack@,
            pc: self.inner.pc as nat,
            mem: self.inner.memory@,
            storage: self.outer.storage@,
            calldata: self.outer.calldata@,
            callvalue: self.outer.callvalue,
        }
    }

    /// Exchange the top of the stack with the element `idx` positions below.
    pub fn _do_swap(&mut self, idx: usize) -> (r: Result<(), EvmInterpreterError>)
        ensures
            final(self).inner.code == old(self).inner.code,
            final(self).inner.pc == old(self).inner.pc,
            final(self).inner.memory == old(self).inner.memory,
            final(self).outer == old(self).outer,
            old(self).inner.stack@.len() <= idx ==> r == Err::<(), EvmInterpreterError>(
                EvmInterpreterError::StackTooSmall,
            ) && final(self).inner.stack@ == old(self).inner.stack@,
            old(self).inner.stack@.len() > idx ==> r == Ok::<(), EvmInterpreterError>(()) && ({
                let s = old(self).inner.stack@;
                let len = s.len();
                final(self).inner.stack@ == s.update(len - 1, s[len - 1 - idx]).update(
                    len - 1 - idx,
                    s[len - 1],
                )
            }),
    {
        let sp = self.inner.stack.len();
        if sp <= idx {
            return Err(EvmInterpreterError::StackTooSmall);
        }
        let a = self.inner.stack[sp - 1];
        let b = self.inner.stack[sp - 1 - idx];
        self.inner.stack[sp - 1] = b;
        self.inner.stack[sp - 1 - idx] = a;
        Ok(())
    }

    /// Push a copy of the element `idx` positions from the top.
    pub fn _do_dup(&mut self, idx: usize) -> (r: Result<(), EvmInterpreterError>)
        requires
            idx >= 1,
        ensures
            final(self).inner.code == old(self).inner.code,
            final(self).inner.pc == old(self).inner.pc,
            final(self).inner.memory == old(self).inner.memory,
            final(self).outer == old(self).outer,
            old(self).inner.stack@.len() < idx ==> r == Err::<(), EvmInterpreterError>(
                EvmInterpreterError::StackTooSmall,
            ) && final(self).inner.stack@ == old(self).inner.stack@,
            old(self).inner.stack@.len() >= idx && old(self).inner.stack@.len()
                >= EVM_STACK_SIZE ==> r == Err::<(), EvmInterpreterError>(
                EvmInterpreterError::StackFull,
            ) && final(self).inner.stack@ == old(self).inner.stack@,
            old(self).inner.stack@.len() >= idx && old(self).inner.stack@.len()
                < EVM_STACK_SIZE ==> r == Ok::<(), EvmInterpreterError>(()) && final(self).inner.stack@ == old(self).inner.stack@.push(
                old(self).inner.stack@[old(self).inner.stack@.len() - idx],
            ),
    {
        let sp = self.inner.stack.len();
        if sp < idx {
            return Err(EvmInterpreterError::StackTooSmall);
        }
        let v = self.inner.stack[sp - idx];
        self.inner.push(v)?;
        Ok(())
    }

    /// Execute one already-fetched instruction, with the program counter
    /// already advanced past it. The result and every state change are
    /// exactly those of the specification step `step_op`.
    #[verifier::rlimit(100)]
    pub fn tick_inner(&mut self, op: &EvmOp) -> (r: Result<bool, EvmInterpreterError>)
        requires
            old(self).wf(),
        ensures
            final(self).wf(),
            final(self).inner.code == old(self).inner.code,
            r is Err ==> final(self).inner.memory == old(self).inner.memory
                && final(self).inner.pc == old(self).inner.pc
                && final(self).outer == old(self).outer,
            r is Err ==> final(self).inner.stack@.len() <= old(self).inner.stack@.len()
                && (forall|i: int|
                    0 <= i < final(self).inner.stack@.len()
                        ==> #[trigger] final(self).inner.stack@[i] == old(self).inner.stack@[i]),
            r is Err && *op == EvmOp::Jump && old(self).inner.stack@.len() >= 1
                ==> final(self).inner.stack@.len() == old(self).inner.stack@.len() - 1,
            r is Err && *op == EvmOp::Jumpi && old(self).inner.stack@.len() >= 2
                ==> final(self).inner.stack@.len() == old(self).inner.stack@.len() - 2,
            ({
                let sr = step_op(*op, old(self).view_state(), old(self).inner.code.code.ops@);
                match r {
                    Ok(cont) => sr == Ok::<(StateV, bool), EvmInterpreterError>(
                        (final(self).view_state(), cont),
                    ),
                    Err(e) => sr == Err::<(StateV, bool), EvmInterpreterError>(e),
                }
            }),
    {
        let ghost st0 = old(self).view_state();
        let ghost ops = old(self).inner.code.code.ops@;
        proof {
            lemma_pow2_bridge();
            assert(usize::MAX <= u64::MAX);
        }
        match op {
            EvmOp::Stop => Ok(false),
            EvmOp::Push(_, val) => {
                self.inner.push(*val)?;
                Ok(true)
            },
            EvmOp::Pop => {
                self.inner.pop()?;
                Ok(true)
            },
            EvmOp::Jumpdest => Ok(true),
            EvmOp::Mload => {
                let offset = self.inner.pop()?;
                if !offset.fits_u64() || offset.d0 > (usize::MAX - 32) as u64 {
                    return Err(EvmInterpreterError::MemoryAccessTooLarge);
                }
                let off = offset.d0 as usize;
                let v = mem_load32(&mut self.inner.memory, off);
                proof {
                    let g = mem_grown(st0.mem, off as nat + 32);
                    lemma_be_to_nat_bound(g.subrange(off as int, off as int + 32));
                    crate::word::lemma_word_eq_of_nat(
                        v,
                        be_to_nat(g.subrange(off as int, off as int + 32)),
                    );
                }
                self.inner.push(v)?;
                Ok(true)
            },
            EvmOp::Mstore => {
                let (offset, value) = self.pop2()?;
                if !offset.fits_u64() || offset.d0 > (usize::MAX - 32) as u64 {
                    return Err(EvmInterpreterError::MemoryAccessTooLarge);
                }
                let off = offset.d0 as usize;
                mem_store32(&mut self.inner.memory, off, &value);
                Ok(true)
            },
            EvmOp::Sload => {
                let key = self.inner.pop()?;
                let val = self.outer.storage.get(&key);
                self.inner.push(val)?;
                Ok(true)
            },
            EvmOp::Sstore => {
                let (key, val) = self.pop2()?;
                self.outer.storage.insert(key, val);
                Ok(true)
            },
            EvmOp::Jump => {
                let target = self.inner.pop()?;
                match self.inner.code.target2opidx(&target) {
                    None => Err(EvmInterpreterError::JumpDestinationInvalid),
                    Some(opidx) => {
                        proof {
                            let t = st0.stack.last().as_nat();
                            let i = choose|i: int|
                                0 <= i < ops.len() && opidx_offset(ops, i) == t;
                            lemma_opidx_offset_injective(ops, i, opidx as int);
                        }
                        if !self.inner.code.is_jumpdest(opidx) {
                            return Err(EvmInterpreterError::JumpDestinationNotJumpdest);
                        }
                        self.inner.pc = opidx;
                        Ok(true)
                    },
                }
            },
            EvmOp::Jumpi => {
                let (target, cond) = self.pop2()?;
                if !cond.is_zero() {
                    match self.inner.code.target2opidx(&target) {
                        None => Err(EvmInterpreterError::JumpDestinationInvalid),
                        Some(opidx) => {
                            proof {
                                let t = st0.stack.last().as_nat();
                                let i = choose|i: int|
                                    0 <= i < ops.len() && opidx_offset(ops, i) == t;
                                lemma_opidx_offset_injective(ops, i, opidx as int);
                            }
                            if !self.inner.code.is_jumpdest(opidx) {
                                return Err(EvmInterpreterError::JumpDestinationNotJumpdest);
                            }
                            self.inner.pc = opidx;
                            Ok(true)
                        },
                    }
                } else {
                    Ok(true)
                }
            },
            EvmOp::Callvalue => {
                let cv = self.outer.callvalue;
                self.inner.push(cv)?;
                Ok(true)
            },
            EvmOp::Calldatasize => {
                let cl = self.outer.calldata.len();
                let w = Word::from_u64(cl as u64);
                proof {
                    crate::word::lemma_word_eq_of_nat(w, st0.calldata.len());
                }
                self.inner.push(w)?;
                Ok(true)
            },
            EvmOp::Calldataload => {
                let offset = self.inner.pop()?;
                let cl = self.outer.calldata.len();
                if !offset.fits_u64() {
                    self.inner.push(Word::zero())?;
                    return Ok(true);
                }
                if offset.d0 >= cl as u64 {
                    self.inner.push(Word::zero())?;
                    return Ok(true);
                }
                let v = crate::bytes::word_from_be_padded(
                    &self.outer.calldata,
                    offset.d0 as usize,
                );
                proof {
                    let off = st0.stack.last().as_nat();
                    let p = calldata_padded(st0.calldata);
                    assert(p.subrange(off as int, off as int + 32).len() == 32);
                    lemma_be_to_nat_bound(p.subrange(off as int, off as int + 32));
                    crate::word::lemma_word_eq_of_nat(
                        v,
                        be_to_nat(p.subrange(off as int, off as int + 32)),
                    );
                }
                self.inner.push(v)?;
                Ok(true)
            },
            EvmOp::Iszero => {
                let a = self.inner.pop()?;
                let c = operations::Iszero(a);
                proof {
                    crate::word::lemma_word_eq_of_nat(c, iszero_val(a));
                }
                self.inner.push(c)?;
                Ok(true)
            },
            EvmOp::Not => {
                let a = self.inner.pop()?;
                let c = operations::Not(a);
                self.inner.push(c)?;
                Ok(true)
            },
            EvmOp::Add | EvmOp::Mul | EvmOp::Sub | EvmOp::Div | EvmOp::Sdiv | EvmOp::Mod
            | EvmOp::Exp | EvmOp::Lt | EvmOp::Gt | EvmOp::Slt | EvmOp::Sgt | EvmOp::Eq
            | EvmOp::And | EvmOp::Or | EvmOp::Shl | EvmOp::Shr => self.tick_binary(op),
            EvmOp::Swap1 | EvmOp::Swap2 | EvmOp::Swap3 | EvmOp::Swap4 | EvmOp::Swap5
            | EvmOp::Swap6 | EvmOp::Swap7 | EvmOp::Swap8 | EvmOp::Swap9 | EvmOp::Swap10
            | EvmOp::Swap11 | EvmOp::Swap12 | EvmOp::Swap13 | EvmOp::Swap14 | EvmOp::Swap15
            | EvmOp::Swap16 | EvmOp::Dup1 | EvmOp::Dup2 | EvmOp::Dup3 | EvmOp::Dup4
            | EvmOp::Dup5 | EvmOp::Dup6 | EvmOp::Dup7 | EvmOp::Dup8 | EvmOp::Dup9
            | EvmOp::Dup10 | EvmOp::Dup11 | EvmOp::Dup12 | EvmOp::Dup13 | EvmOp::Dup14
            | EvmOp::Dup15 | EvmOp::Dup16 => self.tick_stack_shuffle(op),
            _ => Err(EvmInterpreterError::UnknownInstruction(*op)),
        }
    }


    /// The SWAP and DUP family of `tick_inner`.
    #[verifier::rlimit(100)]
    fn tick_stack_shuffle(&mut self, op: &EvmOp) -> (r: Result<bool, EvmInterpreterError>)
        requires
            old(self).wf(),
            is_swap_or_dup(*op),
        ensures
            final(self).wf(),
            final(self).inner.code == old(self).inner.code,
            r is Err ==> final(self).inner.memory == old(self).inner.memory
                && final(self).inner.pc == old(self).inner.pc
                && final(self).outer == old(self).outer,
            r is Err ==> final(self).inner.stack@.len() <= old(self).inner.stack@.len()
                && (forall|i: int|
                    0 <= i < final(self).inner.stack@.len()
                        ==> #[trigger] final(self).inner.stack@[i] == old(self).inner.stack@[i]),
            ({
                let sr = step_op(*op, old(self).view_state(), old(self).inner.code.code.ops@);
                match r {
                    Ok(cont) => sr == Ok::<(StateV, bool), EvmInterpreterError>(
                        (final(self).view_state(), cont),
                    ),
                    Err(e) => sr == Err::<(StateV, bool), EvmInterpreterError>(e),
                }
            }),
    {
        match op {
            EvmOp::Swap1 => { self._do_swap(1)?; Ok(true) },
            EvmOp::Swap2 => { self._do_swap(2)?; Ok(true) },
            EvmOp::Swap3 => { self._do_swap(3)?; Ok(true) },
            EvmOp::Swap4 => { self._do_swap(4)?; Ok(true) },
            EvmOp::Swap5 => { self._do_swap(5)?; Ok(true) },
            EvmOp::Swap6 => { self._do_swap(6)?; Ok(true) },
            EvmOp::Swap7 => { self._do_swap(7)?; Ok(true) },
            EvmOp::Swap8 => { self._do_swap(8)?; Ok(true) },
            EvmOp::Swap9 => { self._do_swap(9)?; Ok(true) },
            EvmOp::Swap10 => { self._do_swap(10)?; Ok(true) },
            EvmOp::Swap11 => { self._do_swap(11)?; Ok(true) },
            EvmOp::Swap12 => { self._do_swap(12)?; Ok(true) },
            EvmOp::Swap13 => { self._do_swap(13)?; Ok(true) },
            EvmOp::Swap14 => { self._do_swap(14)?; Ok(true) },
            EvmOp::Swap15 => { self._do_swap(15)?; Ok(true) },
            EvmOp::Swap16 => { self._do_swap(16)?; Ok(true) },
            EvmOp::Dup1 => { self._do_dup(1)?; Ok(true) },
            EvmOp::Dup2 => { self._do_dup(2)?; Ok(true) },
            EvmOp::Dup3 => { self._do_dup(3)?; Ok(true) },
            EvmOp::Dup4 => { self._do_dup(4)?; Ok(true) },
            EvmOp::Dup5 => { self._do_dup(5)?; Ok(true) },
            EvmOp::Dup6 => { self._do_dup(6)?; Ok(true) },
            EvmOp::Dup7 => { self._do_dup(7)?; Ok(true) },
            EvmOp::Dup8 => { self._do_dup(8)?; Ok(true) },
            EvmOp::Dup9 => { self._do_dup(9)?; Ok(true) },
            EvmOp::Dup10 => { self._do_dup(10)?; Ok(true) },
            EvmOp::Dup11 => { self._do_dup(11)?; Ok(true) },
            EvmOp::Dup12 => { self._do_dup(12)?; Ok(true) },
            EvmOp::Dup13 => { self._do_dup(13)?; Ok(true) },
            EvmOp::Dup14 => { self._do_dup(14)?; Ok(true) },
            EvmOp::Dup15 => { self._do_dup(15)?; Ok(true) },
            EvmOp::Dup16 => { self._do_dup(16)?; Ok(true) },
            _ => Err(EvmInterpreterError::UnknownInstruction(*op)),
        }
    }

    /// The two-operand arithmetic, comparison and bitwise family of
    /// `tick_inner`.
    #[verifier::rlimit(100)]
    fn tick_binary(&mut self, op: &EvmOp) -> (r: Result<bool, EvmInterpreterError>)
        requires
            old(self).wf(),
            is_two_operand(*op),
        ensures
            final(self).wf(),
            final(self).inner.code == old(self).inner.code,
            r is Err ==> final(self).inner.memory == old(self).inner.memory
                && final(self).inner.pc == old(self).inner.pc
                && final(self).outer == old(self).outer,
            r is Err ==> final(self).inner.stack@.len() <= old(self).inner.stack@.len()
                && (forall|i: int|
                    0 <= i < final(self).inner.stack@.len()
                        ==> #[trigger] final(self).inner.stack@[i] == old(self).inner.stack@[i]),
            ({
                let sr = step_op(*op, old(self).view_state(), old(self).inner.code.code.ops@);
                match r {
                    Ok(cont) => sr == Ok::<(StateV, bool), EvmInterpreterError>(
                        (final(self).view_state(), cont),
                    ),
                    Err(e) => sr == Err::<(StateV, bool), EvmInterpreterError>(e),
                }
            }),
    {
        match op {
            EvmOp::Add => {
                let (a, b) = self.pop2()?;
                let c = operations::Add(a, b);
                proof {
                    crate::word::lemma_word_eq_of_nat(c, (a.as_nat() + b.as_nat()) % pow2_256());
                }
                self.inner.push(c)?;
                Ok(true)
            },
            EvmOp::Mul => {
                let (a, b) = self.pop2()?;
                let c = operations::Mul(a, b);
                proof {
                    crate::word::lemma_word_eq_of_nat(c, (a.as_nat() * b.as_nat()) % pow2_256());
                }
                self.inner.push(c)?;
                Ok(true)
            },
            EvmOp::Sub => {
                let (a, b) = self.pop2()?;
                let c = operations::Sub(a, b);
                proof {
                    crate::word::lemma_word_eq_of_nat(
                        c,
                        ((a.as_nat() - b.as_nat()) % (pow2_256() as int)) as nat,
                    );
                }
                self.inner.push(c)?;
                Ok(true)
            },
            EvmOp::Div => {
                let (a, b) = self.pop2()?;
                let c = operations::Div(a, b);
                proof {
                    if b.as_nat() != 0 {
                        a.lemma_as_nat_bound();
                        vstd::arithmetic::div_mod::lemma_div_nonincreasing(
                            a.as_nat() as int,
                            b.as_nat() as int,
                        );
                    }
                    crate::word::lemma_word_eq_of_nat(
                        c,
                        if b.as_nat() == 0 {
                            0nat
                        } else {
                            a.as_nat() / b.as_nat()
                        },
                    );
                }
                self.inner.push(c)?;
                Ok(true)
            },
            EvmOp::Sdiv => {
                let (a, b) = self.pop2()?;
                let c = operations::Sdiv(a, b);
                proof {
                    crate::word::lemma_word_eq_of_nat(
                        c,
                        (operations::evm_sdiv(a.as_int(), b.as_int()) % (pow2_256() as int)) as nat,
                    );
                }
                self.inner.push(c)?;
                Ok(true)
            },
            EvmOp::Mod => {
                let (a, b) = self.pop2()?;
                let c = operations::Mod(a, b);
                proof {
                    if b.as_nat() != 0 {
                        b.lemma_as_nat_bound();
                    }
                    crate::word::lemma_word_eq_of_nat(
                        c,
                        if b.as_nat() == 0 {
                            0nat
                        } else {
                            a.as_nat() % b.as_nat()
                        },
                    );
                }
                self.inner.push(c)?;
                Ok(true)
            },
            EvmOp::Exp => {
                let (a, b) = self.pop2()?;
                let c = operations::Exp(a, b);
                proof {
                    crate::word::lemma_word_eq_of_nat(
                        c,
                        (vstd::arithmetic::power::pow(a.as_nat() as int, b.as_nat()) % (
                        pow2_256() as int)) as nat,
                    );
                }
                self.inner.push(c)?;
                Ok(true)
            },
            EvmOp::Lt => {
                let (a, b) = self.pop2()?;
                let c = operations::Lt(a, b);
                proof {
                    crate::word::lemma_word_eq_of_nat(c, bool_val(a.as_nat() < b.as_nat()));
                }
                self.inner.push(c)?;
                Ok(true)
            },
            EvmOp::Gt => {
                let (a, b) = self.pop2()?;
                let c = operations::Gt(a, b);
                proof {
                    crate::word::lemma_word_eq_of_nat(c, bool_val(a.as_nat() > b.as_nat()));
                }
                self.inner.push(c)?;
                Ok(true)
            },
            EvmOp::Slt => {
                let (a, b) = self.pop2()?;
                let c = operations::Slt(a, b);
                proof {
                    crate::word::lemma_word_eq_of_nat(c, bool_val(a.as_int() < b.as_int()));
                }
                self.inner.push(c)?;
                Ok(true)
            },
            EvmOp::Sgt => {
                let (a, b) = self.pop2()?;
                let c = operations::Sgt(a, b);
                proof {
                    crate::word::lemma_word_eq_of_nat(c, bool_val(a.as_int() > b.as_int()));
                }
                self.inner.push(c)?;
                Ok(true)
            },
            EvmOp::Eq => {
                let (a, b) = self.pop2()?;
                let c = operations::Eq(a, b);
                proof {
                    crate::word::lemma_word_eq_of_nat(c, bool_val(a.as_nat() == b.as_nat()));
                }
                self.inner.push(c)?;
                Ok(true)
            },
            EvmOp::And => {
                let (a, b) = self.pop2()?;
                let c = operations::And(a, b);
                self.inner.push(c)?;
                Ok(true)
            },
            EvmOp::Or => {
                let (a, b) = self.pop2()?;
                let c = operations::Or(a, b);
                self.inner.push(c)?;
                Ok(true)
            },
            EvmOp::Shl => {
                let (a, b) = self.pop2()?;
                let c = operations::Shl(a, b);
                proof {
                    if a.as_nat() < 256 {
                    } else {
                    }
                    b.lemma_as_nat_bound();
                    if a.as_nat() < 256 {
                        crate::word::lemma_word_eq_of_nat(
                            c,
                            (b.as_nat() * vstd::arithmetic::power2::pow2(a.as_nat())) % pow2_256(),
                        );
                    } else {
                        crate::word::lemma_word_eq_of_nat(c, 0nat);
                    }
                }
                self.inner.push(c)?;
                Ok(true)
            },
            EvmOp::Shr => {
                let (a, b) = self.pop2()?;
                let c = operations::Shr(a, b);
                proof {
                    b.lemma_as_nat_bound();
                    if a.as_nat() < 256 {
                        vstd::arithmetic::power2::lemma_pow2_pos(a.as_nat());
                        vstd::arithmetic::div_mod::lemma_div_nonincreasing(
                            b.as_nat() as int,
                            vstd::arithmetic::power2::pow2(a.as_nat()) as int,
                        );
                        crate::word::lemma_word_eq_of_nat(
                            c,
                            b.as_nat() / vstd::arithmetic::power2::pow2(a.as_nat()),
                        );
                    } else {
                        crate::word::lemma_word_eq_of_nat(c, 0nat);
                    }
                }
                self.inner.push(c)?;
                Ok(true)
            },
            _ => Err(EvmInterpreterError::UnknownInstruction(*op)),
        }
    }

    /// Execute one instruction in the simplified regime: branch targets are
    /// taken as instruction indices without consulting the branch-target
    /// index or requiring a JUMPDEST, and the memory, storage and call-data
    /// instructions are refused. The result and state changes are exactly
    /// those of `step_op_simplified`.
    pub fn tick_inner_simplified(&mut self, op: EvmOp) -> (r: Result<bool, EvmInterpreterError>)
        requires
            old(self).wf(),
        ensures
            final(self).wf(),
            final(self).inner.code == old(self).inner.code,
            r is Err ==> final(self).inner.memory == old(self).inner.memory
                && final(self).inner.pc == old(self).inner.pc
                && final(self).outer == old(self).outer,
            r is Err ==> final(self).inner.stack@.len() <= old(self).inner.stack@.len()
                && (forall|i: int|
                    0 <= i < final(self).inner.stack@.len()
                        ==> #[trigger] final(self).inner.stack@[i] == old(self).inner.stack@[i]),
            r is Err && op == EvmOp::Jump && old(self).inner.stack@.len() >= 1
                ==> final(self).inner.stack@.len() == old(self).inner.stack@.len() - 1,
            r is Err && op == EvmOp::Jumpi && old(self).inner.stack@.len() >= 2
                ==> final(self).inner.stack@.len() == old(self).inner.stack@.len() - 2,
            ({
                let sr = step_op_simplified(
                    op,
                    old(self).view_state(),
                    old(self).inner.code.code.ops@,
                );
                match r {
                    Ok(cont) => sr == Ok::<(StateV, bool), EvmInterpreterError>(
                        (final(self).view_state(), cont),
                    ),
                    Err(e) => sr == Err::<(StateV, bool), EvmInterpreterError>(e),
                }
            }),
    {
        match op {
            EvmOp::Jump => {
                let target = self.inner.pop()?;
                if !target.fits_u64() || target.d0 > usize::MAX as u64 {
                    return Err(EvmInterpreterError::JumpDestinationInvalid);
                }
                self.inner.pc = target.d0 as usize;
                Ok(true)
            },
            EvmOp::Jumpi => {
                let (target, cond) = self.pop2()?;
                if !cond.is_zero() {
                    if !target.fits_u64() || target.d0 > usize::MAX as u64 {
                        return Err(EvmInterpreterError::JumpDestinationInvalid);
                    }
                    self.inner.pc = target.d0 as usize;
                }
                Ok(true)
            },
            EvmOp::Mload | EvmOp::Mstore | EvmOp::Sload | EvmOp::Sstore | EvmOp::Callvalue
            | EvmOp::Calldatasize | EvmOp::Calldataload => Err(
                EvmInterpreterError::UnknownInstruction(op),
            ),
            _ => self.tick_inner(&op),
        }
    }

    /// Pop two words; the first returned is the one popped first (the top).
    fn pop2(&mut self) -> (r: Result<(Word, Word), EvmInterpreterError>)
        ensures
            final(self).inner.code == old(self).inner.code,
            final(self).inner.pc == old(self).inner.pc,
            final(self).inner.memory == old(self).inner.memory,
            final(self).outer == old(self).outer,
            final(self).inner.stack@.len() <= old(self).inner.stack@.len(),
            forall|i: int|
                0 <= i < final(self).inner.stack@.len()
                    ==> #[trigger] final(self).inner.stack@[i] == old(self).inner.stack@[i],
            old(self).inner.stack@.len() < 2 ==> r == Err::<(Word, Word), EvmInterpreterError>(
                EvmInterpreterError::StackEmpty,
            ) && final(self).inner.stack@.len() == 0,
            old(self).inner.stack@.len() >= 2 ==> ({
                let s = old(self).inner.stack@;
                r == Ok::<(Word, Word), EvmInterpreterError>((s.last(), s[s.len() - 2]))
                    && final(self).inner.stack@ == s.take(s.len() - 2)
            }),
    {
        let a = self.inner.pop()?;
        let b = self.inner.pop()?;
        proof {
            if old(self).inner.stack@.len() >= 2 {
                assert(old(self).inner.stack@.drop_last().drop_last() =~= old(
                    self,
                ).inner.stack@.take(old(self).inner.stack@.len() - 2));
            }
        }
        Ok((a, b))
    }

    /// One interpreter tick: fetch the instruction at the program counter,
    /// advance it, and execute. Returns whether execution continues.
    pub fn tick(&mut self) -> (r: Result<bool, EvmInterpreterError>)
        requires
            old(self).wf(),
        ensures
            final(self).wf(),
            final(self).inner.code == old(self).inner.code,
            r is Err ==> final(self).inner.memory == old(self).inner.memory
                && final(self).outer == old(self).outer
                && old(self).inner.pc < old(self).inner.code.code.ops@.len()
                && final(self).inner.pc == old(self).inner.pc + 1,
            r is Err ==> final(self).inner.stack@.len() <= old(self).inner.stack@.len()
                && (forall|i: int|
                    0 <= i < final(self).inner.stack@.len()
                        ==> #[trigger] final(self).inner.stack@[i] == old(self).inner.stack@[i]),
            ({
                let sr = tick_spec(old(self).view_state(), old(self).inner.code.code.ops@);
                match r {
                    Ok(cont) => sr == Ok::<(StateV, bool), EvmInterpreterError>(
                        (final(self).view_state(), cont),
                    ),
                    Err(e) => sr == Err::<(StateV, bool), EvmInterpreterError>(e),
                }
            }),
    {
        if self.inner.pc >= self.inner.code.code.ops.len() {
            return Ok(false);
        }
        let op = self.inner.code.code.ops[self.inner.pc];
        self.inner.pc = self.inner.pc + 1;
        proof {
            assert(self.view_state() =~= (StateV {
                pc: old(self).view_state().pc + 1,
                ..old(self).view_state()
            }));
        }
        self.tick_inner(&op)
    }
}

} // verus!
