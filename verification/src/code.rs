use vstd::prelude::*;
use vstd::slice::slice_subrange;
use crate::bytes::{
    be_bytes, be_to_nat, lemma_be_to_nat_bound, lemma_pow256_increases, pow256, word_from_be,
    word_to_be_n,
};
use crate::word::{lemma_word_of_nat_as_nat, word_of_nat, Word};

verus! {

/// One EVM instruction.
///
/// `Push` carries the immediate byte count and the immediate value; the
/// `Augmented` forms are the fused `PUSH`+`JUMP`/`JUMPI` pairs produced by the
/// peephole rewriter and never appear in serialized bytecode other than as
/// their underlying pair. `Unknown` preserves an unrecognized opcode byte in
/// lax parsing mode.
#[derive(Clone, Copy, Debug, PartialEq, Eq, Structural)]
pub enum EvmOp {
    Stop,
    Add,
    Mul,
    Sub,
    Div,
    Sdiv,
    Mod,
    Exp,
    Lt,
    Gt,
    Slt,
    Sgt,
    Eq,
    Iszero,
    And,
    Or,
    Not,
    Shl,
    Shr,
    Sha3,
    Origin,
    Caller,
    Callvalue,
    Calldataload,
    Calldatasize,
    Pop,
    Mload,
    Mstore,
    Mstore8,
    Sload,
    Sstore,
    Jump,
    Jumpi,
    Jumpdest,
    Push(usize, Word),
    Dup1,
    Dup2,
    Dup3,
    Dup4,
    Dup5,
    Dup6,
    Dup7,
    Dup8,
    Dup9,
    Dup10,
    Dup11,
    Dup12,
    Dup13,
    Dup14,
    Dup15,
    Dup16,
    Swap1,
    Swap2,
    Swap3,
    Swap4,
    Swap5,
    Swap6,
    Swap7,
    Swap8,
    Swap9,
    Swap10,
    Swap11,
    Swap12,
    Swap13,
    Swap14,
    Swap15,
    Swap16,
    Log2,
    Return,
    Revert,
    Invalid,
    AugmentedPushJump(usize, Word),
    AugmentedPushJumpi(usize, Word),
    Unknown(u8),
}

#[derive(Clone, Copy, Debug, PartialEq, Eq, Structural)]
pub enum EvmOpError {
    ParserErrorIncompleteInstruction,
    ParserErrorUnknownInstruction(u8),
}

#[derive(Clone, Copy, Debug, PartialEq, Eq, Structural)]
pub enum EvmOpParserMode {
    Lax,
    Strict,
}

/// The opcode byte of each instruction that is encoded as a single byte.
/// For the payload-carrying variants this value is unused.
pub open spec fn opcode_byte(op: EvmOp) -> u8 {
    match op {
        EvmOp::Stop => 0x00,
        EvmOp::Add => 0x01,
        EvmOp::Mul => 0x02,
        EvmOp::Sub => 0x03,
        EvmOp::Div => 0x04,
        EvmOp::Sdiv => 0x05,
        EvmOp::Mod => 0x06,
        EvmOp::Exp => 0x0a,
        EvmOp::Lt => 0x10,
        EvmOp::Gt => 0x11,
        EvmOp::Slt => 0x12,
        EvmOp::Sgt => 0x13,
        EvmOp::Eq => 0x14,
        EvmOp::Iszero => 0x15,
        EvmOp::And => 0x16,
        EvmOp::Or => 0x17,
        EvmOp::Not => 0x19,
        EvmOp::Shl => 0x1b,
        EvmOp::Shr => 0x1c,
        EvmOp::Sha3 => 0x20,
        EvmOp::Origin => 0x32,
        EvmOp::Caller => 0x33,
        EvmOp::Callvalue => 0x34,
        EvmOp::Calldataload => 0x35,
        EvmOp::Calldatasize => 0x36,
        EvmOp::Pop => 0x50,
        EvmOp::Mload => 0x51,
        EvmOp::Mstore => 0x52,
        EvmOp::Mstore8 => 0x53,
        EvmOp::Sload => 0x54,
        EvmOp::Sstore => 0x55,
        EvmOp::Jump => 0x56,
        EvmOp::Jumpi => 0x57,
        EvmOp::Jumpdest => 0x5b,
        EvmOp::Dup1 => 0x80,
        EvmOp::Dup2 => 0x81,
        EvmOp::Dup3 => 0x82,
        EvmOp::Dup4 => 0x83,
        EvmOp::Dup5 => 0x84,
        EvmOp::Dup6 => 0x85,
        EvmOp::Dup7 => 0x86,
        EvmOp::Dup8 => 0x87,
        EvmOp::Dup9 => 0x88,
        EvmOp::Dup10 => 0x89,
        EvmOp::Dup11 => 0x8a,
        EvmOp::Dup12 => 0x8b,
        EvmOp::Dup13 => 0x8c,
        EvmOp::Dup14 => 0x8d,
        EvmOp::Dup15 => 0x8e,
        EvmOp::Dup16 => 0x8f,
        EvmOp::Swap1 => 0x90,
        EvmOp::Swap2 => 0x91,
        EvmOp::Swap3 => 0x92,
        EvmOp::Swap4 => 0x93,
        EvmOp::Swap5 => 0x94,
        EvmOp::Swap6 => 0x95,
        EvmOp::Swap7 => 0x96,
        EvmOp::Swap8 => 0x97,
        EvmOp::Swap9 => 0x98,
        EvmOp::Swap10 => 0x99,
        EvmOp::Swap11 => 0x9a,
        EvmOp::Swap12 => 0x9b,
        EvmOp::Swap13 => 0x9c,
        EvmOp::Swap14 => 0x9d,
        EvmOp::Swap15 => 0x9e,
        EvmOp::Swap16 => 0x9f,
        EvmOp::Log2 => 0xa2,
        EvmOp::Return => 0xf3,
        EvmOp::Revert => 0xfd,
        EvmOp::Invalid => 0xfe,
        EvmOp::Push(_, _) => 0x00,
        EvmOp::AugmentedPushJump(_, _) => 0x00,
        EvmOp::AugmentedPushJumpi(_, _) => 0x00,
        EvmOp::Unknown(b) => b,
    }
}

/// The instruction a single non-PUSH opcode byte decodes to, if any.
pub open spec fn decode_table(b: u8) -> Option<EvmOp> {
    match b {
        0x00 => Some(EvmOp::Stop),
        0x01 => Some(EvmOp::Add),
        0x02 => Some(EvmOp::Mul),
        0x03 => Some(EvmOp::Sub),
        0x04 => Some(EvmOp::Div),
        0x05 => Some(EvmOp::Sdiv),
        0x06 => Some(EvmOp::Mod),
        0x0a => Some(EvmOp::Exp),
        0x10 => Some(EvmOp::Lt),
        0x11 => Some(EvmOp::Gt),
        0x12 => Some(EvmOp::Slt),
        0x13 => Some(EvmOp::Sgt),
        0x14 => Some(EvmOp::Eq),
        0x15 => Some(EvmOp::Iszero),
        0x16 => Some(EvmOp::And),
        0x17 => Some(EvmOp::Or),
        0x19 => Some(EvmOp::Not),
        0x1b => Some(EvmOp::Shl),
        0x1c => Some(EvmOp::Shr),
        0x20 => Some(EvmOp::Sha3),
        0x32 => Some(EvmOp::Origin),
        0x33 => Some(EvmOp::Caller),
        0x34 => Some(EvmOp::Callvalue),
        0x35 => Some(EvmOp::Calldataload),
        0x36 => Some(EvmOp::Calldatasize),
        0x50 => Some(EvmOp::Pop),
        0x51 => Some(EvmOp::Mload),
        0x52 => Some(EvmOp::Mstore),
        0x53 => Some(EvmOp::Mstore8),
        0x54 => Some(EvmOp::Sload),
        0x55 => Some(EvmOp::Sstore),
        0x56 => Some(EvmOp::Jump),
        0x57 => Some(EvmOp::Jumpi),
        0x5b => Some(EvmOp::Jumpdest),
        0x80 => Some(EvmOp::Dup1),
        0x81 => Some(EvmOp::Dup2),
        0x82 => Some(EvmOp::Dup3),
        0x83 => Some(EvmOp::Dup4),
        0x84 => Some(EvmOp::Dup5),
        0x85 => Some(EvmOp::Dup6),
        0x86 => Some(EvmOp::Dup7),
        0x87 => Some(EvmOp::Dup8),
        0x88 => Some(EvmOp::Dup9),
        0x89 => Some(EvmOp::Dup10),
        0x8a => Some(EvmOp::Dup11),
        0x8b => Some(EvmOp::Dup12),
        0x8c => Some(EvmOp::Dup13),
        0x8d => Some(EvmOp::Dup14),
        0x8e => Some(EvmOp::Dup15),
        0x8f => Some(EvmOp::Dup16),
        0x90 => Some(EvmOp::Swap1),
        0x91 => Some(EvmOp::Swap2),
        0x92 => Some(EvmOp::Swap3),
        0x93 => Some(EvmOp::Swap4),
        0x94 => Some(EvmOp::Swap5),
        0x95 => Some(EvmOp::Swap6),
        0x96 => Some(EvmOp::Swap7),
        0x97 => Some(EvmOp::Swap8),
        0x98 => Some(EvmOp::Swap9),
        0x99 => Some(EvmOp::Swap10),
        0x9a => Some(EvmOp::Swap11),
        0x9b => Some(EvmOp::Swap12),
        0x9c => Some(EvmOp::Swap13),
        0x9d => Some(EvmOp::Swap14),
        0x9e => Some(EvmOp::Swap15),
        0x9f => Some(EvmOp::Swap16),
        0xa2 => Some(EvmOp::Log2),
        0xf3 => Some(EvmOp::Return),
        0xfd => Some(EvmOp::Revert),
        0xfe => Some(EvmOp::Invalid),
        _ => None,
    }
}

/// Opcode bytes in the PUSH range.
pub open spec fn is_push_byte(b: u8) -> bool {
    0x60 <= b && b <= 0x7f
}

/// The immediate length encoded by a PUSH opcode byte.
pub open spec fn push_len(b: u8) -> nat {
    (b - 0x60 + 1) as nat
}

/// The PUSH opcode byte for an immediate of `n` bytes.
pub open spec fn push_opcode(n: nat) -> u8 {
    (0x60 + n - 1) as u8
}

pub open spec fn is_augmented(op: EvmOp) -> bool {
    match op {
        EvmOp::AugmentedPushJump(_, _) => true,
        EvmOp::AugmentedPushJumpi(_, _) => true,
        _ => false,
    }
}

/// Well-formed instructions: PUSH immediates fit their declared byte count,
/// and `Unknown` holds only bytes outside the opcode table.
pub open spec fn wf_op(op: EvmOp) -> bool {
    match op {
        EvmOp::Push(n, v) => 1 <= n <= 32 && v.as_nat() < pow256(n as nat),
        EvmOp::AugmentedPushJump(n, v) => 1 <= n <= 32 && v.as_nat() < pow256(n as nat),
        EvmOp::AugmentedPushJumpi(n, v) => 1 <= n <= 32 && v.as_nat() < pow256(n as nat),
        EvmOp::Unknown(b) => !is_push_byte(b) && decode_table(b) is None,
        _ => true,
    }
}

/// The length in bytes of an instruction's encoding.
pub open spec fn op_len(op: EvmOp) -> nat {
    match op {
        EvmOp::Push(n, _) => 1 + n as nat,
        EvmOp::AugmentedPushJump(n, _) => 1 + n as nat + 1,
        EvmOp::AugmentedPushJumpi(n, _) => 1 + n as nat + 1,
        _ => 1,
    }
}

/// The canonical byte image of one instruction. The augmented forms re-expand
/// to their underlying PUSH followed by JUMP/JUMPI.
pub open spec fn encode_op(op: EvmOp) -> Seq<u8> {
    match op {
        EvmOp::Push(n, v) => seq![push_opcode(n as nat)] + be_bytes(v.as_nat(), n as nat),
        EvmOp::AugmentedPushJump(n, v) => seq![push_opcode(n as nat)] + be_bytes(
            v.as_nat(),
            n as nat,
        ) + seq![0x56u8],
        EvmOp::AugmentedPushJumpi(n, v) => seq![push_opcode(n as nat)] + be_bytes(
            v.as_nat(),
            n as nat,
        ) + seq![0x57u8],
        EvmOp::Unknown(b) => seq![b],
        _ => seq![opcode_byte(op)],
    }
}

/// One step of the decoder: the instruction found at the start of `s` and the
/// number of bytes it consumed, or the error the decoder reports there.
pub open spec fn decode_one(s: Seq<u8>, mode: EvmOpParserMode) -> Result<
    (EvmOp, usize),
    EvmOpError,
> {
    if s.len() == 0 {
        Err(EvmOpError::ParserErrorIncompleteInstruction)
    } else if is_push_byte(s[0]) {
        let n = push_len(s[0]);
        if s.len() < 1 + n {
            Err(EvmOpError::ParserErrorIncompleteInstruction)
        } else {
            Ok(
                (
                    EvmOp::Push(n as usize, word_of_nat(be_to_nat(s.subrange(1, 1 + n as int)))),
                    (1 + n) as usize,
                ),
            )
        }
    } else {
        match decode_table(s[0]) {
            Some(op) => Ok((op, 1)),
            None => match mode {
                EvmOpParserMode::Lax => Ok((EvmOp::Unknown(s[0]), 1)),
                EvmOpParserMode::Strict => Err(EvmOpError::ParserErrorUnknownInstruction(s[0])),
            },
        }
    }
}

impl EvmOp {
    /// The length in bytes of this instruction's encoding.
    pub fn len(&self) -> (r: usize)
        requires
            wf_op(*self),
        ensures
            r == op_len(*self),
    {
        match self {
            EvmOp::Push(len, _) => 1 + len,
            EvmOp::AugmentedPushJump(len, _) => 1 + len + 1,
            EvmOp::AugmentedPushJumpi(len, _) => 1 + len + 1,
            _ => 1,
        }
    }

    /// Serialize this instruction to its canonical byte image.
    pub fn to_bytes(&self) -> (r: Vec<u8>)
        requires
            wf_op(*self),
        ensures
            r@ == encode_op(*self),
    {
        match self {
            EvmOp::Push(len, val) => {
                let opcode: u8 = 0x60 + (len - 1) as u8;
                let mut w: Vec<u8> = Vec::new();
                w.push(opcode);
                let mut payload = word_to_be_n(val, *len);
                w.append(&mut payload);
                proof {
                    assert(w@ =~= encode_op(*self));
                }
                w
            },
            EvmOp::AugmentedPushJump(len, val) => {
                let opcode: u8 = 0x60 + (len - 1) as u8;
                let mut w: Vec<u8> = Vec::new();
                w.push(opcode);
                let mut payload = word_to_be_n(val, *len);
                w.append(&mut payload);
                w.push(0x56);
                proof {
                    assert(w@ =~= encode_op(*self));
                }
                w
            },
            EvmOp::AugmentedPushJumpi(len, val) => {
                let opcode: u8 = 0x60 + (len - 1) as u8;
                let mut w: Vec<u8> = Vec::new();
                w.push(opcode);
                let mut payload = word_to_be_n(val, *len);
                w.append(&mut payload);
                w.push(0x57);
                proof {
                    assert(w@ =~= encode_op(*self));
                }
                w
            },
            EvmOp::Unknown(opcode) => {
                let w = vec![*opcode];
                proof {
                    assert(w@ =~= encode_op(*self));
                }
                w
            },
            _ => {
                let b = self.opcode();
                let w = vec![b];
                proof {
                    assert(w@ =~= encode_op(*self));
                }
                w
            },
        }
    }

    /// The single opcode byte of a non-payload instruction.
    fn opcode(&self) -> (r: u8)
        requires
            !(*self matches EvmOp::Push(..)),
            !(*self matches EvmOp::AugmentedPushJump(..)),
            !(*self matches EvmOp::AugmentedPushJumpi(..)),
        ensures
            r == opcode_byte(*self),
    {
        match self {
            EvmOp::Stop => 0x00,
            EvmOp::Add => 0x01,
            EvmOp::Mul => 0x02,
            EvmOp::Sub => 0x03,
            EvmOp::Div => 0x04,
            EvmOp::Sdiv => 0x05,
            EvmOp::Mod => 0x06,
            EvmOp::Exp => 0x0a,
            EvmOp::Lt => 0x10,
            EvmOp::Gt => 0x11,
            EvmOp::Slt => 0x12,
            EvmOp::Sgt => 0x13,
            EvmOp::Eq => 0x14,
            EvmOp::Iszero => 0x15,
            EvmOp::And => 0x16,
            EvmOp::Or => 0x17,
            EvmOp::Not => 0x19,
            EvmOp::Shl => 0x1b,
            EvmOp::Shr => 0x1c,
            EvmOp::Sha3 => 0x20,
            EvmOp::Origin => 0x32,
            EvmOp::Caller => 0x33,
            EvmOp::Callvalue => 0x34,
            EvmOp::Calldataload => 0x35,
            EvmOp::Calldatasize => 0x36,
            EvmOp::Pop => 0x50,
            EvmOp::Mload => 0x51,
            EvmOp::Mstore => 0x52,
            EvmOp::Mstore8 => 0x53,
            EvmOp::Sload => 0x54,
            EvmOp::Sstore => 0x55,
            EvmOp::Jump => 0x56,
            EvmOp::Jumpi => 0x57,
            EvmOp::Jumpdest => 0x5b,
            EvmOp::Dup1 => 0x80,
            EvmOp::Dup2 => 0x81,
            EvmOp::Dup3 => 0x82,
            EvmOp::Dup4 => 0x83,
            EvmOp::Dup5 => 0x84,
            EvmOp::Dup6 => 0x85,
            EvmOp::Dup7 => 0x86,
            EvmOp::Dup8 => 0x87,
            EvmOp::Dup9 => 0x88,
            EvmOp::Dup10 => 0x89,
            EvmOp::Dup11 => 0x8a,
            EvmOp::Dup12 => 0x8b,
            EvmOp::Dup13 => 0x8c,
            EvmOp::Dup14 => 0x8d,
            EvmOp::Dup15 => 0x8e,
            EvmOp::Dup16 => 0x8f,
            EvmOp::Swap1 => 0x90,
            EvmOp::Swap2 => 0x91,
            EvmOp::Swap3 => 0x92,
            EvmOp::Swap4 => 0x93,
            EvmOp::Swap5 => 0x94,
            EvmOp::Swap6 => 0x95,
            EvmOp::Swap7 => 0x96,
            EvmOp::Swap8 => 0x97,
            EvmOp::Swap9 => 0x98,
            EvmOp::Swap10 => 0x99,
            EvmOp::Swap11 => 0x9a,
            EvmOp::Swap12 => 0x9b,
            EvmOp::Swap13 => 0x9c,
            EvmOp::Swap14 => 0x9d,
            EvmOp::Swap15 => 0x9e,
            EvmOp::Swap16 => 0x9f,
            EvmOp::Log2 => 0xa2,
            EvmOp::Return => 0xf3,
            EvmOp::Revert => 0xfd,
            EvmOp::Invalid => 0xfe,
            EvmOp::Unknown(b) => *b,
            _ => 0x00,
        }
    }

    /// Decode the instruction at the start of `b`, returning it together
    /// with the number of bytes consumed.
    pub fn new_from_bytes(b: &[u8], mode: EvmOpParserMode) -> (r: Result<
        (EvmOp, usize),
        EvmOpError,
    >)
        ensures
            r == decode_one(b@, mode),
    {
        if b.len() == 0 {
            return Err(EvmOpError::ParserErrorIncompleteInstruction);
        }
        let opcode = b[0];
        if 0x60 <= opcode && opcode <= 0x7f {
            let len: usize = (opcode - 0x60 + 1) as usize;
            if b.len() < 1 + len {
                Err(EvmOpError::ParserErrorIncompleteInstruction)
            } else {
                let payload = slice_subrange(b, 1, 1 + len);
                let val = word_from_be(payload);
                proof {
                    let pv = be_to_nat(b@.subrange(1, 1 + len as int));
                    lemma_be_to_nat_bound(b@.subrange(1, 1 + len as int));
                    lemma_pow256_increases(len as nat, 32);
                    crate::word::lemma_pow2_bridge();
                    lemma_word_of_nat_as_nat(pv);
                    val.lemma_as_nat_injective(word_of_nat(pv));
                }
                Ok((EvmOp::Push(len, val), 1 + len))
            }
        } else {
            match opcode {
                0x00 => Ok((EvmOp::Stop, 1)),
                0x01 => Ok((EvmOp::Add, 1)),
                0x02 => Ok((EvmOp::Mul, 1)),
                0x03 => Ok((EvmOp::Sub, 1)),
                0x04 => Ok((EvmOp::Div, 1)),
                0x05 => Ok((EvmOp::Sdiv, 1)),
                0x06 => Ok((EvmOp::Mod, 1)),
                0x0a => Ok((EvmOp::Exp, 1)),
                0x10 => Ok((EvmOp::Lt, 1)),
                0x11 => Ok((EvmOp::Gt, 1)),
                0x12 => Ok((EvmOp::Slt, 1)),
                0x13 => Ok((EvmOp::Sgt, 1)),
                0x14 => Ok((EvmOp::Eq, 1)),
                0x15 => Ok((EvmOp::Iszero, 1)),
                0x16 => Ok((EvmOp::And, 1)),
                0x17 => Ok((EvmOp::Or, 1)),
                0x19 => Ok((EvmOp::Not, 1)),
                0x1b => Ok((EvmOp::Shl, 1)),
                0x1c => Ok((EvmOp::Shr, 1)),
                0x20 => Ok((EvmOp::Sha3, 1)),
                0x32 => Ok((EvmOp::Origin, 1)),
                0x33 => Ok((EvmOp::Caller, 1)),
                0x34 => Ok((EvmOp::Callvalue, 1)),
                0x35 => Ok((EvmOp::Calldataload, 1)),
                0x36 => Ok((EvmOp::Calldatasize, 1)),
                0x50 => Ok((EvmOp::Pop, 1)),
                0x51 => Ok((EvmOp::Mload, 1)),
                0x52 => Ok((EvmOp::Mstore, 1)),
                0x53 => Ok((EvmOp::Mstore8, 1)),
                0x54 => Ok((EvmOp::Sload, 1)),
                0x55 => Ok((EvmOp::Sstore, 1)),
                0x56 => Ok((EvmOp::Jump, 1)),
                0x57 => Ok((EvmOp::Jumpi, 1)),
                0x5b => Ok((EvmOp::Jumpdest, 1)),
                0x80 => Ok((EvmOp::Dup1, 1)),
                0x81 => Ok((EvmOp::Dup2, 1)),
                0x82 => Ok((EvmOp::Dup3, 1)),
                0x83 => Ok((EvmOp::Dup4, 1)),
                0x84 => Ok((EvmOp::Dup5, 1)),
                0x85 => Ok((EvmOp::Dup6, 1)),
                0x86 => Ok((EvmOp::Dup7, 1)),
                0x87 => Ok((EvmOp::Dup8, 1)),
                0x88 => Ok((EvmOp::Dup9, 1)),
                0x89 => Ok((EvmOp::Dup10, 1)),
                0x8a => Ok((EvmOp::Dup11, 1)),
                0x8b => Ok((EvmOp::Dup12, 1)),
                0x8c => Ok((EvmOp::Dup13, 1)),
                0x8d => Ok((EvmOp::Dup14, 1)),
                0x8e => Ok((EvmOp::Dup15, 1)),
                0x8f => Ok((EvmOp::Dup16, 1)),
                0x90 => Ok((EvmOp::Swap1, 1)),
                0x91 => Ok((EvmOp::Swap2, 1)),
                0x92 => Ok((EvmOp::Swap3, 1)),
                0x93 => Ok((EvmOp::Swap4, 1)),
                0x94 => Ok((EvmOp::Swap5, 1)),
                0x95 => Ok((EvmOp::Swap6, 1)),
                0x96 => Ok((EvmOp::Swap7, 1)),
                0x97 => Ok((EvmOp::Swap8, 1)),
                0x98 => Ok((EvmOp::Swap9, 1)),
                0x99 => Ok((EvmOp::Swap10, 1)),
                0x9a => Ok((EvmOp::Swap11, 1)),
                0x9b => Ok((EvmOp::Swap12, 1)),
                0x9c => Ok((EvmOp::Swap13, 1)),
                0x9d => Ok((EvmOp::Swap14, 1)),
                0x9e => Ok((EvmOp::Swap15, 1)),
                0x9f => Ok((EvmOp::Swap16, 1)),
                0xa2 => Ok((EvmOp::Log2, 1)),
                0xf3 => Ok((EvmOp::Return, 1)),
                0xfd => Ok((EvmOp::Revert, 1)),
                0xfe => Ok((EvmOp::Invalid, 1)),
                _ => {
                    match mode {
                        EvmOpParserMode::Lax => Ok((EvmOp::Unknown(opcode), 1)),
                        EvmOpParserMode::Strict => Err(
                            EvmOpError::ParserErrorUnknownInstruction(opcode),
                        ),
                    }
                },
            }
        }
    }
}

/// All instructions of a sequence are well formed.
pub open spec fn wf_ops(ops: Seq<EvmOp>) -> bool {
    forall|i: int| 0 <= i < ops.len() ==> wf_op(#[trigger] ops[i])
}

/// No instruction of the sequence is a fused (augmented) form.
pub open spec fn no_augmented(ops: Seq<EvmOp>) -> bool {
    forall|i: int| 0 <= i < ops.len() ==> !is_augmented(#[trigger] ops[i])
}

/// The byte image of an instruction sequence.
pub open spec fn encode_ops(ops: Seq<EvmOp>) -> Seq<u8>
    decreases ops.len(),
{
    if ops.len() == 0 {
        Seq::empty()
    } else {
        encode_op(ops[0]) + encode_ops(ops.drop_first())
    }
}

/// The decoder's result on the tail of `b` starting at `idx`: the decoded
/// instruction sequence, or the error with the byte offset where it occurred.
pub open spec fn decode_from(b: Seq<u8>, idx: int, mode: EvmOpParserMode) -> Result<
    Seq<EvmOp>,
    EvmCodeError,
>
    decreases b.len() - idx,
{
    if idx < 0 || idx >= b.len() {
        Ok(Seq::empty())
    } else {
        match decode_one(b.skip(idx), mode) {
            Ok((op, k)) => match decode_from(b, idx + k, mode) {
                Ok(rest) => Ok(seq![op] + rest),
                Err(e) => Err(e),
            },
            Err(EvmOpError::ParserErrorIncompleteInstruction) => Err(
                EvmCodeError::ParserErrorIncompleteInstruction(idx as usize),
            ),
            Err(EvmOpError::ParserErrorUnknownInstruction(x)) => Err(
                EvmCodeError::ParserErrorUnknownInstruction(idx as usize, x),
            ),
        }
    }
}

/// The decoder's result on a whole byte image.
pub open spec fn decode_ops(b: Seq<u8>, mode: EvmOpParserMode) -> Result<
    Seq<EvmOp>,
    EvmCodeError,
> {
    decode_from(b, 0, mode)
}

/// Greedy left-to-right fusion of PUSH+JUMP and PUSH+JUMPI pairs; every
/// other instruction is copied unchanged.
pub open spec fn augment_ops(ops: Seq<EvmOp>) -> Seq<EvmOp>
    decreases ops.len(),
{
    if ops.len() == 0 {
        Seq::empty()
    } else {
        match ops[0] {
            EvmOp::Push(n, v) => {
                if ops.len() >= 2 && ops[1] == EvmOp::Jump {
                    seq![EvmOp::AugmentedPushJump(n, v)] + augment_ops(ops.skip(2))
                } else if ops.len() >= 2 && ops[1] == EvmOp::Jumpi {
                    seq![EvmOp::AugmentedPushJumpi(n, v)] + augment_ops(ops.skip(2))
                } else {
                    seq![ops[0]] + augment_ops(ops.skip(1))
                }
            },
            _ => seq![ops[0]] + augment_ops(ops.skip(1)),
        }
    }
}

/// A well-formed instruction's encoding has exactly its declared length.
pub proof fn lemma_encode_op_len(op: EvmOp)
    requires
        wf_op(op),
    ensures
        encode_op(op).len() == op_len(op),
{
    match op {
        EvmOp::Push(n, v) => {
            crate::bytes::lemma_be_bytes_len(v.as_nat(), n as nat);
        },
        EvmOp::AugmentedPushJump(n, v) => {
            crate::bytes::lemma_be_bytes_len(v.as_nat(), n as nat);
        },
        EvmOp::AugmentedPushJumpi(n, v) => {
            crate::bytes::lemma_be_bytes_len(v.as_nat(), n as nat);
        },
        _ => {},
    }
}

/// What a successful single-instruction decode guarantees: the instruction
/// is well formed, never a fused form, spans exactly the bytes it re-encodes
/// to, and in strict mode is never `Unknown`.
pub proof fn lemma_decode_one_ok(s: Seq<u8>, mode: EvmOpParserMode)
    ensures
        decode_one(s, mode) matches Ok(p) ==> {
            let (op, k) = p;
            &&& 1 <= k <= s.len()
            &&& k == op_len(op)
            &&& wf_op(op)
            &&& !is_augmented(op)
            &&& encode_op(op) == s.take(k as int)
            &&& (mode == EvmOpParserMode::Strict ==> !(op matches EvmOp::Unknown(_)))
        },
{
    if s.len() == 0 {
    } else if is_push_byte(s[0]) {
        let n = push_len(s[0]);
        if s.len() >= 1 + n {
            let payload = s.subrange(1, 1 + n as int);
            let pv = be_to_nat(payload);
            let op = EvmOp::Push(n as usize, word_of_nat(pv));
            lemma_be_to_nat_bound(payload);
            lemma_pow256_increases(n, 32);
            crate::word::lemma_pow2_bridge();
            lemma_word_of_nat_as_nat(pv);
            crate::bytes::lemma_be_to_nat_bytes(payload);
            assert(encode_op(op) =~= s.take(1 + n as int));
        }
    } else {
        match decode_table(s[0]) {
            Some(op) => {
                assert(opcode_byte(op) == s[0] && wf_op(op) && !is_augmented(op) && op_len(op) == 1
                    && !(op matches EvmOp::Unknown(_)));
                assert(encode_op(op) =~= s.take(1));
            },
            None => {
                if mode == EvmOpParserMode::Lax {
                    assert(encode_op(EvmOp::Unknown(s[0])) =~= s.take(1));
                }
            },
        }
    }
}

/// Appending one instruction appends its encoding.
pub proof fn lemma_encode_ops_push(ops: Seq<EvmOp>, op: EvmOp)
    ensures
        encode_ops(ops.push(op)) == encode_ops(ops) + encode_op(op),
    decreases ops.len(),
{
    if ops.len() == 0 {
        let s = ops.push(op);
        assert(s.drop_last() =~= ops);
        assert(s.drop_first() =~= Seq::<EvmOp>::empty());
        assert(encode_ops(s.drop_first()) == Seq::<u8>::empty());
        assert(encode_ops(s) == encode_op(op) + Seq::<u8>::empty());
        assert(encode_op(op) + Seq::<u8>::empty() =~= encode_op(op));
        assert(Seq::<u8>::empty() + encode_op(op) =~= encode_op(op));
    } else {
        assert(ops.push(op).drop_first() =~= ops.drop_first().push(op));
        lemma_encode_ops_push(ops.drop_first(), op);
        assert(encode_ops(ops.push(op)) =~= encode_ops(ops) + encode_op(op));
    }
}

/// An ordered sequence of instructions: the bytecode of one contract.
#[derive(Clone, Debug, PartialEq, Eq)]
pub struct EvmCode {
    pub ops: Vec<EvmOp>,
}

#[derive(Clone, Copy, Debug, PartialEq, Eq, Structural)]
pub enum EvmCodeError {
    ParserErrorIncompleteInstruction(usize),
    ParserErrorUnknownInstruction(usize, u8),
}

impl EvmCode {
    /// All instructions of this code are well formed.
    pub open spec fn wf(self) -> bool {
        wf_ops(self.ops@)
    }

    /// Decode a whole byte image into a code, reporting the byte offset of
    /// the first failure.
    pub fn new_from_bytes(b: &[u8], mode: EvmOpParserMode) -> (r: Result<EvmCode, EvmCodeError>)
        ensures
            (r matches Ok(code) ==> decode_ops(b@, mode) == Ok::<Seq<EvmOp>, EvmCodeError>(
                code.ops@,
            )),
            (r matches Err(e) ==> decode_ops(b@, mode) == Err::<Seq<EvmOp>, EvmCodeError>(e)),
    {
        let mut idx: usize = 0;
        let mut ops: Vec<EvmOp> = Vec::new();
        let ghost total = decode_from(b@, 0, mode);
        proof {
            match decode_from(b@, 0, mode) {
                Ok(rest) => {
                    assert(Seq::<EvmOp>::empty() + rest =~= rest);
                },
                Err(_) => {},
            }
        }
        while idx < b.len()
            invariant
                idx <= b@.len(),
                total == decode_from(b@, 0, mode),
                (decode_from(b@, idx as int, mode) matches Ok(rest) ==> total == Ok::<
                    Seq<EvmOp>,
                    EvmCodeError,
                >(ops@ + rest)),
                (decode_from(b@, idx as int, mode) matches Err(e) ==> total == Err::<
                    Seq<EvmOp>,
                    EvmCodeError,
                >(e)),
            decreases b@.len() - idx,
        {
            let tail = slice_subrange(b, idx, b.len());
            proof {
                assert(tail@ =~= b@.skip(idx as int));
                lemma_decode_one_ok(b@.skip(idx as int), mode);
            }
            match EvmOp::new_from_bytes(tail, mode) {
                Ok((op, offset)) => {
                    proof {
                        match decode_from(b@, idx + offset, mode) {
                            Ok(rest) => {
                                assert(decode_from(b@, idx as int, mode) == Ok::<
                                    Seq<EvmOp>,
                                    EvmCodeError,
                                >(seq![op] + rest));
                                assert(ops@ + (seq![op] + rest) =~= ops@.push(op) + rest);
                            },
                            Err(_) => {},
                        }
                    }
                    ops.push(op);
                    idx += offset;
                },
                Err(EvmOpError::ParserErrorIncompleteInstruction) => {
                    return Err(EvmCodeError::ParserErrorIncompleteInstruction(idx));
                },
                Err(EvmOpError::ParserErrorUnknownInstruction(opcode)) => {
                    return Err(EvmCodeError::ParserErrorUnknownInstruction(idx, opcode));
                },
            }
        }
        proof {
            assert(ops@ + Seq::<EvmOp>::empty() =~= ops@);
        }
        Ok(EvmCode { ops })
    }

    /// Serialize the code to its canonical byte image.
    pub fn to_bytes(&self) -> (r: Vec<u8>)
        requires
            self.wf(),
        ensures
            r@ == encode_ops(self.ops@),
    {
        let mut ret: Vec<u8> = Vec::new();
        let mut i: usize = 0;
        while i < self.ops.len()
            invariant
                self.wf(),
                i <= self.ops@.len(),
                ret@ == encode_ops(self.ops@.take(i as int)),
            decreases self.ops@.len() - i,
        {
            proof {
                lemma_encode_ops_push(self.ops@.take(i as int), self.ops@[i as int]);
                assert(self.ops@.take(i as int).push(self.ops@[i as int]) =~= self.ops@.take(
                    i + 1,
                ));
            }
            let mut bs = self.ops[i].to_bytes();
            ret.append(&mut bs);
            i += 1;
        }
        proof {
            assert(self.ops@.take(self.ops@.len() as int) =~= self.ops@);
        }
        ret
    }

    /// Rewrite the code by fusing each PUSH immediately followed by JUMP or
    /// JUMPI into the corresponding augmented instruction.
    pub fn augment(&self) -> (r: EvmCode)
        ensures
            r.ops@ == augment_ops(self.ops@),
    {
        let mut ops: Vec<EvmOp> = Vec::new();
        let mut idx: usize = 0;
        proof {
            assert(self.ops@.skip(0) =~= self.ops@);
            assert(Seq::<EvmOp>::empty() + augment_ops(self.ops@) =~= augment_ops(self.ops@));
        }
        while idx < self.ops.len()
            invariant
                idx <= self.ops@.len(),
                augment_ops(self.ops@) == ops@ + augment_ops(self.ops@.skip(idx as int)),
            decreases self.ops@.len() - idx,
        {
            let ghost suffix = self.ops@.skip(idx as int);
            if idx < self.ops.len() - 1 {
                if let EvmOp::Push(len, val) = self.ops[idx] {
                    let next = self.ops[idx + 1];
                    if next.is_jump() {
                        proof {
                            assert(suffix.skip(2) =~= self.ops@.skip(idx + 2));
                            assert(ops@ + (seq![EvmOp::AugmentedPushJump(len, val)] + augment_ops(
                                self.ops@.skip(idx + 2),
                            )) =~= ops@.push(EvmOp::AugmentedPushJump(len, val)) + augment_ops(
                                self.ops@.skip(idx + 2),
                            ));
                        }
                        ops.push(EvmOp::AugmentedPushJump(len, val));
                        idx += 2;
                        continue ;
                    } else if next.is_jumpi() {
                        proof {
                            assert(suffix.skip(2) =~= self.ops@.skip(idx + 2));
                            assert(ops@ + (seq![EvmOp::AugmentedPushJumpi(len, val)] + augment_ops(
                                self.ops@.skip(idx + 2),
                            )) =~= ops@.push(EvmOp::AugmentedPushJumpi(len, val)) + augment_ops(
                                self.ops@.skip(idx + 2),
                            ));
                        }
                        ops.push(EvmOp::AugmentedPushJumpi(len, val));
                        idx += 2;
                        continue ;
                    }
                }
            }
            proof {
                assert(suffix.skip(1) =~= self.ops@.skip(idx + 1));
                assert(ops@ + (seq![suffix[0]] + augment_ops(self.ops@.skip(idx + 1))) =~= ops@.push(
                    suffix[0],
                ) + augment_ops(self.ops@.skip(idx + 1)));
            }
            ops.push(self.ops[idx]);
            idx += 1;
        }
        proof {
            assert(augment_ops(self.ops@.skip(self.ops@.len() as int)) =~= Seq::<EvmOp>::empty());
            assert(ops@ + Seq::<EvmOp>::empty() =~= ops@);
        }
        EvmCode { ops }
    }
}

impl EvmOp {
    fn is_jump(&self) -> (r: bool)
        ensures
            r == (*self == EvmOp::Jump),
    {
        match self {
            EvmOp::Jump => true,
            _ => false,
        }
    }

    fn is_jumpi(&self) -> (r: bool)
        ensures
            r == (*self == EvmOp::Jumpi),
    {
        match self {
            EvmOp::Jumpi => true,
            _ => false,
        }
    }
}


/// `encode_ops` of a cons is the instruction's encoding followed by the rest.
proof fn lemma_encode_ops_cons(x: EvmOp, rest: Seq<EvmOp>)
    ensures
        encode_ops(seq![x] + rest) == encode_op(x) + encode_ops(rest),
{
    let s = seq![x] + rest;
    assert(s[0] == x);
    assert(s.drop_first() =~= rest);
}

/// Decoding starts over exactly one well-formed, unfused instruction.
proof fn lemma_decode_one_of_encode(op: EvmOp, tail: Seq<u8>, mode: EvmOpParserMode)
    requires
        wf_op(op),
        !is_augmented(op),
        op matches EvmOp::Unknown(_) ==> mode == EvmOpParserMode::Lax,
    ensures
        decode_one(encode_op(op) + tail, mode) == Ok::<(EvmOp, usize), EvmOpError>(
            (op, op_len(op) as usize),
        ),
{
    let s = encode_op(op) + tail;
    lemma_encode_op_len(op);
    match op {
        EvmOp::Push(n, v) => {
            let payload = be_bytes(v.as_nat(), n as nat);
            crate::bytes::lemma_be_bytes_len(v.as_nat(), n as nat);
            assert(s[0] == push_opcode(n as nat));
            assert(is_push_byte(s[0]));
            assert(push_len(s[0]) == n as nat);
            assert(s.subrange(1, 1 + n as int) =~= payload);
            crate::bytes::lemma_be_bytes_to_nat(v.as_nat(), n as nat);
            lemma_pow256_increases(n as nat, 32);
            crate::word::lemma_pow2_bridge();
            lemma_word_of_nat_as_nat(v.as_nat());
            v.lemma_as_nat_injective(word_of_nat(v.as_nat()));
        },
        EvmOp::Unknown(b) => {
            assert(s[0] == b);
        },
        _ => {
            assert(s[0] == opcode_byte(op));
            assert(!is_push_byte(opcode_byte(op)) && decode_table(opcode_byte(op))
                == Some(op));
        },
    }
}

/// A byte image built from well-formed, unfused instructions decodes, in lax
/// mode, back to exactly those instructions, from any position of a larger
/// image.
proof fn lemma_decode_from_encode(b: Seq<u8>, idx: int, ops: Seq<EvmOp>)
    requires
        wf_ops(ops),
        no_augmented(ops),
        0 <= idx <= b.len(),
        b.skip(idx) == encode_ops(ops),
    ensures
        decode_from(b, idx, EvmOpParserMode::Lax) == Ok::<Seq<EvmOp>, EvmCodeError>(ops),
    decreases ops.len(),
{
    if ops.len() == 0 {
        assert(b.skip(idx).len() == b.len() - idx);
        assert(ops =~= Seq::<EvmOp>::empty());
    } else {
        let op0 = ops[0];
        let rest = ops.drop_first();
        let k0 = op_len(op0) as int;
        assert(wf_op(op0) && !is_augmented(op0));
        assert(encode_ops(ops) == encode_op(op0) + encode_ops(rest));
        lemma_decode_one_of_encode(op0, encode_ops(rest), EvmOpParserMode::Lax);
        lemma_encode_op_len(op0);
        assert(decode_one(b.skip(idx), EvmOpParserMode::Lax) == Ok::<(EvmOp, usize), EvmOpError>(
            (op0, op_len(op0) as usize),
        ));
        assert(b.skip(idx).len() == b.len() - idx);
        assert(idx + k0 <= b.len()) by {
            assert(encode_ops(ops).len() >= encode_op(op0).len());
        }
        assert(b.skip(idx + k0) =~= b.skip(idx).skip(k0));
        assert(b.skip(idx).skip(k0) =~= encode_ops(rest)) by {
            assert(b.skip(idx) == encode_op(op0) + encode_ops(rest));
        }
        assert(wf_ops(rest) && no_augmented(rest)) by {
            assert(forall|i: int| 0 <= i < rest.len() ==> rest[i] == ops[i + 1]);
        }
        lemma_decode_from_encode(b, idx + k0, rest);
        assert(seq![op0] + rest =~= ops);
    }
}

/// Lax decoding is a left inverse of encoding: any code whose instructions
/// are well formed and unfused is recovered exactly from its byte image.
pub proof fn lemma_decode_lax_encode(ops: Seq<EvmOp>)
    requires
        wf_ops(ops),
        no_augmented(ops),
    ensures
        decode_ops(encode_ops(ops), EvmOpParserMode::Lax) == Ok::<Seq<EvmOp>, EvmCodeError>(ops),
{
    let b = encode_ops(ops);
    assert(b.skip(0) =~= b);
    lemma_decode_from_encode(b, 0, ops);
}

/// Whatever the decoder accepts re-encodes to exactly the bytes it consumed:
/// encoding is a left inverse of decoding, in either mode. In strict mode the
/// result also never holds an `Unknown` instruction.
pub proof fn lemma_decode_from_exact(b: Seq<u8>, idx: int, mode: EvmOpParserMode, ops: Seq<EvmOp>)
    requires
        0 <= idx <= b.len(),
        decode_from(b, idx, mode) == Ok::<Seq<EvmOp>, EvmCodeError>(ops),
    ensures
        encode_ops(ops) == b.skip(idx),
        wf_ops(ops),
        no_augmented(ops),
        mode == EvmOpParserMode::Strict ==> forall|i: int|
            0 <= i < ops.len() ==> !(#[trigger] ops[i] matches EvmOp::Unknown(_)),
    decreases b.len() - idx,
{
    if idx >= b.len() {
        assert(ops =~= Seq::<EvmOp>::empty());
        assert(encode_ops(ops) =~= b.skip(idx));
    } else {
        lemma_decode_one_ok(b.skip(idx), mode);
        match decode_one(b.skip(idx), mode) {
            Ok((op, k)) => {
                match decode_from(b, idx + k, mode) {
                    Ok(rest) => {
                        assert(ops == seq![op] + rest);
                        assert(b.skip(idx).len() == b.len() - idx);
                        lemma_decode_from_exact(b, idx + k, mode, rest);
                        lemma_encode_ops_cons(op, rest);
                        assert(encode_op(op) == b.skip(idx).take(k as int));
                        assert(b.skip(idx + k) =~= b.skip(idx).skip(k as int));
                        assert(encode_op(op) + b.skip(idx).skip(k as int) =~= b.skip(idx));
                        assert(forall|i: int|
                            0 <= i < ops.len() ==> #[trigger] ops[i] == (seq![op] + rest)[i]);
                        assert(wf_ops(ops)) by {
                            assert(forall|i: int| 1 <= i < ops.len() ==> ops[i] == rest[i - 1]);
                        }
                        assert(no_augmented(ops)) by {
                            assert(forall|i: int| 1 <= i < ops.len() ==> ops[i] == rest[i - 1]);
                        }
                        if mode == EvmOpParserMode::Strict {
                            assert(forall|i: int| 1 <= i < ops.len() ==> ops[i] == rest[i - 1]);
                        }
                    },
                    Err(_) => {},
                }
            },
            Err(_) => {},
        }
    }
}

/// Strict decoding followed by encoding restores the byte image, so
/// `encode . decode_strict . encode == encode` on strict-decodable images.
pub proof fn lemma_encode_decode_strict(b: Seq<u8>, ops: Seq<EvmOp>)
    requires
        decode_ops(b, EvmOpParserMode::Strict) == Ok::<Seq<EvmOp>, EvmCodeError>(ops),
    ensures
        encode_ops(ops) == b,
{
    lemma_decode_from_exact(b, 0, EvmOpParserMode::Strict, ops);
    assert(b.skip(0) =~= b);
}

/// Fusion rewrites the instruction list but never the byte image.
pub proof fn lemma_augment_preserves_bytes(ops: Seq<EvmOp>)
    ensures
        encode_ops(augment_ops(ops)) == encode_ops(ops),
    decreases ops.len(),
{
    if ops.len() == 0 {
    } else {
        match ops[0] {
            EvmOp::Push(n, v) => {
                if ops.len() >= 2 && (ops[1] == EvmOp::Jump || ops[1] == EvmOp::Jumpi) {
                    let fused = if ops[1] == EvmOp::Jump {
                        EvmOp::AugmentedPushJump(n, v)
                    } else {
                        EvmOp::AugmentedPushJumpi(n, v)
                    };
                    lemma_augment_preserves_bytes(ops.skip(2));
                    lemma_encode_ops_cons(fused, augment_ops(ops.skip(2)));
                    assert(encode_op(fused) =~= encode_op(ops[0]) + encode_op(ops[1]));
                    assert(encode_ops(ops) == encode_op(ops[0]) + encode_ops(ops.drop_first()));
                    assert(encode_ops(ops.drop_first()) == encode_op(ops[1]) + encode_ops(
                        ops.drop_first().drop_first(),
                    ));
                    assert(ops.drop_first().drop_first() =~= ops.skip(2));
                    assert((encode_op(ops[0]) + encode_op(ops[1])) + encode_ops(ops.skip(2)) =~= (
                    encode_op(ops[0]) + (encode_op(ops[1]) + encode_ops(ops.skip(2)))));
                } else {
                    lemma_augment_preserves_bytes(ops.skip(1));
                    lemma_encode_ops_cons(ops[0], augment_ops(ops.skip(1)));
                    assert(ops.drop_first() =~= ops.skip(1));
                }
            },
            _ => {
                lemma_augment_preserves_bytes(ops.skip(1));
                lemma_encode_ops_cons(ops[0], augment_ops(ops.skip(1)));
                assert(ops.drop_first() =~= ops.skip(1));
            },
        }
    }
}

/// The head of a fused sequence is never a bare JUMP/JUMPI unless the
/// original head was one, and fusion never empties a nonempty sequence.
proof fn lemma_augment_head(s: Seq<EvmOp>)
    requires
        s.len() > 0,
    ensures
        augment_ops(s).len() > 0,
        augment_ops(s)[0] == EvmOp::Jump ==> s[0] == EvmOp::Jump,
        augment_ops(s)[0] == EvmOp::Jumpi ==> s[0] == EvmOp::Jumpi,
        !(augment_ops(s)[0] matches EvmOp::Push(..)) ==> !(s[0] matches EvmOp::Push(..)) || (
        augment_ops(s)[0] matches EvmOp::AugmentedPushJump(..)) || (augment_ops(s)[0] matches
        EvmOp::AugmentedPushJumpi(..)),
{
}

/// Fusing twice is the same as fusing once.
pub proof fn lemma_augment_idempotent(ops: Seq<EvmOp>)
    ensures
        augment_ops(augment_ops(ops)) == augment_ops(ops),
    decreases ops.len(),
{
    if ops.len() == 0 {
    } else {
        match ops[0] {
            EvmOp::Push(n, v) => {
                if ops.len() >= 2 && (ops[1] == EvmOp::Jump || ops[1] == EvmOp::Jumpi) {
                    let fused = if ops[1] == EvmOp::Jump {
                        EvmOp::AugmentedPushJump(n, v)
                    } else {
                        EvmOp::AugmentedPushJumpi(n, v)
                    };
                    let out = augment_ops(ops);
                    lemma_augment_idempotent(ops.skip(2));
                    assert(out == seq![fused] + augment_ops(ops.skip(2)));
                    assert(out[0] == fused);
                    assert(out.skip(1) =~= augment_ops(ops.skip(2)));
                    assert(augment_ops(out) == seq![fused] + augment_ops(out.skip(1)));
                } else {
                    let out = augment_ops(ops);
                    lemma_augment_idempotent(ops.skip(1));
                    assert(out == seq![ops[0]] + augment_ops(ops.skip(1)));
                    assert(out[0] == ops[0]);
                    assert(out.skip(1) =~= augment_ops(ops.skip(1)));
                    if ops.len() >= 2 {
                        lemma_augment_head(ops.skip(1));
                        assert(ops.skip(1)[0] == ops[1]);
                        assert(out.len() >= 2);
                        assert(out[1] == augment_ops(ops.skip(1))[0]);
                        assert(out[1] != EvmOp::Jump && out[1] != EvmOp::Jumpi);
                        assert(augment_ops(out) == seq![out[0]] + augment_ops(out.skip(1)));
                    } else {
                        assert(augment_ops(out) == seq![out[0]] + augment_ops(out.skip(1)));
                    }
                }
            },
            _ => {
                let out = augment_ops(ops);
                lemma_augment_idempotent(ops.skip(1));
                assert(out == seq![ops[0]] + augment_ops(ops.skip(1)));
                assert(out[0] == ops[0]);
                assert(out.skip(1) =~= augment_ops(ops.skip(1)));
                assert(augment_ops(out) == seq![out[0]] + augment_ops(out.skip(1)));
            },
        }
    }
}

/// Fusion preserves well-formedness of every instruction.
pub proof fn lemma_augment_wf(ops: Seq<EvmOp>)
    requires
        wf_ops(ops),
    ensures
        wf_ops(augment_ops(ops)),
    decreases ops.len(),
{
    if ops.len() == 0 {
    } else {
        let out = augment_ops(ops);
        match ops[0] {
            EvmOp::Push(n, v) => {
                if ops.len() >= 2 && (ops[1] == EvmOp::Jump || ops[1] == EvmOp::Jumpi) {
                    assert(wf_ops(ops.skip(2))) by {
                        assert(forall|i: int|
                            0 <= i < ops.skip(2).len() ==> #[trigger] ops.skip(2)[i] == ops[
                            i + 2]);
                    }
                    lemma_augment_wf(ops.skip(2));
                    assert(forall|i: int|
                        1 <= i < out.len() ==> #[trigger] out[i] == augment_ops(ops.skip(2))[i
                        - 1]);
                } else {
                    assert(wf_ops(ops.skip(1))) by {
                        assert(forall|i: int|
                            0 <= i < ops.skip(1).len() ==> #[trigger] ops.skip(1)[i] == ops[
                            i + 1]);
                    }
                    lemma_augment_wf(ops.skip(1));
                    assert(forall|i: int|
                        1 <= i < out.len() ==> #[trigger] out[i] == augment_ops(ops.skip(1))[i
                        - 1]);
                }
            },
            _ => {
                assert(wf_ops(ops.skip(1))) by {
                    assert(forall|i: int|
                        0 <= i < ops.skip(1).len() ==> #[trigger] ops.skip(1)[i] == ops[i + 1]);
                }
                lemma_augment_wf(ops.skip(1));
                assert(forall|i: int|
                    1 <= i < out.len() ==> #[trigger] out[i] == augment_ops(ops.skip(1))[i - 1]);
            },
        }
    }
}

} // verus!
