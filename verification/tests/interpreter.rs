use jitevm::code::{EvmCode, EvmOp, EvmOpParserMode};
use jitevm::operations;
use jitevm::interpreter::{
    EvmContext, EvmInnerContext, EvmInterpreterError, EvmOuterContext, StorageMap,
};
use jitevm::word::Word;

fn w(x: u64) -> Word {
    Word::from_u64(x)
}

fn context_for(code: EvmCode, calldata: Vec<u8>) -> EvmContext {
    EvmContext {
        inner: EvmInnerContext {
            code: code.index(),
            stack: Vec::new(),
            pc: 0,
            memory: Vec::new(),
        },
        outer: EvmOuterContext { calldata, storage: StorageMap::new(), callvalue: Word::zero() },
    }
}

/// Run until normal termination or an error, with a step bound.
fn run(ctx: &mut EvmContext) -> Result<(), EvmInterpreterError> {
    let mut steps: u64 = 0;
    loop {
        match ctx.tick() {
            Ok(true) => {},
            Ok(false) => return Ok(()),
            Err(e) => return Err(e),
        }
        steps += 1;
        assert!(steps < 10_000_000, "interpreter did not terminate");
    }
}

fn run_hex(hex_str: &str, calldata: Vec<u8>) -> (Result<(), EvmInterpreterError>, EvmContext) {
    let bytes = hex::decode(hex_str).unwrap();
    let code = EvmCode::new_from_bytes(&bytes, EvmOpParserMode::Strict).unwrap();
    let mut ctx = context_for(code, calldata);
    let r = run(&mut ctx);
    (r, ctx)
}

#[test]
fn add_and_stop() {
    // PUSH1 3; PUSH1 5; ADD; STOP -> status ok, top of stack 8.
    let (r, ctx) = run_hex("6003600501 00".replace(' ', "").as_str(), vec![]);
    assert!(r.is_ok());
    assert_eq!(ctx.inner.stack, vec![w(8)]);
}

#[test]
fn invalid_jump_is_reported() {
    // PUSH1 0x04; JUMP — no instruction starts at offset 4.
    let (r, _ctx) = run_hex("600456", vec![]);
    assert_eq!(r.unwrap_err(), EvmInterpreterError::JumpDestinationInvalid);
}

#[test]
fn jump_into_push_operand_is_unresolvable() {
    // PUSH1 0x01; JUMP — offset 1 is inside the PUSH operand.
    let (r, _ctx) = run_hex("600156", vec![]);
    assert_eq!(r.unwrap_err(), EvmInterpreterError::JumpDestinationInvalid);
}

#[test]
fn jump_to_zero_needs_jumpdest_there() {
    // JUMPDEST at offset 0, then PUSH1 0; JUMPI with a true condition:
    // branches back; run the loop once and stop via the counter.
    // Here: JUMPDEST; PUSH1 0; PUSH1 0; JUMPI; STOP — condition 0 falls through.
    let (r, ctx) = run_hex("5b6000600057 00".replace(' ', "").as_str(), vec![]);
    assert!(r.is_ok());
    assert_eq!(ctx.inner.stack.len(), 0);
    // PUSH1 0; JUMP when op[0] is not JUMPDEST -> error.
    let (r, _ctx) = run_hex("600056", vec![]);
    assert_eq!(r.unwrap_err(), EvmInterpreterError::JumpDestinationNotJumpdest);
}

#[test]
fn jump_to_zero_when_jumpdest_branches() {
    // op[0] is JUMPDEST: jumping to offset 0 branches there. A storage flag
    // makes the program take that branch exactly once:
    // JUMPDEST(0); PUSH1 0; SLOAD; PUSH1 0x0f; JUMPI; PUSH1 1; PUSH1 0;
    // SSTORE; PUSH1 0; JUMP; JUMPDEST(0x0f); STOP
    let (r, ctx) = run_hex("5b600054600f5760016000556000565b00", vec![]);
    assert!(r.is_ok());
    assert_eq!(ctx.inner.stack.len(), 0);
    assert_eq!(ctx.outer.storage.get(&w(0)), w(1));
}

#[test]
fn mload_past_length_zero_extends() {
    // PUSH1 0 (offset); MLOAD; STOP — memory is empty, the read returns 0.
    let (r, ctx) = run_hex("60005100", vec![]);
    assert!(r.is_ok());
    assert_eq!(ctx.inner.stack, vec![w(0)]);
    assert_eq!(ctx.inner.memory.len(), 32);
    assert!(ctx.inner.memory.iter().all(|b| *b == 0));
}

#[test]
fn mstore_then_mload_roundtrips() {
    // PUSH1 42; PUSH1 0; MSTORE; PUSH1 0; MLOAD; STOP
    let (r, ctx) = run_hex("602a60005260005100", vec![]);
    assert!(r.is_ok());
    assert_eq!(ctx.inner.stack, vec![w(42)]);
    assert_eq!(ctx.inner.memory[31], 42);
}

#[test]
fn sstore_then_sload() {
    // PUSH1 42 (value); PUSH1 7 (key); SSTORE; PUSH1 7; SLOAD; STOP
    let (r, ctx) = run_hex("602a60075560075400", vec![]);
    assert!(r.is_ok());
    assert_eq!(ctx.inner.stack, vec![w(42)]);
    assert_eq!(ctx.outer.storage.get(&w(7)), w(42));
    // An untouched key reads as zero.
    assert_eq!(ctx.outer.storage.get(&w(8)), w(0));
}

#[test]
fn iszero_both_branches() {
    // Input 0 -> 1.
    let (r, ctx) = run_hex("60001500", vec![]);
    assert!(r.is_ok());
    assert_eq!(ctx.inner.stack, vec![w(1)]);
    // Any nonzero input -> 0.
    let (r, ctx) = run_hex("60071500", vec![]);
    assert!(r.is_ok());
    assert_eq!(ctx.inner.stack, vec![w(0)]);
}

#[test]
fn calldataload_zero_extends() {
    // PUSH1 0; CALLDATALOAD; STOP with 4 bytes of calldata.
    let (r, ctx) = run_hex("60003500", vec![0x30, 0x62, 0x7b, 0x7c]);
    assert!(r.is_ok());
    // The four bytes land in the most significant positions.
    let top = ctx.inner.stack[0];
    assert_eq!(top.d3, 0x3062_7b7c_0000_0000);
    assert_eq!((top.d0, top.d1, top.d2), (0, 0, 0));
    // An offset past the end reads zero.
    let (r, ctx) = run_hex("60043500", vec![0x30, 0x62, 0x7b, 0x7c]);
    assert!(r.is_ok());
    assert_eq!(ctx.inner.stack, vec![w(0)]);
}

#[test]
fn calldatasize_and_callvalue() {
    let (r, ctx) = run_hex("3600", vec![1, 2, 3]);
    assert!(r.is_ok());
    assert_eq!(ctx.inner.stack, vec![w(3)]);
    let bytes = hex::decode("3400").unwrap();
    let code = EvmCode::new_from_bytes(&bytes, EvmOpParserMode::Strict).unwrap();
    let mut ctx = context_for(code, vec![]);
    ctx.outer.callvalue = w(55);
    assert!(run(&mut ctx).is_ok());
    assert_eq!(ctx.inner.stack, vec![w(55)]);
}

#[test]
fn stack_underflow_is_reported() {
    let (r, _ctx) = run_hex("01", vec![]);
    assert_eq!(r.unwrap_err(), EvmInterpreterError::StackEmpty);
    let (r, _ctx) = run_hex("600390", vec![]);
    assert_eq!(r.unwrap_err(), EvmInterpreterError::StackTooSmall);
}

#[test]
fn unknown_instruction_is_reported() {
    // SHA3 is recognized by the decoder but not implemented by the oracle.
    let (r, _ctx) = run_hex("60006000 20".replace(' ', "").as_str(), vec![]);
    assert_eq!(r.unwrap_err(), EvmInterpreterError::UnknownInstruction(EvmOp::Sha3));
}

#[test]
fn fibonacci_loop() {
    // Compute the 10000th Fibonacci number mod 2^256 with a counting loop:
    // PUSH2 0x2710; PUSH1 0; PUSH1 1; JUMPDEST(7); DUP3; ISZERO;
    // PUSH1 0x1c; JUMPI; DUP2; DUP2; ADD; SWAP2; POP; SWAP1; SWAP2;
    // PUSH1 1; SWAP1; SUB; SWAP2; PUSH1 0x07; JUMP;
    // JUMPDEST(0x1c); SWAP2; POP; SWAP1; POP
    let (r, ctx) = run_hex(
        "612710600060015b8215601c578181019150909160019003916007565b91509050",
        vec![],
    );
    assert!(r.is_ok());
    assert_eq!(ctx.inner.stack.len(), 1);
    let expected = Word {
        d0: 0xd824476d4a0819db,
        d1: 0x222219dee5079faa,
        d2: 0x7db929b9c06fa898,
        d3: 0x52ca26035035f30f,
    };
    assert_eq!(ctx.inner.stack[0], expected);
}

#[test]
fn fibonacci_small_counts() {
    // The same loop with small counters, against the first Fibonacci numbers.
    let fib: [u64; 11] = [0, 1, 1, 2, 3, 5, 8, 13, 21, 34, 55];
    for n in 0..=10u8 {
        let hex_str = format!(
            "60{:02x}600060015b8215601b578181019150909160019003916006565b91509050",
            n
        );
        // The loop JUMPDEST moves to offset 6 with a one-byte counter push.
        let (r, ctx) = run_hex(&hex_str, vec![]);
        assert!(r.is_ok(), "n={}", n);
        assert_eq!(ctx.inner.stack, vec![w(fib[n as usize])], "n={}", n);
    }
}

#[test]
fn single_instruction_contracts_match_the_kernel() {
    // For each two-operand kernel op, the contract PUSH b; PUSH a; OP leaves
    // exactly the kernel's result on the stack.
    let cases: Vec<(u8, fn(Word, Word) -> Word)> = vec![
        (0x01, operations::Add),
        (0x02, operations::Mul),
        (0x03, operations::Sub),
        (0x04, operations::Div),
        (0x05, operations::Sdiv),
        (0x06, operations::Mod),
        (0x0a, operations::Exp),
        (0x10, operations::Lt),
        (0x11, operations::Gt),
        (0x12, operations::Slt),
        (0x13, operations::Sgt),
        (0x14, operations::Eq),
        (0x16, operations::And),
        (0x17, operations::Or),
        (0x1b, operations::Shl),
        (0x1c, operations::Shr),
    ];
    // A few values with interesting shapes, mixed pairwise.
    let vals: [Word; 5] = [
        Word::from_u64(0),
        Word::from_u64(1),
        Word::from_u64(0xdeadbeef),
        Word { d0: 0xffff_ffff_ffff_ffff, d1: 0xffff_ffff_ffff_ffff,
               d2: 0xffff_ffff_ffff_ffff, d3: 0xffff_ffff_ffff_ffff },
        Word { d0: 7, d1: 0, d2: 0, d3: 0x8000_0000_0000_0000 },
    ];
    for (opcode, f) in cases {
        for a in vals.iter() {
            for b in vals.iter() {
                let mut bytes = vec![0x7f];
                for k in (0..4).rev() {
                    let limb = [b.d0, b.d1, b.d2, b.d3][k];
                    bytes.extend_from_slice(&limb.to_be_bytes());
                }
                bytes.push(0x7f);
                for k in (0..4).rev() {
                    let limb = [a.d0, a.d1, a.d2, a.d3][k];
                    bytes.extend_from_slice(&limb.to_be_bytes());
                }
                bytes.push(opcode);
                bytes.push(0x00);
                let code = EvmCode::new_from_bytes(&bytes, EvmOpParserMode::Strict).unwrap();
                let mut ctx = context_for(code, vec![]);
                assert!(run(&mut ctx).is_ok(), "opcode {:#x}", opcode);
                assert_eq!(ctx.inner.stack, vec![f(*a, *b)], "opcode {:#x}", opcode);
            }
        }
    }
}

#[test]
fn simplified_regime_jumps_by_instruction_index() {
    // ops: PUSH1 3 (op 0); JUMP (op 1); STOP (op 2); PUSH1 9 (op 3); STOP
    // In the simplified regime the popped 3 is the next instruction index,
    // with no JUMPDEST at it.
    let bytes = hex::decode("60035600600900").unwrap();
    let code = EvmCode::new_from_bytes(&bytes, EvmOpParserMode::Strict).unwrap();
    let mut ctx = context_for(code, vec![]);
    // Drive the fetch loop by hand, as tick would, but step simplified.
    let mut steps = 0;
    loop {
        if ctx.inner.pc >= ctx.inner.code.code.ops.len() {
            break;
        }
        let op = ctx.inner.code.code.ops[ctx.inner.pc];
        ctx.inner.pc += 1;
        match ctx.tick_inner_simplified(op) {
            Ok(true) => {},
            Ok(false) => break,
            Err(e) => panic!("unexpected error {:?}", e),
        }
        steps += 1;
        assert!(steps < 100);
    }
    assert_eq!(ctx.inner.stack, vec![w(9)]);
}

#[test]
fn stack_overflow_is_reported() {
    // With the stack already at its 1024-word bound, one more push fails.
    let bytes = hex::decode("6001").unwrap();
    let code = EvmCode::new_from_bytes(&bytes, EvmOpParserMode::Strict).unwrap();
    let mut ctx = context_for(code, vec![]);
    for _ in 0..1024 {
        ctx.inner.stack.push(w(0));
    }
    let r = run(&mut ctx);
    assert_eq!(r.unwrap_err(), EvmInterpreterError::StackFull);
}

#[test]
fn memory_offset_beyond_the_host_is_rejected() {
    // PUSH32 of a value far above any addressable offset, then MLOAD.
    let mut bytes = vec![0x7f];
    bytes.extend_from_slice(&[0xff; 32]);
    bytes.push(0x51);
    let code = EvmCode::new_from_bytes(&bytes, EvmOpParserMode::Strict).unwrap();
    let mut ctx = context_for(code, vec![]);
    let r = run(&mut ctx);
    assert_eq!(r.unwrap_err(), EvmInterpreterError::MemoryAccessTooLarge);
}
