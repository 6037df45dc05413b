use jitevm::code::{EvmCode, EvmOp, EvmOpParserMode};
use jitevm::jit::{
    JitBlockOp, JitEvmEngine, JitEvmExecutionContextHolder, JitPhiEdge, JitTerm,
};
use jitevm::word::Word;

fn w(x: u64) -> Word {
    Word::from_u64(x)
}

fn compile_hex(hex_str: &str) -> (JitEvmEngine, usize) {
    let bytes = hex::decode(hex_str).unwrap();
    let code = EvmCode::new_from_bytes(&bytes, EvmOpParserMode::Strict).unwrap();
    let n = code.ops.len();
    let m = JitEvmEngine::jit_compile_contract(&code.index()).unwrap();
    (m, n)
}

/// Check the phi discipline by hand: each block's phi-incoming registrations
/// must exactly match the control-flow edges of the terminators.
fn check_phi_edges(m: &JitEvmEngine) {
    let len = m.blocks.len();
    let mut expect: Vec<Vec<usize>> = vec![Vec::new(); len];
    for (p, b) in m.blocks.iter().enumerate() {
        match b.term.expect("unsealed block") {
            JitTerm::Branch(t) => expect[p].push(t),
            JitTerm::CondBranchEq { then_block, else_block } => {
                expect[p].push(then_block);
                expect[p].push(else_block);
            },
            JitTerm::CondBranchNonzero { then_block, else_block } => {
                expect[p].push(then_block);
                expect[p].push(else_block);
            },
            JitTerm::ReturnConst(_) | JitTerm::ReturnPhi => {},
        }
    }
    let mut got: Vec<Vec<usize>> = vec![Vec::new(); len];
    for JitPhiEdge { pred, succ } in m.edges.iter() {
        assert!(*pred < len && *succ < len);
        got[*pred].push(*succ);
    }
    for p in 0..len {
        let mut e = expect[p].clone();
        let mut g = got[p].clone();
        e.sort();
        g.sort();
        assert_eq!(e, g, "phi incomings of block {} do not match its edges", p);
    }
}

#[test]
fn layout_of_straightline_code() {
    // PUSH1 3; PUSH1 5; ADD
    let (m, n) = compile_hex("6003600501");
    assert_eq!(n, 3);
    // One block per op, then end, error-jumpdest and setup.
    assert_eq!(m.blocks.len(), n + 3);
    // Bodies in source order.
    assert_eq!(m.blocks[0].body, JitBlockOp::PushWord(w(3)));
    assert_eq!(m.blocks[1].body, JitBlockOp::PushWord(w(5)));
    assert_eq!(m.blocks[2].body, JitBlockOp::BinaryNative(EvmOp::Add));
    // Fall-through chain: 0 -> 1 -> 2, and the last op falls into end.
    assert_eq!(m.blocks[0].term, Some(JitTerm::Branch(1)));
    assert_eq!(m.blocks[1].term, Some(JitTerm::Branch(2)));
    assert_eq!(m.blocks[2].term, Some(JitTerm::Branch(n)));
    // End block returns the status phi; error block returns 1; setup
    // branches to instruction 0.
    assert_eq!(m.blocks[n].term, Some(JitTerm::ReturnPhi));
    assert_eq!(m.blocks[n + 1].term, Some(JitTerm::ReturnConst(1)));
    assert_eq!(m.blocks[n + 2].body, JitBlockOp::Setup);
    assert_eq!(m.blocks[n + 2].term, Some(JitTerm::Branch(0)));
    check_phi_edges(&m);
}

#[test]
fn stop_is_terminal() {
    // PUSH1 1; STOP; PUSH1 2 — STOP returns 0, no fall-through to block 2.
    let (m, n) = compile_hex("6001006002");
    assert_eq!(n, 3);
    assert_eq!(m.blocks[1].term, Some(JitTerm::ReturnConst(0)));
    check_phi_edges(&m);
}

#[test]
fn unfused_jump_builds_comparison_chain() {
    // Bytes: PUSH1 5; JUMP; STOP; JUMPDEST(4); STOP; JUMPDEST(6); STOP.
    // The JUMP block branches into a chain of one block per JUMPDEST.
    let (m, n) = compile_hex("600556005b005b00");
    assert_eq!(n, 7);
    match m.blocks[1].term.unwrap() {
        JitTerm::Branch(c) => {
            assert!(c >= n + 3);
            // First chain block compares against the first JUMPDEST's offset
            // (byte 4), then the second (byte 6), then error-jumpdest.
            assert_eq!(m.blocks[c].body, JitBlockOp::JumpChainCmp(4));
            match m.blocks[c].term.unwrap() {
                JitTerm::CondBranchEq { then_block, else_block } => {
                    assert_eq!(then_block, 3);
                    assert_eq!(else_block, c + 1);
                },
                t => panic!("unexpected terminator {:?}", t),
            }
            assert_eq!(m.blocks[c + 1].body, JitBlockOp::JumpChainCmp(6));
            match m.blocks[c + 1].term.unwrap() {
                JitTerm::CondBranchEq { then_block, else_block } => {
                    assert_eq!(then_block, 5);
                    assert_eq!(else_block, n + 1);  // error-jumpdest
                },
                t => panic!("unexpected terminator {:?}", t),
            }
        },
        t => panic!("expected a branch into the chain, got {:?}", t),
    }
    check_phi_edges(&m);
}

#[test]
fn jump_without_jumpdests_fails_to_error_block() {
    // PUSH1 4; JUMP — no JUMPDEST anywhere, so the jump can never land:
    // it goes straight to the error-jumpdest block, which returns 1.
    let (m, n) = compile_hex("600456");
    assert_eq!(n, 2);
    assert_eq!(m.blocks[1].term, Some(JitTerm::Branch(n + 1)));
    assert_eq!(m.blocks[n + 1].term, Some(JitTerm::ReturnConst(1)));
    // A JUMPI in the same position fails only when its condition is
    // nonzero; a zero condition falls through.
    // PUSH1 0; PUSH1 4; JUMPI; STOP
    let (m, n) = compile_hex("600060045700");
    assert_eq!(n, 4);
    assert_eq!(
        m.blocks[2].term,
        Some(JitTerm::CondBranchNonzero { then_block: n + 1, else_block: 3 })
    );
    check_phi_edges(&m);
}

#[test]
fn fused_jump_resolves_statically() {
    // PUSH2 0x0007; JUMP; STOP*3; JUMPDEST(7); STOP — after fusion the
    // branch goes directly to the JUMPDEST's block, with no comparison.
    let bytes = hex::decode("610007560000005b00").unwrap();
    let code = EvmCode::new_from_bytes(&bytes, EvmOpParserMode::Strict).unwrap();
    let fused = code.augment();
    assert_eq!(fused.ops[0], EvmOp::AugmentedPushJump(2, w(7)));
    let n = fused.ops.len();
    let m = JitEvmEngine::jit_compile_contract(&fused.index()).unwrap();
    // The JUMPDEST at byte offset 7 is op index 4 of the fused code.
    assert_eq!(fused.ops[4], EvmOp::Jumpdest);
    assert_eq!(m.blocks[0].term, Some(JitTerm::Branch(4)));
    // No chain blocks are needed for the fused form.
    assert_eq!(m.blocks.len(), n + 3);
    check_phi_edges(&m);
}

#[test]
fn fused_jump_to_invalid_target_goes_to_end() {
    // PUSH1 4; JUMP fused, but offset 4 is a STOP, not a JUMPDEST.
    let bytes = hex::decode("60045600005b00").unwrap();
    let code = EvmCode::new_from_bytes(&bytes, EvmOpParserMode::Strict).unwrap();
    let fused = code.augment();
    assert_eq!(fused.ops[0], EvmOp::AugmentedPushJump(1, w(4)));
    let n = fused.ops.len();
    let m = JitEvmEngine::jit_compile_contract(&fused.index()).unwrap();
    assert_eq!(m.blocks[0].term, Some(JitTerm::Branch(n)));  // end
    check_phi_edges(&m);
}

#[test]
fn fused_jumpi_is_conditional_on_popped_value() {
    // Bytes: PUSH1 1; PUSH1 6; JUMPI; STOP; JUMPDEST(6); STOP.
    let bytes = hex::decode("6001600657005b00").unwrap();
    let code = EvmCode::new_from_bytes(&bytes, EvmOpParserMode::Strict).unwrap();
    let fused = code.augment();
    assert_eq!(fused.ops[1], EvmOp::AugmentedPushJumpi(1, w(6)));
    let m = JitEvmEngine::jit_compile_contract(&fused.index()).unwrap();
    // fused ops: PUSH1 1, APJI(6), STOP, JUMPDEST, STOP — JUMPDEST is op 3.
    assert_eq!(fused.ops[3], EvmOp::Jumpdest);
    assert_eq!(m.blocks[1].body, JitBlockOp::PopBranchValue);
    assert_eq!(
        m.blocks[1].term,
        Some(JitTerm::CondBranchNonzero { then_block: 3, else_block: 2 })
    );
    check_phi_edges(&m);
}

#[test]
fn iszero_synthesizes_push_tails() {
    // PUSH1 0; ISZERO; STOP
    let (m, n) = compile_hex("60001500");
    assert_eq!(n, 3);
    match m.blocks[1].term.unwrap() {
        JitTerm::CondBranchNonzero { then_block, else_block } => {
            // Nonzero value pushes 0; zero pushes 1; both fall through to
            // the next instruction's block.
            assert_eq!(m.blocks[then_block].body, JitBlockOp::PushConst(0));
            assert_eq!(m.blocks[else_block].body, JitBlockOp::PushConst(1));
            assert_eq!(m.blocks[then_block].term, Some(JitTerm::Branch(2)));
            assert_eq!(m.blocks[else_block].term, Some(JitTerm::Branch(2)));
        },
        t => panic!("unexpected terminator {:?}", t),
    }
    check_phi_edges(&m);
}

#[test]
fn execution_context_holder_is_zeroed() {
    let holder = JitEvmExecutionContextHolder::new_from_empty();
    assert_eq!(holder.stack.len(), 1024);
    assert!(holder.stack.iter().all(|x| *x == w(0)));
    assert_eq!(holder.memory.len(), 4096000);
    assert_eq!(holder.storage.get(&w(0)), w(0));
}

#[test]
fn kernel_ops_lower_to_native_blocks() {
    // Every two-operand kernel instruction lowers to a binary-native block
    // that falls through; NOT lowers to a unary-native block.
    let cases: Vec<(&str, EvmOp)> = vec![
        ("02", EvmOp::Mul),
        ("04", EvmOp::Div),
        ("05", EvmOp::Sdiv),
        ("06", EvmOp::Mod),
        ("0a", EvmOp::Exp),
        ("10", EvmOp::Lt),
        ("11", EvmOp::Gt),
        ("12", EvmOp::Slt),
        ("13", EvmOp::Sgt),
        ("14", EvmOp::Eq),
        ("16", EvmOp::And),
        ("17", EvmOp::Or),
        ("1b", EvmOp::Shl),
        ("1c", EvmOp::Shr),
    ];
    for (byte, op) in cases {
        // PUSH1 3; PUSH1 5; OP
        let (m, n) = compile_hex(format!("60036005{}", byte).as_str());
        assert_eq!(n, 3);
        assert_eq!(m.blocks[2].body, JitBlockOp::BinaryNative(op));
        assert_eq!(m.blocks[2].term, Some(JitTerm::Branch(n)));
        check_phi_edges(&m);
    }
    // PUSH1 0; NOT
    let (m, n) = compile_hex("600019");
    assert_eq!(n, 2);
    assert_eq!(m.blocks[1].body, JitBlockOp::UnaryNative(EvmOp::Not));
    assert_eq!(m.blocks[1].term, Some(JitTerm::Branch(n)));
    check_phi_edges(&m);
}

#[test]
fn revert_and_invalid_return_their_codes() {
    // PUSH1 0; REVERT-family terminators emit distinct status codes:
    // ops: STOP(0); RETURN(1); REVERT(2); INVALID(3)
    let (m, _n) = compile_hex("00f3fdfe");
    assert_eq!(m.blocks[0].term, Some(JitTerm::ReturnConst(0)));
    assert_eq!(m.blocks[1].term, Some(JitTerm::ReturnConst(0)));
    assert_eq!(m.blocks[2].term, Some(JitTerm::ReturnConst(2)));
    assert_eq!(m.blocks[3].term, Some(JitTerm::ReturnConst(3)));
    check_phi_edges(&m);
}
