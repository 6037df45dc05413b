use jitevm::code::{EvmCode, EvmCodeError, EvmOp, EvmOpError, EvmOpParserMode};
use jitevm::word::Word;

fn w(x: u64) -> Word {
    Word::from_u64(x)
}

#[test]
fn decode_single_ops() {
    let (op, n) = EvmOp::new_from_bytes(&[0x01], EvmOpParserMode::Strict).unwrap();
    assert_eq!(op, EvmOp::Add);
    assert_eq!(n, 1);
    let (op, n) = EvmOp::new_from_bytes(&[0x60, 0x2a, 0xff], EvmOpParserMode::Strict).unwrap();
    assert_eq!(op, EvmOp::Push(1, w(0x2a)));
    assert_eq!(n, 2);
    let (op, n) = EvmOp::new_from_bytes(&[0x61, 0x27, 0x10], EvmOpParserMode::Strict).unwrap();
    assert_eq!(op, EvmOp::Push(2, w(0x2710)));
    assert_eq!(n, 3);
}

#[test]
fn decode_incomplete_push_reports_offset() {
    // PUSH2 with only one payload byte: IncompleteInstruction at the PUSH.
    let r = EvmCode::new_from_bytes(&[0x00, 0x61, 0x27], EvmOpParserMode::Strict);
    assert_eq!(r.unwrap_err(), EvmCodeError::ParserErrorIncompleteInstruction(1));
}

#[test]
fn decode_unknown_strict_vs_lax() {
    let r = EvmOp::new_from_bytes(&[0x21], EvmOpParserMode::Strict);
    assert_eq!(r.unwrap_err(), EvmOpError::ParserErrorUnknownInstruction(0x21));
    let (op, n) = EvmOp::new_from_bytes(&[0x21], EvmOpParserMode::Lax).unwrap();
    assert_eq!(op, EvmOp::Unknown(0x21));
    assert_eq!(n, 1);
    let r = EvmCode::new_from_bytes(&[0x00, 0x21], EvmOpParserMode::Strict);
    assert_eq!(r.unwrap_err(), EvmCodeError::ParserErrorUnknownInstruction(1, 0x21));
}

#[test]
fn encode_push_is_minimal_big_endian() {
    let op = EvmOp::Push(2, w(0x2710));
    assert_eq!(op.to_bytes(), vec![0x61, 0x27, 0x10]);
    assert_eq!(op.len(), 3);
    let op = EvmOp::Push(1, w(0));
    assert_eq!(op.to_bytes(), vec![0x60, 0x00]);
}

#[test]
fn roundtrip_lax_decode_of_encode() {
    // decode_lax(encode(c)) == c on codes without augmented forms.
    let code = EvmCode {
        ops: vec![
            EvmOp::Push(2, w(0x2710)),
            EvmOp::Push(1, w(0)),
            EvmOp::Jumpdest,
            EvmOp::Dup3,
            EvmOp::Iszero,
            EvmOp::Add,
            EvmOp::Stop,
        ],
    };
    let bytes = code.to_bytes();
    let decoded = EvmCode::new_from_bytes(&bytes, EvmOpParserMode::Lax).unwrap();
    assert_eq!(decoded, code);
    let decoded_strict = EvmCode::new_from_bytes(&bytes, EvmOpParserMode::Strict).unwrap();
    assert_eq!(decoded_strict, code);
}

#[test]
fn roundtrip_strict_reencode() {
    // encode . decode_strict . encode == encode.
    let bytes = vec![0x60, 0x03, 0x60, 0x05, 0x01, 0x00];
    let code = EvmCode::new_from_bytes(&bytes, EvmOpParserMode::Strict).unwrap();
    assert_eq!(code.to_bytes(), bytes);
}

#[test]
fn roundtrip_lax_with_unknown_bytes() {
    // Trailing metadata is preserved through a lax round trip.
    let bytes = vec![0x00, 0x21, 0xab, 0x07];
    let code = EvmCode::new_from_bytes(&bytes, EvmOpParserMode::Lax).unwrap();
    assert_eq!(
        code.ops,
        vec![EvmOp::Stop, EvmOp::Unknown(0x21), EvmOp::Unknown(0xab), EvmOp::Unknown(0x07)]
    );
    assert_eq!(code.to_bytes(), bytes);
}

#[test]
fn augment_fuses_push_jump_pairs() {
    let code = EvmCode {
        ops: vec![
            EvmOp::Push(2, w(0x0007)),
            EvmOp::Jump,
            EvmOp::Push(1, w(9)),
            EvmOp::Jumpi,
            EvmOp::Jumpdest,
            EvmOp::Push(1, w(1)),
            EvmOp::Stop,
        ],
    };
    let fused = code.augment();
    assert_eq!(
        fused.ops,
        vec![
            EvmOp::AugmentedPushJump(2, w(0x0007)),
            EvmOp::AugmentedPushJumpi(1, w(9)),
            EvmOp::Jumpdest,
            EvmOp::Push(1, w(1)),
            EvmOp::Stop,
        ]
    );
    // Byte image is preserved by fusion.
    assert_eq!(fused.to_bytes(), code.to_bytes());
    // Fusion is idempotent.
    let twice = fused.augment();
    assert_eq!(twice.ops, fused.ops);
}

#[test]
fn augment_copies_unpaired_push() {
    let code = EvmCode {
        ops: vec![EvmOp::Push(1, w(4)), EvmOp::Pop, EvmOp::Jump, EvmOp::Stop],
    };
    let fused = code.augment();
    assert_eq!(fused.ops, code.ops);
    assert_eq!(fused.to_bytes(), code.to_bytes());
}

#[test]
fn index_maps_offsets_both_ways() {
    // ops: PUSH2 (3 bytes), JUMPDEST (1), ADD (1), PUSH1 (2), STOP (1)
    let code = EvmCode {
        ops: vec![
            EvmOp::Push(2, w(5)),
            EvmOp::Jumpdest,
            EvmOp::Add,
            EvmOp::Push(1, w(0)),
            EvmOp::Stop,
        ],
    };
    let indexed = code.index();
    assert_eq!(indexed.opidx2target, vec![0, 3, 4, 5, 7]);
    // offset -> opidx inverts opidx -> offset at every instruction start.
    for (i, off) in indexed.opidx2target.iter().enumerate() {
        assert_eq!(indexed.target2opidx(&w(*off as u64)), Some(i));
    }
    // Offsets inside a PUSH operand, or past the end, start no instruction.
    assert_eq!(indexed.target2opidx(&w(1)), None);
    assert_eq!(indexed.target2opidx(&w(2)), None);
    assert_eq!(indexed.target2opidx(&w(6)), None);
    assert_eq!(indexed.target2opidx(&w(8)), None);
    assert_eq!(indexed.target2opidx(&Word { d0: 0, d1: 1, d2: 0, d3: 0 }), None);
    // Only the JUMPDEST counts as a branch target.
    assert!(indexed.is_valid_target(&w(3)));
    assert!(!indexed.is_valid_target(&w(0)));
    assert!(!indexed.is_valid_target(&w(4)));
    assert!(indexed.is_jumpdest(1));
    assert!(!indexed.is_jumpdest(0));
}
