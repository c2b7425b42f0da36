use lexvm::assembler::Assembler;
use lexvm::disasm::decode;
use lexvm::disasm::decode_binary;
use lexvm::disasm::trim_tag;
use lexvm::disasm::Instruction;
use lexvm::opcodes::Opcode;

#[test]
fn opcode_numbers() {
    assert_eq!(Opcode::CharImm.number(), 0);
    assert_eq!(Opcode::CharCp.number(), 1);
    assert_eq!(Opcode::Match.number(), 2);
    assert_eq!(Opcode::Split.number(), 3);
    assert_eq!(Opcode::Jmp.number(), 4);
    assert_eq!(Opcode::Any.number(), 5);
    assert_eq!(Opcode::RangeImm.number(), 6);
    assert_eq!(Opcode::Range.number(), 7);
    assert_eq!(Opcode::Invert.number(), 8);
    assert_eq!(Opcode::SplitMany.number(), 9);
    assert_eq!(Opcode::OuterLexer.number(), 10);
    assert_eq!(Opcode::Noop.number(), 11);
}

#[test]
fn opcode_from_instruction() {
    assert_eq!(Opcode::from_instruction(0x0000_0061), Opcode::CharImm);
    assert_eq!(Opcode::from_instruction(0x2000_0002), Opcode::Match);
    assert_eq!(Opcode::from_instruction(0x9000_0000), Opcode::SplitMany);
}

#[test]
fn trim_tag_strips_opcode() {
    assert_eq!(trim_tag(0x2000_0002), 2);
    assert_eq!(trim_tag(0x9FFF_FFFF), 0x0FFF_FFFF);
    assert_eq!(trim_tag(0x0000_0061), 0x61);
}

#[test]
fn decode_binary_splits_fields() {
    // payload = first * 0x4000 + second
    assert_eq!(decode_binary(3 * 0x4000 + 7), (3, 7));
    assert_eq!(decode_binary(0), (0, 0));
    assert_eq!(decode_binary(0x3FFF * 0x4000 + 0x3FFF), (0x3FFF, 0x3FFF));
}

#[test]
fn encode_decode_round_trip() {
    // Emit one instruction of each implemented kind through the
    // assembler and decode the emitted words back.
    let mut assembler = Assembler::new();
    assembler.emit_char_imm('a');
    assembler.emit_char_cp('b');
    assembler.emit_match(2);
    assembler.emit_split(5, 9);
    assembler.emit_jmp(4);
    assembler.emit_range_imm('0', '9');
    assembler.emit_split_many();
    let prog = assembler.finish();
    let decoded: Vec<Instruction> = prog.code.iter().map(|w| decode(*w)).collect();
    assert_eq!(
        decoded,
        vec![
            Instruction::CharImm { ch: 'a' },
            Instruction::CharCp { ch_index: 0 },
            Instruction::Match { token_type_index: 2 },
            Instruction::Split { then_instr_index: 5, else_instr_index: 9 },
            Instruction::Jmp { instr_index: 4 },
            Instruction::RangeImm { from: '0', to: '9' },
            Instruction::SplitMany { table_index: 0 },
        ]
    );
    assert_eq!(prog.constant_pool, vec!['b' as u32]);
}

#[test]
fn decode_wide_scalar() {
    // A character above the basic plane survives the 28-bit payload.
    let mut assembler = Assembler::new();
    assembler.emit_char_imm('\u{1F600}');
    let prog = assembler.finish();
    assert_eq!(decode(prog.code[0]), Instruction::CharImm { ch: '\u{1F600}' });
}
