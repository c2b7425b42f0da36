use lexvm::assembler::Assembler;
use lexvm::disasm::decode;
use lexvm::disasm::Instruction;

#[test]
fn pool_deduplicates_scalars() {
    // CharCp emitted twice for the same scalar uses the same pool
    // index; a different scalar gets a fresh slot.
    let mut assembler = Assembler::new();
    assembler.emit_char_cp('x');
    assembler.emit_char_cp('y');
    assembler.emit_char_cp('x');
    let prog = assembler.finish();
    assert_eq!(prog.constant_pool, vec!['x' as u32, 'y' as u32]);
    assert_eq!(decode(prog.code[0]), Instruction::CharCp { ch_index: 0 });
    assert_eq!(decode(prog.code[1]), Instruction::CharCp { ch_index: 1 });
    assert_eq!(decode(prog.code[2]), Instruction::CharCp { ch_index: 0 });
}

#[test]
fn get_pool_index_returns_same_slot() {
    let mut assembler = Assembler::new();
    let first = assembler.get_pool_index(1234);
    let second = assembler.get_pool_index(5678);
    let again = assembler.get_pool_index(1234);
    assert_eq!(first, 0);
    assert_eq!(second, 1);
    assert_eq!(again, first);
}

#[test]
fn patch_target_rewrites_both_fields() {
    let mut assembler = Assembler::new();
    let (then_marker, else_marker) = assembler.emit_split(0, 0);
    assembler.emit_char_imm('a');
    assembler.emit_match(2);
    assembler.patch_target(&then_marker, 1);
    assembler.patch_target(&else_marker, 2);
    let prog = assembler.finish();
    assert_eq!(
        decode(prog.code[0]),
        Instruction::Split { then_instr_index: 1, else_instr_index: 2 }
    );
}

#[test]
fn patch_split_many_appends_table() {
    let mut assembler = Assembler::new();
    assembler.emit_char_cp('q');
    let marker = assembler.emit_split_many();
    assembler.patch_split_many(&marker, vec![2, 5, 9]);
    let prog = assembler.finish();
    // The table starts after the interned scalar.
    assert_eq!(decode(prog.code[1]), Instruction::SplitMany { table_index: 1 });
    assert_eq!(prog.constant_pool, vec!['q' as u32, 2, 5, 9]);
}

#[test]
fn next_code_position_tracks_buffer() {
    let mut assembler = Assembler::new();
    assert_eq!(assembler.next_code_position(), 0);
    assembler.emit_char_imm('a');
    assert_eq!(assembler.next_code_position(), 1);
    assembler.emit_match(2);
    assert_eq!(assembler.next_code_position(), 2);
}

#[test]
fn finish_resets_assembler() {
    let mut assembler = Assembler::new();
    assembler.emit_char_cp('x');
    let first = assembler.finish();
    assert_eq!(first.code.len(), 1);
    assert_eq!(first.constant_pool, vec!['x' as u32]);
    // After the reset the same scalar is interned afresh at slot 0.
    assembler.emit_char_cp('y');
    let second = assembler.finish();
    assert_eq!(second.constant_pool, vec!['y' as u32]);
    assert_eq!(decode(second.code[0]), Instruction::CharCp { ch_index: 0 });
}
