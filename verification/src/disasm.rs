use vstd::prelude::*;

use crate::opcodes::Opcode;
use crate::opcodes::opcode_number;
use crate::opcodes::instr_op;
use crate::opcodes::instr_payload;
use crate::opcodes::payload_hi;
use crate::opcodes::payload_lo;
use crate::opcodes::mk_instr;
use crate::opcodes::mk_payload2;
use crate::opcodes::lemma_mk_instr_fields;
use crate::opcodes::lemma_mk_payload2_fields;
use crate::opcodes::PAYLOAD_LIMIT;
use crate::opcodes::FIELD_LIMIT;
use crate::assembler::CodePointer;
use crate::assembler::PoolIndex;

verus! {

/// A decoded instruction word.
#[derive(Debug, Clone, Copy, PartialEq, Eq, Structural)]
pub enum Instruction {
    /// Match one character given inline in the payload.
    CharImm { ch: char },
    /// Match one character stored in the constant pool.
    CharCp { ch_index: PoolIndex },
    /// Accept the current span as a token of the given type.
    Match { token_type_index: u16 },
    /// Fork one NFA thread into two.
    Split { then_instr_index: CodePointer, else_instr_index: CodePointer },
    /// Fork one NFA thread into a whole jump table held in the pool.
    SplitMany { table_index: u16 },
    /// Continue at another code index.
    Jmp { instr_index: CodePointer },
    /// Match one character inside an inclusive range given inline.
    RangeImm { from: char, to: char },
}

/// True of a payload value that is a Unicode scalar, hence a `char`.
pub open spec fn valid_scalar(v: u32) -> bool {
    v < 0xD800 || (0xE000 <= v && v <= 0x10FFFF)
}

/// True of an instruction word the core can decode: its opcode is one
/// of the implemented seven, and a `CharImm` payload is a scalar.
pub open spec fn decodable(w: u32) -> bool {
    let op = instr_op(w);
    &&& (op == 0 || op == 1 || op == 2 || op == 3 || op == 4 || op == 6 || op == 9)
    &&& (op == 0 ==> valid_scalar(instr_payload(w)))
}

/// What a decodable instruction word denotes.
pub open spec fn spec_decode(w: u32) -> Instruction
    recommends
        decodable(w),
{
    let op = instr_op(w);
    let payload = instr_payload(w);
    if op == 0 {
        Instruction::CharImm { ch: payload as char }
    } else if op == 1 {
        Instruction::CharCp { ch_index: payload as u16 }
    } else if op == 2 {
        Instruction::Match { token_type_index: payload as u16 }
    } else if op == 3 {
        Instruction::Split {
            then_instr_index: payload_hi(payload) as u16,
            else_instr_index: payload_lo(payload) as u16,
        }
    } else if op == 4 {
        Instruction::Jmp { instr_index: payload as u16 }
    } else if op == 6 {
        Instruction::RangeImm {
            from: payload_hi(payload) as char,
            to: payload_lo(payload) as char,
        }
    } else {
        Instruction::SplitMany { table_index: payload as u16 }
    }
}

/// True when every operand of the instruction fits the field width its
/// encoding declares for it: 14 bits for code pointers and packed range
/// endpoints, and the payload width for everything else.
pub open spec fn operands_fit(i: Instruction) -> bool {
    match i {
        Instruction::CharImm { ch } => true,
        Instruction::CharCp { ch_index } => true,
        Instruction::Match { token_type_index } => true,
        Instruction::Split { then_instr_index, else_instr_index } => then_instr_index
            < FIELD_LIMIT && else_instr_index < FIELD_LIMIT,
        Instruction::SplitMany { table_index } => true,
        Instruction::Jmp { instr_index } => instr_index < FIELD_LIMIT,
        Instruction::RangeImm { from, to } => (from as u32) < FIELD_LIMIT && (to as u32)
            < FIELD_LIMIT,
    }
}

/// The instruction word that encodes an instruction.
pub open spec fn spec_encode(i: Instruction) -> u32
    recommends
        operands_fit(i),
{
    match i {
        Instruction::CharImm { ch } => mk_instr(0, ch as u32),
        Instruction::CharCp { ch_index } => mk_instr(1, ch_index as u32),
        Instruction::Match { token_type_index } => mk_instr(2, token_type_index as u32),
        Instruction::Split { then_instr_index, else_instr_index } => mk_instr(
            3,
            mk_payload2(then_instr_index as u32, else_instr_index as u32),
        ),
        Instruction::SplitMany { table_index } => mk_instr(9, table_index as u32),
        Instruction::Jmp { instr_index } => mk_instr(4, instr_index as u32),
        Instruction::RangeImm { from, to } => mk_instr(6, mk_payload2(from as u32, to as u32)),
    }
}

/// Encoding an instruction whose operands fit their declared field
/// widths and decoding the word again yields the same instruction.
pub proof fn lemma_codec_round_trip(i: Instruction)
    requires
        operands_fit(i),
    ensures
        decodable(spec_encode(i)),
        spec_decode(spec_encode(i)) == i,
{
    match i {
        Instruction::CharImm { ch } => {
            lemma_mk_instr_fields(0, ch as u32);
        },
        Instruction::CharCp { ch_index } => {
            lemma_mk_instr_fields(1, ch_index as u32);
        },
        Instruction::Match { token_type_index } => {
            lemma_mk_instr_fields(2, token_type_index as u32);
        },
        Instruction::Split { then_instr_index, else_instr_index } => {
            lemma_mk_payload2_fields(then_instr_index as u32, else_instr_index as u32);
            lemma_mk_instr_fields(3, mk_payload2(then_instr_index as u32, else_instr_index as u32));
        },
        Instruction::SplitMany { table_index } => {
            lemma_mk_instr_fields(9, table_index as u32);
        },
        Instruction::Jmp { instr_index } => {
            lemma_mk_instr_fields(4, instr_index as u32);
        },
        Instruction::RangeImm { from, to } => {
            lemma_mk_payload2_fields(from as u32, to as u32);
            lemma_mk_instr_fields(6, mk_payload2(from as u32, to as u32));
        },
    }
}

/// Relies on char::from_u32: per its documentation it returns the
/// character with the given scalar value, and `None` exactly when the
/// value is a surrogate or above the Unicode maximum.
pub assume_specification[ char::from_u32 ](i: u32) -> (r: Option<char>)
    ensures
        r is Some <==> valid_scalar(i),
        r is Some ==> r->0 as u32 == i,
;

/// True of an instruction word that consumes an input character when
/// its thread runs.
pub open spec fn is_consuming(w: u32) -> bool
    recommends
        decodable(w),
{
    spec_decode(w) is CharImm || spec_decode(w) is RangeImm
}

/// The shape one instruction must have for the machine to run it:
/// decodable, `Split` and `Jmp` targets inside the code, and a
/// `CharCp` pool index inside the pool.
pub open spec fn instr_targets_ok(code: Seq<u32>, pool: Seq<u32>, i: int) -> bool
    recommends
        0 <= i < code.len(),
{
    &&& decodable(code[i])
    &&& match spec_decode(code[i]) {
        Instruction::Split { then_instr_index, else_instr_index } => (then_instr_index as int)
            < code.len() && (else_instr_index as int) < code.len(),
        Instruction::Jmp { instr_index } => (instr_index as int) < code.len(),
        Instruction::CharCp { ch_index } => (ch_index as int) < pool.len(),
        _ => true,
    }
}

/// The strict shape of one instruction inside a compiled program: on
/// top of the machine's demands, `Split` and `Jmp` targets point
/// strictly forward.
pub open spec fn strict_instr_ok(code: Seq<u32>, pool: Seq<u32>, i: int) -> bool
    recommends
        0 <= i < code.len(),
{
    &&& instr_targets_ok(code, pool, i)
    &&& match spec_decode(code[i]) {
        Instruction::Split { then_instr_index, else_instr_index } => i < then_instr_index as int
            && i < else_instr_index as int,
        Instruction::Jmp { instr_index } => i < instr_index as int,
        _ => true,
    }
}

/// A character whose scalar value is a given valid payload is the
/// character that payload casts to.
proof fn lemma_char_of_scalar(v: u32, c: char)
    requires
        valid_scalar(v),
        c as u32 == v,
    ensures
        c == v as char,
{
}

/// Decodes one instruction word. A word outside the implemented opcode
/// space is a malformed program, which callers must rule out.
pub fn decode(code: u32) -> (instr: Instruction)
    requires
        decodable(code),
    ensures
        instr == spec_decode(code),
{
    let opcode = Opcode::from_instruction(code);
    let payload = trim_tag(code);
    match opcode {
        Opcode::CharImm => {
            let ch = char::from_u32(payload).unwrap();
            proof {
                lemma_char_of_scalar(payload, ch);
            }
            Instruction::CharImm { ch }
        },
        Opcode::CharCp => Instruction::CharCp { ch_index: #[verifier::truncate] (payload as PoolIndex) },
        Opcode::Match => Instruction::Match {
            token_type_index: #[verifier::truncate] (payload as u16),
        },
        Opcode::Split => {
            let (left, right) = decode_binary(payload);
            Instruction::Split { then_instr_index: left, else_instr_index: right }
        },
        Opcode::Jmp => Instruction::Jmp { instr_index: #[verifier::truncate] (payload as CodePointer) },
        Opcode::SplitMany => Instruction::SplitMany {
            table_index: #[verifier::truncate] (payload as u16),
        },
        _ => {
            let (left, right) = decode_binary(payload);
            let from = char::from_u32(left as u32).unwrap();
            let to = char::from_u32(right as u32).unwrap();
            proof {
                lemma_char_of_scalar(payload_hi(payload), from);
                lemma_char_of_scalar(payload_lo(payload), to);
            }
            Instruction::RangeImm { from, to }
        },
    }
}

/// Splits a 28-bit payload into its two 14-bit fields.
pub fn decode_binary(payload: u32) -> (fields: (u16, u16))
    requires
        payload < PAYLOAD_LIMIT,
    ensures
        fields.0 == payload_hi(payload),
        fields.1 == payload_lo(payload),
{
    let mask: u32 = 0b0011_1111_1111_1111;
    let left = (payload >> 14) & mask;
    let right = payload & mask;
    proof {
        assert(payload < 0x1000_0000 ==> ((payload >> 14) & 0b0011_1111_1111_1111u32) == (payload
            / 0x4000) % 0x4000 && (payload & 0b0011_1111_1111_1111u32) == payload % 0x4000
            && (payload / 0x4000) % 0x4000 < 0x1_0000 && payload % 0x4000 < 0x1_0000)
            by (bit_vector);
    }
    (left as u16, right as u16)
}

/// Strips the opcode field, leaving the payload.
pub fn trim_tag(tagged: u32) -> (payload: u32)
    ensures
        payload == instr_payload(tagged),
{
    let mask: u32 = !(0b1111u32 << 28);
    proof {
        assert((tagged & !(0b1111u32 << 28)) == tagged % 0x1000_0000) by (bit_vector);
    }
    tagged & mask
}

} // verus!
