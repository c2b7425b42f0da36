use vstd::prelude::*;

verus! {

/// Number of distinct opcode values the instruction set defines.
pub const OPCODE_COUNT: u32 = 12;

/// Payloads occupy the 28 bits below the opcode field.
pub const PAYLOAD_LIMIT: u32 = 0x1000_0000;

/// Code pointers, pool indices used in branch tables, and packed range
/// endpoints are 14-bit fields.
pub const FIELD_LIMIT: u32 = 0x4000;

/// Pool indices stored in the low half of an instruction are 16-bit.
pub const POOL_LIMIT: u32 = 0x1_0000;

/// The opcode space. Only `CharImm`, `CharCp`, `Match`, `Split`, `Jmp`,
/// `RangeImm` and `SplitMany` are produced and understood by the core;
/// the rest are reserved slots in the numbering.
#[derive(Debug, Clone, Copy, PartialEq, Eq, Structural)]
pub enum Opcode {
    CharImm,
    CharCp,
    Match,
    Split,
    Jmp,
    Any,
    RangeImm,
    Range,
    Invert,
    SplitMany,
    OuterLexer,
    Noop,
}

/// The numeric value an opcode occupies in the top 4 bits of a word.
pub open spec fn opcode_number(op: Opcode) -> u32 {
    match op {
        Opcode::CharImm => 0,
        Opcode::CharCp => 1,
        Opcode::Match => 2,
        Opcode::Split => 3,
        Opcode::Jmp => 4,
        Opcode::Any => 5,
        Opcode::RangeImm => 6,
        Opcode::Range => 7,
        Opcode::Invert => 8,
        Opcode::SplitMany => 9,
        Opcode::OuterLexer => 10,
        Opcode::Noop => 11,
    }
}

/// The opcode field of an instruction word: its top 4 bits.
pub open spec fn instr_op(w: u32) -> u32 {
    w / PAYLOAD_LIMIT
}

/// The payload of an instruction word: its low 28 bits.
pub open spec fn instr_payload(w: u32) -> u32 {
    w % PAYLOAD_LIMIT
}

/// The high 14-bit field of a 28-bit payload.
pub open spec fn payload_hi(p: u32) -> u32 {
    (p / FIELD_LIMIT) % FIELD_LIMIT
}

/// The low 14-bit field of a 28-bit payload.
pub open spec fn payload_lo(p: u32) -> u32 {
    p % FIELD_LIMIT
}

/// An instruction word assembled from an opcode number and a payload.
pub open spec fn mk_instr(opn: u32, payload: u32) -> u32
    recommends
        opn < OPCODE_COUNT,
        payload < PAYLOAD_LIMIT,
{
    (opn * PAYLOAD_LIMIT + payload) as u32
}

/// Two 14-bit fields packed into one payload, `first` on top.
pub open spec fn mk_payload2(first: u32, second: u32) -> u32
    recommends
        first < FIELD_LIMIT,
        second < FIELD_LIMIT,
{
    (first * FIELD_LIMIT + second) as u32
}

/// Splitting an assembled word gives back its opcode number and payload.
pub proof fn lemma_mk_instr_fields(opn: u32, payload: u32)
    requires
        opn < OPCODE_COUNT,
        payload < PAYLOAD_LIMIT,
    ensures
        instr_op(mk_instr(opn, payload)) == opn,
        instr_payload(mk_instr(opn, payload)) == payload,
{
    assert(instr_op(mk_instr(opn, payload)) == opn && instr_payload(mk_instr(opn, payload))
        == payload) by (nonlinear_arith)
        requires
            opn < OPCODE_COUNT,
            payload < PAYLOAD_LIMIT,
    ;
}

/// Splitting a packed payload gives back its two fields.
pub proof fn lemma_mk_payload2_fields(first: u32, second: u32)
    requires
        first < FIELD_LIMIT,
        second < FIELD_LIMIT,
    ensures
        payload_hi(mk_payload2(first, second)) == first,
        payload_lo(mk_payload2(first, second)) == second,
        mk_payload2(first, second) < PAYLOAD_LIMIT,
{
    assert(payload_hi(mk_payload2(first, second)) == first && payload_lo(
        mk_payload2(first, second),
    ) == second && mk_payload2(first, second) < PAYLOAD_LIMIT) by (nonlinear_arith)
        requires
            first < FIELD_LIMIT,
            second < FIELD_LIMIT,
    ;
}

impl Opcode {
    /// The numeric value of this opcode.
    pub fn number(&self) -> (n: u32)
        ensures
            n == opcode_number(*self),
    {
        match self {
            Opcode::CharImm => 0,
            Opcode::CharCp => 1,
            Opcode::Match => 2,
            Opcode::Split => 3,
            Opcode::Jmp => 4,
            Opcode::Any => 5,
            Opcode::RangeImm => 6,
            Opcode::Range => 7,
            Opcode::Invert => 8,
            Opcode::SplitMany => 9,
            Opcode::OuterLexer => 10,
            Opcode::Noop => 11,
        }
    }

    /// Reads the opcode out of the top 4 bits of an instruction word.
    /// Opcode values outside the defined numbering are a malformed
    /// program, which callers must rule out.
    pub fn from_instruction(instruction: u32) -> (op: Opcode)
        requires
            instr_op(instruction) < OPCODE_COUNT,
        ensures
            opcode_number(op) == instr_op(instruction),
    {
        let v = instruction >> 28;
        proof {
            assert(instruction >> 28 == instruction / 0x1000_0000) by (bit_vector);
        }
        match v {
            0 => Opcode::CharImm,
            1 => Opcode::CharCp,
            2 => Opcode::Match,
            3 => Opcode::Split,
            4 => Opcode::Jmp,
            5 => Opcode::Any,
            6 => Opcode::RangeImm,
            7 => Opcode::Range,
            8 => Opcode::Invert,
            9 => Opcode::SplitMany,
            10 => Opcode::OuterLexer,
            _ => Opcode::Noop,
        }
    }
}

} // verus!
