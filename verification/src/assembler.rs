use vstd::prelude::*;

use std::collections::HashMap;
use crate::opcodes::Opcode;
use crate::opcodes::opcode_number;
use crate::opcodes::instr_op;
use crate::opcodes::instr_payload;
use crate::opcodes::payload_hi;
use crate::opcodes::payload_lo;
use crate::opcodes::mk_instr;
use crate::opcodes::mk_payload2;
use crate::opcodes::lemma_mk_instr_fields;
use crate::opcodes::lemma_mk_payload2_fields;
use crate::opcodes::PAYLOAD_LIMIT;
use crate::opcodes::FIELD_LIMIT;
use crate::opcodes::POOL_LIMIT;

verus! {

broadcast use vstd::std_specs::hash::group_hash_axioms;

/// An index into the code buffer.
pub type CodePointer = u16;

/// An index into the constant pool.
pub type PoolIndex = u16;

/// Emits instruction words into a growing code buffer, interns values
/// into a constant pool, and back-patches forward branch targets.
pub struct Assembler {
    buffer: Vec<u32>,
    cp_buffer: Vec<u32>,
    cp_value_to_index: HashMap<u32, u16>,
    tables: Ghost<Seq<(int, int, int)>>,
}

/// A handle to one 14-bit branch field of an emitted `Split`, waiting
/// to be patched with its real target.
pub struct PatchMarker {
    position: CodePointer,
    is_first: bool,
}

impl PatchMarker {
    /// The code index of the `Split` this marker patches.
    pub closed spec fn position(&self) -> int {
        self.position as int
    }

    /// Whether the marker patches the low (else) field of the payload;
    /// otherwise it patches the high (then) field.
    pub closed spec fn is_first(&self) -> bool {
        self.is_first
    }
}

/// A handle to an emitted `SplitMany`, waiting for its jump table.
pub struct SplitManyMarker {
    position: CodePointer,
}

impl SplitManyMarker {
    /// The code index of the `SplitMany` this marker patches.
    pub closed spec fn position(&self) -> int {
        self.position as int
    }
}

/// One `SplitMany` jump table: the code index of its instruction, the
/// pool index its entries start at, and how many entries it has.
pub open spec fn table_entry_wf(code: Seq<u32>, pool: Seq<u32>, t: (int, int, int)) -> bool {
    &&& 0 <= t.0 < code.len()
    &&& 0 <= t.1 < POOL_LIMIT
    &&& 0 <= t.2
    &&& t.1 + t.2 <= pool.len()
    &&& code[t.0] == mk_instr(9, t.1 as u32)
}

/// Recorded jump tables stay well-formed when code positions they
/// occupy are untouched and both buffers only grow.
proof fn lemma_tables_still_wf(
    old_code: Seq<u32>,
    old_pool: Seq<u32>,
    new_code: Seq<u32>,
    new_pool: Seq<u32>,
    tables: Seq<(int, int, int)>,
)
    requires
        forall|k: int| 0 <= k < tables.len() ==> table_entry_wf(
            old_code,
            old_pool,
            #[trigger] tables[k],
        ),
        new_code.len() >= old_code.len(),
        new_pool.len() >= old_pool.len(),
        forall|k: int| 0 <= k < tables.len() ==> new_code[(#[trigger] tables[k]).0]
            == old_code[tables[k].0],
    ensures
        forall|k: int| 0 <= k < tables.len() ==> table_entry_wf(
            new_code,
            new_pool,
            #[trigger] tables[k],
        ),
{
}

/// The pool index a value would be interned at: its existing index if
/// the value is already in the dedup map, else the next free slot.
pub open spec fn intern_index(interned: Map<u32, u16>, pool: Seq<u32>, value: u32) -> u16 {
    if interned.contains_key(value) {
        interned[value]
    } else {
        pool.len() as u16
    }
}

impl Assembler {
    /// The emitted instruction words.
    pub closed spec fn code(&self) -> Seq<u32> {
        self.buffer@
    }

    /// The constant pool.
    pub closed spec fn pool(&self) -> Seq<u32> {
        self.cp_buffer@
    }

    /// The deduplication map from interned value to pool index.
    pub closed spec fn interned(&self) -> Map<u32, u16> {
        self.cp_value_to_index@
    }

    /// The `SplitMany` jump tables patched so far.
    pub closed spec fn tables(&self) -> Seq<(int, int, int)> {
        self.tables@
    }

    /// The internal consistency every operation preserves: the dedup
    /// map points at pool slots holding its keys, and every recorded
    /// jump table sits inside the pool under a `SplitMany` word.
    pub open spec fn wf(&self) -> bool {
        &&& forall|v: u32| #[trigger] self.interned().contains_key(v) ==> self.interned()[v]
            < self.pool().len() && self.pool()[self.interned()[v] as int] == v
        &&& forall|k: int| 0 <= k < self.tables().len() ==> table_entry_wf(
            self.code(),
            self.pool(),
            #[trigger] self.tables()[k],
        )
    }

    /// A fresh assembler with empty buffers.
    pub fn new() -> (a: Self)
        ensures
            a.wf(),
            a.code() == Seq::<u32>::empty(),
            a.pool() == Seq::<u32>::empty(),
            a.interned() == Map::<u32, u16>::empty(),
            a.tables() == Seq::<(int, int, int)>::empty(),
    {
        Assembler {
            buffer: Vec::new(),
            cp_buffer: Vec::new(),
            cp_value_to_index: HashMap::new(),
            tables: Ghost(Seq::empty()),
        }
    }

    /// Appends one instruction word built from an opcode and a payload.
    pub fn emit_instr(&mut self, opcode: Opcode, payload: u32)
        requires
            old(self).wf(),
            payload < PAYLOAD_LIMIT,
        ensures
            final(self).wf(),
            final(self).code() == old(self).code().push(
                mk_instr(opcode_number(opcode), payload),
            ),
            final(self).pool() == old(self).pool(),
            final(self).interned() == old(self).interned(),
            final(self).tables() == old(self).tables(),
    {
        let n = opcode.number();
        let word = (n << 28) | payload;
        proof {
            let opn = opcode_number(opcode);
            assert(opn < 12 && payload < 0x1000_0000 ==> ((opn << 28) | payload) == opn * 0x1000_0000 + payload) by (bit_vector);
            assert(opn * 0x1000_0000 + payload < 0x1_0000_0000) by (nonlinear_arith)
                requires
                    opn < 12,
                    payload < 0x1000_0000,
            ;
        }
        self.buffer.push(word);
        proof {
            assert(self.interned() == old(self).interned());
            assert(self.pool() == old(self).pool());
            assert forall|v: u32| #[trigger] self.interned().contains_key(v) implies self.interned()[v]
                < self.pool().len() && self.pool()[self.interned()[v] as int] == v by {
                assert(old(self).interned().contains_key(v));
            }
            lemma_tables_still_wf(
                old(self).code(),
                old(self).pool(),
                self.code(),
                self.pool(),
                old(self).tables(),
            );
        }
    }

    /// Emits `CharImm` with the character inline in the payload.
    pub fn emit_char_imm(&mut self, ch: char)
        requires
            old(self).wf(),
        ensures
            final(self).wf(),
            final(self).code() == old(self).code().push(mk_instr(0, ch as u32)),
            final(self).pool() == old(self).pool(),
            final(self).interned() == old(self).interned(),
            final(self).tables() == old(self).tables(),
    {
        self.emit_instr(Opcode::CharImm, ch as u32)
    }

    /// Emits `CharCp`, first interning the character in the constant
    /// pool; a character interned before reuses its pool slot.
    pub fn emit_char_cp(&mut self, ch: char)
        requires
            old(self).wf(),
            old(self).pool().len() < POOL_LIMIT,
        ensures
            final(self).wf(),
            final(self).code() == old(self).code().push(
                mk_instr(
                    1,
                    intern_index(old(self).interned(), old(self).pool(), ch as u32) as u32,
                ),
            ),
            final(self).tables() == old(self).tables(),
            old(self).interned().contains_key(ch as u32) ==> final(self).pool() == old(self).pool()
                && final(self).interned() == old(self).interned(),
            !old(self).interned().contains_key(ch as u32) ==> final(self).pool() == old(
                self,
            ).pool().push(ch as u32) && final(self).interned() == old(self).interned().insert(
                ch as u32,
                old(self).pool().len() as u16,
            ),
    {
        let pool_index = self.get_pool_index(ch as u32);
        self.emit_instr(Opcode::CharCp, pool_index as u32)
    }

    /// Emits `Match` for a token type index.
    pub fn emit_match(&mut self, token_type_index: u16)
        requires
            old(self).wf(),
        ensures
            final(self).wf(),
            final(self).code() == old(self).code().push(mk_instr(2, token_type_index as u32)),
            final(self).pool() == old(self).pool(),
            final(self).interned() == old(self).interned(),
            final(self).tables() == old(self).tables(),
    {
        self.emit_instr(Opcode::Match, token_type_index as u32)
    }

    /// Emits `RangeImm` with both endpoints packed inline. Endpoints
    /// must fit the 14-bit fields the encoding gives them.
    pub fn emit_range_imm(&mut self, from: char, to: char)
        requires
            old(self).wf(),
            (from as u32) < FIELD_LIMIT,
            (to as u32) < FIELD_LIMIT,
        ensures
            final(self).wf(),
            final(self).code() == old(self).code().push(
                mk_instr(6, mk_payload2(from as u32, to as u32)),
            ),
            final(self).pool() == old(self).pool(),
            final(self).interned() == old(self).interned(),
            final(self).tables() == old(self).tables(),
    {
        self.emit_binary_instr(Opcode::RangeImm, from as u16, to as u16)
    }

    /// Emits `Split` with the given branch targets and returns one
    /// patch marker per branch field, then-field first.
    pub fn emit_split(&mut self, then_instr_index: CodePointer, else_instr_index: CodePointer) -> (markers: (
        PatchMarker,
        PatchMarker,
    ))
        requires
            old(self).wf(),
            then_instr_index < FIELD_LIMIT,
            else_instr_index < FIELD_LIMIT,
            old(self).code().len() < POOL_LIMIT,
        ensures
            final(self).wf(),
            final(self).code() == old(self).code().push(
                mk_instr(3, mk_payload2(then_instr_index as u32, else_instr_index as u32)),
            ),
            final(self).pool() == old(self).pool(),
            final(self).interned() == old(self).interned(),
            final(self).tables() == old(self).tables(),
            markers.0.position() == old(self).code().len(),
            !markers.0.is_first(),
            markers.1.position() == old(self).code().len(),
            markers.1.is_first(),
    {
        self.emit_binary_instr(Opcode::Split, then_instr_index, else_instr_index);
        let position = self.last_code_position();
        (PatchMarker { position, is_first: false }, PatchMarker { position, is_first: true })
    }

    /// Emits `Jmp` to a code index.
    pub fn emit_jmp(&mut self, instr_index: CodePointer)
        requires
            old(self).wf(),
            instr_index < FIELD_LIMIT,
        ensures
            final(self).wf(),
            final(self).code() == old(self).code().push(mk_instr(4, instr_index as u32)),
            final(self).pool() == old(self).pool(),
            final(self).interned() == old(self).interned(),
            final(self).tables() == old(self).tables(),
    {
        self.emit_instr(Opcode::Jmp, instr_index as u32)
    }

    /// Emits `SplitMany` with a placeholder payload and returns the
    /// marker that `patch_split_many` later resolves with a table.
    pub fn emit_split_many(&mut self) -> (marker: SplitManyMarker)
        requires
            old(self).wf(),
            old(self).code().len() < POOL_LIMIT,
        ensures
            final(self).wf(),
            final(self).code() == old(self).code().push(mk_instr(9, 0)),
            final(self).pool() == old(self).pool(),
            final(self).interned() == old(self).interned(),
            final(self).tables() == old(self).tables(),
            marker.position() == old(self).code().len(),
    {
        let table_marker = SplitManyMarker { position: self.next_code_position() };
        self.emit_instr(Opcode::SplitMany, 0);
        table_marker
    }

    /// Appends the jump table to the constant pool and writes its
    /// starting pool index into the instruction's low 16 bits. Must be
    /// called exactly once per marker, on its placeholder.
    pub fn patch_split_many(&mut self, marker: &SplitManyMarker, table: Vec<CodePointer>)
        requires
            old(self).wf(),
            0 <= marker.position() < old(self).code().len(),
            old(self).code()[marker.position()] == mk_instr(9, 0),
            forall|k: int| 0 <= k < old(self).tables().len() ==> (#[trigger] old(self).tables()[k]).0
                != marker.position(),
            old(self).pool().len() < POOL_LIMIT,
        ensures
            final(self).wf(),
            final(self).code() == old(self).code().update(
                marker.position(),
                mk_instr(9, old(self).pool().len() as u32),
            ),
            final(self).pool() == old(self).pool() + table@.map_values(|el: u16| el as u32),
            final(self).interned() == old(self).interned(),
            final(self).tables() == old(self).tables().push(
                (marker.position(), old(self).pool().len() as int, table@.len() as int),
            ),
    {
        let table_index = self.cp_buffer.len();
        let old_instruction = self.buffer[marker.position as usize];
        let new_instruction = (old_instruction & (0b1111_1111_1111_1111u32 << 16)) | (table_index
            as u32);
        proof {
            let w = old_instruction;
            let ti = table_index as u32;
            assert(mk_instr(9, 0) == 0x9000_0000u32);
            assert(w == 0x9000_0000u32 && ti < 0x1_0000 ==> ((w & (0b1111_1111_1111_1111u32 << 16))
                | ti) == 0x9000_0000u32 + ti) by (bit_vector);
            assert(new_instruction == mk_instr(9, ti));
        }
        self.buffer[marker.position as usize] = new_instruction;
        let ghost old_pool = self.cp_buffer@;
        let mut i: usize = 0;
        while i < table.len()
            invariant
                i <= table@.len(),
                self.buffer@ == old(self).code().update(
                    marker.position(),
                    mk_instr(9, old_pool.len() as u32),
                ),
                self.cp_value_to_index@ == old(self).interned(),
                self.tables@ == old(self).tables(),
                self.cp_buffer@.len() == old_pool.len() + i,
                forall|j: int| 0 <= j < old_pool.len() ==> self.cp_buffer@[j] == old_pool[j],
                forall|j: int| 0 <= j < i ==> self.cp_buffer@[old_pool.len() + j] == (
                #[trigger] table@[j]) as u32,
            decreases table@.len() - i,
        {
            self.cp_buffer.push(table[i] as u32);
            i += 1;
        }
        proof {
            assert(self.cp_buffer@ =~= old_pool + table@.map_values(|el: u16| el as u32));
            self.tables@ = self.tables@.push(
                (marker.position(), old_pool.len() as int, table@.len() as int),
            );
            lemma_mk_instr_fields(9, old_pool.len() as u32);
            lemma_tables_still_wf(
                old(self).code(),
                old(self).pool(),
                self.code(),
                self.pool(),
                old(self).tables(),
            );
            assert(table_entry_wf(
                self.code(),
                self.pool(),
                (marker.position(), old_pool.len() as int, table@.len() as int),
            ));
        }
    }

    /// The code index the next emitted instruction will occupy.
    pub fn next_code_position(&self) -> (pos: CodePointer)
        requires
            self.code().len() < POOL_LIMIT,
        ensures
            pos == self.code().len(),
    {
        self.buffer.len() as CodePointer
    }

    /// The code index of the most recently emitted instruction.
    fn last_code_position(&self) -> (pos: CodePointer)
        requires
            1 <= self.code().len() <= POOL_LIMIT,
        ensures
            pos == self.code().len() - 1,
    {
        (self.buffer.len() - 1) as CodePointer
    }

    /// Rewrites the branch field named by the marker with a new 14-bit
    /// target, leaving the rest of the `Split` word intact.
    pub fn patch_target(&mut self, patch_marker: &PatchMarker, new_pos: CodePointer)
        requires
            old(self).wf(),
            new_pos < FIELD_LIMIT,
            0 <= patch_marker.position() < old(self).code().len(),
            instr_op(old(self).code()[patch_marker.position()]) == 3,
        ensures
            final(self).wf(),
            final(self).code() == old(self).code().update(
                patch_marker.position(),
                if patch_marker.is_first() {
                    mk_instr(
                        3,
                        mk_payload2(
                            payload_hi(instr_payload(old(self).code()[patch_marker.position()])),
                            new_pos as u32,
                        ),
                    )
                } else {
                    mk_instr(
                        3,
                        mk_payload2(
                            new_pos as u32,
                            payload_lo(instr_payload(old(self).code()[patch_marker.position()])),
                        ),
                    )
                },
            ),
            final(self).pool() == old(self).pool(),
            final(self).interned() == old(self).interned(),
            final(self).tables() == old(self).tables(),
    {
        let instruction = self.buffer[patch_marker.position as usize];
        if patch_marker.is_first {
            let mask: u32 = !0b11_1111_1111_1111u32;
            let new_instruction = (instruction & mask) | new_pos as u32;
            proof {
                let w = instruction;
                let np = new_pos as u32;
                assert(w / 0x1000_0000 == 3 && np < 0x4000 ==> ((w & !0b11_1111_1111_1111u32) | np)
                    == 3 * 0x1000_0000 + (((w % 0x1000_0000) / 0x4000) % 0x4000) * 0x4000 + np) by (bit_vector);
                assert(payload_hi(instr_payload(w)) * 0x4000 + np < 0x1000_0000) by (nonlinear_arith)
                    requires
                        np < 0x4000,
                        payload_hi(instr_payload(w)) < 0x4000,
                ;
                assert(new_instruction == mk_instr(
                    3,
                    mk_payload2(payload_hi(instr_payload(w)), np),
                ));
            }
            self.buffer[patch_marker.position as usize] = new_instruction;
        } else {
            let mask: u32 = !(0b11_1111_1111_1111u32 << 14);
            let new_instruction = (instruction & mask) | ((new_pos as u32) << 14);
            proof {
                let w = instruction;
                let np = new_pos as u32;
                assert(w / 0x1000_0000 == 3 && np < 0x4000 ==> ((w & !(0b11_1111_1111_1111u32
                    << 14)) | (np << 14)) == 3 * 0x1000_0000 + np * 0x4000 + (w % 0x1000_0000)
                    % 0x4000) by (bit_vector);
                assert(np * 0x4000 + payload_lo(instr_payload(w)) < 0x1000_0000) by (nonlinear_arith)
                    requires
                        np < 0x4000,
                        payload_lo(instr_payload(w)) < 0x4000,
                ;
                assert(new_instruction == mk_instr(
                    3,
                    mk_payload2(np, payload_lo(instr_payload(w))),
                ));
            }
            self.buffer[patch_marker.position as usize] = new_instruction;
        }
        proof {
            assert(self.interned() == old(self).interned());
            assert(self.pool() == old(self).pool());
            assert forall|v: u32| #[trigger] self.interned().contains_key(v) implies self.interned()[v]
                < self.pool().len() && self.pool()[self.interned()[v] as int] == v by {
                assert(old(self).interned().contains_key(v));
            }
            assert forall|j: int| 0 <= j < old(self).tables().len() implies self.code()[(
            #[trigger] old(self).tables()[j]).0] == old(self).code()[old(self).tables()[j].0] by {
                let t = old(self).tables()[j];
                assert(table_entry_wf(old(self).code(), old(self).pool(), t));
                lemma_mk_instr_fields(9, t.1 as u32);
                assert(instr_op(old(self).code()[t.0]) == 9);
                assert(t.0 != patch_marker.position());
            }
            lemma_tables_still_wf(
                old(self).code(),
                old(self).pool(),
                self.code(),
                self.pool(),
                old(self).tables(),
            );
        }
    }

    /// Packs two 14-bit operands into one payload and emits the word.
    fn emit_binary_instr(&mut self, opcode: Opcode, first: u16, second: u16)
        requires
            old(self).wf(),
            first < FIELD_LIMIT,
            second < FIELD_LIMIT,
        ensures
            final(self).wf(),
            final(self).code() == old(self).code().push(
                mk_instr(opcode_number(opcode), mk_payload2(first as u32, second as u32)),
            ),
            final(self).pool() == old(self).pool(),
            final(self).interned() == old(self).interned(),
            final(self).tables() == old(self).tables(),
    {
        let payload = ((first as u32) << 14) as u32 | (second as u32);
        proof {
            let f = first as u32;
            let s = second as u32;
            assert(f < 0x4000 && s < 0x4000 ==> ((f << 14) | s) == f * 0x4000 + s && ((f
                << 14) | s) < 0x1000_0000) by (bit_vector);
            lemma_mk_payload2_fields(f, s);
            assert(payload == mk_payload2(f, s));
        }
        self.emit_instr(opcode, payload)
    }

    /// Interns a value in the constant pool, deduplicating: asking
    /// twice for the same value returns the same pool index and leaves
    /// the assembler unchanged the second time.
    pub fn get_pool_index(&mut self, value: u32) -> (index: PoolIndex)
        requires
            old(self).wf(),
            old(self).pool().len() < POOL_LIMIT,
        ensures
            final(self).wf(),
            index == intern_index(old(self).interned(), old(self).pool(), value),
            index < final(self).pool().len(),
            final(self).pool()[index as int] == value,
            final(self).code() == old(self).code(),
            final(self).tables() == old(self).tables(),
            old(self).interned().contains_key(value) ==> final(self).pool() == old(self).pool()
                && final(self).interned() == old(self).interned(),
            !old(self).interned().contains_key(value) ==> final(self).pool() == old(
                self,
            ).pool().push(value) && final(self).interned() == old(self).interned().insert(
                value,
                old(self).pool().len() as u16,
            ),
    {
        match self.cp_value_to_index.get(&value) {
            None => {
                let cp_index = self.cp_buffer.len() as PoolIndex;
                self.cp_buffer.push(value);
                self.cp_value_to_index.insert(value, cp_index);
                proof {
                    assert(self.interned() == old(self).interned().insert(value, cp_index));
                    assert(self.pool() == old(self).pool().push(value));
                    assert forall|v: u32| #[trigger] self.interned().contains_key(v) implies self.interned()[v]
                        < self.pool().len() && self.pool()[self.interned()[v] as int] == v by {
                        if v != value {
                            assert(old(self).interned().contains_key(v));
                        }
                    }
                    lemma_tables_still_wf(
                        old(self).code(),
                        old(self).pool(),
                        self.code(),
                        self.pool(),
                        old(self).tables(),
                    );
                }
                cp_index
            },
            Some(v) => *v,
        }
    }

    /// Hands off the finished program and resets the assembler for
    /// reuse: both buffers, the dedup map and the recorded tables are
    /// emptied.
    pub fn finish(&mut self) -> (prog: ProgramData)
        requires
            old(self).wf(),
        ensures
            final(self).wf(),
            prog.code@ == old(self).code(),
            prog.constant_pool@ == old(self).pool(),
            prog.tables@ == old(self).tables(),
            final(self).code() == Seq::<u32>::empty(),
            final(self).pool() == Seq::<u32>::empty(),
            final(self).interned() == Map::<u32, u16>::empty(),
            final(self).tables() == Seq::<(int, int, int)>::empty(),
    {
        let ghost finished_tables = self.tables@;
        let mut code: Vec<u32> = Vec::new();
        core::mem::swap(&mut self.buffer, &mut code);
        let mut cp_buffer: Vec<u32> = Vec::new();
        core::mem::swap(&mut self.cp_buffer, &mut cp_buffer);
        self.cp_value_to_index.clear();
        proof {
            self.tables@ = Seq::empty();
        }
        ProgramData { code, constant_pool: cp_buffer, tables: Ghost(finished_tables) }
    }
}

/// A finished program: code and constant pool, together with the ghost
/// record of where its `SplitMany` jump tables lie in the pool.
pub struct ProgramData {
    pub code: Vec<u32>,
    pub constant_pool: Vec<u32>,
    pub tables: Ghost<Seq<(int, int, int)>>,
}

impl ProgramData {
    /// Wraps a code buffer and constant pool, with no recorded tables.
    pub fn new(code: Vec<u32>, constant_pool: Vec<u32>) -> (prog: Self)
        ensures
            prog.code@ == code@,
            prog.constant_pool@ == constant_pool@,
            prog.tables@ == Seq::<(int, int, int)>::empty(),
    {
        ProgramData { code, constant_pool, tables: Ghost(Seq::empty()) }
    }
}

} // verus!
