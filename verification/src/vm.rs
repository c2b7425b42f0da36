use vstd::prelude::*;

use bit_set::BitSet;
use crate::assembler::CodePointer;
use crate::disasm::Instruction;
use crate::disasm::decodable;
use crate::disasm::decode;
use crate::disasm::is_consuming;
use crate::disasm::spec_decode;
use crate::disasm::instr_targets_ok;
use crate::disasm::strict_instr_ok;

verus! {

/// A dense bit-set over code-pointer space, held in an outside
/// collection whose generic declaration the verifier does not take;
/// the struct is opaque and its contents are modelled by
/// `bitset_contents`, which the trusted wrappers below specify.
#[verifier::external_body]
pub struct ThreadSet {
    bits: BitSet,
}

/// What a thread set holds: the set of indices whose bits are set.
pub uninterp spec fn bitset_contents(s: ThreadSet) -> Set<usize>;

/// Relies on bit_set::BitSet::with_capacity: the new set holds nothing;
/// the capacity only pre-allocates.
#[verifier::external_body]
fn bitset_with_capacity(nbits: usize) -> (s: ThreadSet)
    ensures
        bitset_contents(s) == Set::<usize>::empty(),
{
    ThreadSet { bits: BitSet::with_capacity(nbits) }
}

/// Relies on bit_set::BitSet::insert: afterwards the set holds the
/// value and everything it held before; the set grows as needed.
#[verifier::external_body]
fn bitset_insert(s: &mut ThreadSet, value: usize)
    ensures
        bitset_contents(*final(s)) == bitset_contents(*old(s)).insert(value),
{
    s.bits.insert(value);
}

/// Relies on bit_set::BitSet::make_empty: afterwards the set holds
/// nothing.
#[verifier::external_body]
fn bitset_make_empty(s: &mut ThreadSet)
    ensures
        bitset_contents(*final(s)) == Set::<usize>::empty(),
{
    s.bits.make_empty();
}

/// Relies on bit_set::BitSet::is_empty: true exactly when no bit is
/// set.
#[verifier::external_body]
fn bitset_is_empty(s: &ThreadSet) -> (r: bool)
    ensures
        r <==> bitset_contents(*s) == Set::<usize>::empty(),
{
    s.bits.is_empty()
}

/// Relies on bit_set::BitSet::iter: it yields exactly the stored
/// values, each once.
#[verifier::external_body]
fn bitset_elements(s: &ThreadSet) -> (r: Vec<usize>)
    ensures
        forall|k: int| 0 <= k < r@.len() ==> bitset_contents(*s).contains(#[trigger] r@[k]),
        forall|v: usize| bitset_contents(*s).contains(v) ==> r@.contains(v),
        forall|k1: int, k2: int| 0 <= k1 < k2 < r@.len() ==> r@[k1] != r@[k2],
{
    s.bits.iter().collect()
}

/// One instruction's epsilon edges respect the rank: `Split` and `Jmp`
/// targets are in bounds and of strictly smaller rank.
pub open spec fn rank_ok_at(code: Seq<u32>, rank: Map<int, nat>, i: int) -> bool {
    &&& rank.dom().contains(i)
    &&& match spec_decode(code[i]) {
        Instruction::Split { then_instr_index, else_instr_index } => {
            &&& (then_instr_index as int) < code.len()
            &&& (else_instr_index as int) < code.len()
            &&& rank.dom().contains(then_instr_index as int)
            &&& rank.dom().contains(else_instr_index as int)
            &&& rank[then_instr_index as int] < rank[i]
            &&& rank[else_instr_index as int] < rank[i]
        },
        Instruction::Jmp { instr_index } => {
            &&& (instr_index as int) < code.len()
            &&& rank.dom().contains(instr_index as int)
            &&& rank[instr_index as int] < rank[i]
        },
        _ => true,
    }
}

/// A rank function witnessing that the epsilon edges of the program
/// form no cycle.
pub open spec fn rank_ok(code: Seq<u32>, rank: Map<int, nat>) -> bool {
    forall|i: int| 0 <= i < code.len() ==> #[trigger] rank_ok_at(code, rank, i)
}

/// The epsilon edges of the program admit a rank, hence form no cycle.
pub open spec fn has_eps_rank(code: Seq<u32>) -> bool {
    exists|rank: Map<int, nat>| rank_ok(code, rank)
}

/// A program whose `Split` and `Jmp` targets all point strictly
/// forward admits a rank: distance to the end of the code.
pub proof fn lemma_forward_has_rank(code: Seq<u32>, pool: Seq<u32>)
    requires
        forall|i: int| 0 <= i < code.len() ==> #[trigger] strict_instr_ok(code, pool, i),
    ensures
        has_eps_rank(code),
{
    let rank = Map::<int, nat>::new(|i: int| 0 <= i <= code.len(), |i: int| (code.len() - i) as nat);
    assert forall|i: int| 0 <= i < code.len() implies #[trigger] rank_ok_at(code, rank, i) by {
        assert(strict_instr_ok(code, pool, i));
    }
    assert(rank_ok(code, rank));
}

/// The larger of two optional match indices, `None` the identity.
pub open spec fn opt_max(a: Option<u16>, b: Option<u16>) -> Option<u16> {
    match a {
        Option::None => b,
        Option::Some(x) => match b {
            Option::None => a,
            Option::Some(y) => if x >= y {
                a
            } else {
                b
            },
        },
    }
}

/// `a` is no larger than `b`, `None` smallest.
pub open spec fn opt_le(a: Option<u16>, b: Option<u16>) -> bool {
    match a {
        Option::None => true,
        Option::Some(x) => match b {
            Option::None => false,
            Option::Some(y) => x <= y,
        },
    }
}

/// The largest `Match` index the epsilon closure from `pc` reaches
/// without consuming input.
pub open spec fn eps_match(code: Seq<u32>, rank: Map<int, nat>, pc: int) -> Option<u16>
    decreases rank[pc],
        when rank_ok(code, rank) && 0 <= pc < code.len()
        via eps_match_decreases
{
    match spec_decode(code[pc]) {
        Instruction::Split { then_instr_index, else_instr_index } => opt_max(
            eps_match(code, rank, then_instr_index as int),
            eps_match(code, rank, else_instr_index as int),
        ),
        Instruction::Jmp { instr_index } => eps_match(code, rank, instr_index as int),
        Instruction::Match { token_type_index } => Some(token_type_index),
        _ => None,
    }
}

#[via_fn]
proof fn eps_match_decreases(code: Seq<u32>, rank: Map<int, nat>, pc: int) {
    assert(rank_ok_at(code, rank, pc));
}

/// The input-consuming code pointers the epsilon closure from `pc`
/// reaches: the leaves that get scheduled as threads.
pub open spec fn eps_set(code: Seq<u32>, rank: Map<int, nat>, pc: int) -> Set<usize>
    decreases rank[pc],
        when rank_ok(code, rank) && 0 <= pc < code.len()
        via eps_set_decreases
{
    match spec_decode(code[pc]) {
        Instruction::Split { then_instr_index, else_instr_index } => eps_set(
            code,
            rank,
            then_instr_index as int,
        ).union(eps_set(code, rank, else_instr_index as int)),
        Instruction::Jmp { instr_index } => eps_set(code, rank, instr_index as int),
        Instruction::Match { token_type_index } => Set::empty(),
        _ => Set::empty().insert(pc as usize),
    }
}

#[via_fn]
proof fn eps_set_decreases(code: Seq<u32>, rank: Map<int, nat>, pc: int) {
    assert(rank_ok_at(code, rank, pc));
}

/// Whether the epsilon closure from `pc` can reach the instruction at
/// `q`, which accepts: a walk over `Split` and `Jmp` edges ending on a
/// `Match`.
pub open spec fn eps_reaches_match(code: Seq<u32>, rank: Map<int, nat>, pc: int, q: int) -> bool
    decreases rank[pc],
        when rank_ok(code, rank) && 0 <= pc < code.len()
        via eps_reaches_match_decreases
{
    match spec_decode(code[pc]) {
        Instruction::Split { then_instr_index, else_instr_index } => eps_reaches_match(
            code,
            rank,
            then_instr_index as int,
            q,
        ) || eps_reaches_match(code, rank, else_instr_index as int, q),
        Instruction::Jmp { instr_index } => eps_reaches_match(code, rank, instr_index as int, q),
        Instruction::Match { token_type_index } => q == pc,
        _ => false,
    }
}

#[via_fn]
proof fn eps_reaches_match_decreases(code: Seq<u32>, rank: Map<int, nat>, pc: int, q: int) {
    assert(rank_ok_at(code, rank, pc));
}

/// Priority at one step: the match index the epsilon closure reports
/// is the largest token index over every `Match` instruction it can
/// reach, and it reports one exactly when it reaches one.
pub proof fn lemma_eps_match_priority(code: Seq<u32>, rank: Map<int, nat>, pc: int)
    requires
        rank_ok(code, rank),
        0 <= pc < code.len(),
    ensures
        forall|q: int| #[trigger] eps_reaches_match(code, rank, pc, q) ==> 0 <= q < code.len()
            && spec_decode(code[q]) is Match && opt_le(
            Some(spec_decode(code[q])->Match_token_type_index),
            eps_match(code, rank, pc),
        ),
        eps_match(code, rank, pc) is Some ==> exists|q: int| #[trigger] eps_reaches_match(
            code,
            rank,
            pc,
            q,
        ) && spec_decode(code[q])->Match_token_type_index == eps_match(code, rank, pc)->0,
    decreases rank[pc],
{
    assert(rank_ok_at(code, rank, pc));
    match spec_decode(code[pc]) {
        Instruction::Split { then_instr_index, else_instr_index } => {
            let a = then_instr_index as int;
            let b = else_instr_index as int;
            lemma_eps_match_priority(code, rank, a);
            lemma_eps_match_priority(code, rank, b);
            assert forall|q: int| #[trigger] eps_reaches_match(code, rank, pc, q) implies 0 <= q
                < code.len() && spec_decode(code[q]) is Match && opt_le(
                Some(spec_decode(code[q])->Match_token_type_index),
                eps_match(code, rank, pc),
            ) by {
                if eps_reaches_match(code, rank, a, q) {
                } else {
                    assert(eps_reaches_match(code, rank, b, q));
                }
            }
            if eps_match(code, rank, pc) is Some {
                if eps_match(code, rank, pc) == eps_match(code, rank, a) {
                    let q = choose|q: int|
                        #[trigger] eps_reaches_match(code, rank, a, q) && spec_decode(
                            code[q],
                        )->Match_token_type_index == eps_match(code, rank, a)->0;
                    assert(eps_reaches_match(code, rank, pc, q));
                } else {
                    let q = choose|q: int|
                        #[trigger] eps_reaches_match(code, rank, b, q) && spec_decode(
                            code[q],
                        )->Match_token_type_index == eps_match(code, rank, b)->0;
                    assert(eps_reaches_match(code, rank, pc, q));
                }
            }
        },
        Instruction::Jmp { instr_index } => {
            let t = instr_index as int;
            lemma_eps_match_priority(code, rank, t);
            assert forall|q: int| #[trigger] eps_reaches_match(code, rank, pc, q) implies 0 <= q
                < code.len() && spec_decode(code[q]) is Match && opt_le(
                Some(spec_decode(code[q])->Match_token_type_index),
                eps_match(code, rank, pc),
            ) by {
                assert(eps_reaches_match(code, rank, t, q));
            }
            if eps_match(code, rank, pc) is Some {
                let q = choose|q: int|
                    #[trigger] eps_reaches_match(code, rank, t, q) && spec_decode(
                        code[q],
                    )->Match_token_type_index == eps_match(code, rank, t)->0;
                assert(eps_reaches_match(code, rank, pc, q));
            }
        },
        Instruction::Match { token_type_index } => {
            assert(eps_reaches_match(code, rank, pc, pc));
            assert forall|q: int| #[trigger] eps_reaches_match(code, rank, pc, q) implies 0 <= q
                < code.len() && spec_decode(code[q]) is Match && opt_le(
                Some(spec_decode(code[q])->Match_token_type_index),
                eps_match(code, rank, pc),
            ) by {
                assert(q == pc);
            }
        },
        _ => {
            assert forall|q: int| #[trigger] eps_reaches_match(code, rank, pc, q) implies 0 <= q
                < code.len() && spec_decode(code[q]) is Match && opt_le(
                Some(spec_decode(code[q])->Match_token_type_index),
                eps_match(code, rank, pc),
            ) by {}
        },
    }
}

/// Every code pointer the closure schedules lies inside the code.
pub proof fn lemma_eps_set_bounds(code: Seq<u32>, rank: Map<int, nat>, pc: int)
    requires
        rank_ok(code, rank),
        0 <= pc < code.len(),
    ensures
        forall|v: usize| eps_set(code, rank, pc).contains(v) ==> v < code.len(),
    decreases rank[pc],
{
    assert(rank_ok_at(code, rank, pc));
    match spec_decode(code[pc]) {
        Instruction::Split { then_instr_index, else_instr_index } => {
            lemma_eps_set_bounds(code, rank, then_instr_index as int);
            lemma_eps_set_bounds(code, rank, else_instr_index as int);
            assert forall|v: usize| eps_set(code, rank, pc).contains(v) implies v
                < code.len() by {
                if eps_set(code, rank, then_instr_index as int).contains(v) {
                } else {
                    assert(eps_set(code, rank, else_instr_index as int).contains(v));
                }
            }
        },
        Instruction::Jmp { instr_index } => {
            lemma_eps_set_bounds(code, rank, instr_index as int);
            assert forall|v: usize| eps_set(code, rank, pc).contains(v) implies v
                < code.len() by {
                assert(eps_set(code, rank, instr_index as int).contains(v));
            }
        },
        _ => {},
    }
}

/// The threads scheduled by one character: the epsilon closures of the
/// successors of every current thread that consumes it.
pub open spec fn step_set(code: Seq<u32>, rank: Map<int, nat>, cur: Set<usize>, ch: char) -> Set<
    usize,
> {
    Set::new(
        |v: usize|
            exists|pc: usize|
                #[trigger] cur.contains(pc) && consume_ok(code[pc as int], ch) && eps_set(
                    code,
                    rank,
                    pc as int + 1,
                ).contains(v),
    )
}

/// The largest match index one character yields: the maximum, over
/// every current thread below `bound` that consumes it, of its
/// successor's closure match.
pub open spec fn step_match(
    code: Seq<u32>,
    rank: Map<int, nat>,
    cur: Set<usize>,
    ch: char,
    bound: nat,
) -> Option<u16>
    decreases bound,
{
    if bound == 0 {
        None
    } else {
        let pc = (bound - 1) as usize;
        let rest = step_match(code, rank, cur, ch, (bound - 1) as nat);
        if cur.contains(pc) && consume_ok(code[pc as int], ch) {
            opt_max(eps_match(code, rank, pc as int + 1), rest)
        } else {
            rest
        }
    }
}

/// `step_match` is the maximum over the matching threads below the
/// bound: every one is no larger, and some thread attains it.
pub proof fn lemma_step_match_bounds(
    code: Seq<u32>,
    rank: Map<int, nat>,
    cur: Set<usize>,
    ch: char,
    bound: nat,
)
    ensures
        forall|pc: usize|
            (pc as nat) < bound && #[trigger] cur.contains(pc) && consume_ok(code[pc as int], ch)
                ==> opt_le(
                eps_match(code, rank, pc as int + 1),
                step_match(code, rank, cur, ch, bound),
            ),
        step_match(code, rank, cur, ch, bound) is Some ==> exists|pc: usize|
            (pc as nat) < bound && #[trigger] cur.contains(pc) && consume_ok(code[pc as int], ch)
                && eps_match(code, rank, pc as int + 1) == step_match(code, rank, cur, ch, bound),
    decreases bound,
{
    if bound > 0 {
        lemma_step_match_bounds(code, rank, cur, ch, (bound - 1) as nat);
    }
}

/// One token attempt, as the per-character algorithm over the spec
/// model: consume characters from `cp`, advancing the thread set; a
/// match in error mode ends the error run one character back; a match
/// otherwise records the largest index at the current position; when
/// the thread set dies the best candidate is committed, or error mode
/// begins and the set is re-seeded; exhausting the input commits the
/// best candidate or ends the error run. Returns the emitted token's
/// type index and the character position where it ends, which is where
/// the next attempt resumes.
pub open spec fn attempt(
    code: Seq<u32>,
    rank: Map<int, nat>,
    text: Seq<char>,
    cp: int,
    cur: Set<usize>,
    best: Option<(u16, int)>,
    error_mode: bool,
) -> (u16, int)
    decreases text.len() - cp,
{
    if cp >= text.len() {
        match best {
            Option::Some(b) => b,
            Option::None => (0, cp),
        }
    } else {
        let ch = text[cp];
        let m = step_match(code, rank, cur, ch, code.len());
        let advanced = step_set(code, rank, cur, ch);
        if m is Some && error_mode {
            (0, cp)
        } else {
            let best1 = if m is Some {
                match best {
                    Option::Some(b) => Option::Some(
                        (
                            if b.0 <= m->0 {
                                m->0
                            } else {
                                b.0
                            },
                            cp + 1,
                        ),
                    ),
                    Option::None => Option::Some((m->0, cp + 1)),
                }
            } else {
                best
            };
            if advanced == Set::<usize>::empty() {
                if !error_mode && best1 is Some {
                    best1->0
                } else {
                    attempt(
                        code,
                        rank,
                        text,
                        cp + 1,
                        advanced.union(eps_set(code, rank, 0)),
                        best1,
                        true,
                    )
                }
            } else {
                attempt(code, rank, text, cp + 1, advanced, best1, error_mode)
            }
        }
    }
}

/// The closure functions do not depend on which rank witnesses the
/// program's acyclicity.
pub proof fn lemma_eps_rank_indep(code: Seq<u32>, r1: Map<int, nat>, r2: Map<int, nat>, pc: int)
    requires
        rank_ok(code, r1),
        rank_ok(code, r2),
        0 <= pc < code.len(),
    ensures
        eps_match(code, r1, pc) == eps_match(code, r2, pc),
        eps_set(code, r1, pc) == eps_set(code, r2, pc),
    decreases r1[pc],
{
    assert(rank_ok_at(code, r1, pc));
    assert(rank_ok_at(code, r2, pc));
    match spec_decode(code[pc]) {
        Instruction::Split { then_instr_index, else_instr_index } => {
            lemma_eps_rank_indep(code, r1, r2, then_instr_index as int);
            lemma_eps_rank_indep(code, r1, r2, else_instr_index as int);
        },
        Instruction::Jmp { instr_index } => {
            lemma_eps_rank_indep(code, r1, r2, instr_index as int);
        },
        _ => {},
    }
}

/// Nor do the per-character step functions.
pub proof fn lemma_step_rank_indep(
    code: Seq<u32>,
    r1: Map<int, nat>,
    r2: Map<int, nat>,
    cur: Set<usize>,
    ch: char,
    bound: nat,
)
    requires
        rank_ok(code, r1),
        rank_ok(code, r2),
        bound <= code.len(),
        forall|v: usize| #[trigger] cur.contains(v) ==> (v as int) < code.len(),
        forall|i: int| 0 <= i < code.len() && is_consuming(#[trigger] code[i]) ==> i + 1
            < code.len(),
    ensures
        step_match(code, r1, cur, ch, bound) == step_match(code, r2, cur, ch, bound),
        step_set(code, r1, cur, ch) == step_set(code, r2, cur, ch),
    decreases bound,
{
    if bound > 0 {
        lemma_step_rank_indep(code, r1, r2, cur, ch, (bound - 1) as nat);
        let pc = (bound - 1) as usize;
        if cur.contains(pc) && consume_ok(code[pc as int], ch) {
            lemma_eps_rank_indep(code, r1, r2, pc as int + 1);
        }
    }
    assert forall|v: usize|
        step_set(code, r1, cur, ch).contains(v) == step_set(code, r2, cur, ch).contains(v) by {
        if step_set(code, r1, cur, ch).contains(v) {
            let pc = choose|pc: usize|
                #[trigger] cur.contains(pc) && consume_ok(code[pc as int], ch) && eps_set(
                    code,
                    r1,
                    pc as int + 1,
                ).contains(v);
            lemma_eps_rank_indep(code, r1, r2, pc as int + 1);
        }
        if step_set(code, r2, cur, ch).contains(v) {
            let pc = choose|pc: usize|
                #[trigger] cur.contains(pc) && consume_ok(code[pc as int], ch) && eps_set(
                    code,
                    r2,
                    pc as int + 1,
                ).contains(v);
            lemma_eps_rank_indep(code, r1, r2, pc as int + 1);
        }
    }
    assert(step_set(code, r1, cur, ch) =~= step_set(code, r2, cur, ch));
}

/// Nor does a whole token attempt.
pub proof fn lemma_attempt_rank_indep(
    code: Seq<u32>,
    r1: Map<int, nat>,
    r2: Map<int, nat>,
    text: Seq<char>,
    cp: int,
    cur: Set<usize>,
    best: Option<(u16, int)>,
    error_mode: bool,
)
    requires
        rank_ok(code, r1),
        rank_ok(code, r2),
        1 <= code.len(),
        forall|v: usize| #[trigger] cur.contains(v) ==> (v as int) < code.len(),
        forall|i: int| 0 <= i < code.len() && is_consuming(#[trigger] code[i]) ==> i + 1
            < code.len(),
    ensures
        attempt(code, r1, text, cp, cur, best, error_mode) == attempt(
            code,
            r2,
            text,
            cp,
            cur,
            best,
            error_mode,
        ),
    decreases text.len() - cp,
{
    if cp < text.len() {
        let ch = text[cp];
        lemma_step_rank_indep(code, r1, r2, cur, ch, code.len() as nat);
        lemma_eps_rank_indep(code, r1, r2, 0);
        let advanced = step_set(code, r1, cur, ch);
        assert forall|v: usize| #[trigger] advanced.contains(v) implies (v as int)
            < code.len() by {
            let pc = choose|pc: usize|
                #[trigger] cur.contains(pc) && consume_ok(code[pc as int], ch) && eps_set(
                    code,
                    r1,
                    pc as int + 1,
                ).contains(v);
            lemma_eps_set_bounds(code, r1, pc as int + 1);
        }
        lemma_eps_set_bounds(code, r1, 0);
        let m = step_match(code, r1, cur, ch, code.len() as nat);
        if m is Some && error_mode {
        } else {
            let best1 = if m is Some {
                match best {
                    Option::Some(b) => Option::Some(
                        (
                            if b.0 <= m->0 {
                                m->0
                            } else {
                                b.0
                            },
                            cp + 1,
                        ),
                    ),
                    Option::None => Option::Some((m->0, cp + 1)),
                }
            } else {
                best
            };
            if advanced == Set::<usize>::empty() {
                if !error_mode && best1 is Some {
                } else {
                    lemma_attempt_rank_indep(
                        code,
                        r1,
                        r2,
                        text,
                        cp + 1,
                        advanced.union(eps_set(code, r1, 0)),
                        best1,
                        true,
                    );
                }
            } else {
                lemma_attempt_rank_indep(code, r1, r2, text, cp + 1, advanced, best1, error_mode);
            }
        }
    }
}

/// The whole token stream from character position `cp`: one attempt
/// per token, each resuming where the last ended, closed by the
/// end-of-input token `(1, cp)` once the input is exhausted. An
/// attempt that fails to advance would end the stream; every attempt
/// on a well-formed machine advances.
pub open spec fn token_stream(code: Seq<u32>, rank: Map<int, nat>, text: Seq<char>, cp: int) -> Seq<
    (u16, int),
>
    decreases text.len() - cp + 1,
{
    if cp >= text.len() {
        seq![(1u16, cp)]
    } else {
        let r = attempt(code, rank, text, cp, eps_set(code, rank, 0), Option::None, false);
        if cp < r.1 <= text.len() {
            seq![r] + token_stream(code, rank, text, r.1)
        } else {
            seq![r]
        }
    }
}

/// Nor does the token stream depend on the witnessing rank.
pub proof fn lemma_token_stream_rank_indep(
    code: Seq<u32>,
    r1: Map<int, nat>,
    r2: Map<int, nat>,
    text: Seq<char>,
    cp: int,
)
    requires
        rank_ok(code, r1),
        rank_ok(code, r2),
        1 <= code.len(),
        forall|i: int| 0 <= i < code.len() && is_consuming(#[trigger] code[i]) ==> i + 1
            < code.len(),
    ensures
        token_stream(code, r1, text, cp) == token_stream(code, r2, text, cp),
    decreases text.len() - cp + 1,
{
    if cp < text.len() {
        lemma_eps_rank_indep(code, r1, r2, 0);
        lemma_eps_set_bounds(code, r1, 0);
        lemma_attempt_rank_indep(
            code,
            r1,
            r2,
            text,
            cp,
            eps_set(code, r1, 0),
            Option::None,
            false,
        );
        let r = attempt(code, r1, text, cp, eps_set(code, r1, 0), Option::None, false);
        if cp < r.1 <= text.len() {
            lemma_token_stream_rank_indep(code, r1, r2, text, r.1);
        }
    }
}

/// The structural conditions under which the machine runs without
/// faults: at least one instruction, every instruction in strict
/// shape, no consuming instruction last, and acyclic epsilon edges.
pub open spec fn vm_code_wf(code: Seq<u32>, pool: Seq<u32>) -> bool {
    &&& 1 <= code.len() <= 0x4000
    &&& forall|i: int| 0 <= i < code.len() ==> #[trigger] instr_targets_ok(code, pool, i)
    &&& forall|i: int| 0 <= i < code.len() && is_consuming(#[trigger] code[i]) ==> i + 1
        < code.len()
    &&& has_eps_rank(code)
}

/// True when the instruction consumes the given character: `CharImm`
/// on equality, `RangeImm` on inclusive containment.
pub open spec fn consume_ok(w: u32, ch: char) -> bool
    recommends
        decodable(w),
{
    match spec_decode(w) {
        Instruction::CharImm { ch: instr_ch } => instr_ch == ch,
        Instruction::RangeImm { from, to } => from as u32 <= ch as u32 && ch as u32 <= to as u32,
        _ => false,
    }
}

/// What one character step reports: the largest token index matched by
/// a surviving thread, if any.
struct MatchResult {
    max_matched_token_index: Option<u16>,
}

/// The larger of two optional match indices.
fn max_match(a: Option<u16>, b: Option<u16>) -> (r: Option<u16>)
    ensures
        r == opt_max(a, b),
{
    match (a, b) {
        (Some(x), Some(y)) => if x >= y {
            Some(x)
        } else {
            Some(y)
        },
        (Some(x), None) => Some(x),
        (None, _) => b,
    }
}

/// The virtual machine: an immutable program and the two thread
/// bit-sets that its lexing sessions advance in lockstep.
pub struct Vm {
    code: Vec<u32>,
    constant_pool: Vec<u32>,
    current_threads: ThreadSet,
    next_threads: ThreadSet,
}

impl Vm {
    /// The instruction words.
    pub closed spec fn code(&self) -> Seq<u32> {
        self.code@
    }

    /// The constant pool.
    pub closed spec fn pool(&self) -> Seq<u32> {
        self.constant_pool@
    }

    /// The threads examining the current character.
    pub closed spec fn current_set(&self) -> Set<usize> {
        bitset_contents(self.current_threads)
    }

    /// The threads scheduled for the next character.
    pub closed spec fn next_set(&self) -> Set<usize> {
        bitset_contents(self.next_threads)
    }

    /// A well-formed machine: a well-formed program, and both thread
    /// sets inside code-pointer space.
    pub open spec fn wf(&self) -> bool {
        &&& vm_code_wf(self.code(), self.pool())
        &&& forall|v: usize| #[trigger] self.current_set().contains(v) ==> v < self.code().len()
        &&& forall|v: usize| #[trigger] self.next_set().contains(v) ==> v < self.code().len()
    }

    /// Wraps a compiled program together with fresh thread sets.
    pub fn new(code: Vec<u32>, constant_pool: Vec<u32>) -> (vm: Vm)
        requires
            vm_code_wf(code@, constant_pool@),
        ensures
            vm.wf(),
            vm.code() == code@,
            vm.pool() == constant_pool@,
            vm.current_set() == Set::<usize>::empty(),
            vm.next_set() == Set::<usize>::empty(),
    {
        let code_len = code.len();
        let current_threads = bitset_with_capacity(code_len);
        Vm { code, constant_pool, current_threads, next_threads: bitset_with_capacity(code_len) }
    }

    /// Resolves the epsilon closure from `pc`: `Split` forks, `Jmp`
    /// passes through, `Match` reports its token index upward without
    /// scheduling, and every other instruction is inserted into the
    /// chosen thread set. Returns the largest `Match` index the
    /// closure reached.
    fn add_thread(&mut self, pc: CodePointer, to_next: bool, Ghost(rank): Ghost<Map<int, nat>>) -> (r:
        Option<u16>)
        requires
            old(self).wf(),
            rank_ok(old(self).code(), rank),
            (pc as int) < old(self).code().len(),
        ensures
            final(self).wf(),
            final(self).code() == old(self).code(),
            final(self).pool() == old(self).pool(),
            r == eps_match(old(self).code(), rank, pc as int),
            to_next ==> final(self).next_set() == old(self).next_set().union(
                eps_set(old(self).code(), rank, pc as int),
            ) && final(self).current_set() == old(self).current_set(),
            !to_next ==> final(self).current_set() == old(self).current_set().union(
                eps_set(old(self).code(), rank, pc as int),
            ) && final(self).next_set() == old(self).next_set(),
        decreases rank[pc as int],
    {
        proof {
            assert(rank_ok_at(old(self).code(), rank, pc as int));
            assert(instr_targets_ok(old(self).code(), old(self).pool(), pc as int));
            lemma_eps_set_bounds(old(self).code(), rank, pc as int);
        }
        let instruction = self.code[pc as usize];
        match decode(instruction) {
            Instruction::Split { then_instr_index, else_instr_index } => {
                let left = self.add_thread(then_instr_index, to_next, Ghost(rank));
                let right = self.add_thread(else_instr_index, to_next, Ghost(rank));
                proof {
                    if to_next {
                        assert(self.next_set() =~= old(self).next_set().union(
                            eps_set(old(self).code(), rank, pc as int),
                        ));
                    } else {
                        assert(self.current_set() =~= old(self).current_set().union(
                            eps_set(old(self).code(), rank, pc as int),
                        ));
                    }
                }
                match (left, right) {
                    (Some(left_val), Some(right_val)) => if left_val >= right_val {
                        Some(left_val)
                    } else {
                        Some(right_val)
                    },
                    (Some(left_val), None) => Some(left_val),
                    (None, _) => right,
                }
            },
            Instruction::Jmp { instr_index } => self.add_thread(instr_index, to_next, Ghost(rank)),
            Instruction::Match { token_type_index } => {
                proof {
                    if to_next {
                        assert(self.next_set() =~= old(self).next_set().union(
                            eps_set(old(self).code(), rank, pc as int),
                        ));
                    } else {
                        assert(self.current_set() =~= old(self).current_set().union(
                            eps_set(old(self).code(), rank, pc as int),
                        ));
                    }
                }
                Some(token_type_index)
            },
            _ => {
                if to_next {
                    bitset_insert(&mut self.next_threads, pc as usize);
                } else {
                    bitset_insert(&mut self.current_threads, pc as usize);
                }
                proof {
                    if to_next {
                        assert(self.next_set() =~= old(self).next_set().union(
                            eps_set(old(self).code(), rank, pc as int),
                        ));
                        assert forall|v: usize| #[trigger] self.next_set().contains(v) implies v
                            < self.code().len() by {
                            if v != pc as usize {
                                assert(old(self).next_set().contains(v));
                            }
                        }
                        assert(self.current_set() == old(self).current_set());
                        assert forall|v: usize| #[trigger] self.current_set().contains(v) implies v
                            < self.code().len() by {
                            assert(old(self).current_set().contains(v));
                        }
                    } else {
                        assert(self.current_set() =~= old(self).current_set().union(
                            eps_set(old(self).code(), rank, pc as int),
                        ));
                        assert forall|v: usize| #[trigger] self.current_set().contains(v) implies v
                            < self.code().len() by {
                            if v != pc as usize {
                                assert(old(self).current_set().contains(v));
                            }
                        }
                        assert(self.next_set() == old(self).next_set());
                        assert forall|v: usize| #[trigger] self.next_set().contains(v) implies v
                            < self.code().len() by {
                            assert(old(self).next_set().contains(v));
                        }
                    }
                }
                None
            },
        }
    }

    /// Advances every current thread over one input character: each
    /// thread at a consuming instruction that accepts `ch` schedules
    /// its successor's epsilon closure into the next set. Returns the
    /// largest `Match` index any surviving successor reached.
    fn match_char(&mut self, ch: char, Ghost(rank): Ghost<Map<int, nat>>) -> (res: MatchResult)
        requires
            old(self).wf(),
            rank_ok(old(self).code(), rank),
        ensures
            final(self).wf(),
            final(self).code() == old(self).code(),
            final(self).pool() == old(self).pool(),
            final(self).current_set() == old(self).current_set(),
            forall|pc: usize|
                #[trigger] old(self).current_set().contains(pc) && consume_ok(
                    old(self).code()[pc as int],
                    ch,
                ) ==> opt_le(
                    eps_match(old(self).code(), rank, pc as int + 1),
                    res.max_matched_token_index,
                ),
            res.max_matched_token_index is Some ==> exists|pc: usize|
                #[trigger] old(self).current_set().contains(pc) && consume_ok(
                    old(self).code()[pc as int],
                    ch,
                ) && eps_match(old(self).code(), rank, pc as int + 1)
                == res.max_matched_token_index,
            forall|v: usize|
                #[trigger] final(self).next_set().contains(v) <==> old(self).next_set().contains(v)
                    || exists|pc: usize|
                    #[trigger] old(self).current_set().contains(pc) && consume_ok(
                        old(self).code()[pc as int],
                        ch,
                    ) && eps_set(old(self).code(), rank, pc as int + 1).contains(v),
    {
        let elements = bitset_elements(&self.current_threads);
        let ghost elems = elements@;
        let mut result: Option<u16> = None;
        let mut i: usize = 0;
        while i < elements.len()
            invariant
                self.wf(),
                rank_ok(old(self).code(), rank),
                self.code() == old(self).code(),
                self.pool() == old(self).pool(),
                self.current_set() == old(self).current_set(),
                elems == elements@,
                i <= elems.len(),
                forall|k: int|
                    0 <= k < elems.len() ==> old(self).current_set().contains(
                        #[trigger] elems[k],
                    ),
                forall|v: usize|
                    #[trigger] old(self).current_set().contains(v) ==> elems.contains(v),
                forall|k: int|
                    0 <= k < i && consume_ok(old(self).code()[(#[trigger] elems[k]) as int], ch)
                        ==> opt_le(
                        eps_match(old(self).code(), rank, elems[k] as int + 1),
                        result,
                    ),
                result is Some ==> exists|k: int|
                    0 <= k < i && consume_ok(old(self).code()[(#[trigger] elems[k]) as int], ch)
                        && eps_match(old(self).code(), rank, elems[k] as int + 1) == result,
                forall|v: usize|
                    #[trigger] self.next_set().contains(v) <==> old(self).next_set().contains(v)
                        || exists|k: int|
                        0 <= k < i && consume_ok(
                            old(self).code()[(#[trigger] elems[k]) as int],
                            ch,
                        ) && eps_set(old(self).code(), rank, elems[k] as int + 1).contains(v),
            decreases elems.len() - i,
        {
            let code_pointer = elements[i];
            proof {
                assert(old(self).current_set().contains(elems[i as int]));
                assert(instr_targets_ok(self.code(), self.pool(), code_pointer as int));
            }
            let instruction = self.code[code_pointer];
            let ghost prev_next = self.next_set();
            let ghost prev_result = result;
            let mut advanced = false;
            match decode(instruction) {
                Instruction::CharImm { ch: instr_ch } => {
                    if instr_ch == ch {
                        let new_code_pointer = (code_pointer + 1) as CodePointer;
                        let matched = self.add_thread(new_code_pointer, true, Ghost(rank));
                        result = max_match(result, matched);
                        advanced = true;
                    }
                },
                Instruction::RangeImm { from, to } => {
                    if (ch as u32) >= (from as u32) && (ch as u32) <= (to as u32) {
                        let new_code_pointer = (code_pointer + 1) as CodePointer;
                        let matched = self.add_thread(new_code_pointer, true, Ghost(rank));
                        result = max_match(result, matched);
                        advanced = true;
                    }
                },
                _ => {},
            }
            proof {
                let pc = elems[i as int];
                if advanced {
                    assert(consume_ok(old(self).code()[pc as int], ch));
                    assert forall|k: int|
                        0 <= k < i + 1 && consume_ok(
                            old(self).code()[(#[trigger] elems[k]) as int],
                            ch,
                        ) implies opt_le(
                        eps_match(old(self).code(), rank, elems[k] as int + 1),
                        result,
                    ) by {
                        if k < i {
                            assert(opt_le(
                                eps_match(old(self).code(), rank, elems[k] as int + 1),
                                prev_result,
                            ));
                        }
                    }
                    assert forall|v: usize| #[trigger] self.next_set().contains(v) implies (old(
                        self,
                    ).next_set().contains(v) || exists|k: int|
                        0 <= k < i + 1 && consume_ok(
                            old(self).code()[(#[trigger] elems[k]) as int],
                            ch,
                        ) && eps_set(old(self).code(), rank, elems[k] as int + 1).contains(v)) by {
                        if prev_next.contains(v) {
                        } else {
                            assert(eps_set(old(self).code(), rank, pc as int + 1).contains(v));
                            assert(consume_ok(old(self).code()[elems[i as int] as int], ch)
                                && eps_set(
                                old(self).code(),
                                rank,
                                elems[i as int] as int + 1,
                            ).contains(v));
                        }
                    }
                    assert forall|v: usize|
                        (old(self).next_set().contains(v) || exists|k: int|
                            0 <= k < i + 1 && consume_ok(
                                old(self).code()[(#[trigger] elems[k]) as int],
                                ch,
                            ) && eps_set(old(self).code(), rank, elems[k] as int + 1).contains(
                                v,
                            )) implies #[trigger] self.next_set().contains(v) by {
                        if !old(self).next_set().contains(v) {
                            let k = choose|k: int|
                                0 <= k < i + 1 && consume_ok(
                                    old(self).code()[(#[trigger] elems[k]) as int],
                                    ch,
                                ) && eps_set(old(self).code(), rank, elems[k] as int + 1).contains(
                                    v,
                                );
                            if k < i {
                                assert(prev_next.contains(v));
                            }
                        }
                    }
                } else {
                    assert(!consume_ok(old(self).code()[pc as int], ch));
                    assert forall|k: int|
                        0 <= k < i + 1 && consume_ok(
                            old(self).code()[(#[trigger] elems[k]) as int],
                            ch,
                        ) implies opt_le(
                        eps_match(old(self).code(), rank, elems[k] as int + 1),
                        result,
                    ) by {
                        assert(k < i);
                    }
                    assert forall|v: usize|
                        #[trigger] self.next_set().contains(v) <==> (old(self).next_set().contains(
                            v,
                        ) || exists|k: int|
                            0 <= k < i + 1 && consume_ok(
                                old(self).code()[(#[trigger] elems[k]) as int],
                                ch,
                            ) && eps_set(old(self).code(), rank, elems[k] as int + 1).contains(
                                v,
                            )) by {
                        if !self.next_set().contains(v) && !old(self).next_set().contains(v) {
                            if exists|k: int|
                                0 <= k < i + 1 && consume_ok(
                                    old(self).code()[(#[trigger] elems[k]) as int],
                                    ch,
                                ) && eps_set(old(self).code(), rank, elems[k] as int + 1).contains(
                                    v,
                                ) {
                                let k = choose|k: int|
                                    0 <= k < i + 1 && consume_ok(
                                        old(self).code()[(#[trigger] elems[k]) as int],
                                        ch,
                                    ) && eps_set(
                                        old(self).code(),
                                        rank,
                                        elems[k] as int + 1,
                                    ).contains(v);
                                assert(k < i);
                                assert(self.next_set().contains(v));
                            }
                        }
                    }
                }
            }
            i += 1;
        }
        proof {
            assert forall|pc: usize|
                #[trigger] old(self).current_set().contains(pc) && consume_ok(
                    old(self).code()[pc as int],
                    ch,
                ) implies opt_le(eps_match(old(self).code(), rank, pc as int + 1), result) by {
                let k = choose|k: int| 0 <= k < elems.len() && elems[k] == pc;
                assert(consume_ok(old(self).code()[elems[k] as int], ch));
            }
            if result is Some {
                let k = choose|k: int|
                    0 <= k < elems.len() && consume_ok(
                        old(self).code()[(#[trigger] elems[k]) as int],
                        ch,
                    ) && eps_match(old(self).code(), rank, elems[k] as int + 1) == result;
                assert(old(self).current_set().contains(elems[k]) && consume_ok(
                    old(self).code()[elems[k] as int],
                    ch,
                ) && eps_match(old(self).code(), rank, elems[k] as int + 1) == result);
            }
            assert forall|v: usize|
                #[trigger] self.next_set().contains(v) <==> (old(self).next_set().contains(v)
                    || exists|pc: usize|
                    #[trigger] old(self).current_set().contains(pc) && consume_ok(
                        old(self).code()[pc as int],
                        ch,
                    ) && eps_set(old(self).code(), rank, pc as int + 1).contains(v)) by {
                if self.next_set().contains(v) && !old(self).next_set().contains(v) {
                    let k = choose|k: int|
                        0 <= k < elems.len() && consume_ok(
                            old(self).code()[(#[trigger] elems[k]) as int],
                            ch,
                        ) && eps_set(old(self).code(), rank, elems[k] as int + 1).contains(v);
                    assert(old(self).current_set().contains(elems[k]) && consume_ok(
                        old(self).code()[elems[k] as int],
                        ch,
                    ) && eps_set(old(self).code(), rank, elems[k] as int + 1).contains(v));
                }
                if !self.next_set().contains(v) {
                    if exists|pc: usize|
                        #[trigger] old(self).current_set().contains(pc) && consume_ok(
                            old(self).code()[pc as int],
                            ch,
                        ) && eps_set(old(self).code(), rank, pc as int + 1).contains(v) {
                        let pc = choose|pc: usize|
                            #[trigger] old(self).current_set().contains(pc) && consume_ok(
                                old(self).code()[pc as int],
                                ch,
                            ) && eps_set(old(self).code(), rank, pc as int + 1).contains(v);
                        let k = choose|k: int| 0 <= k < elems.len() && elems[k] == pc;
                        assert(consume_ok(old(self).code()[(elems[k]) as int], ch) && eps_set(
                            old(self).code(),
                            rank,
                            elems[k] as int + 1,
                        ).contains(v));
                        assert(self.next_set().contains(v));
                    }
                }
            }
        }
        MatchResult { max_matched_token_index: result }
    }

}

/// How many bytes the UTF-8 encoding of a character occupies.
pub open spec fn char_utf8_len(c: char) -> nat {
    if (c as u32) < 0x80 {
        1
    } else if (c as u32) < 0x800 {
        2
    } else if (c as u32) < 0x10000 {
        3
    } else {
        4
    }
}

/// The UTF-8 byte length of the first `k` characters.
pub open spec fn byte_len_prefix(s: Seq<char>, k: int) -> nat
    decreases k,
{
    if k <= 0 {
        0
    } else {
        byte_len_prefix(s, k - 1) + char_utf8_len(s[k - 1])
    }
}

/// The UTF-8 byte length of a whole character sequence.
pub open spec fn byte_len(s: Seq<char>) -> nat {
    byte_len_prefix(s, s.len() as int)
}

/// Longer prefixes have strictly more bytes: each character adds at
/// least one.
pub proof fn lemma_byte_len_prefix_mono(s: Seq<char>, a: int, b: int)
    requires
        0 <= a <= b <= s.len(),
    ensures
        byte_len_prefix(s, a) + (b - a) <= byte_len_prefix(s, b),
    decreases b,
{
    if a < b {
        lemma_byte_len_prefix_mono(s, a, b - 1);
    }
}

/// The UTF-8 byte length of one character.
fn utf8_len(ch: char) -> (n: usize)
    ensures
        n == char_utf8_len(ch),
{
    let v = ch as u32;
    if v < 0x80 {
        1
    } else if v < 0x800 {
        2
    } else if v < 0x10000 {
        3
    } else {
        4
    }
}

/// The sum of the byte lengths of a token sequence.
pub open spec fn sum_lengths(s: Seq<TokenRaw>) -> int
    decreases s.len(),
{
    if s.len() == 0 {
        0
    } else {
        sum_lengths(s.drop_last()) + s.last().spec_length()
    }
}

/// One emitted token: its byte length and its token type index. Index
/// 0 is the error token and index 1 the end-of-input token.
#[derive(Debug, PartialEq, Eq, Structural)]
pub struct TokenRaw {
    length: u32,
    token_type_index: u16,
}

impl TokenRaw {
    /// The token's byte length.
    pub closed spec fn spec_length(&self) -> u32 {
        self.length
    }

    /// The token's type index.
    pub closed spec fn spec_index(&self) -> u16 {
        self.token_type_index
    }

    /// Builds a token value.
    pub fn new(length: u32, token_type_index: u16) -> (t: Self)
        ensures
            t.spec_length() == length,
            t.spec_index() == token_type_index,
    {
        TokenRaw { length, token_type_index }
    }

    /// The token's byte length.
    pub fn length(&self) -> (n: u32)
        ensures
            n == self.spec_length(),
    {
        self.length
    }

    /// The token's type index.
    pub fn token_type_index(&self) -> (n: u16)
        ensures
            n == self.spec_index(),
    {
        self.token_type_index
    }
}

const END_TOKEN_INDEX: u16 = 1;

const ERROR_TOKEN_INDEX: u16 = 0;

/// What a match result known to be the maximum over a thread set's
/// matching successors must be: `step_match` over the whole code.
proof fn lemma_step_match_agrees(
    code: Seq<u32>,
    rank: Map<int, nat>,
    cur: Set<usize>,
    ch: char,
    m: Option<u16>,
)
    requires
        forall|v: usize| #[trigger] cur.contains(v) ==> (v as int) < code.len(),
        forall|pc: usize|
            #[trigger] cur.contains(pc) && consume_ok(code[pc as int], ch) ==> opt_le(
                eps_match(code, rank, pc as int + 1),
                m,
            ),
        m is Some ==> exists|pc: usize|
            #[trigger] cur.contains(pc) && consume_ok(code[pc as int], ch) && eps_match(
                code,
                rank,
                pc as int + 1,
            ) == m,
    ensures
        m == step_match(code, rank, cur, ch, code.len() as nat),
{
    lemma_step_match_bounds(code, rank, cur, ch, code.len() as nat);
    let sm = step_match(code, rank, cur, ch, code.len() as nat);
    if m is Some {
        let pc1 = choose|pc: usize|
            #[trigger] cur.contains(pc) && consume_ok(code[pc as int], ch) && eps_match(
                code,
                rank,
                pc as int + 1,
            ) == m;
        assert(opt_le(m, sm));
        if sm is Some {
            let pc2 = choose|pc: usize|
                (pc as nat) < code.len() && #[trigger] cur.contains(pc) && consume_ok(
                    code[pc as int],
                    ch,
                ) && eps_match(code, rank, pc as int + 1) == sm;
            assert(opt_le(sm, m));
        }
    } else {
        if sm is Some {
            let pc2 = choose|pc: usize|
                (pc as nat) < code.len() && #[trigger] cur.contains(pc) && consume_ok(
                    code[pc as int],
                    ch,
                ) && eps_match(code, rank, pc as int + 1) == sm;
            assert(opt_le(sm, m));
        }
    }
}

/// The best candidate match seen so far within one token attempt: the
/// largest token index matched, and the input position of the latest
/// match, where the token will be committed.
#[derive(Copy, Clone)]
struct BestToken {
    token_index: u16,
    end_position: usize,
    end_char_pos: usize,
}

/// The best candidate as the attempt model sees it.
spec fn best_view(b: Option<BestToken>) -> Option<(u16, int)> {
    match b {
        Option::None => Option::None,
        Option::Some(x) => Option::Some((x.token_index, x.end_char_pos as int)),
    }
}

/// A cursor tokenizing one input over a machine it owns: `token_start`
/// and `position` are byte offsets, `char_pos` counts characters.
pub struct LexingSession {
    vm: Vm,
    text: Vec<char>,
    token_start: u32,
    position: usize,
    char_pos: usize,
    is_end: bool,
}

impl LexingSession {
    /// The input, as characters.
    pub closed spec fn spec_text(&self) -> Seq<char> {
        self.text@
    }

    /// The byte offset of the next byte to consume.
    pub closed spec fn spec_position(&self) -> int {
        self.position as int
    }

    /// How many characters have been consumed.
    pub closed spec fn spec_char_pos(&self) -> int {
        self.char_pos as int
    }

    /// Whether the end-of-input token has been emitted.
    pub closed spec fn spec_is_end(&self) -> bool {
        self.is_end
    }

    /// The machine the session drives.
    pub closed spec fn machine(&self) -> Vm {
        self.vm
    }

    /// The session invariant: the machine is well-formed, the byte
    /// offset agrees with the character cursor, a token always starts
    /// at the cursor between calls, and the whole input's byte length
    /// fits the token length field.
    pub closed spec fn wf(&self) -> bool {
        &&& self.vm.wf()
        &&& self.char_pos <= self.text@.len()
        &&& self.position == byte_len_prefix(self.text@, self.char_pos as int)
        &&& self.token_start == self.position
        &&& byte_len(self.text@) <= u32::MAX
        &&& (self.is_end ==> self.char_pos == self.text@.len())
        &&& (!self.is_end ==> self.vm.current_set() == Set::<usize>::empty()
            && self.vm.next_set() == Set::<usize>::empty())
    }

    /// Starts a session at the beginning of the input. The machine's
    /// thread sets are a reuse pool, so they are cleared here.
    pub fn new(vm: Vm, text: Vec<char>) -> (session: Self)
        requires
            vm.wf(),
            byte_len(text@) <= u32::MAX,
        ensures
            session.wf(),
            session.spec_text() == text@,
            session.spec_position() == 0,
            session.spec_char_pos() == 0,
            !session.spec_is_end(),
            session.machine().code() == vm.code(),
            session.machine().pool() == vm.pool(),
    {
        let mut vm = vm;
        bitset_make_empty(&mut vm.current_threads);
        bitset_make_empty(&mut vm.next_threads);
        LexingSession { vm, token_start: 0, text, position: 0, char_pos: 0, is_end: false }
    }

    /// Hands the session's own machine back, its program unchanged, so
    /// another session can reuse its thread sets on the same program.
    pub fn into_vm(self) -> (vm: Vm)
        requires
            self.wf(),
        ensures
            vm == self.machine(),
            vm.wf(),
            vm.code() == self.machine().code(),
            vm.pool() == self.machine().pool(),
    {
        self.vm
    }

    /// The byte length of the token being built.
    fn token_len(&self) -> (n: u32)
        requires
            self.token_start <= self.position <= u32::MAX,
        ensures
            n == self.position - self.token_start,
    {
        return self.position as u32 - self.token_start;
    }
}

impl LexingSession {
    /// Produces the next token: the greedy-longest match with larger
    /// token indices breaking ties, committed at the best match's end;
    /// a single error token for a span no token accepts; the `(0, 1)`
    /// end-of-input token once the input is exhausted; and nothing
    /// after that. Mid-input, the emitted token's type index and end
    /// position are exactly what `attempt` yields from the seeded
    /// thread set, whatever rank witnesses the program's acyclicity.
    pub fn next(&mut self) -> (tok: Option<TokenRaw>)
        requires
            old(self).wf(),
        ensures
            final(self).wf(),
            final(self).spec_text() == old(self).spec_text(),
            final(self).machine().code() == old(self).machine().code(),
            final(self).machine().pool() == old(self).machine().pool(),
            (tok is None) <==> old(self).spec_is_end(),
            old(self).spec_is_end() ==> final(self).spec_is_end() && final(self).spec_position()
                == old(self).spec_position(),
            !old(self).spec_is_end() && old(self).spec_char_pos() == old(self).spec_text().len()
                ==> {
                &&& tok is Some
                &&& tok->0.spec_length() == 0
                &&& tok->0.spec_index() == 1
                &&& final(self).spec_is_end()
                &&& final(self).spec_position() == old(self).spec_position()
            },
            !old(self).spec_is_end() && old(self).spec_char_pos() < old(self).spec_text().len()
                ==> {
                &&& tok is Some
                &&& !final(self).spec_is_end()
                &&& tok->0.spec_length() >= 1
                &&& final(self).spec_position() == old(self).spec_position()
                    + tok->0.spec_length()
                &&& final(self).spec_position() <= byte_len(old(self).spec_text())
                &&& final(self).spec_position() == byte_len_prefix(
                    old(self).spec_text(),
                    final(self).spec_char_pos(),
                )
                &&& forall|r: Map<int, nat>|
                    rank_ok(old(self).machine().code(), r) ==> (
                    tok->0.spec_index(),
                    final(self).spec_char_pos(),
                ) == attempt(
                    old(self).machine().code(),
                    r,
                    old(self).spec_text(),
                    old(self).spec_char_pos(),
                    eps_set(old(self).machine().code(), r, 0),
                    Option::<(u16, int)>::None,
                    false,
                )
            },
    {
        if self.is_end {
            return None;
        }
        let ghost rank = choose|r: Map<int, nat>| rank_ok(self.vm.code(), r);
        let mut best: Option<BestToken> = None;
        let mut error_mode = false;
        let mut done = false;
        let ghost code0 = self.vm.code();
        let ghost pool0 = self.vm.pool();
        self.vm.add_thread(0, false, Ghost(rank));
        proof {
            assert(self.vm.current_set() =~= eps_set(code0, rank, 0));
        }
        if self.char_pos == self.text.len() {
            self.is_end = true;
            return Some(TokenRaw::new(0, END_TOKEN_INDEX));
        }
        let mut result: Option<TokenRaw> = None;
        let ghost text0 = self.text@;
        let ghost pos0 = self.position as int;
        let ghost cp0 = self.char_pos as int;
        proof {
            lemma_byte_len_prefix_mono(text0, cp0, text0.len() as int);
        }
        while !done && self.char_pos < self.text.len()
            invariant
                self.vm.wf(),
                rank_ok(self.vm.code(), rank),
                self.vm.code() == code0,
                self.vm.pool() == pool0,
                self.vm.next_set() == Set::<usize>::empty(),
                self.text@ == text0,
                !self.is_end,
                self.char_pos <= text0.len(),
                self.position == byte_len_prefix(text0, self.char_pos as int),
                byte_len(text0) <= u32::MAX,
                self.position <= byte_len(text0),
                0 <= cp0 < text0.len(),
                pos0 == byte_len_prefix(text0, cp0),
                self.token_start <= self.position,
                done == (result is Some),
                done ==> self.vm.current_set() == Set::<usize>::empty(),
                result is None ==> self.token_start == pos0 && cp0 <= self.char_pos,
                error_mode ==> result is None && best is None && pos0 + 1 <= self.position,
                best is Some ==> {
                    &&& pos0 + 1 <= best->0.end_position
                    &&& best->0.end_position as int == byte_len_prefix(
                        text0,
                        best->0.end_char_pos as int,
                    )
                    &&& cp0 < best->0.end_char_pos as int
                    &&& best->0.end_char_pos as int <= self.char_pos as int
                    &&& best->0.end_position as int <= self.position as int
                },
                result is Some ==> self.token_start == self.position && pos0 + 1 <= self.position
                    && result->0.spec_length() == self.position - pos0,
                result is None ==> attempt(
                    code0,
                    rank,
                    text0,
                    cp0,
                    eps_set(code0, rank, 0),
                    Option::<(u16, int)>::None,
                    false,
                ) == attempt(
                    code0,
                    rank,
                    text0,
                    self.char_pos as int,
                    self.vm.current_set(),
                    best_view(best),
                    error_mode,
                ),
                result is Some ==> attempt(
                    code0,
                    rank,
                    text0,
                    cp0,
                    eps_set(code0, rank, 0),
                    Option::<(u16, int)>::None,
                    false,
                ) == (result->0.spec_index(), self.char_pos as int),
            decreases (if done {
                0int
            } else {
                text0.len() - self.char_pos + 1
            }),
        {
            let ghost cur_pre = self.vm.current_set();
            let ghost cp_pre = self.char_pos as int;
            let ghost best_pre = best;
            let ghost em_pre = error_mode;
            let ch = self.text[self.char_pos];
            proof {
                lemma_byte_len_prefix_mono(text0, self.char_pos as int + 1, text0.len() as int);
            }
            self.char_pos = self.char_pos + 1;
            let l = utf8_len(ch);
            self.position = self.position + l;
            let match_res = self.vm.match_char(ch, Ghost(rank));
            proof {
                assert forall|v: usize| #[trigger] cur_pre.contains(v) implies (v as int)
                    < code0.len() by {}
                assert forall|pc: usize|
                    #[trigger] cur_pre.contains(pc) && consume_ok(code0[pc as int], ch) implies opt_le(
                    eps_match(code0, rank, pc as int + 1),
                    match_res.max_matched_token_index,
                ) by {}
                lemma_step_match_agrees(
                    code0,
                    rank,
                    cur_pre,
                    ch,
                    match_res.max_matched_token_index,
                );
                assert(self.vm.next_set() =~= step_set(code0, rank, cur_pre, ch));
            }
            if let Some(new_max_index) = match_res.max_matched_token_index {
                if error_mode {
                    self.position = self.position - l;
                    self.char_pos = self.char_pos - 1;
                    result = Some(TokenRaw::new(self.token_len(), ERROR_TOKEN_INDEX));
                    error_mode = false;
                } else {
                    let index = match best {
                        Some(max_length_token) => if max_length_token.token_index
                            <= new_max_index {
                            new_max_index
                        } else {
                            max_length_token.token_index
                        },
                        None => new_max_index,
                    };
                    best = Some(
                        BestToken {
                            token_index: index,
                            end_position: self.position,
                            end_char_pos: self.char_pos,
                        },
                    );
                }
            }
            proof {
                lemma_byte_len_prefix_mono(text0, cp0 + 1, self.char_pos as int);
            }
            if bitset_is_empty(&self.vm.next_threads) {
                if !error_mode {
                    if result.is_none() {
                        if let Some(best_val) = best {
                            self.position = best_val.end_position;
                            self.char_pos = best_val.end_char_pos;
                            result = Some(TokenRaw::new(self.token_len(), best_val.token_index));
                        } else {
                            error_mode = true;
                        }
                    }
                }
                self.vm.add_thread(0, true, Ghost(rank));
            }
            let ghost stepped_vm = self.vm;
            bitset_make_empty(&mut self.vm.current_threads);
            core::mem::swap(&mut self.vm.current_threads, &mut self.vm.next_threads);
            proof {
                assert(self.vm.current_set() == stepped_vm.next_set());
                assert(self.vm.next_set() == Set::<usize>::empty());
                assert forall|v: usize| #[trigger] self.vm.current_set().contains(v) implies v
                    < self.vm.code().len() by {
                    assert(stepped_vm.next_set().contains(v));
                }
                assert forall|v: usize| #[trigger] self.vm.next_set().contains(v) implies v
                    < self.vm.code().len() by {}
            }
            if result.is_some() {
                self.token_start = self.position as u32;
                let ghost swapped_vm = self.vm;
                bitset_make_empty(&mut self.vm.current_threads);
                proof {
                    assert(self.vm.current_set() == Set::<usize>::empty());
                    assert(self.vm.next_set() == swapped_vm.next_set());
                    assert forall|v: usize| #[trigger] self.vm.next_set().contains(v) implies v
                        < self.vm.code().len() by {
                        assert(swapped_vm.next_set().contains(v));
                    }
                }
                done = true;
            }
            proof {
                let chg = text0[cp_pre];
                let m_spec = step_match(code0, rank, cur_pre, chg, code0.len() as nat);
                let advanced = step_set(code0, rank, cur_pre, chg);
                let pre_attempt = attempt(
                    code0,
                    rank,
                    text0,
                    cp_pre,
                    cur_pre,
                    best_view(best_pre),
                    em_pre,
                );
                if m_spec is Some && em_pre {
                    assert(pre_attempt == (0u16, cp_pre));
                } else {
                    let best1 = if m_spec is Some {
                        match best_view(best_pre) {
                            Option::Some(b) => Option::Some(
                                (
                                    if b.0 <= m_spec->0 {
                                        m_spec->0
                                    } else {
                                        b.0
                                    },
                                    cp_pre + 1,
                                ),
                            ),
                            Option::None => Option::Some((m_spec->0, cp_pre + 1)),
                        }
                    } else {
                        best_view(best_pre)
                    };
                    assert(best_view(best) == best1);
                    if advanced == Set::<usize>::empty() {
                        if !em_pre && best1 is Some {
                            assert(pre_attempt == best1->0);
                        } else {
                            assert(pre_attempt == attempt(
                                code0,
                                rank,
                                text0,
                                cp_pre + 1,
                                advanced.union(eps_set(code0, rank, 0)),
                                best1,
                                true,
                            ));
                            assert(self.vm.current_set() =~= advanced.union(
                                eps_set(code0, rank, 0),
                            ));
                        }
                    } else {
                        assert(pre_attempt == attempt(
                            code0,
                            rank,
                            text0,
                            cp_pre + 1,
                            advanced,
                            best1,
                            em_pre,
                        ));
                        assert(self.vm.current_set() =~= advanced);
                    }
                }
            }
        }
        if result.is_none() {
            let ghost cp_exit = self.char_pos as int;
            let ghost cur_exit = self.vm.current_set();
            let ghost best_exit = best;
            let ghost em_exit = error_mode;
            proof {
                lemma_byte_len_prefix_mono(text0, cp0 + 1, self.char_pos as int);
            }
            if let Some(best_val) = best {
                self.position = best_val.end_position;
                self.char_pos = best_val.end_char_pos;
                result = Some(TokenRaw::new(self.token_len(), best_val.token_index));
            } else {
                result = Some(TokenRaw::new(self.token_len(), ERROR_TOKEN_INDEX));
            }
            self.token_start = self.position as u32;
            let ghost exhausted_vm = self.vm;
            bitset_make_empty(&mut self.vm.current_threads);
            proof {
                assert(self.vm.current_set() == Set::<usize>::empty());
                assert(self.vm.next_set() == exhausted_vm.next_set());
                assert forall|v: usize| #[trigger] self.vm.next_set().contains(v) implies v
                    < self.vm.code().len() by {
                    assert(exhausted_vm.next_set().contains(v));
                }
                assert(attempt(code0, rank, text0, cp_exit, cur_exit, best_view(best_exit), em_exit)
                    == (result->0.spec_index(), self.char_pos as int));
            }
        }
        proof {
            assert forall|r: Map<int, nat>| rank_ok(code0, r) implies (
                result->0.spec_index(),
                self.char_pos as int,
            ) == attempt(
                code0,
                r,
                text0,
                cp0,
                eps_set(code0, r, 0),
                Option::<(u16, int)>::None,
                false,
            ) by {
                lemma_eps_rank_indep(code0, r, rank, 0);
                lemma_eps_set_bounds(code0, r, 0);
                lemma_attempt_rank_indep(
                    code0,
                    r,
                    rank,
                    text0,
                    cp0,
                    eps_set(code0, r, 0),
                    Option::<(u16, int)>::None,
                    false,
                );
            }
        }
        result
    }
}

impl LexingSession {
    /// Runs the session to completion. The emitted sequence is exactly
    /// `token_stream`, the fold of one `attempt` per token, and covers
    /// the remaining input: the byte lengths of the tokens sum to the
    /// input's remaining byte length, every token but the last covers
    /// at least one byte, and the sequence ends with the single
    /// `(0, 1)` end-of-input token.
    pub fn tokenize(&mut self) -> (tokens: Vec<TokenRaw>)
        requires
            old(self).wf(),
        ensures
            final(self).wf(),
            final(self).spec_text() == old(self).spec_text(),
            final(self).machine().code() == old(self).machine().code(),
            final(self).machine().pool() == old(self).machine().pool(),
            final(self).spec_is_end(),
            old(self).spec_is_end() ==> tokens@.len() == 0,
            !old(self).spec_is_end() ==> {
                &&& tokens@.len() >= 1
                &&& tokens@.last().spec_length() == 0
                &&& tokens@.last().spec_index() == 1
                &&& forall|i: int|
                    0 <= i < tokens@.len() - 1 ==> (#[trigger] tokens@[i]).spec_length() >= 1
                &&& sum_lengths(tokens@) == byte_len(old(self).spec_text()) - old(
                    self,
                ).spec_position()
            },
            !old(self).spec_is_end() ==> forall|r: Map<int, nat>|
                rank_ok(old(self).machine().code(), r) ==> {
                let stream = token_stream(
                    old(self).machine().code(),
                    r,
                    old(self).spec_text(),
                    old(self).spec_char_pos(),
                );
                &&& tokens@.len() == stream.len()
                &&& forall|k: int|
                    0 <= k < stream.len() ==> (#[trigger] tokens@[k]).spec_index() == stream[k].0
                        && tokens@[k].spec_length() == byte_len_prefix(
                        old(self).spec_text(),
                        stream[k].1,
                    ) - byte_len_prefix(
                        old(self).spec_text(),
                        if k == 0 {
                            old(self).spec_char_pos()
                        } else {
                            stream[k - 1].1
                        },
                    )
            },
    {
        let ghost text0 = self.spec_text();
        let ghost pos0 = self.spec_position();
        let ghost cpstart = self.spec_char_pos();
        let ghost end0 = self.spec_is_end();
        let ghost code0 = self.machine().code();
        let ghost pool0 = self.machine().pool();
        let ghost rank = choose|r: Map<int, nat>| rank_ok(code0, r);
        let ghost mut pairs: Seq<(u16, int)> = Seq::empty();
        let mut tokens: Vec<TokenRaw> = Vec::new();
        let mut done = false;
        proof {
            lemma_byte_len_prefix_mono(text0, self.spec_char_pos(), text0.len() as int);
            assert(Seq::<(u16, int)>::empty() + token_stream(code0, rank, text0, cpstart)
                =~= token_stream(code0, rank, text0, cpstart));
        }
        while !done
            invariant
                self.wf(),
                self.spec_text() == text0,
                self.machine().code() == code0,
                self.machine().pool() == pool0,
                rank_ok(code0, rank),
                done ==> self.spec_is_end(),
                end0 ==> tokens@.len() == 0 && self.spec_is_end() && self.spec_position() == pos0,
                !end0 ==> sum_lengths(tokens@) == self.spec_position() - pos0,
                !end0 && !self.spec_is_end() ==> forall|i: int|
                    0 <= i < tokens@.len() ==> (#[trigger] tokens@[i]).spec_length() >= 1,
                !end0 && self.spec_is_end() ==> tokens@.len() >= 1 && tokens@.last().spec_length()
                    == 0 && tokens@.last().spec_index() == 1 && forall|i: int|
                    0 <= i < tokens@.len() - 1 ==> (#[trigger] tokens@[i]).spec_length() >= 1,
                self.spec_position() >= pos0,
                self.spec_position() <= byte_len(text0),
                self.spec_is_end() ==> self.spec_position() == byte_len(text0),
                pairs.len() == tokens@.len(),
                !end0 && !self.spec_is_end() ==> token_stream(code0, rank, text0, cpstart) == pairs
                    + token_stream(code0, rank, text0, self.spec_char_pos()),
                !end0 && self.spec_is_end() ==> token_stream(code0, rank, text0, cpstart) == pairs,
                !end0 && !self.spec_is_end() ==> (if pairs.len() == 0 {
                    self.spec_char_pos() == cpstart
                } else {
                    self.spec_char_pos() == pairs.last().1
                }),
                forall|k: int|
                    0 <= k < pairs.len() ==> (#[trigger] tokens@[k]).spec_index() == pairs[k].0
                        && tokens@[k].spec_length() == byte_len_prefix(text0, pairs[k].1)
                        - byte_len_prefix(
                        text0,
                        if k == 0 {
                            cpstart
                        } else {
                            pairs[k - 1].1
                        },
                    ),
            decreases (byte_len(text0) - self.spec_position()) * 2 + (if self.spec_is_end() {
                0int
            } else {
                2int
            }) + (if done {
                0int
            } else {
                1int
            }),
        {
            proof {
                if self.spec_char_pos() == text0.len() {
                    assert(self.spec_position() == byte_len(text0));
                } else {
                    lemma_byte_len_prefix_mono(text0, self.spec_char_pos(), text0.len() as int);
                }
            }
            let ghost prev_tokens = tokens@;
            let ghost prev_pairs = pairs;
            let ghost cp_b = self.spec_char_pos();
            let ghost end_b = self.spec_is_end();
            match self.next() {
                Some(t) => {
                    tokens.push(t);
                    proof {
                        assert(tokens@.drop_last() =~= prev_tokens);
                        assert(tokens@.last() == t);
                        assert forall|i: int| 0 <= i < tokens@.len() - 1 implies (
                        #[trigger] tokens@[i]).spec_length() >= 1 by {
                            assert(tokens@[i] == prev_tokens[i]);
                        }
                        if cp_b == text0.len() {
                            pairs = pairs.push((1u16, cp_b));
                            assert(token_stream(code0, rank, text0, cp_b) =~= seq![(1u16, cp_b)]);
                            assert(prev_pairs + token_stream(code0, rank, text0, cp_b)
                                =~= pairs);
                        } else {
                            let r = attempt(
                                code0,
                                rank,
                                text0,
                                cp_b,
                                eps_set(code0, rank, 0),
                                Option::<(u16, int)>::None,
                                false,
                            );
                            assert((t.spec_index(), self.spec_char_pos()) == r);
                            assert(cp_b < r.1 <= text0.len()) by {
                                if r.1 <= cp_b {
                                    lemma_byte_len_prefix_mono(text0, r.1, cp_b);
                                }
                            }
                            pairs = pairs.push(r);
                            assert(token_stream(code0, rank, text0, cp_b) == seq![r]
                                + token_stream(code0, rank, text0, r.1));
                            assert(prev_pairs + (seq![r] + token_stream(code0, rank, text0, r.1))
                                =~= pairs + token_stream(code0, rank, text0, r.1));
                        }
                        assert forall|k: int|
                            0 <= k < pairs.len() implies (#[trigger] tokens@[k]).spec_index()
                            == pairs[k].0 && tokens@[k].spec_length() == byte_len_prefix(
                            text0,
                            pairs[k].1,
                        ) - byte_len_prefix(
                            text0,
                            if k == 0 {
                                cpstart
                            } else {
                                pairs[k - 1].1
                            },
                        ) by {
                            if k < pairs.len() - 1 {
                                assert(tokens@[k] == prev_tokens[k]);
                                assert(pairs[k] == prev_pairs[k]);
                                if k > 0 {
                                    assert(pairs[k - 1] == prev_pairs[k - 1]);
                                }
                            } else {
                                if k > 0 {
                                    assert(pairs[k - 1] == prev_pairs[k - 1]);
                                }
                            }
                        }
                    }
                },
                None => {
                    done = true;
                },
            }
        }
        proof {
            if !end0 {
                assert forall|r: Map<int, nat>| rank_ok(code0, r) implies {
                    let stream = token_stream(code0, r, text0, cpstart);
                    &&& tokens@.len() == stream.len()
                    &&& forall|k: int|
                        0 <= k < stream.len() ==> (#[trigger] tokens@[k]).spec_index()
                            == stream[k].0 && tokens@[k].spec_length() == byte_len_prefix(
                            text0,
                            stream[k].1,
                        ) - byte_len_prefix(
                            text0,
                            if k == 0 {
                                cpstart
                            } else {
                                stream[k - 1].1
                            },
                        )
                } by {
                    lemma_token_stream_rank_indep(code0, r, rank, text0, cpstart);
                }
            }
        }
        tokens
    }
}

} // verus!
