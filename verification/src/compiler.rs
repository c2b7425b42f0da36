use vstd::prelude::*;

use crate::assembler::Assembler;
use crate::assembler::CodePointer;
use crate::assembler::ProgramData;
use crate::assembler::table_entry_wf;
use crate::ast::Expr;
use crate::ast::LexerDefinition;
use crate::ast::TokenDefinition;
use crate::disasm::Instruction;
use crate::disasm::decodable;
use crate::disasm::is_consuming;
use crate::disasm::lemma_codec_round_trip;
use crate::disasm::operands_fit;
use crate::disasm::spec_decode;
use crate::disasm::spec_encode;
use crate::disasm::strict_instr_ok;
use crate::opcodes::FIELD_LIMIT;
use crate::opcodes::POOL_LIMIT;
use crate::opcodes::lemma_mk_instr_fields;
use crate::opcodes::lemma_mk_payload2_fields;
use crate::opcodes::mk_instr;
use crate::vm::Vm;
use crate::vm::lemma_forward_has_rank;
use crate::vm::vm_code_wf;
use crate::opcodes::mk_payload2;

verus! {

/// True of an expression all of whose range endpoints fit the 14-bit
/// fields their encoding gives them.
pub open spec fn expr_ok(e: Expr) -> bool
    decreases e, 0int,
{
    match e {
        Expr::Single { ch } => true,
        Expr::Range { from, to } => (from as u32) < FIELD_LIMIT && (to as u32) < FIELD_LIMIT,
        Expr::Or { variants } => exprs_ok(variants@),
        Expr::Concat { exprs } => exprs_ok(exprs@),
    }
}

/// `expr_ok` over every element of a list.
pub open spec fn exprs_ok(s: Seq<Expr>) -> bool
    decreases s, 1int,
{
    forall|j: int| 0 <= j < s.len() ==> expr_ok(#[trigger] s[j])
}

/// How many instruction words the code generator emits for one
/// expression.
pub open spec fn gen_size(e: Expr) -> nat
    decreases e, 0int,
{
    match e {
        Expr::Single { ch } => 1,
        Expr::Range { from, to } => 1,
        Expr::Or { variants } => or_size(variants@),
        Expr::Concat { exprs } => list_size(exprs@),
    }
}

/// Code size of an alternation: one variant is inlined, two get one
/// `Split`, any other arity gets one `SplitMany`.
pub open spec fn or_size(s: Seq<Expr>) -> nat
    decreases s, 2int,
{
    if s.len() == 1 {
        gen_size(s[0])
    } else if s.len() == 2 {
        1 + gen_size(s[0]) + gen_size(s[1])
    } else {
        1 + list_size(s)
    }
}

/// Code size of a concatenation: the sum over its elements.
pub open spec fn list_size(s: Seq<Expr>) -> nat
    decreases s, 1int,
{
    if s.len() == 0 {
        0
    } else {
        gen_size(s[0]) + list_size(s.drop_first())
    }
}

/// How many constant-pool slots the code generator fills for one
/// expression: one per jump-table entry of each wide alternation.
pub open spec fn pool_cost(e: Expr) -> nat
    decreases e, 0int,
{
    match e {
        Expr::Single { ch } => 0,
        Expr::Range { from, to } => 0,
        Expr::Or { variants } => or_pool(variants@),
        Expr::Concat { exprs } => list_pool(exprs@),
    }
}

/// Pool cost of an alternation.
pub open spec fn or_pool(s: Seq<Expr>) -> nat
    decreases s, 2int,
{
    if s.len() == 1 {
        pool_cost(s[0])
    } else if s.len() == 2 {
        pool_cost(s[0]) + pool_cost(s[1])
    } else {
        s.len() + list_pool(s)
    }
}

/// Pool cost of a concatenation.
pub open spec fn list_pool(s: Seq<Expr>) -> nat
    decreases s, 1int,
{
    if s.len() == 0 {
        0
    } else {
        pool_cost(s[0]) + list_pool(s.drop_first())
    }
}

/// Splitting a suffix sum at its head element.
proof fn lemma_list_split(s: Seq<Expr>, j: int)
    requires
        0 <= j < s.len(),
    ensures
        list_size(s.subrange(j, s.len() as int)) == gen_size(s[j]) + list_size(
            s.subrange(j + 1, s.len() as int),
        ),
        list_pool(s.subrange(j, s.len() as int)) == pool_cost(s[j]) + list_pool(
            s.subrange(j + 1, s.len() as int),
        ),
        exprs_ok(s) ==> expr_ok(s[j]),
{
    let suffix = s.subrange(j, s.len() as int);
    assert(suffix[0] == s[j]);
    assert(suffix.drop_first() =~= s.subrange(j + 1, s.len() as int));
}

/// One instruction inside a region under construction: decodable,
/// `Split` and `Jmp` targets strictly forward and no further than the
/// region's end, and `CharCp` pool indices inside the pool.
pub open spec fn region_instr_ok(code: Seq<u32>, pool: Seq<u32>, i: int, hi: int) -> bool
    recommends
        0 <= i < code.len(),
{
    &&& decodable(code[i])
    &&& match spec_decode(code[i]) {
        Instruction::Split { then_instr_index, else_instr_index } => i < then_instr_index as int
            && then_instr_index as int <= hi && i < else_instr_index as int && else_instr_index
            as int <= hi,
        Instruction::Jmp { instr_index } => i < instr_index as int && instr_index as int <= hi,
        Instruction::CharCp { ch_index } => (ch_index as int) < pool.len(),
        _ => true,
    }
}

/// Every instruction of `[lo, hi)` is in region shape, with targets
/// bounded by `hi`.
pub open spec fn region_ok(code: Seq<u32>, pool: Seq<u32>, lo: int, hi: int) -> bool {
    forall|i: int| lo <= i < hi ==> #[trigger] region_instr_ok(code, pool, i, hi)
}

/// A region stays in shape when its words are untouched, the pool only
/// grows, and its bound is relaxed.
proof fn lemma_region_grow(
    code1: Seq<u32>,
    pool1: Seq<u32>,
    code2: Seq<u32>,
    pool2: Seq<u32>,
    lo: int,
    hi: int,
    hi2: int,
)
    requires
        region_ok(code1, pool1, lo, hi),
        forall|i: int| lo <= i < hi ==> code2[i] == #[trigger] code1[i],
        pool2.len() >= pool1.len(),
        hi <= hi2,
    ensures
        region_ok(code2, pool2, lo, hi2) || exists|i: int| hi <= i < hi2 && !region_instr_ok(
            code2,
            pool2,
            i,
            hi2,
        ),
        forall|i: int| lo <= i < hi ==> #[trigger] region_instr_ok(code2, pool2, i, hi2),
{
    assert forall|i: int| lo <= i < hi implies #[trigger] region_instr_ok(
        code2,
        pool2,
        i,
        hi2,
    ) by {
        assert(region_instr_ok(code1, pool1, i, hi));
    }
}

/// Two adjacent regions form one region.
proof fn lemma_region_concat(code: Seq<u32>, pool: Seq<u32>, lo: int, mid: int, hi: int)
    requires
        lo <= mid <= hi,
        region_ok(code, pool, lo, mid),
        region_ok(code, pool, mid, hi),
    ensures
        region_ok(code, pool, lo, hi),
{
    assert forall|i: int| lo <= i < hi implies #[trigger] region_instr_ok(code, pool, i, hi) by {
        if i < mid {
            assert(region_instr_ok(code, pool, i, mid));
        } else {
            assert(region_instr_ok(code, pool, i, hi));
        }
    }
}

/// Strict instructions stay strict when their words are untouched and
/// both buffers only grow.
proof fn lemma_strict_grow(
    code1: Seq<u32>,
    pool1: Seq<u32>,
    code2: Seq<u32>,
    pool2: Seq<u32>,
    lo: int,
    hi: int,
)
    requires
        forall|i: int| lo <= i < hi ==> #[trigger] strict_instr_ok(code1, pool1, i),
        forall|i: int| lo <= i < hi ==> code2[i] == #[trigger] code1[i],
        code2.len() >= code1.len(),
        pool2.len() >= pool1.len(),
    ensures
        forall|i: int| lo <= i < hi ==> #[trigger] strict_instr_ok(code2, pool2, i),
{
    assert forall|i: int| lo <= i < hi implies #[trigger] strict_instr_ok(code2, pool2, i) by {
        assert(strict_instr_ok(code1, pool1, i));
    }
}

/// Instructions of a region whose bound lies strictly inside the code
/// are in their final, strict shape.
proof fn lemma_region_strict(code: Seq<u32>, pool: Seq<u32>, lo: int, hi: int)
    requires
        region_ok(code, pool, lo, hi),
        hi < code.len(),
    ensures
        forall|i: int| lo <= i < hi ==> #[trigger] strict_instr_ok(code, pool, i),
{
    assert forall|i: int| lo <= i < hi implies #[trigger] strict_instr_ok(code, pool, i) by {
        assert(region_instr_ok(code, pool, i, hi));
    }
}

/// A jump table recorded while a region was generated: its instruction
/// lies in the region, its pool slots are new, and every entry points
/// no further than the region's end.
pub open spec fn new_table_ok(
    t: (int, int, int),
    lo: int,
    hi: int,
    pool0: int,
    pool: Seq<u32>,
) -> bool {
    &&& lo <= t.0 < hi
    &&& pool0 <= t.1
    &&& forall|j: int| 0 <= j < t.2 ==> (#[trigger] pool[t.1 + j]) as int <= hi
}

/// The exact instruction words the code generator emits for one
/// expression placed at code index `at`, with the constant pool
/// `pool_at` slots full. A single character or range is one immediate
/// instruction; a concatenation is its children's code in order with
/// no separators; an alternation is arity-dispatched in `or_code`.
pub open spec fn code_of(e: Expr, at: int, pool_at: int) -> Seq<u32>
    decreases e, 0int,
{
    match e {
        Expr::Single { ch } => seq![mk_instr(0, ch as u32)],
        Expr::Range { from, to } => seq![mk_instr(6, mk_payload2(from as u32, to as u32))],
        Expr::Or { variants } => or_code(variants@, at, pool_at),
        Expr::Concat { exprs } => list_code(exprs@, at, pool_at),
    }
}

/// The words of an alternation: one variant is inlined; two get a
/// `Split` whose fields are the two bodies' entry points; any other
/// arity gets a `SplitMany` whose payload is the pool index its jump
/// table will occupy, after the pool slots its variants consume.
pub open spec fn or_code(s: Seq<Expr>, at: int, pool_at: int) -> Seq<u32>
    decreases s, 2int,
{
    if s.len() == 1 {
        code_of(s[0], at, pool_at)
    } else if s.len() == 2 {
        seq![mk_instr(3, mk_payload2((at + 1) as u32, (at + 1 + gen_size(s[0])) as u32))]
            + code_of(s[0], at + 1, pool_at) + code_of(
            s[1],
            at + 1 + gen_size(s[0]),
            pool_at + pool_cost(s[0]),
        )
    } else {
        seq![mk_instr(9, (pool_at + list_pool(s)) as u32)] + list_code(s, at + 1, pool_at)
    }
}

/// The words of a concatenation: each child's code laid out in order.
pub open spec fn list_code(s: Seq<Expr>, at: int, pool_at: int) -> Seq<u32>
    decreases s, 1int,
{
    if s.len() == 0 {
        Seq::empty()
    } else {
        code_of(s[0], at, pool_at) + list_code(
            s.drop_first(),
            at + gen_size(s[0]),
            pool_at + pool_cost(s[0]),
        )
    }
}

/// The exact constant-pool slots the code generator fills for one
/// expression: the jump tables of its wide alternations, in emission
/// order.
pub open spec fn pool_of(e: Expr, at: int, pool_at: int) -> Seq<u32>
    decreases e, 0int,
{
    match e {
        Expr::Single { ch } => Seq::empty(),
        Expr::Range { from, to } => Seq::empty(),
        Expr::Or { variants } => or_pool_of(variants@, at, pool_at),
        Expr::Concat { exprs } => list_pool_of(exprs@, at, pool_at),
    }
}

/// Pool slots of an alternation: the variants' own tables, and for a
/// wide alternation its own jump table after them, listing each
/// variant's entry point in order.
pub open spec fn or_pool_of(s: Seq<Expr>, at: int, pool_at: int) -> Seq<u32>
    decreases s, 2int,
{
    if s.len() == 1 {
        pool_of(s[0], at, pool_at)
    } else if s.len() == 2 {
        pool_of(s[0], at + 1, pool_at) + pool_of(
            s[1],
            at + 1 + gen_size(s[0]),
            pool_at + pool_cost(s[0]),
        )
    } else {
        list_pool_of(s, at + 1, pool_at) + entry_points(s, at + 1)
    }
}

/// Pool slots of a concatenation.
pub open spec fn list_pool_of(s: Seq<Expr>, at: int, pool_at: int) -> Seq<u32>
    decreases s, 1int,
{
    if s.len() == 0 {
        Seq::empty()
    } else {
        pool_of(s[0], at, pool_at) + list_pool_of(
            s.drop_first(),
            at + gen_size(s[0]),
            pool_at + pool_cost(s[0]),
        )
    }
}

/// The code index where each element of a list starts when the list is
/// laid out from `at`: a jump table's contents.
pub open spec fn entry_points(s: Seq<Expr>, at: int) -> Seq<u32>
    decreases s,
{
    if s.len() == 0 {
        Seq::empty()
    } else {
        seq![at as u32] + entry_points(s.drop_first(), at + gen_size(s[0]))
    }
}

/// Splitting the exact layouts of a list suffix at its head element.
proof fn lemma_layout_split(s: Seq<Expr>, j: int, at: int, pool_at: int)
    requires
        0 <= j < s.len(),
    ensures
        list_code(s.subrange(j, s.len() as int), at, pool_at) == code_of(s[j], at, pool_at)
            + list_code(
            s.subrange(j + 1, s.len() as int),
            at + gen_size(s[j]),
            pool_at + pool_cost(s[j]),
        ),
        list_pool_of(s.subrange(j, s.len() as int), at, pool_at) == pool_of(s[j], at, pool_at)
            + list_pool_of(
            s.subrange(j + 1, s.len() as int),
            at + gen_size(s[j]),
            pool_at + pool_cost(s[j]),
        ),
        entry_points(s.subrange(j, s.len() as int), at) == seq![at as u32] + entry_points(
            s.subrange(j + 1, s.len() as int),
            at + gen_size(s[j]),
        ),
{
    let suffix = s.subrange(j, s.len() as int);
    assert(suffix[0] == s[j]);
    assert(suffix.drop_first() =~= s.subrange(j + 1, s.len() as int));
}

/// Sequence concatenation associates.
proof fn lemma_seq_assoc<A>(a: Seq<A>, b: Seq<A>, c: Seq<A>)
    ensures
        (a + b) + c == a + (b + c),
{
    assert((a + b) + c =~= a + (b + c));
}

/// What one code-generation step appends, exactly.
pub open spec fn generated_exact(
    pre: Assembler,
    post: Assembler,
    words: Seq<u32>,
    pool_words: Seq<u32>,
) -> bool {
    &&& post.code() == pre.code() + words
    &&& post.pool() == pre.pool() + pool_words
}

/// What one code-generation step guarantees: the assembler stays
/// well-formed; exactly `size` words and `pcost` pool slots are
/// appended; nothing before them changes; the new words form a region;
/// every jump table recorded meanwhile lies inside the new region with
/// entries bounded by its end; and every `SplitMany` among the new
/// words has its table recorded.
pub open spec fn generated_region(pre: Assembler, post: Assembler, size: nat, pcost: nat) -> bool {
    let lo = pre.code().len() as int;
    let hi = post.code().len() as int;
    let pool0 = pre.pool().len() as int;
    &&& post.wf()
    &&& hi == lo + size
    &&& post.code().subrange(0, lo) == pre.code()
    &&& post.pool().len() == pool0 + pcost
    &&& post.pool().subrange(0, pool0) == pre.pool()
    &&& post.interned() == pre.interned()
    &&& region_ok(post.code(), post.pool(), lo, hi)
    &&& pre.tables().is_prefix_of(post.tables())
    &&& forall|k: int|
        pre.tables().len() <= k < post.tables().len() ==> new_table_ok(
            #[trigger] post.tables()[k],
            lo,
            hi,
            pool0,
            post.pool(),
        )
    &&& forall|i: int|
        lo <= i < hi && #[trigger] spec_decode(post.code()[i]) is SplitMany ==> exists|k: int|
            pre.tables().len() <= k < post.tables().len() && (#[trigger] post.tables()[k]).0 == i
}

/// Generation steps compose.
proof fn lemma_generated_region_trans(
    pre: Assembler,
    mid: Assembler,
    post: Assembler,
    size1: nat,
    pcost1: nat,
    size2: nat,
    pcost2: nat,
)
    requires
        generated_region(pre, mid, size1, pcost1),
        generated_region(mid, post, size2, pcost2),
    ensures
        generated_region(pre, post, (size1 + size2) as nat, (pcost1 + pcost2) as nat),
{
    let lo = pre.code().len() as int;
    let m = mid.code().len() as int;
    let hi = post.code().len() as int;
    let pool0 = pre.pool().len() as int;
    assert forall|i: int| lo <= i < m implies post.code()[i] == #[trigger] mid.code()[i] by {
        assert(post.code().subrange(0, m)[i] == post.code()[i]);
    }
    assert(post.code().subrange(0, lo) =~= pre.code());
    assert(post.pool().subrange(0, pool0) =~= pre.pool());
    assert forall|i: int| 0 <= i < mid.pool().len() implies post.pool()[i] == #[trigger] mid.pool()[i] by {
        assert(post.pool().subrange(0, mid.pool().len() as int)[i] == post.pool()[i]);
    }
    lemma_region_grow(mid.code(), mid.pool(), post.code(), post.pool(), lo, m, m);
    lemma_region_concat(post.code(), post.pool(), lo, m, hi);
    assert forall|k: int|
        pre.tables().len() <= k < post.tables().len() implies new_table_ok(
        #[trigger] post.tables()[k],
        lo,
        hi,
        pool0,
        post.pool(),
    ) by {
        if k < mid.tables().len() {
            assert(mid.tables()[k] == post.tables()[k]);
            assert(new_table_ok(mid.tables()[k], lo, m, pool0, mid.pool()));
            let t = post.tables()[k];
            assert forall|j: int| 0 <= j < t.2 implies (#[trigger] post.pool()[t.1 + j]) as int
                <= hi by {
                assert(mid.pool()[t.1 + j] as int <= m);
            }
        } else {
            assert(new_table_ok(post.tables()[k], m, hi, mid.pool().len() as int, post.pool()));
        }
    }
    assert forall|i: int|
        lo <= i < hi && #[trigger] spec_decode(post.code()[i]) is SplitMany implies exists|k: int|
            pre.tables().len() <= k < post.tables().len() && (#[trigger] post.tables()[k]).0
            == i by {
        if i < m {
            assert(post.code()[i] == mid.code()[i]);
            let k = choose|k: int|
                pre.tables().len() <= k < mid.tables().len() && (#[trigger] mid.tables()[k]).0
                    == i;
            assert(mid.tables()[k] == post.tables()[k]);
            assert(post.tables()[k].0 == i);
        } else {
            let k = choose|k: int|
                mid.tables().len() <= k < post.tables().len() && (#[trigger] post.tables()[k]).0
                    == i;
            assert(post.tables()[k].0 == i);
        }
    }
}

/// A step that touches nothing is a generation step of size zero.
proof fn lemma_generated_region_refl(a: Assembler)
    requires
        a.wf(),
    ensures
        generated_region(a, a, 0, 0),
{
    assert(a.code().subrange(0, a.code().len() as int) =~= a.code());
    assert(a.pool().subrange(0, a.pool().len() as int) =~= a.pool());
    assert(a.tables().is_prefix_of(a.tables()));
}

/// Appending one instruction that is neither a branch nor a pool
/// reference is a generation step of one word.
proof fn lemma_emit_one(pre: Assembler, post: Assembler, instr: Instruction)
    requires
        post.wf(),
        operands_fit(instr),
        !(instr is Split),
        !(instr is Jmp),
        !(instr is CharCp),
        !(instr is SplitMany),
        post.code() == pre.code().push(spec_encode(instr)),
        post.pool() == pre.pool(),
        post.interned() == pre.interned(),
        post.tables() == pre.tables(),
    ensures
        generated_region(pre, post, 1, 0),
{
    lemma_codec_round_trip(instr);
    assert(post.code().subrange(0, pre.code().len() as int) =~= pre.code());
    assert(post.pool().subrange(0, pre.pool().len() as int) =~= pre.pool());
    assert(post.tables().is_prefix_of(pre.tables()));
    let lo = pre.code().len() as int;
    assert forall|i: int| lo <= i < lo + 1 implies #[trigger] region_instr_ok(
        post.code(),
        post.pool(),
        i,
        lo + 1,
    ) by {
        assert(post.code()[lo] == spec_encode(instr));
    }
}

/// True of a token list whose range endpoints fit their fields and
/// whose indices stay out of the reserved range: 0 is the error token
/// and 1 the end-of-input token, so user tokens start at 2.
pub open spec fn tokens_ok(s: Seq<TokenDefinition>) -> bool {
    forall|i: int| 0 <= i < s.len() ==> expr_ok((#[trigger] s[i]).expr) && s[i].index >= 2
}

/// Code size of a token list: each token's expression plus its `Match`.
pub open spec fn tok_list_size(s: Seq<TokenDefinition>) -> nat
    decreases s,
{
    if s.len() == 0 {
        0
    } else {
        gen_size(s[0].expr) + 1 + tok_list_size(s.drop_first())
    }
}

/// Pool cost of a token list.
pub open spec fn tok_list_pool(s: Seq<TokenDefinition>) -> nat
    decreases s,
{
    if s.len() == 0 {
        0
    } else {
        pool_cost(s[0].expr) + tok_list_pool(s.drop_first())
    }
}

/// Code size of a whole compiled lexer: a single token is inlined,
/// anything else is fronted by one `Split` or `SplitMany`.
pub open spec fn lexer_code_size(s: Seq<TokenDefinition>) -> nat {
    if s.len() == 1 {
        tok_list_size(s)
    } else {
        1 + tok_list_size(s)
    }
}

/// Pool cost of a whole compiled lexer: a `SplitMany` fan-out adds one
/// jump-table entry per token.
pub open spec fn lexer_pool_cost(s: Seq<TokenDefinition>) -> nat {
    if s.len() == 1 || s.len() == 2 {
        tok_list_pool(s)
    } else {
        s.len() + tok_list_pool(s)
    }
}

/// Splitting a token-list suffix sum at its head element.
proof fn lemma_tok_split(s: Seq<TokenDefinition>, j: int)
    requires
        0 <= j < s.len(),
    ensures
        tok_list_size(s.subrange(j, s.len() as int)) == gen_size(s[j].expr) + 1 + tok_list_size(
            s.subrange(j + 1, s.len() as int),
        ),
        tok_list_pool(s.subrange(j, s.len() as int)) == pool_cost(s[j].expr) + tok_list_pool(
            s.subrange(j + 1, s.len() as int),
        ),
        tokens_ok(s) ==> expr_ok(s[j].expr) && s[j].index >= 2,
{
    let suffix = s.subrange(j, s.len() as int);
    assert(suffix[0] == s[j]);
    assert(suffix.drop_first() =~= s.subrange(j + 1, s.len() as int));
}

/// One token's branch: its expression's code followed by its `Match`.
pub open spec fn branch_code(t: TokenDefinition, at: int, pool_at: int) -> Seq<u32> {
    code_of(t.expr, at, pool_at) + seq![mk_instr(2, t.index as u32)]
}

/// The words of a token list: each token's branch laid out in order.
pub open spec fn toks_code(s: Seq<TokenDefinition>, at: int, pool_at: int) -> Seq<u32>
    decreases s,
{
    if s.len() == 0 {
        Seq::empty()
    } else {
        branch_code(s[0], at, pool_at) + toks_code(
            s.drop_first(),
            at + gen_size(s[0].expr) + 1,
            pool_at + pool_cost(s[0].expr),
        )
    }
}

/// The pool slots of a token list: each token's jump tables in order.
pub open spec fn toks_pool(s: Seq<TokenDefinition>, at: int, pool_at: int) -> Seq<u32>
    decreases s,
{
    if s.len() == 0 {
        Seq::empty()
    } else {
        pool_of(s[0].expr, at, pool_at) + toks_pool(
            s.drop_first(),
            at + gen_size(s[0].expr) + 1,
            pool_at + pool_cost(s[0].expr),
        )
    }
}

/// The code index where each token's branch starts when the list is
/// laid out from `at`: the fan-out's jump table, in definition order.
pub open spec fn tok_entry_points(s: Seq<TokenDefinition>, at: int) -> Seq<u32>
    decreases s,
{
    if s.len() == 0 {
        Seq::empty()
    } else {
        seq![at as u32] + tok_entry_points(s.drop_first(), at + gen_size(s[0].expr) + 1)
    }
}

/// The exact code of a whole compiled lexer: a single token is its
/// bare branch; two tokens are fronted by a `Split` pointing at the
/// two branches; any other arity gets one `SplitMany` at index 0 whose
/// payload is the jump table's pool index, then the branches in
/// definition order.
pub open spec fn lexer_code(s: Seq<TokenDefinition>) -> Seq<u32> {
    if s.len() == 1 {
        toks_code(s, 0, 0)
    } else if s.len() == 2 {
        seq![mk_instr(3, mk_payload2(1, (2 + gen_size(s[0].expr)) as u32))] + toks_code(s, 1, 0)
    } else {
        seq![mk_instr(9, tok_list_pool(s) as u32)] + toks_code(s, 1, 0)
    }
}

/// The exact constant pool of a whole compiled lexer: the tokens' own
/// jump tables, and for the fan-out form the top-level jump table of
/// branch entry points after them.
pub open spec fn lexer_pool(s: Seq<TokenDefinition>) -> Seq<u32> {
    if s.len() == 1 {
        toks_pool(s, 0, 0)
    } else if s.len() == 2 {
        toks_pool(s, 1, 0)
    } else {
        toks_pool(s, 1, 0) + tok_entry_points(s, 1)
    }
}

/// Splitting the exact layouts of a token-list suffix at its head.
proof fn lemma_tok_layout_split(s: Seq<TokenDefinition>, j: int, at: int, pool_at: int)
    requires
        0 <= j < s.len(),
    ensures
        toks_code(s.subrange(j, s.len() as int), at, pool_at) == branch_code(s[j], at, pool_at)
            + toks_code(
            s.subrange(j + 1, s.len() as int),
            at + gen_size(s[j].expr) + 1,
            pool_at + pool_cost(s[j].expr),
        ),
        toks_pool(s.subrange(j, s.len() as int), at, pool_at) == pool_of(s[j].expr, at, pool_at)
            + toks_pool(
            s.subrange(j + 1, s.len() as int),
            at + gen_size(s[j].expr) + 1,
            pool_at + pool_cost(s[j].expr),
        ),
        tok_entry_points(s.subrange(j, s.len() as int), at) == seq![at as u32] + tok_entry_points(
            s.subrange(j + 1, s.len() as int),
            at + gen_size(s[j].expr) + 1,
        ),
{
    let suffix = s.subrange(j, s.len() as int);
    assert(suffix[0] == s[j]);
    assert(suffix.drop_first() =~= s.subrange(j + 1, s.len() as int));
}

/// The structural invariants of a finished program: every instruction
/// decodable; every `Split` and `Jmp` target a strictly forward code
/// index inside the program; every `CharCp` pool index inside the pool;
/// no character-consuming instruction last; every recorded jump table
/// inside the pool with entries that are valid code indices; and every
/// `SplitMany` instruction's table recorded.
pub open spec fn compiled_wf(code: Seq<u32>, pool: Seq<u32>, tables: Seq<(int, int, int)>) -> bool {
    &&& 1 <= code.len() <= FIELD_LIMIT
    &&& forall|i: int| 0 <= i < code.len() ==> #[trigger] strict_instr_ok(code, pool, i)
    &&& forall|i: int| 0 <= i < code.len() && is_consuming(#[trigger] code[i]) ==> i + 1
        < code.len()
    &&& forall|k: int| 0 <= k < tables.len() ==> table_entry_wf(code, pool, #[trigger] tables[k])
    &&& forall|k: int, j: int|
        0 <= k < tables.len() && 0 <= j < tables[k].2 ==> ((#[trigger] pool[tables[k].1 + j]) as int)
            < code.len()
    &&& forall|i: int|
        0 <= i < code.len() && #[trigger] spec_decode(code[i]) is SplitMany ==> exists|k: int|
            0 <= k < tables.len() && (#[trigger] tables[k]).0 == i
}

/// Lowers a lexer definition to a bytecode program through an
/// assembler it owns.
pub struct Compiler {
    assembler: Assembler,
}

impl Default for Compiler {
    fn default() -> (c: Self)
        ensures
            c.wf(),
            c.inner().code() == Seq::<u32>::empty(),
            c.inner().pool() == Seq::<u32>::empty(),
            c.inner().interned() == Map::<u32, u16>::empty(),
            c.inner().tables() == Seq::<(int, int, int)>::empty(),
    {
        Compiler::new()
    }
}

impl Compiler {
    /// The assembler state this compiler has built up.
    pub closed spec fn inner(&self) -> Assembler {
        self.assembler
    }

    /// The compiler is well-formed when its assembler is.
    pub open spec fn wf(&self) -> bool {
        self.inner().wf()
    }

    /// A fresh compiler over an empty assembler.
    pub fn new() -> (c: Self)
        ensures
            c.wf(),
            c.inner().code() == Seq::<u32>::empty(),
            c.inner().pool() == Seq::<u32>::empty(),
            c.inner().interned() == Map::<u32, u16>::empty(),
            c.inner().tables() == Seq::<(int, int, int)>::empty(),
    {
        Compiler { assembler: Assembler::new() }
    }

    /// Hands off the program built so far and resets the compiler.
    pub fn get_prog_data(&mut self) -> (prog: ProgramData)
        requires
            old(self).wf(),
        ensures
            final(self).wf(),
            prog.code@ == old(self).inner().code(),
            prog.constant_pool@ == old(self).inner().pool(),
            prog.tables@ == old(self).inner().tables(),
            final(self).inner().code() == Seq::<u32>::empty(),
            final(self).inner().pool() == Seq::<u32>::empty(),
            final(self).inner().interned() == Map::<u32, u16>::empty(),
            final(self).inner().tables() == Seq::<(int, int, int)>::empty(),
    {
        self.assembler.finish()
    }

    /// Emits the code for one expression: a region of exactly
    /// `gen_size` words appended to the buffer, with `pool_cost` new
    /// pool slots for its jump tables.
    pub fn generate(&mut self, expr: &Expr)
        requires
            old(self).wf(),
            expr_ok(*expr),
            old(self).inner().code().len() + gen_size(*expr) < FIELD_LIMIT,
            old(self).inner().pool().len() + pool_cost(*expr) < POOL_LIMIT,
        ensures
            generated_region(
                old(self).inner(),
                final(self).inner(),
                gen_size(*expr),
                pool_cost(*expr),
            ),
            generated_exact(
                old(self).inner(),
                final(self).inner(),
                code_of(
                    *expr,
                    old(self).inner().code().len() as int,
                    old(self).inner().pool().len() as int,
                ),
                pool_of(
                    *expr,
                    old(self).inner().code().len() as int,
                    old(self).inner().pool().len() as int,
                ),
            ),
        decreases *expr, 0int,
    {
        match expr {
            Expr::Single { ch } => {
                let ghost pre = self.assembler;
                self.assembler.emit_char_imm(*ch);
                proof {
                    lemma_emit_one(pre, self.assembler, Instruction::CharImm { ch: *ch });
                    assert(self.assembler.code() =~= pre.code() + seq![mk_instr(0, *ch as u32)]);
                    assert(self.assembler.pool() =~= pre.pool() + Seq::<u32>::empty());
                }
            },
            Expr::Range { from, to } => {
                let ghost pre = self.assembler;
                self.assembler.emit_range_imm(*from, *to);
                proof {
                    lemma_emit_one(
                        pre,
                        self.assembler,
                        Instruction::RangeImm { from: *from, to: *to },
                    );
                    assert(self.assembler.code() =~= pre.code() + seq![
                        mk_instr(6, mk_payload2(*from as u32, *to as u32)),
                    ]);
                    assert(self.assembler.pool() =~= pre.pool() + Seq::<u32>::empty());
                }
            },
            Expr::Or { variants } => {
                proof {
                    assert(decreases_to!(*expr => variants@));
                }
                self.generate_or(variants)
            },
            Expr::Concat { exprs } => {
                let ghost pre = self.assembler;
                let ghost s = exprs@;
                let ghost lo = pre.code().len() as int;
                let ghost po = pre.pool().len() as int;
                proof {
                    lemma_generated_region_refl(pre);
                    assert(s.subrange(0, s.len() as int) =~= s);
                }
                let n = exprs.len();
                let mut j: usize = 0;
                while j < n
                    invariant
                        self.wf(),
                        (*expr == Expr::Concat { exprs: *exprs }),
                        n == s.len(),
                        s == exprs@,
                        j <= n,
                        exprs_ok(s),
                        generated_region(
                            pre,
                            self.assembler,
                            (self.assembler.code().len() - pre.code().len()) as nat,
                            (self.assembler.pool().len() - pre.pool().len()) as nat,
                        ),
                        self.assembler.code().len() >= pre.code().len(),
                        self.assembler.pool().len() >= pre.pool().len(),
                        self.assembler.code().len() + list_size(s.subrange(j as int, n as int))
                            == pre.code().len() + list_size(s),
                        self.assembler.pool().len() + list_pool(s.subrange(j as int, n as int))
                            == pre.pool().len() + list_pool(s),
                        pre.code().len() + list_size(s) < FIELD_LIMIT,
                        pre.pool().len() + list_pool(s) < POOL_LIMIT,
                        lo == pre.code().len() && po == pre.pool().len(),
                        pre.code() + list_code(s, lo, po) == self.assembler.code() + list_code(
                            s.subrange(j as int, n as int),
                            self.assembler.code().len() as int,
                            self.assembler.pool().len() as int,
                        ),
                        pre.pool() + list_pool_of(s, lo, po) == self.assembler.pool()
                            + list_pool_of(
                            s.subrange(j as int, n as int),
                            self.assembler.code().len() as int,
                            self.assembler.pool().len() as int,
                        ),
                    decreases n - j,
                {
                    proof {
                        lemma_list_split(s, j as int);
                        assert(decreases_to!(*expr => expr->Concat_exprs));
                        assert(expr->Concat_exprs == *exprs);
                        assert(decreases_to!(*exprs => exprs@));
                        assert(decreases_to!(exprs@ => exprs@[j as int]));
                    }
                    let ghost mid = self.assembler;
                    self.generate(&exprs[j]);
                    proof {
                        lemma_generated_region_trans(
                            pre,
                            mid,
                            self.assembler,
                            (mid.code().len() - pre.code().len()) as nat,
                            (mid.pool().len() - pre.pool().len()) as nat,
                            gen_size(s[j as int]),
                            pool_cost(s[j as int]),
                        );
                        let mlen = mid.code().len() as int;
                        let mpo = mid.pool().len() as int;
                        lemma_layout_split(s, j as int, mlen, mpo);
                        lemma_seq_assoc(
                            mid.code(),
                            code_of(s[j as int], mlen, mpo),
                            list_code(
                                s.subrange(j as int + 1, n as int),
                                mlen + gen_size(s[j as int]),
                                mpo + pool_cost(s[j as int]),
                            ),
                        );
                        lemma_seq_assoc(
                            mid.pool(),
                            pool_of(s[j as int], mlen, mpo),
                            list_pool_of(
                                s.subrange(j as int + 1, n as int),
                                mlen + gen_size(s[j as int]),
                                mpo + pool_cost(s[j as int]),
                            ),
                        );
                    }
                    j += 1;
                }
                proof {
                    assert(list_size(s.subrange(n as int, n as int)) == 0);
                    assert(list_pool(s.subrange(n as int, n as int)) == 0);
                    assert(self.assembler.code() + list_code(
                        s.subrange(n as int, n as int),
                        self.assembler.code().len() as int,
                        self.assembler.pool().len() as int,
                    ) =~= self.assembler.code());
                    assert(self.assembler.pool() + list_pool_of(
                        s.subrange(n as int, n as int),
                        self.assembler.code().len() as int,
                        self.assembler.pool().len() as int,
                    ) =~= self.assembler.pool());
                }
            },
        }
    }

    /// Emits an alternation, dispatching on its arity: one variant is
    /// inlined, two variants share a `Split`, and any other arity gets
    /// a `SplitMany` with one jump-table entry per variant.
    fn generate_or(&mut self, variants: &Vec<Expr>)
        requires
            old(self).wf(),
            exprs_ok(variants@),
            old(self).inner().code().len() + or_size(variants@) < FIELD_LIMIT,
            old(self).inner().pool().len() + or_pool(variants@) < POOL_LIMIT,
        ensures
            generated_region(
                old(self).inner(),
                final(self).inner(),
                or_size(variants@),
                or_pool(variants@),
            ),
            generated_exact(
                old(self).inner(),
                final(self).inner(),
                or_code(
                    variants@,
                    old(self).inner().code().len() as int,
                    old(self).inner().pool().len() as int,
                ),
                or_pool_of(
                    variants@,
                    old(self).inner().code().len() as int,
                    old(self).inner().pool().len() as int,
                ),
            ),
        decreases variants@, 2int,
    {
        let ghost s = variants@;
        if variants.len() == 1 {
            proof {
                assert(decreases_to!(s => s[0]));
            }
            self.generate(&variants[0]);
        } else if variants.len() == 2 {
            self.generate_split(variants);
        } else {
            let ghost pre = self.assembler;
            let ghost lo = pre.code().len() as int;
            let ghost pool0_or = pre.pool().len() as int;
            let marker = self.assembler.emit_split_many();
            let ghost base = self.assembler;
            proof {
                lemma_generated_region_refl(base);
                assert(s.subrange(0, s.len() as int) =~= s);
                assert(base.code() =~= pre.code() + seq![mk_instr(9, 0)]);
            }
            let mut positions: Vec<CodePointer> = Vec::new();
            let n = variants.len();
            let mut j: usize = 0;
            while j < n
                invariant
                    self.wf(),
                    n == s.len(),
                    s == variants@,
                    n != 1 && n != 2,
                    j <= n,
                    exprs_ok(s),
                    marker.position() == pre.code().len(),
                    base.code() == pre.code().push(mk_instr(9, 0)),
                    base.pool() == pre.pool(),
                    base.interned() == pre.interned(),
                    base.tables() == pre.tables(),
                    pre.wf(),
                    positions@.len() == j,
                    forall|k: int|
                        0 <= k < j ==> (#[trigger] positions@[k]) as int
                            <= self.assembler.code().len(),
                    forall|k: int| 0 <= k < j ==> base.code().len() <= (#[trigger] positions@[k]) as int,
                    generated_region(
                        base,
                        self.assembler,
                        (self.assembler.code().len() - base.code().len()) as nat,
                        (self.assembler.pool().len() - base.pool().len()) as nat,
                    ),
                    self.assembler.code().len() >= base.code().len(),
                    self.assembler.pool().len() >= base.pool().len(),
                    self.assembler.code().len() + list_size(s.subrange(j as int, n as int))
                        == base.code().len() + list_size(s),
                    self.assembler.pool().len() + list_pool(s.subrange(j as int, n as int))
                        == base.pool().len() + list_pool(s),
                    base.code().len() + list_size(s) < FIELD_LIMIT,
                    base.pool().len() + list_pool(s) + n < POOL_LIMIT,
                    lo + 1 == base.code().len() && pool0_or == base.pool().len(),
                    base.code() + list_code(s, lo + 1, pool0_or) == self.assembler.code()
                        + list_code(
                        s.subrange(j as int, n as int),
                        self.assembler.code().len() as int,
                        self.assembler.pool().len() as int,
                    ),
                    base.pool() + list_pool_of(s, lo + 1, pool0_or) == self.assembler.pool()
                        + list_pool_of(
                        s.subrange(j as int, n as int),
                        self.assembler.code().len() as int,
                        self.assembler.pool().len() as int,
                    ),
                    positions@.map_values(|el: u16| el as u32) + entry_points(
                        s.subrange(j as int, n as int),
                        self.assembler.code().len() as int,
                    ) == entry_points(s, lo + 1),
                decreases n - j,
            {
                let p = self.assembler.next_code_position();
                let ghost prev_positions = positions@;
                positions.push(p);
                proof {
                    lemma_list_split(s, j as int);
                    assert(decreases_to!(s => s[j as int]));
                }
                let ghost mid = self.assembler;
                self.generate(&variants[j]);
                proof {
                    lemma_generated_region_trans(
                        base,
                        mid,
                        self.assembler,
                        (mid.code().len() - base.code().len()) as nat,
                        (mid.pool().len() - base.pool().len()) as nat,
                        gen_size(s[j as int]),
                        pool_cost(s[j as int]),
                    );
                    assert forall|k: int| 0 <= k < j + 1 implies (#[trigger] positions@[k]) as int
                        <= self.assembler.code().len() by {
                        if k < j {
                            assert(positions@[k] == positions@.subrange(0, j as int)[k]);
                        }
                    }
                    let mlen = mid.code().len() as int;
                    let mpo = mid.pool().len() as int;
                    lemma_layout_split(s, j as int, mlen, mpo);
                    lemma_seq_assoc(
                        mid.code(),
                        code_of(s[j as int], mlen, mpo),
                        list_code(
                            s.subrange(j as int + 1, n as int),
                            mlen + gen_size(s[j as int]),
                            mpo + pool_cost(s[j as int]),
                        ),
                    );
                    lemma_seq_assoc(
                        mid.pool(),
                        pool_of(s[j as int], mlen, mpo),
                        list_pool_of(
                            s.subrange(j as int + 1, n as int),
                            mlen + gen_size(s[j as int]),
                            mpo + pool_cost(s[j as int]),
                        ),
                    );
                    assert(positions@.map_values(|el: u16| el as u32)
                        =~= prev_positions.map_values(|el: u16| el as u32).push(p as u32));
                    lemma_seq_assoc(
                        prev_positions.map_values(|el: u16| el as u32),
                        seq![p as u32],
                        entry_points(
                            s.subrange(j as int + 1, n as int),
                            mlen + gen_size(s[j as int]),
                        ),
                    );
                    assert(prev_positions.map_values(|el: u16| el as u32).push(p as u32)
                        =~= prev_positions.map_values(|el: u16| el as u32) + seq![p as u32]);
                }
                j += 1;
            }
            let ghost before_patch = self.assembler;
            proof {
                assert(list_size(s.subrange(n as int, n as int)) == 0);
                assert(list_pool(s.subrange(n as int, n as int)) == 0);
                assert(before_patch.code()[marker.position()] == base.code()[marker.position()])
                    by {
                    assert(before_patch.code().subrange(0, base.code().len() as int)[marker.position()]
                        == before_patch.code()[marker.position()]);
                }
                assert(base.code()[marker.position()] == mk_instr(9, 0));
                assert forall|k: int| 0 <= k < before_patch.tables().len() implies (
                #[trigger] before_patch.tables()[k]).0 != marker.position() by {
                    if k < pre.tables().len() {
                        assert(pre.tables()[k] == before_patch.tables()[k]);
                        assert(table_entry_wf(pre.code(), pre.pool(), pre.tables()[k]));
                    } else {
                        assert(new_table_ok(
                            before_patch.tables()[k],
                            base.code().len() as int,
                            before_patch.code().len() as int,
                            base.pool().len() as int,
                            before_patch.pool(),
                        ));
                    }
                }
            }
            let ghost posv = positions@;
            self.assembler.patch_split_many(&marker, positions);
            proof {
                let lo = pre.code().len() as int;
                let hi = self.assembler.code().len() as int;
                let post = self.assembler;
                let pos = marker.position();
                let ti = before_patch.pool().len() as u32;
                lemma_mk_instr_fields(9, ti);
                // The patched word and the region around it.
                assert(post.code() == before_patch.code().update(pos, mk_instr(9, ti)));
                assert(hi == before_patch.code().len());
                assert(hi == lo + or_size(s));
                assert(post.pool().len() == pre.pool().len() + or_pool(s));
                // Prefixes below the new region are untouched.
                assert forall|i: int| 0 <= i < lo implies post.code()[i] == #[trigger] pre.code()[i] by {
                    assert(before_patch.code().subrange(0, base.code().len() as int)[i]
                        == before_patch.code()[i]);
                }
                assert(post.code().subrange(0, lo) =~= pre.code());
                assert forall|i: int| 0 <= i < pre.pool().len() implies post.pool()[i]
                    == #[trigger] pre.pool()[i] by {
                    assert(before_patch.pool().subrange(0, base.pool().len() as int)[i]
                        == before_patch.pool()[i]);
                }
                assert(post.pool().subrange(0, pre.pool().len() as int) =~= pre.pool());
                // Pool values present before the patch are unchanged by it.
                assert forall|i: int| 0 <= i < before_patch.pool().len() implies post.pool()[i]
                    == #[trigger] before_patch.pool()[i] by {}
                // The region: the SplitMany word, then the variants' code.
                lemma_region_grow(
                    before_patch.code(),
                    before_patch.pool(),
                    post.code(),
                    post.pool(),
                    base.code().len() as int,
                    hi,
                    hi,
                );
                assert forall|i: int| lo <= i < hi implies #[trigger] region_instr_ok(
                    post.code(),
                    post.pool(),
                    i,
                    hi,
                ) by {
                    if i == lo {
                        assert(post.code()[lo] == mk_instr(9, ti));
                    }
                }
                // Tables: the ones the variants recorded, plus the new one.
                assert(pre.tables().is_prefix_of(post.tables()));
                let newt = (pos, before_patch.pool().len() as int, posv.len() as int);
                assert forall|k: int|
                    pre.tables().len() <= k < post.tables().len() implies new_table_ok(
                    #[trigger] post.tables()[k],
                    lo,
                    hi,
                    pre.pool().len() as int,
                    post.pool(),
                ) by {
                    if k < before_patch.tables().len() {
                        assert(post.tables()[k] == before_patch.tables()[k]);
                        assert(new_table_ok(
                            before_patch.tables()[k],
                            base.code().len() as int,
                            before_patch.code().len() as int,
                            base.pool().len() as int,
                            before_patch.pool(),
                        ));
                        let t = post.tables()[k];
                        assert(table_entry_wf(
                            before_patch.code(),
                            before_patch.pool(),
                            before_patch.tables()[k],
                        ));
                        assert forall|j: int| 0 <= j < t.2 implies (#[trigger] post.pool()[t.1 + j])
                            as int <= hi by {
                            assert(post.pool()[t.1 + j] == before_patch.pool()[t.1 + j]);
                        }
                    } else {
                        assert(post.tables()[k] == newt);
                        assert forall|j: int| 0 <= j < newt.2 implies (#[trigger] post.pool()[newt.1
                            + j]) as int <= hi by {
                            assert(post.pool()[newt.1 + j] == posv.map_values(|el: u16| el as u32)[j]);
                            assert(posv.map_values(|el: u16| el as u32)[j] == posv[j] as u32);
                        }
                    }
                }
                // Every SplitMany in the region has its table recorded.
                assert forall|i: int|
                    lo <= i < hi && #[trigger] spec_decode(post.code()[i]) is SplitMany implies exists|k: int|
                        pre.tables().len() <= k < post.tables().len() && (
                        #[trigger] post.tables()[k]).0 == i by {
                    if i == lo {
                        let k = post.tables().len() - 1;
                        assert(post.tables()[k].0 == i);
                    } else {
                        assert(post.code()[i] == before_patch.code()[i]);
                        let k = choose|k: int|
                            base.tables().len() <= k < before_patch.tables().len() && (
                            #[trigger] before_patch.tables()[k]).0 == i;
                        assert(post.tables()[k].0 == i);
                    }
                }
                // The exact layout: the patched fan-out word, then the
                // variants' code; the pool gains their tables and then
                // this alternation's own jump table.
                let nn = s.len() as int;
                assert(before_patch.code() + list_code(
                    s.subrange(nn, nn),
                    before_patch.code().len() as int,
                    before_patch.pool().len() as int,
                ) =~= before_patch.code());
                assert(before_patch.pool() + list_pool_of(
                    s.subrange(nn, nn),
                    before_patch.code().len() as int,
                    before_patch.pool().len() as int,
                ) =~= before_patch.pool());
                assert(posv.map_values(|el: u16| el as u32) + entry_points(
                    s.subrange(nn, nn),
                    before_patch.code().len() as int,
                ) =~= posv.map_values(|el: u16| el as u32));
                assert(posv.map_values(|el: u16| el as u32) == entry_points(s, lo + 1));
                lemma_seq_assoc(pre.code(), seq![mk_instr(9, 0)], list_code(s, lo + 1, pool0_or));
                assert(post.code() =~= pre.code() + or_code(s, lo, pool0_or));
                lemma_seq_assoc(
                    pre.pool(),
                    list_pool_of(s, lo + 1, pool0_or),
                    entry_points(s, lo + 1),
                );
                assert(post.pool() =~= pre.pool() + or_pool_of(s, lo, pool0_or));
            }
        }
    }

    /// Emits a two-way alternation: a `Split` whose branch targets are
    /// back-patched to the two variants' entry points.
    fn generate_split(&mut self, variants: &Vec<Expr>)
        requires
            old(self).wf(),
            variants@.len() == 2,
            exprs_ok(variants@),
            old(self).inner().code().len() + or_size(variants@) < FIELD_LIMIT,
            old(self).inner().pool().len() + or_pool(variants@) < POOL_LIMIT,
        ensures
            generated_region(
                old(self).inner(),
                final(self).inner(),
                or_size(variants@),
                or_pool(variants@),
            ),
            generated_exact(
                old(self).inner(),
                final(self).inner(),
                or_code(
                    variants@,
                    old(self).inner().code().len() as int,
                    old(self).inner().pool().len() as int,
                ),
                or_pool_of(
                    variants@,
                    old(self).inner().code().len() as int,
                    old(self).inner().pool().len() as int,
                ),
            ),
        decreases variants@, 0int,
    {
        let ghost s = variants@;
        let ghost pre = self.assembler;
        let (left_patch, right_patch) = self.assembler.emit_split(0, 0);
        let left_target = self.assembler.next_code_position();
        let ghost mid0 = self.assembler;
        proof {
            assert(exprs_ok(s) ==> expr_ok(s[0]) && expr_ok(s[1]));
            assert(decreases_to!(s => s[0]));
            assert(decreases_to!(s => s[1]));
        }
        self.generate(&variants[0]);
        let right_target = self.assembler.next_code_position();
        let ghost mid1 = self.assembler;
        self.generate(&variants[1]);
        let ghost mid2 = self.assembler;
        proof {
            lemma_generated_region_trans(
                mid0,
                mid1,
                mid2,
                gen_size(s[0]),
                pool_cost(s[0]),
                gen_size(s[1]),
                pool_cost(s[1]),
            );
            assert(mid2.code()[left_patch.position()] == mid0.code()[left_patch.position()]) by {
                assert(mid2.code().subrange(0, mid0.code().len() as int)[left_patch.position()]
                    == mid2.code()[left_patch.position()]);
            }
            lemma_mk_payload2_fields(0, 0);
            lemma_mk_instr_fields(3, mk_payload2(0, 0));
        }
        self.assembler.patch_target(&left_patch, left_target);
        let ghost a1 = self.assembler;
        proof {
            lemma_mk_payload2_fields(left_target as u32, 0);
            lemma_mk_instr_fields(3, mk_payload2(left_target as u32, 0));
            assert(a1.code()[left_patch.position()] == mk_instr(
                3,
                mk_payload2(left_target as u32, 0),
            ));
        }
        self.assembler.patch_target(&right_patch, right_target);
        proof {
            let lo = pre.code().len() as int;
            let hi = self.assembler.code().len() as int;
            let post = self.assembler;
            let g0 = gen_size(s[0]) as int;
            let g1 = gen_size(s[1]) as int;
            let lt = left_target as u16;
            let rt = right_target as u16;
            lemma_mk_payload2_fields(lt as u32, rt as u32);
            lemma_mk_instr_fields(3, mk_payload2(lt as u32, rt as u32));
            let word = mk_instr(3, mk_payload2(lt as u32, rt as u32));
            assert(post.code() =~= mid2.code().update(lo, word));
            assert(hi == lo + or_size(s));
            assert(post.pool().len() == pre.pool().len() + or_pool(s));
            // Prefixes below the region are untouched.
            assert forall|i: int| 0 <= i < lo implies post.code()[i] == #[trigger] pre.code()[i] by {
                assert(mid2.code().subrange(0, mid0.code().len() as int)[i] == mid2.code()[i]);
            }
            assert(post.code().subrange(0, lo) =~= pre.code());
            assert forall|i: int| 0 <= i < pre.pool().len() implies post.pool()[i]
                == #[trigger] pre.pool()[i] by {
                assert(mid2.pool().subrange(0, mid0.pool().len() as int)[i] == mid2.pool()[i]);
            }
            assert(post.pool().subrange(0, pre.pool().len() as int) =~= pre.pool());
            // The region: the patched Split, then the two variants.
            lemma_region_grow(
                mid2.code(),
                mid2.pool(),
                post.code(),
                post.pool(),
                lo + 1,
                hi,
                hi,
            );
            assert forall|i: int| lo <= i < hi implies #[trigger] region_instr_ok(
                post.code(),
                post.pool(),
                i,
                hi,
            ) by {
                if i == lo {
                    assert(post.code()[lo] == word);
                    assert(spec_decode(word) == Instruction::Split {
                        then_instr_index: lt,
                        else_instr_index: rt,
                    });
                }
            }
            // Tables are exactly the ones the two variants recorded.
            assert(post.tables() == mid2.tables());
            assert(pre.tables().is_prefix_of(post.tables()));
            assert forall|k: int|
                pre.tables().len() <= k < post.tables().len() implies new_table_ok(
                #[trigger] post.tables()[k],
                lo,
                hi,
                pre.pool().len() as int,
                post.pool(),
            ) by {
                assert(new_table_ok(
                    mid2.tables()[k],
                    mid0.code().len() as int,
                    mid2.code().len() as int,
                    mid0.pool().len() as int,
                    mid2.pool(),
                ));
            }
            assert forall|i: int|
                lo <= i < hi && #[trigger] spec_decode(post.code()[i]) is SplitMany implies exists|k: int|
                    pre.tables().len() <= k < post.tables().len() && (#[trigger] post.tables()[k]).0
                    == i by {
                assert(i != lo);
                assert(post.code()[i] == mid2.code()[i]);
                let k = choose|k: int|
                    mid0.tables().len() <= k < mid2.tables().len() && (
                    #[trigger] mid2.tables()[k]).0 == i;
                assert(post.tables()[k].0 == i);
            }
            // The exact layout: the patched Split, then the two bodies.
            let po = pre.pool().len() as int;
            assert(mid0.code() =~= pre.code() + seq![mk_instr(3, mk_payload2(0, 0))]);
            lemma_seq_assoc(
                pre.code(),
                seq![mk_instr(3, mk_payload2(0, 0))],
                code_of(s[0], lo + 1, po),
            );
            lemma_seq_assoc(
                pre.code() + seq![mk_instr(3, mk_payload2(0, 0))] + code_of(s[0], lo + 1, po),
                Seq::<u32>::empty(),
                code_of(s[1], lo + 1 + g0, po + pool_cost(s[0])),
            );
            assert(post.code() =~= pre.code() + or_code(s, lo, po));
            lemma_seq_assoc(
                pre.pool(),
                pool_of(s[0], lo + 1, po),
                pool_of(s[1], lo + 1 + g0, po + pool_cost(s[0])),
            );
            assert(post.pool() =~= pre.pool() + or_pool_of(s, lo, po));
        }
    }

    /// Emits one token's expression followed by its `Match`: the
    /// resulting region is in final, strict shape and ends in `Match`.
    pub fn generate_token_expr(&mut self, definition: &TokenDefinition)
        requires
            old(self).wf(),
            expr_ok(definition.expr),
            old(self).inner().code().len() + gen_size(definition.expr) + 1 <= FIELD_LIMIT,
            old(self).inner().pool().len() + pool_cost(definition.expr) < POOL_LIMIT,
        ensures
            generated_region(
                old(self).inner(),
                final(self).inner(),
                gen_size(definition.expr) + 1,
                pool_cost(definition.expr),
            ),
            forall|i: int|
                old(self).inner().code().len() <= i < final(self).inner().code().len()
                    ==> #[trigger] strict_instr_ok(
                    final(self).inner().code(),
                    final(self).inner().pool(),
                    i,
                ),
            forall|i: int|
                old(self).inner().code().len() <= i < final(self).inner().code().len()
                    && is_consuming(#[trigger] final(self).inner().code()[i]) ==> i + 1
                    < final(self).inner().code().len(),
            spec_decode(final(self).inner().code()[final(self).inner().code().len() - 1])
                == (Instruction::Match { token_type_index: definition.index }),
            forall|k: int, j: int|
                old(self).inner().tables().len() <= k < final(self).inner().tables().len() && 0 <= j
                    < (#[trigger] final(self).inner().tables()[k]).2 ==> ((
                #[trigger] final(self).inner().pool()[final(self).inner().tables()[k].1 + j]) as int)
                    < final(self).inner().code().len(),
            generated_exact(
                old(self).inner(),
                final(self).inner(),
                branch_code(
                    *definition,
                    old(self).inner().code().len() as int,
                    old(self).inner().pool().len() as int,
                ),
                pool_of(
                    definition.expr,
                    old(self).inner().code().len() as int,
                    old(self).inner().pool().len() as int,
                ),
            ),
    {
        let ghost pre = self.assembler;
        self.generate(&definition.expr);
        let ghost mid = self.assembler;
        self.assembler.emit_match(definition.index);
        proof {
            let post = self.assembler;
            let instr = Instruction::Match { token_type_index: definition.index };
            lemma_emit_one(mid, post, instr);
            lemma_generated_region_trans(
                pre,
                mid,
                post,
                gen_size(definition.expr),
                pool_cost(definition.expr),
                1,
                0,
            );
            let lo = pre.code().len() as int;
            let m = mid.code().len() as int;
            let hi = post.code().len() as int;
            lemma_region_grow(mid.code(), mid.pool(), post.code(), post.pool(), lo, m, m);
            lemma_region_strict(post.code(), post.pool(), lo, m);
            lemma_codec_round_trip(instr);
            assert(post.code()[hi - 1] == spec_encode(instr));
            assert forall|i: int| lo <= i < hi implies #[trigger] strict_instr_ok(
                post.code(),
                post.pool(),
                i,
            ) by {}
            assert forall|i: int|
                lo <= i < hi && is_consuming(#[trigger] post.code()[i]) implies i + 1 < hi by {
                assert(region_instr_ok(post.code(), post.pool(), i, m) || i == hi - 1);
            }
            assert forall|k: int, j: int|
                pre.tables().len() <= k < post.tables().len() && 0 <= j < (
                #[trigger] post.tables()[k]).2 implies ((#[trigger] post.pool()[post.tables()[k].1
                + j]) as int) < hi by {
                assert(post.tables()[k] == mid.tables()[k]);
                assert(new_table_ok(
                    mid.tables()[k],
                    lo,
                    m,
                    pre.pool().len() as int,
                    mid.pool(),
                ));
                assert(post.pool()[post.tables()[k].1 + j] == mid.pool()[mid.tables()[k].1 + j]);
            }
            // The branch is exactly the expression's code plus its Match.
            lemma_seq_assoc(
                pre.code(),
                code_of(definition.expr, lo, pre.pool().len() as int),
                seq![mk_instr(2, definition.index as u32)],
            );
            assert(post.code() =~= pre.code() + branch_code(
                *definition,
                lo,
                pre.pool().len() as int,
            ));
        }
    }

    /// Lowers a whole lexer definition: one NFA branch per token, each
    /// ending in its `Match`. A single token is emitted bare; two are
    /// fronted by a `Split`; any other arity gets a single `SplitMany`
    /// at code index 0 whose jump table records each token's entry
    /// point. The result satisfies the structural program invariants.
    pub fn generate_lexer(&mut self, definition: &LexerDefinition)
        requires
            old(self).wf(),
            old(self).inner().code() == Seq::<u32>::empty(),
            old(self).inner().pool() == Seq::<u32>::empty(),
            old(self).inner().tables() == Seq::<(int, int, int)>::empty(),
            tokens_ok(definition.tokens@),
            lexer_code_size(definition.tokens@) <= FIELD_LIMIT,
            lexer_pool_cost(definition.tokens@) < POOL_LIMIT,
        ensures
            final(self).wf(),
            final(self).inner().code().len() == lexer_code_size(definition.tokens@),
            final(self).inner().pool().len() == lexer_pool_cost(definition.tokens@),
            final(self).inner().interned() == old(self).inner().interned(),
            final(self).inner().code() == lexer_code(definition.tokens@),
            final(self).inner().pool() == lexer_pool(definition.tokens@),
            compiled_wf(
                final(self).inner().code(),
                final(self).inner().pool(),
                final(self).inner().tables(),
            ),
    {
        let ghost s = definition.tokens@;
        let ghost pre = self.assembler;
        if definition.tokens.len() == 1 {
            proof {
                lemma_tok_split(s, 0);
                assert(s.subrange(0, 1) =~= s);
                assert(tok_list_size(s.subrange(1, 1)) == 0);
                assert(tok_list_pool(s.subrange(1, 1)) == 0);
            }
            self.generate_token_expr(&definition.tokens[0]);
            proof {
                let post = self.assembler;
                let hi = post.code().len() as int;
                assert forall|k: int| 0 <= k < post.tables().len() implies table_entry_wf(
                    post.code(),
                    post.pool(),
                    #[trigger] post.tables()[k],
                ) by {}
                assert forall|k: int, j: int|
                    0 <= k < post.tables().len() && 0 <= j < post.tables()[k].2 implies ((
                #[trigger] post.pool()[post.tables()[k].1 + j]) as int) < hi by {}
                // The program is exactly the lone token's branch.
                reveal_with_fuel(toks_code, 2);
                reveal_with_fuel(toks_pool, 2);
                assert(s.drop_first().len() == 0);
                assert(branch_code(s[0], 0, 0) + Seq::<u32>::empty() =~= branch_code(s[0], 0, 0));
                assert(pool_of(s[0].expr, 0, 0) + Seq::<u32>::empty() =~= pool_of(s[0].expr, 0, 0));
                assert(Seq::<u32>::empty() + branch_code(s[0], 0, 0) =~= branch_code(s[0], 0, 0));
                assert(Seq::<u32>::empty() + pool_of(s[0].expr, 0, 0) =~= pool_of(s[0].expr, 0, 0));
                assert(post.code() =~= lexer_code(s));
                assert(post.pool() =~= lexer_pool(s));
            }
        } else if definition.tokens.len() == 2 {
            self.generate_lexer_two(definition);
        } else {
            self.generate_lexer_many(definition);
        }
    }

    /// Lowers a two-token lexer: a `Split` at index 0 back-patched to
    /// the two token branches.
    fn generate_lexer_two(&mut self, definition: &LexerDefinition)
        requires
            old(self).wf(),
            old(self).inner().code() == Seq::<u32>::empty(),
            old(self).inner().pool() == Seq::<u32>::empty(),
            old(self).inner().tables() == Seq::<(int, int, int)>::empty(),
            tokens_ok(definition.tokens@),
            definition.tokens@.len() == 2,
            lexer_code_size(definition.tokens@) <= FIELD_LIMIT,
            lexer_pool_cost(definition.tokens@) < POOL_LIMIT,
        ensures
            final(self).wf(),
            final(self).inner().code().len() == lexer_code_size(definition.tokens@),
            final(self).inner().pool().len() == lexer_pool_cost(definition.tokens@),
            final(self).inner().interned() == old(self).inner().interned(),
            final(self).inner().code() == lexer_code(definition.tokens@),
            final(self).inner().pool() == lexer_pool(definition.tokens@),
            compiled_wf(
                final(self).inner().code(),
                final(self).inner().pool(),
                final(self).inner().tables(),
            ),
    {
        let ghost s = definition.tokens@;
        proof {
            lemma_tok_split(s, 0);
            lemma_tok_split(s, 1);
            assert(s.subrange(0, 2) =~= s);
            assert(tok_list_size(s.subrange(2, 2)) == 0);
            assert(tok_list_pool(s.subrange(2, 2)) == 0);
        }
        let (left_patch, right_patch) = self.assembler.emit_split(0, 0);
        let left_target = self.assembler.next_code_position();
        let ghost mid0 = self.assembler;
        self.generate_token_expr(&definition.tokens[0]);
        let right_target = self.assembler.next_code_position();
        let ghost mid1 = self.assembler;
        self.generate_token_expr(&definition.tokens[1]);
        let ghost mid2 = self.assembler;
        proof {
            lemma_generated_region_trans(
                mid0,
                mid1,
                mid2,
                gen_size(s[0].expr) + 1,
                pool_cost(s[0].expr),
                gen_size(s[1].expr) + 1,
                pool_cost(s[1].expr),
            );
            assert(mid2.code()[0] == mid0.code()[0]) by {
                assert(mid2.code().subrange(0, mid0.code().len() as int)[0] == mid2.code()[0]);
            }
            lemma_mk_payload2_fields(0, 0);
            lemma_mk_instr_fields(3, mk_payload2(0, 0));
        }
        self.assembler.patch_target(&left_patch, left_target);
        let ghost a1 = self.assembler;
        proof {
            lemma_mk_payload2_fields(left_target as u32, 0);
            lemma_mk_instr_fields(3, mk_payload2(left_target as u32, 0));
            assert(a1.code()[0] == mk_instr(3, mk_payload2(left_target as u32, 0)));
        }
        self.assembler.patch_target(&right_patch, right_target);
        proof {
            let post = self.assembler;
            let hi = post.code().len() as int;
            let g0 = gen_size(s[0].expr) as int;
            let m1 = mid1.code().len() as int;
            let rt = right_target as u32;
            lemma_mk_payload2_fields(1, rt);
            lemma_mk_instr_fields(3, mk_payload2(1, rt));
            let word = mk_instr(3, mk_payload2(1, rt));
            assert(post.code() =~= mid2.code().update(0, word));
            assert(spec_decode(word) == (Instruction::Split {
                then_instr_index: 1u16,
                else_instr_index: right_target,
            }));
            assert(hi == lexer_code_size(s));
            assert(post.pool().len() == lexer_pool_cost(s));
            // Every instruction is strict: the patched Split points at
            // the two branch heads, and the branches were emitted
            // strict.
            assert forall|i: int| 1 <= i < m1 implies post.code()[i] == #[trigger] mid1.code()[i] by {
                assert(mid2.code().subrange(0, m1)[i] == mid2.code()[i]);
            }
            assert forall|i: int| 0 <= i < mid1.pool().len() implies post.pool()[i]
                == #[trigger] mid1.pool()[i] by {
                assert(mid2.pool().subrange(0, mid1.pool().len() as int)[i] == mid2.pool()[i]);
            }
            lemma_strict_grow(mid1.code(), mid1.pool(), post.code(), post.pool(), 1, m1);
            lemma_strict_grow(mid2.code(), mid2.pool(), post.code(), post.pool(), m1, hi);
            assert forall|i: int| 0 <= i < hi implies #[trigger] strict_instr_ok(
                post.code(),
                post.pool(),
                i,
            ) by {
                if i == 0 {
                    assert(post.code()[0] == word);
                }
            }
            assert forall|i: int|
                0 <= i < hi && is_consuming(#[trigger] post.code()[i]) implies i + 1 < hi by {
                if i == 0 {
                    assert(post.code()[0] == word);
                } else if i < m1 {
                    assert(post.code()[i] == mid1.code()[i]);
                } else {
                    assert(post.code()[i] == mid2.code()[i]);
                }
            }
            assert forall|k: int| 0 <= k < post.tables().len() implies table_entry_wf(
                post.code(),
                post.pool(),
                #[trigger] post.tables()[k],
            ) by {}
            assert forall|k: int, j: int|
                0 <= k < post.tables().len() && 0 <= j < post.tables()[k].2 implies ((
            #[trigger] post.pool()[post.tables()[k].1 + j]) as int) < hi by {
                if k < mid1.tables().len() {
                    assert(post.tables()[k] == mid1.tables()[k]);
                    assert(table_entry_wf(mid1.code(), mid1.pool(), mid1.tables()[k]));
                    assert(post.pool()[post.tables()[k].1 + j] == mid1.pool()[mid1.tables()[k].1
                        + j]);
                } else {
                    assert(post.tables()[k] == mid2.tables()[k]);
                }
            }
            assert forall|i: int|
                0 <= i < hi && #[trigger] spec_decode(post.code()[i]) is SplitMany implies exists|k: int|
                    0 <= k < post.tables().len() && (#[trigger] post.tables()[k]).0 == i by {
                assert(i != 0);
                assert(post.code()[i] == mid2.code()[i]);
                if i < m1 {
                    assert(mid2.code()[i] == mid1.code()[i]);
                    let k = choose|k: int|
                        mid0.tables().len() <= k < mid1.tables().len() && (
                        #[trigger] mid1.tables()[k]).0 == i;
                    assert(post.tables()[k] == mid1.tables()[k]);
                    assert(post.tables()[k].0 == i);
                } else {
                    let k = choose|k: int|
                        mid1.tables().len() <= k < mid2.tables().len() && (
                        #[trigger] mid2.tables()[k]).0 == i;
                    assert(post.tables()[k].0 == i);
                }
            }
            // The exact layout: the patched Split, then the two token
            // branches in definition order.
            reveal_with_fuel(toks_code, 3);
            reveal_with_fuel(toks_pool, 3);
            assert(m1 == 2 + g0);
            assert(rt == (2 + gen_size(s[0].expr)) as u32);
            assert(mid0.code() =~= Seq::<u32>::empty() + seq![mk_instr(3, mk_payload2(0, 0))]);
            assert(mid1.code() == mid0.code() + branch_code(s[0], 1, 0));
            assert(mid2.code() == mid1.code() + branch_code(
                s[1],
                2 + g0,
                pool_cost(s[0].expr) as int,
            ));
            lemma_seq_assoc(
                Seq::<u32>::empty() + seq![mk_instr(3, mk_payload2(0, 0))],
                branch_code(s[0], 1, 0),
                branch_code(s[1], 2 + g0, pool_cost(s[0].expr) as int),
            );
            assert(s.drop_first().drop_first().len() == 0);
            assert(s.drop_first()[0] == s[1]);
            assert(branch_code(s[1], 2 + g0, pool_cost(s[0].expr) as int) + Seq::<u32>::empty()
                =~= branch_code(s[1], 2 + g0, pool_cost(s[0].expr) as int));
            assert(post.code() =~= lexer_code(s));
            assert(pool_of(s[1].expr, 2 + g0, pool_cost(s[0].expr) as int) + Seq::<u32>::empty()
                =~= pool_of(s[1].expr, 2 + g0, pool_cost(s[0].expr) as int));
            assert(post.pool() =~= lexer_pool(s));
        }
    }

    /// Lowers a lexer of any other arity: a single `SplitMany` at code
    /// index 0 whose jump table records each token branch's entry
    /// point.
    fn generate_lexer_many(&mut self, definition: &LexerDefinition)
        requires
            old(self).wf(),
            old(self).inner().code() == Seq::<u32>::empty(),
            old(self).inner().pool() == Seq::<u32>::empty(),
            old(self).inner().tables() == Seq::<(int, int, int)>::empty(),
            tokens_ok(definition.tokens@),
            definition.tokens@.len() != 1,
            definition.tokens@.len() != 2,
            lexer_code_size(definition.tokens@) <= FIELD_LIMIT,
            lexer_pool_cost(definition.tokens@) < POOL_LIMIT,
        ensures
            final(self).wf(),
            final(self).inner().code().len() == lexer_code_size(definition.tokens@),
            final(self).inner().pool().len() == lexer_pool_cost(definition.tokens@),
            final(self).inner().interned() == old(self).inner().interned(),
            final(self).inner().code() == lexer_code(definition.tokens@),
            final(self).inner().pool() == lexer_pool(definition.tokens@),
            compiled_wf(
                final(self).inner().code(),
                final(self).inner().pool(),
                final(self).inner().tables(),
            ),
    {
        let ghost s = definition.tokens@;
        let marker = self.assembler.emit_split_many();
        let ghost base = self.assembler;
        proof {
            assert(s.subrange(0, s.len() as int) =~= s);
            assert(base.code() =~= Seq::<u32>::empty() + seq![mk_instr(9, 0)]);
        }
        let mut positions: Vec<CodePointer> = Vec::new();
        let n = definition.tokens.len();
        let mut j: usize = 0;
        while j < n
            invariant
                self.wf(),
                n == s.len(),
                s == definition.tokens@,
                j <= n,
                tokens_ok(s),
                marker.position() == 0,
                base.code() == Seq::<u32>::empty().push(mk_instr(9, 0)),
                base.pool() == Seq::<u32>::empty(),
                base.interned() == old(self).inner().interned(),
                base.tables() == Seq::<(int, int, int)>::empty(),
                positions@.len() == j,
                forall|k: int|
                    0 <= k < j ==> 1 <= ((#[trigger] positions@[k]) as int) && ((positions@[k]) as int)
                        < self.assembler.code().len(),
                self.assembler.code()[0] == mk_instr(9, 0),
                self.assembler.code().len() >= 1,
                self.assembler.pool().len() >= 0,
                self.assembler.interned() == base.interned(),
                self.assembler.code().len() + tok_list_size(s.subrange(j as int, n as int)) == 1
                    + tok_list_size(s),
                self.assembler.pool().len() + tok_list_pool(s.subrange(j as int, n as int))
                    == tok_list_pool(s),
                1 + tok_list_size(s) <= FIELD_LIMIT,
                s.len() + tok_list_pool(s) < POOL_LIMIT,
                forall|i: int|
                    1 <= i < self.assembler.code().len() ==> #[trigger] strict_instr_ok(
                        self.assembler.code(),
                        self.assembler.pool(),
                        i,
                    ),
                forall|i: int|
                    1 <= i < self.assembler.code().len() && is_consuming(
                        #[trigger] self.assembler.code()[i],
                    ) ==> i + 1 < self.assembler.code().len(),
                forall|k: int|
                    0 <= k < self.assembler.tables().len() ==> 1 <= (
                    #[trigger] self.assembler.tables()[k]).0,
                forall|k: int, i: int|
                    0 <= k < self.assembler.tables().len() && 0 <= i
                        < self.assembler.tables()[k].2 ==> ((
                    #[trigger] self.assembler.pool()[self.assembler.tables()[k].1 + i]) as int)
                        < self.assembler.code().len(),
                forall|i: int|
                    1 <= i < self.assembler.code().len() && #[trigger] spec_decode(
                        self.assembler.code()[i],
                    ) is SplitMany ==> exists|k: int|
                        0 <= k < self.assembler.tables().len() && (
                        #[trigger] self.assembler.tables()[k]).0 == i,
                base.code() + toks_code(s, 1, 0) == self.assembler.code() + toks_code(
                    s.subrange(j as int, n as int),
                    self.assembler.code().len() as int,
                    self.assembler.pool().len() as int,
                ),
                Seq::<u32>::empty() + toks_pool(s, 1, 0) == self.assembler.pool() + toks_pool(
                    s.subrange(j as int, n as int),
                    self.assembler.code().len() as int,
                    self.assembler.pool().len() as int,
                ),
                positions@.map_values(|el: u16| el as u32) + tok_entry_points(
                    s.subrange(j as int, n as int),
                    self.assembler.code().len() as int,
                ) == tok_entry_points(s, 1),
            decreases n - j,
        {
            let p = self.assembler.next_code_position();
            let ghost prev_positions = positions@;
            positions.push(p);
            proof {
                lemma_tok_split(s, j as int);
            }
            let ghost mid = self.assembler;
            self.generate_token_expr(&definition.tokens[j]);
            proof {
                let mlen = mid.code().len() as int;
                let mpo = mid.pool().len() as int;
                lemma_tok_layout_split(s, j as int, mlen, mpo);
                lemma_seq_assoc(
                    mid.code(),
                    branch_code(s[j as int], mlen, mpo),
                    toks_code(
                        s.subrange(j as int + 1, n as int),
                        mlen + gen_size(s[j as int].expr) + 1,
                        mpo + pool_cost(s[j as int].expr),
                    ),
                );
                lemma_seq_assoc(
                    mid.pool(),
                    pool_of(s[j as int].expr, mlen, mpo),
                    toks_pool(
                        s.subrange(j as int + 1, n as int),
                        mlen + gen_size(s[j as int].expr) + 1,
                        mpo + pool_cost(s[j as int].expr),
                    ),
                );
                assert(positions@.map_values(|el: u16| el as u32) =~= prev_positions.map_values(
                    |el: u16| el as u32,
                ).push(p as u32));
                assert(prev_positions.map_values(|el: u16| el as u32).push(p as u32)
                    =~= prev_positions.map_values(|el: u16| el as u32) + seq![p as u32]);
                lemma_seq_assoc(
                    prev_positions.map_values(|el: u16| el as u32),
                    seq![p as u32],
                    tok_entry_points(
                        s.subrange(j as int + 1, n as int),
                        mlen + gen_size(s[j as int].expr) + 1,
                    ),
                );
            }
            proof {
                let post = self.assembler;
                let m = mid.code().len() as int;
                let hi = post.code().len() as int;
                assert forall|i: int| 0 <= i < m implies post.code()[i] == #[trigger] mid.code()[i] by {
                    assert(post.code().subrange(0, m)[i] == post.code()[i]);
                }
                assert forall|i: int| 0 <= i < mid.pool().len() implies post.pool()[i]
                    == #[trigger] mid.pool()[i] by {
                    assert(post.pool().subrange(0, mid.pool().len() as int)[i] == post.pool()[i]);
                }
                lemma_strict_grow(mid.code(), mid.pool(), post.code(), post.pool(), 1, m);
                assert forall|k: int| 0 <= k < post.tables().len() implies 1 <= (
                #[trigger] post.tables()[k]).0 by {
                    if k < mid.tables().len() {
                        assert(post.tables()[k] == mid.tables()[k]);
                    } else {
                        assert(new_table_ok(
                            post.tables()[k],
                            m,
                            hi,
                            mid.pool().len() as int,
                            post.pool(),
                        ));
                    }
                }
                assert forall|i: int|
                    1 <= i < hi && is_consuming(#[trigger] post.code()[i]) implies i + 1 < hi by {
                    if i < m {
                        assert(post.code()[i] == mid.code()[i]);
                    }
                }
                assert forall|k: int, i: int|
                    0 <= k < post.tables().len() && 0 <= i < post.tables()[k].2 implies ((
                #[trigger] post.pool()[post.tables()[k].1 + i]) as int) < hi by {
                    if k < mid.tables().len() {
                        assert(post.tables()[k] == mid.tables()[k]);
                        assert(table_entry_wf(mid.code(), mid.pool(), mid.tables()[k]));
                        assert(post.pool()[post.tables()[k].1 + i] == mid.pool()[mid.tables()[k].1
                            + i]);
                    }
                }
                assert forall|i: int|
                    1 <= i < hi && #[trigger] spec_decode(post.code()[i]) is SplitMany implies exists|k: int|
                        0 <= k < post.tables().len() && (#[trigger] post.tables()[k]).0 == i by {
                    if i < m {
                        assert(post.code()[i] == mid.code()[i]);
                        let k = choose|k: int|
                            0 <= k < mid.tables().len() && (#[trigger] mid.tables()[k]).0 == i;
                        assert(post.tables()[k] == mid.tables()[k]);
                        assert(post.tables()[k].0 == i);
                    } else {
                        let k = choose|k: int|
                            mid.tables().len() <= k < post.tables().len() && (
                            #[trigger] post.tables()[k]).0 == i;
                        assert(post.tables()[k].0 == i);
                    }
                }
            }
            j += 1;
        }
        let ghost posv = positions@;
        let ghost before_patch = self.assembler;
        proof {
            assert(tok_list_size(s.subrange(n as int, n as int)) == 0);
            assert(tok_list_pool(s.subrange(n as int, n as int)) == 0);
            assert forall|k: int| 0 <= k < before_patch.tables().len() implies (
            #[trigger] before_patch.tables()[k]).0 != marker.position() by {
                assert(1 <= before_patch.tables()[k].0);
            }
        }
        self.assembler.patch_split_many(&marker, positions);
        proof {
            let post = self.assembler;
            let hi = post.code().len() as int;
            let ti = before_patch.pool().len() as u32;
            lemma_mk_instr_fields(9, ti);
            assert(hi == lexer_code_size(s));
            assert(post.pool().len() == lexer_pool_cost(s));
            assert forall|i: int| 0 <= i < before_patch.pool().len() implies post.pool()[i]
                == #[trigger] before_patch.pool()[i] by {}
            lemma_strict_grow(
                before_patch.code(),
                before_patch.pool(),
                post.code(),
                post.pool(),
                1,
                hi,
            );
            assert forall|i: int| 0 <= i < hi implies #[trigger] strict_instr_ok(
                post.code(),
                post.pool(),
                i,
            ) by {
                if i == 0 {
                    assert(post.code()[0] == mk_instr(9, ti));
                }
            }
            assert forall|i: int|
                0 <= i < hi && is_consuming(#[trigger] post.code()[i]) implies i + 1 < hi by {
                if i == 0 {
                    assert(post.code()[0] == mk_instr(9, ti));
                } else {
                    assert(post.code()[i] == before_patch.code()[i]);
                }
            }
            assert forall|k: int| 0 <= k < post.tables().len() implies table_entry_wf(
                post.code(),
                post.pool(),
                #[trigger] post.tables()[k],
            ) by {}
            let newt = (0int, before_patch.pool().len() as int, posv.len() as int);
            assert forall|k: int, i: int|
                0 <= k < post.tables().len() && 0 <= i < post.tables()[k].2 implies ((
            #[trigger] post.pool()[post.tables()[k].1 + i]) as int) < hi by {
                if k < before_patch.tables().len() {
                    assert(post.tables()[k] == before_patch.tables()[k]);
                    assert(table_entry_wf(
                        before_patch.code(),
                        before_patch.pool(),
                        before_patch.tables()[k],
                    ));
                    assert(post.pool()[post.tables()[k].1 + i]
                        == before_patch.pool()[before_patch.tables()[k].1 + i]);
                } else {
                    assert(post.tables()[k] == newt);
                    assert(post.pool()[newt.1 + i] == posv.map_values(|el: u16| el as u32)[i]);
                    assert(posv.map_values(|el: u16| el as u32)[i] == posv[i] as u32);
                }
            }
            assert forall|i: int|
                0 <= i < hi && #[trigger] spec_decode(post.code()[i]) is SplitMany implies exists|k: int|
                    0 <= k < post.tables().len() && (#[trigger] post.tables()[k]).0 == i by {
                if i == 0 {
                    let k = post.tables().len() - 1;
                    assert(post.tables()[k].0 == i);
                } else {
                    assert(post.code()[i] == before_patch.code()[i]);
                    let k = choose|k: int|
                        0 <= k < before_patch.tables().len() && (
                        #[trigger] before_patch.tables()[k]).0 == i;
                    assert(post.tables()[k] == before_patch.tables()[k]);
                    assert(post.tables()[k].0 == i);
                }
            }
            // The exact layout: the fan-out word, then the branches in
            // definition order; the pool ends with the jump table of
            // their entry points.
            let nn = s.len() as int;
            assert(before_patch.code() + toks_code(
                s.subrange(nn, nn),
                before_patch.code().len() as int,
                before_patch.pool().len() as int,
            ) =~= before_patch.code());
            assert(before_patch.pool() + toks_pool(
                s.subrange(nn, nn),
                before_patch.code().len() as int,
                before_patch.pool().len() as int,
            ) =~= before_patch.pool());
            assert(posv.map_values(|el: u16| el as u32) + tok_entry_points(
                s.subrange(nn, nn),
                before_patch.code().len() as int,
            ) =~= posv.map_values(|el: u16| el as u32));
            assert(posv.map_values(|el: u16| el as u32) == tok_entry_points(s, 1));
            assert(ti == tok_list_pool(s) as u32);
            assert(post.code() =~= lexer_code(s));
            assert(Seq::<u32>::empty() + toks_pool(s, 1, 0) =~= toks_pool(s, 1, 0));
            assert(post.pool() =~= lexer_pool(s));
        }
    }

    /// Compiles a lexer definition and wraps the program in a machine
    /// ready to run.
    pub fn compile_lexer(&mut self, lexer_definition: &LexerDefinition) -> (vm: Vm)
        requires
            old(self).wf(),
            old(self).inner().code() == Seq::<u32>::empty(),
            old(self).inner().pool() == Seq::<u32>::empty(),
            old(self).inner().tables() == Seq::<(int, int, int)>::empty(),
            tokens_ok(lexer_definition.tokens@),
            lexer_code_size(lexer_definition.tokens@) <= FIELD_LIMIT,
            lexer_pool_cost(lexer_definition.tokens@) < POOL_LIMIT,
        ensures
            final(self).wf(),
            vm.wf(),
            vm.code() == lexer_code(lexer_definition.tokens@),
            vm.pool() == lexer_pool(lexer_definition.tokens@),
            vm.code().len() == lexer_code_size(lexer_definition.tokens@),
            vm.pool().len() == lexer_pool_cost(lexer_definition.tokens@),
    {
        self.generate_lexer(lexer_definition);
        self.get_vm()
    }

    /// Wraps the program built so far in a machine and resets the
    /// compiler. The program must be in the structural shape the
    /// machine demands, which `generate_lexer` establishes.
    pub fn get_vm(&mut self) -> (vm: Vm)
        requires
            old(self).wf(),
            compiled_wf(
                old(self).inner().code(),
                old(self).inner().pool(),
                old(self).inner().tables(),
            ),
        ensures
            final(self).wf(),
            vm.wf(),
            vm.code() == old(self).inner().code(),
            vm.pool() == old(self).inner().pool(),
            final(self).inner().code() == Seq::<u32>::empty(),
            final(self).inner().pool() == Seq::<u32>::empty(),
            final(self).inner().interned() == Map::<u32, u16>::empty(),
            final(self).inner().tables() == Seq::<(int, int, int)>::empty(),
    {
        let program_data = self.get_prog_data();
        proof {
            lemma_forward_has_rank(program_data.code@, program_data.constant_pool@);
            assert forall|i: int| 0 <= i < program_data.code@.len() implies #[trigger] crate::disasm::instr_targets_ok(
                program_data.code@,
                program_data.constant_pool@,
                i,
            ) by {
                assert(strict_instr_ok(program_data.code@, program_data.constant_pool@, i));
            }
            assert(vm_code_wf(program_data.code@, program_data.constant_pool@));
        }
        Vm::new(program_data.code, program_data.constant_pool)
    }

}

} // verus!

