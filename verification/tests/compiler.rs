use lexvm::ast::Expr;
use lexvm::ast::LexerDefinition;
use lexvm::ast::TokenDefinition;
use lexvm::compiler::Compiler;
use lexvm::disasm::decode;
use lexvm::disasm::Instruction;

fn check_compiler(
    compiler: &mut Compiler,
    lexer_definition: &LexerDefinition,
    expected: Vec<Instruction>,
    pool: Vec<u32>,
) {
    compiler.generate_lexer(lexer_definition);
    let prog_data = compiler.get_prog_data();
    let instructions: Vec<Instruction> = prog_data.code.iter().map(|instr| decode(*instr)).collect();
    assert_eq!(expected, instructions);
    assert_eq!(pool, prog_data.constant_pool);
}

#[test]
fn compiler_single_char() {
    let mut compiler = Compiler::new();
    let expr = Expr::Concat {
        exprs: vec![
            Expr::Single { ch: 'a' },
            Expr::Single { ch: 'b' },
            Expr::Or {
                variants: vec![Expr::Single { ch: 'c' }, Expr::Single { ch: 'd' }],
            },
        ],
    };
    let lexer_definition = LexerDefinition {
        tokens: vec![TokenDefinition { expr, index: 2, name: "foo".to_string() }],
    };
    check_compiler(
        &mut compiler,
        &lexer_definition,
        vec![
            Instruction::CharImm { ch: 'a' },
            Instruction::CharImm { ch: 'b' },
            Instruction::Split { then_instr_index: 3, else_instr_index: 4 },
            Instruction::CharImm { ch: 'c' },
            Instruction::CharImm { ch: 'd' },
            Instruction::Match { token_type_index: 2 },
        ],
        vec![],
    );
}

#[test]
fn compiler_range() {
    let mut compiler = Compiler::new();
    let expr = Expr::Range { from: 'a', to: 'z' };
    let lexer_definition = LexerDefinition {
        tokens: vec![TokenDefinition { expr, index: 2, name: "foo".to_string() }],
    };
    check_compiler(
        &mut compiler,
        &lexer_definition,
        vec![
            Instruction::RangeImm { from: 'a', to: 'z' },
            Instruction::Match { token_type_index: 2 },
        ],
        vec![],
    );
}

#[test]
fn multiple_tokens() {
    let mut compiler = Compiler::new();
    let first = Expr::Concat {
        exprs: vec![Expr::Single { ch: 'a' }, Expr::Single { ch: 'b' }],
    };
    let second = Expr::Concat {
        exprs: vec![Expr::Single { ch: 'c' }, Expr::Single { ch: 'd' }],
    };
    let lexer_definition = LexerDefinition {
        tokens: vec![
            TokenDefinition { expr: first, index: 2, name: "foo".to_string() },
            TokenDefinition { expr: second, index: 3, name: "bar".to_string() },
        ],
    };
    check_compiler(
        &mut compiler,
        &lexer_definition,
        vec![
            Instruction::Split { then_instr_index: 1, else_instr_index: 4 },
            Instruction::CharImm { ch: 'a' },
            Instruction::CharImm { ch: 'b' },
            Instruction::Match { token_type_index: 2 },
            Instruction::CharImm { ch: 'c' },
            Instruction::CharImm { ch: 'd' },
            Instruction::Match { token_type_index: 3 },
        ],
        vec![],
    );
}

#[test]
fn compiler_fan_out() {
    // Three tokens of arity at least two in the top-level alternation:
    // a single SplitMany at code index 0, its jump table in the pool
    // recording each token's entry offset, each body ending in Match.
    let mut compiler = Compiler::new();
    let tokens = vec![
        TokenDefinition {
            expr: Expr::Concat {
                exprs: vec![Expr::Single { ch: 'a' }, Expr::Single { ch: 'b' }],
            },
            index: 2,
            name: "ab".to_string(),
        },
        TokenDefinition {
            expr: Expr::Concat {
                exprs: vec![Expr::Single { ch: 'c' }, Expr::Single { ch: 'd' }],
            },
            index: 3,
            name: "cd".to_string(),
        },
        TokenDefinition {
            expr: Expr::Concat {
                exprs: vec![Expr::Single { ch: 'e' }, Expr::Single { ch: 'f' }],
            },
            index: 4,
            name: "ef".to_string(),
        },
    ];
    let lexer_definition = LexerDefinition::new(tokens);
    check_compiler(
        &mut compiler,
        &lexer_definition,
        vec![
            Instruction::SplitMany { table_index: 0 },
            Instruction::CharImm { ch: 'a' },
            Instruction::CharImm { ch: 'b' },
            Instruction::Match { token_type_index: 2 },
            Instruction::CharImm { ch: 'c' },
            Instruction::CharImm { ch: 'd' },
            Instruction::Match { token_type_index: 3 },
            Instruction::CharImm { ch: 'e' },
            Instruction::CharImm { ch: 'f' },
            Instruction::Match { token_type_index: 4 },
        ],
        vec![1, 4, 7],
    );
}

#[test]
fn compiler_reuse_after_finish() {
    // finish() resets the assembler, so the same compiler can build a
    // second program from scratch.
    let mut compiler = Compiler::new();
    let lexer_definition = LexerDefinition {
        tokens: vec![TokenDefinition {
            expr: Expr::Single { ch: 'x' },
            index: 2,
            name: "x".to_string(),
        }],
    };
    check_compiler(
        &mut compiler,
        &lexer_definition,
        vec![
            Instruction::CharImm { ch: 'x' },
            Instruction::Match { token_type_index: 2 },
        ],
        vec![],
    );
    let second = LexerDefinition {
        tokens: vec![TokenDefinition {
            expr: Expr::Range { from: '0', to: '9' },
            index: 5,
            name: "digit".to_string(),
        }],
    };
    check_compiler(
        &mut compiler,
        &second,
        vec![
            Instruction::RangeImm { from: '0', to: '9' },
            Instruction::Match { token_type_index: 5 },
        ],
        vec![],
    );
}

#[test]
fn inner_alternation_fan_out() {
    // An alternation of three variants inside one token gets its own
    // SplitMany whose jump table lists each variant's entry point.
    let mut compiler = Compiler::new();
    let expr = Expr::Or {
        variants: vec![
            Expr::Single { ch: 'a' },
            Expr::Single { ch: 'b' },
            Expr::Single { ch: 'c' },
        ],
    };
    let lexer_definition = LexerDefinition {
        tokens: vec![TokenDefinition { expr, index: 2, name: "abc".to_string() }],
    };
    check_compiler(
        &mut compiler,
        &lexer_definition,
        vec![
            Instruction::SplitMany { table_index: 0 },
            Instruction::CharImm { ch: 'a' },
            Instruction::CharImm { ch: 'b' },
            Instruction::CharImm { ch: 'c' },
            Instruction::Match { token_type_index: 2 },
        ],
        vec![1, 2, 3],
    );
}

#[test]
fn compile_and_lex_end_to_end() {
    let mut compiler = Compiler::new();
    let digit = TokenDefinition {
        expr: Expr::Range { from: '0', to: '9' },
        index: 2,
        name: "digit".to_string(),
    };
    let word = TokenDefinition {
        expr: Expr::Concat {
            exprs: vec![
                Expr::Range { from: 'a', to: 'z' },
                Expr::Range { from: 'a', to: 'z' },
            ],
        },
        index: 3,
        name: "word".to_string(),
    };
    let definition = lexvm::ast::LexerDefinition::new(vec![digit, word]);
    let vm = compiler.compile_lexer(&definition);
    let chars: Vec<char> = "ab7x!".chars().collect();
    let mut session = lexvm::vm::LexingSession::new(vm, chars);
    let tokens = session.tokenize();
    assert_eq!(
        tokens,
        vec![
            lexvm::vm::TokenRaw::new(2, 3),
            lexvm::vm::TokenRaw::new(1, 2),
            lexvm::vm::TokenRaw::new(2, 0),
            lexvm::vm::TokenRaw::new(0, 1),
        ]
    );
}
