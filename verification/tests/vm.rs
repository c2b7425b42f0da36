use lexvm::assembler::Assembler;
use lexvm::assembler::ProgramData;
use lexvm::vm::LexingSession;
use lexvm::vm::TokenRaw;
use lexvm::vm::Vm;

const END_TOKEN_INDEX: u16 = 1;

fn test_vm(program_data: ProgramData, text: &str, expected_tokens: Vec<TokenRaw>) {
    let vm = Vm::new(program_data.code, program_data.constant_pool);
    let chars: Vec<char> = text.chars().collect();
    let mut session = LexingSession::new(vm, chars);
    let tokens = session.tokenize();
    assert_eq!(expected_tokens, tokens);
}

#[test]
fn vm_single_char() {
    let mut assembler = Assembler::new();
    assembler.emit_char_imm('a');
    assembler.emit_match(2);
    test_vm(
        assembler.finish(),
        "a",
        vec![TokenRaw::new(1, 2), TokenRaw::new(0, END_TOKEN_INDEX)],
    )
}

#[test]
fn vm_range() {
    let mut assembler = Assembler::new();
    assembler.emit_range_imm('a', 'z');
    assembler.emit_match(2);
    test_vm(
        assembler.finish(),
        "v",
        vec![TokenRaw::new(1, 2), TokenRaw::new(0, END_TOKEN_INDEX)],
    )
}

#[test]
fn two_chars() {
    let mut assembler = Assembler::new();
    assembler.emit_char_imm('a');
    assembler.emit_char_imm('a');
    assembler.emit_match(2);
    test_vm(
        assembler.finish(),
        "aa",
        vec![TokenRaw::new(2, 2), TokenRaw::new(0, END_TOKEN_INDEX)],
    )
}

#[test]
fn lex_loop() {
    let mut assembler = Assembler::new();
    assembler.emit_char_imm('a');
    assembler.emit_split(0, 2);
    assembler.emit_match(2);
    test_vm(
        assembler.finish(),
        "aaaa",
        vec![TokenRaw::new(4, 2), TokenRaw::new(0, END_TOKEN_INDEX)],
    )
}

#[test]
fn lex_two_tokens() {
    let mut assembler = Assembler::new();
    // a | b regex code
    assembler.emit_split(1, 3);
    assembler.emit_char_imm('a');
    assembler.emit_match(2);
    assembler.emit_char_imm('b');
    assembler.emit_match(3);
    test_vm(
        assembler.finish(),
        "ab",
        vec![
            TokenRaw::new(1, 2),
            TokenRaw::new(1, 3),
            TokenRaw::new(0, END_TOKEN_INDEX),
        ],
    )
}

#[test]
fn lex_error_tokens() {
    let mut assembler = Assembler::new();
    assembler.emit_char_imm('a');
    assembler.emit_match(2);
    test_vm(
        assembler.finish(),
        "abbbaa",
        vec![
            TokenRaw::new(1, 2),
            TokenRaw::new(3, 0),
            TokenRaw::new(1, 2),
            TokenRaw::new(1, 2),
            TokenRaw::new(0, END_TOKEN_INDEX),
        ],
    )
}

#[test]
fn lex_empty_input() {
    // The empty input yields exactly the end-of-input token.
    let mut assembler = Assembler::new();
    assembler.emit_char_imm('a');
    assembler.emit_match(2);
    test_vm(assembler.finish(), "", vec![TokenRaw::new(0, END_TOKEN_INDEX)])
}

#[test]
fn lex_longest_match() {
    // Two accepting prefixes: "a" (token 2) and "aa" (token 3); the
    // longer one is emitted.
    let mut assembler = Assembler::new();
    assembler.emit_split(1, 3);
    assembler.emit_char_imm('a');
    assembler.emit_match(2);
    assembler.emit_char_imm('a');
    assembler.emit_char_imm('a');
    assembler.emit_match(3);
    test_vm(
        assembler.finish(),
        "aa",
        vec![TokenRaw::new(2, 3), TokenRaw::new(0, END_TOKEN_INDEX)],
    )
}

#[test]
fn lex_priority_tie_break() {
    // Two tokens accept the same prefix of the same maximal length;
    // the greater token type index wins.
    let mut assembler = Assembler::new();
    assembler.emit_split(1, 3);
    assembler.emit_char_imm('a');
    assembler.emit_match(2);
    assembler.emit_char_imm('a');
    assembler.emit_match(7);
    test_vm(
        assembler.finish(),
        "a",
        vec![TokenRaw::new(1, 7), TokenRaw::new(0, END_TOKEN_INDEX)],
    )
}

#[test]
fn lex_coverage_sums_to_input_length() {
    // Byte lengths of all tokens but the final end token sum to the
    // byte length of the input, errors included.
    let mut assembler = Assembler::new();
    assembler.emit_range_imm('a', 'z');
    assembler.emit_split(0, 2);
    assembler.emit_match(2);
    let vm = {
        let prog = assembler.finish();
        Vm::new(prog.code, prog.constant_pool)
    };
    let text = "hello world!!";
    let chars: Vec<char> = text.chars().collect();
    let mut session = LexingSession::new(vm, chars);
    let tokens = session.tokenize();
    let total: u32 = tokens.iter().map(|t| t.length()).sum();
    assert_eq!(total, text.len() as u32);
    assert_eq!(*tokens.last().unwrap(), TokenRaw::new(0, END_TOKEN_INDEX));
}

#[test]
fn lex_multibyte_error_span() {
    // Token lengths are measured in bytes: a two-byte character that
    // no token accepts yields an error token of length two.
    let mut assembler = Assembler::new();
    assembler.emit_char_imm('a');
    assembler.emit_match(2);
    test_vm(
        assembler.finish(),
        "a\u{00e9}a",
        vec![
            TokenRaw::new(1, 2),
            TokenRaw::new(2, 0),
            TokenRaw::new(1, 2),
            TokenRaw::new(0, END_TOKEN_INDEX),
        ],
    )
}

#[test]
fn session_stops_after_end_token() {
    let mut assembler = Assembler::new();
    assembler.emit_char_imm('a');
    assembler.emit_match(2);
    let prog = assembler.finish();
    let vm = Vm::new(prog.code, prog.constant_pool);
    let chars: Vec<char> = "a".chars().collect();
    let mut session = LexingSession::new(vm, chars);
    assert_eq!(session.next(), Some(TokenRaw::new(1, 2)));
    assert_eq!(session.next(), Some(TokenRaw::new(0, END_TOKEN_INDEX)));
    assert_eq!(session.next(), None);
    assert_eq!(session.next(), None);
}

#[test]
fn vm_range_rejects_outside() {
    // A character outside the inclusive range is an error span.
    let mut assembler = Assembler::new();
    assembler.emit_range_imm('a', 'z');
    assembler.emit_match(2);
    test_vm(
        assembler.finish(),
        "A",
        vec![TokenRaw::new(1, 0), TokenRaw::new(0, END_TOKEN_INDEX)],
    )
}

#[test]
fn vm_reused_across_sessions() {
    // The machine's thread sets are a reuse pool: a second session over
    // the same program starts clean.
    let mut assembler = Assembler::new();
    assembler.emit_char_imm('a');
    assembler.emit_match(2);
    let prog = assembler.finish();
    let vm = Vm::new(prog.code, prog.constant_pool);
    let mut first = LexingSession::new(vm, vec!['a']);
    assert_eq!(
        first.tokenize(),
        vec![TokenRaw::new(1, 2), TokenRaw::new(0, END_TOKEN_INDEX)]
    );
    let vm = first.into_vm();
    let mut second = LexingSession::new(vm, vec!['b', 'a']);
    assert_eq!(
        second.tokenize(),
        vec![
            TokenRaw::new(1, 0),
            TokenRaw::new(1, 2),
            TokenRaw::new(0, END_TOKEN_INDEX)
        ]
    );
}

#[test]
fn lex_commits_best_match_end() {
    // Tokens "a" (index 2) and "aaab" (index 4) on input "aaac": the
    // only accepting prefix is "a", so the session commits the best
    // match's end and re-lexes from there, rather than emitting the
    // position where the threads died.
    let mut assembler = Assembler::new();
    assembler.emit_split(1, 3);
    assembler.emit_char_imm('a');
    assembler.emit_match(2);
    assembler.emit_char_imm('a');
    assembler.emit_char_imm('a');
    assembler.emit_char_imm('a');
    assembler.emit_char_imm('b');
    assembler.emit_match(4);
    test_vm(
        assembler.finish(),
        "aaac",
        vec![
            TokenRaw::new(1, 2),
            TokenRaw::new(1, 2),
            TokenRaw::new(1, 2),
            TokenRaw::new(1, 0),
            TokenRaw::new(0, END_TOKEN_INDEX),
        ],
    )
}
