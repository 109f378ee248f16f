use zkvm::assembler::assemble;
use zkvm::mini::{compile, CompileError, Tok};
use zkvm::vm::run;

fn chars(s: &str) -> Vec<char> {
    s.chars().collect()
}

const FIB: &str = "let n = read();
let a = 0;
let b = 1;
let one = 1;
while n != 0 {
    let t = a + b;
    let a = b;
    let b = t;
    n = n - one;
}
write(a);
halt;
";

#[test]
fn fibonacci_compiles_to_expected_text() {
    let text = compile(FIB).unwrap();
    let want = "    READ r1\n    IMM r2, 0\n    IMM r3, 1\n    IMM r4, 1\n_loop0:\n    JZ r1, _endloop1\n    ADD r5, r2, r3\n    MOV r2, r3\n    MOV r3, r5\n    SUB r1, r1, r4\n    JMP _loop0\n_endloop1:\n    WRITE r2\n    HALT\n";
    assert_eq!(text, want);
}

#[test]
fn fibonacci_runs_to_fib_10() {
    let text = compile(FIB).unwrap();
    let program = assemble(&text).unwrap();
    let (_trace, out) = run(&program, &[10], 10_000).unwrap();
    assert_eq!(out, vec![55]);
}

#[test]
fn if_else_on_equal_zero_uses_three_labels() {
    let src = "let x = read(); if x == 0 { write(x); } else { halt; } halt;";
    let text = compile(src).unwrap();
    let want = "    READ r1\n    JZ r1, _then2\n    JMP _else0\n_then2:\n    WRITE r1\n    JMP _endif1\n_else0:\n    HALT\n_endif1:\n    HALT\n";
    assert_eq!(text, want);
}

#[test]
fn if_not_equal_without_else() {
    let src = "let x = 1;\nif x != 0 { x = x + x; }\n";
    let text = compile(src).unwrap();
    let want = "    IMM r1, 1\n    JZ r1, _else0\n    ADD r1, r1, r1\n    JMP _endif1\n_else0:\n_endif1:\n    HALT\n";
    assert_eq!(text, want);
}

#[test]
fn while_equal_zero_uses_body_label() {
    let src = "let x = 0; while x == 0 { let y = 1; x = x + y; }";
    let text = compile(src).unwrap();
    let want = "    IMM r1, 0\n_loop0:\n    JZ r1, _body2\n    JMP _endloop1\n_body2:\n    IMM r2, 1\n    ADD r1, r1, r2\n    JMP _loop0\n_endloop1:\n    HALT\n";
    assert_eq!(text, want);
}

#[test]
fn memory_and_products() {
    let src = "let p = 7; // address\nlet v = 6;\nmem[p] = v;\nlet w = 0;\nw = mem[p];\nlet q = v * w;\nq = q - v;\nwrite(q);\nhalt;";
    let text = compile(src).unwrap();
    let want = "    IMM r1, 7\n    IMM r2, 6\n    STORE r1, r2\n    IMM r3, 0\n    LOAD r3, r1\n    MUL r4, r2, r3\n    SUB r4, r4, r2\n    WRITE r4\n    HALT\n";
    assert_eq!(text, want);
    let program = assemble(&text).unwrap();
    let (_trace, out) = run(&program, &[], 1000).unwrap();
    assert_eq!(out, vec![30]);
}

#[test]
fn nested_blocks_number_labels_in_order() {
    let src = "let x = read(); while x != 0 { if x == 0 { halt; } x = x - x; } halt;";
    let text = compile(src).unwrap();
    let want = "    READ r1\n_loop0:\n    JZ r1, _endloop1\n    JZ r1, _then4\n    JMP _else2\n_then4:\n    HALT\n    JMP _endif3\n_else2:\n_endif3:\n    SUB r1, r1, r1\n    JMP _loop0\n_endloop1:\n    HALT\n";
    assert_eq!(text, want);
}

#[test]
fn comments_and_empty_source() {
    assert_eq!(compile("").unwrap(), "    HALT\n");
    assert_eq!(compile("// nothing\n   \n// more").unwrap(), "    HALT\n");
    assert_eq!(compile("halt; // stop").unwrap(), "    HALT\n");
}

#[test]
fn eighth_variable_is_refused() {
    let src = "let a = 0; let b = 0; let c = 0; let d = 0; let e = 0; let f = 0; let g = 0; let h = 0;";
    assert_eq!(compile(src), Err(CompileError::TooManyVariables(chars("h"))));
    let seven = "let a = 0; let b = 0; let c = 0; let d = 0; let e = 0; let f = 0; let g = 0; let a = 1;";
    assert!(compile(seven).unwrap().ends_with("    IMM r1, 1\n    HALT\n"));
}

#[test]
fn lexical_errors() {
    assert_eq!(compile("let x = 99999999999999999999;"), Err(CompileError::BadNumber(chars("99999999999999999999"))));
    assert_eq!(compile("let x = 1; if x ! 0 { }"), Err(CompileError::ExpectedEqualsAfterBang));
    assert_eq!(compile("let x = 1 # 2;"), Err(CompileError::UnexpectedChar('#')));
    assert_eq!(compile("let x = 1 / 2;"), Err(CompileError::UnexpectedChar('/')));
}

#[test]
fn parse_errors() {
    assert_eq!(
        compile("let x 1;"),
        Err(CompileError::ExpectedPunct { expected: '=', got: Some(Tok::Num(1)) })
    );
    assert_eq!(compile("let 1 = 2;"), Err(CompileError::ExpectedIdentifier(Some(Tok::Num(1)))));
    assert_eq!(compile("; halt;"), Err(CompileError::UnexpectedStatement(Some(Tok::Punct(';')))));
    assert_eq!(compile("write(y);"), Err(CompileError::UndefinedVariable(chars("y"))));
    assert_eq!(compile("let x = 1; let y = x / "), Err(CompileError::UnexpectedChar('/')));
    assert_eq!(compile("let x = 1; let y = x ,"), Err(CompileError::LetExpectedOperator(Some(Tok::Punct(',')))));
    assert_eq!(compile("let x = ;"), Err(CompileError::BadLetRhs(Some(Tok::Punct(';')))));
    assert_eq!(compile("let x = 1; x = x;"), Err(CompileError::ExpectedOperator(Some(Tok::Punct(';')))));
    assert_eq!(compile("let x = 1; if x { }"), Err(CompileError::IfExpectedComparison(Some(Tok::Punct('{')))));
    assert_eq!(compile("let x = 1; if x == 1 { }"), Err(CompileError::IfOnlyZero(Some(Tok::Num(1)))));
    assert_eq!(compile("let x = 1; while x = 0 { }"), Err(CompileError::WhileExpectedComparison(Some(Tok::Punct('=')))));
    assert_eq!(compile("let x = 1; while x != y { }"), Err(CompileError::WhileOnlyZero(Some(Tok::Word(chars("y"))))));
    assert_eq!(compile("let x = 1; while x != 0 { halt;"), Err(CompileError::UnterminatedBlock));
    assert_eq!(compile("halt"), Err(CompileError::ExpectedPunct { expected: ';', got: None }));
}

#[test]
fn let_copies_and_reuses_registers() {
    let text = compile("let x = read(); let x = x; let y = x + x;").unwrap();
    assert_eq!(text, "    READ r1\n    MOV r1, r1\n    ADD r2, r1, r1\n    HALT\n");
}

#[test]
fn large_immediate_is_written_in_full() {
    let text = compile("let x = 18446744073709551615;").unwrap();
    assert_eq!(text, "    IMM r1, 18446744073709551615\n    HALT\n");
}

#[test]
fn compiled_programs_assemble() {
    let sources = [
        FIB,
        "let x = read(); if x == 0 { write(x); } else { halt; } halt;",
        "let x = 0; while x == 0 { let y = 1; x = x + y; }",
        "let x = read(); while x != 0 { if x == 0 { halt; } else { x = x - x; } if x != 0 { halt; } } halt;",
        "let a = 18446744073709551615; let b = a; mem[a] = b; b = mem[a]; let c = a * b; write(c); halt;",
        "",
    ];
    for src in sources.iter() {
        let text = compile(src).unwrap();
        assert!(assemble(&text).is_ok(), "did not assemble: {}", text);
    }
}

#[test]
fn program_without_halt_gets_a_final_halt() {
    let text = compile("let x = read(); write(x);").unwrap();
    assert_eq!(text, "    READ r1\n    WRITE r1\n    HALT\n");
    let program = assemble(&text).unwrap();
    let (_trace, out) = run(&program, &[42], 100).unwrap();
    assert_eq!(out, vec![42]);
    // A program whose last line already halts gets no second HALT.
    assert_eq!(compile("halt;").unwrap(), "    HALT\n");
}
