use transducer::bexpr_evaluator::EvalError;
use transducer::guarded;
use transducer::loops;

fn run_guarded(script: &str, word: &str) -> Result<String, EvalError> {
    let tokens = guarded::tokenize(script).expect("the script lexes");
    let mut parser = guarded::Parser::new(tokens);
    let stmts = parser.parse().expect("the script parses");
    let mut interpreter = guarded::Interpreter::new(word);
    interpreter.interpret(stmts)
}

#[test]
fn guarded_language_runs_if_else() {
    let script = "for i in 0..n { if i.label == \"a\" { print(i.label) } else { print(\"x\") } }";
    assert_eq!(run_guarded(script, "abc").unwrap(), "a\nx\nx\n");
}

#[test]
fn guarded_language_compares_positions_and_runs_backwards() {
    let script = "for i in n..0 { for j in 0..n { if i < j { print(j.label) } } }";
    assert_eq!(run_guarded(script, "ab").unwrap(), "b\n");
}

#[test]
fn guarded_language_rejects_printing_a_number_and_comparing_labels() {
    assert_eq!(run_guarded("for i in 0..n { print(i) }", "a"), Err(EvalError::NotAString));
    let script = "for i in 0..n { if i.label == i.label { print(\"y\") } }";
    assert_eq!(run_guarded(script, "a"), Err(EvalError::InvalidComparison));
}

#[test]
fn counted_loops_from_text() {
    let tokens = loops::tokenize("for i in 0..3 { print(7) }").expect("the script lexes");
    let mut parser = loops::Parser::new(tokens);
    let stmts = parser.parse().expect("the script parses");
    assert_eq!(stmts, vec![loops::Stmt::For("i".to_string(), 0, 3, vec![loops::Stmt::Print(loops::Expr::Number(7))])]);
    let mut interpreter = loops::Interpreter::new();
    assert_eq!(interpreter.interpret(stmts), "777");
}

#[test]
fn counted_loops_reject_stray_characters() {
    assert_eq!(loops::tokenize("print(1) ; "), Err(loops::LexError::UnexpectedCharacter(9)));
}
