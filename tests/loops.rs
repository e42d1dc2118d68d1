use transducer::loops::{Expr, Interpreter, Stmt};

#[test]
fn test_for_loops() {
    let stmt = Stmt::For(
        "i".to_string(),
        0, 10,
        vec![Stmt::Print(Expr::Number(42))],
    );
    let mut interpreter = Interpreter::new();
    let output = interpreter.interpret(vec![stmt]);
    assert_eq!(output, "42".to_string().repeat(10));
}

#[test]
fn empty_and_reversed_ranges_print_nothing() {
    let mut interpreter = Interpreter::new();
    let stmts = vec![
        Stmt::For("i".to_string(), 3, 3, vec![Stmt::Print(Expr::Number(1))]),
        Stmt::For("j".to_string(), 5, 2, vec![Stmt::Print(Expr::Number(2))]),
    ];
    assert_eq!(interpreter.interpret(stmts), "");
}

#[test]
fn nested_loops_multiply_and_negative_numbers_keep_their_sign() {
    let mut interpreter = Interpreter::new();
    let inner = Stmt::For("j".to_string(), 0, 3, vec![Stmt::Print(Expr::Number(-7))]);
    let outer = Stmt::For("i".to_string(), 0, 2, vec![inner, Stmt::Print(Expr::Str("|".to_string()))]);
    assert_eq!(interpreter.interpret(vec![outer]), "-7-7-7|-7-7-7|");
}
