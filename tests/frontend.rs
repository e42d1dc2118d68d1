use transducer::compile::compile_program;
use transducer::interpreter::Interpreter;
use transducer::lexer::{tokenize, LexError, Token};
use transducer::parser::{print_ast, ParseError, Parser};
use transducer::qf_interpretation::evaluate;

fn compile_and_run(script: &str, word: &str) -> (String, String) {
    let tokens = tokenize(script).expect("the script lexes");
    let mut parser = Parser::new(tokens);
    let stmts = parser.parse().expect("the script parses");
    let qf = compile_program(&stmts);
    let qf_out = evaluate(&qf, word.to_string()).expect("the interpretation evaluates");
    let mut interpreter = Interpreter::new(word);
    let tr_out = interpreter.interpret(stmts).expect("the program runs");
    (qf_out, tr_out)
}

#[test]
fn identity_script_agrees_with_the_interpreter() {
    let (qf, tr) = compile_and_run("for i in 0..n { print(i.label) }", "abba");
    assert_eq!(qf, "abba");
    assert_eq!(tr, "abba");
}

#[test]
fn reverse_script_agrees_with_the_interpreter() {
    let (qf, tr) = compile_and_run("for i in n..0 { print(i.label) }", "ab#");
    assert_eq!(qf, "#ba");
    assert_eq!(tr, "#ba");
}

#[test]
fn square_script_agrees_with_the_interpreter() {
    let (qf, tr) = compile_and_run("for i in 0..n { for j in 0..n { print(i.label) } }", "ab");
    assert_eq!(qf, "aabb");
    assert_eq!(tr, "aabb");
}

#[test]
fn guarded_script_agrees_with_the_interpreter() {
    let (qf, tr) = compile_and_run("for i in 0..n { if i.label == \"a\" { print(i.label) } }", "abab");
    assert_eq!(qf, "aa");
    assert_eq!(tr, "aa");
}

#[test]
fn if_else_script_agrees_with_the_interpreter() {
    let script = "for i in 0..n { if i.label == \"a\" { print(\"a\") } else { print(\"b\") } }";
    let (qf, tr) = compile_and_run(script, "abc");
    assert_eq!(qf, "abb");
    assert_eq!(tr, "abb");
}

#[test]
fn prints_outside_and_between_loops_keep_program_order() {
    let script = "print(\"#\") for i in 0..n { print(i.label) for j in n..0 { print(j.label) } } print(\"b\")";
    let (qf, tr) = compile_and_run(script, "ab");
    assert_eq!(tr, "#ababbab");
    assert_eq!(qf, tr);
}

#[test]
fn position_comparisons_between_two_loops() {
    let script = "for i in 0..n { for j in 0..n { if i < j { print(j.label) } } }";
    let (qf, tr) = compile_and_run(script, "ab#");
    assert_eq!(tr, "b##");
    assert_eq!(qf, tr);
}

#[test]
fn loop_variables_are_renamed_apart() {
    let tokens = tokenize("for i in 0..n { print(i.label) }").unwrap();
    assert_eq!(tokens[0], Token::For);
    assert_eq!(tokens[1], Token::Identifier("X1".to_string()));
    assert_eq!(tokens[2], Token::In);
    assert_eq!(tokens[3], Token::Number(0));
    assert_eq!(tokens[4], Token::DotDot);
    assert_eq!(tokens[5], Token::Identifier("n".to_string()));
    assert_eq!(tokens[9], Token::Label("X1".to_string()));
}

#[test]
fn lexer_rejects_a_lone_equals_and_an_open_string() {
    assert_eq!(tokenize("if i = j"), Err(LexError::UnexpectedCharacter(5)));
    assert_eq!(tokenize("print(\"ab"), Err(LexError::UnterminatedString));
}

#[test]
fn parser_rejects_other_ranges_and_missing_braces() {
    let mut parser = Parser::new(tokenize("for i in 0 ..0 { }").unwrap());
    assert!(matches!(parser.parse(), Err(ParseError::InvalidRange(0))));
    let mut parser = Parser::new(tokenize("for i in 0..n { print(i.label)").unwrap());
    assert!(matches!(parser.parse(), Err(ParseError::UnexpectedEnd)));
}

#[test]
fn outline_of_a_program() {
    let mut parser = Parser::new(tokenize("for i in 0..n { if i.label == \"a\" { print(i.label) } }").unwrap());
    let stmts = parser.parse().unwrap();
    let text = print_ast(&stmts, 0);
    let expected = "For0 X1:\n  If:\n    Equal:\n      Label: X1\n      Str: a\n  Then:\n    Print:\n      Label: X1\n";
    assert_eq!(text, expected);
}

#[test]
fn printed_literals_lose_trailing_white_space() {
    let (qf, tr) = compile_and_run("for i in 0..n { print(\"a \") }", "b");
    assert_eq!(tr, "a");
    assert_eq!(qf, "a");
}
