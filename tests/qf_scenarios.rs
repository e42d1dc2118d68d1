use transducer::ast::{Bexpr, Pexpr, Stmt};
use transducer::compile::compile_program;
use transducer::qf_interpretation::evaluate;

fn label(v: &str) -> Pexpr {
    Pexpr::Label(v.to_string())
}

fn run(program: &Vec<Stmt>, word: &str) -> String {
    let qf = compile_program(program);
    evaluate(&qf, word.to_string()).expect("the interpretation evaluates")
}

#[test]
fn identity_program_copies_the_word() {
    let program = vec![Stmt::For0("i".to_string(), vec![Stmt::Print(label("i"))])];
    assert_eq!(run(&program, "abba"), "abba");
}

#[test]
fn reverse_program_reverses_the_word() {
    let program = vec![Stmt::For1("i".to_string(), vec![Stmt::Print(label("i"))])];
    assert_eq!(run(&program, "abba"), "abba");
    assert_eq!(run(&program, "ab#"), "#ba");
}

#[test]
fn square_program_doubles_each_position() {
    let program = vec![Stmt::For0(
        "i".to_string(),
        vec![Stmt::For0("j".to_string(), vec![Stmt::Print(label("i"))])],
    )];
    assert_eq!(run(&program, "ab"), "aabb");
}

#[test]
fn guarded_print_keeps_the_a_letters() {
    let guard = Bexpr::Equal(
        Box::new(Bexpr::Label("i".to_string())),
        Box::new(Bexpr::Str("a".to_string())),
    );
    let program = vec![Stmt::For0(
        "i".to_string(),
        vec![Stmt::If(guard, vec![Stmt::Print(label("i"))])],
    )];
    assert_eq!(run(&program, "abab"), "aa");
}

#[test]
fn else_branch_is_the_negated_guard() {
    let guard = Bexpr::Equal(
        Box::new(Bexpr::Label("i".to_string())),
        Box::new(Bexpr::Str("a".to_string())),
    );
    let negated = Bexpr::logical_not(guard.duplicate());
    let program = vec![Stmt::For0(
        "i".to_string(),
        vec![
            Stmt::If(guard, vec![Stmt::Print(Pexpr::Str("a".to_string()))]),
            Stmt::If(negated, vec![Stmt::Print(Pexpr::Str("b".to_string()))]),
        ],
    )];
    assert_eq!(run(&program, "abc"), "abb");
}
