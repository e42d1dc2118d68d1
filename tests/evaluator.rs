use transducer::ast::Bexpr;
use transducer::bexpr_evaluator::{EvalError, Evaluator};

fn var(s: &str) -> Box<Bexpr> {
    Box::new(Bexpr::Var(s.to_string()))
}

fn evaluator(word: &str, vars: &[(&str, usize)]) -> Evaluator {
    Evaluator {
        variables: vars.iter().map(|(n, p)| (n.to_string(), *p)).collect(),
        word: word.to_string(),
    }
}

#[test]
fn comparisons_of_positions() {
    let mut e = evaluator("abc", &[("x1", 0), ("y1", 2)]);
    assert_eq!(e.eval(&Bexpr::Less(var("x1"), var("y1"))), Ok(true));
    assert_eq!(e.eval(&Bexpr::GreaterEqual(var("x1"), var("y1"))), Ok(false));
    assert_eq!(e.eval(&Bexpr::NotEqual(var("x1"), var("y1"))), Ok(true));
}

#[test]
fn letter_predicates_and_constants() {
    let mut e = evaluator("ab#", &[("x1", 2)]);
    assert_eq!(e.eval(&Bexpr::Str("#(x1)".to_string())), Ok(true));
    assert_eq!(e.eval(&Bexpr::Str("a(x1)".to_string())), Ok(false));
    assert_eq!(e.eval(&Bexpr::Str("T".to_string())), Ok(true));
    assert_eq!(e.eval(&Bexpr::Var("F".to_string())), Ok(false));
    let label_is_hash = Bexpr::Equal(Box::new(Bexpr::Label("x1".to_string())), Box::new(Bexpr::Str("#".to_string())));
    assert_eq!(e.eval(&label_is_hash), Ok(true));
}

#[test]
fn each_evaluation_error() {
    let mut e = evaluator("ab", &[("x1", 5)]);
    assert_eq!(e.eval(&Bexpr::Var("z".to_string())), Err(EvalError::UnboundVariable));
    assert_eq!(e.eval(&Bexpr::Label("x1".to_string())), Err(EvalError::IndexOutOfBounds));
    let two_labels = Bexpr::Equal(Box::new(Bexpr::Label("x1".to_string())), Box::new(Bexpr::Label("x1".to_string())));
    let mut e2 = evaluator("ab", &[("x1", 0)]);
    assert_eq!(e2.eval(&two_labels), Err(EvalError::InvalidComparison));
    assert_eq!(e2.eval(&Bexpr::Str("true".to_string())), Err(EvalError::NotABoolean));
}

#[test]
fn the_first_binding_of_a_name_is_in_force() {
    let mut e = evaluator("ab", &[("x1", 1), ("x1", 0)]);
    assert_eq!(e.eval(&Bexpr::Str("b(x1)".to_string())), Ok(true));
}

#[test]
fn negation_flips_comparisons_and_wraps_the_rest() {
    let n = Bexpr::logical_not(Bexpr::Less(var("x"), var("y")));
    assert_eq!(n, Bexpr::GreaterEqual(var("x"), var("y")));
    let n = Bexpr::logical_not(Bexpr::Var("x".to_string()));
    assert_eq!(n, Bexpr::Not(var("x")));
    assert_eq!(Bexpr::And(var("x"), Box::new(Bexpr::Str("a".to_string()))).to_text(), "( x && \"a\" )");
}
