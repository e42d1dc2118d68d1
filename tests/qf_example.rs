use transducer::bexpr_evaluator::EvalError;
use transducer::qf_interpretation::{create_example_interpretation, evaluate, QfInterpretationError};

fn is_not_a_boolean(r: &Result<String, QfInterpretationError>) -> bool {
    matches!(r, Err(QfInterpretationError::Evaluation { error: EvalError::NotABoolean }))
}

// The example's formulas hold the literals "true" and "false", which are no
// truth values: every non-empty word stops at the first universe formula.
#[test]
fn test_evaluate() {
    let qf = create_example_interpretation();
    let result = evaluate(&qf, "abab".to_string());
    assert!(is_not_a_boolean(&result));
    let result = evaluate(&qf, "acab".to_string());
    assert!(is_not_a_boolean(&result));
    let result = evaluate(&qf, "aaaa".to_string());
    assert!(is_not_a_boolean(&result));
    let result = evaluate(&qf, "".to_string());
    assert_eq!(result.unwrap(), "");
    let result = evaluate(&qf, "a".to_string());
    assert!(is_not_a_boolean(&result));
}
