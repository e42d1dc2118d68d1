use transducer::ast::{Bexpr, Pexpr, Stmt};
use transducer::compile::compile_program;
use transducer::qf_interpretation::{evaluate, OutputPosition, QfInterpretation, QfInterpretationError};

fn identity() -> QfInterpretation {
    compile_program(&vec![Stmt::For0("i".to_string(), vec![Stmt::Print(Pexpr::Label("i".to_string()))])])
}

#[test]
fn missing_universe_formula() {
    let mut qf = identity();
    qf.universe.clear();
    assert!(matches!(evaluate(&qf, "a".to_string()), Err(QfInterpretationError::MissingUniverseFormula { label: 0 })));
}

#[test]
fn missing_order_formula() {
    let mut qf = identity();
    qf.order.clear();
    assert!(matches!(
        evaluate(&qf, "ab".to_string()),
        Err(QfInterpretationError::MissingOrderFormula { label_a: 0, label_b: 0 })
    ));
}

#[test]
fn no_letter_outside_the_alphabet() {
    let qf = identity();
    match evaluate(&qf, "ac".to_string()) {
        Err(QfInterpretationError::NoLetter { word, position }) => {
            assert_eq!(word, "ac");
            assert_eq!(position.label, 0);
            assert_eq!(position.vars, vec![1]);
        }
        other => panic!("unexpected {:?}", other),
    }
}

#[test]
fn too_many_letters_for_a_two_letter_literal() {
    let qf = compile_program(&vec![Stmt::Print(Pexpr::Str("ab".to_string()))]);
    match evaluate(&qf, "".to_string()) {
        Err(QfInterpretationError::TooManyLetters { values, .. }) => {
            assert_eq!(values, vec!["a".to_string(), "b".to_string()]);
        }
        other => panic!("unexpected {:?}", other),
    }
}

#[test]
fn getters_on_single_positions() {
    let qf = identity();
    let p0 = OutputPosition { label: 0, vars: vec![0] };
    let p1 = OutputPosition { label: 0, vars: vec![1] };
    assert_eq!(qf.get_universe("ab".to_string(), &p0).unwrap(), true);
    assert_eq!(qf.get_order("ab".to_string(), &p0, &p1).unwrap(), true);
    assert_eq!(qf.get_order("ab".to_string(), &p1, &p0).unwrap(), false);
    assert_eq!(qf.get_letter("ab".to_string(), &p1).unwrap(), "b");
}

#[test]
fn compiled_formulas_use_canonical_names() {
    let guard = Bexpr::Less(Box::new(Bexpr::Var("i".to_string())), Box::new(Bexpr::Var("j".to_string())));
    let program = vec![Stmt::For0(
        "i".to_string(),
        vec![Stmt::For1("j".to_string(), vec![Stmt::If(guard, vec![Stmt::Print(Pexpr::Label("j".to_string()))])])],
    )];
    let qf = compile_program(&program);
    assert_eq!(qf.arities, vec![2]);
    assert_eq!(qf.labels, vec!["[0, 0, 0, 0]".to_string()]);
    assert_eq!(qf.universe[0].1.to_text(), "(x1 < x2)");
    assert_eq!(qf.letters[1].1, "b");
    assert_eq!(qf.letters[1].2, Bexpr::Str("b(x2)".to_string()));
    assert_eq!(qf.order[0].2.to_text(), "( (x1 < y1) || ( (x1 == y1) && (x2 >= y2) ) )");
}

#[test]
fn order_is_total_and_letters_partition_on_a_word() {
    let program = vec![Stmt::For0("i".to_string(), vec![
        Stmt::Print(Pexpr::Label("i".to_string())),
        Stmt::Print(Pexpr::Str("#".to_string())),
    ])];
    let qf = compile_program(&program);
    let word = "ab#".to_string();
    for la in 0..2usize {
        for lb in 0..2usize {
            for x in 0..3usize {
                for y in 0..3usize {
                    let a = OutputPosition { label: la, vars: vec![x] };
                    let b = OutputPosition { label: lb, vars: vec![y] };
                    let ab = qf.get_order(word.clone(), &a, &b).unwrap();
                    let ba = qf.get_order(word.clone(), &b, &a).unwrap();
                    assert!(ab || ba);
                }
            }
        }
    }
    let mut positions = Vec::new();
    for l in 0..2usize {
        for x in 0..3usize {
            positions.push(OutputPosition { label: l, vars: vec![x] });
        }
    }
    for p in &positions {
        for q in &positions {
            for r in &positions {
                let pq = qf.get_order(word.clone(), p, q).unwrap();
                let qr = qf.get_order(word.clone(), q, r).unwrap();
                if pq && qr {
                    assert!(qf.get_order(word.clone(), p, r).unwrap());
                }
            }
        }
    }
    assert_eq!(evaluate(&qf, word).unwrap(), "a#b###");
}
