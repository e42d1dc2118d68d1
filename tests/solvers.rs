use transducer::ast::{Pexpr, Stmt};
use transducer::compile::compile_program;
use transducer::qf_pullback::{pullback, FoFormula, FormulaS};
use transducer::two_sorted_formulas::{
    fold_formula, test_output, DefaultAlphabet, DefaultLabel, FormulaF, FormulaR, SMTResult, SMTSolver, Sort,
    ToSmtSolver,
};

fn last_letter_is_a() -> FoFormula {
    FoFormula::Exists(
        "x".to_string(),
        Box::new(FoFormula::And(
            Box::new(FoFormula::Forall(
                "y".to_string(),
                Box::new(FoFormula::PosLessEqual("y".to_string(), "x".to_string())),
            )),
            Box::new(FoFormula::PosLetter("x".to_string(), "a".to_string())),
        )),
    )
}

fn identity_program() -> Vec<Stmt> {
    vec![Stmt::For0("i".to_string(), vec![Stmt::Print(Pexpr::Label("i".to_string()))])]
}

#[test]
fn pullback_of_last_letter_under_identity() {
    let qf = compile_program(&identity_program());
    let f = pullback(&last_letter_is_a(), &qf).expect("the pullback exists");
    match &f {
        FormulaR::Exists(lx, Sort::Label, inner) => {
            assert_eq!(lx, "lx");
            match &**inner {
                FormulaR::Exists(x1, Sort::Position, _) => assert_eq!(x1, "x1"),
                _ => panic!("expected a position quantifier"),
            }
        }
        _ => panic!("expected a label quantifier"),
    }
    let smt = f.to_smtlib();
    assert!(smt.starts_with("(exists ((lx Label)) (exists ((x1 Int)) (and (<= 0 x1) (< x1 len) "));
    assert!(smt.contains("(= (word x1) a) "));
    assert!(smt.contains("(forall ((ly Label))"));
    let problem = SMTSolver::Z3.produce_output(&f, &["a".to_string(), "b".to_string()], &["l0".to_string()]);
    assert!(problem.contains("(declare-datatype Label  ((l0)))"));
    assert!(problem.contains("(declare-datatype Letter ((blank) (a) (b)))"));
    assert!(problem.ends_with("(check-sat)\n"));
}

#[test]
fn pullback_fails_without_order_formulas() {
    let mut qf = compile_program(&identity_program());
    qf.order.clear();
    assert!(pullback(&FoFormula::PosLessEqual("x".to_string(), "y".to_string()), &qf).is_none());
}

#[test]
fn verdicts_of_each_solver() {
    assert_eq!(SMTSolver::Z3.parse_output("unsat\n"), Some(SMTResult::Valid));
    assert_eq!(SMTSolver::Z3.parse_output("sat\n"), Some(SMTResult::Invalid));
    assert_eq!(SMTSolver::CVC5.parse_output("unknown\n"), Some(SMTResult::Unknown));
    assert_eq!(SMTSolver::AltErgo.parse_output("File \"f.ae\", line 3: Valid (0.1s)"), Some(SMTResult::Valid));
    assert_eq!(SMTSolver::AltErgo.parse_output("I don't know"), Some(SMTResult::Invalid));
    assert_eq!(SMTSolver::AltErgo.parse_output("Unknown"), Some(SMTResult::Unknown));
    assert_eq!(SMTSolver::Mona.parse_output("Formula is valid"), Some(SMTResult::Valid));
    assert_eq!(SMTSolver::Mona.parse_output("Formula is unsatisfiable"), Some(SMTResult::Invalid));
    assert_eq!(SMTSolver::Mona.parse_output("A satisfying example"), Some(SMTResult::Unknown));
    assert_eq!(SMTSolver::Z3.parse_output("(error \"line 3\")"), None);
}

#[test]
fn commands_and_extensions() {
    assert_eq!(SMTSolver::AltErgo.command(), "alt-ergo");
    assert_eq!(SMTSolver::AltErgo.extension(), "ae");
    assert_eq!(SMTSolver::Z3.command(), "z3");
    assert_eq!(SMTSolver::CVC5.extension(), "smt2");
    assert_eq!(SMTSolver::Mona.extension(), "mona");
}

#[test]
fn emitters_relativize_position_quantifiers() {
    let f: FormulaR<DefaultAlphabet, DefaultLabel> =
        FormulaR::letter_at_pos("i".to_string(), DefaultAlphabet::B).exists_over("i".to_string(), Sort::Position);
    assert_eq!(f.to_alt_ergo(), "exists i : int. 0 <= i and i < len and (is_letter_B(i))");
    assert_eq!(f.to_smtlib(), "(exists ((i Int)) (and (<= 0 i) (< i len) (= (word i) B) ))");
    assert_eq!(f.to_mona(), "ex1 i: (i in W) & (i in LB)");
    let g: FormulaR<DefaultAlphabet, DefaultLabel> =
        FormulaR::less_equal("i".to_string(), "j".to_string()).forall_over("j".to_string(), Sort::Label);
    assert_eq!(g.to_alt_ergo(), "forall j : label. i <= j");
    assert_eq!(g.to_smtlib(), "(forall ((j Label)) (<= i j) )");
    assert_eq!(g.to_mona(), "all1 j: (j in L) => (i <= j)");
}

#[test]
fn label_and_variable_names() {
    let l = DefaultLabel { position: vec![0, 1, 2] };
    assert_eq!(l.to_smtlib(), "label-0-1-2");
    assert_eq!(l.to_mona(), "D0x1x2");
    assert_eq!(l.to_alt_ergo(), "D0_1_2");
    let v = ("x".to_string(), Sort::Position);
    assert_eq!(v.to_alt_ergo(), "px");
    assert_eq!(v.to_smtlib(), "pos-x");
    assert_eq!(("y".to_string(), Sort::Label).to_mona(), "label_y");
    assert_eq!(DefaultAlphabet::Hash.to_smtlib(), "Hash");
}

#[test]
fn problems_for_the_example_formula() {
    let (f, alphabet, labels) = test_output();
    let mona = SMTSolver::Mona.produce_output(&f, &alphabet, &labels);
    assert!(mona.starts_with("m2l-str;\nvar2 LA, LB, LC;\nvar2 D0x0x1, D0x1x0;\nvar2 W,L;\n"));
    assert!(mona.contains("assert (D0x0x1 = {0});\nassert (D0x1x0 = {1});\n"));
    assert!(mona.contains("assert (L = D0x0x1 union D0x1x0);\nassert (W = LA union LB union LC);\n"));
    let ae = SMTSolver::AltErgo.produce_output(&f, &alphabet, &labels);
    assert!(ae.contains("type label    =  D0_0_1 | D0_1_0\n"));
    assert!(ae.contains("type letter   = E | LA | LB | LC\n"));
    assert!(ae.contains("predicate is_letter_B(i:int) = word(i) = LB\n"));
    assert!(ae.contains("goal alt_ergo_goal: ((exists i : int."));
}

#[test]
fn fold_counts_the_nodes_of_a_formula() {
    let f: FormulaS = FormulaR::less_equal("x".to_string(), "y".to_string())
        .and(FormulaR::const_true())
        .not();
    let count = fold_formula(&f, &|node: &FormulaF<usize, String, String>| match node {
        FormulaF::And(a, b) | FormulaF::Or(a, b) | FormulaF::Implies(a, b) | FormulaF::Iff(a, b) => a + b + 1,
        FormulaF::Not(a) | FormulaF::Exists(_, _, a) | FormulaF::Forall(_, _, a) => a + 1,
        _ => 1,
    });
    assert_eq!(count, 4);
}
