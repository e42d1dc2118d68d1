//! The pullback of a first-order formula on the output word along a
//! quantifier-free interpretation: a two-sorted formula on the input word.
use vstd::prelude::*;
use crate::ast::{Bexpr, BexprV};
use crate::bexpr_evaluator::{false_name, letter_predicate, parse_letter_predicate, true_name};
use crate::qf_interpretation::{find_order, find_universe, QfInterpretation};
use crate::text::{char_string, chars_of, push_decimal, push_str, str_eq, decimal};
use crate::two_sorted_formulas::{FormulaR, Sort};

verus! {

/// A two-sorted formula whose letters and labels are names.
pub type FormulaS = FormulaR<String, String>;

/// The mathematical content of a `FormulaS`.
pub enum FormulaSV {
    Exists(Seq<char>, Sort, Box<FormulaSV>),
    Forall(Seq<char>, Sort, Box<FormulaSV>),
    And(Box<FormulaSV>, Box<FormulaSV>),
    Or(Box<FormulaSV>, Box<FormulaSV>),
    Implies(Box<FormulaSV>, Box<FormulaSV>),
    Iff(Box<FormulaSV>, Box<FormulaSV>),
    Not(Box<FormulaSV>),
    Equal(Sort, Seq<char>, Seq<char>),
    LessEqual(Seq<char>, Seq<char>),
    LetterAtPos(Seq<char>, Seq<char>),
    EqualConstant(Seq<char>, Seq<char>),
    True,
    False,
}

/// The view of a formula.
pub open spec fn fview(f: FormulaS) -> FormulaSV
    decreases f,
{
    match f {
        FormulaR::Exists(v, s, i) => FormulaSV::Exists(v@, s, Box::new(fview(*i))),
        FormulaR::Forall(v, s, i) => FormulaSV::Forall(v@, s, Box::new(fview(*i))),
        FormulaR::And(l, r) => FormulaSV::And(Box::new(fview(*l)), Box::new(fview(*r))),
        FormulaR::Or(l, r) => FormulaSV::Or(Box::new(fview(*l)), Box::new(fview(*r))),
        FormulaR::Implies(l, r) => FormulaSV::Implies(Box::new(fview(*l)), Box::new(fview(*r))),
        FormulaR::Iff(l, r) => FormulaSV::Iff(Box::new(fview(*l)), Box::new(fview(*r))),
        FormulaR::Not(i) => FormulaSV::Not(Box::new(fview(*i))),
        FormulaR::Equal(s, l, r) => FormulaSV::Equal(s, l@, r@),
        FormulaR::LessEqual(l, r) => FormulaSV::LessEqual(l@, r@),
        FormulaR::LetterAtPos(v, a) => FormulaSV::LetterAtPos(v@, a@),
        FormulaR::EqualConstant(v, c) => FormulaSV::EqualConstant(v@, c@),
        FormulaR::True => FormulaSV::True,
        FormulaR::False => FormulaSV::False,
    }
}

/// The view of an optional formula.
pub open spec fn oview(f: Option<FormulaS>) -> Option<FormulaSV> {
    match f {
        Some(g) => Some(fview(g)),
        None => None,
    }
}

/// The first index at or after `from` where `ch` occurs.
pub open spec fn index_of(s: Seq<char>, ch: char, from: int) -> Option<int>
    decreases s.len() - from,
{
    if from < 0 || from >= s.len() {
        None
    } else if s[from] == ch {
        Some(from)
    } else {
        index_of(s, ch, from + 1)
    }
}

/// `letter(var)`: the text before the first `(` and the text between it and
/// the first `)`, when that `)` comes after the `(`.
pub open spec fn letter_at_pos_parts(s: Seq<char>) -> Option<(Seq<char>, Seq<char>)> {
    match index_of(s, '(', 0) {
        None => None,
        Some(o) => match index_of(s, ')', 0) {
            None => None,
            Some(c) => if c > o {
                Some((s.subrange(0, o), s.subrange(o + 1, c)))
            } else {
                None
            },
        },
    }
}

/// The name of a variable or label operand.
pub open spec fn operand_name(b: BexprV) -> Option<Seq<char>> {
    match b {
        BexprV::Var(v) => Some(v),
        BexprV::Label(v) => Some(v),
        _ => None,
    }
}

/// `x <= y` over two operand names.
pub open spec fn less_equal_of(l: BexprV, r: BexprV) -> Option<FormulaSV> {
    match operand_name(l) {
        None => None,
        Some(a) => match operand_name(r) {
            None => None,
            Some(b) => Some(FormulaSV::LessEqual(a, b)),
        },
    }
}

pub open spec fn negated(f: Option<FormulaSV>) -> Option<FormulaSV> {
    match f {
        Some(g) => Some(FormulaSV::Not(Box::new(g))),
        None => None,
    }
}

/// An equality test: a label against a literal, in either order, is a
/// letter test; two variables are equal positions.
pub open spec fn equality_of(l: BexprV, r: BexprV) -> Option<FormulaSV> {
    match (l, r) {
        (BexprV::Label(v), BexprV::Str(c)) => Some(FormulaSV::LetterAtPos(v, c)),
        (BexprV::Str(c), BexprV::Label(v)) => Some(FormulaSV::LetterAtPos(v, c)),
        (BexprV::Var(a), BexprV::Var(b)) => Some(FormulaSV::Equal(Sort::Position, a, b)),
        _ => None,
    }
}

pub open spec fn binary_of(conj: bool, l: Option<FormulaSV>, r: Option<FormulaSV>) -> Option<FormulaSV> {
    match l {
        None => None,
        Some(a) => match r {
            None => None,
            Some(b) => Some(if conj {
                FormulaSV::And(Box::new(a), Box::new(b))
            } else {
                FormulaSV::Or(Box::new(a), Box::new(b))
            }),
        },
    }
}

/// The two-sorted formula of a boolean expression, when it has one: `T` and
/// `F` are the constants, a letter predicate `c(v)` a letter test, a
/// comparison of positions a comparison.
pub open spec fn to_formula(b: BexprV) -> Option<FormulaSV>
    decreases b,
{
    match b {
        BexprV::Var(v) => if v == true_name() {
            Some(FormulaSV::True)
        } else if v == false_name() {
            Some(FormulaSV::False)
        } else {
            Some(FormulaSV::Equal(Sort::Position, v, v))
        },
        BexprV::Str(s) => if s == true_name() {
            Some(FormulaSV::True)
        } else if s == false_name() {
            Some(FormulaSV::False)
        } else {
            match letter_at_pos_parts(s) {
                Some(p) => Some(FormulaSV::LetterAtPos(p.1, p.0)),
                None => None,
            }
        },
        BexprV::LessEqual(l, r) => less_equal_of(*l, *r),
        BexprV::Less(l, r) => negated(less_equal_of(*r, *l)),
        BexprV::Equal(l, r) => equality_of(*l, *r),
        BexprV::NotEqual(l, r) => negated(equality_of(*l, *r)),
        BexprV::GreaterEqual(l, r) => less_equal_of(*r, *l),
        BexprV::Greater(l, r) => negated(less_equal_of(*l, *r)),
        BexprV::Not(i) => negated(to_formula(*i)),
        BexprV::Label(_) => None,
        BexprV::And(l, r) => binary_of(true, to_formula(*l), to_formula(*r)),
        BexprV::Or(l, r) => binary_of(false, to_formula(*l), to_formula(*r)),
    }
}

fn find_char(s: &Vec<char>, ch: char) -> (r: Option<usize>)
    ensures
        match r {
            Some(i) => i < s@.len() && index_of(s@, ch, 0) == Some(i as int),
            None => index_of(s@, ch, 0) is None,
        },
{
    let mut i: usize = 0;
    while i < s.len()
        invariant
            i <= s@.len(),
            index_of(s@, ch, 0) == index_of(s@, ch, i as int),
        decreases s@.len() - i,
    {
        if s[i] == ch {
            return Some(i);
        }
        i = i + 1;
    }
    None
}

fn slice_string(s: &Vec<char>, from: usize, to: usize) -> (r: String)
    requires
        from <= to <= s@.len(),
    ensures
        r@ == s@.subrange(from as int, to as int),
{
    let mut out = String::new();
    let mut i: usize = from;
    while i < to
        invariant
            from <= i <= to <= s@.len(),
            out@ == s@.subrange(from as int, i as int),
        decreases to - i,
    {
        out.push(s[i]);
        i = i + 1;
        assert(out@ =~= s@.subrange(from as int, i as int));
    }
    out
}

/// Splits `letter(var)` into the letter and the variable.
pub fn parse_letter_at_pos(s: &str) -> (r: Option<(String, String)>)
    ensures
        match r {
            Some(p) => letter_at_pos_parts(s@) == Some((p.0@, p.1@)),
            None => letter_at_pos_parts(s@) is None,
        },
{
    let cs = chars_of(s);
    match find_char(&cs, '(') {
        None => None,
        Some(open_paren_index) => match find_char(&cs, ')') {
            None => None,
            Some(close_paren_index) => {
                if close_paren_index > open_paren_index {
                    let letter = slice_string(&cs, 0, open_paren_index);
                    let var_name = slice_string(&cs, open_paren_index + 1, close_paren_index);
                    Some((letter, var_name))
                } else {
                    None
                }
            },
        },
    }
}

fn extract_var_name(bexpr: &Bexpr) -> (r: Option<String>)
    ensures
        match r {
            Some(n) => operand_name(bexpr@) == Some(n@),
            None => operand_name(bexpr@) is None,
        },
{
    match bexpr {
        Bexpr::Var(var_name) => Some(var_name.clone()),
        Bexpr::Label(var_name) => Some(var_name.clone()),
        _ => None,
    }
}

/// The name of a position variable.
pub fn try_extract_position_variable(bexpr: &Bexpr) -> (r: Option<String>)
    ensures
        match r {
            Some(n) => bexpr@ == BexprV::Var(n@),
            None => !(bexpr is Var),
        },
{
    match bexpr {
        Bexpr::Var(var_name) => Some(var_name.clone()),
        _ => None,
    }
}

/// The variable of a label expression.
pub fn try_extract_label_variable(bexpr: &Bexpr) -> (r: Option<String>)
    ensures
        match r {
            Some(n) => bexpr@ == BexprV::Label(n@),
            None => !(bexpr is Label),
        },
{
    match bexpr {
        Bexpr::Label(var_name) => Some(var_name.clone()),
        _ => None,
    }
}

/// The text of a string literal.
pub fn try_extract_str(bexpr: &Bexpr) -> (r: Option<String>)
    ensures
        match r {
            Some(n) => bexpr@ == BexprV::Str(n@),
            None => !(bexpr is Str),
        },
{
    match bexpr {
        Bexpr::Str(s) => Some(s.clone()),
        _ => None,
    }
}

fn less_equal_formula(l: &Bexpr, r: &Bexpr) -> (f: Option<FormulaS>)
    ensures
        oview(f) == less_equal_of(l@, r@),
{
    match extract_var_name(l) {
        None => None,
        Some(a) => match extract_var_name(r) {
            None => None,
            Some(b) => Some(FormulaS::less_equal(a, b)),
        },
    }
}

fn negate(f: Option<FormulaS>) -> (r: Option<FormulaS>)
    ensures
        oview(r) == negated(oview(f)),
{
    match f {
        Some(g) => Some(g.not()),
        None => None,
    }
}

fn equality_formula(lhs: &Bexpr, rhs: &Bexpr) -> (f: Option<FormulaS>)
    ensures
        oview(f) == equality_of(lhs@, rhs@),
{
    if let Some(label) = try_extract_label_variable(lhs) {
        if let Some(letter) = try_extract_str(rhs) {
            return Some(FormulaS::letter_at_pos(label, letter));
        }
    }
    if let Some(letter) = try_extract_str(lhs) {
        if let Some(label) = try_extract_label_variable(rhs) {
            return Some(FormulaS::letter_at_pos(label, letter));
        }
    }
    if let Some(var1) = try_extract_position_variable(lhs) {
        if let Some(var2) = try_extract_position_variable(rhs) {
            return Some(FormulaS::equal(Sort::Position, var1, var2));
        }
    }
    None
}

fn is_single_char(s: &String, c: char) -> (r: bool)
    ensures
        r == (s@ == seq![c]),
{
    let t = s.as_str();
    if t.unicode_len() != 1 {
        return false;
    }
    let r = t.get_char(0) == c;
    assert(r ==> t@ =~= seq![c]);
    r
}

/// The two-sorted formula of a boolean expression, or `None` where it has
/// none (a bare label, a string that is no constant and no letter
/// predicate, a comparison of other operands).
pub fn bexpr_to_formula_s(bexpr: &Bexpr) -> (r: Option<FormulaS>)
    ensures
        oview(r) == to_formula(bexpr@),
    decreases bexpr,
{
    match bexpr {
        Bexpr::Var(var_name) => {
            if is_single_char(var_name, 'T') {
                Some(FormulaS::const_true())
            } else if is_single_char(var_name, 'F') {
                Some(FormulaS::const_false())
            } else {
                Some(FormulaS::equal(Sort::Position, var_name.clone(), var_name.clone()))
            }
        },
        Bexpr::Str(s) => {
            if is_single_char(s, 'T') {
                Some(FormulaS::const_true())
            } else if is_single_char(s, 'F') {
                Some(FormulaS::const_false())
            } else {
                match parse_letter_at_pos(s.as_str()) {
                    Some((letter, var_name)) => Some(FormulaS::letter_at_pos(var_name, letter)),
                    None => None,
                }
            }
        },
        Bexpr::LessEqual(lhs, rhs) => less_equal_formula(lhs, rhs),
        Bexpr::Less(lhs, rhs) => negate(less_equal_formula(rhs, lhs)),
        Bexpr::Equal(lhs, rhs) => equality_formula(lhs, rhs),
        Bexpr::NotEqual(lhs, rhs) => negate(equality_formula(lhs, rhs)),
        Bexpr::GreaterEqual(lhs, rhs) => less_equal_formula(rhs, lhs),
        Bexpr::Greater(lhs, rhs) => negate(less_equal_formula(lhs, rhs)),
        Bexpr::Not(inner) => negate(bexpr_to_formula_s(inner)),
        Bexpr::Label(_) => None,
        Bexpr::And(lhs, rhs) => match bexpr_to_formula_s(lhs) {
            None => None,
            Some(a) => match bexpr_to_formula_s(rhs) {
                None => None,
                Some(b) => Some(a.and(b)),
            },
        },
        Bexpr::Or(lhs, rhs) => match bexpr_to_formula_s(lhs) {
            None => None,
            Some(a) => match bexpr_to_formula_s(rhs) {
                None => None,
                Some(b) => Some(a.or(b)),
            },
        },
    }
}

/// A name with a leading `x` replaced by `nx` and a leading `y` by `ny`.
pub open spec fn subst_name(n: Seq<char>, nx: Seq<char>, ny: Seq<char>) -> Seq<char> {
    if n.len() > 0 && n[0] == 'x' {
        nx + n.drop_first()
    } else if n.len() > 0 && n[0] == 'y' {
        ny + n.drop_first()
    } else {
        n
    }
}

/// A literal with the variable of a letter predicate substituted.
pub open spec fn subst_str(s: Seq<char>, nx: Seq<char>, ny: Seq<char>) -> Seq<char> {
    match letter_predicate(s) {
        Some(p) => seq![p.0, '('] + subst_name(p.1, nx, ny) + seq![')'],
        None => s,
    }
}

/// An expression with the variables `x<i>` renamed `<nx><i>` and `y<i>`
/// renamed `<ny><i>`, also inside letter predicates.
pub open spec fn subst(b: BexprV, nx: Seq<char>, ny: Seq<char>) -> BexprV
    decreases b,
{
    match b {
        BexprV::Var(v) => BexprV::Var(subst_name(v, nx, ny)),
        BexprV::Label(v) => BexprV::Label(subst_name(v, nx, ny)),
        BexprV::Str(s) => BexprV::Str(subst_str(s, nx, ny)),
        BexprV::LessEqual(l, r) => BexprV::LessEqual(Box::new(subst(*l, nx, ny)), Box::new(subst(*r, nx, ny))),
        BexprV::Less(l, r) => BexprV::Less(Box::new(subst(*l, nx, ny)), Box::new(subst(*r, nx, ny))),
        BexprV::Equal(l, r) => BexprV::Equal(Box::new(subst(*l, nx, ny)), Box::new(subst(*r, nx, ny))),
        BexprV::NotEqual(l, r) => BexprV::NotEqual(Box::new(subst(*l, nx, ny)), Box::new(subst(*r, nx, ny))),
        BexprV::GreaterEqual(l, r) => BexprV::GreaterEqual(Box::new(subst(*l, nx, ny)), Box::new(subst(*r, nx, ny))),
        BexprV::Greater(l, r) => BexprV::Greater(Box::new(subst(*l, nx, ny)), Box::new(subst(*r, nx, ny))),
        BexprV::Not(i) => BexprV::Not(Box::new(subst(*i, nx, ny))),
        BexprV::And(l, r) => BexprV::And(Box::new(subst(*l, nx, ny)), Box::new(subst(*r, nx, ny))),
        BexprV::Or(l, r) => BexprV::Or(Box::new(subst(*l, nx, ny)), Box::new(subst(*r, nx, ny))),
    }
}

fn substitute_name(n: &str, name_x: &str, name_y: &str) -> (r: String)
    ensures
        r@ == subst_name(n@, name_x@, name_y@),
{
    let len = n.unicode_len();
    if len > 0 {
        let c = n.get_char(0);
        if c == 'x' || c == 'y' {
            let mut s = if c == 'x' { String::from_str(name_x) } else { String::from_str(name_y) };
            push_str(&mut s, n.substring_char(1, len));
            assert(n@.drop_first() =~= n@.subrange(1, len as int));
            return s;
        }
    }
    String::from_str(n)
}

fn substitute_str(s: &str, name_x: &str, name_y: &str) -> (r: String)
    ensures
        r@ == subst_str(s@, name_x@, name_y@),
{
    match parse_letter_predicate(s) {
        Some((c, var)) => {
            let mut out = char_string(c);
            out.push('(');
            let renamed = substitute_name(var, name_x, name_y);
            push_str(&mut out, renamed.as_str());
            out.push(')');
            assert(out@ =~= seq![c, '('] + renamed@ + seq![')']);
            out
        },
        None => String::from_str(s),
    }
}

/// Renames the variables `x<i>` to `<name_x><i>` and `y<i>` to
/// `<name_y><i>`, in positions, labels and letter predicates.
pub fn substitute_variables(formula: &Bexpr, name_x: &str, name_y: &str) -> (r: Bexpr)
    ensures
        r@ == subst(formula@, name_x@, name_y@),
    decreases formula,
{
    match formula {
        Bexpr::Var(v) => Bexpr::Var(substitute_name(v.as_str(), name_x, name_y)),
        Bexpr::Label(v) => Bexpr::Label(substitute_name(v.as_str(), name_x, name_y)),
        Bexpr::Str(s) => Bexpr::Str(substitute_str(s.as_str(), name_x, name_y)),
        Bexpr::LessEqual(left, right) => Bexpr::LessEqual(
            Box::new(substitute_variables(left, name_x, name_y)),
            Box::new(substitute_variables(right, name_x, name_y)),
        ),
        Bexpr::Less(left, right) => Bexpr::Less(
            Box::new(substitute_variables(left, name_x, name_y)),
            Box::new(substitute_variables(right, name_x, name_y)),
        ),
        Bexpr::Equal(left, right) => Bexpr::Equal(
            Box::new(substitute_variables(left, name_x, name_y)),
            Box::new(substitute_variables(right, name_x, name_y)),
        ),
        Bexpr::NotEqual(left, right) => Bexpr::NotEqual(
            Box::new(substitute_variables(left, name_x, name_y)),
            Box::new(substitute_variables(right, name_x, name_y)),
        ),
        Bexpr::GreaterEqual(left, right) => Bexpr::GreaterEqual(
            Box::new(substitute_variables(left, name_x, name_y)),
            Box::new(substitute_variables(right, name_x, name_y)),
        ),
        Bexpr::Greater(left, right) => Bexpr::Greater(
            Box::new(substitute_variables(left, name_x, name_y)),
            Box::new(substitute_variables(right, name_x, name_y)),
        ),
        Bexpr::Not(inner) => Bexpr::Not(Box::new(substitute_variables(inner, name_x, name_y))),
        Bexpr::And(left, right) => Bexpr::And(
            Box::new(substitute_variables(left, name_x, name_y)),
            Box::new(substitute_variables(right, name_x, name_y)),
        ),
        Bexpr::Or(left, right) => Bexpr::Or(
            Box::new(substitute_variables(left, name_x, name_y)),
            Box::new(substitute_variables(right, name_x, name_y)),
        ),
    }
}

/// A letter.
pub type Letter = String;

/// A variable over output positions.
pub type Variable = String;

/// One layer of a first-order formula over the output word, its
/// sub-formulas of type `T`.
#[derive(Debug)]
pub enum FoFormulaR<T> {
    And(T, T),
    Or(T, T),
    Not(T),
    Iff(T, T),
    Implies(T, T),
    Exists(Variable, T),
    Forall(Variable, T),
    /// `x <= y` on output positions.
    PosLessEqual(Variable, Variable),
    /// `a(x)`: the output letter at `x` is `a`.
    PosLetter(Variable, Letter),
}

/// A first-order formula over the output word.
#[derive(Debug)]
pub enum FoFormula {
    And(Box<FoFormula>, Box<FoFormula>),
    Or(Box<FoFormula>, Box<FoFormula>),
    Not(Box<FoFormula>),
    Iff(Box<FoFormula>, Box<FoFormula>),
    Implies(Box<FoFormula>, Box<FoFormula>),
    Exists(Variable, Box<FoFormula>),
    Forall(Variable, Box<FoFormula>),
    PosLessEqual(Variable, Variable),
    PosLetter(Variable, Letter),
}

/// The variable that holds the label of output position `v`.
pub open spec fn label_var(v: Seq<char>) -> Seq<char> {
    seq!['l'] + v
}

/// The name of label `i`.
pub open spec fn label_const(i: nat) -> Seq<char> {
    seq!['l'] + decimal(i)
}

/// `l<v> = l<i>`: output position `v` has label `i`.
pub open spec fn has_label(v: Seq<char>, i: nat) -> FormulaSV {
    FormulaSV::Equal(Sort::Label, label_var(v), label_const(i))
}

/// The universe formula of `label` on the positions `<var>1 ..`.
pub open spec fn universe_formula_spec(qf: QfInterpretation, label: usize, var: Seq<char>) -> Option<FormulaSV> {
    match find_universe(qf.universe@, label) {
        None => None,
        Some(e) => to_formula(subst(e@, var, Seq::empty())),
    }
}

/// The order formula of two labels on the positions `<vx>1 ..` and
/// `<vy>1 ..`.
pub open spec fn order_formula_spec(qf: QfInterpretation, lx: usize, ly: usize, vx: Seq<char>, vy: Seq<char>) -> Option<FormulaSV> {
    match find_order(qf.order@, lx, ly) {
        None => None,
        Some(e) => to_formula(subst(e@, vx, vy)),
    }
}

/// The first letter formula of `label` and `letter`.
pub open spec fn find_letter(l: Seq<(usize, String, Bexpr)>, label: usize, letter: Seq<char>) -> Option<Bexpr>
    decreases l.len(),
{
    if l.len() == 0 {
        None
    } else if l[0].0 == label && l[0].1@ == letter {
        Some(l[0].2)
    } else {
        find_letter(l.drop_first(), label, letter)
    }
}

/// The letter formula of `label` and `letter` on the positions `<var>1 ..`:
/// `Some(None)` when the label has none for that letter, `None` when it has
/// one with no two-sorted translation.
pub open spec fn letter_formula_spec(qf: QfInterpretation, label: usize, var: Seq<char>, letter: Seq<char>) -> Option<Option<FormulaSV>> {
    match find_letter(qf.letters@, label, letter) {
        None => Some(None),
        Some(e) => match to_formula(subst(e@, var, Seq::empty())) {
            None => None,
            Some(f) => Some(Some(f)),
        },
    }
}

/// The disjunction of the formulas, `False` when there are none.
pub open spec fn disjunction_spec(fs: Seq<FormulaSV>) -> FormulaSV
    decreases fs.len(),
{
    if fs.len() == 0 {
        FormulaSV::False
    } else if fs.len() == 1 {
        fs[0]
    } else {
        FormulaSV::Or(Box::new(disjunction_spec(fs.drop_last())), Box::new(fs.last()))
    }
}

/// The quantifiers over the positions `<var>k .. <var>n` around `f`.
pub open spec fn position_quantifiers(exists: bool, var: Seq<char>, k: nat, n: nat, f: FormulaSV) -> FormulaSV
    decreases n + 1 - k,
{
    if k > n || k == 0 {
        f
    } else {
        let inner = position_quantifiers(exists, var, k + 1, n, f);
        if exists {
            FormulaSV::Exists(var + decimal(k), Sort::Position, Box::new(inner))
        } else {
            FormulaSV::Forall(var + decimal(k), Sort::Position, Box::new(inner))
        }
    }
}

/// A quantifier over the label `l<var>` and the positions `<var>1 ..
/// <var>n` around `f`.
pub open spec fn quantified(exists: bool, var: Seq<char>, n: nat, f: FormulaSV) -> FormulaSV {
    let inner = position_quantifiers(exists, var, 1, n, f);
    if exists {
        FormulaSV::Exists(label_var(var), Sort::Label, Box::new(inner))
    } else {
        FormulaSV::Forall(label_var(var), Sort::Label, Box::new(inner))
    }
}

/// The disjuncts `universe(ℓ)(var) ∧ l<var> = ℓ` over the first `k` universe
/// entries.
pub open spec fn universe_disjuncts(qf: QfInterpretation, var: Seq<char>, k: nat) -> Option<Seq<FormulaSV>>
    decreases k,
{
    if k == 0 || k > qf.universe@.len() {
        Some(Seq::empty())
    } else {
        match universe_disjuncts(qf, var, (k - 1) as nat) {
            None => None,
            Some(acc) => {
                let label = qf.universe@[k - 1].0;
                match universe_formula_spec(qf, label, var) {
                    None => None,
                    Some(f) => Some(acc.push(FormulaSV::And(Box::new(f), Box::new(has_label(var, label as nat))))),
                }
            },
        }
    }
}

/// The disjuncts `l<v1> = ℓ1 ∧ l<v2> = ℓ2 ∧ order(ℓ1, ℓ2)` of row `l1`, for
/// the first `j` labels `ℓ2`.
pub open spec fn order_row(qf: QfInterpretation, v1: Seq<char>, v2: Seq<char>, l1: nat, j: nat) -> Option<Seq<FormulaSV>>
    decreases j,
{
    if j == 0 {
        Some(Seq::empty())
    } else {
        match order_row(qf, v1, v2, l1, (j - 1) as nat) {
            None => None,
            Some(acc) => match order_formula_spec(qf, l1 as usize, (j - 1) as usize, v1, v2) {
                None => None,
                Some(f) => Some(acc.push(FormulaSV::And(
                    Box::new(FormulaSV::And(Box::new(has_label(v1, l1)), Box::new(has_label(v2, (j - 1) as nat)))),
                    Box::new(f),
                ))),
            },
        }
    }
}

/// The disjuncts of the first `i` rows, over `n` labels.
pub open spec fn order_rows(qf: QfInterpretation, v1: Seq<char>, v2: Seq<char>, n: nat, i: nat) -> Option<Seq<FormulaSV>>
    decreases i,
{
    if i == 0 {
        Some(Seq::empty())
    } else {
        match order_rows(qf, v1, v2, n, (i - 1) as nat) {
            None => None,
            Some(acc) => match order_row(qf, v1, v2, (i - 1) as nat, n) {
                None => None,
                Some(row) => Some(acc + row),
            },
        }
    }
}

/// The disjuncts `l<var> = ℓ ∧ letter(ℓ, a)` over the first `k` labels that
/// have a formula for the letter.
pub open spec fn letter_disjuncts(qf: QfInterpretation, var: Seq<char>, letter: Seq<char>, k: nat) -> Option<Seq<FormulaSV>>
    decreases k,
{
    if k == 0 {
        Some(Seq::empty())
    } else {
        match letter_disjuncts(qf, var, letter, (k - 1) as nat) {
            None => None,
            Some(acc) => match letter_formula_spec(qf, (k - 1) as usize, var, letter) {
                None => None,
                Some(None) => Some(acc),
                Some(Some(f)) => Some(acc.push(FormulaSV::And(
                    Box::new(has_label(var, (k - 1) as nat)),
                    Box::new(f),
                ))),
            },
        }
    }
}

/// The largest arity, 0 when there are no labels.
pub open spec fn max_arity(a: Seq<usize>) -> nat
    decreases a.len(),
{
    if a.len() == 0 {
        0
    } else {
        let m = max_arity(a.drop_last());
        if a.last() as nat > m { a.last() as nat } else { m }
    }
}

pub open spec fn both(l: Option<FormulaSV>, r: Option<FormulaSV>, build: spec_fn(FormulaSV, FormulaSV) -> FormulaSV) -> Option<FormulaSV> {
    match l {
        None => None,
        Some(a) => match r {
            None => None,
            Some(b) => Some(build(a, b)),
        },
    }
}

/// The pullback of `psi` along `qf`: a formula on the input word that holds
/// iff `psi` holds of the output word. An output position `x` becomes a
/// label `l<x>` and input positions `<x>1 .. <x>N`, N the largest arity.
pub open spec fn pullback_spec(psi: FoFormula, qf: QfInterpretation) -> Option<FormulaSV>
    decreases psi,
{
    match psi {
        FoFormula::And(l, r) => both(pullback_spec(*l, qf), pullback_spec(*r, qf),
            |a: FormulaSV, b: FormulaSV| FormulaSV::And(Box::new(a), Box::new(b))),
        FoFormula::Or(l, r) => both(pullback_spec(*l, qf), pullback_spec(*r, qf),
            |a: FormulaSV, b: FormulaSV| FormulaSV::Or(Box::new(a), Box::new(b))),
        FoFormula::Iff(l, r) => both(pullback_spec(*l, qf), pullback_spec(*r, qf),
            |a: FormulaSV, b: FormulaSV| FormulaSV::Iff(Box::new(a), Box::new(b))),
        FoFormula::Implies(l, r) => both(pullback_spec(*l, qf), pullback_spec(*r, qf),
            |a: FormulaSV, b: FormulaSV| FormulaSV::Implies(Box::new(a), Box::new(b))),
        FoFormula::Not(i) => negated(pullback_spec(*i, qf)),
        FoFormula::Exists(v, i) => match pullback_spec(*i, qf) {
            None => None,
            Some(body) => match universe_disjuncts(qf, v@, qf.universe@.len()) {
                None => None,
                Some(ds) => Some(quantified(true, v@, max_arity(qf.arities@),
                    FormulaSV::And(Box::new(disjunction_spec(ds)), Box::new(body)))),
            },
        },
        FoFormula::Forall(v, i) => match pullback_spec(*i, qf) {
            None => None,
            Some(body) => match universe_disjuncts(qf, v@, qf.universe@.len()) {
                None => None,
                Some(ds) => Some(quantified(false, v@, max_arity(qf.arities@),
                    FormulaSV::Implies(Box::new(disjunction_spec(ds)), Box::new(body)))),
            },
        },
        FoFormula::PosLessEqual(v1, v2) => match order_rows(qf, v1@, v2@, qf.labels@.len(), qf.labels@.len()) {
            None => None,
            Some(ds) => Some(disjunction_spec(ds)),
        },
        FoFormula::PosLetter(v, a) => match letter_disjuncts(qf, v@, a@, qf.labels@.len()) {
            None => None,
            Some(ds) => Some(disjunction_spec(ds)),
        },
    }
}

fn empty_name() -> (r: &'static str)
    ensures
        r@ == Seq::<char>::empty(),
{
    let e = "";
    proof {
        reveal_strlit("");
    }
    assert(e@ =~= Seq::<char>::empty());
    e
}

fn translated(e: &Bexpr, var_x: &str, var_y: &str) -> (r: Option<FormulaS>)
    ensures
        oview(r) == to_formula(subst(e@, var_x@, var_y@)),
{
    bexpr_to_formula_s(&substitute_variables(e, var_x, var_y))
}

/// The universe formula of `label`, on the positions `<var_name>1 ..`.
pub fn universe_formula(qf: &QfInterpretation, label: usize, var_name: &str) -> (r: Option<FormulaS>)
    ensures
        oview(r) == universe_formula_spec(*qf, label, var_name@),
{
    let mut i: usize = 0;
    assert(qf.universe@.subrange(0, qf.universe@.len() as int) =~= qf.universe@);
    while i < qf.universe.len()
        invariant
            i <= qf.universe@.len(),
            find_universe(qf.universe@, label) == find_universe(qf.universe@.subrange(i as int, qf.universe@.len() as int), label),
        decreases qf.universe@.len() - i,
    {
        assert(qf.universe@.subrange(i as int, qf.universe@.len() as int).drop_first()
            =~= qf.universe@.subrange(i + 1, qf.universe@.len() as int));
        if qf.universe[i].0 == label {
            return translated(&qf.universe[i].1, var_name, empty_name());
        }
        i = i + 1;
    }
    None
}

/// The order formula of labels `lx` and `ly`, on the positions `<var_x>1 ..`
/// and `<var_y>1 ..`.
pub fn order_formula(qf: &QfInterpretation, lx: usize, ly: usize, var_x: &str, var_y: &str) -> (r: Option<FormulaS>)
    ensures
        oview(r) == order_formula_spec(*qf, lx, ly, var_x@, var_y@),
{
    let mut i: usize = 0;
    assert(qf.order@.subrange(0, qf.order@.len() as int) =~= qf.order@);
    while i < qf.order.len()
        invariant
            i <= qf.order@.len(),
            find_order(qf.order@, lx, ly) == find_order(qf.order@.subrange(i as int, qf.order@.len() as int), lx, ly),
        decreases qf.order@.len() - i,
    {
        assert(qf.order@.subrange(i as int, qf.order@.len() as int).drop_first()
            =~= qf.order@.subrange(i + 1, qf.order@.len() as int));
        if qf.order[i].0 == lx && qf.order[i].1 == ly {
            return translated(&qf.order[i].2, var_x, var_y);
        }
        i = i + 1;
    }
    None
}

/// The letter formula of label `l` and `letter`, on the positions
/// `<var>1 ..`: `Some(None)` when there is none, `None` when it has no
/// two-sorted translation.
pub fn letter_formula(qf: &QfInterpretation, l: usize, var: &str, letter: &str) -> (r: Option<Option<FormulaS>>)
    ensures
        match r {
            None => letter_formula_spec(*qf, l, var@, letter@) is None,
            Some(None) => letter_formula_spec(*qf, l, var@, letter@) == Some(None::<FormulaSV>),
            Some(Some(f)) => letter_formula_spec(*qf, l, var@, letter@) == Some(Some(fview(f))),
        },
{
    let mut i: usize = 0;
    assert(qf.letters@.subrange(0, qf.letters@.len() as int) =~= qf.letters@);
    while i < qf.letters.len()
        invariant
            i <= qf.letters@.len(),
            find_letter(qf.letters@, l, letter@) == find_letter(qf.letters@.subrange(i as int, qf.letters@.len() as int), l, letter@),
        decreases qf.letters@.len() - i,
    {
        assert(qf.letters@.subrange(i as int, qf.letters@.len() as int).drop_first()
            =~= qf.letters@.subrange(i + 1, qf.letters@.len() as int));
        if qf.letters[i].0 == l && str_eq(qf.letters[i].1.as_str(), letter) {
            return match translated(&qf.letters[i].2, var, empty_name()) {
                None => None,
                Some(f) => Some(Some(f)),
            };
        }
        i = i + 1;
    }
    Some(None)
}

/// The views of a list of formulas.
pub open spec fn fviews(v: Seq<FormulaS>) -> Seq<FormulaSV> {
    v.map_values(|f: FormulaS| fview(f))
}

/// The disjunction of the formulas, left to right; `False` when there are
/// none.
pub fn disjunction(vec: Vec<FormulaS>) -> (r: FormulaS)
    ensures
        fview(r) == disjunction_spec(fviews(vec@)),
{
    let ghost fs = fviews(vec@);
    if vec.len() == 0 {
        return FormulaS::const_false();
    }
    assert(fs.len() == vec@.len());
    let mut rest = vec;
    let mut f = rest.remove(0);
    let mut k: usize = 1;
    assert(fs.subrange(0, 1).drop_last() =~= Seq::<FormulaSV>::empty());
    assert(fviews(rest@) =~= fs.subrange(1, fs.len() as int));
    while rest.len() > 0
        invariant
            1 <= k <= fs.len(),
            k + rest@.len() == fs.len(),
            fs.len() <= usize::MAX,
            fviews(rest@) == fs.subrange(k as int, fs.len() as int),
            fview(f) == disjunction_spec(fs.subrange(0, k as int)),
        decreases rest@.len(),
    {
        let ghost before = rest@;
        assert(fviews(before).len() == rest@.len());
        let g = rest.remove(0);
        assert(fview(g) == fviews(before)[0]);
        assert(fviews(rest@) =~= fviews(before).drop_first());
        assert(fs.subrange(0, k + 1).drop_last() =~= fs.subrange(0, k as int));
        assert(fs.subrange(0, k + 1).last() == fs[k as int]);
        f = f.or(g);
        k = k + 1;
    }
    assert(fs.subrange(0, k as int) =~= fs);
    f
}

fn numbered(var: &str, i: usize) -> (r: String)
    ensures
        r@ == var@ + decimal(i as nat),
{
    let mut s = String::from_str(var);
    push_decimal(&mut s, i);
    s
}

fn label_var_name(var: &str) -> (r: String)
    ensures
        r@ == label_var(var@),
{
    let mut s = char_string('l');
    push_str(&mut s, var);
    s
}

fn label_const_name(i: usize) -> (r: String)
    ensures
        r@ == label_const(i as nat),
{
    let mut s = char_string('l');
    push_decimal(&mut s, i);
    s
}

fn quantify(exists: bool, var: &str, number: usize, formula: FormulaS) -> (r: FormulaS)
    ensures
        fview(r) == quantified(exists, var@, number as nat, fview(formula)),
{
    let ghost base = fview(formula);
    let mut f = formula;
    let mut i: usize = number;
    while i > 0
        invariant
            i <= number,
            fview(f) == position_quantifiers(exists, var@, (i + 1) as nat, number as nat, base),
        decreases i,
    {
        if exists {
            f = f.exists_over(numbered(var, i), Sort::Position);
        } else {
            f = f.forall_over(numbered(var, i), Sort::Position);
        }
        i = i - 1;
    }
    if exists {
        f.exists_over(label_var_name(var), Sort::Label)
    } else {
        f.forall_over(label_var_name(var), Sort::Label)
    }
}

/// `∃ l<var>:Label. ∃ <var>1 .. <var>number:Position. formula`.
pub fn quantify_exists(var: &str, number: usize, formula: FormulaS) -> (r: FormulaS)
    ensures
        fview(r) == quantified(true, var@, number as nat, fview(formula)),
{
    quantify(true, var, number, formula)
}

/// `∀ l<var>:Label. ∀ <var>1 .. <var>number:Position. formula`.
pub fn quantify_forall(var: &str, number: usize, formula: FormulaS) -> (r: FormulaS)
    ensures
        fview(r) == quantified(false, var@, number as nat, fview(formula)),
{
    quantify(false, var, number, formula)
}

fn label_equal(var: &str, i: usize) -> (r: FormulaS)
    ensures
        fview(r) == has_label(var@, i as nat),
{
    FormulaS::equal(Sort::Label, label_var_name(var), label_const_name(i))
}

fn max_arity_of(a: &Vec<usize>) -> (r: usize)
    ensures
        r as nat == max_arity(a@),
{
    let mut m: usize = 0;
    let mut i: usize = 0;
    assert(a@.subrange(0, 0) =~= Seq::<usize>::empty());
    while i < a.len()
        invariant
            i <= a@.len(),
            m as nat == max_arity(a@.subrange(0, i as int)),
        decreases a@.len() - i,
    {
        assert(a@.subrange(0, i + 1).drop_last() =~= a@.subrange(0, i as int));
        if a[i] > m {
            m = a[i];
        }
        i = i + 1;
    }
    assert(a@.subrange(0, i as int) =~= a@);
    m
}

fn universe_disjunction(qf: &QfInterpretation, var: &str) -> (r: Option<FormulaS>)
    ensures
        match universe_disjuncts(*qf, var@, qf.universe@.len()) {
            None => r is None,
            Some(ds) => r is Some && fview(r->0) == disjunction_spec(ds),
        },
{
    let mut parts: Vec<FormulaS> = Vec::new();
    let mut ok = true;
    let mut i: usize = 0;
    while i < qf.universe.len()
        invariant
            i <= qf.universe@.len(),
            ok ==> universe_disjuncts(*qf, var@, i as nat) == Some(fviews(parts@)),
            !ok ==> universe_disjuncts(*qf, var@, i as nat) is None,
        decreases qf.universe@.len() - i,
    {
        if ok {
            let label = qf.universe[i].0;
            match universe_formula(qf, label, var) {
                None => {
                    ok = false;
                },
                Some(f) => {
                    let ghost prev = parts@;
                    parts.push(f.and(label_equal(var, label)));
                    assert(fviews(parts@) =~= fviews(prev).push(fview(parts@.last())));
                },
            }
        }
        i = i + 1;
    }
    if ok {
        Some(disjunction(parts))
    } else {
        None
    }
}

fn order_disjunction(qf: &QfInterpretation, v1: &str, v2: &str) -> (r: Option<FormulaS>)
    ensures
        match order_rows(*qf, v1@, v2@, qf.labels@.len(), qf.labels@.len()) {
            None => r is None,
            Some(ds) => r is Some && fview(r->0) == disjunction_spec(ds),
        },
{
    let n = qf.labels.len();
    let mut parts: Vec<FormulaS> = Vec::new();
    let mut ok = true;
    let mut i: usize = 0;
    while i < n
        invariant
            n == qf.labels@.len(),
            i <= n,
            ok ==> order_rows(*qf, v1@, v2@, n as nat, i as nat) == Some(fviews(parts@)),
            !ok ==> order_rows(*qf, v1@, v2@, n as nat, i as nat) is None,
        decreases n - i,
    {
        let ghost row_start = fviews(parts@);
        let mut row_ok = ok;
        let mut j: usize = 0;
        while j < n
            invariant
                n == qf.labels@.len(),
                i < n,
                j <= n,
                row_ok ==> ok,
                ok ==> order_rows(*qf, v1@, v2@, n as nat, i as nat) == Some(row_start),
                row_ok ==> (order_row(*qf, v1@, v2@, i as nat, j as nat) matches Some(row)
                    && fviews(parts@) == row_start + row),
                ok && !row_ok ==> order_row(*qf, v1@, v2@, i as nat, j as nat) is None,
            decreases n - j,
        {
            if row_ok {
                match order_formula(qf, i, j, v1, v2) {
                    None => {
                        row_ok = false;
                    },
                    Some(f) => {
                        let ghost prev = parts@;
                        let both = label_equal(v1, i).and(label_equal(v2, j));
                        assert(fview(both) == FormulaSV::And(Box::new(has_label(v1@, i as nat)), Box::new(has_label(v2@, j as nat))));
                        let ghost fv = fview(f);
                        let entry = both.and(f);
                        assert(fview(entry) == FormulaSV::And(Box::new(fview(both)), Box::new(fv)));
                        parts.push(entry);
                        assert(fviews(parts@) =~= fviews(prev).push(fview(parts@.last())));
                        proof {
                            let row = order_row(*qf, v1@, v2@, i as nat, j as nat)->0;
                            assert(fviews(parts@) =~= row_start + row.push(fview(parts@.last())));
                        }
                    },
                }
            }
            j = j + 1;
        }
        if !row_ok {
            ok = false;
        }
        i = i + 1;
    }
    if ok {
        Some(disjunction(parts))
    } else {
        None
    }
}

fn letter_disjunction(qf: &QfInterpretation, var: &str, letter: &str) -> (r: Option<FormulaS>)
    ensures
        match letter_disjuncts(*qf, var@, letter@, qf.labels@.len()) {
            None => r is None,
            Some(ds) => r is Some && fview(r->0) == disjunction_spec(ds),
        },
{
    let mut parts: Vec<FormulaS> = Vec::new();
    let mut ok = true;
    let mut i: usize = 0;
    while i < qf.labels.len()
        invariant
            i <= qf.labels@.len(),
            ok ==> letter_disjuncts(*qf, var@, letter@, i as nat) == Some(fviews(parts@)),
            !ok ==> letter_disjuncts(*qf, var@, letter@, i as nat) is None,
        decreases qf.labels@.len() - i,
    {
        if ok {
            match letter_formula(qf, i, var, letter) {
                None => {
                    ok = false;
                },
                Some(None) => {},
                Some(Some(f)) => {
                    let ghost prev = parts@;
                    parts.push(label_equal(var, i).and(f));
                    assert(fviews(parts@) =~= fviews(prev).push(fview(parts@.last())));
                },
            }
        }
        i = i + 1;
    }
    if ok {
        Some(disjunction(parts))
    } else {
        None
    }
}

/// The pullback of the post-condition along the interpretation, or `None`
/// when the interpretation lacks a formula it needs or has one with no
/// two-sorted translation.
pub fn pullback(post_condition: &FoFormula, qf: &QfInterpretation) -> (r: Option<FormulaS>)
    ensures
        oview(r) == pullback_spec(*post_condition, *qf),
    decreases post_condition,
{
    match post_condition {
        FoFormula::And(left, right) => match (pullback(left, qf), pullback(right, qf)) {
            (Some(a), Some(b)) => Some(a.and(b)),
            _ => None,
        },
        FoFormula::Or(left, right) => match (pullback(left, qf), pullback(right, qf)) {
            (Some(a), Some(b)) => Some(a.or(b)),
            _ => None,
        },
        FoFormula::Iff(left, right) => match (pullback(left, qf), pullback(right, qf)) {
            (Some(a), Some(b)) => Some(a.iff(b)),
            _ => None,
        },
        FoFormula::Implies(left, right) => match (pullback(left, qf), pullback(right, qf)) {
            (Some(a), Some(b)) => Some(a.implies(b)),
            _ => None,
        },
        FoFormula::Not(inner) => match pullback(inner, qf) {
            Some(a) => Some(a.not()),
            None => None,
        },
        FoFormula::Exists(var, inner) => match pullback(inner, qf) {
            None => None,
            Some(body) => match universe_disjunction(qf, var.as_str()) {
                None => None,
                Some(d) => Some(quantify_exists(var.as_str(), max_arity_of(&qf.arities), d.and(body))),
            },
        },
        FoFormula::Forall(var, inner) => match pullback(inner, qf) {
            None => None,
            Some(body) => match universe_disjunction(qf, var.as_str()) {
                None => None,
                Some(d) => Some(quantify_forall(var.as_str(), max_arity_of(&qf.arities), d.implies(body))),
            },
        },
        FoFormula::PosLessEqual(var1, var2) => order_disjunction(qf, var1.as_str(), var2.as_str()),
        FoFormula::PosLetter(var, letter) => letter_disjunction(qf, var.as_str(), letter.as_str()),
    }
}

/// `b` is the layer `a` with each sub-formula `x` replaced by a `y` that `f`
/// gives for it, and its variables and letters copied.
pub open spec fn fo_layer_mapped<T, U, G: Fn(&T) -> U>(a: FoFormulaR<T>, b: FoFormulaR<U>, f: G) -> bool {
    match (a, b) {
        (FoFormulaR::And(x1, x2), FoFormulaR::And(y1, y2)) => f.ensures((&x1,), y1) && f.ensures((&x2,), y2),
        (FoFormulaR::Or(x1, x2), FoFormulaR::Or(y1, y2)) => f.ensures((&x1,), y1) && f.ensures((&x2,), y2),
        (FoFormulaR::Iff(x1, x2), FoFormulaR::Iff(y1, y2)) => f.ensures((&x1,), y1) && f.ensures((&x2,), y2),
        (FoFormulaR::Implies(x1, x2), FoFormulaR::Implies(y1, y2)) => f.ensures((&x1,), y1) && f.ensures((&x2,), y2),
        (FoFormulaR::Not(x), FoFormulaR::Not(y)) => f.ensures((&x,), y),
        (FoFormulaR::Exists(v, x), FoFormulaR::Exists(v2, y)) => v2 == v && f.ensures((&x,), y),
        (FoFormulaR::Forall(v, x), FoFormulaR::Forall(v2, y)) => v2 == v && f.ensures((&x,), y),
        (FoFormulaR::PosLessEqual(a1, a2), FoFormulaR::PosLessEqual(b1, b2)) => b1 == a1 && b2 == a2,
        (FoFormulaR::PosLetter(v, l), FoFormulaR::PosLetter(v2, l2)) => v2 == v && l2 == l,
        _ => false,
    }
}

/// Applies `f` to each sub-formula of one layer.
pub fn map_fo_formula<F: Fn(&T) -> S, S, T>(formula: &FoFormulaR<T>, f: &F) -> (r: FoFormulaR<S>)
    requires
        forall|x: &T| f.requires((x,)),
    ensures
        fo_layer_mapped(*formula, r, *f),
{
    match formula {
        FoFormulaR::And(left, right) => {
            let left = f(left);
            let right = f(right);
            FoFormulaR::And(left, right)
        },
        FoFormulaR::Or(left, right) => {
            let left = f(left);
            let right = f(right);
            FoFormulaR::Or(left, right)
        },
        FoFormulaR::Not(inner) => {
            let inner = f(inner);
            FoFormulaR::Not(inner)
        },
        FoFormulaR::Iff(left, right) => {
            let left = f(left);
            let right = f(right);
            FoFormulaR::Iff(left, right)
        },
        FoFormulaR::Implies(left, right) => {
            let left = f(left);
            let right = f(right);
            FoFormulaR::Implies(left, right)
        },
        FoFormulaR::Exists(var, inner) => {
            let inner = f(inner);
            FoFormulaR::Exists(var.clone(), inner)
        },
        FoFormulaR::Forall(var, inner) => {
            let inner = f(inner);
            FoFormulaR::Forall(var.clone(), inner)
        },
        FoFormulaR::PosLessEqual(var1, var2) => FoFormulaR::PosLessEqual(var1.clone(), var2.clone()),
        FoFormulaR::PosLetter(var, letter) => FoFormulaR::PosLetter(var.clone(), letter.clone()),
    }
}

/// `node` is the top layer of `formula` with each sub-formula replaced by
/// its fold.
pub open spec fn fo_folded_layer<T, F: Fn(FoFormulaR<T>) -> T>(formula: FoFormula, node: FoFormulaR<T>, f: F) -> bool
    decreases formula, 0int,
{
    match formula {
        FoFormula::And(l, r) => node matches FoFormulaR::And(x, y) && fo_folds_to(*l, f, x) && fo_folds_to(*r, f, y),
        FoFormula::Or(l, r) => node matches FoFormulaR::Or(x, y) && fo_folds_to(*l, f, x) && fo_folds_to(*r, f, y),
        FoFormula::Iff(l, r) => node matches FoFormulaR::Iff(x, y) && fo_folds_to(*l, f, x) && fo_folds_to(*r, f, y),
        FoFormula::Implies(l, r) => node matches FoFormulaR::Implies(x, y) && fo_folds_to(*l, f, x) && fo_folds_to(*r, f, y),
        FoFormula::Not(i) => node matches FoFormulaR::Not(x) && fo_folds_to(*i, f, x),
        FoFormula::Exists(v, i) => node matches FoFormulaR::Exists(v2, x) && v2 == v && fo_folds_to(*i, f, x),
        FoFormula::Forall(v, i) => node matches FoFormulaR::Forall(v2, x) && v2 == v && fo_folds_to(*i, f, x),
        FoFormula::PosLessEqual(a1, a2) => node == FoFormulaR::<T>::PosLessEqual(a1, a2),
        FoFormula::PosLetter(v, l) => node == FoFormulaR::<T>::PosLetter(v, l),
    }
}

/// `r` is the bottom-up fold of `f` over `formula`.
pub open spec fn fo_folds_to<T, F: Fn(FoFormulaR<T>) -> T>(formula: FoFormula, f: F, r: T) -> bool
    decreases formula, 1int,
{
    exists|node: FoFormulaR<T>| #![trigger f.ensures((node,), r)] f.ensures((node,), r) && fo_folded_layer(formula, node, f)
}

/// The bottom-up fold of `f` over a formula: each layer is handed to `f`
/// with its sub-formulas already folded.
pub fn fold_fo_formula<F: Fn(FoFormulaR<T>) -> T, T>(formula: &FoFormula, f: &F) -> (r: T)
    requires
        forall|n: FoFormulaR<T>| f.requires((n,)),
    ensures
        fo_folds_to(*formula, *f, r),
    decreases formula,
{
    let node: FoFormulaR<T> = match formula {
        FoFormula::And(l, r) => FoFormulaR::And(fold_fo_formula(l, f), fold_fo_formula(r, f)),
        FoFormula::Or(l, r) => FoFormulaR::Or(fold_fo_formula(l, f), fold_fo_formula(r, f)),
        FoFormula::Iff(l, r) => FoFormulaR::Iff(fold_fo_formula(l, f), fold_fo_formula(r, f)),
        FoFormula::Implies(l, r) => FoFormulaR::Implies(fold_fo_formula(l, f), fold_fo_formula(r, f)),
        FoFormula::Not(i) => FoFormulaR::Not(fold_fo_formula(i, f)),
        FoFormula::Exists(v, i) => FoFormulaR::Exists(v.clone(), fold_fo_formula(i, f)),
        FoFormula::Forall(v, i) => FoFormulaR::Forall(v.clone(), fold_fo_formula(i, f)),
        FoFormula::PosLessEqual(a, b) => FoFormulaR::PosLessEqual(a.clone(), b.clone()),
        FoFormula::PosLetter(v, l) => FoFormulaR::PosLetter(v.clone(), l.clone()),
    };
    let ghost g = node;
    let r = f(node);
    assert(f.ensures((g,), r) && fo_folded_layer(*formula, g, *f));
    r
}

} // verus!
