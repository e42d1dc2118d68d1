//! Evaluation of boolean expressions under a position environment and an
//! input word.
use vstd::prelude::*;
use crate::ast::{Bexpr, BexprV};
use crate::text::{char_string, str_eq};

verus! {

/// The value of an expression: a number (a position or a truth value) or a
/// string.
#[derive(Debug)]
pub enum Value {
    Number(usize),
    Str(String),
}

/// The mathematical value of an expression.
pub enum Val {
    Num(nat),
    Text(Seq<char>),
}

impl View for Value {
    type V = Val;

    open spec fn view(&self) -> Val {
        match self {
            Value::Number(n) => Val::Num(*n as nat),
            Value::Str(s) => Val::Text(s@),
        }
    }
}

/// Why an expression has no value.
#[derive(Debug, Clone, Copy, PartialEq, Eq, Structural)]
pub enum EvalError {
    /// A variable that the environment does not bind.
    UnboundVariable,
    /// A position outside the input word.
    IndexOutOfBounds,
    /// A comparison between values that cannot be compared.
    InvalidComparison,
    /// A string where a truth value is expected.
    NotABoolean,
    /// A number where a string is to be printed.
    NotAString,
}

/// An environment: variable names with the positions bound to them.
pub type Env = Seq<(Seq<char>, usize)>;

/// The position bound to `name`: the first binding of that name.
pub open spec fn lookup(env: Env, name: Seq<char>) -> Option<usize>
    decreases env.len(),
{
    if env.len() == 0 {
        None
    } else if env[0].0 == name {
        Some(env[0].1)
    } else {
        lookup(env.drop_first(), name)
    }
}

/// The environment that a list of bindings denotes.
pub open spec fn env_of(vars: Seq<(String, usize)>) -> Env {
    vars.map_values(|b: (String, usize)| (b.0@, b.1))
}

/// The name `T`, which denotes truth.
pub open spec fn true_name() -> Seq<char> {
    seq!['T']
}

/// The name `F`, which denotes falsity.
pub open spec fn false_name() -> Seq<char> {
    seq!['F']
}

/// Whether `c` is a letter that a letter predicate `c(v)` may test.
pub open spec fn is_predicate_letter(c: char) -> bool {
    c == 'a' || c == 'b' || c == '#'
}

/// A letter predicate `c(v)`: the letter `c` and the variable `v`.
pub open spec fn letter_predicate(s: Seq<char>) -> Option<(char, Seq<char>)> {
    if s.len() > 2 && is_predicate_letter(s[0]) && s[1] == '(' && s[s.len() - 1] == ')' {
        Some((s[0], s.subrange(2, s.len() - 1)))
    } else {
        None
    }
}

/// The input letter at the position bound to `name`.
pub open spec fn letter_at(word: Seq<char>, env: Env, name: Seq<char>) -> Result<char, EvalError> {
    match lookup(env, name) {
        None => Err(EvalError::UnboundVariable),
        Some(p) => if p < word.len() {
            Ok(word[p as int])
        } else {
            Err(EvalError::IndexOutOfBounds)
        },
    }
}

/// The truth value `b` as a number.
pub open spec fn truth(b: bool) -> Val {
    Val::Num(if b { 1 } else { 0 })
}

/// The six comparisons.
pub enum Rel {
    Le,
    Lt,
    Eq,
    Ne,
    Ge,
    Gt,
}

pub open spec fn rel_holds(rel: Rel, x: nat, y: nat) -> bool {
    match rel {
        Rel::Le => x <= y,
        Rel::Lt => x < y,
        Rel::Eq => x == y,
        Rel::Ne => x != y,
        Rel::Ge => x >= y,
        Rel::Gt => x > y,
    }
}

/// A label expression compared with a string literal, in either order.
pub open spec fn label_against_literal(l: BexprV, r: BexprV) -> bool {
    (l is Label && r is Str) || (l is Str && r is Label)
}

/// The value of a comparison, given the values of its two sides.
pub open spec fn compare(
    rel: Rel,
    l: BexprV,
    r: BexprV,
    lv: Result<Val, EvalError>,
    rv: Result<Val, EvalError>,
) -> Result<Val, EvalError> {
    match lv {
        Err(e) => Err(e),
        Ok(a) => match rv {
            Err(e) => Err(e),
            Ok(b) => match a {
                Val::Num(x) => match b {
                    Val::Num(y) => Ok(truth(rel_holds(rel, x, y))),
                    Val::Text(_) => Err(EvalError::InvalidComparison),
                },
                Val::Text(x) => match b {
                    Val::Num(_) => Err(EvalError::InvalidComparison),
                    Val::Text(y) => if label_against_literal(l, r) && rel is Eq {
                        Ok(truth(x == y))
                    } else if label_against_literal(l, r) && rel is Ne {
                        Ok(truth(x != y))
                    } else {
                        Err(EvalError::InvalidComparison)
                    },
                },
            },
        },
    }
}

/// The value of a connective on two truth values.
pub open spec fn connect(
    conj: bool,
    lv: Result<Val, EvalError>,
    rv: Result<Val, EvalError>,
) -> Result<Val, EvalError> {
    match lv {
        Err(e) => Err(e),
        Ok(a) => match rv {
            Err(e) => Err(e),
            Ok(b) => match a {
                Val::Num(x) => match b {
                    Val::Num(y) => Ok(truth(if conj { x != 0 && y != 0 } else { x != 0 || y != 0 })),
                    Val::Text(_) => Err(EvalError::NotABoolean),
                },
                Val::Text(_) => Err(EvalError::NotABoolean),
            },
        },
    }
}

/// The value of an expression under an environment and an input word.
pub open spec fn resolve(e: BexprV, word: Seq<char>, env: Env) -> Result<Val, EvalError>
    decreases e,
{
    match e {
        BexprV::Var(name) => if name == true_name() {
            Ok(Val::Num(1))
        } else if name == false_name() {
            Ok(Val::Num(0))
        } else {
            match lookup(env, name) {
                Some(p) => Ok(Val::Num(p as nat)),
                None => Err(EvalError::UnboundVariable),
            }
        },
        BexprV::Str(s) => if s == true_name() {
            Ok(Val::Num(1))
        } else if s == false_name() {
            Ok(Val::Num(0))
        } else {
            match letter_predicate(s) {
                Some(p) => match letter_at(word, env, p.1) {
                    Ok(c) => Ok(truth(c == p.0)),
                    Err(err) => Err(err),
                },
                None => Ok(Val::Text(s)),
            }
        },
        BexprV::Label(name) => match letter_at(word, env, name) {
            Ok(c) => Ok(Val::Text(seq![c])),
            Err(err) => Err(err),
        },
        BexprV::LessEqual(l, r) => compare(Rel::Le, *l, *r, resolve(*l, word, env), resolve(*r, word, env)),
        BexprV::Less(l, r) => compare(Rel::Lt, *l, *r, resolve(*l, word, env), resolve(*r, word, env)),
        BexprV::Equal(l, r) => compare(Rel::Eq, *l, *r, resolve(*l, word, env), resolve(*r, word, env)),
        BexprV::NotEqual(l, r) => compare(Rel::Ne, *l, *r, resolve(*l, word, env), resolve(*r, word, env)),
        BexprV::GreaterEqual(l, r) => compare(Rel::Ge, *l, *r, resolve(*l, word, env), resolve(*r, word, env)),
        BexprV::Greater(l, r) => compare(Rel::Gt, *l, *r, resolve(*l, word, env), resolve(*r, word, env)),
        BexprV::Not(inner) => match resolve(*inner, word, env) {
            Err(err) => Err(err),
            Ok(Val::Num(n)) => Ok(truth(n == 0)),
            Ok(Val::Text(_)) => Err(EvalError::NotABoolean),
        },
        BexprV::And(l, r) => connect(true, resolve(*l, word, env), resolve(*r, word, env)),
        BexprV::Or(l, r) => connect(false, resolve(*l, word, env), resolve(*r, word, env)),
    }
}

/// The truth value of an expression: a non-zero number is true, a string is
/// an error.
pub open spec fn holds(e: BexprV, word: Seq<char>, env: Env) -> Result<bool, EvalError> {
    match resolve(e, word, env) {
        Err(err) => Err(err),
        Ok(Val::Num(n)) => Ok(n != 0),
        Ok(Val::Text(_)) => Err(EvalError::NotABoolean),
    }
}

pub open spec fn value_result(r: Result<Value, EvalError>) -> Result<Val, EvalError> {
    match r {
        Ok(v) => Ok(v@),
        Err(e) => Err(e),
    }
}

/// Evaluates boolean expressions on one word under one environment.
pub struct Evaluator {
    /// The bound variables; the first binding of a name is the one in force.
    pub variables: Vec<(String, usize)>,
    pub word: String,
}

fn is_single(s: &str, c: char) -> (r: bool)
    ensures
        r == (s@ == seq![c]),
{
    if s.unicode_len() != 1 {
        return false;
    }
    let r = s.get_char(0) == c;
    assert(r ==> s@ =~= seq![c]);
    r
}

fn truth_value(b: bool) -> (v: Value)
    ensures
        v@ == truth(b),
{
    if b { Value::Number(1) } else { Value::Number(0) }
}

/// Splits a letter predicate `c(v)` into `c` and `v`.
pub fn parse_letter_predicate(s: &str) -> (r: Option<(char, &str)>)
    ensures
        match r {
            Some(p) => letter_predicate(s@) == Some((p.0, p.1@)),
            None => letter_predicate(s@) is None,
        },
{
    let n = s.unicode_len();
    if n > 2 {
        let c = s.get_char(0);
        if (c == 'a' || c == 'b' || c == '#') && s.get_char(1) == '(' && s.get_char(n - 1) == ')' {
            return Some((c, s.substring_char(2, n - 1)));
        }
    }
    None
}


impl Evaluator {
    /// The environment of this evaluator.
    pub open spec fn env(&self) -> Env {
        env_of(self.variables@)
    }

    /// The truth value of `expr`.
    pub fn eval(&mut self, expr: &Bexpr) -> (r: Result<bool, EvalError>)
        ensures
            *final(self) == *old(self),
            r == holds(expr@, old(self).word@, old(self).env()),
    {
        self.evaluate_condition(expr)
    }

    fn lookup(&self, name: &str) -> (r: Option<usize>)
        ensures
            r == lookup(self.env(), name@),
    {
        let mut i: usize = 0;
        assert(self.env().subrange(0, self.env().len() as int) =~= self.env());
        while i < self.variables.len()
            invariant
                i <= self.variables@.len(),
                lookup(self.env(), name@) == lookup(self.env().subrange(i as int, self.env().len() as int), name@),
            decreases self.variables@.len() - i,
        {
            let ghost rest = self.env().subrange(i as int, self.env().len() as int);
            assert(rest.drop_first() =~= self.env().subrange(i + 1, self.env().len() as int));
            if str_eq(self.variables[i].0.as_str(), name) {
                return Some(self.variables[i].1);
            }
            i = i + 1;
        }
        None
    }

    /// The input letter at the position bound to `name`.
    pub fn letter(&self, name: &str) -> (r: Result<char, EvalError>)
        ensures
            r == letter_at(self.word@, self.env(), name@),
    {
        self.letter_at(name)
    }

    fn letter_at(&self, name: &str) -> (r: Result<char, EvalError>)
        ensures
            r == letter_at(self.word@, self.env(), name@),
    {
        match self.lookup(name) {
            None => Err(EvalError::UnboundVariable),
            Some(p) => {
                if p < self.word.as_str().unicode_len() {
                    Ok(self.word.as_str().get_char(p))
                } else {
                    Err(EvalError::IndexOutOfBounds)
                }
            },
        }
    }

    fn compare(rel: Rel, l: &Bexpr, r: &Bexpr, lv: Value, rv: Value) -> (v: Result<Value, EvalError>)
        ensures
            value_result(v) == compare(rel, l@, r@, Ok(lv@), Ok(rv@)),
    {
        match lv {
            Value::Number(x) => match rv {
                Value::Number(y) => Ok(truth_value(match rel {
                    Rel::Le => x <= y,
                    Rel::Lt => x < y,
                    Rel::Eq => x == y,
                    Rel::Ne => x != y,
                    Rel::Ge => x >= y,
                    Rel::Gt => x > y,
                })),
                Value::Str(_) => Err(EvalError::InvalidComparison),
            },
            Value::Str(x) => match rv {
                Value::Number(_) => Err(EvalError::InvalidComparison),
                Value::Str(y) => {
                    let admitted = match (l, r) {
                        (Bexpr::Label(_), Bexpr::Str(_)) => true,
                        (Bexpr::Str(_), Bexpr::Label(_)) => true,
                        _ => false,
                    };
                    if !admitted {
                        Err(EvalError::InvalidComparison)
                    } else {
                        match rel {
                            Rel::Eq => Ok(truth_value(str_eq(x.as_str(), y.as_str()))),
                            Rel::Ne => Ok(truth_value(!str_eq(x.as_str(), y.as_str()))),
                            _ => Err(EvalError::InvalidComparison),
                        }
                    }
                },
            },
        }
    }

    fn connect(conj: bool, lv: Value, rv: Value) -> (v: Result<Value, EvalError>)
        ensures
            value_result(v) == connect(conj, Ok(lv@), Ok(rv@)),
    {
        match (lv, rv) {
            (Value::Number(x), Value::Number(y)) => Ok(truth_value(
                if conj { x != 0 && y != 0 } else { x != 0 || y != 0 },
            )),
            _ => Err(EvalError::NotABoolean),
        }
    }

    fn evaluate_bexpr(&self, expr: &Bexpr) -> (v: Result<Value, EvalError>)
        ensures
            value_result(v) == resolve(expr@, self.word@, self.env()),
        decreases expr,
    {
        match expr {
            Bexpr::Var(name) => {
                if is_single(name.as_str(), 'T') {
                    Ok(Value::Number(1))
                } else if is_single(name.as_str(), 'F') {
                    Ok(Value::Number(0))
                } else {
                    match self.lookup(name.as_str()) {
                        Some(p) => Ok(Value::Number(p)),
                        None => Err(EvalError::UnboundVariable),
                    }
                }
            },
            Bexpr::Str(s) => {
                if is_single(s.as_str(), 'T') {
                    Ok(Value::Number(1))
                } else if is_single(s.as_str(), 'F') {
                    Ok(Value::Number(0))
                } else {
                    match parse_letter_predicate(s.as_str()) {
                        Some((c, var)) => match self.letter_at(var) {
                            Ok(ch) => Ok(truth_value(ch == c)),
                            Err(e) => Err(e),
                        },
                        None => Ok(Value::Str(s.clone())),
                    }
                }
            },
            Bexpr::Label(name) => match self.letter_at(name.as_str()) {
                Ok(ch) => Ok(Value::Str(char_string(ch))),
                Err(e) => Err(e),
            },
            Bexpr::LessEqual(l, r) => {
                let lv = match self.evaluate_bexpr(l) {
                    Err(e) => return Err(e),
                    Ok(v) => v,
                };
                let rv = match self.evaluate_bexpr(r) {
                    Err(e) => return Err(e),
                    Ok(v) => v,
                };
                Self::compare(Rel::Le, l, r, lv, rv)
            },
            Bexpr::Less(l, r) => {
                let lv = match self.evaluate_bexpr(l) {
                    Err(e) => return Err(e),
                    Ok(v) => v,
                };
                let rv = match self.evaluate_bexpr(r) {
                    Err(e) => return Err(e),
                    Ok(v) => v,
                };
                Self::compare(Rel::Lt, l, r, lv, rv)
            },
            Bexpr::Equal(l, r) => {
                let lv = match self.evaluate_bexpr(l) {
                    Err(e) => return Err(e),
                    Ok(v) => v,
                };
                let rv = match self.evaluate_bexpr(r) {
                    Err(e) => return Err(e),
                    Ok(v) => v,
                };
                Self::compare(Rel::Eq, l, r, lv, rv)
            },
            Bexpr::NotEqual(l, r) => {
                let lv = match self.evaluate_bexpr(l) {
                    Err(e) => return Err(e),
                    Ok(v) => v,
                };
                let rv = match self.evaluate_bexpr(r) {
                    Err(e) => return Err(e),
                    Ok(v) => v,
                };
                Self::compare(Rel::Ne, l, r, lv, rv)
            },
            Bexpr::GreaterEqual(l, r) => {
                let lv = match self.evaluate_bexpr(l) {
                    Err(e) => return Err(e),
                    Ok(v) => v,
                };
                let rv = match self.evaluate_bexpr(r) {
                    Err(e) => return Err(e),
                    Ok(v) => v,
                };
                Self::compare(Rel::Ge, l, r, lv, rv)
            },
            Bexpr::Greater(l, r) => {
                let lv = match self.evaluate_bexpr(l) {
                    Err(e) => return Err(e),
                    Ok(v) => v,
                };
                let rv = match self.evaluate_bexpr(r) {
                    Err(e) => return Err(e),
                    Ok(v) => v,
                };
                Self::compare(Rel::Gt, l, r, lv, rv)
            },
            Bexpr::Not(inner) => match self.evaluate_bexpr(inner) {
                Err(e) => Err(e),
                Ok(Value::Number(n)) => Ok(truth_value(n == 0)),
                Ok(Value::Str(_)) => Err(EvalError::NotABoolean),
            },
            Bexpr::And(l, r) => {
                let lv = match self.evaluate_bexpr(l) {
                    Err(e) => return Err(e),
                    Ok(v) => v,
                };
                let rv = match self.evaluate_bexpr(r) {
                    Err(e) => return Err(e),
                    Ok(v) => v,
                };
                Self::connect(true, lv, rv)
            },
            Bexpr::Or(l, r) => {
                let lv = match self.evaluate_bexpr(l) {
                    Err(e) => return Err(e),
                    Ok(v) => v,
                };
                let rv = match self.evaluate_bexpr(r) {
                    Err(e) => return Err(e),
                    Ok(v) => v,
                };
                Self::connect(false, lv, rv)
            },
        }
    }

    fn evaluate_condition(&self, expr: &Bexpr) -> (r: Result<bool, EvalError>)
        ensures
            r == holds(expr@, self.word@, self.env()),
    {
        match self.evaluate_bexpr(expr) {
            Err(e) => Err(e),
            Ok(Value::Number(n)) => Ok(n != 0),
            Ok(Value::Str(_)) => Err(EvalError::NotABoolean),
        }
    }
}

} // verus!
