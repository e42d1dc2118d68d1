//! The operational semantics of programs: run the loops and print in program
//! order.
use vstd::prelude::*;
use crate::ast::{Bexpr, Pexpr, Stmt};
use crate::bexpr_evaluator::{holds, letter_at, env_of, EvalError, Env, Evaluator};
use crate::text::{push_str, trim_end, trimmed_end};

verus! {

/// The environment with `v` bound to `p` in front of `env`.
pub open spec fn bind(env: Env, v: Seq<char>, p: usize) -> Env {
    seq![(v, p)] + env
}

/// The position of the `i`-th iteration of a loop over `n` positions.
pub open spec fn iteration_position(ascending: bool, n: nat, i: nat) -> usize {
    if ascending { i as usize } else { (n - 1 - i) as usize }
}

/// The output after the first `k` statements of a block, from `out`.
pub open spec fn run_stmts(stmts: Seq<Stmt>, k: int, word: Seq<char>, env: Env, out: Seq<char>) -> Result<Seq<char>, EvalError>
    decreases stmts, 0int, k,
{
    if k <= 0 || k > stmts.len() {
        Ok(out)
    } else {
        match run_stmts(stmts, k - 1, word, env, out) {
            Err(e) => Err(e),
            Ok(o) => run_stmt(stmts[k - 1], word, env, o),
        }
    }
}

/// The output after the first `count` iterations of a loop over `v`.
pub open spec fn run_loop(
    body: Seq<Stmt>,
    v: Seq<char>,
    ascending: bool,
    word: Seq<char>,
    env: Env,
    out: Seq<char>,
    count: int,
) -> Result<Seq<char>, EvalError>
    decreases body, 1int, count,
{
    if count <= 0 || count > word.len() {
        Ok(out)
    } else {
        match run_loop(body, v, ascending, word, env, out, count - 1) {
            Err(e) => Err(e),
            Ok(o) => run_stmts(body, body.len() as int,
                word, bind(env, v, iteration_position(ascending, word.len(), (count - 1) as nat)), o),
        }
    }
}

/// What a `print` emits: the input letter, or the literal without its
/// trailing white space.
pub open spec fn print_text(e: Pexpr, word: Seq<char>, env: Env) -> Result<Seq<char>, EvalError> {
    match e {
        Pexpr::Label(v) => match letter_at(word, env, v@) {
            Ok(c) => Ok(seq![c]),
            Err(err) => Err(err),
        },
        Pexpr::Str(t) => Ok(trim_end(t@)),
    }
}

/// The output after one statement, from `out`.
pub open spec fn run_stmt(s: Stmt, word: Seq<char>, env: Env, out: Seq<char>) -> Result<Seq<char>, EvalError>
    decreases s, 0int, 0int,
{
    match s {
        Stmt::Print(e) => match print_text(e, word, env) {
            Ok(t) => Ok(out + t),
            Err(err) => Err(err),
        },
        Stmt::For0(v, body) => run_loop(body@, v@, true, word, env, out, word.len() as int),
        Stmt::For1(v, body) => run_loop(body@, v@, false, word, env, out, word.len() as int),
        Stmt::If(c, body) => match holds(c@, word, env) {
            Err(e) => Err(e),
            Ok(true) => run_stmts(body@, body@.len() as int, word, env, out),
            Ok(false) => Ok(out),
        },
    }
}

/// The output of a program on a word.
pub open spec fn operational(stmts: Seq<Stmt>, word: Seq<char>) -> Result<Seq<char>, EvalError> {
    run_stmts(stmts, stmts.len() as int, word, Seq::empty(), Seq::empty())
}

/// Runs programs on one input word.
pub struct Interpreter {
    /// The bound loop variables, innermost first.
    variables: Vec<(String, usize)>,
    word: String,
    n: usize,
}

impl Interpreter {
    pub closed spec fn same_state(a: Interpreter, b: Interpreter) -> bool {
        a.variables@ == b.variables@ && a.word == b.word && a.n == b.n
    }

    pub closed spec fn input(&self) -> Seq<char> {
        self.word@
    }

    pub closed spec fn well_formed(&self) -> bool {
        &&& self.n == self.word@.len()
        &&& self.variables@.len() == 0
    }

    /// An interpreter for `word`, with no variable bound.
    pub fn new(word: &str) -> (r: Self)
        ensures
            r.input() == word@,
            r.well_formed(),
    {
        let n = word.unicode_len();
        Self { variables: Vec::new(), word: String::from_str(word), n }
    }

    /// The output of the program on the word.
    pub fn interpret(&mut self, stmts: Vec<Stmt>) -> (r: Result<String, EvalError>)
        requires
            old(self).well_formed(),
        ensures
            final(self).well_formed(),
            final(self).input() == old(self).input(),
            match r {
                Ok(s) => operational(stmts@, old(self).input()) == Ok::<Seq<char>, EvalError>(s@),
                Err(e) => operational(stmts@, old(self).input()) == Err::<Seq<char>, EvalError>(e),
            },
    {
        let mut out = String::new();
        assert(env_of(self.variables@) =~= Seq::<(Seq<char>, usize)>::empty());
        match self.execute_block(&stmts, &mut out) {
            Ok(()) => Ok(out),
            Err(e) => Err(e),
        }
    }

    fn execute_block(&mut self, stmts: &Vec<Stmt>, out: &mut String) -> (r: Result<(), EvalError>)
        requires
            old(self).n == old(self).word@.len(),
        ensures
            Self::same_state(*final(self), *old(self)),
            match r {
                Ok(()) => run_stmts(stmts@, stmts@.len() as int, old(self).word@, env_of(old(self).variables@), old(out)@)
                    == Ok::<Seq<char>, EvalError>(final(out)@),
                Err(e) => run_stmts(stmts@, stmts@.len() as int, old(self).word@, env_of(old(self).variables@), old(out)@)
                    == Err::<Seq<char>, EvalError>(e),
            },
        decreases stmts, 0int, stmts@.len(),
    {
        let ghost env = env_of(self.variables@);
        let mut i: usize = 0;
        while i < stmts.len()
            invariant
                i <= stmts@.len(),
                Self::same_state(*self, *old(self)),
                self.n == self.word@.len(),
                env == env_of(self.variables@),
                run_stmts(stmts@, i as int, self.word@, env, old(out)@) == Ok::<Seq<char>, EvalError>(out@),
            decreases stmts@.len() - i,
        {
            match self.execute(&stmts[i], out) {
                Err(e) => {
                    proof {
                        lemma_run_error_extends(stmts@, self.word@, env, old(out)@, i as int + 1);
                    }
                    return Err(e);
                },
                Ok(()) => {},
            }
            i = i + 1;
        }
        Ok(())
    }

    fn execute(&mut self, stmt: &Stmt, out: &mut String) -> (r: Result<(), EvalError>)
        requires
            old(self).n == old(self).word@.len(),
        ensures
            Self::same_state(*final(self), *old(self)),
            match r {
                Ok(()) => run_stmt(*stmt, old(self).word@, env_of(old(self).variables@), old(out)@)
                    == Ok::<Seq<char>, EvalError>(final(out)@),
                Err(e) => run_stmt(*stmt, old(self).word@, env_of(old(self).variables@), old(out)@)
                    == Err::<Seq<char>, EvalError>(e),
            },
        decreases stmt, 0int, 0int,
    {
        match stmt {
            Stmt::Print(expr) => {
                match self.evaluate_pexpr(expr) {
                    Err(e) => Err(e),
                    Ok(s) => {
                        push_str(out, s.as_str());
                        Ok(())
                    },
                }
            },
            Stmt::For0(var, body) => self.run_loop(var, body, true, out),
            Stmt::For1(var, body) => self.run_loop(var, body, false, out),
            Stmt::If(condition, then_branch) => {
                match self.evaluate_condition(condition) {
                    Err(e) => Err(e),
                    Ok(true) => self.execute_block(then_branch, out),
                    Ok(false) => Ok(()),
                }
            },
        }
    }

    fn run_loop(&mut self, var: &String, body: &Vec<Stmt>, ascending: bool, out: &mut String) -> (r: Result<(), EvalError>)
        requires
            old(self).n == old(self).word@.len(),
        ensures
            Self::same_state(*final(self), *old(self)),
            match r {
                Ok(()) => run_loop(body@, var@, ascending, old(self).word@, env_of(old(self).variables@), old(out)@, old(self).word@.len() as int)
                    == Ok::<Seq<char>, EvalError>(final(out)@),
                Err(e) => run_loop(body@, var@, ascending, old(self).word@, env_of(old(self).variables@), old(out)@, old(self).word@.len() as int)
                    == Err::<Seq<char>, EvalError>(e),
            },
        decreases body, 1int, 0int,
    {
        let ghost env = env_of(self.variables@);
        let n = self.n;
        let mut i: usize = 0;
        while i < n
            invariant
                i <= n,
                n == self.word@.len(),
                Self::same_state(*self, *old(self)),
                self.n == self.word@.len(),
                env == env_of(self.variables@),
                run_loop(body@, var@, ascending, self.word@, env, old(out)@, i as int) == Ok::<Seq<char>, EvalError>(out@),
            decreases n - i,
        {
            let p = if ascending { i } else { n - 1 - i };
            let ghost saved = self.variables@;
            self.variables.insert(0, (var.clone(), p));
            assert(env_of(self.variables@) =~= bind(env, var@, p));
            let res = self.execute_block(body, out);
            self.variables.remove(0);
            assert(self.variables@ =~= saved);
            match res {
                Err(e) => {
                    proof {
                        lemma_loop_error_extends(body@, var@, ascending, self.word@, env, old(out)@, i as int + 1);
                    }
                    return Err(e);
                },
                Ok(()) => {},
            }
            i = i + 1;
        }
        Ok(())
    }

    fn evaluate_pexpr(&self, expr: &Pexpr) -> (r: Result<String, EvalError>)
        ensures
            match r {
                Ok(s) => print_text(*expr, self.word@, env_of(self.variables@)) == Ok::<Seq<char>, EvalError>(s@),
                Err(e) => print_text(*expr, self.word@, env_of(self.variables@)) == Err::<Seq<char>, EvalError>(e),
            },
    {
        match expr {
            Pexpr::Label(name) => {
                let evaluator = Evaluator { variables: self.copy_variables(), word: self.word.clone() };
                match evaluator.letter(name.as_str()) {
                    Ok(c) => {
                        Ok(crate::text::char_string(c))
                    },
                    Err(e) => Err(e),
                }
            },
            Pexpr::Str(s) => Ok(trimmed_end(s.as_str())),
        }
    }

    fn copy_variables(&self) -> (r: Vec<(String, usize)>)
        ensures
            env_of(r@) == env_of(self.variables@),
    {
        let mut r: Vec<(String, usize)> = Vec::new();
        let mut i: usize = 0;
        while i < self.variables.len()
            invariant
                i <= self.variables@.len(),
                env_of(r@) == env_of(self.variables@.subrange(0, i as int)),
            decreases self.variables@.len() - i,
        {
            let ghost prev = r@;
            r.push((self.variables[i].0.clone(), self.variables[i].1));
            assert(env_of(r@) =~= env_of(prev).push((self.variables@[i as int].0@, self.variables@[i as int].1)));
            assert(self.variables@.subrange(0, i + 1) =~= self.variables@.subrange(0, i as int).push(self.variables@[i as int]));
            assert(env_of(self.variables@.subrange(0, i + 1)) =~= env_of(self.variables@.subrange(0, i as int)).push((self.variables@[i as int].0@, self.variables@[i as int].1)));
            i = i + 1;
        }
        assert(self.variables@.subrange(0, i as int) =~= self.variables@);
        r
    }

    fn evaluate_condition(&self, expr: &Bexpr) -> (r: Result<bool, EvalError>)
        ensures
            r == holds(expr@, self.word@, env_of(self.variables@)),
    {
        let mut evaluator = Evaluator { variables: self.copy_variables(), word: self.word.clone() };
        evaluator.eval(expr)
    }
}

proof fn lemma_run_error_extends(stmts: Seq<Stmt>, word: Seq<char>, env: Env, out: Seq<char>, k: int)
    requires
        0 <= k <= stmts.len(),
        run_stmts(stmts, k, word, env, out) is Err,
    ensures
        run_stmts(stmts, stmts.len() as int, word, env, out) == run_stmts(stmts, k, word, env, out),
    decreases stmts.len() - k,
{
    if k < stmts.len() {
        lemma_run_error_extends(stmts, word, env, out, k + 1);
    }
}

proof fn lemma_loop_error_extends(
    body: Seq<Stmt>,
    v: Seq<char>,
    ascending: bool,
    word: Seq<char>,
    env: Env,
    out: Seq<char>,
    k: int,
)
    requires
        0 <= k <= word.len(),
        run_loop(body, v, ascending, word, env, out, k) is Err,
    ensures
        run_loop(body, v, ascending, word, env, out, word.len() as int) == run_loop(body, v, ascending, word, env, out, k),
    decreases word.len() - k,
{
    if k < word.len() {
        lemma_loop_error_extends(body, v, ascending, word, env, out, k + 1);
    }
}

} // verus!
