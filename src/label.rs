//! Labelling of the `print` sites of a program: for each one its path, its
//! enclosing loops, its universe guard and its letter formulas.
use vstd::prelude::*;
use crate::ast::{Bexpr, BexprV, Pexpr, Stmt};
use crate::bexpr_evaluator::true_name;
use crate::text::{char_string, contains_char, push_str};

verus! {

/// What the walk over a program records, one entry per label (but
/// `for0_or_for1`, one entry per `for` statement in pre-order).
pub struct Labeling {
    /// The path of statement indices from the root to each `print`.
    pub labels: Vec<Vec<usize>>,
    /// The source names of the enclosing loop variables, outermost first, and
    /// the conjunction of the enclosing guards.
    pub universe_formulas: Vec<(Vec<String>, Bexpr)>,
    /// The pre-order numbers of the enclosing `for` statements, outermost
    /// first.
    pub loops: Vec<Vec<usize>>,
    /// The direction of each `for` statement: 0 ascending, 1 descending.
    pub for0_or_for1: Vec<usize>,
    /// The formulas of the letters `a`, `b` and `#`.
    pub label_formulas: Vec<(String, String, String)>,
}

/// The mathematical content of a `Labeling`.
pub struct LabelingV {
    pub labels: Seq<Seq<usize>>,
    pub vars: Seq<Seq<Seq<char>>>,
    pub guards: Seq<BexprV>,
    pub loops: Seq<Seq<usize>>,
    pub directions: Seq<usize>,
    pub letters: Seq<(Seq<char>, Seq<char>, Seq<char>)>,
}

/// The views of a list of names.
pub open spec fn names_view(v: Seq<String>) -> Seq<Seq<char>> {
    v.map_values(|s: String| s@)
}

impl View for Labeling {
    type V = LabelingV;

    open spec fn view(&self) -> LabelingV {
        LabelingV {
            labels: self.labels@.map_values(|p: Vec<usize>| p@),
            vars: self.universe_formulas@.map_values(|u: (Vec<String>, Bexpr)| names_view(u.0@)),
            guards: self.universe_formulas@.map_values(|u: (Vec<String>, Bexpr)| u.1@),
            loops: self.loops@.map_values(|p: Vec<usize>| p@),
            directions: self.for0_or_for1@,
            letters: self.label_formulas@.map_values(|t: (String, String, String)| (t.0@, t.1@, t.2@)),
        }
    }
}

/// The formula of letter `c` for a `print`: `c(v)` for the letter at `v`,
/// and for a literal `T` when `c` occurs in it, `F` otherwise.
pub open spec fn letter_text(e: Pexpr, c: char) -> Seq<char> {
    match e {
        Pexpr::Label(v) => seq![c, '('] + v@ + seq![')'],
        Pexpr::Str(s) => if s@.contains(c) {
            seq!['T']
        } else {
            seq!['F']
        },
    }
}

/// A guard, `T` when there is none.
pub open spec fn guard_of(g: Option<BexprV>) -> BexprV {
    match g {
        Some(g) => g,
        None => BexprV::Var(true_name()),
    }
}

/// The guard inside an `if` with condition `c`.
pub open spec fn strengthen(g: Option<BexprV>, c: BexprV) -> BexprV {
    match g {
        Some(g) => BexprV::And(Box::new(g), Box::new(c)),
        None => c,
    }
}

/// The record of one more `print`.
pub open spec fn record_print(
    st: LabelingV,
    e: Pexpr,
    path: Seq<usize>,
    guard: Option<BexprV>,
    vars: Seq<Seq<char>>,
    enclosing: Seq<usize>,
) -> LabelingV {
    LabelingV {
        labels: st.labels.push(path),
        vars: st.vars.push(vars),
        guards: st.guards.push(guard_of(guard)),
        loops: st.loops.push(enclosing),
        directions: st.directions,
        letters: st.letters.push((letter_text(e, 'a'), letter_text(e, 'b'), letter_text(e, '#'))),
    }
}

/// The record of one more `for` statement.
pub open spec fn record_loop(st: LabelingV, direction: usize) -> LabelingV {
    LabelingV { directions: st.directions.push(direction), ..st }
}

/// The walk over the first `k` statements of a block.
pub open spec fn walk(
    stmts: Seq<Stmt>,
    k: int,
    path: Seq<usize>,
    guard: Option<BexprV>,
    vars: Seq<Seq<char>>,
    enclosing: Seq<usize>,
    st: LabelingV,
) -> LabelingV
    decreases stmts, k,
{
    if k <= 0 || k > stmts.len() {
        st
    } else {
        walk_stmt(stmts[k - 1], k - 1, path, guard, vars, enclosing,
            walk(stmts, k - 1, path, guard, vars, enclosing, st))
    }
}

/// The walk over one statement, the `index`-th of its block.
pub open spec fn walk_stmt(
    s: Stmt,
    index: int,
    path: Seq<usize>,
    guard: Option<BexprV>,
    vars: Seq<Seq<char>>,
    enclosing: Seq<usize>,
    st: LabelingV,
) -> LabelingV
    decreases s, 0int,
{
    match s {
        Stmt::Print(e) => record_print(st, e, path.push(index as usize), guard, vars, enclosing),
        Stmt::For0(v, body) => walk(body@, body@.len() as int, path.push(index as usize), guard,
            vars.push(v@), enclosing.push(st.directions.len() as usize), record_loop(st, 0)),
        Stmt::For1(v, body) => walk(body@, body@.len() as int, path.push(index as usize), guard,
            vars.push(v@), enclosing.push(st.directions.len() as usize), record_loop(st, 1)),
        Stmt::If(c, body) => walk(body@, body@.len() as int, path.push(index as usize),
            Some(strengthen(guard, c@)), vars, enclosing, st),
    }
}

/// A labelling whose per-label records have one entry per label.
pub open spec fn aligned(st: LabelingV) -> bool {
    &&& forall|l: int| 0 <= l < st.loops.len() ==> #[trigger] st.loops[l].len() == st.vars[l].len()
    &&& st.vars.len() == st.labels.len()
    &&& st.guards.len() == st.labels.len()
    &&& st.loops.len() == st.labels.len()
    &&& st.letters.len() == st.labels.len()
}

/// A labelling with one guard, one list of variables and one triple of
/// letter formulas per label.
pub open spec fn aligned_lengths(st: LabelingV) -> bool {
    &&& st.vars.len() == st.labels.len()
    &&& st.guards.len() == st.labels.len()
    &&& st.letters.len() == st.labels.len()
}

pub proof fn lemma_walk_lengths(
    stmts: Seq<Stmt>,
    k: int,
    path: Seq<usize>,
    guard: Option<BexprV>,
    vars: Seq<Seq<char>>,
    enclosing: Seq<usize>,
    st: LabelingV,
)
    requires
        aligned_lengths(st),
    ensures
        aligned_lengths(walk(stmts, k, path, guard, vars, enclosing, st)),
    decreases stmts, k,
{
    if k <= 0 || k > stmts.len() {
    } else {
        lemma_walk_lengths(stmts, k - 1, path, guard, vars, enclosing, st);
        lemma_walk_stmt_lengths(stmts[k - 1], k - 1, path, guard, vars, enclosing,
            walk(stmts, k - 1, path, guard, vars, enclosing, st));
    }
}

pub proof fn lemma_walk_stmt_lengths(
    s: Stmt,
    index: int,
    path: Seq<usize>,
    guard: Option<BexprV>,
    vars: Seq<Seq<char>>,
    enclosing: Seq<usize>,
    st: LabelingV,
)
    requires
        aligned_lengths(st),
    ensures
        aligned_lengths(walk_stmt(s, index, path, guard, vars, enclosing, st)),
    decreases s, 0int,
{
    match s {
        Stmt::Print(e) => {},
        Stmt::For0(v, body) => {
            lemma_walk_lengths(body@, body@.len() as int, path.push(index as usize), guard,
                vars.push(v@), enclosing.push(st.directions.len() as usize), record_loop(st, 0));
        },
        Stmt::For1(v, body) => {
            lemma_walk_lengths(body@, body@.len() as int, path.push(index as usize), guard,
                vars.push(v@), enclosing.push(st.directions.len() as usize), record_loop(st, 1));
        },
        Stmt::If(c, body) => {
            lemma_walk_lengths(body@, body@.len() as int, path.push(index as usize),
                Some(strengthen(guard, c@)), vars, enclosing, st);
        },
    }
}

/// The labelling before the walk.
pub open spec fn empty_labeling() -> LabelingV {
    LabelingV {
        labels: Seq::empty(),
        vars: Seq::empty(),
        guards: Seq::empty(),
        loops: Seq::empty(),
        directions: Seq::empty(),
        letters: Seq::empty(),
    }
}

pub proof fn lemma_walk_aligned(
    stmts: Seq<Stmt>,
    k: int,
    path: Seq<usize>,
    guard: Option<BexprV>,
    vars: Seq<Seq<char>>,
    enclosing: Seq<usize>,
    st: LabelingV,
)
    requires
        aligned(st),
        enclosing.len() == vars.len(),
    ensures
        aligned(walk(stmts, k, path, guard, vars, enclosing, st)),
        walk(stmts, k, path, guard, vars, enclosing, st).labels.len() >= st.labels.len(),
    decreases stmts, k,
{
    if k <= 0 || k > stmts.len() {
    } else {
        lemma_walk_aligned(stmts, k - 1, path, guard, vars, enclosing, st);
        lemma_walk_stmt_aligned(stmts[k - 1], k - 1, path, guard, vars, enclosing,
            walk(stmts, k - 1, path, guard, vars, enclosing, st));
    }
}

pub proof fn lemma_walk_stmt_aligned(
    s: Stmt,
    index: int,
    path: Seq<usize>,
    guard: Option<BexprV>,
    vars: Seq<Seq<char>>,
    enclosing: Seq<usize>,
    st: LabelingV,
)
    requires
        aligned(st),
        enclosing.len() == vars.len(),
    ensures
        aligned(walk_stmt(s, index, path, guard, vars, enclosing, st)),
        walk_stmt(s, index, path, guard, vars, enclosing, st).labels.len() >= st.labels.len(),
    decreases s, 0int,
{
    match s {
        Stmt::Print(e) => {
            let r = record_print(st, e, path.push(index as usize), guard, vars, enclosing);
            assert forall|l: int| 0 <= l < r.loops.len() implies #[trigger] r.loops[l].len() == r.vars[l].len() by {
                if l < st.loops.len() {
                    assert(r.loops[l] == st.loops[l]);
                    assert(r.vars[l] == st.vars[l]);
                }
            }
        },
        Stmt::For0(v, body) => {
            lemma_walk_aligned(body@, body@.len() as int, path.push(index as usize), guard,
                vars.push(v@), enclosing.push(st.directions.len() as usize), record_loop(st, 0));
        },
        Stmt::For1(v, body) => {
            lemma_walk_aligned(body@, body@.len() as int, path.push(index as usize), guard,
                vars.push(v@), enclosing.push(st.directions.len() as usize), record_loop(st, 1));
        },
        Stmt::If(c, body) => {
            lemma_walk_aligned(body@, body@.len() as int, path.push(index as usize),
                Some(strengthen(guard, c@)), vars, enclosing, st);
        },
    }
}

/// The view of an optional guard.
pub open spec fn guard_view(g: Option<Bexpr>) -> Option<BexprV> {
    match g {
        Some(e) => Some(e@),
        None => None,
    }
}

fn copy_path(v: &Vec<usize>) -> (r: Vec<usize>)
    ensures
        r@ == v@,
{
    let mut r: Vec<usize> = Vec::new();
    let mut i: usize = 0;
    while i < v.len()
        invariant
            i <= v@.len(),
            r@ == v@.subrange(0, i as int),
        decreases v@.len() - i,
    {
        r.push(v[i]);
        i = i + 1;
        assert(r@ =~= v@.subrange(0, i as int));
    }
    assert(r@ =~= v@);
    r
}

fn copy_names(v: &Vec<String>) -> (r: Vec<String>)
    ensures
        names_view(r@) == names_view(v@),
        r@.len() == v@.len(),
{
    let mut r: Vec<String> = Vec::new();
    let mut i: usize = 0;
    while i < v.len()
        invariant
            i <= v@.len(),
            r@.len() == i,
            names_view(r@) == names_view(v@.subrange(0, i as int)),
        decreases v@.len() - i,
    {
        let ghost prev = r@;
        r.push(v[i].clone());
        assert(names_view(r@) =~= names_view(prev).push(v@[i as int]@));
        assert(v@.subrange(0, i + 1) =~= v@.subrange(0, i as int).push(v@[i as int]));
        assert(names_view(v@.subrange(0, i + 1)) =~= names_view(v@.subrange(0, i as int)).push(v@[i as int]@));
        i = i + 1;
    }
    assert(v@.subrange(0, i as int) =~= v@);
    r
}

fn copy_guard(g: &Option<Bexpr>) -> (r: Option<Bexpr>)
    ensures
        guard_view(r) == guard_view(*g),
{
    match g {
        Some(e) => Some(e.duplicate()),
        None => None,
    }
}

/// The formula of letter `ch` for a `print` of `expr`.
pub fn generate_label_formula(expr: &Pexpr, ch: char) -> (r: String)
    ensures
        r@ == letter_text(*expr, ch),
{
    match expr {
        Pexpr::Label(label) => {
            let mut s = String::new();
            s.push(ch);
            s.push('(');
            push_str(&mut s, label.as_str());
            s.push(')');
            assert(s@ =~= seq![ch, '('] + label@ + seq![')']);
            s
        },
        Pexpr::Str(s) => {
            if contains_char(s.as_str(), ch) {
                char_string('T')
            } else {
                char_string('F')
            }
        },
    }
}

fn guard_or_true(g: &Option<Bexpr>) -> (r: Bexpr)
    ensures
        r@ == guard_of(guard_view(*g)),
{
    match g {
        Some(e) => e.duplicate(),
        None => Bexpr::Var(char_string('T')),
    }
}

/// Walks a block of statements, recording every `print` it holds.
///
/// `path`, `for_vars` and `enclosing` are the stacks of statement indices,
/// loop variables and loop numbers above the block; they are the same on
/// return.
pub fn traverse_and_label(
    stmts: &Vec<Stmt>,
    path: &mut Vec<usize>,
    current_if: Option<Bexpr>,
    for_vars: &mut Vec<String>,
    enclosing: &mut Vec<usize>,
    out: &mut Labeling,
)
    ensures
        final(path)@ == old(path)@,
        final(for_vars)@ == old(for_vars)@,
        final(enclosing)@ == old(enclosing)@,
        final(out)@ == walk(stmts@, stmts@.len() as int, old(path)@, guard_view(current_if),
            names_view(old(for_vars)@), old(enclosing)@, old(out)@),
    decreases stmts,
{
    let ghost guard = guard_view(current_if);
    let mut i: usize = 0;
    while i < stmts.len()
        invariant
            i <= stmts@.len(),
            guard == guard_view(current_if),
            path@ == old(path)@,
            for_vars@ == old(for_vars)@,
            enclosing@ == old(enclosing)@,
            out@ == walk(stmts@, i as int, old(path)@, guard, names_view(old(for_vars)@), old(enclosing)@, old(out)@),
        decreases stmts@.len() - i,
    {
        let ghost before = out@;
        let stmt = &stmts[i];
        match stmt {
            Stmt::Print(expr) => {
                let mut current_path = copy_path(path);
                current_path.push(i);
                out.labels.push(current_path);
                let universe_formula = guard_or_true(&current_if);
                out.universe_formulas.push((copy_names(for_vars), universe_formula));
                out.loops.push(copy_path(enclosing));
                let label_formula_a = generate_label_formula(expr, 'a');
                let label_formula_b = generate_label_formula(expr, 'b');
                let label_formula_hash = generate_label_formula(expr, '#');
                out.label_formulas.push((label_formula_a, label_formula_b, label_formula_hash));
                let ghost rec = record_print(before, *expr, old(path)@.push(i), guard,
                    names_view(old(for_vars)@), old(enclosing)@);
                assert(out@.labels =~= rec.labels);
                assert(out@.vars =~= rec.vars);
                assert(out@.guards =~= rec.guards);
                assert(out@.loops =~= rec.loops);
                assert(out@.directions =~= rec.directions);
                assert(out@.letters =~= rec.letters);
            },
            Stmt::For0(var, inner_stmts) => {
                let id = out.for0_or_for1.len();
                out.for0_or_for1.push(0);
                assert(out@.directions =~= record_loop(before, 0).directions);
                path.push(i);
                for_vars.push(var.clone());
                enclosing.push(id);
                assert(names_view(for_vars@) =~= names_view(old(for_vars)@).push(var@));
                traverse_and_label(inner_stmts, path, copy_guard(&current_if), for_vars, enclosing, out);
                enclosing.pop();
                for_vars.pop();
                path.pop();
                assert(path@ =~= old(path)@);
                assert(for_vars@ =~= old(for_vars)@);
                assert(enclosing@ =~= old(enclosing)@);
            },
            Stmt::For1(var, inner_stmts) => {
                let id = out.for0_or_for1.len();
                out.for0_or_for1.push(1);
                assert(out@.directions =~= record_loop(before, 1).directions);
                path.push(i);
                for_vars.push(var.clone());
                enclosing.push(id);
                assert(names_view(for_vars@) =~= names_view(old(for_vars)@).push(var@));
                traverse_and_label(inner_stmts, path, copy_guard(&current_if), for_vars, enclosing, out);
                enclosing.pop();
                for_vars.pop();
                path.pop();
                assert(path@ =~= old(path)@);
                assert(for_vars@ =~= old(for_vars)@);
                assert(enclosing@ =~= old(enclosing)@);
            },
            Stmt::If(if_expr, inner_stmts) => {
                path.push(i);
                let new_if_expr = match &current_if {
                    Some(existing_if) => Bexpr::And(Box::new(existing_if.duplicate()), Box::new(if_expr.duplicate())),
                    None => if_expr.duplicate(),
                };
                assert(new_if_expr@ == strengthen(guard, if_expr@));
                traverse_and_label(inner_stmts, path, Some(new_if_expr), for_vars, enclosing, out);
                path.pop();
                assert(path@ =~= old(path)@);
            },
        }
        assert(out@ == walk_stmt(stmts@[i as int], i as int, old(path)@, guard, names_view(old(for_vars)@), old(enclosing)@, before));
        i = i + 1;
    }
}

} // verus!
