//! Properties of the compiled interpretations, proved over the specification
//! functions that the compiler's contracts use.
use vstd::prelude::*;
use crate::ast::{BexprV, Pexpr, Stmt};
use crate::bexpr_evaluator::{false_name, holds, letter_predicate, lookup, resolve, true_name, truth, Env, Val};
use crate::compile::{program_labeling, program_universe, rename_bexpr, rename_letter, renamed, renaming, Renaming};
use crate::label::{
    empty_labeling, guard_of, lemma_walk_aligned, letter_text, record_loop, record_print, strengthen, walk,
    walk_stmt, LabelingV,
};
use crate::order::{chain, common_from, direction_of, indexed_name, order_spec, precedes, xv, yv};
use crate::qf_interpretation::{find_order, position_env, x_name, y_name, PosV, QfFault, QfInterpretation};
use crate::compile::{program_letters, program_order};
use crate::qf_interpretation::{find_universe, letter_rows, letters_view, matching_letters, universe_view};
use crate::order::{order_table, order_view};
use vstd::arithmetic::div_mod::{lemma_fundamental_div_mod, lemma_div_pos_is_pos};
use crate::text::{decimal, digit_char};

verus! {

proof fn lemma_decimal_len(n: nat)
    ensures
        decimal(n).len() >= 1,
        n >= 10 ==> decimal(n).len() >= 2,
    decreases n,
{
    if n >= 10 {
        lemma_decimal_len(n / 10);
    }
}

proof fn lemma_decimal_injective(a: nat, b: nat)
    requires
        decimal(a) == decimal(b),
    ensures
        a == b,
    decreases a,
{
    lemma_decimal_len(a);
    lemma_decimal_len(b);
    if a < 10 && b < 10 {
        assert(decimal(a)[0] == digit_char(a));
        assert(decimal(b)[0] == digit_char(b));
    } else if a >= 10 && b >= 10 {
        let da = decimal(a / 10);
        let db = decimal(b / 10);
        assert(decimal(a) == da.push(digit_char(a % 10)));
        assert(decimal(b) == db.push(digit_char(b % 10)));
        assert(decimal(a).last() == digit_char(a % 10));
        assert(decimal(b).last() == digit_char(b % 10));
        assert(da =~= decimal(a).drop_last());
        assert(db =~= decimal(b).drop_last());
        lemma_decimal_injective(a / 10, b / 10);
    } else {
        assert(decimal(a).len() != decimal(b).len());
    }
}

/// A name bound at index `i`, and at no earlier index, is found there.
proof fn lemma_lookup_at(env: Env, name: Seq<char>, i: int)
    requires
        0 <= i < env.len(),
        env[i].0 == name,
        forall|j: int| 0 <= j < i ==> env[j].0 != name,
    ensures
        lookup(env, name) == Some(env[i].1),
    decreases i,
{
    if i > 0 {
        lemma_lookup_at(env.drop_first(), name, i - 1);
    }
}

/// The `k`-th canonical variable of the first position of a pair names its
/// `k`-th input position, and likewise for the second.
proof fn lemma_pair_lookup(a: Seq<usize>, b: Seq<usize>, k: nat)
    ensures
        k >= 1 && k <= a.len() ==> lookup(position_env(x_name(), a) + position_env(y_name(), b), indexed_name('x', k))
            == Some(a[k - 1]),
        k >= 1 && k <= b.len() ==> lookup(position_env(x_name(), a) + position_env(y_name(), b), indexed_name('y', k))
            == Some(b[k - 1]),
{
    let env = position_env(x_name(), a) + position_env(y_name(), b);
    if k >= 1 && k <= a.len() {
        assert(env[k - 1].0 == x_name() + decimal(k as nat));
        assert(x_name() + decimal(k as nat) =~= indexed_name('x', k));
        assert forall|j: int| 0 <= j < k - 1 implies env[j].0 != indexed_name('x', k) by {
            if env[j].0 == indexed_name('x', k) {
                assert(env[j].0 == x_name() + decimal((j + 1) as nat));
                assert(decimal((j + 1) as nat) =~= env[j].0.drop_first());
                assert(decimal(k) =~= indexed_name('x', k).drop_first());
                lemma_decimal_injective((j + 1) as nat, k);
            }
        }
        lemma_lookup_at(env, indexed_name('x', k), k - 1);
    }
    if k >= 1 && k <= b.len() {
        let i = a.len() + k - 1;
        assert(env[i].0 == y_name() + decimal(k as nat));
        assert(y_name() + decimal(k as nat) =~= indexed_name('y', k));
        assert forall|j: int| 0 <= j < i implies env[j].0 != indexed_name('y', k) by {
            if j < a.len() {
                assert(env[j].0[0] == 'x');
                assert(indexed_name('y', k)[0] == 'y');
            } else if env[j].0 == indexed_name('y', k) {
                assert(env[j].0 == y_name() + decimal((j - a.len() + 1) as nat));
                assert(decimal((j - a.len() + 1) as nat) =~= env[j].0.drop_first());
                assert(decimal(k) =~= indexed_name('y', k).drop_first());
                lemma_decimal_injective((j - a.len() + 1) as nat, k);
            }
        }
        lemma_lookup_at(env, indexed_name('y', k), i);
    }
}

/// The comparison of two positions in loop direction `dir`.
pub open spec fn step_holds(dir: usize, x: usize, y: usize, strict: bool) -> bool {
    if dir == 0 {
        if strict { x < y } else { x <= y }
    } else {
        if strict { x > y } else { x >= y }
    }
}

/// The lexicographic order of `a` and `b` over the shared loops `k .. p`.
pub open spec fn lex_holds(a: Seq<usize>, b: Seq<usize>, loops: Seq<usize>, dirs: Seq<usize>, k: nat, p: nat, inclusive: bool) -> bool
    decreases p - k,
{
    if k + 1 >= p {
        step_holds(direction_of(dirs, loops[k as int]), a[k as int], b[k as int], !inclusive)
    } else {
        step_holds(direction_of(dirs, loops[k as int]), a[k as int], b[k as int], true)
            || (a[k as int] == b[k as int] && lex_holds(a, b, loops, dirs, k + 1, p, inclusive))
    }
}

proof fn lemma_precedes_resolves(w: Seq<char>, env: Env, dir: usize, k: nat, strict: bool, x: usize, y: usize)
    requires
        resolve(xv(k), w, env) == Ok::<Val, crate::bexpr_evaluator::EvalError>(Val::Num(x as nat)),
        resolve(yv(k), w, env) == Ok::<Val, crate::bexpr_evaluator::EvalError>(Val::Num(y as nat)),
    ensures
        resolve(precedes(dir, k, strict), w, env) == Ok::<Val, crate::bexpr_evaluator::EvalError>(truth(step_holds(dir, x, y, strict))),
{
}

proof fn lemma_chain_holds(w: Seq<char>, a: Seq<usize>, b: Seq<usize>, loops: Seq<usize>, dirs: Seq<usize>, k: nat, p: nat, inclusive: bool)
    requires
        k < p,
        p <= a.len(),
        p <= b.len(),
        p <= loops.len(),
    ensures
        resolve(chain(loops, dirs, k, p, inclusive), w, position_env(x_name(), a) + position_env(y_name(), b))
            == Ok::<Val, crate::bexpr_evaluator::EvalError>(truth(lex_holds(a, b, loops, dirs, k, p, inclusive))),
    decreases p - k,
{
    let env = position_env(x_name(), a) + position_env(y_name(), b);
    let dir = direction_of(dirs, loops[k as int]);
    lemma_pair_lookup(a, b, k + 1);
    lemma_name_not_constant('x', k + 1);
    lemma_name_not_constant('y', k + 1);
    assert(resolve(xv(k + 1), w, env) == Ok::<Val, crate::bexpr_evaluator::EvalError>(Val::Num(a[k as int] as nat)));
    assert(resolve(yv(k + 1), w, env) == Ok::<Val, crate::bexpr_evaluator::EvalError>(Val::Num(b[k as int] as nat)));
    if k + 1 < p {
        lemma_precedes_resolves(w, env, dir, k + 1, true, a[k as int], b[k as int]);
        lemma_chain_holds(w, a, b, loops, dirs, k + 1, p, inclusive);
        let eq = BexprV::Equal(Box::new(xv(k + 1)), Box::new(yv(k + 1)));
        assert(resolve(eq, w, env) == Ok::<Val, crate::bexpr_evaluator::EvalError>(truth(a[k as int] == b[k as int])));
        let rest = chain(loops, dirs, k + 1, p, inclusive);
        let conj = BexprV::And(Box::new(eq), Box::new(rest));
        let lex_rest = lex_holds(a, b, loops, dirs, k + 1, p, inclusive);
        assert(resolve(conj, w, env) == Ok::<Val, crate::bexpr_evaluator::EvalError>(truth(a[k as int] == b[k as int] && lex_rest)));
        let first = precedes(dir, k + 1, true);
        let whole = BexprV::Or(Box::new(first), Box::new(conj));
        assert(chain(loops, dirs, k, p, inclusive) == whole);
        assert(resolve(whole, w, env) == Ok::<Val, crate::bexpr_evaluator::EvalError>(truth(
            step_holds(dir, a[k as int], b[k as int], true) || (a[k as int] == b[k as int] && lex_rest))));
    } else {
        lemma_precedes_resolves(w, env, dir, k + 1, !inclusive, a[k as int], b[k as int]);
        assert(chain(loops, dirs, k, p, inclusive) == precedes(dir, k + 1, !inclusive));
    }
}

proof fn lemma_name_not_constant(c: char, k: nat)
    requires
        c == 'x' || c == 'y',
    ensures
        indexed_name(c, k) != true_name(),
        indexed_name(c, k) != false_name(),
{
    assert(indexed_name(c, k)[0] == c);
    assert(true_name()[0] == 'T');
    assert(false_name()[0] == 'F');
}

proof fn lemma_common_prefix(a: Seq<usize>, b: Seq<usize>, k: nat)
    requires
        k <= a.len(),
        k <= b.len(),
    ensures
        k <= common_from(a, b, k) <= a.len(),
        common_from(a, b, k) <= b.len(),
        common_from(b, a, k) == common_from(a, b, k),
        forall|j: int| k <= j < common_from(a, b, k) ==> a[j] == b[j],
    decreases a.len() - k,
{
    if k < a.len() && k < b.len() && a[k as int] == b[k as int] {
        lemma_common_prefix(a, b, k + 1);
    }
}

proof fn lemma_lex_total(
    a: Seq<usize>,
    b: Seq<usize>,
    la: Seq<usize>,
    lb: Seq<usize>,
    dirs: Seq<usize>,
    k: nat,
    p: nat,
    incl1: bool,
    incl2: bool,
)
    requires
        incl1 || incl2,
        k < p,
        p <= a.len(),
        p <= b.len(),
        p <= la.len(),
        p <= lb.len(),
        forall|j: int| 0 <= j < p ==> la[j] == lb[j],
    ensures
        lex_holds(a, b, la, dirs, k, p, incl1) || lex_holds(b, a, lb, dirs, k, p, incl2),
    decreases p - k,
{
    assert(la[k as int] == lb[k as int]);
    if k + 1 < p {
        lemma_lex_total(a, b, la, lb, dirs, k + 1, p, incl1, incl2);
    }
}

/// Any two output positions of a compiled program are comparable: for labels
/// `i` and `j` and input tuples `a` and `b` of their arities, the order
/// formula of `(i, j)` holds at `(a, b)` or that of `(j, i)` holds at
/// `(b, a)`.
pub proof fn order_is_total(stmts: Seq<Stmt>, i: int, j: int, w: Seq<char>, a: Seq<usize>, b: Seq<usize>)
    requires
        0 <= i < program_labeling(stmts).labels.len(),
        0 <= j < program_labeling(stmts).labels.len(),
        a.len() == program_labeling(stmts).vars[i].len(),
        b.len() == program_labeling(stmts).vars[j].len(),
    ensures
        ({
            let st = program_labeling(stmts);
            ||| holds(order_spec(st.loops[i], st.loops[j], st.directions, i <= j), w,
                    position_env(x_name(), a) + position_env(y_name(), b)) == Ok::<bool, crate::bexpr_evaluator::EvalError>(true)
            ||| holds(order_spec(st.loops[j], st.loops[i], st.directions, j <= i), w,
                    position_env(x_name(), b) + position_env(y_name(), a)) == Ok::<bool, crate::bexpr_evaluator::EvalError>(true)
        }),
{
    let st = program_labeling(stmts);
    lemma_walk_aligned(stmts, stmts.len() as int, Seq::empty(), None, Seq::empty(), Seq::empty(), empty_labeling());
    let la = st.loops[i];
    let lb = st.loops[j];
    assert(st.loops[i].len() == st.vars[i].len());
    assert(st.loops[j].len() == st.vars[j].len());
    assert(la.len() == a.len());
    assert(lb.len() == b.len());
    lemma_common_prefix(la, lb, 0);
    let p = common_from(la, lb, 0);
    if p == 0 {
        if i <= j {
            assert(resolve(BexprV::Var(true_name()), w, position_env(x_name(), a) + position_env(y_name(), b))
                == Ok::<Val, crate::bexpr_evaluator::EvalError>(Val::Num(1)));
        } else {
            assert(resolve(BexprV::Var(true_name()), w, position_env(x_name(), b) + position_env(y_name(), a))
                == Ok::<Val, crate::bexpr_evaluator::EvalError>(Val::Num(1)));
        }
    } else {
        lemma_chain_holds(w, a, b, la, st.directions, 0, p, i <= j);
        lemma_chain_holds(w, b, a, lb, st.directions, 0, p, j <= i);
        lemma_lex_total(a, b, la, lb, st.directions, 0, p, i <= j, j <= i);
    }
}

/// The variable of a letter predicate `c(v)`, if the literal is one.
pub open spec fn literal_vars(s: Seq<char>) -> Set<Seq<char>> {
    match letter_predicate(s) {
        Some(p) => set![p.1],
        None => Set::empty(),
    }
}

/// The variables that an expression reads: positions, labels and the
/// variables of letter predicates; `T` and `F` are constants.
pub open spec fn free_vars(e: BexprV) -> Set<Seq<char>>
    decreases e,
{
    match e {
        BexprV::Var(n) => if n == true_name() || n == false_name() {
            Set::empty()
        } else {
            set![n]
        },
        BexprV::Label(n) => set![n],
        BexprV::Str(s) => literal_vars(s),
        BexprV::LessEqual(l, r) => free_vars(*l).union(free_vars(*r)),
        BexprV::Less(l, r) => free_vars(*l).union(free_vars(*r)),
        BexprV::Equal(l, r) => free_vars(*l).union(free_vars(*r)),
        BexprV::NotEqual(l, r) => free_vars(*l).union(free_vars(*r)),
        BexprV::GreaterEqual(l, r) => free_vars(*l).union(free_vars(*r)),
        BexprV::Greater(l, r) => free_vars(*l).union(free_vars(*r)),
        BexprV::Not(i) => free_vars(*i),
        BexprV::And(l, r) => free_vars(*l).union(free_vars(*r)),
        BexprV::Or(l, r) => free_vars(*l).union(free_vars(*r)),
    }
}

/// The names `<c>1 .. <c>k`.
pub open spec fn canonical_set(c: char, k: nat) -> Set<Seq<char>> {
    Set::new(|n: Seq<char>| exists|j: nat| 1 <= j <= k && n == #[trigger] indexed_name(c, j))
}

/// Every variable that the first `k` statements read is bound by an
/// enclosing loop, `vars` being the variables of the loops around them.
pub open spec fn block_scoped(stmts: Seq<Stmt>, k: int, vars: Seq<Seq<char>>) -> bool
    decreases stmts, 0int, k,
{
    if k <= 0 || k > stmts.len() {
        true
    } else {
        block_scoped(stmts, k - 1, vars) && stmt_scoped(stmts[k - 1], vars)
    }
}

pub open spec fn stmt_scoped(s: Stmt, vars: Seq<Seq<char>>) -> bool
    decreases s, 0int, 0int,
{
    match s {
        Stmt::Print(Pexpr::Label(v)) => vars.contains(v@),
        Stmt::Print(Pexpr::Str(_)) => true,
        Stmt::For0(v, body) => block_scoped(body@, body@.len() as int, vars.push(v@)),
        Stmt::For1(v, body) => block_scoped(body@, body@.len() as int, vars.push(v@)),
        Stmt::If(c, body) => free_vars(c@).subset_of(vars.to_set()) && block_scoped(body@, body@.len() as int, vars),
    }
}

/// A program whose every variable is bound by an enclosing loop.
pub open spec fn well_scoped(stmts: Seq<Stmt>) -> bool {
    block_scoped(stmts, stmts.len() as int, Seq::empty())
}

/// Each recorded label reads only its own loop variables.
pub open spec fn records_scoped(st: LabelingV) -> bool {
    forall|l: int| 0 <= l < st.guards.len() && l < st.vars.len() && l < st.letters.len() ==> {
        &&& #[trigger] free_vars(st.guards[l]).subset_of(st.vars[l].to_set())
        &&& literal_vars(st.letters[l].0).subset_of(st.vars[l].to_set())
        &&& literal_vars(st.letters[l].1).subset_of(st.vars[l].to_set())
        &&& literal_vars(st.letters[l].2).subset_of(st.vars[l].to_set())
    }
}

proof fn lemma_letter_text_vars(e: Pexpr, c: char)
    requires
        c == 'a' || c == 'b' || c == '#',
    ensures
        literal_vars(letter_text(e, c)) == match e {
            Pexpr::Label(v) => set![v@],
            Pexpr::Str(_) => Set::<Seq<char>>::empty(),
        },
{
    match e {
        Pexpr::Label(v) => {
            let t = seq![c, '('] + v@ + seq![')'];
            assert(t.subrange(2, t.len() - 1) =~= v@);
            assert(letter_predicate(t) == Some((c, v@)));
        },
        Pexpr::Str(_) => {},
    }
}

proof fn lemma_push_superset(vars: Seq<Seq<char>>, v: Seq<char>)
    ensures
        vars.to_set().subset_of(vars.push(v).to_set()),
{
    assert forall|x: Seq<char>| vars.to_set().contains(x) implies vars.push(v).to_set().contains(x) by {
        let i = choose|i: int| 0 <= i < vars.len() && vars[i] == x;
        assert(vars.push(v)[i] == x);
    }
}

pub proof fn lemma_walk_scoped(
    stmts: Seq<Stmt>,
    k: int,
    path: Seq<usize>,
    guard: Option<BexprV>,
    vars: Seq<Seq<char>>,
    enclosing: Seq<usize>,
    st: LabelingV,
)
    requires
        crate::label::aligned_lengths(st),
        records_scoped(st),
        block_scoped(stmts, k, vars),
        free_vars(guard_of(guard)).subset_of(vars.to_set()),
    ensures
        records_scoped(walk(stmts, k, path, guard, vars, enclosing, st)),
    decreases stmts, k,
{
    if k <= 0 || k > stmts.len() {
    } else {
        lemma_walk_scoped(stmts, k - 1, path, guard, vars, enclosing, st);
        crate::label::lemma_walk_lengths(stmts, k - 1, path, guard, vars, enclosing, st);
        lemma_walk_stmt_scoped(stmts[k - 1], k - 1, path, guard, vars, enclosing,
            walk(stmts, k - 1, path, guard, vars, enclosing, st));
    }
}

pub proof fn lemma_walk_stmt_scoped(
    s: Stmt,
    index: int,
    path: Seq<usize>,
    guard: Option<BexprV>,
    vars: Seq<Seq<char>>,
    enclosing: Seq<usize>,
    st: LabelingV,
)
    requires
        crate::label::aligned_lengths(st),
        records_scoped(st),
        stmt_scoped(s, vars),
        free_vars(guard_of(guard)).subset_of(vars.to_set()),
    ensures
        records_scoped(walk_stmt(s, index, path, guard, vars, enclosing, st)),
    decreases s, 0int,
{
    match s {
        Stmt::Print(e) => {
            let r = record_print(st, e, path.push(index as usize), guard, vars, enclosing);
            lemma_letter_text_vars(e, 'a');
            lemma_letter_text_vars(e, 'b');
            lemma_letter_text_vars(e, '#');
            assert forall|l: int| 0 <= l < r.guards.len() && l < r.vars.len() && l < r.letters.len() implies {
                &&& #[trigger] free_vars(r.guards[l]).subset_of(r.vars[l].to_set())
                &&& literal_vars(r.letters[l].0).subset_of(r.vars[l].to_set())
                &&& literal_vars(r.letters[l].1).subset_of(r.vars[l].to_set())
                &&& literal_vars(r.letters[l].2).subset_of(r.vars[l].to_set())
            } by {
                if l < st.guards.len() {
                    assert(r.guards[l] == st.guards[l]);
                    assert(r.vars[l] == st.vars[l]);
                    assert(r.letters[l] == st.letters[l]);
                } else {
                    assert(l == st.guards.len());
                    assert(r.vars[l] == vars);
                    assert(r.guards[l] == guard_of(guard));
                    match e {
                        Pexpr::Label(v) => {
                            assert(vars.contains(v@));
                            assert(vars.to_set().contains(v@));
                        },
                        Pexpr::Str(_) => {},
                    }
                }
            }
        },
        Stmt::For0(v, body) => {
            lemma_push_superset(vars, v@);
            lemma_walk_scoped(body@, body@.len() as int, path.push(index as usize), guard,
                vars.push(v@), enclosing.push(st.directions.len() as usize), record_loop(st, 0));
        },
        Stmt::For1(v, body) => {
            lemma_push_superset(vars, v@);
            lemma_walk_scoped(body@, body@.len() as int, path.push(index as usize), guard,
                vars.push(v@), enclosing.push(st.directions.len() as usize), record_loop(st, 1));
        },
        Stmt::If(c, body) => {
            lemma_walk_scoped(body@, body@.len() as int, path.push(index as usize),
                Some(strengthen(guard, c@)), vars, enclosing, st);
        },
    }
}

proof fn lemma_predicate_of(c: char, r: Seq<char>)
    requires
        c == 'a' || c == 'b' || c == '#',
    ensures
        letter_predicate(seq![c, '('] + r + seq![')']) == Some((c, r)),
{
    let t = seq![c, '('] + r + seq![')'];
    assert(t.subrange(2, t.len() - 1) =~= r);
}

proof fn lemma_renamed_found(map: Renaming, n: Seq<char>, i: int)
    requires
        0 <= i < map.len(),
        map[i].0 == n,
    ensures
        exists|i0: int| 0 <= i0 < map.len() && renamed(map, n) == #[trigger] map[i0].1,
    decreases i,
{
    if map[0].0 == n {
        assert(renamed(map, n) == map[0].1);
    } else {
        lemma_renamed_found(map.drop_first(), n, i - 1);
        let i0 = choose|i0: int| 0 <= i0 < map.drop_first().len() && renamed(map.drop_first(), n) == #[trigger] map.drop_first()[i0].1;
        assert(map[i0 + 1].1 == map.drop_first()[i0].1);
    }
}

proof fn lemma_renamed_absent(map: Renaming, n: Seq<char>)
    requires
        forall|i: int| 0 <= i < map.len() ==> #[trigger] map[i].0 != n,
    ensures
        renamed(map, n) == n,
    decreases map.len(),
{
    if map.len() > 0 {
        assert(map[0].0 != n);
        assert forall|i: int| 0 <= i < map.drop_first().len() implies #[trigger] map.drop_first()[i].0 != n by {
            assert(map.drop_first()[i] == map[i + 1]);
        }
        lemma_renamed_absent(map.drop_first(), n);
    }
}

proof fn lemma_renamed_canonical(vars: Seq<Seq<char>>, n: Seq<char>)
    requires
        vars.contains(n),
    ensures
        canonical_set('x', vars.len()).contains(renamed(renaming(vars), n)),
{
    let map = renaming(vars);
    let i = choose|i: int| 0 <= i < vars.len() && vars[i] == n;
    assert(map[vars.len() - 1 - i].0 == n);
    lemma_renamed_found(map, n, vars.len() - 1 - i);
    let i0 = choose|i0: int| 0 <= i0 < map.len() && renamed(map, n) == #[trigger] map[i0].1;
    let j = (vars.len() - i0) as nat;
    assert(renamed(map, n) == indexed_name('x', j));
}

proof fn lemma_rename_name(vars: Seq<Seq<char>>, n: Seq<char>)
    ensures
        vars.contains(n) ==> canonical_set('x', vars.len()).contains(renamed(renaming(vars), n)),
        !vars.contains(n) ==> renamed(renaming(vars), n) == n,
{
    if vars.contains(n) {
        lemma_renamed_canonical(vars, n);
    } else {
        let map = renaming(vars);
        assert forall|i: int| 0 <= i < map.len() implies #[trigger] map[i].0 != n by {
            assert(map[i].0 == vars[vars.len() - 1 - i]);
        }
        lemma_renamed_absent(map, n);
    }
}

proof fn lemma_rename_literal(s: Seq<char>, vars: Seq<Seq<char>>)
    requires
        literal_vars(s).subset_of(vars.to_set()),
    ensures
        literal_vars(rename_letter(s, renaming(vars))).subset_of(canonical_set('x', vars.len())),
{
    match letter_predicate(s) {
        Some(p) => {
            assert(literal_vars(s).contains(p.1));
            assert(vars.to_set().contains(p.1));
            lemma_rename_name(vars, p.1);
            lemma_predicate_of(p.0, renamed(renaming(vars), p.1));
        },
        None => {},
    }
}

proof fn lemma_rename_free(e: BexprV, vars: Seq<Seq<char>>)
    requires
        free_vars(e).subset_of(vars.to_set()),
    ensures
        free_vars(rename_bexpr(e, renaming(vars))).subset_of(canonical_set('x', vars.len())),
    decreases e,
{
    let map = renaming(vars);
    match e {
        BexprV::Var(n) => {
            lemma_rename_name(vars, n);
            if !(n == true_name() || n == false_name()) {
                assert(free_vars(e).contains(n));
            }
        },
        BexprV::Label(n) => {
            assert(free_vars(e).contains(n));
            lemma_rename_name(vars, n);
        },
        BexprV::Str(t) => {
            lemma_rename_literal(t, vars);
        },
        BexprV::LessEqual(l, r) => { lemma_rename_free(*l, vars); lemma_rename_free(*r, vars); },
        BexprV::Less(l, r) => { lemma_rename_free(*l, vars); lemma_rename_free(*r, vars); },
        BexprV::Equal(l, r) => { lemma_rename_free(*l, vars); lemma_rename_free(*r, vars); },
        BexprV::NotEqual(l, r) => { lemma_rename_free(*l, vars); lemma_rename_free(*r, vars); },
        BexprV::GreaterEqual(l, r) => { lemma_rename_free(*l, vars); lemma_rename_free(*r, vars); },
        BexprV::Greater(l, r) => { lemma_rename_free(*l, vars); lemma_rename_free(*r, vars); },
        BexprV::Not(i) => { lemma_rename_free(*i, vars); },
        BexprV::And(l, r) => { lemma_rename_free(*l, vars); lemma_rename_free(*r, vars); },
        BexprV::Or(l, r) => { lemma_rename_free(*l, vars); lemma_rename_free(*r, vars); },
    }
}

proof fn lemma_canonical_grows(c: char, p: nat, q: nat)
    requires
        p <= q,
    ensures
        canonical_set(c, p).subset_of(canonical_set(c, q)),
{
    assert forall|n: Seq<char>| canonical_set(c, p).contains(n) implies canonical_set(c, q).contains(n) by {
        let j = choose|j: nat| 1 <= j <= p && n == #[trigger] indexed_name(c, j);
        assert(1 <= j <= q && n == indexed_name(c, j));
    }
}

proof fn lemma_chain_free(loops: Seq<usize>, dirs: Seq<usize>, k: nat, p: nat, inclusive: bool)
    requires
        k < p,
    ensures
        free_vars(chain(loops, dirs, k, p, inclusive)).subset_of(canonical_set('x', p).union(canonical_set('y', p))),
    decreases p - k,
{
    lemma_name_not_constant('x', k + 1);
    lemma_name_not_constant('y', k + 1);
    let target = canonical_set('x', p).union(canonical_set('y', p));
    assert(canonical_set('x', p).contains(indexed_name('x', k + 1)));
    assert(canonical_set('y', p).contains(indexed_name('y', k + 1)));
    let pair = set![indexed_name('x', k + 1)].union(set![indexed_name('y', k + 1)]);
    assert(free_vars(xv(k + 1)) == set![indexed_name('x', k + 1)]);
    assert(free_vars(yv(k + 1)) == set![indexed_name('y', k + 1)]);
    assert(pair.subset_of(target));
    let dir = direction_of(dirs, loops[k as int]);
    assert(free_vars(precedes(dir, k + 1, true)) == pair);
    assert(free_vars(precedes(dir, k + 1, false)) == pair);
    if k + 1 < p {
        lemma_chain_free(loops, dirs, k + 1, p, inclusive);
        let rest = chain(loops, dirs, k + 1, p, inclusive);
        let eq = BexprV::Equal(Box::new(xv(k + 1)), Box::new(yv(k + 1)));
        assert(free_vars(eq) == pair);
        let conj = BexprV::And(Box::new(eq), Box::new(rest));
        assert(free_vars(conj) == pair.union(free_vars(rest)));
        assert(free_vars(conj).subset_of(target));
        assert(chain(loops, dirs, k, p, inclusive) == BexprV::Or(Box::new(precedes(dir, k + 1, true)), Box::new(conj)));
        assert(free_vars(chain(loops, dirs, k, p, inclusive)) == pair.union(free_vars(conj)));
    } else {
        assert(chain(loops, dirs, k, p, inclusive) == precedes(dir, k + 1, !inclusive));
    }
}

/// Every formula that a well-scoped program compiles to reads only the
/// canonical variables of its labels: the universe and letter formulas of
/// label `l` among `x1 .. x_arity(l)`, the order formula of `(l, m)` among
/// those and `y1 .. y_arity(m)`.
pub proof fn formulas_read_canonical_variables(stmts: Seq<Stmt>, l: int, m: int)
    requires
        well_scoped(stmts),
        0 <= l < program_labeling(stmts).labels.len(),
        0 <= m < program_labeling(stmts).labels.len(),
    ensures
        ({
            let st = program_labeling(stmts);
            let xs = canonical_set('x', st.vars[l].len());
            &&& free_vars(program_universe(stmts)[l].1).subset_of(xs)
            &&& free_vars(BexprV::Str(rename_letter(st.letters[l].0, renaming(st.vars[l])))).subset_of(xs)
            &&& free_vars(BexprV::Str(rename_letter(st.letters[l].1, renaming(st.vars[l])))).subset_of(xs)
            &&& free_vars(BexprV::Str(rename_letter(st.letters[l].2, renaming(st.vars[l])))).subset_of(xs)
            &&& free_vars(order_spec(st.loops[l], st.loops[m], st.directions, l <= m)).subset_of(
                    xs.union(canonical_set('y', st.vars[m].len())))
        }),
{
    let st = program_labeling(stmts);
    lemma_walk_aligned(stmts, stmts.len() as int, Seq::empty(), None, Seq::empty(), Seq::empty(), empty_labeling());
    lemma_walk_scoped(stmts, stmts.len() as int, Seq::empty(), None, Seq::empty(), Seq::empty(), empty_labeling());
    assert(free_vars(st.guards[l]).subset_of(st.vars[l].to_set()));
    lemma_rename_free(st.guards[l], st.vars[l]);
    lemma_rename_literal(st.letters[l].0, st.vars[l]);
    lemma_rename_literal(st.letters[l].1, st.vars[l]);
    lemma_rename_literal(st.letters[l].2, st.vars[l]);
    let la = st.loops[l];
    let lb = st.loops[m];
    assert(st.loops[l].len() == st.vars[l].len());
    assert(st.loops[m].len() == st.vars[m].len());
    lemma_common_prefix(la, lb, 0);
    let p = common_from(la, lb, 0);
    if p > 0 {
        lemma_chain_free(la, st.directions, 0, p, l <= m);
        lemma_canonical_grows('x', p, st.vars[l].len());
        lemma_canonical_grows('y', p, st.vars[m].len());
    }
}

/// The number of the letters `a`, `b` and `#` that occur in a literal.
pub open spec fn alphabet_count(s: Seq<char>) -> nat {
    (if s.contains('a') { 1nat } else { 0nat }) + (if s.contains('b') { 1nat } else { 0nat })
        + (if s.contains('#') { 1nat } else { 0nat })
}

/// Every literal that the first `k` statements print holds exactly one of
/// the letters `a`, `b`, `#`.
pub open spec fn block_prints_letters(stmts: Seq<Stmt>, k: int) -> bool
    decreases stmts, 0int, k,
{
    if k <= 0 || k > stmts.len() {
        true
    } else {
        block_prints_letters(stmts, k - 1) && stmt_prints_letters(stmts[k - 1])
    }
}

pub open spec fn stmt_prints_letters(s: Stmt) -> bool
    decreases s, 0int, 0int,
{
    match s {
        Stmt::Print(Pexpr::Label(_)) => true,
        Stmt::Print(Pexpr::Str(t)) => alphabet_count(t@) == 1,
        Stmt::For0(_, body) => block_prints_letters(body@, body@.len() as int),
        Stmt::For1(_, body) => block_prints_letters(body@, body@.len() as int),
        Stmt::If(_, body) => block_prints_letters(body@, body@.len() as int),
    }
}

/// The letter formulas of a label: the three letter predicates of one loop
/// variable, or the constants with exactly one `T`.
pub open spec fn partitioning_letters(t: (Seq<char>, Seq<char>, Seq<char>), vars: Seq<Seq<char>>) -> bool {
    ||| exists|v: Seq<char>| #![trigger vars.contains(v)] vars.contains(v)
            && t == (seq!['a', '('] + v + seq![')'], seq!['b', '('] + v + seq![')'], seq!['#', '('] + v + seq![')'])
    ||| t == (true_name(), false_name(), false_name())
    ||| t == (false_name(), true_name(), false_name())
    ||| t == (false_name(), false_name(), true_name())
}

pub open spec fn records_partitioning(st: LabelingV) -> bool {
    forall|l: int| 0 <= l < st.letters.len() && l < st.vars.len() ==> #[trigger] partitioning_letters(st.letters[l], st.vars[l])
}

pub proof fn lemma_walk_partitioning(
    stmts: Seq<Stmt>,
    k: int,
    path: Seq<usize>,
    guard: Option<BexprV>,
    vars: Seq<Seq<char>>,
    enclosing: Seq<usize>,
    st: LabelingV,
)
    requires
        crate::label::aligned_lengths(st),
        records_partitioning(st),
        block_scoped(stmts, k, vars),
        block_prints_letters(stmts, k),
    ensures
        records_partitioning(walk(stmts, k, path, guard, vars, enclosing, st)),
    decreases stmts, k,
{
    if k <= 0 || k > stmts.len() {
    } else {
        lemma_walk_partitioning(stmts, k - 1, path, guard, vars, enclosing, st);
        crate::label::lemma_walk_lengths(stmts, k - 1, path, guard, vars, enclosing, st);
        lemma_walk_stmt_partitioning(stmts[k - 1], k - 1, path, guard, vars, enclosing,
            walk(stmts, k - 1, path, guard, vars, enclosing, st));
    }
}

pub proof fn lemma_walk_stmt_partitioning(
    s: Stmt,
    index: int,
    path: Seq<usize>,
    guard: Option<BexprV>,
    vars: Seq<Seq<char>>,
    enclosing: Seq<usize>,
    st: LabelingV,
)
    requires
        crate::label::aligned_lengths(st),
        records_partitioning(st),
        stmt_scoped(s, vars),
        stmt_prints_letters(s),
    ensures
        records_partitioning(walk_stmt(s, index, path, guard, vars, enclosing, st)),
    decreases s, 0int,
{
    match s {
        Stmt::Print(e) => {
            let r = record_print(st, e, path.push(index as usize), guard, vars, enclosing);
            assert forall|l: int| 0 <= l < r.letters.len() && l < r.vars.len() implies #[trigger] partitioning_letters(r.letters[l], r.vars[l]) by {
                if l < st.letters.len() {
                    assert(r.letters[l] == st.letters[l]);
                    assert(r.vars[l] == st.vars[l]);
                } else {
                    assert(r.vars[l] == vars);
                    match e {
                        Pexpr::Label(v) => {
                            assert(vars.contains(v@));
                        },
                        Pexpr::Str(t) => {},
                    }
                }
            }
        },
        Stmt::For0(v, body) => {
            lemma_walk_partitioning(body@, body@.len() as int, path.push(index as usize), guard,
                vars.push(v@), enclosing.push(st.directions.len() as usize), record_loop(st, 0));
        },
        Stmt::For1(v, body) => {
            lemma_walk_partitioning(body@, body@.len() as int, path.push(index as usize), guard,
                vars.push(v@), enclosing.push(st.directions.len() as usize), record_loop(st, 1));
        },
        Stmt::If(c, body) => {
            lemma_walk_partitioning(body@, body@.len() as int, path.push(index as usize),
                Some(strengthen(guard, c@)), vars, enclosing, st);
        },
    }
}

/// Whether `c` is one of the letters `a`, `b`, `#`.
pub open spec fn in_alphabet(c: char) -> bool {
    c == 'a' || c == 'b' || c == '#'
}

proof fn lemma_literal_truth(s: Seq<char>, w: Seq<char>, env: Env)
    requires
        s == true_name() || s == false_name(),
    ensures
        resolve(BexprV::Str(s), w, env) == Ok::<Val, crate::bexpr_evaluator::EvalError>(truth(s == true_name())),
{
    assert(true_name() != false_name()) by {
        assert(true_name()[0] != false_name()[0]);
    }
}

proof fn lemma_predicate_truth(c: char, name: Seq<char>, w: Seq<char>, a: Seq<usize>, k: nat)
    requires
        c == 'a' || c == 'b' || c == '#',
        1 <= k <= a.len(),
        a[k - 1] < w.len(),
        name == indexed_name('x', k),
    ensures
        resolve(BexprV::Str(seq![c, '('] + name + seq![')']), w, position_env(x_name(), a))
            == Ok::<Val, crate::bexpr_evaluator::EvalError>(truth(w[a[k - 1] as int] == c)),
{
    let t = seq![c, '('] + name + seq![')'];
    lemma_predicate_of(c, name);
    assert(t != true_name() && t != false_name()) by {
        assert(t.len() > 2);
    }
    lemma_pair_lookup(a, Seq::empty(), k);
    assert(position_env(x_name(), a) + position_env(y_name(), Seq::<usize>::empty()) =~= position_env(x_name(), a));
}

/// Exactly one letter formula of each label holds, at every tuple of input
/// positions of its arity, on a word over `a`, `b`, `#` — for a well-scoped
/// program whose every printed literal holds exactly one of those letters.
pub proof fn letters_partition(stmts: Seq<Stmt>, l: int, w: Seq<char>, a: Seq<usize>)
    requires
        well_scoped(stmts),
        block_prints_letters(stmts, stmts.len() as int),
        0 <= l < program_labeling(stmts).labels.len(),
        a.len() == program_labeling(stmts).vars[l].len(),
        forall|i: int| 0 <= i < a.len() ==> a[i] < w.len(),
        forall|i: int| 0 <= i < w.len() ==> in_alphabet(#[trigger] w[i]),
    ensures
        ({
            let st = program_labeling(stmts);
            let ren = renaming(st.vars[l]);
            let env = position_env(x_name(), a);
            let ha = holds(BexprV::Str(rename_letter(st.letters[l].0, ren)), w, env);
            let hb = holds(BexprV::Str(rename_letter(st.letters[l].1, ren)), w, env);
            let hh = holds(BexprV::Str(rename_letter(st.letters[l].2, ren)), w, env);
            &&& ha is Ok && hb is Ok && hh is Ok
            &&& (if ha->Ok_0 { 1int } else { 0int }) + (if hb->Ok_0 { 1int } else { 0int }) + (if hh->Ok_0 { 1int } else { 0int }) == 1
        }),
{
    let st = program_labeling(stmts);
    let vars = st.vars[l];
    let ren = renaming(vars);
    let env = position_env(x_name(), a);
    lemma_walk_aligned(stmts, stmts.len() as int, Seq::empty(), None, Seq::empty(), Seq::empty(), empty_labeling());
    lemma_walk_partitioning(stmts, stmts.len() as int, Seq::empty(), None, Seq::empty(), Seq::empty(), empty_labeling());
    let t = st.letters[l];
    assert(partitioning_letters(t, vars));
    if exists|v: Seq<char>| #![trigger vars.contains(v)] vars.contains(v)
        && t == (seq!['a', '('] + v + seq![')'], seq!['b', '('] + v + seq![')'], seq!['#', '('] + v + seq![')']) {
        let v = choose|v: Seq<char>| #![trigger vars.contains(v)] vars.contains(v)
            && t == (seq!['a', '('] + v + seq![')'], seq!['b', '('] + v + seq![')'], seq!['#', '('] + v + seq![')']);
        lemma_renamed_canonical(vars, v);
        let name = renamed(ren, v);
        let k = choose|k: nat| 1 <= k <= vars.len() && name == #[trigger] indexed_name('x', k);
        lemma_predicate_of('a', v);
        lemma_predicate_of('b', v);
        lemma_predicate_of('#', v);
        assert(rename_letter(t.0, ren) == seq!['a', '('] + name + seq![')']);
        assert(rename_letter(t.1, ren) == seq!['b', '('] + name + seq![')']);
        assert(rename_letter(t.2, ren) == seq!['#', '('] + name + seq![')']);
        lemma_predicate_truth('a', name, w, a, k);
        lemma_predicate_truth('b', name, w, a, k);
        lemma_predicate_truth('#', name, w, a, k);
        assert(in_alphabet(w[a[k - 1] as int]));
    } else {
        lemma_literal_truth(t.0, w, env);
        lemma_literal_truth(t.1, w, env);
        lemma_literal_truth(t.2, w, env);
        assert(letter_predicate(true_name()) is None);
        assert(letter_predicate(false_name()) is None);
        assert(true_name() != false_name()) by {
            assert(true_name()[0] != false_name()[0]);
        }
    }
}

/// Evaluation is a function of the interpretation and the word: any two
/// results that meet the contract of `evaluate` on the same inputs are equal.
pub proof fn evaluation_is_deterministic(
    qf: QfInterpretation,
    w: Seq<char>,
    r1: Result<Seq<char>, QfFault>,
    r2: Result<Seq<char>, QfFault>,
)
    requires
        r1 == qf.output(w),
        r2 == qf.output(w),
    ensures
        r1 == r2,
{
}

/// The length of the longest common prefix of two loop stacks.
pub open spec fn cp(a: Seq<usize>, b: Seq<usize>) -> nat {
    common_from(a, b, 0)
}

/// Every loop number in the stacks is below `n`.
pub open spec fn ids_below(loops: Seq<Seq<usize>>, n: nat) -> bool {
    forall|l: int, d: int| 0 <= l < loops.len() && 0 <= d < loops[l].len() ==> #[trigger] loops[l][d] < n
}

/// The loop stacks of labels in program order nest: a label shares no more
/// loops with a later label than with any label in between.
pub open spec fn nested(loops: Seq<Seq<usize>>) -> bool {
    forall|l1: int, l2: int, l3: int| #![trigger loops[l1], loops[l2], loops[l3]]
        0 <= l1 < l2 < l3 < loops.len() ==> cp(loops[l1], loops[l3]) <= cp(loops[l1], loops[l2])
}

/// The loop stack `e` shares no more loops with a label than any later label does.
pub open spec fn stack_below(loops: Seq<Seq<usize>>, e: Seq<usize>) -> bool {
    forall|l1: int, l2: int| #![trigger loops[l1], loops[l2]]
        0 <= l1 < l2 < loops.len() ==> cp(loops[l1], e) <= cp(loops[l1], loops[l2])
}

pub open spec fn has_prefix(a: Seq<usize>, e: Seq<usize>) -> bool {
    e.len() <= a.len() && a.subrange(0, e.len() as int) == e
}

proof fn lemma_cp_char(a: Seq<usize>, b: Seq<usize>)
    ensures
        cp(a, b) <= a.len(),
        cp(a, b) <= b.len(),
        cp(b, a) == cp(a, b),
        forall|j: int| 0 <= j < cp(a, b) ==> a[j] == b[j],
        cp(a, b) < a.len() && cp(a, b) < b.len() ==> a[cp(a, b) as int] != b[cp(a, b) as int],
{
    lemma_common_prefix(a, b, 0);
    lemma_common_stop(a, b, 0);
}

proof fn lemma_common_stop(a: Seq<usize>, b: Seq<usize>, k: nat)
    requires
        k <= a.len(),
        k <= b.len(),
    ensures
        common_from(a, b, k) < a.len() && common_from(a, b, k) < b.len() ==>
            a[common_from(a, b, k) as int] != b[common_from(a, b, k) as int],
    decreases a.len() - k,
{
    if k < a.len() && k < b.len() && a[k as int] == b[k as int] {
        lemma_common_stop(a, b, k + 1);
    }
}

/// A length that meets the description of the common prefix is it.
proof fn lemma_cp_unique(a: Seq<usize>, b: Seq<usize>, c: nat)
    requires
        c <= a.len(),
        c <= b.len(),
        forall|j: int| 0 <= j < c ==> a[j] == b[j],
        c < a.len() && c < b.len() ==> a[c as int] != b[c as int],
    ensures
        cp(a, b) == c,
{
    lemma_cp_char(a, b);
    let p = cp(a, b);
    if p < c {
        assert(a[p as int] == b[p as int]);
    } else if p > c {
        assert(a[c as int] == b[c as int]);
    }
}

/// Three stacks: the first and third share at least as much as the least
/// of the other two pairs.
proof fn lemma_cp_min(a: Seq<usize>, b: Seq<usize>, c: Seq<usize>)
    ensures
        cp(a, c) >= if cp(a, b) < cp(b, c) { cp(a, b) } else { cp(b, c) },
{
    lemma_cp_char(a, b);
    lemma_cp_char(b, c);
    lemma_cp_char(a, c);
    let m = if cp(a, b) < cp(b, c) { cp(a, b) } else { cp(b, c) };
    if cp(a, c) < m {
        assert(a[cp(a, c) as int] == b[cp(a, c) as int]);
        assert(b[cp(a, c) as int] == c[cp(a, c) as int]);
    }
}

proof fn lemma_cp_fresh(a: Seq<usize>, e: Seq<usize>, fresh: usize)
    requires
        forall|d: int| 0 <= d < a.len() ==> a[d] != fresh,
    ensures
        cp(a, e.push(fresh)) == cp(a, e),
{
    lemma_cp_char(a, e);
    let c = cp(a, e);
    let e2 = e.push(fresh);
    assert forall|j: int| 0 <= j < c implies a[j] == e2[j] by {
        assert(e2[j] == e[j]);
    }
    if c < e.len() {
        if c < a.len() {
            assert(e2[c as int] == e[c as int]);
        }
    }
    lemma_cp_unique(a, e2, c);
}

proof fn lemma_cp_prefix(a: Seq<usize>, b: Seq<usize>, e: Seq<usize>)
    requires
        has_prefix(b, e),
    ensures
        cp(a, b) >= cp(a, e),
{
    lemma_cp_char(a, e);
    lemma_cp_char(a, b);
    let c = cp(a, e);
    if cp(a, b) < c {
        let p = cp(a, b);
        assert(b[p as int] == b.subrange(0, e.len() as int)[p as int]);
        assert(a[p as int] == e[p as int]);
    }
}

proof fn lemma_cp_both_prefix(a: Seq<usize>, b: Seq<usize>, e: Seq<usize>)
    requires
        has_prefix(a, e),
        has_prefix(b, e),
    ensures
        cp(a, b) >= e.len(),
        cp(a, e) == e.len(),
{
    lemma_cp_char(a, b);
    if cp(a, b) < e.len() {
        let p = cp(a, b);
        assert(a[p as int] == a.subrange(0, e.len() as int)[p as int]);
        assert(b[p as int] == b.subrange(0, e.len() as int)[p as int]);
    }
    assert forall|j: int| 0 <= j < e.len() implies a[j] == e[j] by {
        assert(a[j] == a.subrange(0, e.len() as int)[j]);
    }
    lemma_cp_unique(a, e, e.len());
}

proof fn lemma_walk_grows(
    stmts: Seq<Stmt>,
    k: int,
    path: Seq<usize>,
    guard: Option<BexprV>,
    vars: Seq<Seq<char>>,
    e: Seq<usize>,
    st: LabelingV,
)
    ensures
        walk(stmts, k, path, guard, vars, e, st).directions.len() >= st.directions.len(),
    decreases stmts, k,
{
    if k <= 0 || k > stmts.len() {
    } else {
        lemma_walk_grows(stmts, k - 1, path, guard, vars, e, st);
        lemma_walk_stmt_grows(stmts[k - 1], k - 1, path, guard, vars, e, walk(stmts, k - 1, path, guard, vars, e, st));
    }
}

proof fn lemma_walk_stmt_grows(
    s: Stmt,
    index: int,
    path: Seq<usize>,
    guard: Option<BexprV>,
    vars: Seq<Seq<char>>,
    e: Seq<usize>,
    st: LabelingV,
)
    ensures
        walk_stmt(s, index, path, guard, vars, e, st).directions.len() >= st.directions.len(),
    decreases s, 0int,
{
    match s {
        Stmt::Print(_) => {},
        Stmt::For0(v, body) => {
            lemma_walk_grows(body@, body@.len() as int, path.push(index as usize), guard,
                vars.push(v@), e.push(st.directions.len() as usize), record_loop(st, 0));
        },
        Stmt::For1(v, body) => {
            lemma_walk_grows(body@, body@.len() as int, path.push(index as usize), guard,
                vars.push(v@), e.push(st.directions.len() as usize), record_loop(st, 1));
        },
        Stmt::If(c, body) => {
            lemma_walk_grows(body@, body@.len() as int, path.push(index as usize),
                Some(strengthen(guard, c@)), vars, e, st);
        },
    }
}

/// What a walk keeps and adds: earlier records unchanged, new labels inside
/// the loops `e`, loop numbers fresh, and the stacks nested.
pub open spec fn walk_nests(st: LabelingV, st2: LabelingV, e: Seq<usize>) -> bool {
    &&& st2.loops.len() >= st.loops.len()
    &&& st2.directions.len() >= st.directions.len()
    &&& forall|l: int| 0 <= l < st.loops.len() ==> #[trigger] st2.loops[l] == st.loops[l]
    &&& forall|l: int| st.loops.len() <= l < st2.loops.len() ==> has_prefix(#[trigger] st2.loops[l], e)
    &&& ids_below(st2.loops, st2.directions.len())
    &&& nested(st2.loops)
    &&& stack_below(st2.loops, e)
}

pub open spec fn walk_nest_pre(st: LabelingV, e: Seq<usize>) -> bool {
    &&& ids_below(st.loops, st.directions.len())
    &&& forall|d: int| 0 <= d < e.len() ==> #[trigger] e[d] < st.directions.len()
    &&& nested(st.loops)
    &&& stack_below(st.loops, e)
}

proof fn lemma_nests_compose(st: LabelingV, st1: LabelingV, st2: LabelingV, e: Seq<usize>)
    requires
        walk_nests(st, st1, e),
        walk_nests(st1, st2, e),
    ensures
        walk_nests(st, st2, e),
{
    assert forall|l: int| 0 <= l < st.loops.len() implies #[trigger] st2.loops[l] == st.loops[l] by {
        assert(st2.loops[l] == st1.loops[l]);
        assert(st1.loops[l] == st.loops[l]);
    }
    assert forall|l: int| st.loops.len() <= l < st2.loops.len() implies has_prefix(#[trigger] st2.loops[l], e) by {
        if l < st1.loops.len() {
            assert(st2.loops[l] == st1.loops[l]);
        }
    }
}

proof fn lemma_nests_refl(st: LabelingV, e: Seq<usize>)
    requires
        walk_nest_pre(st, e),
    ensures
        walk_nests(st, st, e),
{
}

pub proof fn lemma_walk_nests(
    stmts: Seq<Stmt>,
    k: int,
    path: Seq<usize>,
    guard: Option<BexprV>,
    vars: Seq<Seq<char>>,
    e: Seq<usize>,
    st: LabelingV,
)
    requires
        walk_nest_pre(st, e),
        walk(stmts, k, path, guard, vars, e, st).directions.len() < usize::MAX,
    ensures
        walk_nests(st, walk(stmts, k, path, guard, vars, e, st), e),
    decreases stmts, 0int, k,
{
    if k <= 0 || k > stmts.len() {
        lemma_nests_refl(st, e);
    } else {
        let st1 = walk(stmts, k - 1, path, guard, vars, e, st);
        lemma_walk_stmt_grows(stmts[k - 1], k - 1, path, guard, vars, e, st1);
        lemma_walk_nests(stmts, k - 1, path, guard, vars, e, st);
        assert forall|d: int| 0 <= d < e.len() implies #[trigger] e[d] < st1.directions.len() by {}
        lemma_walk_stmt_nests(stmts[k - 1], k - 1, path, guard, vars, e, st1);
        lemma_nests_compose(st, st1, walk(stmts, k, path, guard, vars, e, st), e);
    }
}

pub proof fn lemma_walk_stmt_nests(
    s: Stmt,
    index: int,
    path: Seq<usize>,
    guard: Option<BexprV>,
    vars: Seq<Seq<char>>,
    e: Seq<usize>,
    st: LabelingV,
)
    requires
        walk_nest_pre(st, e),
        walk_stmt(s, index, path, guard, vars, e, st).directions.len() < usize::MAX,
    ensures
        walk_nests(st, walk_stmt(s, index, path, guard, vars, e, st), e),
    decreases s, 0int, 0int,
{
    match s {
        Stmt::Print(p) => {
            let r = record_print(st, p, path.push(index as usize), guard, vars, e);
            let n = st.loops.len() as int;
            assert(r.loops == st.loops.push(e));
            assert(has_prefix(e, e)) by {
                assert(e.subrange(0, e.len() as int) =~= e);
            }
            assert forall|l1: int, l2: int, l3: int| #![trigger r.loops[l1], r.loops[l2], r.loops[l3]]
                0 <= l1 < l2 < l3 < r.loops.len() implies cp(r.loops[l1], r.loops[l3]) <= cp(r.loops[l1], r.loops[l2]) by {
                if l3 < n {
                    assert(r.loops[l1] == st.loops[l1] && r.loops[l2] == st.loops[l2] && r.loops[l3] == st.loops[l3]);
                } else {
                    assert(r.loops[l1] == st.loops[l1] && r.loops[l2] == st.loops[l2] && r.loops[l3] == e);
                }
            }
            assert forall|l1: int, l2: int| #![trigger r.loops[l1], r.loops[l2]]
                0 <= l1 < l2 < r.loops.len() implies cp(r.loops[l1], e) <= cp(r.loops[l1], r.loops[l2]) by {
                if l2 < n {
                    assert(r.loops[l1] == st.loops[l1] && r.loops[l2] == st.loops[l2]);
                } else {
                    assert(r.loops[l2] == e);
                }
            }
            assert forall|l: int, d: int| 0 <= l < r.loops.len() && 0 <= d < r.loops[l].len() implies #[trigger] r.loops[l][d] < r.directions.len() by {
                if l < n {
                    assert(r.loops[l] == st.loops[l]);
                } else {
                    assert(r.loops[l] == e);
                }
            }
        },
        Stmt::For0(v, body) => {
            lemma_loop_nests(body@, index, path, guard, vars, v@, e, st, 0);
        },
        Stmt::For1(v, body) => {
            lemma_loop_nests(body@, index, path, guard, vars, v@, e, st, 1);
        },
        Stmt::If(c, body) => {
            lemma_walk_nests(body@, body@.len() as int, path.push(index as usize),
                Some(strengthen(guard, c@)), vars, e, st);
        },
    }
}

proof fn lemma_loop_nests(
    body: Seq<Stmt>,
    index: int,
    path: Seq<usize>,
    guard: Option<BexprV>,
    vars: Seq<Seq<char>>,
    v: Seq<char>,
    e: Seq<usize>,
    st: LabelingV,
    dir: usize,
)
    requires
        walk_nest_pre(st, e),
        walk(body, body.len() as int, path.push(index as usize), guard, vars.push(v),
            e.push(st.directions.len() as usize), record_loop(st, dir)).directions.len() < usize::MAX,
    ensures
        walk_nests(st, walk(body, body.len() as int, path.push(index as usize), guard, vars.push(v),
            e.push(st.directions.len() as usize), record_loop(st, dir)), e),
    decreases body, 1int, 0int,
{
    lemma_walk_grows(body, body.len() as int, path.push(index as usize), guard, vars.push(v),
        e.push(st.directions.len() as usize), record_loop(st, dir));
    assert(st.directions.len() < usize::MAX);
    let fresh = st.directions.len() as usize;
    let e2 = e.push(fresh);
    let st1 = record_loop(st, dir);
    assert forall|l1: int| 0 <= l1 < st.loops.len() implies cp(#[trigger] st.loops[l1], e2) == cp(st.loops[l1], e) by {
        assert forall|d: int| 0 <= d < st.loops[l1].len() implies st.loops[l1][d] != fresh by {
            assert(st.loops[l1][d] < st.directions.len());
        }
        lemma_cp_fresh(st.loops[l1], e, fresh);
    }
    assert(walk_nest_pre(st1, e2)) by {
        assert forall|d: int| 0 <= d < e2.len() implies #[trigger] e2[d] < st1.directions.len() by {
            if d < e.len() {
                assert(e2[d] == e[d]);
            }
        }
        assert forall|l1: int, l2: int| #![trigger st1.loops[l1], st1.loops[l2]]
            0 <= l1 < l2 < st1.loops.len() implies cp(st1.loops[l1], e2) <= cp(st1.loops[l1], st1.loops[l2]) by {
            assert(cp(st.loops[l1], e2) == cp(st.loops[l1], e));
        }
    }
    lemma_walk_nests(body, body.len() as int, path.push(index as usize), guard, vars.push(v), e2, st1);
    let st2 = walk(body, body.len() as int, path.push(index as usize), guard, vars.push(v), e2, st1);
    assert forall|l: int| st.loops.len() <= l < st2.loops.len() implies has_prefix(#[trigger] st2.loops[l], e) by {
        assert(has_prefix(st2.loops[l], e2));
        assert(st2.loops[l].subrange(0, e.len() as int) =~= st2.loops[l].subrange(0, e2.len() as int).subrange(0, e.len() as int));
        assert(e2.subrange(0, e.len() as int) =~= e);
    }
    assert forall|l1: int, l2: int| #![trigger st2.loops[l1], st2.loops[l2]]
        0 <= l1 < l2 < st2.loops.len() implies cp(st2.loops[l1], e) <= cp(st2.loops[l1], st2.loops[l2]) by {
        if l2 < st.loops.len() {
            assert(st2.loops[l1] == st.loops[l1] && st2.loops[l2] == st.loops[l2]);
        } else if l1 < st.loops.len() {
            assert(st2.loops[l1] == st.loops[l1]);
            lemma_cp_prefix(st2.loops[l1], st2.loops[l2], e);
        } else {
            lemma_cp_both_prefix(st2.loops[l1], st2.loops[l2], e);
        }
    }
}

/// The first index in `k .. p` where `a` and `b` differ, or `p`.
pub open spec fn first_difference(a: Seq<usize>, b: Seq<usize>, k: nat, p: nat) -> nat
    decreases p - k,
{
    if k >= p {
        p
    } else if a[k as int] != b[k as int] {
        k
    } else {
        first_difference(a, b, k + 1, p)
    }
}

proof fn lemma_first_difference(a: Seq<usize>, b: Seq<usize>, k: nat, p: nat)
    requires
        k <= p,
        p <= a.len(),
        p <= b.len(),
    ensures
        k <= first_difference(a, b, k, p) <= p,
        forall|j: int| k <= j < first_difference(a, b, k, p) ==> a[j] == b[j],
        first_difference(a, b, k, p) < p ==> a[first_difference(a, b, k, p) as int] != b[first_difference(a, b, k, p) as int],
    decreases p - k,
{
    if k < p && a[k as int] == b[k as int] {
        lemma_first_difference(a, b, k + 1, p);
    }
}

proof fn lemma_first_difference_unique(a: Seq<usize>, b: Seq<usize>, p: nat, f: nat)
    requires
        f <= p,
        p <= a.len(),
        p <= b.len(),
        forall|j: int| 0 <= j < f ==> a[j] == b[j],
        f < p ==> a[f as int] != b[f as int],
    ensures
        first_difference(a, b, 0, p) == f,
{
    lemma_first_difference(a, b, 0, p);
    let g = first_difference(a, b, 0, p);
    if g < f {
        assert(a[g as int] == b[g as int]);
    } else if g > f {
        assert(a[f as int] == b[f as int]);
    }
}

proof fn lemma_lex_first_difference(a: Seq<usize>, b: Seq<usize>, loops: Seq<usize>, dirs: Seq<usize>, k: nat, p: nat, inclusive: bool)
    requires
        k < p,
        p <= a.len(),
        p <= b.len(),
        p <= loops.len(),
    ensures
        lex_holds(a, b, loops, dirs, k, p, inclusive) == ({
            let f = first_difference(a, b, k, p);
            if f < p {
                step_holds(direction_of(dirs, loops[f as int]), a[f as int], b[f as int], true)
            } else {
                inclusive
            }
        }),
    decreases p - k,
{
    let dir = direction_of(dirs, loops[k as int]);
    if a[k as int] != b[k as int] {
        assert(first_difference(a, b, k, p) == k);
        lemma_strict_total(dir, a[k as int], b[k as int], b[k as int]);
    } else {
        assert(first_difference(a, b, k, p) == first_difference(a, b, k + 1, p));
        assert(!step_holds(dir, a[k as int], b[k as int], true));
        if k + 1 < p {
            lemma_lex_first_difference(a, b, loops, dirs, k + 1, p, inclusive);
        } else {
            assert(first_difference(a, b, k + 1, p) == p);
        }
    }
}

/// Whether the `i`-th `print` at `a` fires no later than the `j`-th at `b`,
/// given their loop stacks: by the first loop they share where the
/// positions differ, else by their order in the program.
pub open spec fn fires_before(la: Seq<usize>, lb: Seq<usize>, dirs: Seq<usize>, i: int, j: int, a: Seq<usize>, b: Seq<usize>) -> bool {
    let p = cp(la, lb);
    let f = first_difference(a, b, 0, p);
    if f < p {
        step_holds(direction_of(dirs, la[f as int]), a[f as int], b[f as int], true)
    } else {
        i <= j
    }
}

proof fn lemma_order_meaning(la: Seq<usize>, lb: Seq<usize>, dirs: Seq<usize>, i: int, j: int, w: Seq<char>, a: Seq<usize>, b: Seq<usize>)
    requires
        a.len() == la.len(),
        b.len() == lb.len(),
    ensures
        holds(order_spec(la, lb, dirs, i <= j), w, position_env(x_name(), a) + position_env(y_name(), b))
            == Ok::<bool, crate::bexpr_evaluator::EvalError>(fires_before(la, lb, dirs, i, j, a, b)),
{
    lemma_cp_char(la, lb);
    let p = cp(la, lb);
    if p == 0 {
        assert(true_name()[0] != false_name()[0]);
        assert(resolve(BexprV::Var(true_name()), w, position_env(x_name(), a) + position_env(y_name(), b))
            == Ok::<Val, crate::bexpr_evaluator::EvalError>(Val::Num(1)));
        assert(resolve(BexprV::Var(false_name()), w, position_env(x_name(), a) + position_env(y_name(), b))
            == Ok::<Val, crate::bexpr_evaluator::EvalError>(Val::Num(0)));
    } else {
        lemma_chain_holds(w, a, b, la, dirs, 0, p, i <= j);
        lemma_lex_first_difference(a, b, la, dirs, 0, p, i <= j);
    }
}

proof fn lemma_strict_total(dir: usize, x: usize, y: usize, z: usize)
    ensures
        step_holds(dir, x, y, true) && step_holds(dir, y, z, true) ==> step_holds(dir, x, z, true),
        x != y ==> step_holds(dir, x, y, true) || step_holds(dir, y, x, true),
        step_holds(dir, x, y, true) ==> x != y,
{
}

proof fn lemma_ultrametric(loops: Seq<Seq<usize>>, l1: int, l2: int, l3: int)
    requires
        nested(loops),
        0 <= l1 < l2 < l3 < loops.len(),
    ensures
        cp(loops[l1], loops[l3]) <= cp(loops[l1], loops[l2]),
        cp(loops[l1], loops[l3]) <= cp(loops[l2], loops[l3]),
{
    let (a, b, c) = (loops[l1], loops[l2], loops[l3]);
    lemma_cp_char(a, b);
    lemma_cp_char(b, c);
    lemma_cp_char(a, c);
    lemma_cp_min(b, a, c);
}

/// The comparison of output positions of a compiled program is transitive.
pub proof fn order_is_transitive(
    stmts: Seq<Stmt>,
    i: int,
    j: int,
    k: int,
    w: Seq<char>,
    a: Seq<usize>,
    b: Seq<usize>,
    c: Seq<usize>,
)
    requires
        program_labeling(stmts).directions.len() < usize::MAX,
        0 <= i < program_labeling(stmts).labels.len(),
        0 <= j < program_labeling(stmts).labels.len(),
        0 <= k < program_labeling(stmts).labels.len(),
        a.len() == program_labeling(stmts).vars[i].len(),
        b.len() == program_labeling(stmts).vars[j].len(),
        c.len() == program_labeling(stmts).vars[k].len(),
        ({
            let st = program_labeling(stmts);
            &&& holds(order_spec(st.loops[i], st.loops[j], st.directions, i <= j), w,
                    position_env(x_name(), a) + position_env(y_name(), b)) == Ok::<bool, crate::bexpr_evaluator::EvalError>(true)
            &&& holds(order_spec(st.loops[j], st.loops[k], st.directions, j <= k), w,
                    position_env(x_name(), b) + position_env(y_name(), c)) == Ok::<bool, crate::bexpr_evaluator::EvalError>(true)
        }),
    ensures
        ({
            let st = program_labeling(stmts);
            holds(order_spec(st.loops[i], st.loops[k], st.directions, i <= k), w,
                position_env(x_name(), a) + position_env(y_name(), c)) == Ok::<bool, crate::bexpr_evaluator::EvalError>(true)
        }),
{
    let st = program_labeling(stmts);
    lemma_walk_aligned(stmts, stmts.len() as int, Seq::empty(), None, Seq::empty(), Seq::empty(), empty_labeling());
    lemma_walk_nests(stmts, stmts.len() as int, Seq::empty(), None, Seq::empty(), Seq::empty(), empty_labeling());
    let loops = st.loops;
    let dirs = st.directions;
    let (li, lj, lk) = (loops[i], loops[j], loops[k]);
    assert(loops[i].len() == st.vars[i].len());
    assert(loops[j].len() == st.vars[j].len());
    assert(loops[k].len() == st.vars[k].len());
    lemma_order_meaning(li, lj, dirs, i, j, w, a, b);
    lemma_order_meaning(lj, lk, dirs, j, k, w, b, c);
    lemma_order_meaning(li, lk, dirs, i, k, w, a, c);
    lemma_cp_char(li, lj);
    lemma_cp_char(lj, lk);
    lemma_cp_char(li, lk);
    lemma_cp_min(li, lj, lk);
    lemma_cp_min(lj, li, lk);
    lemma_cp_min(li, lk, lj);
    let pij = cp(li, lj);
    let pjk = cp(lj, lk);
    let pik = cp(li, lk);
    lemma_first_difference(a, b, 0, pij);
    lemma_first_difference(b, c, 0, pjk);
    let f1 = first_difference(a, b, 0, pij);
    let f2 = first_difference(b, c, 0, pjk);
    let m = if pij < pjk { pij } else { pjk };
    assert(pik >= m);
    if f1 < pij && f2 < pjk {
        let d = if f1 < f2 { f1 } else { f2 };
        assert(li[d as int] == lj[d as int] && lj[d as int] == lk[d as int]);
        let dir = direction_of(dirs, li[d as int]);
        lemma_strict_total(dir, a[d as int], b[d as int], c[d as int]);
        assert(step_holds(dir, a[d as int], c[d as int], true));
        lemma_first_difference_unique(a, c, pik, d);
    } else if f1 < pij {
        if f1 < pjk {
            assert(li[f1 as int] == lj[f1 as int]);
            assert(c[f1 as int] == b[f1 as int]);
            lemma_strict_total(direction_of(dirs, li[f1 as int]), a[f1 as int], b[f1 as int], c[f1 as int]);
            lemma_first_difference_unique(a, c, pik, f1);
        } else {
            if k < i {
                if j == k {
                    assert(pij <= lj.len());
                } else {
                    lemma_ultrametric(loops, j, k, i);
                    lemma_cp_char(lk, li);
                }
            }
            assert(pik == pjk);
            lemma_first_difference_unique(a, c, pik, pik);
        }
    } else if f2 < pjk {
        if f2 < pij {
            assert(lj[f2 as int] == lk[f2 as int]);
            assert(li[f2 as int] == lj[f2 as int]);
            assert(a[f2 as int] == b[f2 as int]);
            lemma_strict_total(direction_of(dirs, li[f2 as int]), a[f2 as int], b[f2 as int], c[f2 as int]);
            lemma_first_difference_unique(a, c, pik, f2);
        } else {
            if k < i {
                if i == j {
                    assert(pjk <= lj.len());
                } else {
                    lemma_ultrametric(loops, k, i, j);
                    lemma_cp_char(lk, li);
                    lemma_cp_char(lk, lj);
                }
            }
            assert(pik == pij);
            lemma_first_difference_unique(a, c, pik, pik);
        }
    } else {
        if i < j && j < k {
            lemma_ultrametric(loops, i, j, k);
        }
        assert(pik == m);
        lemma_first_difference_unique(a, c, pik, pik);
    }
}

proof fn lemma_order_table_len(loops: Seq<Seq<usize>>, dirs: Seq<usize>, m: nat)
    ensures
        order_table(loops, dirs, m).len() == m * loops.len(),
    decreases m,
{
    if m > 0 {
        lemma_order_table_len(loops, dirs, (m - 1) as nat);
        assert(order_table(loops, dirs, m).len() == order_table(loops, dirs, (m - 1) as nat).len() + loops.len());
        let l = loops.len() as int;
        let mm = m as int;
        assert((mm - 1) * l + l == mm * l) by (nonlinear_arith);
        assert(((m - 1) as nat) as int == mm - 1);
        assert(order_table(loops, dirs, (m - 1) as nat).len() == (mm - 1) * l);
        assert(m * loops.len() == mm * l);
    } else {
        let l = loops.len() as int;
        assert(0 * l == 0) by (nonlinear_arith);
    }
}

proof fn lemma_order_table_entry(loops: Seq<Seq<usize>>, dirs: Seq<usize>, m: nat, r: int, c: int)
    requires
        0 <= r < m,
        0 <= c < loops.len(),
        m <= loops.len() <= usize::MAX,
    ensures
        r * loops.len() + c < order_table(loops, dirs, m).len(),
        order_table(loops, dirs, m)[r * loops.len() + c]
            == (r as usize, c as usize, order_spec(loops[r], loops[c], dirs, r <= c)),
    decreases m,
{
    let l = loops.len() as int;
    lemma_order_table_len(loops, dirs, m);
    lemma_order_table_len(loops, dirs, (m - 1) as nat);
    if r < m - 1 {
        lemma_order_table_entry(loops, dirs, (m - 1) as nat, r, c);
    } else {
        assert(r * l + c == (m - 1) * l + c);
    }
    assert(r * l + c < m * l) by (nonlinear_arith) requires 0 <= r < m, 0 <= c < l;
}

proof fn lemma_find_order_at(o: Seq<(usize, usize, crate::ast::Bexpr)>, a: usize, b: usize, k: int)
    requires
        0 <= k < o.len(),
        o[k].0 == a && o[k].1 == b,
        forall|q: int| 0 <= q < k ==> !(#[trigger] o[q].0 == a && o[q].1 == b),
    ensures
        find_order(o, a, b) == Some(o[k].2),
    decreases k,
{
    if k > 0 {
        assert forall|q: int| 0 <= q < k - 1 implies !(#[trigger] o.drop_first()[q].0 == a && o.drop_first()[q].1 == b) by {
            assert(o.drop_first()[q] == o[q + 1]);
        }
        lemma_find_order_at(o.drop_first(), a, b, k - 1);
    }
}

/// The order formula that a compiled interpretation holds for labels `i`
/// and `j` is the one the order synthesis gives.
pub proof fn lemma_compiled_order_formula(stmts: Seq<Stmt>, o: Seq<(usize, usize, crate::ast::Bexpr)>, i: int, j: int)
    requires
        order_view(o) == program_order(stmts),
        program_labeling(stmts).labels.len() <= usize::MAX,
        0 <= i < program_labeling(stmts).labels.len(),
        0 <= j < program_labeling(stmts).labels.len(),
    ensures
        ({
            let st = program_labeling(stmts);
            &&& find_order(o, i as usize, j as usize) is Some
            &&& find_order(o, i as usize, j as usize)->0@ == order_spec(st.loops[i], st.loops[j], st.directions, i <= j)
        }),
{
    let st = program_labeling(stmts);
    lemma_walk_aligned(stmts, stmts.len() as int, Seq::empty(), None, Seq::empty(), Seq::empty(), empty_labeling());
    let loops = st.loops;
    let l = loops.len() as int;
    let t = order_table(loops, st.directions, l as nat);
    lemma_order_table_len(loops, st.directions, l as nat);
    lemma_order_table_entry(loops, st.directions, l as nat, i, j);
    let k = i * l + j;
    assert(o.len() == t.len());
    assert(order_view(o)[k] == t[k]);
    assert forall|q: int| 0 <= q < k implies !(#[trigger] o[q].0 == i as usize && o[q].1 == j as usize) by {
        lemma_fundamental_div_mod(q, l);
        let r = q / l;
        let c = q % l;
        assert(0 <= c < l);
        lemma_div_pos_is_pos(q, l);
        assert(q < l * l) by (nonlinear_arith) requires q < i * l + j, 0 <= i < l, 0 <= j < l;
        assert(r < l) by (nonlinear_arith) requires q == l * r + c, 0 <= c, q < l * l, r >= 0, l > 0;
        lemma_order_table_entry(loops, st.directions, l as nat, r, c);
        assert(l * r == r * l) by (nonlinear_arith);
        assert(order_view(o)[q] == t[q]);
        if o[q].0 == i as usize && o[q].1 == j as usize {
            assert(r == i && c == j);
        }
    }
    lemma_find_order_at(o, i as usize, j as usize, k);
}

/// The order of output positions of a compiled interpretation is total:
/// for labels `i`, `j` and tuples of their arities, one of the two
/// positions comes no later than the other.
pub proof fn compiled_order_is_total(stmts: Seq<Stmt>, qf: QfInterpretation, w: Seq<char>, a: PosV, b: PosV)
    requires
        order_view(qf.order@) == program_order(stmts),
        program_labeling(stmts).labels.len() <= usize::MAX,
        a.0 < program_labeling(stmts).labels.len(),
        b.0 < program_labeling(stmts).labels.len(),
        a.1.len() == program_labeling(stmts).vars[a.0 as int].len(),
        b.1.len() == program_labeling(stmts).vars[b.0 as int].len(),
    ensures
        qf.order_value(w, a, b) == Ok::<bool, QfFault>(true) || qf.order_value(w, b, a) == Ok::<bool, QfFault>(true),
{
    lemma_compiled_order_formula(stmts, qf.order@, a.0 as int, b.0 as int);
    lemma_compiled_order_formula(stmts, qf.order@, b.0 as int, a.0 as int);
    order_is_total(stmts, a.0 as int, b.0 as int, w, a.1, b.1);
}

/// The order of output positions of a compiled interpretation is
/// transitive.
pub proof fn compiled_order_is_transitive(stmts: Seq<Stmt>, qf: QfInterpretation, w: Seq<char>, a: PosV, b: PosV, c: PosV)
    requires
        order_view(qf.order@) == program_order(stmts),
        program_labeling(stmts).labels.len() <= usize::MAX,
        program_labeling(stmts).directions.len() < usize::MAX,
        a.0 < program_labeling(stmts).labels.len(),
        b.0 < program_labeling(stmts).labels.len(),
        c.0 < program_labeling(stmts).labels.len(),
        a.1.len() == program_labeling(stmts).vars[a.0 as int].len(),
        b.1.len() == program_labeling(stmts).vars[b.0 as int].len(),
        c.1.len() == program_labeling(stmts).vars[c.0 as int].len(),
        qf.order_value(w, a, b) == Ok::<bool, QfFault>(true),
        qf.order_value(w, b, c) == Ok::<bool, QfFault>(true),
    ensures
        qf.order_value(w, a, c) == Ok::<bool, QfFault>(true),
{
    lemma_compiled_order_formula(stmts, qf.order@, a.0 as int, b.0 as int);
    lemma_compiled_order_formula(stmts, qf.order@, b.0 as int, c.0 as int);
    lemma_compiled_order_formula(stmts, qf.order@, a.0 as int, c.0 as int);
    order_is_transitive(stmts, a.0 as int, b.0 as int, c.0 as int, w, a.1, b.1, c.1);
}

/// The letters among `a`, `b`, `#` whose formulas hold, in that order.
pub open spec fn selected(ha: bool, hb: bool, hh: bool) -> Seq<Seq<char>> {
    (if ha { seq![seq!['a']] } else { Seq::empty() }) + (if hb { seq![seq!['b']] } else { Seq::empty() })
        + (if hh { seq![seq!['#']] } else { Seq::empty() })
}

proof fn lemma_letter_rows_len(lf: Seq<(Seq<char>, Seq<char>, Seq<char>)>)
    ensures
        letter_rows(lf).len() == 3 * lf.len(),
    decreases lf.len(),
{
    if lf.len() > 0 {
        lemma_letter_rows_len(lf.drop_last());
    }
}

proof fn lemma_matching_rows(
    l: Seq<(usize, String, crate::ast::Bexpr)>,
    lf: Seq<(Seq<char>, Seq<char>, Seq<char>)>,
    w: Seq<char>,
    p: PosV,
    ha: bool,
    hb: bool,
    hh: bool,
)
    requires
        letters_view(l) == letter_rows(lf),
        lf.len() <= usize::MAX,
        (p.0 as int) < lf.len() ==> {
            let env = position_env(x_name(), p.1);
            &&& holds(BexprV::Str(lf[p.0 as int].0), w, env) == Ok::<bool, crate::bexpr_evaluator::EvalError>(ha)
            &&& holds(BexprV::Str(lf[p.0 as int].1), w, env) == Ok::<bool, crate::bexpr_evaluator::EvalError>(hb)
            &&& holds(BexprV::Str(lf[p.0 as int].2), w, env) == Ok::<bool, crate::bexpr_evaluator::EvalError>(hh)
        },
    ensures
        matching_letters(l, w, p) == Ok::<Seq<Seq<char>>, QfFault>(
            if (p.0 as int) < lf.len() { selected(ha, hb, hh) } else { Seq::empty() },
        ),
    decreases lf.len(),
{
    lemma_letter_rows_len(lf);
    let n = lf.len() as int;
    if n == 0 {
        assert(l.len() == 0);
    } else {
        let l0 = l.subrange(0, 3 * n - 3);
        let lf0 = lf.drop_last();
        lemma_letter_rows_len(lf0);
        assert(letters_view(l0) =~= letter_rows(lf0)) by {
            assert(letter_rows(lf) == letter_rows(lf0) + seq![
                ((n - 1) as usize, seq!['a'], BexprV::Str(lf.last().0)),
                ((n - 1) as usize, seq!['b'], BexprV::Str(lf.last().1)),
                ((n - 1) as usize, seq!['#'], BexprV::Str(lf.last().2)),
            ]);
            assert(l.len() == 3 * n);
            assert forall|k: int| 0 <= k < 3 * n - 3 implies #[trigger] letters_view(l0)[k] == letter_rows(lf0)[k] by {
                assert(l0[k] == l[k]);
                assert(letters_view(l)[k] == letter_rows(lf)[k]);
            }
        }
        if (p.0 as int) < n - 1 {
            assert(lf0[p.0 as int] == lf[p.0 as int]);
        }
        lemma_matching_rows(l0, lf0, w, p, ha, hb, hh);
        let l1 = l.drop_last();
        let l2 = l1.drop_last();
        let l3 = l2.drop_last();
        assert(l3 =~= l0);
        assert(letters_view(l)[3 * n - 3] == ((n - 1) as usize, seq!['a'], BexprV::Str(lf.last().0)));
        assert(letters_view(l)[3 * n - 2] == ((n - 1) as usize, seq!['b'], BexprV::Str(lf.last().1)));
        assert(letters_view(l)[3 * n - 1] == ((n - 1) as usize, seq!['#'], BexprV::Str(lf.last().2)));
        assert(l2.last() == l[3 * n - 3]);
        assert(l1.last() == l[3 * n - 2]);
        assert(l.last() == l[3 * n - 1]);
        if (p.0 as int) == n - 1 {
            assert(lf.last() == lf[p.0 as int]);
            assert(Seq::<Seq<char>>::empty() + selected(ha, hb, hh) =~= selected(ha, hb, hh));
            let s1 = if ha { seq![seq!['a']] } else { Seq::<Seq<char>>::empty() };
            let s2 = s1 + if hb { seq![seq!['b']] } else { Seq::<Seq<char>>::empty() };
            assert(matching_letters(l2, w, p) == Ok::<Seq<Seq<char>>, QfFault>(s1)) by {
                if ha { assert(Seq::<Seq<char>>::empty().push(seq!['a']) =~= s1); }
            }
            assert(matching_letters(l1, w, p) == Ok::<Seq<Seq<char>>, QfFault>(s2)) by {
                if hb { assert(s1.push(seq!['b']) =~= s2); } else { assert(s1 =~= s2); }
            }
            assert(matching_letters(l, w, p) == Ok::<Seq<Seq<char>>, QfFault>(selected(ha, hb, hh))) by {
                if hh { assert(s2.push(seq!['#']) =~= selected(ha, hb, hh)); } else { assert(s2 =~= selected(ha, hb, hh)); }
            }
        }
    }
}

/// Exactly one letter formula of a compiled interpretation holds at each
/// output position: on a word over `a`, `b`, `#`, for a well-scoped program
/// whose every printed literal holds exactly one of those letters, the
/// letter of every tuple of positions of a label's arity is defined.
pub proof fn compiled_letters_partition(stmts: Seq<Stmt>, qf: QfInterpretation, w: Seq<char>, p: PosV)
    requires
        letters_view(qf.letters@) == program_letters(stmts),
        program_labeling(stmts).labels.len() <= usize::MAX,
        well_scoped(stmts),
        block_prints_letters(stmts, stmts.len() as int),
        (p.0 as int) < program_labeling(stmts).labels.len(),
        p.1.len() == program_labeling(stmts).vars[p.0 as int].len(),
        forall|i: int| 0 <= i < p.1.len() ==> p.1[i] < w.len(),
        forall|i: int| 0 <= i < w.len() ==> in_alphabet(#[trigger] w[i]),
    ensures
        qf.letter_value(w, p) is Ok,
{
    let st = program_labeling(stmts);
    let t = p.0 as int;
    letters_partition(stmts, t, w, p.1);
    let ren = renaming(st.vars[t]);
    let env = position_env(x_name(), p.1);
    let ha = holds(BexprV::Str(rename_letter(st.letters[t].0, ren)), w, env)->Ok_0;
    let hb = holds(BexprV::Str(rename_letter(st.letters[t].1, ren)), w, env)->Ok_0;
    let hh = holds(BexprV::Str(rename_letter(st.letters[t].2, ren)), w, env)->Ok_0;
    let lf = Seq::new(st.labels.len(), |l: int| (
        rename_letter(st.letters[l].0, renaming(st.vars[l])),
        rename_letter(st.letters[l].1, renaming(st.vars[l])),
        rename_letter(st.letters[l].2, renaming(st.vars[l])),
    ));
    assert(program_letters(stmts) == letter_rows(lf));
    lemma_matching_rows(qf.letters@, lf, w, p, ha, hb, hh);
    assert(selected(ha, hb, hh).len() == 1);
}

proof fn lemma_find_universe_at(u: Seq<(usize, crate::ast::Bexpr)>, a: usize, k: int)
    requires
        0 <= k < u.len(),
        u[k].0 == a,
        forall|q: int| 0 <= q < k ==> #[trigger] u[q].0 != a,
    ensures
        find_universe(u, a) == Some(u[k].1),
    decreases k,
{
    if k > 0 {
        assert forall|q: int| 0 <= q < k - 1 implies #[trigger] u.drop_first()[q].0 != a by {
            assert(u.drop_first()[q] == u[q + 1]);
        }
        lemma_find_universe_at(u.drop_first(), a, k - 1);
    }
}

/// The formulas that a compiled interpretation holds read only the
/// canonical variables of their labels: the universe formula of label `l`
/// among `x1 .. x_arity(l)`, the order formula of `(l, m)` among those and
/// `y1 .. y_arity(m)`.
pub proof fn compiled_formulas_read_canonical_variables(stmts: Seq<Stmt>, qf: QfInterpretation, l: int, m: int)
    requires
        universe_view(qf.universe@) == crate::compile::program_universe(stmts),
        order_view(qf.order@) == program_order(stmts),
        program_labeling(stmts).labels.len() <= usize::MAX,
        well_scoped(stmts),
        0 <= l < program_labeling(stmts).labels.len(),
        0 <= m < program_labeling(stmts).labels.len(),
    ensures
        ({
            let st = program_labeling(stmts);
            let xs = canonical_set('x', st.vars[l].len());
            &&& find_universe(qf.universe@, l as usize) is Some
            &&& free_vars(find_universe(qf.universe@, l as usize)->0@).subset_of(xs)
            &&& find_order(qf.order@, l as usize, m as usize) is Some
            &&& free_vars(find_order(qf.order@, l as usize, m as usize)->0@).subset_of(
                    xs.union(canonical_set('y', st.vars[m].len())))
        }),
{
    let u = qf.universe@;
    let st = program_labeling(stmts);
    assert(program_universe(stmts).len() == st.labels.len());
    assert(universe_view(u).len() == u.len());
    assert(u.len() == st.labels.len());
    assert(universe_view(u)[l] == program_universe(stmts)[l]);
    assert(u[l].0 == universe_view(u)[l].0);
    assert forall|q: int| 0 <= q < l implies #[trigger] u[q].0 != l as usize by {
        assert(universe_view(u)[q] == program_universe(stmts)[q]);
        assert(u[q].0 == universe_view(u)[q].0);
    }
    lemma_find_universe_at(u, l as usize, l);
    lemma_compiled_order_formula(stmts, qf.order@, l, m);
    formulas_read_canonical_variables(stmts, l, m);
}

} // verus!
