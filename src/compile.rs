//! From a program to its quantifier-free interpretation: labelling, renaming
//! of the loop variables to the canonical `x1 .. xk`, and order synthesis.
use vstd::prelude::*;
use crate::ast::{Bexpr, BexprV, Stmt};
use crate::bexpr_evaluator::{letter_predicate, parse_letter_predicate};
use crate::label::{
    aligned, empty_labeling, lemma_walk_aligned, names_view, traverse_and_label, walk, Labeling,
};
use crate::order::{generate_order_formula, indexed_name, order_table, order_view};
use crate::qf_interpretation::{fit_interpretation, letter_rows, letters_view, path_text, universe_view, QfInterpretation};
use crate::text::{char_string, push_decimal, push_str, str_eq};

verus! {

/// A renaming: pairs of a source name and its new name, the first pair of a
/// name in force.
pub type Renaming = Seq<(Seq<char>, Seq<char>)>;

/// The renaming of loop variables `vars` (outermost first) to `x1 .. xk`;
/// an inner variable shadows an outer one of the same name.
pub open spec fn renaming(vars: Seq<Seq<char>>) -> Renaming {
    Seq::new(vars.len(), |i: int| (vars[vars.len() - 1 - i], indexed_name('x', (vars.len() - i) as nat)))
}

/// The canonical names `x1 .. xk`.
pub open spec fn canonical_vars(k: nat) -> Seq<Seq<char>> {
    Seq::new(k, |i: int| indexed_name('x', (i + 1) as nat))
}

/// The new name of `name`; a name without a pair keeps its name.
pub open spec fn renamed(map: Renaming, name: Seq<char>) -> Seq<char>
    decreases map.len(),
{
    if map.len() == 0 {
        name
    } else if map[0].0 == name {
        map[0].1
    } else {
        renamed(map.drop_first(), name)
    }
}

/// An expression with every variable and label renamed.
pub open spec fn rename_bexpr(e: BexprV, map: Renaming) -> BexprV
    decreases e,
{
    match e {
        BexprV::Var(n) => BexprV::Var(renamed(map, n)),
        BexprV::Label(n) => BexprV::Label(renamed(map, n)),
        BexprV::Str(s) => BexprV::Str(rename_letter(s, map)),
        BexprV::LessEqual(l, r) => BexprV::LessEqual(Box::new(rename_bexpr(*l, map)), Box::new(rename_bexpr(*r, map))),
        BexprV::Less(l, r) => BexprV::Less(Box::new(rename_bexpr(*l, map)), Box::new(rename_bexpr(*r, map))),
        BexprV::Equal(l, r) => BexprV::Equal(Box::new(rename_bexpr(*l, map)), Box::new(rename_bexpr(*r, map))),
        BexprV::NotEqual(l, r) => BexprV::NotEqual(Box::new(rename_bexpr(*l, map)), Box::new(rename_bexpr(*r, map))),
        BexprV::GreaterEqual(l, r) => BexprV::GreaterEqual(Box::new(rename_bexpr(*l, map)), Box::new(rename_bexpr(*r, map))),
        BexprV::Greater(l, r) => BexprV::Greater(Box::new(rename_bexpr(*l, map)), Box::new(rename_bexpr(*r, map))),
        BexprV::Not(i) => BexprV::Not(Box::new(rename_bexpr(*i, map))),
        BexprV::And(l, r) => BexprV::And(Box::new(rename_bexpr(*l, map)), Box::new(rename_bexpr(*r, map))),
        BexprV::Or(l, r) => BexprV::Or(Box::new(rename_bexpr(*l, map)), Box::new(rename_bexpr(*r, map))),
    }
}

/// A letter formula with the variable of a letter predicate `c(v)` renamed.
pub open spec fn rename_letter(s: Seq<char>, map: Renaming) -> Seq<char> {
    match letter_predicate(s) {
        Some(p) => seq![p.0, '('] + renamed(map, p.1) + seq![')'],
        None => s,
    }
}

/// The views of a list of pairs of names.
pub open spec fn pairs_view(v: Seq<(String, String)>) -> Renaming {
    v.map_values(|p: (String, String)| (p.0@, p.1@))
}

fn x_var(k: usize) -> (r: String)
    ensures
        r@ == indexed_name('x', k as nat),
{
    let mut s = char_string('x');
    push_decimal(&mut s, k);
    s
}

fn renaming_of(vars: &Vec<String>) -> (r: Vec<(String, String)>)
    ensures
        pairs_view(r@) == renaming(names_view(vars@)),
{
    let ghost target = renaming(names_view(vars@));
    let n = vars.len();
    let mut r: Vec<(String, String)> = Vec::new();
    let mut i: usize = 0;
    while i < n
        invariant
            n == vars@.len(),
            i <= n,
            target == renaming(names_view(vars@)),
            pairs_view(r@) == target.subrange(0, i as int),
        decreases n - i,
    {
        let ghost prev = r@;
        r.push((vars[n - 1 - i].clone(), x_var(n - i)));
        assert(pairs_view(r@) =~= pairs_view(prev).push(target[i as int]));
        assert(target.subrange(0, i + 1) =~= target.subrange(0, i as int).push(target[i as int]));
        i = i + 1;
    }
    assert(target.subrange(0, i as int) =~= target);
    r
}

fn rename(map: &Vec<(String, String)>, name: &String) -> (r: String)
    ensures
        r@ == renamed(pairs_view(map@), name@),
{
    let ghost m = pairs_view(map@);
    let mut i: usize = 0;
    assert(m.subrange(0, m.len() as int) =~= m);
    while i < map.len()
        invariant
            i <= map@.len(),
            m == pairs_view(map@),
            renamed(m, name@) == renamed(m.subrange(i as int, m.len() as int), name@),
        decreases map@.len() - i,
    {
        assert(m.subrange(i as int, m.len() as int).drop_first() =~= m.subrange(i + 1, m.len() as int));
        if str_eq(map[i].0.as_str(), name.as_str()) {
            return map[i].1.clone();
        }
        i = i + 1;
    }
    name.clone()
}

/// Renames every variable and label of an expression by `map`.
pub fn remap_bexpr_with_map(expr: &Bexpr, map: &Vec<(String, String)>) -> (r: Bexpr)
    ensures
        r@ == rename_bexpr(expr@, pairs_view(map@)),
    decreases expr,
{
    match expr {
        Bexpr::Var(var) => Bexpr::Var(rename(map, var)),
        Bexpr::Str(s) => Bexpr::Str(rename_in_literal(s.as_str(), map)),
        Bexpr::Label(label) => Bexpr::Label(rename(map, label)),
        Bexpr::Less(lhs, rhs) => Bexpr::Less(
            Box::new(remap_bexpr_with_map(lhs, map)),
            Box::new(remap_bexpr_with_map(rhs, map)),
        ),
        Bexpr::LessEqual(lhs, rhs) => Bexpr::LessEqual(
            Box::new(remap_bexpr_with_map(lhs, map)),
            Box::new(remap_bexpr_with_map(rhs, map)),
        ),
        Bexpr::Equal(lhs, rhs) => Bexpr::Equal(
            Box::new(remap_bexpr_with_map(lhs, map)),
            Box::new(remap_bexpr_with_map(rhs, map)),
        ),
        Bexpr::NotEqual(lhs, rhs) => Bexpr::NotEqual(
            Box::new(remap_bexpr_with_map(lhs, map)),
            Box::new(remap_bexpr_with_map(rhs, map)),
        ),
        Bexpr::GreaterEqual(lhs, rhs) => Bexpr::GreaterEqual(
            Box::new(remap_bexpr_with_map(lhs, map)),
            Box::new(remap_bexpr_with_map(rhs, map)),
        ),
        Bexpr::Greater(lhs, rhs) => Bexpr::Greater(
            Box::new(remap_bexpr_with_map(lhs, map)),
            Box::new(remap_bexpr_with_map(rhs, map)),
        ),
        Bexpr::Not(inner) => Bexpr::Not(Box::new(remap_bexpr_with_map(inner, map))),
        Bexpr::And(lhs, rhs) => Bexpr::And(
            Box::new(remap_bexpr_with_map(lhs, map)),
            Box::new(remap_bexpr_with_map(rhs, map)),
        ),
        Bexpr::Or(lhs, rhs) => Bexpr::Or(
            Box::new(remap_bexpr_with_map(lhs, map)),
            Box::new(remap_bexpr_with_map(rhs, map)),
        ),
    }
}

/// The canonical names `x1 .. xk` of the loop variables `vars`, and `formula`
/// with the loop variables renamed to them.
pub fn remap_variables(vars: &Vec<String>, formula: &Bexpr) -> (r: (Vec<String>, Bexpr))
    ensures
        names_view(r.0@) == canonical_vars(vars@.len()),
        r.1@ == rename_bexpr(formula@, renaming(names_view(vars@))),
{
    let mut new_vars: Vec<String> = Vec::new();
    let mut i: usize = 0;
    assert(names_view(new_vars@) =~= canonical_vars(0));
    while i < vars.len()
        invariant
            i <= vars@.len(),
            names_view(new_vars@) == canonical_vars(i as nat),
        decreases vars@.len() - i,
    {
        let ghost prev = new_vars@;
        new_vars.push(x_var(i + 1));
        assert(names_view(new_vars@) =~= names_view(prev).push(indexed_name('x', (i + 1) as nat)));
        assert(names_view(new_vars@) =~= canonical_vars((i + 1) as nat));
        i = i + 1;
    }
    let map = renaming_of(vars);
    (new_vars, remap_bexpr_with_map(formula, &map))
}

/// A letter formula with the variable of a letter predicate `c(v)` renamed
/// to its canonical name among the loop variables `vars`.
pub fn remap_formula_string(formula: &str, vars: &Vec<String>) -> (r: String)
    ensures
        r@ == rename_letter(formula@, renaming(names_view(vars@))),
{
    let map = renaming_of(vars);
    rename_in_literal(formula, &map)
}

fn rename_in_literal(formula: &str, map: &Vec<(String, String)>) -> (r: String)
    ensures
        r@ == rename_letter(formula@, pairs_view(map@)),
{
    match parse_letter_predicate(formula) {
        Some((c, var)) => {
            let name = String::from_str(var);
            let new_name = rename(map, &name);
            let mut s = char_string(c);
            s.push('(');
            push_str(&mut s, new_name.as_str());
            s.push(')');
            assert(s@ =~= seq![c, '('] + new_name@ + seq![')']);
            s
        },
        None => String::from_str(formula),
    }
}

/// The labelling of a whole program.
pub open spec fn program_labeling(stmts: Seq<Stmt>) -> crate::label::LabelingV {
    walk(stmts, stmts.len() as int, Seq::empty(), None, Seq::empty(), Seq::empty(), empty_labeling())
}

/// The universe formulas of a program's labels, over `x1 .. xk`.
pub open spec fn program_universe(stmts: Seq<Stmt>) -> Seq<(usize, BexprV)> {
    let st = program_labeling(stmts);
    Seq::new(st.labels.len(), |l: int| (l as usize, rename_bexpr(st.guards[l], renaming(st.vars[l]))))
}

/// The letter formulas of a program's labels, over `x1 .. xk`.
pub open spec fn program_letters(stmts: Seq<Stmt>) -> Seq<(usize, Seq<char>, BexprV)> {
    let st = program_labeling(stmts);
    letter_rows(Seq::new(st.labels.len(), |l: int| (
        rename_letter(st.letters[l].0, renaming(st.vars[l])),
        rename_letter(st.letters[l].1, renaming(st.vars[l])),
        rename_letter(st.letters[l].2, renaming(st.vars[l])),
    )))
}

/// The order formulas of a program's labels.
pub open spec fn program_order(stmts: Seq<Stmt>) -> Seq<(usize, usize, BexprV)> {
    let st = program_labeling(stmts);
    order_table(st.loops, st.directions, st.labels.len())
}

/// The arities of a program's labels.
pub open spec fn program_arities(stmts: Seq<Stmt>) -> Seq<usize> {
    let st = program_labeling(stmts);
    Seq::new(st.labels.len(), |l: int| st.vars[l].len() as usize)
}

fn var_numbers(k: usize) -> (r: Vec<i32>)
    ensures
        r@.len() == k,
{
    let mut r: Vec<i32> = Vec::new();
    let mut i: usize = 0;
    while i < k
        invariant
            i <= k,
            r@.len() == i,
        decreases k - i,
    {
        if i < 2147483646 {
            r.push((i + 1) as i32);
        } else {
            r.push(2147483647);
        }
        i = i + 1;
    }
    r
}

fn copy_path(v: &Vec<usize>) -> (r: Vec<usize>)
    ensures
        r@ == v@,
{
    let mut r: Vec<usize> = Vec::new();
    let mut i: usize = 0;
    while i < v.len()
        invariant
            i <= v@.len(),
            r@ == v@.subrange(0, i as int),
        decreases v@.len() - i,
    {
        r.push(v[i]);
        i = i + 1;
        assert(r@ =~= v@.subrange(0, i as int));
    }
    assert(r@ =~= v@);
    r
}

/// Compiles a program into its quantifier-free interpretation: one label per
/// `print`, in program order, with its arity, universe, letter and order
/// formulas over the canonical variables.
pub fn compile_program(stmts: &Vec<Stmt>) -> (r: QfInterpretation)
    ensures
        r.arities@ == program_arities(stmts@),
        r.labels@.map_values(|s: String| s@) == program_labeling(stmts@).labels.map_values(|p: Seq<usize>| path_text(p)),
        universe_view(r.universe@) == program_universe(stmts@),
        letters_view(r.letters@) == program_letters(stmts@),
        order_view(r.order@) == program_order(stmts@),
{
    let mut out = Labeling {
        labels: Vec::new(),
        universe_formulas: Vec::new(),
        loops: Vec::new(),
        for0_or_for1: Vec::new(),
        label_formulas: Vec::new(),
    };
    assert(out@ =~= empty_labeling()) by {
        assert(out@.labels =~= Seq::<Seq<usize>>::empty());
        assert(out@.vars =~= Seq::<Seq<Seq<char>>>::empty());
        assert(out@.guards =~= Seq::<BexprV>::empty());
        assert(out@.loops =~= Seq::<Seq<usize>>::empty());
        assert(out@.letters =~= Seq::<(Seq<char>, Seq<char>, Seq<char>)>::empty());
    }
    let mut path: Vec<usize> = Vec::new();
    let mut for_vars: Vec<String> = Vec::new();
    let mut enclosing: Vec<usize> = Vec::new();
    assert(names_view(for_vars@) =~= Seq::<Seq<char>>::empty());
    traverse_and_label(stmts, &mut path, None, &mut for_vars, &mut enclosing, &mut out);
    let ghost st = program_labeling(stmts@);
    proof {
        assert(path@ =~= Seq::<usize>::empty());
        assert(enclosing@ =~= Seq::<usize>::empty());
        lemma_walk_aligned(stmts@, stmts@.len() as int, Seq::empty(), None, Seq::empty(), Seq::empty(), empty_labeling());
    }
    assert(out@ == st);
    let n = out.labels.len();

    let ghost univ_target = program_universe(stmts@);
    let ghost letter_target = Seq::new(st.labels.len(), |l: int| (
        rename_letter(st.letters[l].0, renaming(st.vars[l])),
        rename_letter(st.letters[l].1, renaming(st.vars[l])),
        rename_letter(st.letters[l].2, renaming(st.vars[l])),
    ));
    let mut universe_formulas: Vec<(Vec<String>, Bexpr)> = Vec::new();
    let mut label_formulas: Vec<(String, String, String)> = Vec::new();
    let mut numbers: Vec<Vec<i32>> = Vec::new();
    let mut l: usize = 0;
    while l < n
        invariant
            n == st.labels.len(),
            st == program_labeling(stmts@),
            out@ == st,
            aligned(st),
            univ_target == program_universe(stmts@),
            letter_target == Seq::new(st.labels.len(), |l: int| (
                rename_letter(st.letters[l].0, renaming(st.vars[l])),
                rename_letter(st.letters[l].1, renaming(st.vars[l])),
                rename_letter(st.letters[l].2, renaming(st.vars[l])),
            )),
            l <= n,
            universe_formulas@.len() == l,
            forall|k: int| 0 <= k < l ==> (#[trigger] universe_formulas@[k]).1@ == univ_target[k].1,
            label_formulas@.map_values(|t: (String, String, String)| (t.0@, t.1@, t.2@)) == letter_target.subrange(0, l as int),
            numbers@.map_values(|v: Vec<i32>| v@.len() as usize) == program_arities(stmts@).subrange(0, l as int),
        decreases n - l,
    {
        let vars = &out.universe_formulas[l].0;
        assert(names_view(vars@) == st.vars[l as int]);
        assert(out.universe_formulas@[l as int].1@ == st.guards[l as int]);
        let (new_vars, formula) = remap_variables(vars, &out.universe_formulas[l].1);
        let k = vars.len();
        assert(k == program_arities(stmts@)[l as int]);
        let ghost prev_numbers = numbers@;
        numbers.push(var_numbers(k));
        assert(numbers@.map_values(|v: Vec<i32>| v@.len() as usize)
            =~= prev_numbers.map_values(|v: Vec<i32>| v@.len() as usize).push(k));
        assert(program_arities(stmts@).subrange(0, l + 1)
            =~= program_arities(stmts@).subrange(0, l as int).push(k));
        universe_formulas.push((new_vars, formula));
        let entry = &out.label_formulas[l];
        assert((entry.0@, entry.1@, entry.2@) == st.letters[l as int]);
        let ghost prev_letters = label_formulas@;
        label_formulas.push((
            remap_formula_string(entry.0.as_str(), vars),
            remap_formula_string(entry.1.as_str(), vars),
            remap_formula_string(entry.2.as_str(), vars),
        ));
        assert(label_formulas@.map_values(|t: (String, String, String)| (t.0@, t.1@, t.2@))
            =~= prev_letters.map_values(|t: (String, String, String)| (t.0@, t.1@, t.2@)).push(letter_target[l as int]));
        assert(letter_target.subrange(0, l + 1) =~= letter_target.subrange(0, l as int).push(letter_target[l as int]));
        l = l + 1;
    }
    assert(letter_target.subrange(0, n as int) =~= letter_target);
    assert(program_arities(stmts@).subrange(0, n as int) =~= program_arities(stmts@));

    let mut orders: Vec<(usize, usize, Bexpr)> = Vec::new();
    generate_order_formula(&out.loops, &out.for0_or_for1, &mut orders);
    assert(order_view(orders@) =~= program_order(stmts@));

    let mut labels: Vec<Vec<usize>> = Vec::new();
    let mut i: usize = 0;
    while i < n
        invariant
            n == out.labels@.len(),
            i <= n,
            labels@.map_values(|p: Vec<usize>| p@) == out.labels@.subrange(0, i as int).map_values(|p: Vec<usize>| p@),
        decreases n - i,
    {
        let ghost prev = labels@;
        labels.push(copy_path(&out.labels[i]));
        assert(labels@.map_values(|p: Vec<usize>| p@) =~= prev.map_values(|p: Vec<usize>| p@).push(out.labels@[i as int]@));
        assert(out.labels@.subrange(0, i + 1).map_values(|p: Vec<usize>| p@)
            =~= out.labels@.subrange(0, i as int).map_values(|p: Vec<usize>| p@).push(out.labels@[i as int]@));
        i = i + 1;
    }
    assert(out.labels@.subrange(0, n as int) =~= out.labels@);
    let ghost lv = labels@;
    let r = fit_interpretation(universe_formulas, orders, numbers, labels, label_formulas);
    assert(universe_view(r.universe@) =~= program_universe(stmts@));
    assert(r.labels@.map_values(|s: String| s@) =~= st.labels.map_values(|p: Seq<usize>| path_text(p))) by {
        assert(lv.map_values(|p: Vec<usize>| path_text(p@)) =~= st.labels.map_values(|p: Seq<usize>| path_text(p))) by {
            assert(lv.map_values(|p: Vec<usize>| p@) == st.labels);
        }
    }
    r
}

} // verus!
