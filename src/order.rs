//! Synthesis of the order formulas: for two labels, when the first `print`
//! fires no later than the second.
use vstd::prelude::*;
use crate::ast::{Bexpr, BexprV};
use crate::bexpr_evaluator::{true_name, false_name};
use crate::text::{char_string, decimal, push_decimal};

verus! {

/// The variable `<prefix><k>`.
pub open spec fn indexed_name(prefix: char, k: nat) -> Seq<char> {
    seq![prefix] + decimal(k)
}

/// The `k`-th canonical variable of the first position.
pub open spec fn xv(k: nat) -> BexprV {
    BexprV::Var(indexed_name('x', k))
}

/// The `k`-th canonical variable of the second position.
pub open spec fn yv(k: nat) -> BexprV {
    BexprV::Var(indexed_name('y', k))
}

/// The length of the longest common prefix of `a` and `b` from index `k` on,
/// plus `k`.
pub open spec fn common_from(a: Seq<usize>, b: Seq<usize>, k: nat) -> nat
    decreases a.len() - k,
{
    if k < a.len() && k < b.len() && a[k as int] == b[k as int] {
        common_from(a, b, k + 1)
    } else {
        k
    }
}

/// The direction of loop `id`: 0 ascending, anything else descending.
pub open spec fn direction_of(dirs: Seq<usize>, id: usize) -> usize {
    if id < dirs.len() {
        dirs[id as int]
    } else {
        0
    }
}

/// The comparison of the `k`-th variables in loop direction `dir`.
pub open spec fn precedes(dir: usize, k: nat, strict: bool) -> BexprV {
    if dir == 0 {
        if strict {
            BexprV::Less(Box::new(xv(k)), Box::new(yv(k)))
        } else {
            BexprV::LessEqual(Box::new(xv(k)), Box::new(yv(k)))
        }
    } else {
        if strict {
            BexprV::Greater(Box::new(xv(k)), Box::new(yv(k)))
        } else {
            BexprV::GreaterEqual(Box::new(xv(k)), Box::new(yv(k)))
        }
    }
}

/// The lexicographic comparison over the shared loops `k .. p` (0-based),
/// non-strict at the last one when `inclusive`.
pub open spec fn chain(loops: Seq<usize>, dirs: Seq<usize>, k: nat, p: nat, inclusive: bool) -> BexprV
    decreases p - k,
{
    if k + 1 >= p {
        precedes(direction_of(dirs, loops[k as int]), k + 1, !inclusive)
    } else {
        BexprV::Or(
            Box::new(precedes(direction_of(dirs, loops[k as int]), k + 1, true)),
            Box::new(BexprV::And(
                Box::new(BexprV::Equal(Box::new(xv(k + 1)), Box::new(yv(k + 1)))),
                Box::new(chain(loops, dirs, k + 1, p, inclusive)),
            )),
        )
    }
}

/// The order formula of a label with enclosing loops `la` before one with
/// enclosing loops `lb`; `inclusive` when the first `print` stands no later
/// in the program text.
pub open spec fn order_spec(la: Seq<usize>, lb: Seq<usize>, dirs: Seq<usize>, inclusive: bool) -> BexprV {
    let p = common_from(la, lb, 0);
    if p == 0 {
        BexprV::Var(if inclusive { true_name() } else { false_name() })
    } else {
        chain(la, dirs, 0, p, inclusive)
    }
}

/// The order formulas of all ordered pairs of the first `i` labels, row by
/// row.
pub open spec fn order_table(loops: Seq<Seq<usize>>, dirs: Seq<usize>, i: nat) -> Seq<(usize, usize, BexprV)>
    decreases i,
{
    if i == 0 {
        Seq::empty()
    } else {
        order_table(loops, dirs, (i - 1) as nat) + Seq::new(
            loops.len(),
            |j: int| ((i - 1) as usize, j as usize, order_spec(loops[i - 1], loops[j], dirs, i - 1 <= j)),
        )
    }
}

/// The views of a table of order formulas.
pub open spec fn order_view(v: Seq<(usize, usize, Bexpr)>) -> Seq<(usize, usize, BexprV)> {
    v.map_values(|t: (usize, usize, Bexpr)| (t.0, t.1, t.2@))
}

fn indexed_var(prefix: char, k: usize) -> (r: Bexpr)
    ensures
        r@ == BexprV::Var(indexed_name(prefix, k as nat)),
{
    let mut s = char_string(prefix);
    push_decimal(&mut s, k);
    Bexpr::Var(s)
}

fn precedes_formula(dir: usize, k: usize, strict: bool) -> (r: Bexpr)
    ensures
        r@ == precedes(dir, k as nat, strict),
{
    let lhs = Box::new(indexed_var('x', k));
    let rhs = Box::new(indexed_var('y', k));
    if dir == 0 {
        if strict { Bexpr::Less(lhs, rhs) } else { Bexpr::LessEqual(lhs, rhs) }
    } else {
        if strict { Bexpr::Greater(lhs, rhs) } else { Bexpr::GreaterEqual(lhs, rhs) }
    }
}

fn direction(dirs: &Vec<usize>, id: usize) -> (r: usize)
    ensures
        r == direction_of(dirs@, id),
{
    if id < dirs.len() { dirs[id] } else { 0 }
}

fn common_prefix_len(a: &Vec<usize>, b: &Vec<usize>) -> (r: usize)
    ensures
        r as nat == common_from(a@, b@, 0),
        r <= a@.len(),
        r <= b@.len(),
{
    let mut k: usize = 0;
    while k < a.len() && k < b.len() && a[k] == b[k]
        invariant
            k <= a@.len(),
            k <= b@.len(),
            common_from(a@, b@, 0) == common_from(a@, b@, k as nat),
        decreases a@.len() - k,
    {
        k = k + 1;
    }
    k
}

/// The order formula of two labels, given their enclosing loops.
fn pair_formula(la: &Vec<usize>, lb: &Vec<usize>, dirs: &Vec<usize>, inclusive: bool) -> (r: Bexpr)
    ensures
        r@ == order_spec(la@, lb@, dirs@, inclusive),
{
    let p = common_prefix_len(la, lb);
    if p == 0 {
        return Bexpr::Var(if inclusive { char_string('T') } else { char_string('F') });
    }
    let mut k: usize = p - 1;
    let mut formula = precedes_formula(direction(dirs, la[k]), k + 1, !inclusive);
    while k > 0
        invariant
            0 < p <= la@.len(),
            k < p,
            p as nat == common_from(la@, lb@, 0),
            formula@ == chain(la@, dirs@, k as nat, p as nat, inclusive),
        decreases k,
    {
        k = k - 1;
        let strict = precedes_formula(direction(dirs, la[k]), k + 1, true);
        let equal = Bexpr::Equal(Box::new(indexed_var('x', k + 1)), Box::new(indexed_var('y', k + 1)));
        assert(equal@ == BexprV::Equal(Box::new(xv((k + 1) as nat)), Box::new(yv((k + 1) as nat))));
        let ghost rest = formula@;
        let both = Bexpr::And(Box::new(equal), Box::new(formula));
        assert(both@ == BexprV::And(Box::new(equal@), Box::new(rest)));
        formula = Bexpr::Or(Box::new(strict), Box::new(both));
        assert(formula@ == BexprV::Or(Box::new(strict@), Box::new(both@)));
    }
    formula
}

/// Appends the order formula of every ordered pair of labels, row by row:
/// `(i, j, φ)` where `φ` holds of `x1 ..` and `y1 ..` when the `i`-th
/// `print` at `x` fires no later than the `j`-th at `y`.
pub fn generate_order_formula(
    loops: &Vec<Vec<usize>>,
    for0_or_for1: &Vec<usize>,
    order_formulas: &mut Vec<(usize, usize, Bexpr)>,
)
    ensures
        order_view(final(order_formulas)@) == order_view(old(order_formulas)@) + order_table(
            loops@.map_values(|l: Vec<usize>| l@),
            for0_or_for1@,
            loops@.len() as nat,
        ),
{
    let ghost lv = loops@.map_values(|l: Vec<usize>| l@);
    let ghost start = order_view(order_formulas@);
    let n = loops.len();
    let mut i: usize = 0;
    assert(start + order_table(lv, for0_or_for1@, 0) =~= start);
    while i < n
        invariant
            n == loops@.len(),
            lv == loops@.map_values(|l: Vec<usize>| l@),
            i <= n,
            order_view(order_formulas@) == start + order_table(lv, for0_or_for1@, i as nat),
        decreases n - i,
    {
        let ghost row = Seq::new(
            lv.len(),
            |j: int| (i, j as usize, order_spec(lv[i as int], lv[j], for0_or_for1@, i <= j)),
        );
        let ghost base = order_view(order_formulas@);
        let mut j: usize = 0;
        while j < n
            invariant
                n == loops@.len(),
                lv == loops@.map_values(|l: Vec<usize>| l@),
                i < n,
                j <= n,
                row == Seq::new(
                    lv.len(),
                    |j: int| (i, j as usize, order_spec(lv[i as int], lv[j], for0_or_for1@, i <= j)),
                ),
                order_view(order_formulas@) == base + row.subrange(0, j as int),
            decreases n - j,
        {
            let ghost prev = order_formulas@;
            let formula = pair_formula(&loops[i], &loops[j], for0_or_for1, i <= j);
            order_formulas.push((i, j, formula));
            assert(order_view(order_formulas@) =~= order_view(prev).push((i, j, formula@)));
            assert(row.subrange(0, j + 1) =~= row.subrange(0, j as int).push(row[j as int]));
            j = j + 1;
        }
        assert(row.subrange(0, j as int) =~= row);
        assert(order_table(lv, for0_or_for1@, (i + 1) as nat) =~= order_table(lv, for0_or_for1@, i as nat) + row);
        i = i + 1;
    }
}

} // verus!
