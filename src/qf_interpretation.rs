//! Quantifier-free interpretations of words and their evaluation on an
//! input word.
use vstd::prelude::*;
use crate::ast::{Bexpr, BexprV};
use crate::order::order_view;
use crate::bexpr_evaluator::{holds, EvalError, Env, Evaluator};
use crate::text::{decimal, push_decimal, push_str, char_string};
use itertools::Itertools;

verus! {

/// An input position.
pub type InputPosition = usize;

/// A label: the index of a `print` site.
pub type Label = usize;

/// The number of input positions that address one output position of a label.
pub type Arity = usize;

/// An output letter.
pub type Letter = String;

/// A candidate output position: a label with a tuple of input positions.
#[derive(Debug, Clone)]
pub struct OutputPosition {
    pub label: Label,
    pub vars: Vec<InputPosition>,
}

/// An output position as a label and a sequence of input positions.
pub type PosV = (usize, Seq<usize>);

impl View for OutputPosition {
    type V = PosV;

    open spec fn view(&self) -> PosV {
        (self.label, self.vars@)
    }
}

/// A quantifier-free interpretation of words.
///
/// The universe formula of a label has its free variables among
/// `x1 .. x_arity`; the order formula of two labels among `x1 .. x_arity`
/// of the first and `y1 .. y_arity` of the second; a letter formula among
/// `x1 .. x_arity`.
#[derive(Debug)]
pub struct QfInterpretation {
    /// Display names of the labels.
    pub labels: Vec<String>,
    /// The arity of each label.
    pub arities: Vec<usize>,
    /// The universe formula of each label.
    pub universe: Vec<(Label, Bexpr)>,
    /// The order formula of each ordered pair of labels.
    pub order: Vec<(Label, Label, Bexpr)>,
    /// The formula of each label and output letter.
    pub letters: Vec<(Label, Letter, Bexpr)>,
}

/// Why an interpretation gives no output on a word.
#[derive(Debug)]
pub enum QfInterpretationError {
    MissingUniverseFormula { label: Label },
    MissingOrderFormula { label_a: Label, label_b: Label },
    NoLetter { word: String, position: OutputPosition },
    TooManyLetters { word: String, position: OutputPosition, values: Vec<Letter> },
    /// A formula could not be evaluated.
    Evaluation { error: EvalError },
}

/// The mathematical content of a `QfInterpretationError`.
pub enum QfFault {
    MissingUniverseFormula(usize),
    MissingOrderFormula(usize, usize),
    NoLetter(Seq<char>, PosV),
    TooManyLetters(Seq<char>, PosV, Seq<Seq<char>>),
    Evaluation(EvalError),
}

impl View for QfInterpretationError {
    type V = QfFault;

    open spec fn view(&self) -> QfFault {
        match self {
            QfInterpretationError::MissingUniverseFormula { label } => QfFault::MissingUniverseFormula(*label),
            QfInterpretationError::MissingOrderFormula { label_a, label_b } => QfFault::MissingOrderFormula(*label_a, *label_b),
            QfInterpretationError::NoLetter { word, position } => QfFault::NoLetter(word@, position@),
            QfInterpretationError::TooManyLetters { word, position, values } => QfFault::TooManyLetters(
                word@,
                position@,
                values@.map_values(|v: String| v@),
            ),
            QfInterpretationError::Evaluation { error } => QfFault::Evaluation(*error),
        }
    }
}

/// A result with its error seen through its view.
pub open spec fn fault_result<T>(r: Result<T, QfInterpretationError>) -> Result<T, QfFault> {
    match r {
        Ok(v) => Ok(v),
        Err(e) => Err(e@),
    }
}

/// The variables `name1 .. name_k` bound to the input positions of a tuple.
pub open spec fn position_env(name: Seq<char>, vars: Seq<usize>) -> Env {
    Seq::new(vars.len(), |i: int| (name + decimal((i + 1) as nat), vars[i]))
}

/// The environment of several named output positions, in order.
pub open spec fn positions_env(bindings: Seq<(Seq<char>, PosV)>) -> Env
    decreases bindings.len(),
{
    if bindings.len() == 0 {
        Seq::empty()
    } else {
        positions_env(bindings.drop_last()) + position_env(bindings.last().0, bindings.last().1.1)
    }
}

pub open spec fn x_name() -> Seq<char> {
    seq!['x']
}

pub open spec fn y_name() -> Seq<char> {
    seq!['y']
}

/// The truth value of a formula at an output position, its variables named
/// `x1 ..`.
pub open spec fn holds_at(phi: Bexpr, w: Seq<char>, p: PosV) -> Result<bool, QfFault> {
    match holds(phi@, w, position_env(x_name(), p.1)) {
        Ok(b) => Ok(b),
        Err(e) => Err(QfFault::Evaluation(e)),
    }
}

/// The truth value of a formula at two output positions, named `x1 ..` and
/// `y1 ..`.
pub open spec fn holds_at_pair(phi: Bexpr, w: Seq<char>, a: PosV, b: PosV) -> Result<bool, QfFault> {
    match holds(phi@, w, position_env(x_name(), a.1) + position_env(y_name(), b.1)) {
        Ok(v) => Ok(v),
        Err(e) => Err(QfFault::Evaluation(e)),
    }
}

/// The first universe formula of a label.
pub open spec fn find_universe(u: Seq<(usize, Bexpr)>, l: usize) -> Option<Bexpr>
    decreases u.len(),
{
    if u.len() == 0 {
        None
    } else if u[0].0 == l {
        Some(u[0].1)
    } else {
        find_universe(u.drop_first(), l)
    }
}

/// The first order formula of a pair of labels.
pub open spec fn find_order(o: Seq<(usize, usize, Bexpr)>, a: usize, b: usize) -> Option<Bexpr>
    decreases o.len(),
{
    if o.len() == 0 {
        None
    } else if o[0].0 == a && o[0].1 == b {
        Some(o[0].2)
    } else {
        find_order(o.drop_first(), a, b)
    }
}

/// The letters whose formula holds at `p`, in table order.
pub open spec fn matching_letters(letters: Seq<(usize, String, Bexpr)>, w: Seq<char>, p: PosV) -> Result<Seq<Seq<char>>, QfFault>
    decreases letters.len(),
{
    if letters.len() == 0 {
        Ok(Seq::empty())
    } else {
        match matching_letters(letters.drop_last(), w, p) {
            Err(e) => Err(e),
            Ok(found) => if letters.last().0 == p.0 {
                match holds_at(letters.last().2, w, p) {
                    Err(e) => Err(e),
                    Ok(true) => Ok(found.push(letters.last().1@)),
                    Ok(false) => Ok(found),
                }
            } else {
                Ok(found)
            },
        }
    }
}

impl QfInterpretation {
    /// Whether `p` is an output position on `w`.
    pub open spec fn universe_value(&self, w: Seq<char>, p: PosV) -> Result<bool, QfFault> {
        match find_universe(self.universe@, p.0) {
            None => Err(QfFault::MissingUniverseFormula(p.0)),
            Some(phi) => holds_at(phi, w, p),
        }
    }

    /// Whether output position `a` comes no later than `b` on `w`.
    pub open spec fn order_value(&self, w: Seq<char>, a: PosV, b: PosV) -> Result<bool, QfFault> {
        match find_order(self.order@, a.0, b.0) {
            None => Err(QfFault::MissingOrderFormula(a.0, b.0)),
            Some(phi) => holds_at_pair(phi, w, a, b),
        }
    }

    /// The letter at output position `p` on `w`: the one letter whose formula
    /// holds.
    pub open spec fn letter_value(&self, w: Seq<char>, p: PosV) -> Result<Seq<char>, QfFault> {
        match matching_letters(self.letters@, w, p) {
            Err(e) => Err(e),
            Ok(found) => if found.len() == 0 {
                Err(QfFault::NoLetter(w, p))
            } else if found.len() == 1 {
                Ok(found[0])
            } else {
                Err(QfFault::TooManyLetters(w, p, found))
            },
        }
    }
}

fn copy_positions(v: &Vec<usize>) -> (r: Vec<usize>)
    ensures
        r@ == v@,
{
    let mut r: Vec<usize> = Vec::new();
    let mut i: usize = 0;
    while i < v.len()
        invariant
            i <= v@.len(),
            r@ == v@.subrange(0, i as int),
        decreases v@.len() - i,
    {
        r.push(v[i]);
        i = i + 1;
        assert(r@ =~= v@.subrange(0, i as int));
    }
    assert(r@ =~= v@);
    r
}

fn copy_position(p: &OutputPosition) -> (r: OutputPosition)
    ensures
        r@ == p@,
{
    OutputPosition { label: p.label, vars: copy_positions(&p.vars) }
}

/// Binds `name1 .. name_k` to the input positions of `pos`, after `env`.
fn bind_position(env: &mut Vec<(String, usize)>, name: &str, pos: &OutputPosition)
    ensures
        crate::bexpr_evaluator::env_of(final(env)@) == crate::bexpr_evaluator::env_of(old(env)@) + position_env(name@, pos.vars@),
{
    let ghost start = crate::bexpr_evaluator::env_of(env@);
    let mut i: usize = 0;
    while i < pos.vars.len()
        invariant
            i <= pos.vars@.len(),
            crate::bexpr_evaluator::env_of(env@) == start + position_env(name@, pos.vars@).subrange(0, i as int),
        decreases pos.vars@.len() - i,
    {
        let mut var_name = String::from_str(name);
        push_decimal(&mut var_name, i + 1);
        let ghost prev = env@;
        let ghost entry = (var_name@, pos.vars@[i as int]);
        env.push((var_name, pos.vars[i]));
        assert(crate::bexpr_evaluator::env_of(env@) =~= crate::bexpr_evaluator::env_of(prev).push(entry));
        assert(position_env(name@, pos.vars@).subrange(0, i + 1) =~= position_env(name@, pos.vars@).subrange(0, i as int).push(entry));
        i = i + 1;
        assert(crate::bexpr_evaluator::env_of(env@) =~= start + position_env(name@, pos.vars@).subrange(0, i as int));
    }
    assert(position_env(name@, pos.vars@).subrange(0, i as int) =~= position_env(name@, pos.vars@));
}

/// Evaluates a formula with the variables `name1 .. name_k` of each named
/// output position bound to its input positions.
pub fn evaluate_formula(
    formula: &Bexpr,
    word: String,
    variables: &Vec<(String, &OutputPosition)>,
) -> (r: Result<bool, EvalError>)
    ensures
        r == holds(formula@, word@, positions_env(variables@.map_values(|b: (String, &OutputPosition)| (b.0@, b.1@)))),
{
    let ghost named = variables@.map_values(|b: (String, &OutputPosition)| (b.0@, b.1@));
    let mut env: Vec<(String, usize)> = Vec::new();
    let mut i: usize = 0;
    while i < variables.len()
        invariant
            i <= variables@.len(),
            named == variables@.map_values(|b: (String, &OutputPosition)| (b.0@, b.1@)),
            crate::bexpr_evaluator::env_of(env@) == positions_env(named.subrange(0, i as int)),
        decreases variables@.len() - i,
    {
        assert(named.subrange(0, i + 1).drop_last() =~= named.subrange(0, i as int));
        bind_position(&mut env, variables[i].0.as_str(), variables[i].1);
        i = i + 1;
    }
    assert(named.subrange(0, i as int) =~= named);
    let mut evaluator = Evaluator { variables: env, word };
    evaluator.eval(formula)
}

fn x_string() -> (r: String)
    ensures
        r@ == x_name(),
{
    char_string('x')
}

fn y_string() -> (r: String)
    ensures
        r@ == y_name(),
{
    char_string('y')
}

fn check_at(phi: &Bexpr, word: &String, p: &OutputPosition) -> (r: Result<bool, QfInterpretationError>)
    ensures
        fault_result(r) == holds_at(*phi, word@, p@),
{
    let variables = vec![(x_string(), p)];
    proof {
        let named = variables@.map_values(|b: (String, &OutputPosition)| (b.0@, b.1@));
        assert(named.len() == 1);
        assert(named.last() == (x_name(), p@));
        assert(named.drop_last() =~= Seq::<(Seq<char>, PosV)>::empty());
        reveal_with_fuel(positions_env, 2);
        assert(positions_env(named) =~= position_env(x_name(), p.vars@));
    }
    match evaluate_formula(phi, word.clone(), &variables) {
        Ok(b) => Ok(b),
        Err(error) => Err(QfInterpretationError::Evaluation { error }),
    }
}

fn check_at_pair(phi: &Bexpr, word: &String, a: &OutputPosition, b: &OutputPosition) -> (r: Result<bool, QfInterpretationError>)
    ensures
        fault_result(r) == holds_at_pair(*phi, word@, a@, b@),
{
    let variables = vec![(x_string(), a), (y_string(), b)];
    proof {
        let named = variables@.map_values(|b: (String, &OutputPosition)| (b.0@, b.1@));
        assert(named.len() == 2);
        assert(named.last() == (y_name(), b@));
        assert(named.drop_last().last() == (x_name(), a@));
        assert(named.drop_last().drop_last() =~= Seq::<(Seq<char>, PosV)>::empty());
        reveal_with_fuel(positions_env, 3);
        assert(positions_env(named.drop_last()) =~= position_env(x_name(), a.vars@));
        assert(positions_env(named) =~= position_env(x_name(), a.vars@) + position_env(y_name(), b.vars@));
    }
    match evaluate_formula(phi, word.clone(), &variables) {
        Ok(v) => Ok(v),
        Err(error) => Err(QfInterpretationError::Evaluation { error }),
    }
}

proof fn lemma_letters_error_extends(letters: Seq<(usize, String, Bexpr)>, w: Seq<char>, p: PosV, k: int)
    requires
        0 <= k <= letters.len(),
        matching_letters(letters.subrange(0, k), w, p) is Err,
    ensures
        matching_letters(letters, w, p) == matching_letters(letters.subrange(0, k), w, p),
    decreases letters.len() - k,
{
    if k < letters.len() {
        assert(letters.subrange(0, k + 1).drop_last() =~= letters.subrange(0, k));
        lemma_letters_error_extends(letters, w, p, k + 1);
    } else {
        assert(letters.subrange(0, k) =~= letters);
    }
}

impl QfInterpretation {
    /// An interpretation with no labels.
    pub fn new() -> (r: Self)
        ensures
            r.labels@.len() == 0,
            r.arities@.len() == 0,
            r.universe@.len() == 0,
            r.order@.len() == 0,
            r.letters@.len() == 0,
    {
        Self {
            labels: Vec::new(),
            arities: Vec::new(),
            universe: Vec::new(),
            order: Vec::new(),
            letters: Vec::new(),
        }
    }

    /// The letter at an output position: the one letter whose formula holds.
    pub fn get_letter(&self, word: String, position: &OutputPosition) -> (r: Result<Letter, QfInterpretationError>)
        ensures
            match r {
                Ok(s) => self.letter_value(word@, position@) == Ok::<Seq<char>, QfFault>(s@),
                Err(e) => self.letter_value(word@, position@) == Err::<Seq<char>, QfFault>(e@),
            },
    {
        let mut found: Vec<Letter> = Vec::new();
        let mut i: usize = 0;
        assert(self.letters@.subrange(0, 0) =~= Seq::<(usize, String, Bexpr)>::empty());
        assert(found@.map_values(|v: String| v@) =~= Seq::<Seq<char>>::empty());
        while i < self.letters.len()
            invariant
                i <= self.letters@.len(),
                matching_letters(self.letters@.subrange(0, i as int), word@, position@)
                    == Ok::<Seq<Seq<char>>, QfFault>(found@.map_values(|v: String| v@)),
            decreases self.letters@.len() - i,
        {
            assert(self.letters@.subrange(0, i + 1).drop_last() =~= self.letters@.subrange(0, i as int));
            assert(self.letters@.subrange(0, i + 1).last() == self.letters@[i as int]);
            let ghost old_found = found@;
            let entry = &self.letters[i];
            if entry.0 == position.label {
                match check_at(&entry.2, &word, position) {
                    Err(e) => {
                        proof {
                            lemma_letters_error_extends(self.letters@, word@, position@, i + 1);
                        }
                        return Err(e);
                    },
                    Ok(true) => {
                        found.push(entry.1.clone());
                        assert(found@.map_values(|v: String| v@) =~= old_found.map_values(|v: String| v@).push(entry.1@));
                    },
                    Ok(false) => {},
                }
            }
            i = i + 1;
        }
        assert(self.letters@.subrange(0, i as int) =~= self.letters@);
        if found.len() == 0 {
            Err(QfInterpretationError::NoLetter { word, position: copy_position(position) })
        } else if found.len() == 1 {
            Ok(found[0].clone())
        } else {
            assert(found@.map_values(|v: String| v@) == found@.map_values(|v: String| v@));
            Err(QfInterpretationError::TooManyLetters { word, position: copy_position(position), values: found })
        }
    }

    /// Whether output position `position_a` comes no later than `position_b`.
    pub fn get_order(
        &self,
        word: String,
        position_a: &OutputPosition,
        position_b: &OutputPosition,
    ) -> (r: Result<bool, QfInterpretationError>)
        ensures
            fault_result(r) == self.order_value(word@, position_a@, position_b@),
    {
        let mut i: usize = 0;
        assert(self.order@.subrange(0, self.order@.len() as int) =~= self.order@);
        while i < self.order.len()
            invariant
                i <= self.order@.len(),
                find_order(self.order@, position_a.label, position_b.label)
                    == find_order(self.order@.subrange(i as int, self.order@.len() as int), position_a.label, position_b.label),
            decreases self.order@.len() - i,
        {
            assert(self.order@.subrange(i as int, self.order@.len() as int).drop_first()
                =~= self.order@.subrange(i + 1, self.order@.len() as int));
            if self.order[i].0 == position_a.label && self.order[i].1 == position_b.label {
                return check_at_pair(&self.order[i].2, &word, position_a, position_b);
            }
            i = i + 1;
        }
        Err(QfInterpretationError::MissingOrderFormula { label_a: position_a.label, label_b: position_b.label })
    }

    /// Whether a candidate output position is kept by its universe formula.
    pub fn get_universe(&self, word: String, position: &OutputPosition) -> (r: Result<bool, QfInterpretationError>)
        ensures
            fault_result(r) == self.universe_value(word@, position@),
    {
        let mut i: usize = 0;
        assert(self.universe@.subrange(0, self.universe@.len() as int) =~= self.universe@);
        while i < self.universe.len()
            invariant
                i <= self.universe@.len(),
                find_universe(self.universe@, position.label)
                    == find_universe(self.universe@.subrange(i as int, self.universe@.len() as int), position.label),
            decreases self.universe@.len() - i,
        {
            assert(self.universe@.subrange(i as int, self.universe@.len() as int).drop_first()
                =~= self.universe@.subrange(i + 1, self.universe@.len() as int));
            if self.universe[i].0 == position.label {
                return check_at(&self.universe[i].1, &word, position);
            }
            i = i + 1;
        }
        Err(QfInterpretationError::MissingUniverseFormula { label: position.label })
    }
}

/// All tuples of `k` positions below `n`, in lexicographic order.
pub open spec fn tuples(n: nat, k: nat) -> Seq<Seq<usize>>
    decreases k,
{
    if k == 0 {
        seq![Seq::empty()]
    } else {
        Seq::new(n, |i: int| tuples(n, (k - 1) as nat).map_values(|t: Seq<usize>| seq![i as usize] + t)).flatten()
    }
}

/// The candidate output positions: for each label in turn, every tuple of
/// its arity, in lexicographic order.
pub open spec fn candidates(arities: Seq<usize>, n: nat) -> Seq<PosV>
    decreases arities.len(),
{
    if arities.len() == 0 {
        Seq::empty()
    } else {
        candidates(arities.drop_last(), n) + tuples(n, arities.last() as nat).map_values(
            |t: Seq<usize>| ((arities.len() - 1) as usize, t),
        )
    }
}

/// The views of a vector of output positions.
pub open spec fn positions_view(v: Seq<OutputPosition>) -> Seq<PosV> {
    v.map_values(|p: OutputPosition| p@)
}

impl QfInterpretation {
    /// The positions of `ps` that the universe formulas keep, in order.
    pub open spec fn kept(&self, w: Seq<char>, ps: Seq<PosV>) -> Result<Seq<PosV>, QfFault>
        decreases ps.len(),
    {
        if ps.len() == 0 {
            Ok(Seq::empty())
        } else {
            match self.kept(w, ps.drop_last()) {
                Err(e) => Err(e),
                Ok(k) => match self.universe_value(w, ps.last()) {
                    Err(e) => Err(e),
                    Ok(true) => Ok(k.push(ps.last())),
                    Ok(false) => Ok(k),
                },
            }
        }
    }

    /// Inserts `x` into `sorted`, scanning down from slot `j`: it goes right
    /// after the first position that comes no later than it.
    pub open spec fn insert_sorted(&self, w: Seq<char>, sorted: Seq<PosV>, x: PosV, j: nat) -> Result<Seq<PosV>, QfFault>
        decreases j,
    {
        if j == 0 || j > sorted.len() {
            Ok(sorted.insert(0, x))
        } else {
            match self.order_value(w, sorted[j - 1], x) {
                Err(e) => Err(e),
                Ok(true) => Ok(sorted.insert(j as int, x)),
                Ok(false) => self.insert_sorted(w, sorted, x, (j - 1) as nat),
            }
        }
    }

    /// The stable insertion sort of `ps` by the order formulas.
    pub open spec fn sorted(&self, w: Seq<char>, ps: Seq<PosV>) -> Result<Seq<PosV>, QfFault>
        decreases ps.len(),
    {
        if ps.len() == 0 {
            Ok(Seq::empty())
        } else {
            match self.sorted(w, ps.drop_last()) {
                Err(e) => Err(e),
                Ok(s) => self.insert_sorted(w, s, ps.last(), s.len()),
            }
        }
    }

    /// The letters of the positions of `ps`, concatenated.
    pub open spec fn spelled(&self, w: Seq<char>, ps: Seq<PosV>) -> Result<Seq<char>, QfFault>
        decreases ps.len(),
    {
        if ps.len() == 0 {
            Ok(Seq::empty())
        } else {
            match self.spelled(w, ps.drop_last()) {
                Err(e) => Err(e),
                Ok(s) => match self.letter_value(w, ps.last()) {
                    Err(e) => Err(e),
                    Ok(l) => Ok(s + l),
                },
            }
        }
    }

    /// The output word of the interpretation on `w`.
    pub open spec fn output(&self, w: Seq<char>) -> Result<Seq<char>, QfFault> {
        match self.kept(w, candidates(self.arities@, w.len())) {
            Err(e) => Err(e),
            Ok(k) => match self.sorted(w, k) {
                Err(e) => Err(e),
                Ok(s) => self.spelled(w, s),
            },
        }
    }
}

proof fn lemma_kept_error_extends(qf: &QfInterpretation, w: Seq<char>, ps: Seq<PosV>, k: int)
    requires
        0 <= k <= ps.len(),
        qf.kept(w, ps.subrange(0, k)) is Err,
    ensures
        qf.kept(w, ps) == qf.kept(w, ps.subrange(0, k)),
    decreases ps.len() - k,
{
    if k < ps.len() {
        assert(ps.subrange(0, k + 1).drop_last() =~= ps.subrange(0, k));
        lemma_kept_error_extends(qf, w, ps, k + 1);
    } else {
        assert(ps.subrange(0, k) =~= ps);
    }
}

proof fn lemma_sorted_error_extends(qf: &QfInterpretation, w: Seq<char>, ps: Seq<PosV>, k: int)
    requires
        0 <= k <= ps.len(),
        qf.sorted(w, ps.subrange(0, k)) is Err,
    ensures
        qf.sorted(w, ps) == qf.sorted(w, ps.subrange(0, k)),
    decreases ps.len() - k,
{
    if k < ps.len() {
        assert(ps.subrange(0, k + 1).drop_last() =~= ps.subrange(0, k));
        lemma_sorted_error_extends(qf, w, ps, k + 1);
    } else {
        assert(ps.subrange(0, k) =~= ps);
    }
}

proof fn lemma_spelled_error_extends(qf: &QfInterpretation, w: Seq<char>, ps: Seq<PosV>, k: int)
    requires
        0 <= k <= ps.len(),
        qf.spelled(w, ps.subrange(0, k)) is Err,
    ensures
        qf.spelled(w, ps) == qf.spelled(w, ps.subrange(0, k)),
    decreases ps.len() - k,
{
    if k < ps.len() {
        assert(ps.subrange(0, k + 1).drop_last() =~= ps.subrange(0, k));
        lemma_spelled_error_extends(qf, w, ps, k + 1);
    } else {
        assert(ps.subrange(0, k) =~= ps);
    }
}

/// Relies on itertools' `multi_cartesian_product` over `arity` copies of
/// `0..n`: every tuple, in lexicographic order with the last coordinate
/// running fastest, and the one empty tuple when `arity` is 0.
#[verifier::external_body]
fn position_tuples(n: usize, arity: usize) -> (r: Vec<Vec<usize>>)
    ensures
        r@.map_values(|t: Vec<usize>| t@) == tuples(n as nat, arity as nat),
{
    std::iter::repeat(0..n).take(arity).multi_cartesian_product().collect()
}

/// The candidate output positions on a word of length `n`.
fn candidate_positions(arities: &Vec<usize>, n: usize) -> (r: Vec<OutputPosition>)
    ensures
        positions_view(r@) == candidates(arities@, n as nat),
{
    let mut out: Vec<OutputPosition> = Vec::new();
    let mut l: usize = 0;
    assert(arities@.subrange(0, 0) =~= Seq::<usize>::empty());
    assert(positions_view(out@) =~= Seq::<PosV>::empty());
    while l < arities.len()
        invariant
            l <= arities@.len(),
            positions_view(out@) == candidates(arities@.subrange(0, l as int), n as nat),
        decreases arities@.len() - l,
    {
        let ts = position_tuples(n, arities[l]);
        let ghost base = positions_view(out@);
        let ghost mapped = tuples(n as nat, arities@[l as int] as nat).map_values(|t: Seq<usize>| (l, t));
        let mut j: usize = 0;
        while j < ts.len()
            invariant
                l < arities@.len(),
                j <= ts@.len(),
                ts@.map_values(|t: Vec<usize>| t@) == tuples(n as nat, arities@[l as int] as nat),
                mapped == tuples(n as nat, arities@[l as int] as nat).map_values(|t: Seq<usize>| (l, t)),
                positions_view(out@) == base + mapped.subrange(0, j as int),
            decreases ts@.len() - j,
        {
            let ghost before = out@;
            out.push(OutputPosition { label: l, vars: copy_positions(&ts[j]) });
            assert(ts@.map_values(|t: Vec<usize>| t@)[j as int] == ts@[j as int]@);
            assert(positions_view(out@) =~= positions_view(before).push(mapped[j as int]));
            assert(mapped.subrange(0, j + 1) =~= mapped.subrange(0, j as int).push(mapped[j as int]));
            j = j + 1;
        }
        assert(mapped.subrange(0, j as int) =~= mapped);
        assert(arities@.subrange(0, l + 1).drop_last() =~= arities@.subrange(0, l as int));
        assert(arities@.subrange(0, l + 1).last() == arities@[l as int]);
        l = l + 1;
    }
    assert(arities@.subrange(0, l as int) =~= arities@);
    out
}

impl QfInterpretation {
    fn find_slot(&self, w: &String, sorted: &Vec<OutputPosition>, x: &OutputPosition, j: usize) -> (r: Result<usize, QfInterpretationError>)
        requires
            j <= sorted@.len(),
        ensures
            match r {
                Ok(k) => k <= j && self.insert_sorted(w@, positions_view(sorted@), x@, j as nat)
                    == Ok::<Seq<PosV>, QfFault>(positions_view(sorted@).insert(k as int, x@)),
                Err(e) => self.insert_sorted(w@, positions_view(sorted@), x@, j as nat) == Err::<Seq<PosV>, QfFault>(e@),
            },
        decreases j,
    {
        if j == 0 {
            return Ok(0);
        }
        match self.get_order(w.clone(), &sorted[j - 1], x) {
            Err(e) => Err(e),
            Ok(true) => Ok(j),
            Ok(false) => self.find_slot(w, sorted, x, j - 1),
        }
    }
}

/// The output word of an interpretation on `w`: the candidate positions that
/// the universe formulas keep, sorted by the order formulas, each replaced by
/// its letter.
pub fn evaluate(qf: &QfInterpretation, w: String) -> (r: Result<String, QfInterpretationError>)
    ensures
        match r {
            Ok(s) => qf.output(w@) == Ok::<Seq<char>, QfFault>(s@),
            Err(e) => qf.output(w@) == Err::<Seq<char>, QfFault>(e@),
        },
{
    let n = w.as_str().unicode_len();
    let all = candidate_positions(&qf.arities, n);
    let ghost cands = positions_view(all@);

    let mut kept: Vec<OutputPosition> = Vec::new();
    let mut i: usize = 0;
    assert(cands.subrange(0, 0) =~= Seq::<PosV>::empty());
    assert(positions_view(kept@) =~= Seq::<PosV>::empty());
    while i < all.len()
        invariant
            i <= all@.len(),
            cands == positions_view(all@),
            cands == candidates(qf.arities@, w@.len()),
            qf.kept(w@, cands.subrange(0, i as int)) == Ok::<Seq<PosV>, QfFault>(positions_view(kept@)),
        decreases all@.len() - i,
    {
        assert(cands.subrange(0, i + 1).drop_last() =~= cands.subrange(0, i as int));
        assert(cands.subrange(0, i + 1).last() == all@[i as int]@);
        let ghost before = kept@;
        match qf.get_universe(w.clone(), &all[i]) {
            Err(e) => {
                proof {
                    lemma_kept_error_extends(qf, w@, cands, i + 1);
                }
                return Err(e);
            },
            Ok(true) => {
                kept.push(copy_position(&all[i]));
                assert(positions_view(kept@) =~= positions_view(before).push(all@[i as int]@));
            },
            Ok(false) => {},
        }
        i = i + 1;
    }
    assert(cands.subrange(0, i as int) =~= cands);
    let ghost kv = positions_view(kept@);

    let mut sorted: Vec<OutputPosition> = Vec::new();
    let mut i: usize = 0;
    assert(kv.subrange(0, 0) =~= Seq::<PosV>::empty());
    assert(positions_view(sorted@) =~= Seq::<PosV>::empty());
    while i < kept.len()
        invariant
            i <= kept@.len(),
            kv == positions_view(kept@),
            qf.kept(w@, candidates(qf.arities@, w@.len())) == Ok::<Seq<PosV>, QfFault>(kv),
            qf.sorted(w@, kv.subrange(0, i as int)) == Ok::<Seq<PosV>, QfFault>(positions_view(sorted@)),
        decreases kept@.len() - i,
    {
        assert(kv.subrange(0, i + 1).drop_last() =~= kv.subrange(0, i as int));
        assert(kv.subrange(0, i + 1).last() == kept@[i as int]@);
        let ghost before = sorted@;
        match qf.find_slot(&w, &sorted, &kept[i], sorted.len()) {
            Err(e) => {
                proof {
                    lemma_sorted_error_extends(qf, w@, kv, i + 1);
                }
                return Err(e);
            },
            Ok(k) => {
                sorted.insert(k, copy_position(&kept[i]));
                assert(positions_view(sorted@) =~= positions_view(before).insert(k as int, kept@[i as int]@));
            },
        }
        i = i + 1;
    }
    assert(kv.subrange(0, i as int) =~= kv);
    let ghost sv = positions_view(sorted@);

    let mut out = String::new();
    let mut i: usize = 0;
    assert(sv.subrange(0, 0) =~= Seq::<PosV>::empty());
    while i < sorted.len()
        invariant
            i <= sorted@.len(),
            sv == positions_view(sorted@),
            qf.kept(w@, candidates(qf.arities@, w@.len())) == Ok::<Seq<PosV>, QfFault>(kv),
            qf.sorted(w@, kv) == Ok::<Seq<PosV>, QfFault>(sv),
            qf.spelled(w@, sv.subrange(0, i as int)) == Ok::<Seq<char>, QfFault>(out@),
        decreases sorted@.len() - i,
    {
        assert(sv.subrange(0, i + 1).drop_last() =~= sv.subrange(0, i as int));
        assert(sv.subrange(0, i + 1).last() == sorted@[i as int]@);
        match qf.get_letter(w.clone(), &sorted[i]) {
            Err(e) => {
                proof {
                    lemma_spelled_error_extends(qf, w@, sv, i + 1);
                }
                return Err(e);
            },
            Ok(letter) => {
                push_str(&mut out, letter.as_str());
            },
        }
        i = i + 1;
    }
    assert(sv.subrange(0, i as int) =~= sv);
    Ok(out)
}

/// The decimal notations of a path, separated by `, `.
pub open spec fn joined(p: Seq<usize>) -> Seq<char>
    decreases p.len(),
{
    if p.len() == 0 {
        Seq::empty()
    } else if p.len() == 1 {
        decimal(p[0] as nat)
    } else {
        joined(p.drop_last()) + seq![',', ' '] + decimal(p.last() as nat)
    }
}

/// The display name of a label with path `p`, such as `[0, 1]`.
pub open spec fn path_text(p: Seq<usize>) -> Seq<char> {
    seq!['['] + joined(p) + seq![']']
}

/// The views of a table of universe formulas.
pub open spec fn universe_view(u: Seq<(usize, Bexpr)>) -> Seq<(usize, BexprV)> {
    u.map_values(|e: (usize, Bexpr)| (e.0, e.1@))
}

/// The views of a table of letter formulas.
pub open spec fn letters_view(l: Seq<(usize, String, Bexpr)>) -> Seq<(usize, Seq<char>, BexprV)> {
    l.map_values(|e: (usize, String, Bexpr)| (e.0, e.1@, e.2@))
}

/// The letter table of labels whose formulas for `a`, `b` and `#` are
/// given, three rows per label.
pub open spec fn letter_rows(lf: Seq<(Seq<char>, Seq<char>, Seq<char>)>) -> Seq<(usize, Seq<char>, BexprV)>
    decreases lf.len(),
{
    if lf.len() == 0 {
        Seq::empty()
    } else {
        let i = (lf.len() - 1) as usize;
        letter_rows(lf.drop_last()) + seq![
            (i, seq!['a'], BexprV::Str(lf.last().0)),
            (i, seq!['b'], BexprV::Str(lf.last().1)),
            (i, seq!['#'], BexprV::Str(lf.last().2)),
        ]
    }
}

fn path_string(p: &Vec<usize>) -> (r: String)
    ensures
        r@ == path_text(p@),
{
    let mut s = char_string('[');
    let mut k: usize = 0;
    assert(p@.subrange(0, 0) =~= Seq::<usize>::empty());
    while k < p.len()
        invariant
            k <= p@.len(),
            s@ == seq!['['] + joined(p@.subrange(0, k as int)),
        decreases p@.len() - k,
    {
        let ghost before = s@;
        assert(p@.subrange(0, k + 1).drop_last() =~= p@.subrange(0, k as int));
        assert(p@.subrange(0, k + 1).last() == p@[k as int]);
        if k > 0 {
            s.push(',');
            s.push(' ');
        }
        push_decimal(&mut s, p[k]);
        if k > 0 {
            assert(s@ =~= before + seq![',', ' '] + decimal(p@[k as int] as nat));
        } else {
            assert(s@ =~= before + decimal(p@[k as int] as nat));
        }
        k = k + 1;
    }
    assert(p@.subrange(0, k as int) =~= p@);
    s.push(']');
    assert(s@ =~= path_text(p@));
    s
}

fn letter_string(c: char) -> (r: String)
    ensures
        r@ == seq![c],
{
    char_string(c)
}

/// Assembles an interpretation from what the labelling and the order
/// synthesis produced: the arity of a label is the number of its loop
/// variables, its display name its path, and its letters `a`, `b`, `#`.
pub fn fit_interpretation(
    universe_formulas: Vec<(Vec<String>, Bexpr)>,
    order_formulas: Vec<(usize, usize, Bexpr)>,
    for_vars: Vec<Vec<i32>>,
    labels: Vec<Vec<usize>>,
    label_formulas: Vec<(String, String, String)>,
) -> (r: QfInterpretation)
    ensures
        r.arities@ == for_vars@.map_values(|v: Vec<i32>| v@.len() as usize),
        r.labels@.map_values(|s: String| s@) == labels@.map_values(|p: Vec<usize>| path_text(p@)),
        universe_view(r.universe@) == Seq::new(
            universe_formulas@.len(),
            |i: int| (i as usize, universe_formulas@[i].1@),
        ),
        order_view(r.order@) == order_view(order_formulas@),
        letters_view(r.letters@) == letter_rows(
            label_formulas@.map_values(|t: (String, String, String)| (t.0@, t.1@, t.2@)),
        ),
{
    let mut arities: Vec<usize> = Vec::new();
    let mut names: Vec<String> = Vec::new();
    let mut universe: Vec<(Label, Bexpr)> = Vec::new();
    let mut letters: Vec<(Label, Letter, Bexpr)> = Vec::new();

    let mut i: usize = 0;
    while i < for_vars.len()
        invariant
            i <= for_vars@.len(),
            arities@ == for_vars@.subrange(0, i as int).map_values(|v: Vec<i32>| v@.len() as usize),
        decreases for_vars@.len() - i,
    {
        arities.push(for_vars[i].len());
        i = i + 1;
        assert(arities@ =~= for_vars@.subrange(0, i as int).map_values(|v: Vec<i32>| v@.len() as usize));
    }
    assert(for_vars@.subrange(0, i as int) =~= for_vars@);

    let mut i: usize = 0;
    while i < labels.len()
        invariant
            i <= labels@.len(),
            names@.map_values(|s: String| s@) == labels@.subrange(0, i as int).map_values(|p: Vec<usize>| path_text(p@)),
        decreases labels@.len() - i,
    {
        let ghost prev = names@;
        names.push(path_string(&labels[i]));
        assert(names@.map_values(|s: String| s@) =~= prev.map_values(|s: String| s@).push(path_text(labels@[i as int]@)));
        i = i + 1;
        assert(labels@.subrange(0, i as int).map_values(|p: Vec<usize>| path_text(p@))
            =~= labels@.subrange(0, i - 1).map_values(|p: Vec<usize>| path_text(p@)).push(path_text(labels@[i - 1]@)));
    }
    assert(labels@.subrange(0, i as int) =~= labels@);

    let ghost target = Seq::new(universe_formulas@.len(), |i: int| (i as usize, universe_formulas@[i].1@));
    let mut i: usize = 0;
    while i < universe_formulas.len()
        invariant
            i <= universe_formulas@.len(),
            target == Seq::new(universe_formulas@.len(), |i: int| (i as usize, universe_formulas@[i].1@)),
            universe_view(universe@) == target.subrange(0, i as int),
        decreases universe_formulas@.len() - i,
    {
        let ghost prev = universe@;
        universe.push((i, universe_formulas[i].1.duplicate()));
        assert(universe_view(universe@) =~= universe_view(prev).push(target[i as int]));
        assert(target.subrange(0, i + 1) =~= target.subrange(0, i as int).push(target[i as int]));
        i = i + 1;
    }
    assert(target.subrange(0, i as int) =~= target);


    let ghost lf = label_formulas@.map_values(|t: (String, String, String)| (t.0@, t.1@, t.2@));
    let mut i: usize = 0;
    assert(lf.subrange(0, 0) =~= Seq::<(Seq<char>, Seq<char>, Seq<char>)>::empty());
    assert(letters_view(letters@) =~= Seq::<(usize, Seq<char>, BexprV)>::empty());
    while i < label_formulas.len()
        invariant
            i <= label_formulas@.len(),
            lf == label_formulas@.map_values(|t: (String, String, String)| (t.0@, t.1@, t.2@)),
            letters_view(letters@) == letter_rows(lf.subrange(0, i as int)),
        decreases label_formulas@.len() - i,
    {
        let ghost prev = letters@;
        assert(lf.subrange(0, i + 1).drop_last() =~= lf.subrange(0, i as int));
        assert(lf.subrange(0, i + 1).last() == lf[i as int]);
        let entry = &label_formulas[i];
        letters.push((i, letter_string('a'), Bexpr::Str(entry.0.clone())));
        letters.push((i, letter_string('b'), Bexpr::Str(entry.1.clone())));
        letters.push((i, letter_string('#'), Bexpr::Str(entry.2.clone())));
        assert(letters_view(letters@) =~= letters_view(prev) + seq![
            (i, seq!['a'], BexprV::Str(lf[i as int].0)),
            (i, seq!['b'], BexprV::Str(lf[i as int].1)),
            (i, seq!['#'], BexprV::Str(lf[i as int].2)),
        ]);
        i = i + 1;
    }
    assert(lf.subrange(0, i as int) =~= lf);
    QfInterpretation { labels: names, arities, universe, order: order_formulas, letters }
}

fn var_expr(c: char, k: usize) -> (r: Bexpr)
    ensures
        r@ == BexprV::Var(crate::order::indexed_name(c, k as nat)),
{
    let mut s = char_string(c);
    push_decimal(&mut s, k);
    Bexpr::Var(s)
}

fn str_expr(s: &str) -> (r: Bexpr)
    ensures
        r@ == BexprV::Str(s@),
{
    Bexpr::Str(String::from_str(s))
}

/// A small interpretation with two labels: `l1` of arity 1, which spells `a`
/// at each position, and `l2` of arity 2, which spells `a` or `b` on each
/// pair `x1 <= x2` as the two positions are equal or not. Its formulas other
/// than those comparisons are the literals `true` and `false`.
pub fn create_example_interpretation() -> (r: QfInterpretation)
    ensures
        r.arities@ == seq![1usize, 2usize],
        r.labels@.len() == 2,
        r.universe@.len() == 2,
        r.order@.len() == 4,
        r.letters@.len() == 4,
        r.universe@[1].1@ == BexprV::LessEqual(
            Box::new(BexprV::Var(crate::order::indexed_name('x', 1))),
            Box::new(BexprV::Var(crate::order::indexed_name('x', 2))),
        ),
        r.letters@[2].1@ == seq!['a'],
        r.letters@[2].2@ == BexprV::Equal(
            Box::new(BexprV::Var(crate::order::indexed_name('x', 1))),
            Box::new(BexprV::Var(crate::order::indexed_name('x', 2))),
        ),
        r.letters@[3].1@ == seq!['b'],
        r.letters@[3].2@ == BexprV::NotEqual(
            Box::new(BexprV::Var(crate::order::indexed_name('x', 1))),
            Box::new(BexprV::Var(crate::order::indexed_name('x', 2))),
        ),
{
    let mut labels: Vec<String> = Vec::new();
    labels.push(String::from_str("l1"));
    labels.push(String::from_str("l2"));
    let mut arities: Vec<usize> = Vec::new();
    arities.push(1);
    arities.push(2);
    let mut universe: Vec<(Label, Bexpr)> = Vec::new();
    universe.push((0, str_expr("true")));
    universe.push((1, Bexpr::LessEqual(Box::new(var_expr('x', 1)), Box::new(var_expr('x', 2)))));
    let mut letters: Vec<(Label, Letter, Bexpr)> = Vec::new();
    letters.push((0, letter_string('a'), str_expr("true")));
    letters.push((0, letter_string('b'), str_expr("false")));
    letters.push((1, letter_string('a'), Bexpr::Equal(Box::new(var_expr('x', 1)), Box::new(var_expr('x', 2)))));
    letters.push((1, letter_string('b'), Bexpr::NotEqual(Box::new(var_expr('x', 1)), Box::new(var_expr('x', 2)))));
    let mut order: Vec<(Label, Label, Bexpr)> = Vec::new();
    order.push((0, 0, Bexpr::LessEqual(Box::new(var_expr('x', 1)), Box::new(var_expr('y', 1)))));
    order.push((0, 1, str_expr("true")));
    order.push((1, 0, str_expr("false")));
    order.push((
        1,
        1,
        Bexpr::Or(
            Box::new(Bexpr::LessEqual(Box::new(var_expr('x', 1)), Box::new(var_expr('x', 2)))),
            Box::new(Bexpr::And(
                Box::new(Bexpr::Equal(Box::new(var_expr('x', 1)), Box::new(var_expr('x', 2)))),
                Box::new(Bexpr::LessEqual(Box::new(var_expr('y', 2)), Box::new(var_expr('y', 1)))),
            )),
        ),
    ));
    let r = QfInterpretation { labels, arities, universe, order, letters };
    assert(r.arities@ =~= seq![1usize, 2usize]);
    r
}

} // verus!
