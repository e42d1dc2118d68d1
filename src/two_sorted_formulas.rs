//! Two-sorted first-order formulas over finite words: one sort of positions,
//! one finite sort of labels; and their text for three solvers.
//!
//! ```text
//! φ := φ ∧ φ | φ ∨ φ | φ → φ | φ ↔ φ | ¬φ
//!    | ∃x:L. φ | ∀x:L. φ | ∃x:P. φ | ∀x:P. φ
//!    | x = y | x <= y (x,y : P) | a(x) (a in Σ, x : P) | x = l (l in L)
//! ```
use vstd::prelude::*;
use crate::text::{push_decimal, push_str, decimal, char_string, contains_str, has_infix};

verus! {

/// A variable name.
pub type VarName = String;

/// A variable with its sort.
pub type Variable = (VarName, Sort);

/// Text for the three solvers.
pub trait ToSmtSolver {
    spec fn alt_ergo_text(&self) -> Seq<char>;

    spec fn smtlib_text(&self) -> Seq<char>;

    spec fn mona_text(&self) -> Seq<char>;

    fn to_alt_ergo(&self) -> (r: String)
        ensures
            r@ == self.alt_ergo_text(),
    ;

    fn to_smtlib(&self) -> (r: String)
        ensures
            r@ == self.smtlib_text(),
    ;

    fn to_mona(&self) -> (r: String)
        ensures
            r@ == self.mona_text(),
    ;
}

/// The two sorts.
#[derive(Debug, Clone, Copy, PartialEq, Eq, Structural)]
pub enum Sort {
    Label,
    Position,
}

/// A small alphabet.
#[derive(Debug, Clone, Copy, PartialEq, Eq, Structural)]
pub enum DefaultAlphabet {
    A,
    B,
    C,
    Hash,
}

/// A label named by a path of statement indices.
#[derive(Debug)]
pub struct DefaultLabel {
    pub position: Vec<u32>,
}

/// The name of a letter of the small alphabet.
pub open spec fn alphabet_name(a: DefaultAlphabet) -> Seq<char> {
    match a {
        DefaultAlphabet::A => seq!['A'],
        DefaultAlphabet::B => seq!['B'],
        DefaultAlphabet::C => seq!['C'],
        DefaultAlphabet::Hash => seq!['H', 'a', 's', 'h'],
    }
}

fn alphabet_string(a: &DefaultAlphabet) -> (r: String)
    ensures
        r@ == alphabet_name(*a),
{
    match a {
        DefaultAlphabet::A => char_string('A'),
        DefaultAlphabet::B => char_string('B'),
        DefaultAlphabet::C => char_string('C'),
        DefaultAlphabet::Hash => {
            let mut s = char_string('H');
            s.push('a');
            s.push('s');
            s.push('h');
            assert(s@ =~= seq!['H', 'a', 's', 'h']);
            s
        },
    }
}

impl ToSmtSolver for DefaultAlphabet {
    open spec fn alt_ergo_text(&self) -> Seq<char> {
        alphabet_name(*self)
    }

    open spec fn smtlib_text(&self) -> Seq<char> {
        alphabet_name(*self)
    }

    open spec fn mona_text(&self) -> Seq<char> {
        alphabet_name(*self)
    }

    fn to_alt_ergo(&self) -> (r: String) {
        alphabet_string(self)
    }

    fn to_smtlib(&self) -> (r: String) {
        alphabet_string(self)
    }

    fn to_mona(&self) -> (r: String) {
        alphabet_string(self)
    }
}

/// The decimal notations of `p`, separated by `sep`.
pub open spec fn numbers_joined(p: Seq<u32>, sep: char) -> Seq<char>
    decreases p.len(),
{
    if p.len() == 0 {
        Seq::empty()
    } else if p.len() == 1 {
        decimal(p[0] as nat)
    } else {
        numbers_joined(p.drop_last(), sep).push(sep) + decimal(p.last() as nat)
    }
}

fn push_numbers(s: &mut String, p: &Vec<u32>, sep: char)
    ensures
        final(s)@ == old(s)@ + numbers_joined(p@, sep),
{
    let ghost start = s@;
    let mut k: usize = 0;
    assert(p@.subrange(0, 0) =~= Seq::<u32>::empty());
    assert(s@ =~= start + numbers_joined(p@.subrange(0, 0), sep));
    while k < p.len()
        invariant
            k <= p@.len(),
            s@ == start + numbers_joined(p@.subrange(0, k as int), sep),
        decreases p@.len() - k,
    {
        let ghost before = s@;
        assert(p@.subrange(0, k + 1).drop_last() =~= p@.subrange(0, k as int));
        assert(p@.subrange(0, k + 1).last() == p@[k as int]);
        if k > 0 {
            s.push(sep);
        }
        push_decimal(s, p[k] as usize);
        if k > 0 {
            assert(s@ =~= before.push(sep) + decimal(p@[k as int] as nat));
        } else {
            assert(s@ =~= before + decimal(p@[k as int] as nat));
        }
        k = k + 1;
    }
    assert(p@.subrange(0, k as int) =~= p@);
}

fn label_text(prefix: &str, p: &Vec<u32>, sep: char) -> (r: String)
    ensures
        r@ == prefix@ + numbers_joined(p@, sep),
{
    let mut s = String::from_str(prefix);
    push_numbers(&mut s, p, sep);
    s
}

impl ToSmtSolver for DefaultLabel {
    open spec fn alt_ergo_text(&self) -> Seq<char> {
        "D"@ + numbers_joined(self.position@, '_')
    }

    open spec fn smtlib_text(&self) -> Seq<char> {
        "label-"@ + numbers_joined(self.position@, '-')
    }

    open spec fn mona_text(&self) -> Seq<char> {
        "D"@ + numbers_joined(self.position@, 'x')
    }

    fn to_alt_ergo(&self) -> (r: String) {
        label_text("D", &self.position, '_')
    }

    fn to_smtlib(&self) -> (r: String) {
        label_text("label-", &self.position, '-')
    }

    fn to_mona(&self) -> (r: String) {
        label_text("D", &self.position, 'x')
    }
}

/// A name stands for itself.
impl ToSmtSolver for String {
    open spec fn alt_ergo_text(&self) -> Seq<char> {
        self@
    }

    open spec fn smtlib_text(&self) -> Seq<char> {
        self@
    }

    open spec fn mona_text(&self) -> Seq<char> {
        self@
    }

    fn to_alt_ergo(&self) -> (r: String) {
        self.clone()
    }

    fn to_smtlib(&self) -> (r: String) {
        self.clone()
    }

    fn to_mona(&self) -> (r: String) {
        self.clone()
    }
}

fn prefixed(prefix: &str, name: &String) -> (r: String)
    ensures
        r@ == prefix@ + name@,
{
    let mut s = String::from_str(prefix);
    push_str(&mut s, name.as_str());
    s
}

impl ToSmtSolver for (VarName, Sort) {
    open spec fn alt_ergo_text(&self) -> Seq<char> {
        match self.1 {
            Sort::Label => "l"@ + self.0@,
            Sort::Position => "p"@ + self.0@,
        }
    }

    open spec fn smtlib_text(&self) -> Seq<char> {
        match self.1 {
            Sort::Label => "label-"@ + self.0@,
            Sort::Position => "pos-"@ + self.0@,
        }
    }

    open spec fn mona_text(&self) -> Seq<char> {
        match self.1 {
            Sort::Label => "label_"@ + self.0@,
            Sort::Position => "pos_"@ + self.0@,
        }
    }

    fn to_alt_ergo(&self) -> (r: String) {
        match self.1 {
            Sort::Label => prefixed("l", &self.0),
            Sort::Position => prefixed("p", &self.0),
        }
    }

    fn to_smtlib(&self) -> (r: String) {
        match self.1 {
            Sort::Label => prefixed("label-", &self.0),
            Sort::Position => prefixed("pos-", &self.0),
        }
    }

    fn to_mona(&self) -> (r: String) {
        match self.1 {
            Sort::Label => prefixed("label_", &self.0),
            Sort::Position => prefixed("pos_", &self.0),
        }
    }
}

/// One layer of a formula, its sub-formulas of type `F`; `A` is the
/// alphabet and `S` the set of labels.
#[derive(Debug)]
pub enum FormulaF<F, A, S> {
    /// `exists x:S. φ`
    Exists(VarName, Sort, F),
    /// `forall x:S. φ`
    Forall(VarName, Sort, F),
    And(F, F),
    Or(F, F),
    Implies(F, F),
    Iff(F, F),
    Not(F),
    /// `x = y`, both of the sort.
    Equal(Sort, VarName, VarName),
    /// `x <= y`, both positions.
    LessEqual(VarName, VarName),
    /// `a(x)`: the letter at position `x` is `a`.
    LetterAtPos(VarName, A),
    /// `x = l` for a label constant `l`.
    EqualConstant(VarName, S),
    True,
    False,
}

/// A formula: the layers of `FormulaF` nested down to the atoms.
#[derive(Debug)]
pub enum FormulaR<A, S> {
    Exists(VarName, Sort, Box<FormulaR<A, S>>),
    Forall(VarName, Sort, Box<FormulaR<A, S>>),
    And(Box<FormulaR<A, S>>, Box<FormulaR<A, S>>),
    Or(Box<FormulaR<A, S>>, Box<FormulaR<A, S>>),
    Implies(Box<FormulaR<A, S>>, Box<FormulaR<A, S>>),
    Iff(Box<FormulaR<A, S>>, Box<FormulaR<A, S>>),
    Not(Box<FormulaR<A, S>>),
    Equal(Sort, VarName, VarName),
    LessEqual(VarName, VarName),
    LetterAtPos(VarName, A),
    EqualConstant(VarName, S),
    True,
    False,
}

/// The surface syntax of a solver.
#[derive(Debug, Clone, Copy, PartialEq, Eq, Structural)]
pub enum Syntax {
    AltErgo,
    SmtLib,
    Mona,
}

/// The text of an atom of the alphabet or of the labels.
pub open spec fn atom_text<T: ToSmtSolver>(syn: Syntax, t: T) -> Seq<char> {
    match syn {
        Syntax::AltErgo => t.alt_ergo_text(),
        Syntax::SmtLib => t.smtlib_text(),
        Syntax::Mona => t.mona_text(),
    }
}

/// The binary connectives.
#[derive(Debug, Clone, Copy, PartialEq, Eq, Structural)]
pub enum Connective {
    And,
    Or,
    Implies,
    Iff,
}

/// The text of a quantifier over `v` of `sort` with body `i`.
pub open spec fn quant_text(syn: Syntax, exists: bool, v: Seq<char>, sort: Sort, i: Seq<char>) -> Seq<char> {
    match syn {
        Syntax::AltErgo => match sort {
            Sort::Label => (if exists { "exists "@ } else { "forall "@ }) + v + " : label. "@ + i,
            Sort::Position => if exists {
                "exists "@ + v + " : int. 0 <= "@ + v + " and "@ + v + " < len and ("@ + i + ")"@
            } else {
                "forall "@ + v + " : int. (0 <= "@ + v + " and "@ + v + " < len) -> ("@ + i + ")"@
            },
        },
        Syntax::SmtLib => match sort {
            Sort::Label => (if exists { "(exists (("@ } else { "(forall (("@ }) + v + " Label)) "@ + i
                + (if exists { ") "@ } else { ")"@ }),
            Sort::Position => if exists {
                "(exists (("@ + v + " Int)) (and (<= 0 "@ + v + ") (< "@ + v + " len) "@ + i + "))"@
            } else {
                "(forall (("@ + v + " Int)) (=> (and (<= 0 "@ + v + ") (< "@ + v + " len)) "@ + i + "))"@
            },
        },
        Syntax::Mona => (if exists { "ex1 "@ } else { "all1 "@ }) + v + ": ("@ + v + " in "@ + sort_set(sort)
            + (if exists { ") & ("@ } else { ") => ("@ }) + i + ")"@,
    }
}

/// The operator of a connective.
pub open spec fn connective_op(syn: Syntax, c: Connective) -> Seq<char> {
    match syn {
        Syntax::AltErgo => match c {
            Connective::And => "and"@,
            Connective::Or => "or"@,
            Connective::Implies => "->"@,
            Connective::Iff => "<->"@,
        },
        Syntax::SmtLib => match c {
            Connective::And => "and"@,
            Connective::Or => "or"@,
            Connective::Implies => "=>"@,
            Connective::Iff => "="@,
        },
        Syntax::Mona => match c {
            Connective::And => "&"@,
            Connective::Or => "|"@,
            Connective::Implies => "=>"@,
            Connective::Iff => "<=>"@,
        },
    }
}

/// The text of a connective applied to `l` and `r`.
pub open spec fn binary_text(syn: Syntax, c: Connective, l: Seq<char>, r: Seq<char>) -> Seq<char> {
    match syn {
        Syntax::SmtLib => "("@ + connective_op(syn, c) + " "@ + l + " "@ + r + ") "@,
        _ => "("@ + l + " "@ + connective_op(syn, c) + " "@ + r + ")"@,
    }
}

/// The text of a negation.
pub open spec fn not_text(syn: Syntax, i: Seq<char>) -> Seq<char> {
    match syn {
        Syntax::AltErgo => "not "@ + i,
        Syntax::SmtLib => "(not "@ + i + ") "@,
        Syntax::Mona => "~("@ + i + ")"@,
    }
}

/// The text of a comparison `l op r` of two variables.
pub open spec fn compare_text(syn: Syntax, op: Seq<char>, l: Seq<char>, r: Seq<char>) -> Seq<char> {
    match syn {
        Syntax::SmtLib => "("@ + op + " "@ + l + " "@ + r + ") "@,
        _ => l + " "@ + op + " "@ + r,
    }
}

/// The text of `a(v)`, given the text `a` of the letter.
pub open spec fn letter_atom_text(syn: Syntax, v: Seq<char>, a: Seq<char>) -> Seq<char> {
    match syn {
        Syntax::AltErgo => "is_letter_"@ + a + "("@ + v + ")"@,
        Syntax::SmtLib => "(= (word "@ + v + ") "@ + a + ") "@,
        Syntax::Mona => v + " in L"@ + a,
    }
}

/// The text of `v = c`, given the text `c` of the label.
pub open spec fn constant_text(syn: Syntax, v: Seq<char>, c: Seq<char>) -> Seq<char> {
    match syn {
        Syntax::AltErgo => v + " = "@ + c,
        Syntax::SmtLib => "(= "@ + v + " "@ + c + ") "@,
        Syntax::Mona => v + " in D"@ + c,
    }
}

/// The text of one layer whose sub-formulas are already text. MONA names a
/// letter by its SMT-LIB text.
pub open spec fn node_text<A: ToSmtSolver, S: ToSmtSolver>(syn: Syntax, n: FormulaF<Seq<char>, A, S>) -> Seq<char> {
    match n {
        FormulaF::True => "true"@,
        FormulaF::False => "false"@,
        FormulaF::Exists(v, sort, i) => quant_text(syn, true, v@, sort, i),
        FormulaF::Forall(v, sort, i) => quant_text(syn, false, v@, sort, i),
        FormulaF::And(l, r) => binary_text(syn, Connective::And, l, r),
        FormulaF::Or(l, r) => binary_text(syn, Connective::Or, l, r),
        FormulaF::Implies(l, r) => binary_text(syn, Connective::Implies, l, r),
        FormulaF::Iff(l, r) => binary_text(syn, Connective::Iff, l, r),
        FormulaF::Not(i) => not_text(syn, i),
        FormulaF::Equal(_, l, r) => compare_text(syn, "="@, l@, r@),
        FormulaF::LessEqual(l, r) => compare_text(syn, "<="@, l@, r@),
        FormulaF::LetterAtPos(v, a) => letter_atom_text(syn, v@, match syn {
            Syntax::Mona => a.smtlib_text(),
            _ => atom_text(syn, a),
        }),
        FormulaF::EqualConstant(v, c) => constant_text(syn, v@, atom_text(syn, c)),
    }
}

/// The set that a sort ranges over in MONA.
pub open spec fn sort_set(sort: Sort) -> Seq<char> {
    match sort {
        Sort::Label => "L"@,
        Sort::Position => "W"@,
    }
}

/// The text of a formula: each layer printed from the text of its
/// sub-formulas.
pub open spec fn formula_text<A: ToSmtSolver, S: ToSmtSolver>(syn: Syntax, f: FormulaR<A, S>) -> Seq<char>
    decreases f,
{
    node_text(syn, match f {
        FormulaR::Exists(v, sort, i) => FormulaF::Exists(v, sort, formula_text(syn, *i)),
        FormulaR::Forall(v, sort, i) => FormulaF::Forall(v, sort, formula_text(syn, *i)),
        FormulaR::And(l, r) => FormulaF::And(formula_text(syn, *l), formula_text(syn, *r)),
        FormulaR::Or(l, r) => FormulaF::Or(formula_text(syn, *l), formula_text(syn, *r)),
        FormulaR::Implies(l, r) => FormulaF::Implies(formula_text(syn, *l), formula_text(syn, *r)),
        FormulaR::Iff(l, r) => FormulaF::Iff(formula_text(syn, *l), formula_text(syn, *r)),
        FormulaR::Not(i) => FormulaF::Not(formula_text(syn, *i)),
        FormulaR::Equal(sort, l, r) => FormulaF::Equal(sort, l, r),
        FormulaR::LessEqual(l, r) => FormulaF::LessEqual(l, r),
        FormulaR::LetterAtPos(v, a) => FormulaF::LetterAtPos(v, a),
        FormulaR::EqualConstant(v, c) => FormulaF::EqualConstant(v, c),
        FormulaR::True => FormulaF::True,
        FormulaR::False => FormulaF::False,
    })
}

/// The view of a layer whose sub-formulas are strings.
pub open spec fn text_layer<A, S>(n: FormulaF<String, A, S>) -> FormulaF<Seq<char>, A, S> {
    match n {
        FormulaF::Exists(v, sort, i) => FormulaF::Exists(v, sort, i@),
        FormulaF::Forall(v, sort, i) => FormulaF::Forall(v, sort, i@),
        FormulaF::And(l, r) => FormulaF::And(l@, r@),
        FormulaF::Or(l, r) => FormulaF::Or(l@, r@),
        FormulaF::Implies(l, r) => FormulaF::Implies(l@, r@),
        FormulaF::Iff(l, r) => FormulaF::Iff(l@, r@),
        FormulaF::Not(i) => FormulaF::Not(i@),
        FormulaF::Equal(sort, l, r) => FormulaF::Equal(sort, l, r),
        FormulaF::LessEqual(l, r) => FormulaF::LessEqual(l, r),
        FormulaF::LetterAtPos(v, a) => FormulaF::LetterAtPos(v, a),
        FormulaF::EqualConstant(v, c) => FormulaF::EqualConstant(v, c),
        FormulaF::True => FormulaF::True,
        FormulaF::False => FormulaF::False,
    }
}

fn atom_string<T: ToSmtSolver>(syn: Syntax, t: &T) -> (r: String)
    ensures
        r@ == atom_text(syn, *t),
{
    match syn {
        Syntax::AltErgo => t.to_alt_ergo(),
        Syntax::SmtLib => t.to_smtlib(),
        Syntax::Mona => t.to_mona(),
    }
}

fn sort_string(sort: Sort) -> (r: &'static str)
    ensures
        r@ == sort_set(sort),
{
    match sort {
        Sort::Label => "L",
        Sort::Position => "W",
    }
}

fn bool_str(b: bool, yes: &'static str, no: &'static str) -> (r: &'static str)
    ensures
        r@ == if b { yes@ } else { no@ },
{
    if b { yes } else { no }
}

fn quantifier_string(syn: Syntax, exists: bool, v: &str, sort: Sort, i: &str) -> (r: String)
    ensures
        r@ == quant_text(syn, exists, v@, sort, i@),
{
    let mut s = String::new();
    match syn {
        Syntax::AltErgo => match sort {
            Sort::Label => {
                push_str(&mut s, bool_str(exists, "exists ", "forall "));
                push_str(&mut s, v);
                push_str(&mut s, " : label. ");
                push_str(&mut s, i);
            },
            Sort::Position => {
                if exists {
                    push_str(&mut s, "exists ");
                    push_str(&mut s, v);
                    push_str(&mut s, " : int. 0 <= ");
                    push_str(&mut s, v);
                    push_str(&mut s, " and ");
                    push_str(&mut s, v);
                    push_str(&mut s, " < len and (");
                } else {
                    push_str(&mut s, "forall ");
                    push_str(&mut s, v);
                    push_str(&mut s, " : int. (0 <= ");
                    push_str(&mut s, v);
                    push_str(&mut s, " and ");
                    push_str(&mut s, v);
                    push_str(&mut s, " < len) -> (");
                }
                push_str(&mut s, i);
                push_str(&mut s, ")");
            },
        },
        Syntax::SmtLib => match sort {
            Sort::Label => {
                push_str(&mut s, bool_str(exists, "(exists ((", "(forall (("));
                push_str(&mut s, v);
                push_str(&mut s, " Label)) ");
                push_str(&mut s, i);
                push_str(&mut s, bool_str(exists, ") ", ")"));
            },
            Sort::Position => {
                if exists {
                    push_str(&mut s, "(exists ((");
                    push_str(&mut s, v);
                    push_str(&mut s, " Int)) (and (<= 0 ");
                    push_str(&mut s, v);
                    push_str(&mut s, ") (< ");
                    push_str(&mut s, v);
                    push_str(&mut s, " len) ");
                } else {
                    push_str(&mut s, "(forall ((");
                    push_str(&mut s, v);
                    push_str(&mut s, " Int)) (=> (and (<= 0 ");
                    push_str(&mut s, v);
                    push_str(&mut s, ") (< ");
                    push_str(&mut s, v);
                    push_str(&mut s, " len)) ");
                }
                push_str(&mut s, i);
                push_str(&mut s, "))");
            },
        },
        Syntax::Mona => {
            push_str(&mut s, bool_str(exists, "ex1 ", "all1 "));
            push_str(&mut s, v);
            push_str(&mut s, ": (");
            push_str(&mut s, v);
            push_str(&mut s, " in ");
            push_str(&mut s, sort_string(sort));
            push_str(&mut s, bool_str(exists, ") & (", ") => ("));
            push_str(&mut s, i);
            push_str(&mut s, ")");
        },
    }
    assert(s@ =~= quant_text(syn, exists, v@, sort, i@));
    s
}

fn connective_str(syn: Syntax, c: Connective) -> (r: &'static str)
    ensures
        r@ == connective_op(syn, c),
{
    match syn {
        Syntax::AltErgo => match c {
            Connective::And => "and",
            Connective::Or => "or",
            Connective::Implies => "->",
            Connective::Iff => "<->",
        },
        Syntax::SmtLib => match c {
            Connective::And => "and",
            Connective::Or => "or",
            Connective::Implies => "=>",
            Connective::Iff => "=",
        },
        Syntax::Mona => match c {
            Connective::And => "&",
            Connective::Or => "|",
            Connective::Implies => "=>",
            Connective::Iff => "<=>",
        },
    }
}

fn binary_string(syn: Syntax, c: Connective, l: &str, r: &str) -> (t: String)
    ensures
        t@ == binary_text(syn, c, l@, r@),
{
    let mut s = String::new();
    let op = connective_str(syn, c);
    match syn {
        Syntax::SmtLib => {
            push_str(&mut s, "(");
            push_str(&mut s, op);
            push_str(&mut s, " ");
            push_str(&mut s, l);
            push_str(&mut s, " ");
            push_str(&mut s, r);
            push_str(&mut s, ") ");
        },
        _ => {
            push_str(&mut s, "(");
            push_str(&mut s, l);
            push_str(&mut s, " ");
            push_str(&mut s, op);
            push_str(&mut s, " ");
            push_str(&mut s, r);
            push_str(&mut s, ")");
        },
    }
    assert(s@ =~= binary_text(syn, c, l@, r@));
    s
}

fn not_string(syn: Syntax, i: &str) -> (t: String)
    ensures
        t@ == not_text(syn, i@),
{
    let mut s = String::new();
    match syn {
        Syntax::AltErgo => {
            push_str(&mut s, "not ");
            push_str(&mut s, i);
        },
        Syntax::SmtLib => {
            push_str(&mut s, "(not ");
            push_str(&mut s, i);
            push_str(&mut s, ") ");
        },
        Syntax::Mona => {
            push_str(&mut s, "~(");
            push_str(&mut s, i);
            push_str(&mut s, ")");
        },
    }
    assert(s@ =~= not_text(syn, i@));
    s
}

fn compare_string(syn: Syntax, op: &str, l: &str, r: &str) -> (t: String)
    ensures
        t@ == compare_text(syn, op@, l@, r@),
{
    let mut s = String::new();
    match syn {
        Syntax::SmtLib => {
            push_str(&mut s, "(");
            push_str(&mut s, op);
            push_str(&mut s, " ");
            push_str(&mut s, l);
            push_str(&mut s, " ");
            push_str(&mut s, r);
            push_str(&mut s, ") ");
        },
        _ => {
            push_str(&mut s, l);
            push_str(&mut s, " ");
            push_str(&mut s, op);
            push_str(&mut s, " ");
            push_str(&mut s, r);
        },
    }
    assert(s@ =~= compare_text(syn, op@, l@, r@));
    s
}

fn letter_atom_string(syn: Syntax, v: &str, a: &str) -> (t: String)
    ensures
        t@ == letter_atom_text(syn, v@, a@),
{
    let mut s = String::new();
    match syn {
        Syntax::AltErgo => {
            push_str(&mut s, "is_letter_");
            push_str(&mut s, a);
            push_str(&mut s, "(");
            push_str(&mut s, v);
            push_str(&mut s, ")");
        },
        Syntax::SmtLib => {
            push_str(&mut s, "(= (word ");
            push_str(&mut s, v);
            push_str(&mut s, ") ");
            push_str(&mut s, a);
            push_str(&mut s, ") ");
        },
        Syntax::Mona => {
            push_str(&mut s, v);
            push_str(&mut s, " in L");
            push_str(&mut s, a);
        },
    }
    assert(s@ =~= letter_atom_text(syn, v@, a@));
    s
}

fn constant_string(syn: Syntax, v: &str, c: &str) -> (t: String)
    ensures
        t@ == constant_text(syn, v@, c@),
{
    let mut s = String::new();
    match syn {
        Syntax::AltErgo => {
            push_str(&mut s, v);
            push_str(&mut s, " = ");
            push_str(&mut s, c);
        },
        Syntax::SmtLib => {
            push_str(&mut s, "(= ");
            push_str(&mut s, v);
            push_str(&mut s, " ");
            push_str(&mut s, c);
            push_str(&mut s, ") ");
        },
        Syntax::Mona => {
            push_str(&mut s, v);
            push_str(&mut s, " in D");
            push_str(&mut s, c);
        },
    }
    assert(s@ =~= constant_text(syn, v@, c@));
    s
}

fn letter_name<A: ToSmtSolver>(syn: Syntax, a: &A) -> (r: String)
    ensures
        r@ == match syn {
            Syntax::Mona => a.smtlib_text(),
            _ => atom_text(syn, *a),
        },
{
    match syn {
        Syntax::Mona => a.to_smtlib(),
        _ => atom_string(syn, a),
    }
}

fn leaf_string<A: ToSmtSolver, S: ToSmtSolver>(syn: Syntax, f: &FormulaR<A, S>) -> (r: Option<String>)
    ensures
        match r {
            Some(t) => t@ == formula_text(syn, *f),
            None => !(f is Equal || f is LessEqual || f is LetterAtPos || f is EqualConstant || f is True || f is False),
        },
{
    match f {
        FormulaR::True => Some(String::from_str("true")),
        FormulaR::False => Some(String::from_str("false")),
        FormulaR::Equal(_, l, r) => Some(compare_string(syn, "=", l.as_str(), r.as_str())),
        FormulaR::LessEqual(l, r) => Some(compare_string(syn, "<=", l.as_str(), r.as_str())),
        FormulaR::LetterAtPos(v, a) => Some(letter_atom_string(syn, v.as_str(), letter_name(syn, a).as_str())),
        FormulaR::EqualConstant(v, c) => Some(constant_string(syn, v.as_str(), atom_string(syn, c).as_str())),
        _ => None,
    }
}

/// The text of a layer whose sub-formulas are already text.
fn node_string<A: ToSmtSolver, S: ToSmtSolver>(syn: Syntax, n: &FormulaF<String, A, S>) -> (r: String)
    ensures
        r@ == node_text(syn, text_layer(*n)),
{
    match n {
        FormulaF::True => String::from_str("true"),
        FormulaF::False => String::from_str("false"),
        FormulaF::Exists(v, sort, i) => quantifier_string(syn, true, v.as_str(), *sort, i.as_str()),
        FormulaF::Forall(v, sort, i) => quantifier_string(syn, false, v.as_str(), *sort, i.as_str()),
        FormulaF::And(l, r) => binary_string(syn, Connective::And, l.as_str(), r.as_str()),
        FormulaF::Or(l, r) => binary_string(syn, Connective::Or, l.as_str(), r.as_str()),
        FormulaF::Implies(l, r) => binary_string(syn, Connective::Implies, l.as_str(), r.as_str()),
        FormulaF::Iff(l, r) => binary_string(syn, Connective::Iff, l.as_str(), r.as_str()),
        FormulaF::Not(i) => not_string(syn, i.as_str()),
        FormulaF::Equal(_, l, r) => compare_string(syn, "=", l.as_str(), r.as_str()),
        FormulaF::LessEqual(l, r) => compare_string(syn, "<=", l.as_str(), r.as_str()),
        FormulaF::LetterAtPos(v, a) => letter_atom_string(syn, v.as_str(), letter_name(syn, a).as_str()),
        FormulaF::EqualConstant(v, c) => constant_string(syn, v.as_str(), atom_string(syn, c).as_str()),
    }
}

impl<A: ToSmtSolver, S: ToSmtSolver> ToSmtSolver for FormulaF<String, A, S> {
    open spec fn alt_ergo_text(&self) -> Seq<char> {
        node_text(Syntax::AltErgo, text_layer(*self))
    }

    open spec fn smtlib_text(&self) -> Seq<char> {
        node_text(Syntax::SmtLib, text_layer(*self))
    }

    open spec fn mona_text(&self) -> Seq<char> {
        node_text(Syntax::Mona, text_layer(*self))
    }

    fn to_alt_ergo(&self) -> (r: String) {
        node_string(Syntax::AltErgo, self)
    }

    fn to_smtlib(&self) -> (r: String) {
        node_string(Syntax::SmtLib, self)
    }

    fn to_mona(&self) -> (r: String) {
        node_string(Syntax::Mona, self)
    }
}

/// The text of a formula in a solver's syntax.
pub fn formula_string<A: ToSmtSolver, S: ToSmtSolver>(syn: Syntax, f: &FormulaR<A, S>) -> (r: String)
    ensures
        r@ == formula_text(syn, *f),
    decreases f,
{
    match leaf_string(syn, f) {
        Some(t) => t,
        None => {
            let node: FormulaF<String, A, S> = match f {
                FormulaR::Exists(v, sort, i) => FormulaF::Exists(v.clone(), *sort, formula_string(syn, i)),
                FormulaR::Forall(v, sort, i) => FormulaF::Forall(v.clone(), *sort, formula_string(syn, i)),
                FormulaR::And(l, r) => FormulaF::And(formula_string(syn, l), formula_string(syn, r)),
                FormulaR::Or(l, r) => FormulaF::Or(formula_string(syn, l), formula_string(syn, r)),
                FormulaR::Implies(l, r) => FormulaF::Implies(formula_string(syn, l), formula_string(syn, r)),
                FormulaR::Iff(l, r) => FormulaF::Iff(formula_string(syn, l), formula_string(syn, r)),
                FormulaR::Not(i) => FormulaF::Not(formula_string(syn, i)),
                _ => FormulaF::True,
            };
            node_string(syn, &node)
        },
    }
}

impl<A: ToSmtSolver, S: ToSmtSolver> ToSmtSolver for FormulaR<A, S> {
    open spec fn alt_ergo_text(&self) -> Seq<char> {
        formula_text(Syntax::AltErgo, *self)
    }

    open spec fn smtlib_text(&self) -> Seq<char> {
        formula_text(Syntax::SmtLib, *self)
    }

    open spec fn mona_text(&self) -> Seq<char> {
        formula_text(Syntax::Mona, *self)
    }

    fn to_alt_ergo(&self) -> (r: String) {
        formula_string(Syntax::AltErgo, self)
    }

    fn to_smtlib(&self) -> (r: String) {
        formula_string(Syntax::SmtLib, self)
    }

    fn to_mona(&self) -> (r: String) {
        formula_string(Syntax::Mona, self)
    }
}

impl<A, S> FormulaR<A, S> {
    pub fn and(self, other: FormulaR<A, S>) -> (r: FormulaR<A, S>)
        ensures
            r == FormulaR::And(Box::new(self), Box::new(other)),
    {
        FormulaR::And(Box::new(self), Box::new(other))
    }

    pub fn or(self, other: FormulaR<A, S>) -> (r: FormulaR<A, S>)
        ensures
            r == FormulaR::Or(Box::new(self), Box::new(other)),
    {
        FormulaR::Or(Box::new(self), Box::new(other))
    }

    pub fn implies(self, other: FormulaR<A, S>) -> (r: FormulaR<A, S>)
        ensures
            r == FormulaR::Implies(Box::new(self), Box::new(other)),
    {
        FormulaR::Implies(Box::new(self), Box::new(other))
    }

    pub fn iff(self, other: FormulaR<A, S>) -> (r: FormulaR<A, S>)
        ensures
            r == FormulaR::Iff(Box::new(self), Box::new(other)),
    {
        FormulaR::Iff(Box::new(self), Box::new(other))
    }

    pub fn not(self) -> (r: FormulaR<A, S>)
        ensures
            r == FormulaR::Not(Box::new(self)),
    {
        FormulaR::Not(Box::new(self))
    }

    pub fn exists_over(self, var: VarName, sort: Sort) -> (r: FormulaR<A, S>)
        ensures
            r == FormulaR::Exists(var, sort, Box::new(self)),
    {
        FormulaR::Exists(var, sort, Box::new(self))
    }

    pub fn forall_over(self, var: VarName, sort: Sort) -> (r: FormulaR<A, S>)
        ensures
            r == FormulaR::Forall(var, sort, Box::new(self)),
    {
        FormulaR::Forall(var, sort, Box::new(self))
    }

    pub fn equal(sort: Sort, left: VarName, right: VarName) -> (r: FormulaR<A, S>)
        ensures
            r == FormulaR::<A, S>::Equal(sort, left, right),
    {
        FormulaR::Equal(sort, left, right)
    }

    pub fn less_equal(left: VarName, right: VarName) -> (r: FormulaR<A, S>)
        ensures
            r == FormulaR::<A, S>::LessEqual(left, right),
    {
        FormulaR::LessEqual(left, right)
    }

    pub fn letter_at_pos(var: VarName, letter: A) -> (r: FormulaR<A, S>)
        ensures
            r == FormulaR::<A, S>::LetterAtPos(var, letter),
    {
        FormulaR::LetterAtPos(var, letter)
    }

    pub fn equal_constant(var: VarName, value: S) -> (r: FormulaR<A, S>)
        ensures
            r == FormulaR::<A, S>::EqualConstant(var, value),
    {
        FormulaR::EqualConstant(var, value)
    }

    pub fn const_true() -> (r: FormulaR<A, S>)
        ensures
            r == FormulaR::<A, S>::True,
    {
        FormulaR::True
    }

    pub fn const_false() -> (r: FormulaR<A, S>)
        ensures
            r == FormulaR::<A, S>::False,
    {
        FormulaR::False
    }
}

/// Text pieces joined by a separator.
pub open spec fn joined_texts(parts: Seq<Seq<char>>, sep: Seq<char>) -> Seq<char>
    decreases parts.len(),
{
    if parts.len() == 0 {
        Seq::empty()
    } else if parts.len() == 1 {
        parts[0]
    } else {
        joined_texts(parts.drop_last(), sep) + sep + parts.last()
    }
}

/// Text pieces one after the other.
pub open spec fn concat_texts(parts: Seq<Seq<char>>) -> Seq<char>
    decreases parts.len(),
{
    if parts.len() == 0 {
        Seq::empty()
    } else {
        concat_texts(parts.drop_last()) + parts.last()
    }
}

/// The text of each item, between `before` and `after`.
pub open spec fn wrapped_texts<T: ToSmtSolver>(syn: Syntax, items: Seq<T>, before: Seq<char>, after: Seq<char>) -> Seq<Seq<char>> {
    items.map_values(|t: T| before + atom_text(syn, t) + after)
}

fn push_joined<T: ToSmtSolver>(s: &mut String, syn: Syntax, items: &[T], before: &str, after: &str, sep: &str)
    ensures
        final(s)@ == old(s)@ + joined_texts(wrapped_texts(syn, items@, before@, after@), sep@),
{
    let ghost start = s@;
    let ghost parts = wrapped_texts(syn, items@, before@, after@);
    let mut k: usize = 0;
    assert(parts.subrange(0, 0) =~= Seq::<Seq<char>>::empty());
    assert(s@ =~= start + joined_texts(parts.subrange(0, 0), sep@));
    while k < items.len()
        invariant
            k <= items@.len(),
            parts == wrapped_texts(syn, items@, before@, after@),
            s@ == start + joined_texts(parts.subrange(0, k as int), sep@),
        decreases items@.len() - k,
    {
        let ghost prev = s@;
        assert(parts.subrange(0, k + 1).drop_last() =~= parts.subrange(0, k as int));
        assert(parts.subrange(0, k + 1).last() == parts[k as int]);
        if k > 0 {
            push_str(s, sep);
        }
        push_str(s, before);
        let t = atom_string(syn, &items[k]);
        push_str(s, t.as_str());
        push_str(s, after);
        if k > 0 {
            assert(s@ =~= prev + sep@ + parts[k as int]);
        } else {
            assert(s@ =~= prev + parts[k as int]);
        }
        k = k + 1;
    }
    assert(parts.subrange(0, k as int) =~= parts);
}

/// The predicate of each letter in the Alt-Ergo preamble.
pub open spec fn letter_predicates<A: ToSmtSolver>(alphabet: Seq<A>) -> Seq<Seq<char>> {
    alphabet.map_values(|a: A| "predicate is_letter_"@ + a.alt_ergo_text() + "(i:int) = word(i) = L"@ + a.alt_ergo_text() + "\n"@)
}

/// The Alt-Ergo problem: the labels and letters as types, the word as a
/// function on `0 .. len`, and the formula as the goal.
pub open spec fn alt_ergo_problem<A: ToSmtSolver, S: ToSmtSolver>(formula: FormulaR<A, S>, alphabet: Seq<A>, labels: Seq<S>) -> Seq<char> {
    "\n(* create the various labels *)\ntype label    =  "@
        + joined_texts(wrapped_texts(Syntax::AltErgo, labels, ""@, ""@), " | "@)
        + "\n(* create the various letters *)\ntype letter   = E | "@
        + joined_texts(wrapped_texts(Syntax::AltErgo, alphabet, "L"@, ""@), " | "@)
        + "\n\n(* encode a finite word *)\nlogic len  : int\nlogic word : int -> letter\n\n(* predicates for every letter in the word *)\n"@
        + concat_texts(letter_predicates(alphabet))
        + "\n(* the word has size len *)\naxiom word_is_finite: forall i:int.\n    (0 <= i and i < len -> word(i) <> E) and\n    (i >= len -> word(i) = E) and\n    (i < 0 -> word(i) = E)\n\n(* The final goal *)\ngoal alt_ergo_goal: "@
        + formula_text(Syntax::AltErgo, formula)
        + "\n"@
}

/// The SMT-LIB problem: the letters and labels as datatypes, the word as a
/// function blank outside `0 .. len`, and the negation of the formula
/// asserted.
pub open spec fn smtlib_problem<A: ToSmtSolver, S: ToSmtSolver>(formula: FormulaR<A, S>, alphabet: Seq<A>, labels: Seq<S>) -> Seq<char> {
    "; Set the logic to be first-order logic with linear arithmetics\n; and arrays\n(set-logic ALL)\n; Declare the alphabet \n(declare-datatype Letter ((blank) "@
        + joined_texts(wrapped_texts(Syntax::SmtLib, alphabet, "("@, ")"@), " "@)
        + "))\n; Declare the labels (for the print statements)\n(declare-datatype Label  ("@
        + joined_texts(wrapped_texts(Syntax::SmtLib, labels, "("@, ")"@), " "@)
        + "))\n(declare-const len Int)\n(declare-fun word (Int) Letter)\n; assert that the word is of length len >= 0\n(assert (>= len 0))\n; assert that the word is blank outside of 0 .. len\n(assert (forall ((x Int)) (=> (or (< x 0) (>= x len)) (= (word x) blank))))\n(assert (forall ((x Int)) (=> (and (<= 0 x) (< x len)) (not (= (word x) blank)))))\n; now the formula\n(assert (not "@
        + formula_text(Syntax::SmtLib, formula)
        + "))\n; check for satisfiability\n(check-sat)\n"@
}

/// The MONA assertions that put label `i` at position `i`.
pub open spec fn label_positions<S: ToSmtSolver>(labels: Seq<S>) -> Seq<Seq<char>> {
    Seq::new(labels.len(), |i: int| "assert ("@ + labels[i].mona_text() + " = {"@ + decimal(i as nat) + "});\n"@)
}

/// The MONA problem over finite strings: a second-order variable for each
/// letter and label, the word `W` and the labels `L` disjoint, then the
/// formula.
pub open spec fn mona_problem<A: ToSmtSolver, S: ToSmtSolver>(formula: FormulaR<A, S>, alphabet: Seq<A>, labels: Seq<S>) -> Seq<char> {
    "m2l-str;\nvar2 "@
        + joined_texts(wrapped_texts(Syntax::Mona, alphabet, "L"@, ""@), ", "@)
        + ";\nvar2 "@
        + joined_texts(wrapped_texts(Syntax::Mona, labels, ""@, ""@), ", "@)
        + ";\nvar2 W,L;\n"@
        + concat_texts(label_positions(labels))
        + "assert (L = "@
        + joined_texts(wrapped_texts(Syntax::Mona, labels, ""@, ""@), " union "@)
        + ");\nassert (W = "@
        + joined_texts(wrapped_texts(Syntax::Mona, alphabet, "L"@, ""@), " union "@)
        + ");\nassert (L inter W = empty);\n"@
        + formula_text(Syntax::Mona, formula)
        + ";\n"@
}

/// The Alt-Ergo problem of a formula.
pub fn produce_alt_ergo<A: ToSmtSolver, S: ToSmtSolver>(formula: &FormulaR<A, S>, alphabet: &[A], labels: &[S]) -> (r: String)
    ensures
        r@ == alt_ergo_problem(*formula, alphabet@, labels@),
{
    let mut buf = String::new();
    push_str(&mut buf, "\n(* create the various labels *)\ntype label    =  ");
    push_joined(&mut buf, Syntax::AltErgo, labels, "", "", " | ");
    push_str(&mut buf, "\n(* create the various letters *)\ntype letter   = E | ");
    push_joined(&mut buf, Syntax::AltErgo, alphabet, "L", "", " | ");
    push_str(&mut buf, "\n\n(* encode a finite word *)\nlogic len  : int\nlogic word : int -> letter\n\n(* predicates for every letter in the word *)\n");
    let ghost before = buf@;
    let ghost preds = letter_predicates(alphabet@);
    let mut k: usize = 0;
    assert(preds.subrange(0, 0) =~= Seq::<Seq<char>>::empty());
    assert(buf@ =~= before + concat_texts(preds.subrange(0, 0)));
    while k < alphabet.len()
        invariant
            k <= alphabet@.len(),
            preds == letter_predicates(alphabet@),
            buf@ == before + concat_texts(preds.subrange(0, k as int)),
        decreases alphabet@.len() - k,
    {
        let ghost prev = buf@;
        assert(preds.subrange(0, k + 1).drop_last() =~= preds.subrange(0, k as int));
        let name = alphabet[k].to_alt_ergo();
        push_str(&mut buf, "predicate is_letter_");
        push_str(&mut buf, name.as_str());
        push_str(&mut buf, "(i:int) = word(i) = L");
        push_str(&mut buf, name.as_str());
        push_str(&mut buf, "\n");
        assert(buf@ =~= prev + preds[k as int]);
        k = k + 1;
    }
    assert(preds.subrange(0, k as int) =~= preds);
    push_str(&mut buf, "\n(* the word has size len *)\naxiom word_is_finite: forall i:int.\n    (0 <= i and i < len -> word(i) <> E) and\n    (i >= len -> word(i) = E) and\n    (i < 0 -> word(i) = E)\n\n(* The final goal *)\ngoal alt_ergo_goal: ");
    let text = formula_string(Syntax::AltErgo, formula);
    push_str(&mut buf, text.as_str());
    push_str(&mut buf, "\n");
    assert(buf@ =~= alt_ergo_problem(*formula, alphabet@, labels@));
    buf
}

/// The SMT-LIB problem of a formula: valid when the solver answers `unsat`.
pub fn produce_smtlib<A: ToSmtSolver, S: ToSmtSolver>(formula: &FormulaR<A, S>, alphabet: &[A], labels: &[S]) -> (r: String)
    ensures
        r@ == smtlib_problem(*formula, alphabet@, labels@),
{
    let mut buf = String::new();
    push_str(&mut buf, "; Set the logic to be first-order logic with linear arithmetics\n; and arrays\n(set-logic ALL)\n; Declare the alphabet \n(declare-datatype Letter ((blank) ");
    push_joined(&mut buf, Syntax::SmtLib, alphabet, "(", ")", " ");
    push_str(&mut buf, "))\n; Declare the labels (for the print statements)\n(declare-datatype Label  (");
    push_joined(&mut buf, Syntax::SmtLib, labels, "(", ")", " ");
    push_str(&mut buf, "))\n(declare-const len Int)\n(declare-fun word (Int) Letter)\n; assert that the word is of length len >= 0\n(assert (>= len 0))\n; assert that the word is blank outside of 0 .. len\n(assert (forall ((x Int)) (=> (or (< x 0) (>= x len)) (= (word x) blank))))\n(assert (forall ((x Int)) (=> (and (<= 0 x) (< x len)) (not (= (word x) blank)))))\n; now the formula\n(assert (not ");
    let text = formula_string(Syntax::SmtLib, formula);
    push_str(&mut buf, text.as_str());
    push_str(&mut buf, "))\n; check for satisfiability\n(check-sat)\n");
    assert(buf@ =~= smtlib_problem(*formula, alphabet@, labels@));
    buf
}

/// The MONA problem of a formula.
pub fn produce_mona<A: ToSmtSolver, S: ToSmtSolver>(formula: &FormulaR<A, S>, alphabet: &[A], labels: &[S]) -> (r: String)
    ensures
        r@ == mona_problem(*formula, alphabet@, labels@),
{
    let mut buf = String::new();
    push_str(&mut buf, "m2l-str;\nvar2 ");
    push_joined(&mut buf, Syntax::Mona, alphabet, "L", "", ", ");
    push_str(&mut buf, ";\nvar2 ");
    push_joined(&mut buf, Syntax::Mona, labels, "", "", ", ");
    push_str(&mut buf, ";\nvar2 W,L;\n");
    let ghost before = buf@;
    let ghost asserts = label_positions(labels@);
    let mut k: usize = 0;
    assert(asserts.subrange(0, 0) =~= Seq::<Seq<char>>::empty());
    assert(buf@ =~= before + concat_texts(asserts.subrange(0, 0)));
    while k < labels.len()
        invariant
            k <= labels@.len(),
            asserts == label_positions(labels@),
            buf@ == before + concat_texts(asserts.subrange(0, k as int)),
        decreases labels@.len() - k,
    {
        let ghost prev = buf@;
        assert(asserts.subrange(0, k + 1).drop_last() =~= asserts.subrange(0, k as int));
        let name = labels[k].to_mona();
        push_str(&mut buf, "assert (");
        push_str(&mut buf, name.as_str());
        push_str(&mut buf, " = {");
        push_decimal(&mut buf, k);
        push_str(&mut buf, "});\n");
        assert(buf@ =~= prev + asserts[k as int]);
        k = k + 1;
    }
    assert(asserts.subrange(0, k as int) =~= asserts);
    push_str(&mut buf, "assert (L = ");
    push_joined(&mut buf, Syntax::Mona, labels, "", "", " union ");
    push_str(&mut buf, ");\nassert (W = ");
    push_joined(&mut buf, Syntax::Mona, alphabet, "L", "", " union ");
    push_str(&mut buf, ");\nassert (L inter W = empty);\n");
    let text = formula_string(Syntax::Mona, formula);
    push_str(&mut buf, text.as_str());
    push_str(&mut buf, ";\n");
    assert(buf@ =~= mona_problem(*formula, alphabet@, labels@));
    buf
}

/// A formula over three letters, "the word is not empty and every position
/// has a `B` at or after it, iff the last letter is `B`", with two labels.
pub fn test_output() -> (r: (FormulaR<DefaultAlphabet, DefaultLabel>, Vec<DefaultAlphabet>, Vec<DefaultLabel>))
    ensures
        r.0 is Iff,
        r.1@ == seq![DefaultAlphabet::A, DefaultAlphabet::B, DefaultAlphabet::C],
        r.2@.len() == 2,
        r.2@[0].position@ == seq![0u32, 0u32, 1u32],
        r.2@[1].position@ == seq![0u32, 1u32, 0u32],
{
    let non_empty = FormulaR::equal(Sort::Position, char_string('i'), char_string('i'))
        .exists_over(char_string('i'), Sort::Position);

    let no_last_a = FormulaR::less_equal(char_string('i'), char_string('j'))
        .and(FormulaR::letter_at_pos(char_string('j'), DefaultAlphabet::B))
        .exists_over(char_string('j'), Sort::Position)
        .forall_over(char_string('i'), Sort::Position);

    let last_b = FormulaR::less_equal(char_string('j'), char_string('i'))
        .forall_over(char_string('j'), Sort::Position)
        .and(FormulaR::letter_at_pos(char_string('i'), DefaultAlphabet::B))
        .exists_over(char_string('i'), Sort::Position);

    let formula = non_empty.and(no_last_a).iff(last_b);

    let alphabet = vec![DefaultAlphabet::A, DefaultAlphabet::B, DefaultAlphabet::C];
    let labels = vec![
        DefaultLabel { position: vec![0, 0, 1] },
        DefaultLabel { position: vec![0, 1, 0] },
    ];
    assert(alphabet@ =~= seq![DefaultAlphabet::A, DefaultAlphabet::B, DefaultAlphabet::C]);
    assert(labels@[0].position@ =~= seq![0u32, 0u32, 1u32]);
    assert(labels@[1].position@ =~= seq![0u32, 1u32, 0u32]);
    (formula, alphabet, labels)
}

/// The supported solvers.
#[derive(Debug, Clone, Copy, PartialEq, Eq, Structural)]
pub enum SMTSolver {
    AltErgo,
    CVC5,
    Mona,
    Z3,
}

/// A solver's verdict on a formula.
#[derive(Debug, Clone, Copy, PartialEq, Eq, Structural)]
pub enum SMTResult {
    Valid,
    Unknown,
    Invalid,
}

impl SMTSolver {
    /// The surface syntax that the solver reads.
    pub open spec fn syntax(self) -> Syntax {
        match self {
            SMTSolver::AltErgo => Syntax::AltErgo,
            SMTSolver::CVC5 => Syntax::SmtLib,
            SMTSolver::Mona => Syntax::Mona,
            SMTSolver::Z3 => Syntax::SmtLib,
        }
    }

    /// The problem text for this solver.
    pub open spec fn problem<A: ToSmtSolver, S: ToSmtSolver>(self, formula: FormulaR<A, S>, alphabet: Seq<A>, labels: Seq<S>) -> Seq<char> {
        match self.syntax() {
            Syntax::AltErgo => alt_ergo_problem(formula, alphabet, labels),
            Syntax::SmtLib => smtlib_problem(formula, alphabet, labels),
            Syntax::Mona => mona_problem(formula, alphabet, labels),
        }
    }

    /// The verdict that the solver's output states, or `None` when the
    /// output of an SMT-LIB solver holds none of `unsat`, `unknown`, `sat`.
    pub open spec fn verdict(self, output: Seq<char>) -> Option<SMTResult> {
        match self.syntax() {
            Syntax::AltErgo => Some(if has_infix(output, "Valid"@) {
                SMTResult::Valid
            } else if has_infix(output, "Unknown"@) {
                SMTResult::Unknown
            } else {
                SMTResult::Invalid
            }),
            Syntax::SmtLib => if has_infix(output, "unsat"@) {
                Some(SMTResult::Valid)
            } else if has_infix(output, "unknown"@) {
                Some(SMTResult::Unknown)
            } else if has_infix(output, "sat"@) {
                Some(SMTResult::Invalid)
            } else {
                None
            },
            Syntax::Mona => Some(if has_infix(output, "Formula is valid"@) {
                SMTResult::Valid
            } else if has_infix(output, "unsatisfiable"@) {
                SMTResult::Invalid
            } else {
                SMTResult::Unknown
            }),
        }
    }

    /// The problem text of a formula for this solver.
    pub fn produce_output<A: ToSmtSolver, S: ToSmtSolver>(
        &self,
        formula: &FormulaR<A, S>,
        alphabet: &[A],
        labels: &[S],
    ) -> (r: String)
        ensures
            r@ == self.problem(*formula, alphabet@, labels@),
    {
        match self {
            SMTSolver::AltErgo => produce_alt_ergo(formula, alphabet, labels),
            SMTSolver::CVC5 => produce_smtlib(formula, alphabet, labels),
            SMTSolver::Mona => produce_mona(formula, alphabet, labels),
            SMTSolver::Z3 => produce_smtlib(formula, alphabet, labels),
        }
    }

    /// The file extension of the solver's input.
    pub fn extension(&self) -> (r: &'static str)
        ensures
            r@ == match self.syntax() {
                Syntax::AltErgo => "ae"@,
                Syntax::SmtLib => "smt2"@,
                Syntax::Mona => "mona"@,
            },
    {
        match self {
            SMTSolver::AltErgo => "ae",
            SMTSolver::CVC5 => "smt2",
            SMTSolver::Mona => "mona",
            SMTSolver::Z3 => "smt2",
        }
    }

    /// The command that runs the solver.
    pub fn command(&self) -> (r: &'static str)
        ensures
            r@ == match *self {
                SMTSolver::AltErgo => "alt-ergo"@,
                SMTSolver::CVC5 => "cvc5"@,
                SMTSolver::Mona => "mona"@,
                SMTSolver::Z3 => "z3"@,
            },
    {
        match self {
            SMTSolver::AltErgo => "alt-ergo",
            SMTSolver::CVC5 => "cvc5",
            SMTSolver::Mona => "mona",
            SMTSolver::Z3 => "z3",
        }
    }

    /// The verdict in the solver's output; `None` when an SMT-LIB solver's
    /// output names no verdict.
    pub fn parse_output(&self, output: &str) -> (r: Option<SMTResult>)
        ensures
            r == self.verdict(output@),
    {
        match self {
            SMTSolver::AltErgo => {
                if contains_str(output, "Valid") {
                    Some(SMTResult::Valid)
                } else if contains_str(output, "Unknown") {
                    Some(SMTResult::Unknown)
                } else {
                    Some(SMTResult::Invalid)
                }
            },
            SMTSolver::CVC5 | SMTSolver::Z3 => {
                if contains_str(output, "unsat") {
                    Some(SMTResult::Valid)
                } else if contains_str(output, "unknown") {
                    Some(SMTResult::Unknown)
                } else if contains_str(output, "sat") {
                    Some(SMTResult::Invalid)
                } else {
                    None
                }
            },
            SMTSolver::Mona => {
                if contains_str(output, "Formula is valid") {
                    Some(SMTResult::Valid)
                } else if contains_str(output, "unsatisfiable") {
                    Some(SMTResult::Invalid)
                } else {
                    Some(SMTResult::Unknown)
                }
            },
        }
    }
}

/// `b` is the layer `a` with each sub-formula `x` replaced by a `y` that `f`
/// gives for it, and its atoms copied.
pub open spec fn layer_mapped<F, H, A: Clone, S: Clone, G: Fn(&F) -> H>(a: FormulaF<F, A, S>, b: FormulaF<H, A, S>, f: G) -> bool {
    match (a, b) {
        (FormulaF::Exists(v, s, x), FormulaF::Exists(v2, s2, y)) => v2@ == v@ && s2 == s && f.ensures((&x,), y),
        (FormulaF::Forall(v, s, x), FormulaF::Forall(v2, s2, y)) => v2@ == v@ && s2 == s && f.ensures((&x,), y),
        (FormulaF::And(x1, x2), FormulaF::And(y1, y2)) => f.ensures((&x1,), y1) && f.ensures((&x2,), y2),
        (FormulaF::Or(x1, x2), FormulaF::Or(y1, y2)) => f.ensures((&x1,), y1) && f.ensures((&x2,), y2),
        (FormulaF::Implies(x1, x2), FormulaF::Implies(y1, y2)) => f.ensures((&x1,), y1) && f.ensures((&x2,), y2),
        (FormulaF::Iff(x1, x2), FormulaF::Iff(y1, y2)) => f.ensures((&x1,), y1) && f.ensures((&x2,), y2),
        (FormulaF::Not(x), FormulaF::Not(y)) => f.ensures((&x,), y),
        (FormulaF::Equal(s, l, r), FormulaF::Equal(s2, l2, r2)) => s2 == s && l2@ == l@ && r2@ == r@,
        (FormulaF::LessEqual(l, r), FormulaF::LessEqual(l2, r2)) => l2@ == l@ && r2@ == r@,
        (FormulaF::LetterAtPos(v, a), FormulaF::LetterAtPos(v2, a2)) => v2@ == v@ && cloned(a, a2),
        (FormulaF::EqualConstant(v, c), FormulaF::EqualConstant(v2, c2)) => v2@ == v@ && cloned(c, c2),
        (FormulaF::True, FormulaF::True) => true,
        (FormulaF::False, FormulaF::False) => true,
        _ => false,
    }
}

/// Applies `f` to each sub-formula of one layer.
pub fn map_formula<A: Clone, F, S: Clone, H, G: Fn(&F) -> H>(formula: &FormulaF<F, A, S>, f: G) -> (r: FormulaF<H, A, S>)
    requires
        forall|x: &F| f.requires((x,)),
    ensures
        layer_mapped(*formula, r, f),
{
    match formula {
        FormulaF::True => FormulaF::True,
        FormulaF::False => FormulaF::False,
        FormulaF::Exists(var, sort, inner) => {
            let new_inner = f(inner);
            FormulaF::Exists(var.clone(), *sort, new_inner)
        },
        FormulaF::Forall(var, sort, inner) => {
            let new_inner = f(inner);
            FormulaF::Forall(var.clone(), *sort, new_inner)
        },
        FormulaF::And(left, right) => {
            let new_left = f(left);
            let new_right = f(right);
            FormulaF::And(new_left, new_right)
        },
        FormulaF::Or(left, right) => {
            let new_left = f(left);
            let new_right = f(right);
            FormulaF::Or(new_left, new_right)
        },
        FormulaF::Implies(left, right) => {
            let new_left = f(left);
            let new_right = f(right);
            FormulaF::Implies(new_left, new_right)
        },
        FormulaF::Iff(left, right) => {
            let new_left = f(left);
            let new_right = f(right);
            FormulaF::Iff(new_left, new_right)
        },
        FormulaF::Not(inner) => {
            let new_inner = f(inner);
            FormulaF::Not(new_inner)
        },
        FormulaF::Equal(sort, left, right) => FormulaF::Equal(*sort, left.clone(), right.clone()),
        FormulaF::LessEqual(left, right) => FormulaF::LessEqual(left.clone(), right.clone()),
        FormulaF::LetterAtPos(var, letter) => FormulaF::LetterAtPos(var.clone(), letter.clone()),
        FormulaF::EqualConstant(var, value) => FormulaF::EqualConstant(var.clone(), value.clone()),
    }
}

/// `node` is the top layer of `formula` with each sub-formula replaced by
/// its fold, and copies of its atoms.
pub open spec fn folded_layer<A: Clone, S: Clone, T, F: Fn(&FormulaF<T, A, S>) -> T>(
    formula: FormulaR<A, S>,
    node: FormulaF<T, A, S>,
    f: F,
) -> bool
    decreases formula, 0int,
{
    match formula {
        FormulaR::Exists(v, s, i) => node matches FormulaF::Exists(v2, s2, x) && v2 == v && s2 == s && folds_to(*i, f, x),
        FormulaR::Forall(v, s, i) => node matches FormulaF::Forall(v2, s2, x) && v2 == v && s2 == s && folds_to(*i, f, x),
        FormulaR::And(l, r) => node matches FormulaF::And(x, y) && folds_to(*l, f, x) && folds_to(*r, f, y),
        FormulaR::Or(l, r) => node matches FormulaF::Or(x, y) && folds_to(*l, f, x) && folds_to(*r, f, y),
        FormulaR::Implies(l, r) => node matches FormulaF::Implies(x, y) && folds_to(*l, f, x) && folds_to(*r, f, y),
        FormulaR::Iff(l, r) => node matches FormulaF::Iff(x, y) && folds_to(*l, f, x) && folds_to(*r, f, y),
        FormulaR::Not(i) => node matches FormulaF::Not(x) && folds_to(*i, f, x),
        FormulaR::Equal(s, l, r) => node == FormulaF::<T, A, S>::Equal(s, l, r),
        FormulaR::LessEqual(l, r) => node == FormulaF::<T, A, S>::LessEqual(l, r),
        FormulaR::LetterAtPos(v, a) => node matches FormulaF::LetterAtPos(v2, a2) && v2 == v && cloned(a, a2),
        FormulaR::EqualConstant(v, c) => node matches FormulaF::EqualConstant(v2, c2) && v2 == v && cloned(c, c2),
        FormulaR::True => node is True,
        FormulaR::False => node is False,
    }
}

/// `r` is the bottom-up fold of `f` over `formula`: `f` applied to the top
/// layer whose sub-formulas are replaced by their folds.
pub open spec fn folds_to<A: Clone, S: Clone, T, F: Fn(&FormulaF<T, A, S>) -> T>(formula: FormulaR<A, S>, f: F, r: T) -> bool
    decreases formula, 1int,
{
    exists|node: FormulaF<T, A, S>| #![trigger f.ensures((&node,), r)] f.ensures((&node,), r) && folded_layer(formula, node, f)
}

/// The bottom-up fold of `f` over a formula: each layer is handed to `f`
/// with its sub-formulas already folded.
pub fn fold_formula<A: Clone, S: Clone, T, F: Fn(&FormulaF<T, A, S>) -> T>(formula: &FormulaR<A, S>, f: &F) -> (r: T)
    requires
        forall|n: &FormulaF<T, A, S>| f.requires((n,)),
    ensures
        folds_to(*formula, *f, r),
    decreases formula,
{
    let node: FormulaF<T, A, S> = match formula {
        FormulaR::Exists(v, s, i) => FormulaF::Exists(v.clone(), *s, fold_formula(i, f)),
        FormulaR::Forall(v, s, i) => FormulaF::Forall(v.clone(), *s, fold_formula(i, f)),
        FormulaR::And(l, r) => FormulaF::And(fold_formula(l, f), fold_formula(r, f)),
        FormulaR::Or(l, r) => FormulaF::Or(fold_formula(l, f), fold_formula(r, f)),
        FormulaR::Implies(l, r) => FormulaF::Implies(fold_formula(l, f), fold_formula(r, f)),
        FormulaR::Iff(l, r) => FormulaF::Iff(fold_formula(l, f), fold_formula(r, f)),
        FormulaR::Not(i) => FormulaF::Not(fold_formula(i, f)),
        FormulaR::Equal(s, l, r) => FormulaF::Equal(*s, l.clone(), r.clone()),
        FormulaR::LessEqual(l, r) => FormulaF::LessEqual(l.clone(), r.clone()),
        FormulaR::LetterAtPos(v, a) => FormulaF::LetterAtPos(v.clone(), a.clone()),
        FormulaR::EqualConstant(v, c) => FormulaF::EqualConstant(v.clone(), c.clone()),
        FormulaR::True => FormulaF::True,
        FormulaR::False => FormulaF::False,
    };
    let r = f(&node);
    assert(f.ensures((&node,), r) && folded_layer(*formula, node, *f));
    r
}

} // verus!
