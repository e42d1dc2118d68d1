//! The program tree of the print-transducer language.
use vstd::prelude::*;
use crate::text::push_str;

verus! {

/// A statement of a program.
#[derive(Debug, PartialEq)]
pub enum Stmt {
    /// Emits one output letter.
    Print(Pexpr),
    /// Iterates the variable over the input positions, first to last.
    For0(String, Vec<Stmt>),
    /// Iterates the variable over the input positions, last to first.
    For1(String, Vec<Stmt>),
    /// Runs the body when the guard holds.
    If(Bexpr, Vec<Stmt>),
}

/// What a `print` emits.
#[derive(Debug, PartialEq)]
pub enum Pexpr {
    /// The input letter at the position bound to the variable.
    Label(String),
    /// A string literal.
    Str(String),
}

/// A boolean expression over position variables and the input word.
#[derive(Debug, PartialEq)]
pub enum Bexpr {
    Var(String),
    Str(String),
    LessEqual(Box<Bexpr>, Box<Bexpr>),
    Less(Box<Bexpr>, Box<Bexpr>),
    Equal(Box<Bexpr>, Box<Bexpr>),
    NotEqual(Box<Bexpr>, Box<Bexpr>),
    GreaterEqual(Box<Bexpr>, Box<Bexpr>),
    Greater(Box<Bexpr>, Box<Bexpr>),
    Not(Box<Bexpr>),
    Label(String),
    And(Box<Bexpr>, Box<Bexpr>),
    Or(Box<Bexpr>, Box<Bexpr>),
}

/// The mathematical content of a `Bexpr`: names and literals as character
/// sequences.
pub enum BexprV {
    Var(Seq<char>),
    Str(Seq<char>),
    LessEqual(Box<BexprV>, Box<BexprV>),
    Less(Box<BexprV>, Box<BexprV>),
    Equal(Box<BexprV>, Box<BexprV>),
    NotEqual(Box<BexprV>, Box<BexprV>),
    GreaterEqual(Box<BexprV>, Box<BexprV>),
    Greater(Box<BexprV>, Box<BexprV>),
    Not(Box<BexprV>),
    Label(Seq<char>),
    And(Box<BexprV>, Box<BexprV>),
    Or(Box<BexprV>, Box<BexprV>),
}

/// The view of an expression.
pub open spec fn bexpr_view(e: Bexpr) -> BexprV
    decreases e,
{
    match e {
        Bexpr::Var(s) => BexprV::Var(s@),
        Bexpr::Str(s) => BexprV::Str(s@),
        Bexpr::Label(s) => BexprV::Label(s@),
        Bexpr::LessEqual(l, r) => BexprV::LessEqual(Box::new(bexpr_view(*l)), Box::new(bexpr_view(*r))),
        Bexpr::Less(l, r) => BexprV::Less(Box::new(bexpr_view(*l)), Box::new(bexpr_view(*r))),
        Bexpr::Equal(l, r) => BexprV::Equal(Box::new(bexpr_view(*l)), Box::new(bexpr_view(*r))),
        Bexpr::NotEqual(l, r) => BexprV::NotEqual(Box::new(bexpr_view(*l)), Box::new(bexpr_view(*r))),
        Bexpr::GreaterEqual(l, r) => BexprV::GreaterEqual(Box::new(bexpr_view(*l)), Box::new(bexpr_view(*r))),
        Bexpr::Greater(l, r) => BexprV::Greater(Box::new(bexpr_view(*l)), Box::new(bexpr_view(*r))),
        Bexpr::Not(i) => BexprV::Not(Box::new(bexpr_view(*i))),
        Bexpr::And(l, r) => BexprV::And(Box::new(bexpr_view(*l)), Box::new(bexpr_view(*r))),
        Bexpr::Or(l, r) => BexprV::Or(Box::new(bexpr_view(*l)), Box::new(bexpr_view(*r))),
    }
}

impl View for Bexpr {
    type V = BexprV;

    open spec fn view(&self) -> BexprV {
        bexpr_view(*self)
    }
}

/// The text of an expression.
pub open spec fn bexpr_text(e: BexprV) -> Seq<char>
    decreases e,
{
    match e {
        BexprV::Var(v) => v,
        BexprV::Label(v) => v,
        BexprV::Str(t) => "\""@ + t + "\""@,
        BexprV::Not(i) => "!( "@ + bexpr_text(*i) + " )"@,
        BexprV::Less(l, r) => "("@ + bexpr_text(*l) + " < "@ + bexpr_text(*r) + ")"@,
        BexprV::LessEqual(l, r) => "("@ + bexpr_text(*l) + " <= "@ + bexpr_text(*r) + ")"@,
        BexprV::Equal(l, r) => "("@ + bexpr_text(*l) + " == "@ + bexpr_text(*r) + ")"@,
        BexprV::NotEqual(l, r) => "("@ + bexpr_text(*l) + " != "@ + bexpr_text(*r) + ")"@,
        BexprV::GreaterEqual(l, r) => "("@ + bexpr_text(*l) + " >= "@ + bexpr_text(*r) + ")"@,
        BexprV::Greater(l, r) => "("@ + bexpr_text(*l) + " > "@ + bexpr_text(*r) + ")"@,
        BexprV::And(l, r) => "( "@ + bexpr_text(*l) + " && "@ + bexpr_text(*r) + " )"@,
        BexprV::Or(l, r) => "( "@ + bexpr_text(*l) + " || "@ + bexpr_text(*r) + " )"@,
    }
}

/// The mathematical content of a `Pexpr`.
pub enum PexprV {
    Label(Seq<char>),
    Str(Seq<char>),
}

/// The mathematical content of a `Stmt`.
pub enum StmtV {
    Print(PexprV),
    For0(Seq<char>, Seq<StmtV>),
    For1(Seq<char>, Seq<StmtV>),
    If(BexprV, Seq<StmtV>),
}

pub open spec fn pexpr_view(e: Pexpr) -> PexprV {
    match e {
        Pexpr::Label(v) => PexprV::Label(v@),
        Pexpr::Str(s) => PexprV::Str(s@),
    }
}

/// The view of a statement.
pub open spec fn stmt_view(s: Stmt) -> StmtV
    decreases s, 0int, 0int,
{
    match s {
        Stmt::Print(e) => StmtV::Print(pexpr_view(e)),
        Stmt::For0(v, body) => StmtV::For0(v@, views_upto(body@, body@.len() as int)),
        Stmt::For1(v, body) => StmtV::For1(v@, views_upto(body@, body@.len() as int)),
        Stmt::If(c, body) => StmtV::If(c@, views_upto(body@, body@.len() as int)),
    }
}

/// The views of the first `k` statements.
pub open spec fn views_upto(v: Seq<Stmt>, k: int) -> Seq<StmtV>
    decreases v, 0int, k,
{
    if k <= 0 || k > v.len() {
        Seq::empty()
    } else {
        views_upto(v, k - 1).push(stmt_view(v[k - 1]))
    }
}

/// The views of a list of statements.
pub open spec fn stmts_view(v: Seq<Stmt>) -> Seq<StmtV> {
    views_upto(v, v.len() as int)
}

proof fn lemma_views_prefix(a: Seq<Stmt>, b: Seq<Stmt>, k: int)
    requires
        0 <= k <= a.len(),
    ensures
        views_upto(a + b, k) == views_upto(a, k),
    decreases k,
{
    if k > 0 {
        lemma_views_prefix(a, b, k - 1);
        assert((a + b)[k - 1] == a[k - 1]);
    }
}

proof fn lemma_views_suffix(a: Seq<Stmt>, b: Seq<Stmt>, k: int)
    requires
        0 <= k <= b.len(),
    ensures
        views_upto(a + b, a.len() + k) == stmts_view(a) + views_upto(b, k),
    decreases k,
{
    if k == 0 {
        lemma_views_prefix(a, b, a.len() as int);
        assert(stmts_view(a) + views_upto(b, 0) =~= stmts_view(a));
    } else {
        lemma_views_suffix(a, b, k - 1);
        assert((a + b)[a.len() + k - 1] == b[k - 1]);
        assert(views_upto(a + b, a.len() + k) =~= stmts_view(a) + views_upto(b, k));
    }
}

/// The views of two lists one after the other.
pub proof fn lemma_views_append(a: Seq<Stmt>, b: Seq<Stmt>)
    ensures
        stmts_view(a + b) == stmts_view(a) + stmts_view(b),
{
    lemma_views_suffix(a, b, b.len() as int);
}

/// The view of a list of one statement.
pub proof fn lemma_views_single(x: Stmt)
    ensures
        stmts_view(seq![x]) == seq![stmt_view(x)],
{
    assert(views_upto(seq![x], 0) =~= Seq::<StmtV>::empty());
    assert(views_upto(seq![x], 1) =~= seq![stmt_view(x)]);
}

/// A bound of a `for` range: `0` or `n`.
#[derive(Debug, PartialEq)]
pub enum Fexpr {
    Number(i32),
    Str(String),
    Var(String),
    Label(String),
}

/// The negation of a guard: a comparison flips to its complement,
/// anything else is wrapped in `Not`.
pub open spec fn negation(expr: BexprV) -> BexprV {
    match expr {
        BexprV::Equal(l, r) => BexprV::NotEqual(l, r),
        BexprV::NotEqual(l, r) => BexprV::Equal(l, r),
        BexprV::Less(l, r) => BexprV::GreaterEqual(l, r),
        BexprV::GreaterEqual(l, r) => BexprV::Less(l, r),
        BexprV::Greater(l, r) => BexprV::LessEqual(l, r),
        BexprV::LessEqual(l, r) => BexprV::Greater(l, r),
        other => BexprV::Not(Box::new(other)),
    }
}

impl Bexpr {
    /// The guard of an `else` branch, given the guard of its `if`.
    pub fn logical_not(expr: Bexpr) -> (r: Bexpr)
        ensures
            r@ == negation(expr@),
    {
        match expr {
            Bexpr::Equal(l, r) => Bexpr::NotEqual(l, r),
            Bexpr::NotEqual(l, r) => Bexpr::Equal(l, r),
            Bexpr::Less(l, r) => Bexpr::GreaterEqual(l, r),
            Bexpr::GreaterEqual(l, r) => Bexpr::Less(l, r),
            Bexpr::Greater(l, r) => Bexpr::LessEqual(l, r),
            Bexpr::LessEqual(l, r) => Bexpr::Greater(l, r),
            other => Bexpr::Not(Box::new(other)),
        }
    }

    /// The expression as text, operators in infix form and every comparison
    /// in parentheses.
    pub fn to_text(&self) -> (r: String)
        ensures
            r@ == bexpr_text(self@),
    {
        let mut out = String::new();
        self.push_text(&mut out);
        assert(out@ =~= bexpr_text(self@));
        out
    }

    fn push_text(&self, out: &mut String)
        ensures
            final(out)@ == old(out)@ + bexpr_text(self@),
        decreases self,
    {
        let ghost start = out@;
        match self {
            Bexpr::Var(v) => push_str(out, v.as_str()),
            Bexpr::Label(v) => push_str(out, v.as_str()),
            Bexpr::Str(t) => {
                push_str(out, "\"");
                push_str(out, t.as_str());
                push_str(out, "\"");
            },
            Bexpr::Not(e) => {
                push_str(out, "!( ");
                e.push_text(out);
                push_str(out, " )");
            },
            Bexpr::Less(l, r) => { push_str(out, "("); l.push_text(out); push_str(out, " < "); r.push_text(out); push_str(out, ")"); },
            Bexpr::LessEqual(l, r) => { push_str(out, "("); l.push_text(out); push_str(out, " <= "); r.push_text(out); push_str(out, ")"); },
            Bexpr::Equal(l, r) => { push_str(out, "("); l.push_text(out); push_str(out, " == "); r.push_text(out); push_str(out, ")"); },
            Bexpr::NotEqual(l, r) => { push_str(out, "("); l.push_text(out); push_str(out, " != "); r.push_text(out); push_str(out, ")"); },
            Bexpr::GreaterEqual(l, r) => { push_str(out, "("); l.push_text(out); push_str(out, " >= "); r.push_text(out); push_str(out, ")"); },
            Bexpr::Greater(l, r) => { push_str(out, "("); l.push_text(out); push_str(out, " > "); r.push_text(out); push_str(out, ")"); },
            Bexpr::And(l, r) => { push_str(out, "( "); l.push_text(out); push_str(out, " && "); r.push_text(out); push_str(out, " )"); },
            Bexpr::Or(l, r) => { push_str(out, "( "); l.push_text(out); push_str(out, " || "); r.push_text(out); push_str(out, " )"); },
        }
        assert(out@ =~= start + bexpr_text(self@));
    }

    /// A copy of the expression, equal to it.
    pub fn duplicate(&self) -> (r: Bexpr)
        ensures
            r == *self,
        decreases self,
    {
        match self {
            Bexpr::Var(s) => Bexpr::Var(s.clone()),
            Bexpr::Str(s) => Bexpr::Str(s.clone()),
            Bexpr::Label(s) => Bexpr::Label(s.clone()),
            Bexpr::LessEqual(l, r) => Bexpr::LessEqual(Box::new(l.duplicate()), Box::new(r.duplicate())),
            Bexpr::Less(l, r) => Bexpr::Less(Box::new(l.duplicate()), Box::new(r.duplicate())),
            Bexpr::Equal(l, r) => Bexpr::Equal(Box::new(l.duplicate()), Box::new(r.duplicate())),
            Bexpr::NotEqual(l, r) => Bexpr::NotEqual(Box::new(l.duplicate()), Box::new(r.duplicate())),
            Bexpr::GreaterEqual(l, r) => Bexpr::GreaterEqual(Box::new(l.duplicate()), Box::new(r.duplicate())),
            Bexpr::Greater(l, r) => Bexpr::Greater(Box::new(l.duplicate()), Box::new(r.duplicate())),
            Bexpr::Not(e) => Bexpr::Not(Box::new(e.duplicate())),
            Bexpr::And(l, r) => Bexpr::And(Box::new(l.duplicate()), Box::new(r.duplicate())),
            Bexpr::Or(l, r) => Bexpr::Or(Box::new(l.duplicate()), Box::new(r.duplicate())),
        }
    }
}

} // verus!
