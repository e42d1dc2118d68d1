//! The parser of the print-transducer language. An `else` branch becomes a
//! second `if` with the negated guard.
use vstd::prelude::*;
use crate::ast::{
    lemma_views_append, lemma_views_single, negation, pexpr_view, stmts_view, Bexpr, BexprV, Fexpr, Pexpr, PexprV,
    Stmt, StmtV,
};
use crate::lexer::Token;
use crate::text::push_str;

verus! {

/// Why a sequence of tokens is no program.
#[derive(Debug, Clone, Copy, PartialEq, Eq, Structural)]
pub enum ParseError {
    /// An unexpected token, at this index.
    UnexpectedToken(usize),
    /// The tokens end inside a statement.
    UnexpectedEnd,
    /// A `for` range other than `0..n` and `n..0`, at the index of the `for`.
    InvalidRange(usize),
}

/// The tokens without payload, for comparison.
#[derive(Debug, Clone, Copy, PartialEq, Eq, Structural)]
pub enum Punct {
    In,
    Else,
    LeftBrace,
    RightBrace,
    LeftParen,
    RightParen,
    DotDot,
}

/// Whether a token is the punctuation `p`.
pub open spec fn is_punct(t: Token, p: Punct) -> bool {
    match p {
        Punct::In => t is In,
        Punct::Else => t is Else,
        Punct::LeftBrace => t is LeftBrace,
        Punct::RightBrace => t is RightBrace,
        Punct::LeftParen => t is LeftParen,
        Punct::RightParen => t is RightParen,
        Punct::DotDot => t is DotDot,
    }
}

/// The error at token `i`: that token is unexpected, or the tokens ended.
pub open spec fn error_at(toks: Seq<Token>, i: int) -> ParseError {
    if 0 <= i < toks.len() {
        ParseError::UnexpectedToken(i as usize)
    } else {
        ParseError::UnexpectedEnd
    }
}

/// The punctuation `p` at token `i`: the next index.
pub open spec fn expect_spec(toks: Seq<Token>, i: int, p: Punct) -> Result<int, ParseError> {
    if 0 <= i < toks.len() && is_punct(toks[i], p) {
        Ok(i + 1)
    } else {
        Err(error_at(toks, i))
    }
}

/// A bound of a range at token `i`: `true` for `0`, `false` for `n`.
pub open spec fn bound_spec(toks: Seq<Token>, i: int) -> Result<bool, ParseError> {
    if 0 <= i < toks.len() {
        match toks[i] {
            Token::Number(v) => if v == 0 { Ok(true) } else { Err(error_at(toks, i)) },
            Token::Identifier(name) => if name@ == seq!['n'] { Ok(false) } else { Err(error_at(toks, i)) },
            _ => Err(error_at(toks, i)),
        }
    } else {
        Err(error_at(toks, i))
    }
}

/// What a `print` prints, at token `i`.
pub open spec fn pexpr_spec(toks: Seq<Token>, i: int) -> Result<PexprV, ParseError> {
    if 0 <= i < toks.len() {
        match toks[i] {
            Token::String(s) => Ok(PexprV::Str(s@)),
            Token::Label(n) => Ok(PexprV::Label(n@)),
            _ => Err(ParseError::UnexpectedToken(i as usize)),
        }
    } else {
        Err(ParseError::UnexpectedEnd)
    }
}

/// A term of a guard at token `i`: a literal, a variable or a label.
pub open spec fn term_spec(toks: Seq<Token>, i: int) -> Result<BexprV, ParseError> {
    if 0 <= i < toks.len() {
        match toks[i] {
            Token::String(s) => Ok(BexprV::Str(s@)),
            Token::Identifier(n) => Ok(BexprV::Var(n@)),
            Token::Label(n) => Ok(BexprV::Label(n@)),
            _ => Err(ParseError::UnexpectedToken(i as usize)),
        }
    } else {
        Err(ParseError::UnexpectedEnd)
    }
}

/// The comparison that a token stands for.
pub open spec fn comparison(t: Token, l: BexprV, r: BexprV) -> Option<BexprV> {
    match t {
        Token::LessEqual => Some(BexprV::LessEqual(Box::new(l), Box::new(r))),
        Token::Less => Some(BexprV::Less(Box::new(l), Box::new(r))),
        Token::Equal => Some(BexprV::Equal(Box::new(l), Box::new(r))),
        Token::NotEqual => Some(BexprV::NotEqual(Box::new(l), Box::new(r))),
        Token::GreaterEqual => Some(BexprV::GreaterEqual(Box::new(l), Box::new(r))),
        Token::Greater => Some(BexprV::Greater(Box::new(l), Box::new(r))),
        _ => None,
    }
}

/// The comparisons after `acc` from token `i`, left-associated: the guard
/// and the index after it.
pub open spec fn guard_tail(toks: Seq<Token>, i: int, acc: BexprV) -> Result<(BexprV, int), ParseError>
    decreases toks.len() - i,
{
    if i < 0 || i >= toks.len() {
        Ok((acc, i))
    } else {
        match comparison(toks[i], acc, acc) {
            None => Ok((acc, i)),
            Some(_) => match term_spec(toks, i + 1) {
                Err(e) => Err(e),
                Ok(r) => guard_tail(toks, i + 2, comparison(toks[i], acc, r)->0),
            },
        }
    }
}

/// A guard at token `i`: the guard and the index after it.
pub open spec fn guard_spec(toks: Seq<Token>, i: int) -> Result<(BexprV, int), ParseError> {
    match term_spec(toks, i) {
        Err(e) => Err(e),
        Ok(t) => guard_tail(toks, i + 1, t),
    }
}

/// The statements up to a closing brace from token `i`, and the index after
/// the brace.
pub open spec fn block_spec(toks: Seq<Token>, i: int) -> Result<(Seq<StmtV>, int), ParseError>
    decreases toks.len() - i, 1int,
{
    if 0 <= i < toks.len() && toks[i] is RightBrace {
        Ok((Seq::empty(), i + 1))
    } else if i < 0 || i >= toks.len() {
        Err(ParseError::UnexpectedEnd)
    } else {
        match stmt_spec(toks, i) {
            Err(e) => Err(e),
            Ok((ss, j)) => if i < j <= toks.len() {
                match block_spec(toks, j) {
                    Err(e) => Err(e),
                    Ok((rest, k)) => Ok((ss + rest, k)),
                }
            } else {
                Err(ParseError::UnexpectedEnd)
            },
        }
    }
}

/// The statements that the statement at token `i` stands for (an `if` with
/// an `else` is two: the second guarded by the negation), and the index
/// after it. A `for` ranges over `0..n` (first to last) or `n..0` (last to
/// first); any other range is an error at the `for`.
pub open spec fn stmt_spec(toks: Seq<Token>, i: int) -> Result<(Seq<StmtV>, int), ParseError>
    decreases toks.len() - i, 0int,
{
    if i < 0 || i >= toks.len() {
        Err(ParseError::UnexpectedEnd)
    } else {
        match toks[i] {
            Token::Print => match expect_spec(toks, i + 1, Punct::LeftParen) {
                Err(e) => Err(e),
                Ok(j) => match pexpr_spec(toks, j) {
                    Err(e) => Err(e),
                    Ok(e) => match expect_spec(toks, j + 1, Punct::RightParen) {
                        Err(err) => Err(err),
                        Ok(k) => Ok((seq![StmtV::Print(e)], k)),
                    },
                },
            },
            Token::For => if i + 1 < toks.len() && toks[i + 1] is Identifier {
                let name = toks[i + 1]->Identifier_0@;
                match expect_spec(toks, i + 2, Punct::In) {
                    Err(e) => Err(e),
                    Ok(j) => match bound_spec(toks, j) {
                        Err(e) => Err(e),
                        Ok(zero_first) => match expect_spec(toks, j + 1, Punct::DotDot) {
                            Err(e) => Err(e),
                            Ok(k) => match bound_spec(toks, k) {
                                Err(e) => Err(e),
                                Ok(zero_last) => match expect_spec(toks, k + 1, Punct::LeftBrace) {
                                    Err(e) => Err(e),
                                    Ok(m) => if m > i {
                                        match block_spec(toks, m) {
                                            Err(e) => Err(e),
                                            Ok((body, q)) => if zero_first && !zero_last {
                                                Ok((seq![StmtV::For0(name, body)], q))
                                            } else if !zero_first && zero_last {
                                                Ok((seq![StmtV::For1(name, body)], q))
                                            } else {
                                                Err(ParseError::InvalidRange(i as usize))
                                            },
                                        }
                                    } else {
                                        Err(ParseError::UnexpectedEnd)
                                    },
                                },
                            },
                        },
                    },
                }
            } else {
                Err(error_at(toks, i + 1))
            },
            Token::If => match guard_spec(toks, i + 1) {
                Err(e) => Err(e),
                Ok((c, j)) => match expect_spec(toks, j, Punct::LeftBrace) {
                    Err(e) => Err(e),
                    Ok(k) => if k > i {
                        match block_spec(toks, k) {
                            Err(e) => Err(e),
                            Ok((then_branch, m)) => if 0 <= m < toks.len() && toks[m] is Else {
                                match expect_spec(toks, m + 1, Punct::LeftBrace) {
                                    Err(e) => Err(e),
                                    Ok(q) => if q > i {
                                        match block_spec(toks, q) {
                                            Err(e) => Err(e),
                                            Ok((else_branch, z)) => Ok((seq![
                                                StmtV::If(c, then_branch),
                                                StmtV::If(negation(c), else_branch),
                                            ], z)),
                                        }
                                    } else {
                                        Err(ParseError::UnexpectedEnd)
                                    },
                                }
                            } else {
                                Ok((seq![StmtV::If(c, then_branch)], m))
                            },
                        }
                    } else {
                        Err(ParseError::UnexpectedEnd)
                    },
                },
            },
            _ => Err(ParseError::UnexpectedToken(i as usize)),
        }
    }
}

/// The statements of the tokens from index `i` to the end.
pub open spec fn program_spec(toks: Seq<Token>, i: int) -> Result<Seq<StmtV>, ParseError>
    decreases toks.len() - i,
{
    if i < 0 || i >= toks.len() {
        Ok(Seq::empty())
    } else {
        match stmt_spec(toks, i) {
            Err(e) => Err(e),
            Ok((ss, j)) => if i < j <= toks.len() {
                match program_spec(toks, j) {
                    Err(e) => Err(e),
                    Ok(rest) => Ok(ss + rest),
                }
            } else {
                Err(ParseError::UnexpectedEnd)
            },
        }
    }
}

/// A parser over a sequence of tokens.
pub struct Parser {
    tokens: Vec<Token>,
    current: usize,
}

impl Parser {
    /// The tokens.
    pub closed spec fn tokens(&self) -> Seq<Token> {
        self.tokens@
    }

    /// The index of the next token.
    pub closed spec fn position(&self) -> nat {
        self.current as nat
    }

    /// A parser at the first of the tokens.
    pub fn new(tokens: Vec<Token>) -> (r: Self)
        ensures
            r.tokens() == tokens@,
            r.position() == 0,
    {
        Parser { tokens, current: 0 }
    }

    /// The statements of the tokens from the current one to the end.
    pub fn parse(&mut self) -> (r: Result<Vec<Stmt>, ParseError>)
        requires
            old(self).position() <= old(self).tokens().len(),
        ensures
            final(self).tokens() == old(self).tokens(),
            match r {
                Ok(stmts) => program_spec(old(self).tokens(), old(self).position() as int)
                    == Ok::<Seq<StmtV>, ParseError>(stmts_view(stmts@)),
                Err(e) => program_spec(old(self).tokens(), old(self).position() as int) == Err::<Seq<StmtV>, ParseError>(e),
            },
    {
        let ghost toks = self.tokens@;
        let ghost start = self.current as int;
        let mut stmts: Vec<Stmt> = Vec::new();
        while self.current < self.tokens.len()
            invariant
                self.tokens@ == toks,
                toks == old(self).tokens@,
                start == old(self).current,
                self.current <= toks.len(),
                program_spec(toks, start) == match program_spec(toks, self.current as int) {
                    Ok(rest) => Ok(stmts_view(stmts@) + rest),
                    Err(e) => Err::<Seq<StmtV>, ParseError>(e),
                },
            decreases toks.len() - self.current,
        {
            let ghost before = stmts@;
            let ghost i = self.current as int;
            let mut more = match self.statement() {
                Ok(m) => m,
                Err(e) => return Err(e),
            };
            let ghost added = more@;
            stmts.append(&mut more);
            proof {
                lemma_views_append(before, added);
                assert(stmts@ == before + added);
                let vb = stmts_view(before);
                let va = stmts_view(added);
                match program_spec(toks, self.current as int) {
                    Ok(rest) => assert(vb + (va + rest) =~= (vb + va) + rest),
                    Err(_) => {},
                }
            }
        }
        assert(program_spec(toks, self.current as int) == Ok::<Seq<StmtV>, ParseError>(Seq::empty()));
        assert(stmts_view(stmts@) + Seq::<StmtV>::empty() =~= stmts_view(stmts@));
        Ok(stmts)
    }

    fn statement(&mut self) -> (r: Result<Vec<Stmt>, ParseError>)
        requires
            old(self).current <= old(self).tokens@.len(),
        ensures
            final(self).tokens@ == old(self).tokens@,
            final(self).current <= final(self).tokens@.len(),
            r is Ok ==> final(self).current > old(self).current,
            match r {
                Ok(v) => stmt_spec(old(self).tokens@, old(self).current as int)
                    == Ok::<(Seq<StmtV>, int), ParseError>((stmts_view(v@), final(self).current as int)),
                Err(e) => stmt_spec(old(self).tokens@, old(self).current as int) == Err::<(Seq<StmtV>, int), ParseError>(e),
            },
        decreases old(self).tokens@.len() - old(self).current,
    {
        let start = self.current;
        if self.current >= self.tokens.len() {
            return Err(ParseError::UnexpectedEnd);
        }
        match &self.tokens[self.current] {
            Token::Print => {
                self.current = self.current + 1;
                self.expect(Punct::LeftParen)?;
                let expr = self.p_expression()?;
                self.expect(Punct::RightParen)?;
                let r = vec![Stmt::Print(expr)];
                proof {
                    lemma_views_single(r@[0]);
                    assert(r@ =~= seq![r@[0]]);
                }
                Ok(r)
            },
            Token::For => {
                self.current = self.current + 1;
                let var = match self.peek_identifier() {
                    Some(name) => {
                        self.current = self.current + 1;
                        name
                    },
                    None => return Err(self.error_here()),
                };
                self.expect(Punct::In)?;
                let range_start = self.expect_start_token()?;
                self.expect(Punct::DotDot)?;
                let range_end = self.expect_end_token()?;
                self.expect(Punct::LeftBrace)?;
                let body = self.block(start)?;
                let r = match (range_start, range_end) {
                    (Fexpr::Number(0), Fexpr::Var(_)) => vec![Stmt::For0(var, body)],
                    (Fexpr::Var(_), Fexpr::Number(0)) => vec![Stmt::For1(var, body)],
                    _ => return Err(ParseError::InvalidRange(start)),
                };
                proof {
                    lemma_views_single(r@[0]);
                    assert(r@ =~= seq![r@[0]]);
                }
                Ok(r)
            },
            Token::If => self.if_statement(),
            _ => Err(ParseError::UnexpectedToken(self.current)),
        }
    }

    /// The statements up to the closing brace, which is consumed.
    fn block(&mut self, start: usize) -> (r: Result<Vec<Stmt>, ParseError>)
        requires
            start < old(self).current <= old(self).tokens@.len(),
        ensures
            final(self).tokens@ == old(self).tokens@,
            final(self).current <= final(self).tokens@.len(),
            r is Ok ==> final(self).current > old(self).current,
            match r {
                Ok(v) => block_spec(old(self).tokens@, old(self).current as int)
                    == Ok::<(Seq<StmtV>, int), ParseError>((stmts_view(v@), final(self).current as int)),
                Err(e) => block_spec(old(self).tokens@, old(self).current as int) == Err::<(Seq<StmtV>, int), ParseError>(e),
            },
        decreases old(self).tokens@.len() - start, 0nat,
    {
        let ghost toks = self.tokens@;
        let entry = self.current;
        let mut body: Vec<Stmt> = Vec::new();
        while !self.check(Punct::RightBrace)
            invariant
                self.tokens@ == toks,
                toks == old(self).tokens@,
                entry == old(self).current,
                start < entry <= self.current <= toks.len(),
                block_spec(toks, entry as int) == match block_spec(toks, self.current as int) {
                    Ok((rest, k)) => Ok((stmts_view(body@) + rest, k)),
                    Err(e) => Err::<(Seq<StmtV>, int), ParseError>(e),
                },
            decreases toks.len() - self.current,
        {
            if self.current >= self.tokens.len() {
                return Err(ParseError::UnexpectedEnd);
            }
            let ghost before = body@;
            let mut more = match self.statement() {
                Ok(m) => m,
                Err(e) => return Err(e),
            };
            let ghost added = more@;
            body.append(&mut more);
            proof {
                lemma_views_append(before, added);
                assert(body@ == before + added);
                let vb = stmts_view(before);
                let va = stmts_view(added);
                match block_spec(toks, self.current as int) {
                    Ok((rest, k)) => assert(vb + (va + rest) =~= (vb + va) + rest),
                    Err(_) => {},
                }
            }
        }
        self.expect(Punct::RightBrace)?;
        assert(stmts_view(body@) + Seq::<StmtV>::empty() =~= stmts_view(body@));
        Ok(body)
    }

    fn if_statement(&mut self) -> (r: Result<Vec<Stmt>, ParseError>)
        requires
            old(self).current < old(self).tokens@.len(),
            old(self).tokens@[old(self).current as int] is If,
        ensures
            final(self).tokens@ == old(self).tokens@,
            final(self).current <= final(self).tokens@.len(),
            r is Ok ==> final(self).current > old(self).current,
            match r {
                Ok(v) => stmt_spec(old(self).tokens@, old(self).current as int)
                    == Ok::<(Seq<StmtV>, int), ParseError>((stmts_view(v@), final(self).current as int)),
                Err(e) => stmt_spec(old(self).tokens@, old(self).current as int) == Err::<(Seq<StmtV>, int), ParseError>(e),
            },
        decreases old(self).tokens@.len() - old(self).current, 1nat,
    {
        let start = self.current;
        let ghost toks = self.tokens@;
        let _len = self.tokens.len();
        self.current = self.current + 1;
        let condition = self.b_expression()?;
        let ghost j = self.current as int;
        self.expect(Punct::LeftBrace)?;
        let ghost k = self.current as int;
        let then_branch = self.block(start)?;
        let ghost m = self.current as int;
        let ghost then_view = stmts_view(then_branch@);
        assert(guard_spec(toks, start + 1) == Ok::<(BexprV, int), ParseError>((condition@, j)));
        assert(block_spec(toks, k) == Ok::<(Seq<StmtV>, int), ParseError>((then_view, m)));
        let negated = Bexpr::logical_not(condition.duplicate());
        let ghost c = condition@;
        let mut statements = vec![Stmt::If(condition, then_branch)];
        proof {
            lemma_views_single(statements@[0]);
            assert(statements@ =~= seq![statements@[0]]);
            assert(stmts_view(statements@) == seq![StmtV::If(c, then_view)]);
        }
        if self.check(Punct::Else) {
            let _len = self.tokens.len();
            self.current = self.current + 1;
            self.expect(Punct::LeftBrace)?;
            let ghost q = self.current as int;
            let else_branch = self.block(start)?;
            let ghost else_view = stmts_view(else_branch@);
            let ghost first = statements@;
            statements.push(Stmt::If(negated, else_branch));
            proof {
                let second = statements@.last();
                lemma_views_single(second);
                lemma_views_append(first, seq![second]);
                assert(statements@ =~= first + seq![second]);
                assert(stmts_view(statements@) =~= seq![StmtV::If(c, then_view), StmtV::If(negation(c), else_view)]);
                assert(block_spec(toks, q) == Ok::<(Seq<StmtV>, int), ParseError>((else_view, self.current as int)));
            }
        }
        Ok(statements)
    }

    fn p_expression(&mut self) -> (r: Result<Pexpr, ParseError>)
        requires
            old(self).current <= old(self).tokens@.len(),
        ensures
            final(self).tokens@ == old(self).tokens@,
            final(self).current <= final(self).tokens@.len(),
            r is Ok ==> final(self).current == old(self).current + 1,
            match r {
                Ok(e) => pexpr_spec(old(self).tokens@, old(self).current as int) == Ok::<PexprV, ParseError>(pexpr_view(e)),
                Err(e) => pexpr_spec(old(self).tokens@, old(self).current as int) == Err::<PexprV, ParseError>(e),
            },
    {
        if self.current >= self.tokens.len() {
            return Err(ParseError::UnexpectedEnd);
        }
        match &self.tokens[self.current] {
            Token::String(s) => {
                let s = s.clone();
                self.current = self.current + 1;
                Ok(Pexpr::Str(s))
            },
            Token::Label(name) => {
                let name = name.clone();
                self.current = self.current + 1;
                Ok(Pexpr::Label(name))
            },
            _ => Err(ParseError::UnexpectedToken(self.current)),
        }
    }

    fn b_expression(&mut self) -> (r: Result<Bexpr, ParseError>)
        requires
            old(self).current <= old(self).tokens@.len(),
        ensures
            final(self).tokens@ == old(self).tokens@,
            final(self).current <= final(self).tokens@.len(),
            r is Ok ==> final(self).current > old(self).current,
            match r {
                Ok(e) => guard_spec(old(self).tokens@, old(self).current as int)
                    == Ok::<(BexprV, int), ParseError>((e@, final(self).current as int)),
                Err(e) => guard_spec(old(self).tokens@, old(self).current as int) == Err::<(BexprV, int), ParseError>(e),
            },
    {
        let ghost toks = self.tokens@;
        let ghost start = self.current as int;
        let mut expr = self.term()?;
        while self.current < self.tokens.len() && self.comparison_next() < 6
            invariant
                self.tokens@ == toks,
                toks == old(self).tokens@,
                start == old(self).current,
                start < self.current <= toks.len(),
                guard_spec(toks, start) == guard_tail(toks, self.current as int, expr@),
            decreases toks.len() - self.current,
        {
            let op = self.comparison_next();
            let ghost at = self.current as int;
            self.current = self.current + 1;
            let right = Box::new(self.term()?);
            let left = Box::new(expr);
            expr = if op == 0 {
                Bexpr::LessEqual(left, right)
            } else if op == 1 {
                Bexpr::Less(left, right)
            } else if op == 2 {
                Bexpr::Equal(left, right)
            } else if op == 3 {
                Bexpr::NotEqual(left, right)
            } else if op == 4 {
                Bexpr::GreaterEqual(left, right)
            } else {
                Bexpr::Greater(left, right)
            };
            assert(Some(expr@) == comparison(toks[at], left@, right@));
        }
        Ok(expr)
    }

    /// The comparison that the next token stands for: 0 to 5 for `<=`, `<`,
    /// `==`, `!=`, `>=`, `>`; 6 for any other token.
    fn comparison_next(&self) -> (r: u8)
        requires
            self.current < self.tokens@.len(),
        ensures
            r <= 6,
            (r < 6) == (comparison(self.tokens@[self.current as int], BexprV::Var(Seq::empty()), BexprV::Var(Seq::empty())) is Some),
            r == 0 ==> self.tokens@[self.current as int] is LessEqual,
            r == 1 ==> self.tokens@[self.current as int] is Less,
            r == 2 ==> self.tokens@[self.current as int] is Equal,
            r == 3 ==> self.tokens@[self.current as int] is NotEqual,
            r == 4 ==> self.tokens@[self.current as int] is GreaterEqual,
            r == 5 ==> self.tokens@[self.current as int] is Greater,
    {
        match &self.tokens[self.current] {
            Token::LessEqual => 0,
            Token::Less => 1,
            Token::Equal => 2,
            Token::NotEqual => 3,
            Token::GreaterEqual => 4,
            Token::Greater => 5,
            _ => 6,
        }
    }

    fn term(&mut self) -> (r: Result<Bexpr, ParseError>)
        requires
            old(self).current <= old(self).tokens@.len(),
        ensures
            final(self).tokens@ == old(self).tokens@,
            final(self).current <= final(self).tokens@.len(),
            r is Ok ==> final(self).current == old(self).current + 1,
            match r {
                Ok(e) => term_spec(old(self).tokens@, old(self).current as int) == Ok::<BexprV, ParseError>(e@),
                Err(e) => term_spec(old(self).tokens@, old(self).current as int) == Err::<BexprV, ParseError>(e),
            },
    {
        if self.current >= self.tokens.len() {
            return Err(ParseError::UnexpectedEnd);
        }
        let t = match &self.tokens[self.current] {
            Token::String(s) => Bexpr::Str(s.clone()),
            Token::Identifier(name) => Bexpr::Var(name.clone()),
            Token::Label(name) => Bexpr::Label(name.clone()),
            _ => return Err(ParseError::UnexpectedToken(self.current)),
        };
        self.current = self.current + 1;
        Ok(t)
    }

    fn peek_identifier(&self) -> (r: Option<String>)
        ensures
            match r {
                Some(n) => self.current < self.tokens@.len() && self.tokens@[self.current as int] == Token::Identifier(n),
                None => !(self.current < self.tokens@.len() && self.tokens@[self.current as int] is Identifier),
            },
    {
        match self.peek() {
            Some(Token::Identifier(name)) => Some(name.clone()),
            _ => None,
        }
    }

    fn error_here(&self) -> (r: ParseError)
        ensures
            r == error_at(self.tokens@, self.current as int),
    {
        if self.current < self.tokens.len() {
            ParseError::UnexpectedToken(self.current)
        } else {
            ParseError::UnexpectedEnd
        }
    }

    /// The next token, if any.
    fn peek(&self) -> (r: Option<&Token>)
        ensures
            match r {
                Some(t) => self.current < self.tokens@.len() && *t == self.tokens@[self.current as int],
                None => self.current >= self.tokens@.len(),
            },
    {
        if self.current < self.tokens.len() {
            Some(&self.tokens[self.current])
        } else {
            None
        }
    }

    /// Whether the next token is the punctuation `p`.
    fn check(&self, p: Punct) -> (r: bool)
        ensures
            r == (self.current < self.tokens@.len() && is_punct(self.tokens@[self.current as int], p)),
    {
        match self.peek() {
            None => false,
            Some(t) => match (p, t) {
                (Punct::In, Token::In) => true,
                (Punct::Else, Token::Else) => true,
                (Punct::LeftBrace, Token::LeftBrace) => true,
                (Punct::RightBrace, Token::RightBrace) => true,
                (Punct::LeftParen, Token::LeftParen) => true,
                (Punct::RightParen, Token::RightParen) => true,
                (Punct::DotDot, Token::DotDot) => true,
                _ => false,
            },
        }
    }

    /// Consumes the punctuation `p`, or fails.
    fn expect(&mut self, p: Punct) -> (r: Result<(), ParseError>)
        requires
            old(self).current <= old(self).tokens@.len(),
        ensures
            final(self).tokens@ == old(self).tokens@,
            final(self).current <= final(self).tokens@.len(),
            r is Ok ==> final(self).current == old(self).current + 1,
            r is Err ==> final(self).current == old(self).current,
            match r {
                Ok(()) => expect_spec(old(self).tokens@, old(self).current as int, p) == Ok::<int, ParseError>(final(self).current as int),
                Err(e) => expect_spec(old(self).tokens@, old(self).current as int, p) == Err::<int, ParseError>(e),
            },
    {
        if self.check(p) {
            let _len = self.tokens.len();
            self.current = self.current + 1;
            Ok(())
        } else {
            Err(self.error_here())
        }
    }

    fn expect_bound(&mut self) -> (r: Result<Fexpr, ParseError>)
        requires
            old(self).current <= old(self).tokens@.len(),
        ensures
            final(self).tokens@ == old(self).tokens@,
            final(self).current <= final(self).tokens@.len(),
            r is Ok ==> final(self).current == old(self).current + 1,
            match r {
                Ok(f) => (f == Fexpr::Number(0) || f is Var)
                    && bound_spec(old(self).tokens@, old(self).current as int) == Ok::<bool, ParseError>(f is Number),
                Err(e) => bound_spec(old(self).tokens@, old(self).current as int) == Err::<bool, ParseError>(e),
            },
    {
        let bound = match self.peek() {
            Some(Token::Number(v)) => {
                if *v == 0 { Fexpr::Number(0) } else { return Err(self.error_here()) }
            },
            Some(Token::Identifier(name)) => {
                if name.as_str().unicode_len() == 1 && name.as_str().get_char(0) == 'n' {
                    assert(name@ =~= seq!['n']);
                    Fexpr::Var(name.clone())
                } else {
                    return Err(self.error_here());
                }
            },
            _ => return Err(self.error_here()),
        };
        let _len = self.tokens.len();
        self.current = self.current + 1;
        Ok(bound)
    }

    /// The start of a `for` range: `0` or `n`.
    fn expect_start_token(&mut self) -> (r: Result<Fexpr, ParseError>)
        requires
            old(self).current <= old(self).tokens@.len(),
        ensures
            final(self).tokens@ == old(self).tokens@,
            final(self).current <= final(self).tokens@.len(),
            r is Ok ==> final(self).current == old(self).current + 1,
            match r {
                Ok(f) => (f == Fexpr::Number(0) || f is Var)
                    && bound_spec(old(self).tokens@, old(self).current as int) == Ok::<bool, ParseError>(f is Number),
                Err(e) => bound_spec(old(self).tokens@, old(self).current as int) == Err::<bool, ParseError>(e),
            },
    {
        self.expect_bound()
    }

    /// The end of a `for` range: `0` or `n`.
    fn expect_end_token(&mut self) -> (r: Result<Fexpr, ParseError>)
        requires
            old(self).current <= old(self).tokens@.len(),
        ensures
            final(self).tokens@ == old(self).tokens@,
            final(self).current <= final(self).tokens@.len(),
            r is Ok ==> final(self).current == old(self).current + 1,
            match r {
                Ok(f) => (f == Fexpr::Number(0) || f is Var)
                    && bound_spec(old(self).tokens@, old(self).current as int) == Ok::<bool, ParseError>(f is Number),
                Err(e) => bound_spec(old(self).tokens@, old(self).current as int) == Err::<bool, ParseError>(e),
            },
    {
        self.expect_bound()
    }
}

/// `n` spaces.
pub open spec fn spaces(n: nat) -> Seq<char> {
    Seq::new(n, |i: int| ' ')
}

/// One line of the outline: the indentation, the text, a line break.
pub open spec fn line(indent: nat, t: Seq<char>) -> Seq<char> {
    spaces(indent) + t + seq!['\n']
}

/// The outline of an expression.
pub open spec fn bexpr_outline(e: BexprV, indent: nat) -> Seq<char>
    decreases e,
{
    match e {
        BexprV::Var(v) => line(indent, "Var: "@ + v),
        BexprV::Str(t) => line(indent, "Str: "@ + t),
        BexprV::Label(v) => line(indent, "Label: "@ + v),
        BexprV::LessEqual(l, r) => line(indent, "LessEqual:"@) + bexpr_outline(*l, indent + 2) + bexpr_outline(*r, indent + 2),
        BexprV::Less(l, r) => line(indent, "Less:"@) + bexpr_outline(*l, indent + 2) + bexpr_outline(*r, indent + 2),
        BexprV::Equal(l, r) => line(indent, "Equal:"@) + bexpr_outline(*l, indent + 2) + bexpr_outline(*r, indent + 2),
        BexprV::NotEqual(l, r) => line(indent, "NotEqual:"@) + bexpr_outline(*l, indent + 2) + bexpr_outline(*r, indent + 2),
        BexprV::GreaterEqual(l, r) => line(indent, "GreaterEqual:"@) + bexpr_outline(*l, indent + 2) + bexpr_outline(*r, indent + 2),
        BexprV::Greater(l, r) => line(indent, "Greater:"@) + bexpr_outline(*l, indent + 2) + bexpr_outline(*r, indent + 2),
        BexprV::Not(i) => line(indent, "Not:"@) + bexpr_outline(*i, indent + 2),
        BexprV::And(l, r) => line(indent, "And:"@) + bexpr_outline(*l, indent + 2) + bexpr_outline(*r, indent + 2),
        BexprV::Or(l, r) => line(indent, "Or:"@) + bexpr_outline(*l, indent + 2) + bexpr_outline(*r, indent + 2),
    }
}

/// The outline of the first `k` statements.
pub open spec fn ast_outline(stmts: Seq<Stmt>, k: int, indent: nat) -> Seq<char>
    decreases stmts, 0int, k,
{
    if k <= 0 || k > stmts.len() {
        Seq::empty()
    } else {
        ast_outline(stmts, k - 1, indent) + stmt_outline(stmts[k - 1], indent)
    }
}

/// The outline of a statement.
pub open spec fn stmt_outline(s: Stmt, indent: nat) -> Seq<char>
    decreases s, 0int, 0int,
{
    match s {
        Stmt::Print(Pexpr::Label(v)) => line(indent, "Print:"@) + line(indent + 2, "Label: "@ + v@),
        Stmt::Print(Pexpr::Str(t)) => line(indent, "Print:"@) + line(indent + 2, "Str: "@ + t@),
        Stmt::For0(v, body) => line(indent, "For0 "@ + v@ + ":"@) + ast_outline(body@, body@.len() as int, indent + 2),
        Stmt::For1(v, body) => line(indent, "For1 "@ + v@ + ":"@) + ast_outline(body@, body@.len() as int, indent + 2),
        Stmt::If(c, body) => line(indent, "If:"@) + bexpr_outline(c@, indent + 2) + line(indent, "Then:"@)
            + ast_outline(body@, body@.len() as int, indent + 2),
    }
}

fn push_line(out: &mut String, pad: &String, a: &str, b: &str, c: &str)
    ensures
        final(out)@ == old(out)@ + pad@ + a@ + b@ + c@ + seq!['\n'],
{
    push_str(out, pad.as_str());
    push_str(out, a);
    push_str(out, b);
    push_str(out, c);
    out.push('\n');
}

fn deeper(pad: &String) -> (r: String)
    ensures
        r@ == pad@ + seq![' ', ' '],
{
    let mut r = pad.clone();
    r.push(' ');
    r.push(' ');
    assert(r@ =~= pad@ + seq![' ', ' ']);
    r
}

proof fn lemma_spaces_add(n: nat)
    ensures
        spaces(n) + seq![' ', ' '] == spaces(n + 2),
{
    assert(spaces(n) + seq![' ', ' '] =~= spaces(n + 2));
}

fn push_bexpr(out: &mut String, e: &Bexpr, pad: &String)
    requires
        pad@ == spaces(pad@.len()),
    ensures
        final(out)@ == old(out)@ + bexpr_outline(e@, pad@.len()),
    decreases e,
{
    let ghost n = pad@.len();
    proof {
        lemma_spaces_add(n);
        reveal_strlit("");
    }
    let ghost start = out@;
    match e {
        Bexpr::Var(v) => push_line(out, pad, "Var: ", v.as_str(), ""),
        Bexpr::Str(t) => push_line(out, pad, "Str: ", t.as_str(), ""),
        Bexpr::Label(v) => push_line(out, pad, "Label: ", v.as_str(), ""),
        Bexpr::Not(i) => {
            push_line(out, pad, "Not:", "", "");
            push_bexpr(out, i, &deeper(pad));
        },
        Bexpr::LessEqual(l, r) => {
            push_line(out, pad, "LessEqual:", "", "");
            let inner = deeper(pad);
            push_bexpr(out, l, &inner);
            push_bexpr(out, r, &inner);
        },
        Bexpr::Less(l, r) => {
            push_line(out, pad, "Less:", "", "");
            let inner = deeper(pad);
            push_bexpr(out, l, &inner);
            push_bexpr(out, r, &inner);
        },
        Bexpr::Equal(l, r) => {
            push_line(out, pad, "Equal:", "", "");
            let inner = deeper(pad);
            push_bexpr(out, l, &inner);
            push_bexpr(out, r, &inner);
        },
        Bexpr::NotEqual(l, r) => {
            push_line(out, pad, "NotEqual:", "", "");
            let inner = deeper(pad);
            push_bexpr(out, l, &inner);
            push_bexpr(out, r, &inner);
        },
        Bexpr::GreaterEqual(l, r) => {
            push_line(out, pad, "GreaterEqual:", "", "");
            let inner = deeper(pad);
            push_bexpr(out, l, &inner);
            push_bexpr(out, r, &inner);
        },
        Bexpr::Greater(l, r) => {
            push_line(out, pad, "Greater:", "", "");
            let inner = deeper(pad);
            push_bexpr(out, l, &inner);
            push_bexpr(out, r, &inner);
        },
        Bexpr::And(l, r) => {
            push_line(out, pad, "And:", "", "");
            let inner = deeper(pad);
            push_bexpr(out, l, &inner);
            push_bexpr(out, r, &inner);
        },
        Bexpr::Or(l, r) => {
            push_line(out, pad, "Or:", "", "");
            let inner = deeper(pad);
            push_bexpr(out, l, &inner);
            push_bexpr(out, r, &inner);
        },
    }
    assert(out@ =~= start + bexpr_outline(e@, n));
}

fn push_block(out: &mut String, stmts: &Vec<Stmt>, pad: &String)
    requires
        pad@ == spaces(pad@.len()),
    ensures
        final(out)@ == old(out)@ + ast_outline(stmts@, stmts@.len() as int, pad@.len()),
    decreases stmts, 0int, stmts@.len(),
{
    let ghost start = out@;
    let mut i: usize = 0;
    while i < stmts.len()
        invariant
            i <= stmts@.len(),
            pad@ == spaces(pad@.len()),
            out@ == start + ast_outline(stmts@, i as int, pad@.len()),
        decreases stmts@.len() - i,
    {
        push_stmt(out, &stmts[i], pad);
        i = i + 1;
    }
}

fn push_stmt(out: &mut String, stmt: &Stmt, pad: &String)
    requires
        pad@ == spaces(pad@.len()),
    ensures
        final(out)@ == old(out)@ + stmt_outline(*stmt, pad@.len()),
    decreases stmt, 0int, 0int,
{
    let ghost n = pad@.len();
    proof {
        lemma_spaces_add(n);
        reveal_strlit("");
    }
    let ghost start = out@;
    match stmt {
        Stmt::Print(Pexpr::Label(v)) => {
            push_line(out, pad, "Print:", "", "");
            push_line(out, &deeper(pad), "Label: ", v.as_str(), "");
        },
        Stmt::Print(Pexpr::Str(t)) => {
            push_line(out, pad, "Print:", "", "");
            push_line(out, &deeper(pad), "Str: ", t.as_str(), "");
        },
        Stmt::For0(v, body) => {
            push_line(out, pad, "For0 ", v.as_str(), ":");
            push_block(out, body, &deeper(pad));
        },
        Stmt::For1(v, body) => {
            push_line(out, pad, "For1 ", v.as_str(), ":");
            push_block(out, body, &deeper(pad));
        },
        Stmt::If(c, body) => {
            push_line(out, pad, "If:", "", "");
            push_bexpr(out, c, &deeper(pad));
            push_line(out, pad, "Then:", "", "");
            push_block(out, body, &deeper(pad));
        },
    }
    assert(out@ =~= start + stmt_outline(*stmt, n));
}

/// The outline of a program: one line per node, children indented two
/// spaces deeper than their parent.
pub fn print_ast(stmts: &Vec<Stmt>, indent: usize) -> (r: String)
    ensures
        r@ == ast_outline(stmts@, stmts@.len() as int, indent as nat),
{
    let mut pad = String::new();
    let mut i: usize = 0;
    while i < indent
        invariant
            i <= indent,
            pad@ == spaces(i as nat),
        decreases indent - i,
    {
        pad.push(' ');
        i = i + 1;
        assert(pad@ =~= spaces(i as nat));
    }
    let mut out = String::new();
    push_block(&mut out, stmts, &pad);
    assert(out@ =~= ast_outline(stmts@, stmts@.len() as int, indent as nat));
    out
}

} // verus!
