//! A second language, with loops over the input positions and `if`/`else`
//! on comparisons: its lexer, parser and interpreter. Each `print` emits its
//! value and a line break.
use vstd::prelude::*;
use crate::bexpr_evaluator::{letter_at, lookup, env_of, EvalError, Env, Evaluator, Rel, rel_holds};
use crate::interpreter::{bind, iteration_position};
use crate::lexer::{
    digit, digits_end, dotdot_in, find_dotdot, first_of, is_digit, is_letter, letter, number_spec, read_number, scan,
    scan_end, starts_with, starts_with_at, LexError,
};
use crate::parser::ParseError;
use crate::text::{char_string, chars_of, push_str, str_eq, string_of};

verus! {

/// A statement.
#[derive(Debug, PartialEq)]
pub enum Stmt {
    Print(Expr),
    /// A loop over the input positions: last to first when the flag is set.
    For(String, bool, Vec<Stmt>),
    /// A guard with its `then` and `else` branches.
    If(Expr, Vec<Stmt>, Vec<Stmt>),
}

/// An expression.
#[derive(Debug, PartialEq)]
pub enum Expr {
    Number(i32),
    Var(String),
    Str(String),
    LessEqual(Box<Expr>, Box<Expr>),
    Less(Box<Expr>, Box<Expr>),
    Equal(Box<Expr>, Box<Expr>),
    NotEqual(Box<Expr>, Box<Expr>),
    Label(String),
}

/// A token.
#[derive(Debug, Clone, PartialEq)]
pub enum Token {
    For,
    In,
    Print,
    If,
    Else,
    Identifier(String),
    Number(i32),
    String(String),
    LeftBrace,
    RightBrace,
    LeftParen,
    RightParen,
    DotDot,
    LessEqual,
    Less,
    Equal,
    NotEqual,
    Label(String),
}

/// The mathematical content of a token.
pub enum TokenV {
    For,
    In,
    Print,
    If,
    Else,
    Identifier(Seq<char>),
    Number(i32),
    String(Seq<char>),
    LeftBrace,
    RightBrace,
    LeftParen,
    RightParen,
    DotDot,
    LessEqual,
    Less,
    Equal,
    NotEqual,
    Label(Seq<char>),
}

pub open spec fn token_view(t: Token) -> TokenV {
    match t {
        Token::For => TokenV::For,
        Token::In => TokenV::In,
        Token::Print => TokenV::Print,
        Token::If => TokenV::If,
        Token::Else => TokenV::Else,
        Token::Identifier(s) => TokenV::Identifier(s@),
        Token::Number(n) => TokenV::Number(n),
        Token::String(s) => TokenV::String(s@),
        Token::LeftBrace => TokenV::LeftBrace,
        Token::RightBrace => TokenV::RightBrace,
        Token::LeftParen => TokenV::LeftParen,
        Token::RightParen => TokenV::RightParen,
        Token::DotDot => TokenV::DotDot,
        Token::LessEqual => TokenV::LessEqual,
        Token::Less => TokenV::Less,
        Token::Equal => TokenV::Equal,
        Token::NotEqual => TokenV::NotEqual,
        Token::Label(s) => TokenV::Label(s@),
    }
}

pub open spec fn tokens_view(v: Seq<Token>) -> Seq<TokenV> {
    v.map_values(|t: Token| token_view(t))
}

/// `p` in front of the tokens of `r`.
pub open spec fn emit(p: Seq<TokenV>, r: Result<Seq<TokenV>, LexError>) -> Result<Seq<TokenV>, LexError> {
    match r {
        Ok(t) => Ok(p + t),
        Err(e) => Err(e),
    }
}

proof fn lemma_emit_append(a: Seq<TokenV>, b: Seq<TokenV>, r: Result<Seq<TokenV>, LexError>)
    ensures
        emit(a, emit(b, r)) == emit(a + b, r),
{
    match r {
        Ok(t) => assert(a + (b + t) =~= (a + b) + t),
        Err(_) => {},
    }
}

/// The tokens of `cs[i ..]`. Keywords are read wherever their letters
/// start; `v.label` is a label, `.label` alone the label `label`.
pub open spec fn lex_from(cs: Seq<char>, i: int) -> Result<Seq<TokenV>, LexError>
    decreases cs.len() - i,
{
    if i < 0 || i >= cs.len() {
        Ok(Seq::empty())
    } else {
        let ch = cs[i];
        let n = cs.len() as int;
        if ch == ' ' || ch == '\n' || ch == '\t' || ch == '\r' {
            lex_from(cs, i + 1)
        } else if ch == 'f' && starts_with_at(cs, i, seq!['f', 'o', 'r']) {
            emit(seq![TokenV::For], lex_from(cs, i + 3))
        } else if ch == 'i' && starts_with_at(cs, i, seq!['i', 'n']) {
            emit(seq![TokenV::In], lex_from(cs, i + 2))
        } else if ch == 'p' && starts_with_at(cs, i, seq!['p', 'r', 'i', 'n', 't']) {
            emit(seq![TokenV::Print], lex_from(cs, i + 5))
        } else if ch == 'i' && starts_with_at(cs, i, seq!['i', 'f']) {
            emit(seq![TokenV::If], lex_from(cs, i + 2))
        } else if ch == 'e' && starts_with_at(cs, i, seq!['e', 'l', 's', 'e']) {
            emit(seq![TokenV::Else], lex_from(cs, i + 4))
        } else if ch == '{' {
            emit(seq![TokenV::LeftBrace], lex_from(cs, i + 1))
        } else if ch == '}' {
            emit(seq![TokenV::RightBrace], lex_from(cs, i + 1))
        } else if ch == '(' {
            emit(seq![TokenV::LeftParen], lex_from(cs, i + 1))
        } else if ch == ')' {
            emit(seq![TokenV::RightParen], lex_from(cs, i + 1))
        } else if ch == '.' {
            if i + 1 < n && cs[i + 1] == '.' {
                emit(seq![TokenV::DotDot], lex_from(cs, i + 2))
            } else if starts_with_at(cs, i + 1, seq!['l', 'a', 'b', 'e', 'l']) && scan_end(cs, i + 1, false, true) == i + 6 {
                emit(seq![TokenV::Label(cs.subrange(i + 1, i + 6))], lex_from(cs, i + 6))
            } else {
                Err(LexError::UnexpectedCharacter(i as usize))
            }
        } else if ch == '<' {
            if i + 1 < n && cs[i + 1] == '=' {
                emit(seq![TokenV::LessEqual], lex_from(cs, i + 2))
            } else {
                emit(seq![TokenV::Less], lex_from(cs, i + 1))
            }
        } else if ch == '=' || ch == '!' {
            if i + 1 < n && cs[i + 1] == '=' {
                emit(seq![if ch == '=' { TokenV::Equal } else { TokenV::NotEqual }], lex_from(cs, i + 2))
            } else {
                Err(LexError::UnexpectedCharacter(i as usize))
            }
        } else if ch == '"' {
            let j = first_of(cs, i + 1, n, '"');
            if j >= n || j <= i {
                Err(LexError::UnterminatedString)
            } else {
                emit(seq![TokenV::String(cs.subrange(i + 1, j))], lex_from(cs, j + 1))
            }
        } else if is_digit(ch) {
            let k = digits_end(cs, i, scan_end(cs, i, false, false));
            match number_spec(cs, i, k) {
                None => Err(LexError::InvalidNumber),
                Some(num) => if k <= i || k > n {
                    Err(LexError::InvalidNumber)
                } else if k < n && k + 1 < n && cs[k] == '.' && cs[k + 1] == '.' {
                    let m = k + 2;
                    if m < n {
                        if is_letter(cs[m]) {
                            let e = scan_end(cs, m, false, true);
                            if i < e <= n {
                                emit(seq![TokenV::Number(num), TokenV::DotDot, TokenV::Identifier(cs.subrange(m, e))],
                                    lex_from(cs, e))
                            } else {
                                Err(LexError::UnexpectedCharacter(m as usize))
                            }
                        } else {
                            Err(LexError::UnexpectedCharacter(m as usize))
                        }
                    } else {
                        emit(seq![TokenV::Number(num), TokenV::DotDot], lex_from(cs, m))
                    }
                } else {
                    emit(seq![TokenV::Number(num)], lex_from(cs, k))
                },
            }
        } else if is_letter(ch) {
            let j = scan_end(cs, i, true, false);
            if j <= i || j > n {
                Err(LexError::UnexpectedCharacter(i as usize))
            } else {
                match dotdot_in(cs, i, j) {
                    Some(d) => if dotdot_in(cs, d + 2, j) is Some {
                        Err(LexError::UnexpectedCharacter((d + 2) as usize))
                    } else {
                        match number_spec(cs, d + 2, j) {
                            None => Err(LexError::InvalidNumber),
                            Some(num) => emit(
                                seq![TokenV::Identifier(cs.subrange(i, d)), TokenV::DotDot, TokenV::Number(num)],
                                lex_from(cs, j),
                            ),
                        }
                    },
                    None => {
                        let dot = first_of(cs, i, j, '.');
                        if dot < j && starts_with_at(cs, dot + 1, seq!['l', 'a', 'b', 'e', 'l']) && dot + 6 == j {
                            emit(seq![TokenV::Label(cs.subrange(i, dot))], lex_from(cs, j))
                        } else {
                            emit(seq![TokenV::Identifier(cs.subrange(i, j))], lex_from(cs, j))
                        }
                    },
                }
            }
        } else {
            Err(LexError::UnexpectedCharacter(i as usize))
        }
    }
}

/// The tokens of a text.
pub open spec fn lex_spec(cs: Seq<char>) -> Result<Seq<TokenV>, LexError> {
    lex_from(cs, 0)
}

/// The tokens of a program text, as `lex_spec` gives them.
#[verifier::spinoff_prover]
#[verifier::rlimit(100)]
pub fn tokenize(input: &str) -> (r: Result<Vec<Token>, LexError>)
    ensures
        match r {
            Ok(tokens) => lex_spec(input@) == Ok::<Seq<TokenV>, LexError>(tokens_view(tokens@)),
            Err(e) => lex_spec(input@) == Err::<Seq<TokenV>, LexError>(e),
        },
{
    let cs = chars_of(input);
    let n = cs.len();
    let mut tokens: Vec<Token> = Vec::new();
    let mut i: usize = 0;
    assert(tokens_view(tokens@) =~= Seq::<TokenV>::empty());
    proof {
        match lex_spec(input@) {
            Ok(t) => assert(Seq::<TokenV>::empty() + t =~= t),
            Err(_) => {},
        }
    }
    while i < n
        invariant
            n == cs@.len(),
            cs@ == input@,
            i <= n,
            lex_spec(cs@) == emit(tokens_view(tokens@), lex_from(cs@, i as int)),
        decreases n - i,
    {
        proof {
            reveal_strlit("for");
            reveal_strlit("in");
            reveal_strlit("print");
            reveal_strlit("if");
            reveal_strlit("else");
            reveal_strlit("label");
            assert("for"@ =~= seq!['f', 'o', 'r']);
            assert("in"@ =~= seq!['i', 'n']);
            assert("print"@ =~= seq!['p', 'r', 'i', 'n', 't']);
            assert("if"@ =~= seq!['i', 'f']);
            assert("else"@ =~= seq!['e', 'l', 's', 'e']);
            assert("label"@ =~= seq!['l', 'a', 'b', 'e', 'l']);
        }
        let ghost pre = tokens@;
        let ghost pre_i = i as int;
        let ch = cs[i];
        if ch == ' ' || ch == '\n' || ch == '\t' || ch == '\r' {
            i = i + 1;
        } else if ch == 'f' && starts_with(&cs, i, "for") {
            tokens.push(Token::For);
            i = i + 3;
        } else if ch == 'i' && starts_with(&cs, i, "in") {
            tokens.push(Token::In);
            i = i + 2;
        } else if ch == 'p' && starts_with(&cs, i, "print") {
            tokens.push(Token::Print);
            i = i + 5;
        } else if ch == 'i' && starts_with(&cs, i, "if") {
            tokens.push(Token::If);
            i = i + 2;
        } else if ch == 'e' && starts_with(&cs, i, "else") {
            tokens.push(Token::Else);
            i = i + 4;
        } else if ch == '{' {
            tokens.push(Token::LeftBrace);
            i = i + 1;
        } else if ch == '}' {
            tokens.push(Token::RightBrace);
            i = i + 1;
        } else if ch == '(' {
            tokens.push(Token::LeftParen);
            i = i + 1;
        } else if ch == ')' {
            tokens.push(Token::RightParen);
            i = i + 1;
        } else if ch == '.' {
            if i + 1 < n && cs[i + 1] == '.' {
                tokens.push(Token::DotDot);
                i = i + 2;
            } else if starts_with(&cs, i + 1, "label") && scan(&cs, i + 1, false, true) == i + 6 {
                let text = string_of(&cs.as_slice()[i + 1..i + 6]);
                assert(text@ =~= cs@.subrange(i + 1, i + 6));
                tokens.push(Token::Label(text));
                i = i + 6;
            } else {
                {
                assert(lex_from(cs@, pre_i) == Err::<Seq<TokenV>, LexError>(LexError::UnexpectedCharacter(i)));
                return Err(LexError::UnexpectedCharacter(i));
            }
            }
        } else if ch == '<' {
            if i + 1 < n && cs[i + 1] == '=' {
                tokens.push(Token::LessEqual);
                i = i + 2;
            } else {
                tokens.push(Token::Less);
                i = i + 1;
            }
        } else if ch == '=' || ch == '!' {
            if i + 1 < n && cs[i + 1] == '=' {
                tokens.push(if ch == '=' { Token::Equal } else { Token::NotEqual });
                i = i + 2;
            } else {
                {
                assert(lex_from(cs@, pre_i) == Err::<Seq<TokenV>, LexError>(LexError::UnexpectedCharacter(i)));
                return Err(LexError::UnexpectedCharacter(i));
            }
            }
        } else if ch == '"' {
            let mut j = i + 1;
            while j < n && cs[j] != '"'
                invariant
                    i < j <= n,
                    n == cs@.len(),
                    first_of(cs@, i + 1, n as int, '"') == first_of(cs@, j as int, n as int, '"'),
                    pre_i == i as int,
                    ch == cs@[i as int],
                    lex_spec(cs@) == emit(tokens_view(tokens@), lex_from(cs@, i as int)),
                decreases n - j,
            {
                j = j + 1;
            }
            assert(first_of(cs@, j as int, n as int, '"') == j as int);
            if j >= n {
                {
                assert(lex_from(cs@, pre_i) == Err::<Seq<TokenV>, LexError>(LexError::UnterminatedString));
                return Err(LexError::UnterminatedString);
            }
            }
            let text = string_of(&cs.as_slice()[i + 1..j]);
            assert(text@ =~= cs@.subrange(i + 1, j as int));
            tokens.push(Token::String(text));
            i = j + 1;
        } else if digit(ch) {
            let j = scan(&cs, i, false, false);
            let mut k = i;
            while k < j && digit(cs[k])
                invariant
                    i <= k <= j <= n,
                    n == cs@.len(),
                    digits_end(cs@, i as int, j as int) == digits_end(cs@, k as int, j as int),
                    pre_i == i as int,
                    ch == cs@[i as int],
                    lex_spec(cs@) == emit(tokens_view(tokens@), lex_from(cs@, i as int)),
                decreases j - k,
            {
                k = k + 1;
            }
            assert(digits_end(cs@, k as int, j as int) == k as int);
            assert(k > i);
            let num = match read_number(&cs, i, k) {
                Some(v) => v,
                None => {
                    assert(lex_from(cs@, pre_i) == Err::<Seq<TokenV>, LexError>(LexError::InvalidNumber));
                    return Err(LexError::InvalidNumber);
                },
            };
            if k < n && k + 1 < n && cs[k] == '.' && cs[k + 1] == '.' {
                tokens.push(Token::Number(num));
                tokens.push(Token::DotDot);
                let m = k + 2;
                if m < n {
                    if letter(cs[m]) {
                        let e = scan(&cs, m, false, true);
                        let text = string_of(&cs.as_slice()[m..e]);
                        assert(text@ =~= cs@.subrange(m as int, e as int));
                        tokens.push(Token::Identifier(text));
                        i = e;
                    } else {
                        {
                assert(lex_from(cs@, pre_i) == Err::<Seq<TokenV>, LexError>(LexError::UnexpectedCharacter(m)));
                return Err(LexError::UnexpectedCharacter(m));
            }
                    }
                } else {
                    i = m;
                }
            } else {
                tokens.push(Token::Number(num));
                i = k;
            }
        } else if letter(ch) {
            let j = scan(&cs, i, true, false);
            match find_dotdot(&cs, i, j) {
                Some(d) => {
                    let second = find_dotdot(&cs, d + 2, j);
                    if second.is_some() {
                        {
                assert(lex_from(cs@, pre_i) == Err::<Seq<TokenV>, LexError>(LexError::UnexpectedCharacter((d + 2) as usize)));
                return Err(LexError::UnexpectedCharacter(d + 2));
            }
                    }
                    let num = match read_number(&cs, d + 2, j) {
                        Some(v) => v,
                        None => {
                            assert(lex_from(cs@, pre_i) == Err::<Seq<TokenV>, LexError>(LexError::InvalidNumber));
                            return Err(LexError::InvalidNumber);
                        },
                    };
                    let text = string_of(&cs.as_slice()[i..d]);
                    assert(text@ =~= cs@.subrange(i as int, d as int));
                    tokens.push(Token::Identifier(text));
                    tokens.push(Token::DotDot);
                    tokens.push(Token::Number(num));
                    i = j;
                },
                None => {
                    let mut dot = i;
                    while dot < j && cs[dot] != '.'
                        invariant
                            i <= dot <= j <= n,
                            n == cs@.len(),
                            first_of(cs@, i as int, j as int, '.') == first_of(cs@, dot as int, j as int, '.'),
                            pre_i == i as int,
                            ch == cs@[i as int],
                            pre == tokens@,
                            lex_spec(cs@) == emit(tokens_view(tokens@), lex_from(cs@, i as int)),
                        decreases j - dot,
                    {
                        dot = dot + 1;
                    }
                    let is_label = dot < j && starts_with(&cs, dot + 1, "label") && dot + 6 == j;
                    if is_label {
                        let text = string_of(&cs.as_slice()[i..dot]);
                        assert(text@ =~= cs@.subrange(i as int, dot as int));
                        tokens.push(Token::Label(text));
                    } else {
                        let text = string_of(&cs.as_slice()[i..j]);
                        assert(text@ =~= cs@.subrange(i as int, j as int));
                        tokens.push(Token::Identifier(text));
                    }
                    i = j;
                },
            }
        } else {
            {
                assert(lex_from(cs@, pre_i) == Err::<Seq<TokenV>, LexError>(LexError::UnexpectedCharacter(i)));
                return Err(LexError::UnexpectedCharacter(i));
            }
        }
        proof {
            let added = tokens@.subrange(pre.len() as int, tokens@.len() as int);
            assert(tokens@ =~= pre + added);
            if added.len() == 1 {
                assert(tokens_view(added) =~= seq![token_view(added[0])]);
            } else if added.len() == 2 {
                assert(tokens_view(added) =~= seq![token_view(added[0]), token_view(added[1])]);
            } else if added.len() == 3 {
                assert(tokens_view(added) =~= seq![token_view(added[0]), token_view(added[1]), token_view(added[2])]);
            } else if added.len() == 0 {
                assert(tokens_view(added) =~= Seq::<TokenV>::empty());
            }
            assert(tokens_view(tokens@) =~= tokens_view(pre) + tokens_view(added));
            assert(lex_from(cs@, pre_i) == emit(tokens_view(added), lex_from(cs@, i as int)));
            lemma_emit_append(tokens_view(pre), tokens_view(added), lex_from(cs@, i as int));
        }
    }
    proof {
        match lex_from(cs@, i as int) {
            Ok(t) => assert(tokens_view(tokens@) + t =~= tokens_view(tokens@)),
            Err(_) => {},
        }
    }
    Ok(tokens)
}

/// The tokens without payload, for comparison.
#[derive(Debug, Clone, Copy, PartialEq, Eq, Structural)]
pub enum Punct {
    In,
    Else,
    LeftBrace,
    RightBrace,
    LeftParen,
    RightParen,
    DotDot,
}

/// Whether a token is the punctuation `p`.
pub open spec fn is_punct(t: Token, p: Punct) -> bool {
    match p {
        Punct::In => t is In,
        Punct::Else => t is Else,
        Punct::LeftBrace => t is LeftBrace,
        Punct::RightBrace => t is RightBrace,
        Punct::LeftParen => t is LeftParen,
        Punct::RightParen => t is RightParen,
        Punct::DotDot => t is DotDot,
    }
}

/// The mathematical content of an `Expr`.
pub enum ExprV {
    Number(i32),
    Var(Seq<char>),
    Str(Seq<char>),
    LessEqual(Box<ExprV>, Box<ExprV>),
    Less(Box<ExprV>, Box<ExprV>),
    Equal(Box<ExprV>, Box<ExprV>),
    NotEqual(Box<ExprV>, Box<ExprV>),
    Label(Seq<char>),
}

/// The view of an expression.
pub open spec fn expr_view(e: Expr) -> ExprV
    decreases e,
{
    match e {
        Expr::Number(n) => ExprV::Number(n),
        Expr::Var(s) => ExprV::Var(s@),
        Expr::Str(s) => ExprV::Str(s@),
        Expr::Label(s) => ExprV::Label(s@),
        Expr::LessEqual(l, r) => ExprV::LessEqual(Box::new(expr_view(*l)), Box::new(expr_view(*r))),
        Expr::Less(l, r) => ExprV::Less(Box::new(expr_view(*l)), Box::new(expr_view(*r))),
        Expr::Equal(l, r) => ExprV::Equal(Box::new(expr_view(*l)), Box::new(expr_view(*r))),
        Expr::NotEqual(l, r) => ExprV::NotEqual(Box::new(expr_view(*l)), Box::new(expr_view(*r))),
    }
}

/// The mathematical content of a `Stmt`.
pub enum StmtV {
    Print(ExprV),
    For(Seq<char>, bool, Seq<StmtV>),
    If(ExprV, Seq<StmtV>, Seq<StmtV>),
}

/// The view of a statement.
pub open spec fn stmt_view(s: Stmt) -> StmtV
    decreases s, 0int, 0int,
{
    match s {
        Stmt::Print(e) => StmtV::Print(expr_view(e)),
        Stmt::For(v, d, body) => StmtV::For(v@, d, views_upto(body@, body@.len() as int)),
        Stmt::If(c, t, e) => StmtV::If(expr_view(c), views_upto(t@, t@.len() as int), views_upto(e@, e@.len() as int)),
    }
}

/// The views of the first `k` statements.
pub open spec fn views_upto(v: Seq<Stmt>, k: int) -> Seq<StmtV>
    decreases v, 0int, k,
{
    if k <= 0 || k > v.len() {
        Seq::empty()
    } else {
        views_upto(v, k - 1).push(stmt_view(v[k - 1]))
    }
}

/// The views of a list of statements.
pub open spec fn stmts_view(v: Seq<Stmt>) -> Seq<StmtV> {
    views_upto(v, v.len() as int)
}

proof fn lemma_views_push(v: Seq<Stmt>, x: Stmt)
    ensures
        stmts_view(v.push(x)) == stmts_view(v).push(stmt_view(x)),
{
    lemma_views_prefix(v, x, v.len() as int);
    assert(v.push(x)[v.len() as int] == x);
}

proof fn lemma_views_prefix(v: Seq<Stmt>, x: Stmt, k: int)
    requires
        0 <= k <= v.len(),
    ensures
        views_upto(v.push(x), k) == views_upto(v, k),
    decreases k,
{
    if k > 0 {
        lemma_views_prefix(v, x, k - 1);
        assert(v.push(x)[k - 1] == v[k - 1]);
    }
}

/// The error at token `i`: that token is unexpected, or the tokens ended.
pub open spec fn error_at(toks: Seq<Token>, i: int) -> ParseError {
    if 0 <= i < toks.len() {
        ParseError::UnexpectedToken(i as usize)
    } else {
        ParseError::UnexpectedEnd
    }
}

/// The punctuation `p` at token `i`: the next index.
pub open spec fn expect_spec(toks: Seq<Token>, i: int, p: Punct) -> Result<int, ParseError> {
    if 0 <= i < toks.len() && is_punct(toks[i], p) {
        Ok(i + 1)
    } else {
        Err(error_at(toks, i))
    }
}

/// A bound of a range at token `i`: `true` for `0`, `false` for `n`.
pub open spec fn bound_spec(toks: Seq<Token>, i: int) -> Result<bool, ParseError> {
    if 0 <= i < toks.len() {
        match toks[i] {
            Token::Number(v) => if v == 0 { Ok(true) } else { Err(error_at(toks, i)) },
            Token::Identifier(name) => if name@ == seq!['n'] { Ok(false) } else { Err(error_at(toks, i)) },
            _ => Err(error_at(toks, i)),
        }
    } else {
        Err(error_at(toks, i))
    }
}

/// A term at token `i`: a number, a literal, a variable or a label.
pub open spec fn term_spec(toks: Seq<Token>, i: int) -> Result<ExprV, ParseError> {
    if 0 <= i < toks.len() {
        match toks[i] {
            Token::Number(v) => Ok(ExprV::Number(v)),
            Token::String(s) => Ok(ExprV::Str(s@)),
            Token::Identifier(n) => Ok(ExprV::Var(n@)),
            Token::Label(n) => Ok(ExprV::Label(n@)),
            _ => Err(ParseError::UnexpectedToken(i as usize)),
        }
    } else {
        Err(ParseError::UnexpectedEnd)
    }
}

/// The comparison that a token stands for.
pub open spec fn comparison(t: Token, l: ExprV, r: ExprV) -> Option<ExprV> {
    match t {
        Token::LessEqual => Some(ExprV::LessEqual(Box::new(l), Box::new(r))),
        Token::Less => Some(ExprV::Less(Box::new(l), Box::new(r))),
        Token::Equal => Some(ExprV::Equal(Box::new(l), Box::new(r))),
        Token::NotEqual => Some(ExprV::NotEqual(Box::new(l), Box::new(r))),
        _ => None,
    }
}

/// The comparisons after `acc` from token `i`, left-associated.
pub open spec fn expr_tail(toks: Seq<Token>, i: int, acc: ExprV) -> Result<(ExprV, int), ParseError>
    decreases toks.len() - i,
{
    if i < 0 || i >= toks.len() {
        Ok((acc, i))
    } else {
        match comparison(toks[i], acc, acc) {
            None => Ok((acc, i)),
            Some(_) => match term_spec(toks, i + 1) {
                Err(e) => Err(e),
                Ok(r) => expr_tail(toks, i + 2, comparison(toks[i], acc, r)->0),
            },
        }
    }
}

/// An expression at token `i`, and the index after it.
pub open spec fn expr_spec(toks: Seq<Token>, i: int) -> Result<(ExprV, int), ParseError> {
    match term_spec(toks, i) {
        Err(e) => Err(e),
        Ok(t) => expr_tail(toks, i + 1, t),
    }
}

/// The statements up to a closing brace from token `i`, and the index after
/// the brace.
pub open spec fn block_spec(toks: Seq<Token>, i: int) -> Result<(Seq<StmtV>, int), ParseError>
    decreases toks.len() - i, 1int,
{
    if 0 <= i < toks.len() && toks[i] is RightBrace {
        Ok((Seq::empty(), i + 1))
    } else if i < 0 || i >= toks.len() {
        Err(ParseError::UnexpectedEnd)
    } else {
        match stmt_spec(toks, i) {
            Err(e) => Err(e),
            Ok((st, j)) => if i < j <= toks.len() {
                match block_spec(toks, j) {
                    Err(e) => Err(e),
                    Ok((rest, k)) => Ok((seq![st] + rest, k)),
                }
            } else {
                Err(ParseError::UnexpectedEnd)
            },
        }
    }
}

/// The statement at token `i`, and the index after it. A `for` ranges over
/// `0..n` (first to last) or `n..0` (last to first); any other range is an
/// error at the `for`.
pub open spec fn stmt_spec(toks: Seq<Token>, i: int) -> Result<(StmtV, int), ParseError>
    decreases toks.len() - i, 0int,
{
    if i < 0 || i >= toks.len() {
        Err(ParseError::UnexpectedEnd)
    } else {
        match toks[i] {
            Token::Print => match expect_spec(toks, i + 1, Punct::LeftParen) {
                Err(e) => Err(e),
                Ok(j) => match expr_spec(toks, j) {
                    Err(e) => Err(e),
                    Ok((e, k)) => match expect_spec(toks, k, Punct::RightParen) {
                        Err(err) => Err(err),
                        Ok(m) => Ok((StmtV::Print(e), m)),
                    },
                },
            },
            Token::For => if i + 1 < toks.len() && toks[i + 1] is Identifier {
                let name = toks[i + 1]->Identifier_0@;
                match expect_spec(toks, i + 2, Punct::In) {
                    Err(e) => Err(e),
                    Ok(j) => match bound_spec(toks, j) {
                        Err(e) => Err(e),
                        Ok(zero_first) => match expect_spec(toks, j + 1, Punct::DotDot) {
                            Err(e) => Err(e),
                            Ok(k) => match bound_spec(toks, k) {
                                Err(e) => Err(e),
                                Ok(zero_last) => match expect_spec(toks, k + 1, Punct::LeftBrace) {
                                    Err(e) => Err(e),
                                    Ok(m) => if m > i {
                                        match block_spec(toks, m) {
                                            Err(e) => Err(e),
                                            Ok((body, q)) => if zero_first && !zero_last {
                                                Ok((StmtV::For(name, false, body), q))
                                            } else if !zero_first && zero_last {
                                                Ok((StmtV::For(name, true, body), q))
                                            } else {
                                                Err(ParseError::InvalidRange(i as usize))
                                            },
                                        }
                                    } else {
                                        Err(ParseError::UnexpectedEnd)
                                    },
                                },
                            },
                        },
                    },
                }
            } else {
                Err(error_at(toks, i + 1))
            },
            Token::If => match expr_spec(toks, i + 1) {
                Err(e) => Err(e),
                Ok((c, j)) => match expect_spec(toks, j, Punct::LeftBrace) {
                    Err(e) => Err(e),
                    Ok(k) => if k > i {
                        match block_spec(toks, k) {
                            Err(e) => Err(e),
                            Ok((then_branch, m)) => if 0 <= m < toks.len() && toks[m] is Else {
                                match expect_spec(toks, m + 1, Punct::LeftBrace) {
                                    Err(e) => Err(e),
                                    Ok(q) => if q > i {
                                        match block_spec(toks, q) {
                                            Err(e) => Err(e),
                                            Ok((else_branch, z)) => Ok((StmtV::If(c, then_branch, else_branch), z)),
                                        }
                                    } else {
                                        Err(ParseError::UnexpectedEnd)
                                    },
                                }
                            } else {
                                Ok((StmtV::If(c, then_branch, Seq::empty()), m))
                            },
                        }
                    } else {
                        Err(ParseError::UnexpectedEnd)
                    },
                },
            },
            _ => Err(ParseError::UnexpectedToken(i as usize)),
        }
    }
}

/// The statements of the tokens from index `i` to the end.
pub open spec fn program_spec(toks: Seq<Token>, i: int) -> Result<Seq<StmtV>, ParseError>
    decreases toks.len() - i,
{
    if i < 0 || i >= toks.len() {
        Ok(Seq::empty())
    } else {
        match stmt_spec(toks, i) {
            Err(e) => Err(e),
            Ok((st, j)) => if i < j <= toks.len() {
                match program_spec(toks, j) {
                    Err(e) => Err(e),
                    Ok(rest) => Ok(seq![st] + rest),
                }
            } else {
                Err(ParseError::UnexpectedEnd)
            },
        }
    }
}

/// A parser over a sequence of tokens.
pub struct Parser {
    tokens: Vec<Token>,
    current: usize,
}

impl Parser {
    /// The tokens.
    pub closed spec fn tokens(&self) -> Seq<Token> {
        self.tokens@
    }

    /// The index of the next token.
    pub closed spec fn position(&self) -> nat {
        self.current as nat
    }

    /// A parser at the first of the tokens.
    pub fn new(tokens: Vec<Token>) -> (r: Self)
        ensures
            r.tokens() == tokens@,
            r.position() == 0,
    {
        Parser { tokens, current: 0 }
    }

    /// The statements of the tokens from the current one to the end.
    pub fn parse(&mut self) -> (r: Result<Vec<Stmt>, ParseError>)
        requires
            old(self).position() <= old(self).tokens().len(),
        ensures
            final(self).tokens() == old(self).tokens(),
            match r {
                Ok(stmts) => program_spec(old(self).tokens(), old(self).position() as int)
                    == Ok::<Seq<StmtV>, ParseError>(stmts_view(stmts@)),
                Err(e) => program_spec(old(self).tokens(), old(self).position() as int) == Err::<Seq<StmtV>, ParseError>(e),
            },
    {
        let ghost toks = self.tokens@;
        let ghost start = self.current as int;
        let mut stmts: Vec<Stmt> = Vec::new();
        while self.current < self.tokens.len()
            invariant
                self.tokens@ == toks,
                toks == old(self).tokens@,
                start == old(self).current,
                self.current <= toks.len(),
                program_spec(toks, start) == match program_spec(toks, self.current as int) {
                    Ok(rest) => Ok(stmts_view(stmts@) + rest),
                    Err(e) => Err::<Seq<StmtV>, ParseError>(e),
                },
            decreases toks.len() - self.current,
        {
            let ghost before = stmts@;
            let stmt = match self.statement() {
                Ok(x) => x,
                Err(e) => return Err(e),
            };
            let ghost sv = stmt_view(stmt);
            stmts.push(stmt);
            proof {
                lemma_views_push(before, stmts@.last());
                assert(stmts@ == before.push(stmts@.last()));
                match program_spec(toks, self.current as int) {
                    Ok(rest) => assert(stmts_view(before) + (seq![sv] + rest) =~= stmts_view(before).push(sv) + rest),
                    Err(_) => {},
                }
            }
        }
        assert(stmts_view(stmts@) + Seq::<StmtV>::empty() =~= stmts_view(stmts@));
        Ok(stmts)
    }

    fn statement(&mut self) -> (r: Result<Stmt, ParseError>)
        requires
            old(self).current <= old(self).tokens@.len(),
        ensures
            final(self).tokens@ == old(self).tokens@,
            final(self).current <= final(self).tokens@.len(),
            r is Ok ==> final(self).current > old(self).current,
            match r {
                Ok(x) => stmt_spec(old(self).tokens@, old(self).current as int)
                    == Ok::<(StmtV, int), ParseError>((stmt_view(x), final(self).current as int)),
                Err(e) => stmt_spec(old(self).tokens@, old(self).current as int) == Err::<(StmtV, int), ParseError>(e),
            },
        decreases old(self).tokens@.len() - old(self).current,
    {
        let start = self.current;
        if self.current >= self.tokens.len() {
            return Err(ParseError::UnexpectedEnd);
        }
        match &self.tokens[self.current] {
            Token::Print => {
                self.current = self.current + 1;
                self.expect(Punct::LeftParen)?;
                let expr = self.expression()?;
                self.expect(Punct::RightParen)?;
                Ok(Stmt::Print(expr))
            },
            Token::For => {
                self.current = self.current + 1;
                let var = match self.peek_identifier() {
                    Some(name) => {
                        self.current = self.current + 1;
                        name
                    },
                    None => return Err(self.error_here()),
                };
                self.expect(Punct::In)?;
                let range_start = self.expect_start_token()?;
                self.expect(Punct::DotDot)?;
                let range_end = self.expect_end_token()?;
                self.expect(Punct::LeftBrace)?;
                let body = self.block(start)?;
                match (range_start, range_end) {
                    (Expr::Number(0), Expr::Var(_)) => Ok(Stmt::For(var, false, body)),
                    (Expr::Var(_), Expr::Number(0)) => Ok(Stmt::For(var, true, body)),
                    _ => Err(ParseError::InvalidRange(start)),
                }
            },
            Token::If => self.if_statement(),
            _ => Err(ParseError::UnexpectedToken(self.current)),
        }
    }

    /// The statements up to the closing brace, which is consumed.
    fn block(&mut self, start: usize) -> (r: Result<Vec<Stmt>, ParseError>)
        requires
            start < old(self).current <= old(self).tokens@.len(),
        ensures
            final(self).tokens@ == old(self).tokens@,
            final(self).current <= final(self).tokens@.len(),
            r is Ok ==> final(self).current > old(self).current,
            match r {
                Ok(v) => block_spec(old(self).tokens@, old(self).current as int)
                    == Ok::<(Seq<StmtV>, int), ParseError>((stmts_view(v@), final(self).current as int)),
                Err(e) => block_spec(old(self).tokens@, old(self).current as int) == Err::<(Seq<StmtV>, int), ParseError>(e),
            },
        decreases old(self).tokens@.len() - start, 0nat,
    {
        let ghost toks = self.tokens@;
        let entry = self.current;
        let mut body: Vec<Stmt> = Vec::new();
        while !self.check(Punct::RightBrace)
            invariant
                self.tokens@ == toks,
                toks == old(self).tokens@,
                entry == old(self).current,
                start < entry <= self.current <= toks.len(),
                block_spec(toks, entry as int) == match block_spec(toks, self.current as int) {
                    Ok((rest, k)) => Ok((stmts_view(body@) + rest, k)),
                    Err(e) => Err::<(Seq<StmtV>, int), ParseError>(e),
                },
            decreases toks.len() - self.current,
        {
            if self.current >= self.tokens.len() {
                return Err(ParseError::UnexpectedEnd);
            }
            let ghost before = body@;
            let stmt = match self.statement() {
                Ok(x) => x,
                Err(e) => return Err(e),
            };
            let ghost sv = stmt_view(stmt);
            body.push(stmt);
            proof {
                lemma_views_push(before, body@.last());
                assert(body@ == before.push(body@.last()));
                match block_spec(toks, self.current as int) {
                    Ok((rest, k)) => assert(stmts_view(before) + (seq![sv] + rest) =~= stmts_view(before).push(sv) + rest),
                    Err(_) => {},
                }
            }
        }
        self.expect(Punct::RightBrace)?;
        assert(stmts_view(body@) + Seq::<StmtV>::empty() =~= stmts_view(body@));
        Ok(body)
    }

    fn if_statement(&mut self) -> (r: Result<Stmt, ParseError>)
        requires
            old(self).current < old(self).tokens@.len(),
            old(self).tokens@[old(self).current as int] is If,
        ensures
            final(self).tokens@ == old(self).tokens@,
            final(self).current <= final(self).tokens@.len(),
            r is Ok ==> final(self).current > old(self).current,
            match r {
                Ok(x) => stmt_spec(old(self).tokens@, old(self).current as int)
                    == Ok::<(StmtV, int), ParseError>((stmt_view(x), final(self).current as int)),
                Err(e) => stmt_spec(old(self).tokens@, old(self).current as int) == Err::<(StmtV, int), ParseError>(e),
            },
        decreases old(self).tokens@.len() - old(self).current, 1nat,
    {
        let start = self.current;
        let ghost toks = self.tokens@;
        let _len = self.tokens.len();
        self.current = self.current + 1;
        let condition = self.expression()?;
        let ghost j = self.current as int;
        self.expect(Punct::LeftBrace)?;
        let ghost k = self.current as int;
        let then_branch = self.block(start)?;
        let ghost m = self.current as int;
        let ghost then_view = stmts_view(then_branch@);
        assert(expr_spec(toks, start + 1) == Ok::<(ExprV, int), ParseError>((expr_view(condition), j)));
        assert(block_spec(toks, k) == Ok::<(Seq<StmtV>, int), ParseError>((then_view, m)));
        let mut else_branch: Vec<Stmt> = Vec::new();
        if self.check(Punct::Else) {
            let _len = self.tokens.len();
            self.current = self.current + 1;
            self.expect(Punct::LeftBrace)?;
            let ghost q = self.current as int;
            else_branch = self.block(start)?;
            assert(block_spec(toks, q) == Ok::<(Seq<StmtV>, int), ParseError>((stmts_view(else_branch@), self.current as int)));
        } else {
            assert(stmts_view(else_branch@) =~= Seq::<StmtV>::empty());
        }
        Ok(Stmt::If(condition, then_branch, else_branch))
    }

    fn expression(&mut self) -> (r: Result<Expr, ParseError>)
        requires
            old(self).current <= old(self).tokens@.len(),
        ensures
            final(self).tokens@ == old(self).tokens@,
            final(self).current <= final(self).tokens@.len(),
            r is Ok ==> final(self).current > old(self).current,
            match r {
                Ok(e) => expr_spec(old(self).tokens@, old(self).current as int)
                    == Ok::<(ExprV, int), ParseError>((expr_view(e), final(self).current as int)),
                Err(e) => expr_spec(old(self).tokens@, old(self).current as int) == Err::<(ExprV, int), ParseError>(e),
            },
    {
        let ghost toks = self.tokens@;
        let ghost start = self.current as int;
        let mut expr = self.term()?;
        while self.current < self.tokens.len() && self.comparison_next() < 4
            invariant
                self.tokens@ == toks,
                toks == old(self).tokens@,
                start == old(self).current,
                start < self.current <= toks.len(),
                expr_spec(toks, start) == expr_tail(toks, self.current as int, expr_view(expr)),
            decreases toks.len() - self.current,
        {
            let op = self.comparison_next();
            let ghost at = self.current as int;
            self.current = self.current + 1;
            let right = Box::new(self.term()?);
            let left = Box::new(expr);
            expr = if op == 0 {
                Expr::LessEqual(left, right)
            } else if op == 1 {
                Expr::Less(left, right)
            } else if op == 2 {
                Expr::Equal(left, right)
            } else {
                Expr::NotEqual(left, right)
            };
            assert(Some(expr_view(expr)) == comparison(toks[at], expr_view(*left), expr_view(*right)));
        }
        Ok(expr)
    }

    /// The comparison that the next token stands for: 0 to 3 for `<=`, `<`,
    /// `==`, `!=`; 4 for any other token.
    fn comparison_next(&self) -> (r: u8)
        requires
            self.current < self.tokens@.len(),
        ensures
            r <= 4,
            (r < 4) == (comparison(self.tokens@[self.current as int], ExprV::Number(0), ExprV::Number(0)) is Some),
            r == 0 ==> self.tokens@[self.current as int] is LessEqual,
            r == 1 ==> self.tokens@[self.current as int] is Less,
            r == 2 ==> self.tokens@[self.current as int] is Equal,
            r == 3 ==> self.tokens@[self.current as int] is NotEqual,
    {
        match &self.tokens[self.current] {
            Token::LessEqual => 0,
            Token::Less => 1,
            Token::Equal => 2,
            Token::NotEqual => 3,
            _ => 4,
        }
    }

    fn term(&mut self) -> (r: Result<Expr, ParseError>)
        requires
            old(self).current <= old(self).tokens@.len(),
        ensures
            final(self).tokens@ == old(self).tokens@,
            final(self).current <= final(self).tokens@.len(),
            r is Ok ==> final(self).current == old(self).current + 1,
            match r {
                Ok(e) => term_spec(old(self).tokens@, old(self).current as int) == Ok::<ExprV, ParseError>(expr_view(e)),
                Err(e) => term_spec(old(self).tokens@, old(self).current as int) == Err::<ExprV, ParseError>(e),
            },
    {
        if self.current >= self.tokens.len() {
            return Err(ParseError::UnexpectedEnd);
        }
        let t = match &self.tokens[self.current] {
            Token::Number(v) => Expr::Number(*v),
            Token::String(s) => Expr::Str(s.clone()),
            Token::Identifier(name) => Expr::Var(name.clone()),
            Token::Label(name) => Expr::Label(name.clone()),
            _ => return Err(ParseError::UnexpectedToken(self.current)),
        };
        self.current = self.current + 1;
        Ok(t)
    }

    fn peek_identifier(&self) -> (r: Option<String>)
        ensures
            match r {
                Some(n) => self.current < self.tokens@.len() && self.tokens@[self.current as int] == Token::Identifier(n),
                None => !(self.current < self.tokens@.len() && self.tokens@[self.current as int] is Identifier),
            },
    {
        match self.peek() {
            Some(Token::Identifier(name)) => Some(name.clone()),
            _ => None,
        }
    }

    fn error_here(&self) -> (r: ParseError)
        ensures
            r == error_at(self.tokens@, self.current as int),
    {
        if self.current < self.tokens.len() {
            ParseError::UnexpectedToken(self.current)
        } else {
            ParseError::UnexpectedEnd
        }
    }

    /// The next token, if any.
    fn peek(&self) -> (r: Option<&Token>)
        ensures
            match r {
                Some(t) => self.current < self.tokens@.len() && *t == self.tokens@[self.current as int],
                None => self.current >= self.tokens@.len(),
            },
    {
        if self.current < self.tokens.len() {
            Some(&self.tokens[self.current])
        } else {
            None
        }
    }

    /// Whether the next token is the punctuation `p`.
    fn check(&self, p: Punct) -> (r: bool)
        ensures
            r == (self.current < self.tokens@.len() && is_punct(self.tokens@[self.current as int], p)),
    {
        match self.peek() {
            None => false,
            Some(t) => match (p, t) {
                (Punct::In, Token::In) => true,
                (Punct::Else, Token::Else) => true,
                (Punct::LeftBrace, Token::LeftBrace) => true,
                (Punct::RightBrace, Token::RightBrace) => true,
                (Punct::LeftParen, Token::LeftParen) => true,
                (Punct::RightParen, Token::RightParen) => true,
                (Punct::DotDot, Token::DotDot) => true,
                _ => false,
            },
        }
    }

    /// Consumes the punctuation `p`, or fails.
    fn expect(&mut self, p: Punct) -> (r: Result<(), ParseError>)
        requires
            old(self).current <= old(self).tokens@.len(),
        ensures
            final(self).tokens@ == old(self).tokens@,
            final(self).current <= final(self).tokens@.len(),
            r is Ok ==> final(self).current == old(self).current + 1,
            r is Err ==> final(self).current == old(self).current,
            match r {
                Ok(()) => expect_spec(old(self).tokens@, old(self).current as int, p) == Ok::<int, ParseError>(final(self).current as int),
                Err(e) => expect_spec(old(self).tokens@, old(self).current as int, p) == Err::<int, ParseError>(e),
            },
    {
        if self.check(p) {
            let _len = self.tokens.len();
            self.current = self.current + 1;
            Ok(())
        } else {
            Err(self.error_here())
        }
    }

    fn expect_bound(&mut self) -> (r: Result<Expr, ParseError>)
        requires
            old(self).current <= old(self).tokens@.len(),
        ensures
            final(self).tokens@ == old(self).tokens@,
            final(self).current <= final(self).tokens@.len(),
            r is Ok ==> final(self).current == old(self).current + 1,
            match r {
                Ok(f) => (f == Expr::Number(0) || f is Var)
                    && bound_spec(old(self).tokens@, old(self).current as int) == Ok::<bool, ParseError>(f is Number),
                Err(e) => bound_spec(old(self).tokens@, old(self).current as int) == Err::<bool, ParseError>(e),
            },
    {
        let bound = match self.peek() {
            Some(Token::Number(v)) => {
                if *v == 0 { Expr::Number(0) } else { return Err(self.error_here()) }
            },
            Some(Token::Identifier(name)) => {
                if name.as_str().unicode_len() == 1 && name.as_str().get_char(0) == 'n' {
                    assert(name@ =~= seq!['n']);
                    Expr::Var(name.clone())
                } else {
                    return Err(self.error_here());
                }
            },
            _ => return Err(self.error_here()),
        };
        let _len = self.tokens.len();
        self.current = self.current + 1;
        Ok(bound)
    }

    /// The start of a `for` range: `0` or `n`.
    fn expect_start_token(&mut self) -> (r: Result<Expr, ParseError>)
        requires
            old(self).current <= old(self).tokens@.len(),
        ensures
            final(self).tokens@ == old(self).tokens@,
            final(self).current <= final(self).tokens@.len(),
            r is Ok ==> final(self).current == old(self).current + 1,
            match r {
                Ok(f) => (f == Expr::Number(0) || f is Var)
                    && bound_spec(old(self).tokens@, old(self).current as int) == Ok::<bool, ParseError>(f is Number),
                Err(e) => bound_spec(old(self).tokens@, old(self).current as int) == Err::<bool, ParseError>(e),
            },
    {
        self.expect_bound()
    }

    /// The end of a `for` range: `0` or `n`.
    fn expect_end_token(&mut self) -> (r: Result<Expr, ParseError>)
        requires
            old(self).current <= old(self).tokens@.len(),
        ensures
            final(self).tokens@ == old(self).tokens@,
            final(self).current <= final(self).tokens@.len(),
            r is Ok ==> final(self).current == old(self).current + 1,
            match r {
                Ok(f) => (f == Expr::Number(0) || f is Var)
                    && bound_spec(old(self).tokens@, old(self).current as int) == Ok::<bool, ParseError>(f is Number),
                Err(e) => bound_spec(old(self).tokens@, old(self).current as int) == Err::<bool, ParseError>(e),
            },
    {
        self.expect_bound()
    }
}

/// The value of an expression.
pub enum GVal {
    Num(int),
    Text(Seq<char>),
}

/// Whether `e` is a variable bound in `env`.
pub open spec fn bound_variable(e: Expr, env: Env) -> bool {
    match e {
        Expr::Var(name) => lookup(env, name@) is Some,
        _ => false,
    }
}

/// A label against a string literal, in either order.
pub open spec fn label_and_literal(l: Expr, r: Expr) -> bool {
    (l is Label && r is Str) || (l is Str && r is Label)
}

pub open spec fn gtruth(b: bool) -> GVal {
    GVal::Num(if b { 1 } else { 0 })
}

/// A comparison: of two bound variables, or of a label and a literal (for
/// `==` and `!=` only).
pub open spec fn gcompare(rel: Rel, l: Expr, r: Expr, env: Env, lv: Result<GVal, EvalError>, rv: Result<GVal, EvalError>) -> Result<GVal, EvalError> {
    match lv {
        Err(e) => Err(e),
        Ok(a) => match rv {
            Err(e) => Err(e),
            Ok(b) => match (a, b) {
                (GVal::Num(x), GVal::Num(y)) => if bound_variable(l, env) && bound_variable(r, env) && x >= 0 && y >= 0 {
                    Ok(gtruth(rel_holds(rel, x as nat, y as nat)))
                } else {
                    Err(EvalError::InvalidComparison)
                },
                (GVal::Text(x), GVal::Text(y)) => if label_and_literal(l, r) && rel is Eq {
                    Ok(gtruth(x == y))
                } else if label_and_literal(l, r) && rel is Ne {
                    Ok(gtruth(x != y))
                } else {
                    Err(EvalError::InvalidComparison)
                },
                _ => Err(EvalError::InvalidComparison),
            },
        },
    }
}

/// The value of an expression.
pub open spec fn gvalue(e: Expr, word: Seq<char>, env: Env) -> Result<GVal, EvalError>
    decreases e,
{
    match e {
        Expr::Number(n) => Ok(GVal::Num(n as int)),
        Expr::Str(s) => Ok(GVal::Text(s@)),
        Expr::Var(name) => match lookup(env, name@) {
            Some(p) => if p <= 2147483647 {
                Ok(GVal::Num(p as int))
            } else {
                Err(EvalError::IndexOutOfBounds)
            },
            None => Err(EvalError::UnboundVariable),
        },
        Expr::Label(name) => match letter_at(word, env, name@) {
            Ok(c) => Ok(GVal::Text(seq![c])),
            Err(err) => Err(err),
        },
        Expr::LessEqual(l, r) => gcompare(Rel::Le, *l, *r, env, gvalue(*l, word, env), gvalue(*r, word, env)),
        Expr::Less(l, r) => gcompare(Rel::Lt, *l, *r, env, gvalue(*l, word, env), gvalue(*r, word, env)),
        Expr::Equal(l, r) => gcompare(Rel::Eq, *l, *r, env, gvalue(*l, word, env), gvalue(*r, word, env)),
        Expr::NotEqual(l, r) => gcompare(Rel::Ne, *l, *r, env, gvalue(*l, word, env), gvalue(*r, word, env)),
    }
}

/// The truth value of a guard.
pub open spec fn gholds(e: Expr, word: Seq<char>, env: Env) -> Result<bool, EvalError> {
    match gvalue(e, word, env) {
        Err(err) => Err(err),
        Ok(GVal::Num(n)) => Ok(n != 0),
        Ok(GVal::Text(_)) => Err(EvalError::NotABoolean),
    }
}

/// The output after the first `k` statements of a block, from `out`.
pub open spec fn grun_stmts(stmts: Seq<Stmt>, k: int, word: Seq<char>, env: Env, out: Seq<char>) -> Result<Seq<char>, EvalError>
    decreases stmts, 0int, k,
{
    if k <= 0 || k > stmts.len() {
        Ok(out)
    } else {
        match grun_stmts(stmts, k - 1, word, env, out) {
            Err(e) => Err(e),
            Ok(o) => grun_stmt(stmts[k - 1], word, env, o),
        }
    }
}

/// The output after the first `count` iterations of a loop over `v`.
pub open spec fn grun_loop(body: Seq<Stmt>, v: Seq<char>, ascending: bool, word: Seq<char>, env: Env, out: Seq<char>, count: int) -> Result<Seq<char>, EvalError>
    decreases body, 1int, count,
{
    if count <= 0 || count > word.len() {
        Ok(out)
    } else {
        match grun_loop(body, v, ascending, word, env, out, count - 1) {
            Err(e) => Err(e),
            Ok(o) => grun_stmts(body, body.len() as int,
                word, bind(env, v, iteration_position(ascending, word.len(), (count - 1) as nat)), o),
        }
    }
}

/// The output after one statement, from `out`: a `print` emits its string
/// and a line break.
pub open spec fn grun_stmt(s: Stmt, word: Seq<char>, env: Env, out: Seq<char>) -> Result<Seq<char>, EvalError>
    decreases s, 0int, 0int,
{
    match s {
        Stmt::Print(e) => match gvalue(e, word, env) {
            Ok(GVal::Text(t)) => Ok(out + t + seq!['\n']),
            Ok(GVal::Num(_)) => Err(EvalError::NotAString),
            Err(err) => Err(err),
        },
        Stmt::For(v, descending, body) => grun_loop(body@, v@, !descending, word, env, out, word.len() as int),
        Stmt::If(c, then_branch, else_branch) => match gholds(c, word, env) {
            Err(e) => Err(e),
            Ok(true) => grun_stmts(then_branch@, then_branch@.len() as int, word, env, out),
            Ok(false) => grun_stmts(else_branch@, else_branch@.len() as int, word, env, out),
        },
    }
}

/// The exec value of an expression.
pub enum Value {
    Number(i32),
    Str(String),
}

pub open spec fn gval_of(v: Value) -> GVal {
    match v {
        Value::Number(n) => GVal::Num(n as int),
        Value::Str(s) => GVal::Text(s@),
    }
}

pub open spec fn gresult(r: Result<Value, EvalError>) -> Result<GVal, EvalError> {
    match r {
        Ok(v) => Ok(gval_of(v)),
        Err(e) => Err(e),
    }
}

/// Runs programs on one input word.
pub struct Interpreter {
    /// The bound loop variables, innermost first.
    variables: Vec<(String, usize)>,
    word: String,
    n: usize,
}

impl Interpreter {
    pub closed spec fn same_state(a: Interpreter, b: Interpreter) -> bool {
        a.variables@ == b.variables@ && a.word == b.word && a.n == b.n
    }

    pub closed spec fn input(&self) -> Seq<char> {
        self.word@
    }

    pub closed spec fn well_formed(&self) -> bool {
        &&& self.n == self.word@.len()
        &&& self.variables@.len() == 0
    }

    /// An interpreter for `word`, with no variable bound.
    pub fn new(word: &str) -> (r: Self)
        ensures
            r.input() == word@,
            r.well_formed(),
    {
        let n = word.unicode_len();
        Self { variables: Vec::new(), word: String::from_str(word), n }
    }

    /// The output of the program on the word: each printed string followed
    /// by a line break.
    pub fn interpret(&mut self, stmts: Vec<Stmt>) -> (r: Result<String, EvalError>)
        requires
            old(self).well_formed(),
        ensures
            final(self).well_formed(),
            final(self).input() == old(self).input(),
            match r {
                Ok(s) => grun_stmts(stmts@, stmts@.len() as int, old(self).input(), Seq::empty(), Seq::empty())
                    == Ok::<Seq<char>, EvalError>(s@),
                Err(e) => grun_stmts(stmts@, stmts@.len() as int, old(self).input(), Seq::empty(), Seq::empty())
                    == Err::<Seq<char>, EvalError>(e),
            },
    {
        let mut out = String::new();
        assert(env_of(self.variables@) =~= Seq::<(Seq<char>, usize)>::empty());
        match self.execute_block(&stmts, &mut out) {
            Ok(()) => Ok(out),
            Err(e) => Err(e),
        }
    }

    fn execute_block(&mut self, stmts: &Vec<Stmt>, out: &mut String) -> (r: Result<(), EvalError>)
        requires
            old(self).n == old(self).word@.len(),
        ensures
            Self::same_state(*final(self), *old(self)),
            match r {
                Ok(()) => grun_stmts(stmts@, stmts@.len() as int, old(self).word@, env_of(old(self).variables@), old(out)@)
                    == Ok::<Seq<char>, EvalError>(final(out)@),
                Err(e) => grun_stmts(stmts@, stmts@.len() as int, old(self).word@, env_of(old(self).variables@), old(out)@)
                    == Err::<Seq<char>, EvalError>(e),
            },
        decreases stmts, 0int, stmts@.len(),
    {
        let ghost env = env_of(self.variables@);
        let mut i: usize = 0;
        while i < stmts.len()
            invariant
                i <= stmts@.len(),
                Self::same_state(*self, *old(self)),
                self.n == self.word@.len(),
                env == env_of(self.variables@),
                grun_stmts(stmts@, i as int, self.word@, env, old(out)@) == Ok::<Seq<char>, EvalError>(out@),
            decreases stmts@.len() - i,
        {
            match self.execute(&stmts[i], out) {
                Err(e) => {
                    proof {
                        lemma_grun_error_extends(stmts@, self.word@, env, old(out)@, i as int + 1);
                    }
                    return Err(e);
                },
                Ok(()) => {},
            }
            i = i + 1;
        }
        Ok(())
    }

    fn execute(&mut self, stmt: &Stmt, out: &mut String) -> (r: Result<(), EvalError>)
        requires
            old(self).n == old(self).word@.len(),
        ensures
            Self::same_state(*final(self), *old(self)),
            match r {
                Ok(()) => grun_stmt(*stmt, old(self).word@, env_of(old(self).variables@), old(out)@)
                    == Ok::<Seq<char>, EvalError>(final(out)@),
                Err(e) => grun_stmt(*stmt, old(self).word@, env_of(old(self).variables@), old(out)@)
                    == Err::<Seq<char>, EvalError>(e),
            },
        decreases stmt, 0int, 0int,
    {
        match stmt {
            Stmt::Print(expr) => {
                match self.evaluate_expr(expr) {
                    Err(e) => Err(e),
                    Ok(Value::Number(_)) => Err(EvalError::NotAString),
                    Ok(Value::Str(s)) => {
                        let ghost before = out@;
                        push_str(out, s.as_str());
                        out.push('\n');
                        assert(out@ =~= before + s@ + seq!['\n']);
                        Ok(())
                    },
                }
            },
            Stmt::For(var, descending, body) => self.run_loop(var, body, !*descending, out),
            Stmt::If(condition, then_branch, else_branch) => {
                match self.evaluate_condition(condition) {
                    Err(e) => Err(e),
                    Ok(true) => self.execute_block(then_branch, out),
                    Ok(false) => self.execute_block(else_branch, out),
                }
            },
        }
    }

    fn run_loop(&mut self, var: &String, body: &Vec<Stmt>, ascending: bool, out: &mut String) -> (r: Result<(), EvalError>)
        requires
            old(self).n == old(self).word@.len(),
        ensures
            Self::same_state(*final(self), *old(self)),
            match r {
                Ok(()) => grun_loop(body@, var@, ascending, old(self).word@, env_of(old(self).variables@), old(out)@, old(self).word@.len() as int)
                    == Ok::<Seq<char>, EvalError>(final(out)@),
                Err(e) => grun_loop(body@, var@, ascending, old(self).word@, env_of(old(self).variables@), old(out)@, old(self).word@.len() as int)
                    == Err::<Seq<char>, EvalError>(e),
            },
        decreases body, 1int, 0int,
    {
        let ghost env = env_of(self.variables@);
        let n = self.n;
        let mut i: usize = 0;
        while i < n
            invariant
                i <= n,
                n == self.word@.len(),
                Self::same_state(*self, *old(self)),
                self.n == self.word@.len(),
                env == env_of(self.variables@),
                grun_loop(body@, var@, ascending, self.word@, env, old(out)@, i as int) == Ok::<Seq<char>, EvalError>(out@),
            decreases n - i,
        {
            let p = if ascending { i } else { n - 1 - i };
            let ghost saved = self.variables@;
            self.variables.insert(0, (var.clone(), p));
            assert(env_of(self.variables@) =~= bind(env, var@, p));
            let res = self.execute_block(body, out);
            self.variables.remove(0);
            assert(self.variables@ =~= saved);
            match res {
                Err(e) => {
                    proof {
                        lemma_gloop_error_extends(body@, var@, ascending, self.word@, env, old(out)@, i as int + 1);
                    }
                    return Err(e);
                },
                Ok(()) => {},
            }
            i = i + 1;
        }
        Ok(())
    }

    fn lookup(&self, name: &str) -> (r: Option<usize>)
        ensures
            r == lookup(env_of(self.variables@), name@),
    {
        let ghost env = env_of(self.variables@);
        let mut i: usize = 0;
        assert(env.subrange(0, env.len() as int) =~= env);
        while i < self.variables.len()
            invariant
                i <= self.variables@.len(),
                env == env_of(self.variables@),
                lookup(env, name@) == lookup(env.subrange(i as int, env.len() as int), name@),
            decreases self.variables@.len() - i,
        {
            assert(env.subrange(i as int, env.len() as int).drop_first() =~= env.subrange(i + 1, env.len() as int));
            if str_eq(self.variables[i].0.as_str(), name) {
                return Some(self.variables[i].1);
            }
            i = i + 1;
        }
        None
    }

    /// Whether `expr` is a variable bound to a position.
    fn is_variable(&self, expr: &Expr) -> (r: bool)
        ensures
            r == bound_variable(*expr, env_of(self.variables@)),
    {
        match expr {
            Expr::Var(name) => self.lookup(name.as_str()).is_some(),
            _ => false,
        }
    }

    /// Whether `expr` is a label expression.
    fn is_label(&self, expr: &Expr) -> (r: bool)
        ensures
            r == (*expr is Label),
    {
        match expr {
            Expr::Label(_) => true,
            _ => false,
        }
    }

    /// Whether `expr` is a string literal.
    fn is_literal(&self, expr: &Expr) -> (r: bool)
        ensures
            r == (*expr is Str),
    {
        match expr {
            Expr::Str(_) => true,
            _ => false,
        }
    }

    fn compare(&self, rel: Rel, l: &Expr, r: &Expr, lv: Value, rv: Value) -> (v: Result<Value, EvalError>)
        ensures
            gresult(v) == gcompare(rel, *l, *r, env_of(self.variables@), Ok(gval_of(lv)), Ok(gval_of(rv))),
    {
        match (lv, rv) {
            (Value::Number(x), Value::Number(y)) => {
                if self.is_variable(l) && self.is_variable(r) && x >= 0 && y >= 0 {
                    let b = match rel {
                        Rel::Le => x <= y,
                        Rel::Lt => x < y,
                        Rel::Eq => x == y,
                        Rel::Ne => x != y,
                        Rel::Ge => x >= y,
                        Rel::Gt => x > y,
                    };
                    Ok(Value::Number(if b { 1 } else { 0 }))
                } else {
                    Err(EvalError::InvalidComparison)
                }
            },
            (Value::Str(x), Value::Str(y)) => {
                let admitted = (self.is_label(l) && self.is_literal(r)) || (self.is_literal(l) && self.is_label(r));
                if !admitted {
                    Err(EvalError::InvalidComparison)
                } else {
                    match rel {
                        Rel::Eq => Ok(Value::Number(if str_eq(x.as_str(), y.as_str()) { 1 } else { 0 })),
                        Rel::Ne => Ok(Value::Number(if str_eq(x.as_str(), y.as_str()) { 0 } else { 1 })),
                        _ => Err(EvalError::InvalidComparison),
                    }
                }
            },
            _ => Err(EvalError::InvalidComparison),
        }
    }

    fn evaluate_expr(&self, expr: &Expr) -> (v: Result<Value, EvalError>)
        ensures
            gresult(v) == gvalue(*expr, self.word@, env_of(self.variables@)),
        decreases expr,
    {
        match expr {
            Expr::Number(n) => Ok(Value::Number(*n)),
            Expr::Str(s) => Ok(Value::Str(s.clone())),
            Expr::Var(name) => match self.lookup(name.as_str()) {
                Some(p) => {
                    if p <= 2147483647 {
                        Ok(Value::Number(p as i32))
                    } else {
                        Err(EvalError::IndexOutOfBounds)
                    }
                },
                None => Err(EvalError::UnboundVariable),
            },
            Expr::Label(name) => {
                let evaluator = Evaluator { variables: self.copy_variables(), word: self.word.clone() };
                match evaluator.letter(name.as_str()) {
                    Ok(c) => Ok(Value::Str(char_string(c))),
                    Err(e) => Err(e),
                }
            },
            Expr::LessEqual(l, r) => {
                let lv = match self.evaluate_expr(l) { Err(e) => return Err(e), Ok(v) => v };
                let rv = match self.evaluate_expr(r) { Err(e) => return Err(e), Ok(v) => v };
                self.compare(Rel::Le, l, r, lv, rv)
            },
            Expr::Less(l, r) => {
                let lv = match self.evaluate_expr(l) { Err(e) => return Err(e), Ok(v) => v };
                let rv = match self.evaluate_expr(r) { Err(e) => return Err(e), Ok(v) => v };
                self.compare(Rel::Lt, l, r, lv, rv)
            },
            Expr::Equal(l, r) => {
                let lv = match self.evaluate_expr(l) { Err(e) => return Err(e), Ok(v) => v };
                let rv = match self.evaluate_expr(r) { Err(e) => return Err(e), Ok(v) => v };
                self.compare(Rel::Eq, l, r, lv, rv)
            },
            Expr::NotEqual(l, r) => {
                let lv = match self.evaluate_expr(l) { Err(e) => return Err(e), Ok(v) => v };
                let rv = match self.evaluate_expr(r) { Err(e) => return Err(e), Ok(v) => v };
                self.compare(Rel::Ne, l, r, lv, rv)
            },
        }
    }

    fn copy_variables(&self) -> (r: Vec<(String, usize)>)
        ensures
            env_of(r@) == env_of(self.variables@),
    {
        let mut r: Vec<(String, usize)> = Vec::new();
        let mut i: usize = 0;
        while i < self.variables.len()
            invariant
                i <= self.variables@.len(),
                env_of(r@) == env_of(self.variables@.subrange(0, i as int)),
            decreases self.variables@.len() - i,
        {
            let ghost prev = r@;
            r.push((self.variables[i].0.clone(), self.variables[i].1));
            assert(env_of(r@) =~= env_of(prev).push((self.variables@[i as int].0@, self.variables@[i as int].1)));
            assert(self.variables@.subrange(0, i + 1) =~= self.variables@.subrange(0, i as int).push(self.variables@[i as int]));
            assert(env_of(self.variables@.subrange(0, i + 1)) =~= env_of(self.variables@.subrange(0, i as int)).push((self.variables@[i as int].0@, self.variables@[i as int].1)));
            i = i + 1;
        }
        assert(self.variables@.subrange(0, i as int) =~= self.variables@);
        r
    }

    fn evaluate_condition(&self, expr: &Expr) -> (r: Result<bool, EvalError>)
        ensures
            r == gholds(*expr, self.word@, env_of(self.variables@)),
    {
        match self.evaluate_expr(expr) {
            Err(e) => Err(e),
            Ok(Value::Number(n)) => Ok(n != 0),
            Ok(Value::Str(_)) => Err(EvalError::NotABoolean),
        }
    }
}

proof fn lemma_grun_error_extends(stmts: Seq<Stmt>, word: Seq<char>, env: Env, out: Seq<char>, k: int)
    requires
        0 <= k <= stmts.len(),
        grun_stmts(stmts, k, word, env, out) is Err,
    ensures
        grun_stmts(stmts, stmts.len() as int, word, env, out) == grun_stmts(stmts, k, word, env, out),
    decreases stmts.len() - k,
{
    if k < stmts.len() {
        lemma_grun_error_extends(stmts, word, env, out, k + 1);
    }
}

proof fn lemma_gloop_error_extends(body: Seq<Stmt>, v: Seq<char>, ascending: bool, word: Seq<char>, env: Env, out: Seq<char>, k: int)
    requires
        0 <= k <= word.len(),
        grun_loop(body, v, ascending, word, env, out, k) is Err,
    ensures
        grun_loop(body, v, ascending, word, env, out, word.len() as int) == grun_loop(body, v, ascending, word, env, out, k),
    decreases word.len() - k,
{
    if k < word.len() {
        lemma_gloop_error_extends(body, v, ascending, word, env, out, k + 1);
    }
}

} // verus!
