//! A first language of counted loops: `for i in a..b { print(...) }`, with
//! its lexer, parser and interpreter.
use vstd::prelude::*;
use crate::text::{chars_of, decimal, push_decimal, push_str, string_of};
use crate::lexer::{digit, digits_end, first_of, is_digit, is_letter, letter, number_spec, read_number, scan, scan_end, starts_with, starts_with_at};

verus! {

/// A statement.
#[derive(Debug, PartialEq)]
pub enum Stmt {
    /// Prints the value of the expression.
    Print(Expr),
    /// Runs the body once for each number of the range `start..end`.
    For(String, i32, i32, Vec<Stmt>),
}

/// An expression.
#[derive(Debug, Clone, PartialEq)]
pub enum Expr {
    Number(i32),
    Var(String),
    Str(String),
}

/// A token.
#[derive(Debug, Clone, PartialEq)]
pub enum Token {
    For,
    In,
    Print,
    Identifier(String),
    Number(i32),
    String(String),
    LeftBrace,
    RightBrace,
    LeftParen,
    RightParen,
    DotDot,
}

/// Why a text is no sequence of tokens.
#[derive(Debug, Clone, Copy, PartialEq, Eq, Structural)]
pub enum LexError {
    /// A character that starts no token, at this index.
    UnexpectedCharacter(usize),
    /// A string literal without its closing quote.
    UnterminatedString,
    /// A number too large for `i32`.
    NumberTooLarge,
}

/// Why a sequence of tokens is no program.
#[derive(Debug, Clone, Copy, PartialEq, Eq, Structural)]
pub enum ParseError {
    /// An unexpected token, at this index.
    UnexpectedToken(usize),
    /// The tokens end inside a statement.
    UnexpectedEnd,
}

/// The decimal notation of an integer, with a leading `-` when negative.
pub open spec fn int_text(n: int) -> Seq<char> {
    if n < 0 {
        seq!['-'] + decimal((-n) as nat)
    } else {
        decimal(n as nat)
    }
}

/// Whether no `print` of the program prints a variable.
pub open spec fn prints_no_variable(stmts: Seq<Stmt>, k: int) -> bool
    decreases stmts, 0int, k,
{
    if k <= 0 || k > stmts.len() {
        true
    } else {
        prints_no_variable(stmts, k - 1) && stmt_prints_no_variable(stmts[k - 1])
    }
}

pub open spec fn stmt_prints_no_variable(s: Stmt) -> bool
    decreases s, 0int, 0int,
{
    match s {
        Stmt::Print(e) => !(e is Var),
        Stmt::For(_, _, _, body) => prints_no_variable(body@, body@.len() as int),
    }
}

/// What a `print` prints.
pub open spec fn expr_text(e: Expr) -> Seq<char> {
    match e {
        Expr::Number(n) => int_text(n as int),
        Expr::Str(s) => s@,
        Expr::Var(_) => Seq::empty(),
    }
}

/// The output of the first `k` statements.
pub open spec fn output_of(stmts: Seq<Stmt>, k: int) -> Seq<char>
    decreases stmts, 0int, k,
{
    if k <= 0 || k > stmts.len() {
        Seq::empty()
    } else {
        output_of(stmts, k - 1) + stmt_output(stmts[k - 1])
    }
}

/// The output of the first `count` runs of a loop body.
pub open spec fn repeated_output(body: Seq<Stmt>, count: int) -> Seq<char>
    decreases body, 1int, count,
{
    if count <= 0 {
        Seq::empty()
    } else {
        repeated_output(body, count - 1) + output_of(body, body.len() as int)
    }
}

/// The output of one statement.
pub open spec fn stmt_output(s: Stmt) -> Seq<char>
    decreases s, 0int, 0int,
{
    match s {
        Stmt::Print(e) => expr_text(e),
        Stmt::For(_, start, end, body) => repeated_output(body@, end - start),
    }
}

/// Runs programs of counted loops.
pub struct Interpreter;

fn push_int(s: &mut String, n: i32)
    ensures
        final(s)@ == old(s)@ + int_text(n as int),
{
    if n < 0 {
        s.push('-');
        let m: i64 = -(n as i64);
        push_decimal(s, m as usize);
        assert(final(s)@ =~= old(s)@ + int_text(n as int));
    } else {
        push_decimal(s, n as usize);
    }
}

impl Interpreter {
    pub fn new() -> Self {
        Interpreter
    }

    /// The text that the program prints: the printed values one after the
    /// other.
    pub fn interpret(&mut self, stmts: Vec<Stmt>) -> (r: String)
        requires
            prints_no_variable(stmts@, stmts@.len() as int),
        ensures
            r@ == output_of(stmts@, stmts@.len() as int),
    {
        let mut out = String::new();
        Self::execute_block(&stmts, &mut out);
        assert(out@ =~= output_of(stmts@, stmts@.len() as int));
        out
    }

    fn execute_block(stmts: &Vec<Stmt>, out: &mut String)
        requires
            prints_no_variable(stmts@, stmts@.len() as int),
        ensures
            final(out)@ == old(out)@ + output_of(stmts@, stmts@.len() as int),
        decreases stmts, 0int, stmts@.len(),
    {
        let mut i: usize = 0;
        while i < stmts.len()
            invariant
                i <= stmts@.len(),
                prints_no_variable(stmts@, stmts@.len() as int),
                out@ == old(out)@ + output_of(stmts@, i as int),
            decreases stmts@.len() - i,
        {
            proof {
                lemma_prefix_prints_no_variable(stmts@, stmts@.len() as int, i as int + 1);
            }
            Self::execute(&stmts[i], out);
            i = i + 1;
        }
    }

    fn execute(stmt: &Stmt, out: &mut String)
        requires
            stmt_prints_no_variable(*stmt),
        ensures
            final(out)@ == old(out)@ + stmt_output(*stmt),
        decreases stmt, 0int, 0int,
    {
        match stmt {
            Stmt::Print(expr) => {
                assert(stmt_output(*stmt) == expr_text(*expr));
                Self::evaluate(expr, out);
            },
            Stmt::For(_, start, end, body) => {
                let total: i64 = (*end as i64) - (*start as i64);
                Self::run_loop(body, total, out);
            },
        }
    }

    fn run_loop(body: &Vec<Stmt>, total: i64, out: &mut String)
        requires
            prints_no_variable(body@, body@.len() as int),
        ensures
            final(out)@ == old(out)@ + repeated_output(body@, total as int),
        decreases body, 1int, 0int,
    {
        let mut count: i64 = 0;
        while count < total
            invariant
                prints_no_variable(body@, body@.len() as int),
                0 <= count,
                total > 0 ==> count <= total,
                total <= 0 ==> count == 0,
                out@ == old(out)@ + repeated_output(body@, count as int),
            decreases total - count,
        {
            Self::execute_block(body, out);
            count = count + 1;
        }
        if total <= 0 {
            assert(count == 0);
            assert(repeated_output(body@, total as int) == repeated_output(body@, 0));
        }
    }

    fn evaluate(expr: &Expr, out: &mut String)
        requires
            !(expr is Var),
        ensures
            final(out)@ == old(out)@ + expr_text(*expr),
    {
        match expr {
            Expr::Number(n) => push_int(out, *n),
            Expr::Str(s) => push_str(out, s.as_str()),
            Expr::Var(_) => {},
        }
    }
}

proof fn lemma_prefix_prints_no_variable(stmts: Seq<Stmt>, k: int, j: int)
    requires
        0 < j <= k <= stmts.len(),
        prints_no_variable(stmts, k),
    ensures
        prints_no_variable(stmts, j),
        stmt_prints_no_variable(stmts[j - 1]),
    decreases k - j,
{
    if j < k {
        lemma_prefix_prints_no_variable(stmts, k - 1, j);
    }
}

/// The mathematical content of a token.
pub enum TokenV {
    For,
    In,
    Print,
    Identifier(Seq<char>),
    Number(i32),
    String(Seq<char>),
    LeftBrace,
    RightBrace,
    LeftParen,
    RightParen,
    DotDot,
}

pub open spec fn token_view(t: Token) -> TokenV {
    match t {
        Token::For => TokenV::For,
        Token::In => TokenV::In,
        Token::Print => TokenV::Print,
        Token::Identifier(s) => TokenV::Identifier(s@),
        Token::Number(n) => TokenV::Number(n),
        Token::String(s) => TokenV::String(s@),
        Token::LeftBrace => TokenV::LeftBrace,
        Token::RightBrace => TokenV::RightBrace,
        Token::LeftParen => TokenV::LeftParen,
        Token::RightParen => TokenV::RightParen,
        Token::DotDot => TokenV::DotDot,
    }
}

pub open spec fn tokens_view(v: Seq<Token>) -> Seq<TokenV> {
    v.map_values(|t: Token| token_view(t))
}

/// `p` in front of the tokens of `r`.
pub open spec fn emit(p: Seq<TokenV>, r: Result<Seq<TokenV>, LexError>) -> Result<Seq<TokenV>, LexError> {
    match r {
        Ok(t) => Ok(p + t),
        Err(e) => Err(e),
    }
}

/// The tokens of `cs[i ..]`: white space skipped, the keywords `for`,
/// `in`, `print` wherever their letters start, braces, parentheses, `..`,
/// string literals, numbers and identifiers.
pub open spec fn lex_from(cs: Seq<char>, i: int) -> Result<Seq<TokenV>, LexError>
    decreases cs.len() - i,
{
    if i < 0 || i >= cs.len() {
        Ok(Seq::empty())
    } else {
        let ch = cs[i];
        let n = cs.len() as int;
        if ch == ' ' || ch == '\n' || ch == '\t' || ch == '\r' {
            lex_from(cs, i + 1)
        } else if ch == 'f' && starts_with_at(cs, i, seq!['f', 'o', 'r']) {
            emit(seq![TokenV::For], lex_from(cs, i + 3))
        } else if ch == 'i' && starts_with_at(cs, i, seq!['i', 'n']) {
            emit(seq![TokenV::In], lex_from(cs, i + 2))
        } else if ch == 'p' && starts_with_at(cs, i, seq!['p', 'r', 'i', 'n', 't']) {
            emit(seq![TokenV::Print], lex_from(cs, i + 5))
        } else if ch == '{' {
            emit(seq![TokenV::LeftBrace], lex_from(cs, i + 1))
        } else if ch == '}' {
            emit(seq![TokenV::RightBrace], lex_from(cs, i + 1))
        } else if ch == '(' {
            emit(seq![TokenV::LeftParen], lex_from(cs, i + 1))
        } else if ch == ')' {
            emit(seq![TokenV::RightParen], lex_from(cs, i + 1))
        } else if ch == '.' {
            if i + 1 < n && cs[i + 1] == '.' {
                emit(seq![TokenV::DotDot], lex_from(cs, i + 2))
            } else {
                Err(LexError::UnexpectedCharacter(i as usize))
            }
        } else if ch == '"' {
            let j = first_of(cs, i + 1, n, '"');
            if j >= n || j <= i {
                Err(LexError::UnterminatedString)
            } else {
                emit(seq![TokenV::String(cs.subrange(i + 1, j))], lex_from(cs, j + 1))
            }
        } else if is_digit(ch) {
            let k = digits_end(cs, i, n);
            if k <= i || k > n {
                Err(LexError::NumberTooLarge)
            } else {
                match number_spec(cs, i, k) {
                    None => Err(LexError::NumberTooLarge),
                    Some(v) => emit(seq![TokenV::Number(v)], lex_from(cs, k)),
                }
            }
        } else if is_letter(ch) {
            let j = scan_end(cs, i, false, false);
            if j <= i || j > n {
                Err(LexError::UnexpectedCharacter(i as usize))
            } else {
                emit(seq![TokenV::Identifier(cs.subrange(i, j))], lex_from(cs, j))
            }
        } else {
            Err(LexError::UnexpectedCharacter(i as usize))
        }
    }
}

/// The tokens of a text.
pub open spec fn lex_spec(cs: Seq<char>) -> Result<Seq<TokenV>, LexError> {
    lex_from(cs, 0)
}

proof fn lemma_emit_append(a: Seq<TokenV>, b: Seq<TokenV>, r: Result<Seq<TokenV>, LexError>)
    ensures
        emit(a, emit(b, r)) == emit(a + b, r),
{
    match r {
        Ok(t) => assert(a + (b + t) =~= (a + b) + t),
        Err(_) => {},
    }
}

/// The tokens of a program text, as `lex_spec` gives them.
#[verifier::spinoff_prover]
pub fn tokenize(input: &str) -> (r: Result<Vec<Token>, LexError>)
    ensures
        match r {
            Ok(tokens) => lex_spec(input@) == Ok::<Seq<TokenV>, LexError>(tokens_view(tokens@)),
            Err(e) => lex_spec(input@) == Err::<Seq<TokenV>, LexError>(e),
        },
{
    let cs = chars_of(input);
    let n = cs.len();
    let mut tokens: Vec<Token> = Vec::new();
    let mut i: usize = 0;
    assert(tokens_view(tokens@) =~= Seq::<TokenV>::empty());
    proof {
        match lex_spec(input@) {
            Ok(t) => assert(Seq::<TokenV>::empty() + t =~= t),
            Err(_) => {},
        }
    }
    while i < n
        invariant
            n == cs@.len(),
            cs@ == input@,
            i <= n,
            lex_spec(cs@) == emit(tokens_view(tokens@), lex_from(cs@, i as int)),
        decreases n - i,
    {
        proof {
            reveal_strlit("for");
            reveal_strlit("in");
            reveal_strlit("print");
            assert("for"@ =~= seq!['f', 'o', 'r']);
            assert("in"@ =~= seq!['i', 'n']);
            assert("print"@ =~= seq!['p', 'r', 'i', 'n', 't']);
        }
        let ghost pre = tokens@;
        let ghost pre_i = i as int;
        let ch = cs[i];
        if ch == ' ' || ch == '\n' || ch == '\t' || ch == '\r' {
            i = i + 1;
        } else if ch == 'f' && starts_with(&cs, i, "for") {
            tokens.push(Token::For);
            i = i + 3;
        } else if ch == 'i' && starts_with(&cs, i, "in") {
            tokens.push(Token::In);
            i = i + 2;
        } else if ch == 'p' && starts_with(&cs, i, "print") {
            tokens.push(Token::Print);
            i = i + 5;
        } else if ch == '{' {
            tokens.push(Token::LeftBrace);
            i = i + 1;
        } else if ch == '}' {
            tokens.push(Token::RightBrace);
            i = i + 1;
        } else if ch == '(' {
            tokens.push(Token::LeftParen);
            i = i + 1;
        } else if ch == ')' {
            tokens.push(Token::RightParen);
            i = i + 1;
        } else if ch == '.' {
            if i + 1 < n && cs[i + 1] == '.' {
                tokens.push(Token::DotDot);
                i = i + 2;
            } else {
                return Err(LexError::UnexpectedCharacter(i));
            }
        } else if ch == '"' {
            let mut j = i + 1;
            while j < n && cs[j] != '"'
                invariant
                    i < j <= n,
                    n == cs@.len(),
                    first_of(cs@, i + 1, n as int, '"') == first_of(cs@, j as int, n as int, '"'),
                decreases n - j,
            {
                j = j + 1;
            }
            if j >= n {
                return Err(LexError::UnterminatedString);
            }
            let text = string_of(&cs.as_slice()[i + 1..j]);
            assert(text@ =~= cs@.subrange(i + 1, j as int));
            tokens.push(Token::String(text));
            i = j + 1;
        } else if digit(ch) {
            let mut k = i;
            while k < n && digit(cs[k])
                invariant
                    i <= k <= n,
                    n == cs@.len(),
                    digits_end(cs@, i as int, n as int) == digits_end(cs@, k as int, n as int),
                decreases n - k,
            {
                k = k + 1;
            }
            match read_number(&cs, i, k) {
                Some(v) => tokens.push(Token::Number(v)),
                None => return Err(LexError::NumberTooLarge),
            }
            i = k;
        } else if letter(ch) {
            let j = scan(&cs, i, false, false);
            let ident = string_of(&cs.as_slice()[i..j]);
            assert(ident@ =~= cs@.subrange(i as int, j as int));
            tokens.push(Token::Identifier(ident));
            i = j;
        } else {
            return Err(LexError::UnexpectedCharacter(i));
        }
        proof {
            let added = tokens@.subrange(pre.len() as int, tokens@.len() as int);
            assert(tokens@ =~= pre + added);
            if added.len() == 1 {
                assert(tokens_view(added) =~= seq![token_view(added[0])]);
            } else if added.len() == 0 {
                assert(tokens_view(added) =~= Seq::<TokenV>::empty());
            }
            assert(tokens_view(tokens@) =~= tokens_view(pre) + tokens_view(added));
            assert(lex_from(cs@, pre_i) == emit(tokens_view(added), lex_from(cs@, i as int)));
            lemma_emit_append(tokens_view(pre), tokens_view(added), lex_from(cs@, i as int));
        }
    }
    proof {
        match lex_from(cs@, i as int) {
            Ok(t) => assert(tokens_view(tokens@) + t =~= tokens_view(tokens@)),
            Err(_) => {},
        }
    }
    Ok(tokens)
}

/// The mathematical content of an `Expr`.
pub enum ExprV {
    Number(i32),
    Var(Seq<char>),
    Str(Seq<char>),
}

pub open spec fn expr_view(e: Expr) -> ExprV {
    match e {
        Expr::Number(n) => ExprV::Number(n),
        Expr::Var(s) => ExprV::Var(s@),
        Expr::Str(s) => ExprV::Str(s@),
    }
}

/// The mathematical content of a `Stmt`.
pub enum StmtV {
    Print(ExprV),
    For(Seq<char>, i32, i32, Seq<StmtV>),
}

/// The view of a statement.
pub open spec fn stmt_view(s: Stmt) -> StmtV
    decreases s, 0int, 0int,
{
    match s {
        Stmt::Print(e) => StmtV::Print(expr_view(e)),
        Stmt::For(v, a, b, body) => StmtV::For(v@, a, b, views_upto(body@, body@.len() as int)),
    }
}

/// The views of the first `k` statements.
pub open spec fn views_upto(v: Seq<Stmt>, k: int) -> Seq<StmtV>
    decreases v, 0int, k,
{
    if k <= 0 || k > v.len() {
        Seq::empty()
    } else {
        views_upto(v, k - 1).push(stmt_view(v[k - 1]))
    }
}

/// The views of a list of statements.
pub open spec fn stmts_view(v: Seq<Stmt>) -> Seq<StmtV> {
    views_upto(v, v.len() as int)
}

proof fn lemma_views_prefix(v: Seq<Stmt>, x: Stmt, k: int)
    requires
        0 <= k <= v.len(),
    ensures
        views_upto(v.push(x), k) == views_upto(v, k),
    decreases k,
{
    if k > 0 {
        lemma_views_prefix(v, x, k - 1);
        assert(v.push(x)[k - 1] == v[k - 1]);
    }
}

proof fn lemma_views_push(v: Seq<Stmt>, x: Stmt)
    ensures
        stmts_view(v.push(x)) == stmts_view(v).push(stmt_view(x)),
{
    lemma_views_prefix(v, x, v.len() as int);
    assert(v.push(x)[v.len() as int] == x);
}

/// The tokens without payload that the parser expects.
#[derive(Debug, Clone, Copy, PartialEq, Eq, Structural)]
pub enum Punct {
    In,
    LeftParen,
    RightParen,
    LeftBrace,
    DotDot,
}

pub open spec fn is_punct(t: Token, p: Punct) -> bool {
    match p {
        Punct::In => t is In,
        Punct::LeftParen => t is LeftParen,
        Punct::RightParen => t is RightParen,
        Punct::LeftBrace => t is LeftBrace,
        Punct::DotDot => t is DotDot,
    }
}

/// The error at token `i`: that token is unexpected, or the tokens ended.
pub open spec fn error_at(toks: Seq<Token>, i: int) -> ParseError {
    if 0 <= i < toks.len() {
        ParseError::UnexpectedToken(i as usize)
    } else {
        ParseError::UnexpectedEnd
    }
}

/// The punctuation `p` at token `i`: the next index.
pub open spec fn expect_spec(toks: Seq<Token>, i: int, p: Punct) -> Result<int, ParseError> {
    if 0 <= i < toks.len() && is_punct(toks[i], p) {
        Ok(i + 1)
    } else {
        Err(error_at(toks, i))
    }
}

/// A number at token `i`.
pub open spec fn number_token(toks: Seq<Token>, i: int) -> Result<i32, ParseError> {
    if 0 <= i < toks.len() && toks[i] is Number {
        Ok(toks[i]->Number_0)
    } else {
        Err(error_at(toks, i))
    }
}

/// A printed expression at token `i`: a number or a variable.
pub open spec fn expr_spec(toks: Seq<Token>, i: int) -> Result<ExprV, ParseError> {
    if 0 <= i < toks.len() {
        match toks[i] {
            Token::Number(v) => Ok(ExprV::Number(v)),
            Token::Identifier(n) => Ok(ExprV::Var(n@)),
            _ => Err(error_at(toks, i)),
        }
    } else {
        Err(error_at(toks, i))
    }
}

/// The statements up to a closing brace from token `i`, and the index after
/// the brace.
pub open spec fn block_spec(toks: Seq<Token>, i: int) -> Result<(Seq<StmtV>, int), ParseError>
    decreases toks.len() - i, 1int,
{
    if 0 <= i < toks.len() && toks[i] is RightBrace {
        Ok((Seq::empty(), i + 1))
    } else if i < 0 || i >= toks.len() {
        Err(ParseError::UnexpectedEnd)
    } else {
        match stmt_spec(toks, i) {
            Err(e) => Err(e),
            Ok((st, j)) => if i < j <= toks.len() {
                match block_spec(toks, j) {
                    Err(e) => Err(e),
                    Ok((rest, k)) => Ok((seq![st] + rest, k)),
                }
            } else {
                Err(ParseError::UnexpectedEnd)
            },
        }
    }
}

/// The statement at token `i`, and the index after it.
pub open spec fn stmt_spec(toks: Seq<Token>, i: int) -> Result<(StmtV, int), ParseError>
    decreases toks.len() - i, 0int,
{
    if i < 0 || i >= toks.len() {
        Err(ParseError::UnexpectedEnd)
    } else {
        match toks[i] {
            Token::Print => match expect_spec(toks, i + 1, Punct::LeftParen) {
                Err(e) => Err(e),
                Ok(j) => match expr_spec(toks, j) {
                    Err(e) => Err(e),
                    Ok(e) => match expect_spec(toks, j + 1, Punct::RightParen) {
                        Err(err) => Err(err),
                        Ok(m) => Ok((StmtV::Print(e), m)),
                    },
                },
            },
            Token::For => if i + 1 < toks.len() && toks[i + 1] is Identifier {
                let name = toks[i + 1]->Identifier_0@;
                match expect_spec(toks, i + 2, Punct::In) {
                    Err(e) => Err(e),
                    Ok(j) => match number_token(toks, j) {
                        Err(e) => Err(e),
                        Ok(first) => match expect_spec(toks, j + 1, Punct::DotDot) {
                            Err(e) => Err(e),
                            Ok(k) => match number_token(toks, k) {
                                Err(e) => Err(e),
                                Ok(last) => match expect_spec(toks, k + 1, Punct::LeftBrace) {
                                    Err(e) => Err(e),
                                    Ok(m) => if m > i {
                                        match block_spec(toks, m) {
                                            Err(e) => Err(e),
                                            Ok((body, q)) => Ok((StmtV::For(name, first, last, body), q)),
                                        }
                                    } else {
                                        Err(ParseError::UnexpectedEnd)
                                    },
                                },
                            },
                        },
                    },
                }
            } else {
                Err(error_at(toks, i + 1))
            },
            _ => Err(ParseError::UnexpectedToken(i as usize)),
        }
    }
}

/// The statements of the tokens from index `i` to the end.
pub open spec fn program_spec(toks: Seq<Token>, i: int) -> Result<Seq<StmtV>, ParseError>
    decreases toks.len() - i,
{
    if i < 0 || i >= toks.len() {
        Ok(Seq::empty())
    } else {
        match stmt_spec(toks, i) {
            Err(e) => Err(e),
            Ok((st, j)) => if i < j <= toks.len() {
                match program_spec(toks, j) {
                    Err(e) => Err(e),
                    Ok(rest) => Ok(seq![st] + rest),
                }
            } else {
                Err(ParseError::UnexpectedEnd)
            },
        }
    }
}

/// A parser over a sequence of tokens.
pub struct Parser {
    tokens: Vec<Token>,
    current: usize,
}

impl Parser {
    /// The tokens.
    pub closed spec fn tokens(&self) -> Seq<Token> {
        self.tokens@
    }

    /// The index of the next token.
    pub closed spec fn position(&self) -> nat {
        self.current as nat
    }

    /// A parser at the first of the tokens.
    pub fn new(tokens: Vec<Token>) -> (r: Self)
        ensures
            r.tokens() == tokens@,
            r.position() == 0,
    {
        Parser { tokens, current: 0 }
    }

    /// The statements of the tokens from the current one to the end.
    pub fn parse(&mut self) -> (r: Result<Vec<Stmt>, ParseError>)
        requires
            old(self).position() <= old(self).tokens().len(),
        ensures
            final(self).tokens() == old(self).tokens(),
            match r {
                Ok(stmts) => program_spec(old(self).tokens(), old(self).position() as int)
                    == Ok::<Seq<StmtV>, ParseError>(stmts_view(stmts@)),
                Err(e) => program_spec(old(self).tokens(), old(self).position() as int) == Err::<Seq<StmtV>, ParseError>(e),
            },
    {
        let ghost toks = self.tokens@;
        let ghost start = self.current as int;
        let mut stmts: Vec<Stmt> = Vec::new();
        while self.current < self.tokens.len()
            invariant
                self.tokens@ == toks,
                toks == old(self).tokens@,
                start == old(self).current,
                self.current <= toks.len(),
                program_spec(toks, start) == match program_spec(toks, self.current as int) {
                    Ok(rest) => Ok(stmts_view(stmts@) + rest),
                    Err(e) => Err::<Seq<StmtV>, ParseError>(e),
                },
            decreases toks.len() - self.current,
        {
            let ghost before = stmts@;
            let stmt = match self.statement() {
                Ok(x) => x,
                Err(e) => return Err(e),
            };
            let ghost sv = stmt_view(stmt);
            stmts.push(stmt);
            proof {
                lemma_views_push(before, stmts@.last());
                assert(stmts@ == before.push(stmts@.last()));
                match program_spec(toks, self.current as int) {
                    Ok(rest) => assert(stmts_view(before) + (seq![sv] + rest) =~= stmts_view(before).push(sv) + rest),
                    Err(_) => {},
                }
            }
        }
        assert(stmts_view(stmts@) + Seq::<StmtV>::empty() =~= stmts_view(stmts@));
        Ok(stmts)
    }

    fn statement(&mut self) -> (r: Result<Stmt, ParseError>)
        requires
            old(self).current <= old(self).tokens@.len(),
        ensures
            final(self).tokens@ == old(self).tokens@,
            final(self).current <= final(self).tokens@.len(),
            r is Ok ==> final(self).current > old(self).current,
            match r {
                Ok(x) => stmt_spec(old(self).tokens@, old(self).current as int)
                    == Ok::<(StmtV, int), ParseError>((stmt_view(x), final(self).current as int)),
                Err(e) => stmt_spec(old(self).tokens@, old(self).current as int) == Err::<(StmtV, int), ParseError>(e),
            },
        decreases old(self).tokens@.len() - old(self).current,
    {
        let start = self.current;
        if self.current >= self.tokens.len() {
            return Err(ParseError::UnexpectedEnd);
        }
        match &self.tokens[self.current] {
            Token::Print => {
                self.current = self.current + 1;
                self.expect(Punct::LeftParen)?;
                let expr = self.expression()?;
                self.expect(Punct::RightParen)?;
                Ok(Stmt::Print(expr))
            },
            Token::For => {
                self.current = self.current + 1;
                let var = match self.peek() {
                    Some(Token::Identifier(name)) => name.clone(),
                    _ => return Err(self.error_here()),
                };
                let _len = self.tokens.len();
                self.current = self.current + 1;
                self.expect(Punct::In)?;
                let range_start = self.expect_number()?;
                self.expect(Punct::DotDot)?;
                let range_end = self.expect_number()?;
                self.expect(Punct::LeftBrace)?;
                let body = self.block(start)?;
                Ok(Stmt::For(var, range_start, range_end, body))
            },
            _ => Err(ParseError::UnexpectedToken(self.current)),
        }
    }

    /// The statements up to the closing brace, which is consumed.
    fn block(&mut self, start: usize) -> (r: Result<Vec<Stmt>, ParseError>)
        requires
            start < old(self).current <= old(self).tokens@.len(),
        ensures
            final(self).tokens@ == old(self).tokens@,
            final(self).current <= final(self).tokens@.len(),
            r is Ok ==> final(self).current > old(self).current,
            match r {
                Ok(v) => block_spec(old(self).tokens@, old(self).current as int)
                    == Ok::<(Seq<StmtV>, int), ParseError>((stmts_view(v@), final(self).current as int)),
                Err(e) => block_spec(old(self).tokens@, old(self).current as int) == Err::<(Seq<StmtV>, int), ParseError>(e),
            },
        decreases old(self).tokens@.len() - start, 0nat,
    {
        let ghost toks = self.tokens@;
        let entry = self.current;
        let mut body: Vec<Stmt> = Vec::new();
        while !self.matches_right_brace()
            invariant
                self.tokens@ == toks,
                toks == old(self).tokens@,
                entry == old(self).current,
                start < entry <= self.current <= toks.len(),
                block_spec(toks, entry as int) == match block_spec(toks, self.current as int) {
                    Ok((rest, k)) => Ok((stmts_view(body@) + rest, k)),
                    Err(e) => Err::<(Seq<StmtV>, int), ParseError>(e),
                },
            decreases toks.len() - self.current,
        {
            if self.current >= self.tokens.len() {
                return Err(ParseError::UnexpectedEnd);
            }
            let ghost before = body@;
            let stmt = match self.statement() {
                Ok(x) => x,
                Err(e) => return Err(e),
            };
            let ghost sv = stmt_view(stmt);
            body.push(stmt);
            proof {
                lemma_views_push(before, body@.last());
                assert(body@ == before.push(body@.last()));
                match block_spec(toks, self.current as int) {
                    Ok((rest, k)) => assert(stmts_view(before) + (seq![sv] + rest) =~= stmts_view(before).push(sv) + rest),
                    Err(_) => {},
                }
            }
        }
        assert(stmts_view(body@) + Seq::<StmtV>::empty() =~= stmts_view(body@));
        Ok(body)
    }

    fn expression(&mut self) -> (r: Result<Expr, ParseError>)
        requires
            old(self).current <= old(self).tokens@.len(),
        ensures
            final(self).tokens@ == old(self).tokens@,
            final(self).current <= final(self).tokens@.len(),
            r is Ok ==> final(self).current == old(self).current + 1,
            match r {
                Ok(e) => expr_spec(old(self).tokens@, old(self).current as int) == Ok::<ExprV, ParseError>(expr_view(e)),
                Err(e) => expr_spec(old(self).tokens@, old(self).current as int) == Err::<ExprV, ParseError>(e),
            },
    {
        let e = match self.peek() {
            Some(Token::Number(v)) => Expr::Number(*v),
            Some(Token::Identifier(name)) => Expr::Var(name.clone()),
            _ => return Err(self.error_here()),
        };
        let _len = self.tokens.len();
        self.current = self.current + 1;
        Ok(e)
    }

    fn error_here(&self) -> (r: ParseError)
        ensures
            r == error_at(self.tokens@, self.current as int),
    {
        if self.current < self.tokens.len() {
            ParseError::UnexpectedToken(self.current)
        } else {
            ParseError::UnexpectedEnd
        }
    }

    /// Consumes the punctuation `p`, or fails.
    fn expect(&mut self, p: Punct) -> (r: Result<(), ParseError>)
        requires
            old(self).current <= old(self).tokens@.len(),
        ensures
            final(self).tokens@ == old(self).tokens@,
            final(self).current <= final(self).tokens@.len(),
            r is Ok ==> final(self).current == old(self).current + 1,
            match r {
                Ok(()) => expect_spec(old(self).tokens@, old(self).current as int, p) == Ok::<int, ParseError>(final(self).current as int),
                Err(e) => expect_spec(old(self).tokens@, old(self).current as int, p) == Err::<int, ParseError>(e),
            },
    {
        let ok = match (p, self.peek()) {
            (Punct::In, Some(Token::In)) => true,
            (Punct::LeftParen, Some(Token::LeftParen)) => true,
            (Punct::RightParen, Some(Token::RightParen)) => true,
            (Punct::LeftBrace, Some(Token::LeftBrace)) => true,
            (Punct::DotDot, Some(Token::DotDot)) => true,
            _ => false,
        };
        if ok {
            let _len = self.tokens.len();
            self.current = self.current + 1;
            Ok(())
        } else {
            Err(self.error_here())
        }
    }

    /// The number of the next token, which is consumed.
    fn expect_number(&mut self) -> (r: Result<i32, ParseError>)
        requires
            old(self).current <= old(self).tokens@.len(),
        ensures
            final(self).tokens@ == old(self).tokens@,
            final(self).current <= final(self).tokens@.len(),
            r is Ok ==> final(self).current == old(self).current + 1,
            match r {
                Ok(v) => number_token(old(self).tokens@, old(self).current as int) == Ok::<i32, ParseError>(v),
                Err(e) => number_token(old(self).tokens@, old(self).current as int) == Err::<i32, ParseError>(e),
            },
    {
        let v = match self.peek() {
            Some(Token::Number(v)) => *v,
            _ => return Err(self.error_here()),
        };
        let _len = self.tokens.len();
        self.current = self.current + 1;
        Ok(v)
    }

    /// Consumes a closing brace if it is next.
    fn matches_right_brace(&mut self) -> (r: bool)
        requires
            old(self).current <= old(self).tokens@.len(),
        ensures
            final(self).tokens@ == old(self).tokens@,
            final(self).current <= final(self).tokens@.len(),
            r == (old(self).current < old(self).tokens@.len() && old(self).tokens@[old(self).current as int] is RightBrace),
            r ==> final(self).current == old(self).current + 1,
            !r ==> final(self).current == old(self).current,
    {
        let found = match self.peek() { Some(Token::RightBrace) => true, _ => false };
        if found {
            let _len = self.tokens.len();
            self.current = self.current + 1;
        }
        found
    }

    /// The next token, if any.
    fn peek(&self) -> (r: Option<&Token>)
        ensures
            match r {
                Some(t) => self.current < self.tokens@.len() && *t == self.tokens@[self.current as int],
                None => self.current >= self.tokens@.len(),
            },
    {
        if self.current < self.tokens.len() {
            Some(&self.tokens[self.current])
        } else {
            None
        }
    }
}

} // verus!
