//! The lexer of the print-transducer language. Loop variables are renamed
//! apart as they are introduced: the `k`-th `for` variable (or unknown
//! identifier) becomes `X<k>`, and later uses follow the innermost renaming.
use vstd::prelude::*;
use crate::text::{chars_of, decimal, push_decimal, str_eq, string_of};

verus! {

/// A token.
#[derive(Debug, Clone, PartialEq)]
pub enum Token {
    For,
    In,
    Print,
    If,
    Else,
    Identifier(String),
    Number(i32),
    String(String),
    LeftBrace,
    RightBrace,
    LeftParen,
    RightParen,
    DotDot,
    LessEqual,
    Less,
    Equal,
    NotEqual,
    Greater,
    GreaterEqual,
    Label(String),
}

/// Why a text is no sequence of tokens.
#[derive(Debug, Clone, Copy, PartialEq, Eq, Structural)]
pub enum LexError {
    /// A character that starts or continues no token, at this index.
    UnexpectedCharacter(usize),
    /// A string literal without its closing quote.
    UnterminatedString,
    /// A number that is missing or too large for `i32`.
    InvalidNumber,
}

/// Whether `cs[i ..]` starts with `word`.
pub open spec fn starts_with_at(cs: Seq<char>, i: int, word: Seq<char>) -> bool {
    i + word.len() <= cs.len() && cs.subrange(i, i + word.len()) == word
}

pub(crate) fn starts_with(cs: &Vec<char>, i: usize, word: &str) -> (r: bool)
    requires
        i <= cs@.len(),
    ensures
        r == starts_with_at(cs@, i as int, word@),
{
    let w = chars_of(word);
    if w.len() > cs.len() - i {
        return false;
    }
    let mut k: usize = 0;
    while k < w.len()
        invariant
            i + w@.len() <= cs@.len(),
            cs@.len() == cs.len(),
            w@ == word@,
            k <= w@.len(),
            forall|j: int| 0 <= j < k ==> cs@[i + j] == w@[j],
        decreases w@.len() - k,
    {
        if cs[i + k] != w[k] {
            assert(cs@.subrange(i as int, i + w@.len())[k as int] != w@[k as int]);
            return false;
        }
        k = k + 1;
    }
    assert(cs@.subrange(i as int, i + w@.len()) =~= w@);
    true
}

/// Whether `c` is an ASCII letter.
pub open spec fn is_letter(c: char) -> bool {
    ('a' <= c && c <= 'z') || ('A' <= c && c <= 'Z')
}

/// Whether `c` is an ASCII digit.
pub open spec fn is_digit(c: char) -> bool {
    '0' <= c && c <= '9'
}

pub(crate) fn letter(c: char) -> (r: bool)
    ensures
        r == is_letter(c),
{
    ('a' <= c && c <= 'z') || ('A' <= c && c <= 'Z')
}

pub(crate) fn digit(c: char) -> (r: bool)
    ensures
        r == is_digit(c),
{
    '0' <= c && c <= '9'
}

/// The value of the decimal digits `cs[i .. k]`.
pub open spec fn digits_value(cs: Seq<char>, i: int, k: int) -> int
    decreases k - i,
{
    if k <= i {
        0
    } else {
        digits_value(cs, i, k - 1) * 10 + (cs[k - 1] as int - '0' as int)
    }
}

/// The number that `cs[i .. j]` spells: it is non-empty, all digits, and
/// fits in `i32`.
pub open spec fn number_spec(cs: Seq<char>, i: int, j: int) -> Option<i32> {
    if i < j && (forall|k: int| i <= k < j ==> is_digit(#[trigger] cs[k])) && digits_value(cs, i, j) <= 2147483647 {
        Some(digits_value(cs, i, j) as i32)
    } else {
        None
    }
}

proof fn lemma_digits_grow(cs: Seq<char>, i: int, k: int, m: int)
    requires
        i <= k <= m,
        forall|q: int| i <= q < m ==> is_digit(#[trigger] cs[q]),
    ensures
        0 <= digits_value(cs, i, k) <= digits_value(cs, i, m),
    decreases m - k,
{
    if k < m {
        lemma_digits_grow(cs, i, k, m - 1);
        assert(is_digit(cs[m - 1]));
        let v = digits_value(cs, i, m - 1);
        assert(v * 10 >= v) by (nonlinear_arith) requires v >= 0;
    } else {
        lemma_digits_nonneg(cs, i, k);
    }
}

proof fn lemma_digits_nonneg(cs: Seq<char>, i: int, k: int)
    requires
        forall|q: int| i <= q < k ==> is_digit(#[trigger] cs[q]),
    ensures
        digits_value(cs, i, k) >= 0,
    decreases k - i,
{
    if k > i {
        lemma_digits_nonneg(cs, i, k - 1);
        assert(is_digit(cs[k - 1]));
        let v = digits_value(cs, i, k - 1);
        assert(v * 10 >= 0) by (nonlinear_arith) requires v >= 0;
    }
}

/// Reads a decimal number from `cs[i .. j]`.
pub(crate) fn read_number(cs: &Vec<char>, i: usize, j: usize) -> (r: Option<i32>)
    requires
        i <= j <= cs@.len(),
    ensures
        r == number_spec(cs@, i as int, j as int),
        r is Some ==> i < j,
{
    if i == j {
        return None;
    }
    let mut num: i32 = 0;
    let mut k: usize = i;
    while k < j
        invariant
            i <= k <= j <= cs@.len(),
            i < j,
            num >= 0,
            num as int == digits_value(cs@, i as int, k as int),
            forall|q: int| i <= q < k ==> is_digit(#[trigger] cs@[q]),
        decreases j - k,
    {
        let c = cs[k];
        if !digit(c) {
            return None;
        }
        let d: i32 = (c as u32 - '0' as u32) as i32;
        assert(d as int == c as int - '0' as int);
        if num > (2147483647 - d) / 10 {
            proof {
                assert(num * 10 + d > 2147483647) by (nonlinear_arith)
                    requires num > (2147483647 - d) / 10, 0 <= d <= 9;
                assert(digits_value(cs@, i as int, k + 1) > 2147483647);
                if forall|q: int| i <= q < j ==> is_digit(#[trigger] cs@[q]) {
                    lemma_digits_grow(cs@, i as int, k + 1, j as int);
                }
            }
            return None;
        }
        assert(num * 10 + d <= 2147483647) by (nonlinear_arith)
            requires num <= (2147483647 - d) / 10, 0 <= d <= 9;
        num = num * 10 + d;
        k = k + 1;
    }
    Some(num)
}

/// Whether `c` continues a run that `scan` reads.
pub open spec fn accepted(c: char, dots: bool, underscore: bool) -> bool {
    is_letter(c) || is_digit(c) || (dots && c == '.') || (underscore && c == '_')
}

/// The end of the run of accepted characters from `i`.
pub open spec fn scan_end(cs: Seq<char>, i: int, dots: bool, underscore: bool) -> int
    decreases cs.len() - i,
{
    if 0 <= i < cs.len() && accepted(cs[i], dots, underscore) {
        scan_end(cs, i + 1, dots, underscore)
    } else {
        i
    }
}

proof fn lemma_scan_end(cs: Seq<char>, i: int, dots: bool, underscore: bool)
    requires
        0 <= i <= cs.len(),
    ensures
        i <= scan_end(cs, i, dots, underscore) <= cs.len(),
    decreases cs.len() - i,
{
    if i < cs.len() && accepted(cs[i], dots, underscore) {
        lemma_scan_end(cs, i + 1, dots, underscore);
    }
}

/// The end of the run of letters, digits, and dots or underscores as asked,
/// from `i`.
pub(crate) fn scan(cs: &Vec<char>, i: usize, dots: bool, underscore: bool) -> (r: usize)
    requires
        i <= cs@.len(),
    ensures
        r as int == scan_end(cs@, i as int, dots, underscore),
        i <= r <= cs@.len(),
        i < cs@.len() && (is_letter(cs@[i as int]) || is_digit(cs@[i as int])) ==> r > i,
{
    let mut j = i;
    proof {
        lemma_scan_end(cs@, i as int, dots, underscore);
    }
    while j < cs.len() && (letter(cs[j]) || digit(cs[j]) || (dots && cs[j] == '.') || (underscore && cs[j] == '_'))
        invariant
            i <= j <= cs@.len(),
            scan_end(cs@, i as int, dots, underscore) == scan_end(cs@, j as int, dots, underscore),
            i < cs@.len() && (is_letter(cs@[i as int]) || is_digit(cs@[i as int])) && j == i ==> j < cs@.len(),
        decreases cs@.len() - j,
    {
        j = j + 1;
    }
    j
}

/// The first index in `i .. j` of `ch`, or `j`.
pub open spec fn first_of(cs: Seq<char>, i: int, j: int, ch: char) -> int
    decreases j - i,
{
    if i >= j {
        j
    } else if cs[i] == ch {
        i
    } else {
        first_of(cs, i + 1, j, ch)
    }
}

/// The first index in `i .. j` that is no digit, or `j`.
pub open spec fn digits_end(cs: Seq<char>, i: int, j: int) -> int
    decreases j - i,
{
    if i >= j {
        j
    } else if !is_digit(cs[i]) {
        i
    } else {
        digits_end(cs, i + 1, j)
    }
}

/// The first index `k` in `i .. j - 1` with `..` at `k`.
pub open spec fn dotdot_in(cs: Seq<char>, i: int, j: int) -> Option<int>
    decreases j - i,
{
    if i + 1 >= j {
        None
    } else if cs[i] == '.' && cs[i + 1] == '.' {
        Some(i)
    } else {
        dotdot_in(cs, i + 1, j)
    }
}

/// Splits `cs[i .. j]` at its first `..`, if any.
pub(crate) fn find_dotdot(cs: &Vec<char>, i: usize, j: usize) -> (r: Option<usize>)
    requires
        i <= j <= cs@.len(),
    ensures
        match r {
            Some(k) => i <= k && k + 2 <= j && cs@[k as int] == '.' && dotdot_in(cs@, i as int, j as int) == Some(k as int),
            None => dotdot_in(cs@, i as int, j as int) is None,
        },
{
    let mut k = i;
    while k < j && k + 1 < j
        invariant
            i <= k <= j,
            j <= cs@.len(),
            dotdot_in(cs@, i as int, j as int) == dotdot_in(cs@, k as int, j as int),
        decreases j - k,
    {
        if cs[k] == '.' && cs[k + 1] == '.' {
            return Some(k);
        }
        k = k + 1;
    }
    None
}

/// The renaming in force for `name`: the first pair of that name.
pub open spec fn lookup_name(ren: Seq<(Seq<char>, Seq<char>)>, name: Seq<char>) -> Option<Seq<char>>
    decreases ren.len(),
{
    if ren.len() == 0 {
        None
    } else if ren[0].0 == name {
        Some(ren[0].1)
    } else {
        lookup_name(ren.drop_first(), name)
    }
}

pub open spec fn renaming_view(v: Seq<(String, String)>) -> Seq<(Seq<char>, Seq<char>)> {
    v.map_values(|p: (String, String)| (p.0@, p.1@))
}

fn find_renaming(map: &Vec<(String, String)>, name: &String) -> (r: Option<String>)
    ensures
        match r {
            Some(n) => lookup_name(renaming_view(map@), name@) == Some(n@),
            None => lookup_name(renaming_view(map@), name@) is None,
        },
{
    let ghost m = renaming_view(map@);
    let mut i: usize = 0;
    assert(m.subrange(0, m.len() as int) =~= m);
    while i < map.len()
        invariant
            i <= map@.len(),
            m == renaming_view(map@),
            lookup_name(m, name@) == lookup_name(m.subrange(i as int, m.len() as int), name@),
        decreases map@.len() - i,
    {
        assert(m.subrange(i as int, m.len() as int).drop_first() =~= m.subrange(i + 1, m.len() as int));
        if str_eq(map[i].0.as_str(), name.as_str()) {
            return Some(map[i].1.clone());
        }
        i = i + 1;
    }
    None
}

/// The fresh name `X<k>` of the `k`-th renamed variable.
pub open spec fn fresh_spec(k: nat) -> Seq<char> {
    seq!['X'] + decimal(k)
}

fn fresh_name(counter: &mut usize) -> (r: String)
    requires
        *old(counter) < usize::MAX,
    ensures
        *final(counter) == *old(counter) + 1,
        r@ == fresh_spec(*final(counter) as nat),
{
    *counter = *counter + 1;
    let mut s = String::new();
    s.push('X');
    push_decimal(&mut s, *counter);
    assert(s@ =~= fresh_spec(*counter as nat));
    s
}

/// The mathematical content of a token.
pub enum TokenV {
    For,
    In,
    Print,
    If,
    Else,
    Identifier(Seq<char>),
    Number(i32),
    String(Seq<char>),
    LeftBrace,
    RightBrace,
    LeftParen,
    RightParen,
    DotDot,
    LessEqual,
    Less,
    Equal,
    NotEqual,
    Greater,
    GreaterEqual,
    Label(Seq<char>),
}

pub open spec fn token_view(t: Token) -> TokenV {
    match t {
        Token::For => TokenV::For,
        Token::In => TokenV::In,
        Token::Print => TokenV::Print,
        Token::If => TokenV::If,
        Token::Else => TokenV::Else,
        Token::Identifier(s) => TokenV::Identifier(s@),
        Token::Number(n) => TokenV::Number(n),
        Token::String(s) => TokenV::String(s@),
        Token::LeftBrace => TokenV::LeftBrace,
        Token::RightBrace => TokenV::RightBrace,
        Token::LeftParen => TokenV::LeftParen,
        Token::RightParen => TokenV::RightParen,
        Token::DotDot => TokenV::DotDot,
        Token::LessEqual => TokenV::LessEqual,
        Token::Less => TokenV::Less,
        Token::Equal => TokenV::Equal,
        Token::NotEqual => TokenV::NotEqual,
        Token::Greater => TokenV::Greater,
        Token::GreaterEqual => TokenV::GreaterEqual,
        Token::Label(s) => TokenV::Label(s@),
    }
}

pub open spec fn tokens_view(v: Seq<Token>) -> Seq<TokenV> {
    v.map_values(|t: Token| token_view(t))
}

/// `p` in front of the tokens of `r`.
pub open spec fn emit(p: Seq<TokenV>, r: Result<Seq<TokenV>, LexError>) -> Result<Seq<TokenV>, LexError> {
    match r {
        Ok(t) => Ok(p + t),
        Err(e) => Err(e),
    }
}

/// The renaming in force, or the name itself.
pub open spec fn renamed_or(ren: Seq<(Seq<char>, Seq<char>)>, name: Seq<char>) -> Seq<char> {
    match lookup_name(ren, name) {
        Some(n) => n,
        None => name,
    }
}

/// The tokens of `cs[i ..]`, having renamed `counter` variables with the
/// renaming `ren` (innermost first), `after_for` when the last token was
/// `for`. A keyword is read wherever its letters start; an identifier
/// right after `for`, or not yet renamed, gets the next fresh name `X<k>`.
pub open spec fn lex_from(
    cs: Seq<char>,
    i: int,
    counter: nat,
    ren: Seq<(Seq<char>, Seq<char>)>,
    after_for: bool,
) -> Result<Seq<TokenV>, LexError>
    decreases cs.len() - i,
{
    if i < 0 || i >= cs.len() {
        Ok(Seq::empty())
    } else {
        let ch = cs[i];
        let n = cs.len() as int;
        if ch == ' ' || ch == '\n' || ch == '\t' || ch == '\r' {
            lex_from(cs, i + 1, counter, ren, after_for)
        } else if ch == 'f' && starts_with_at(cs, i, seq!['f','o','r']) {
            emit(seq![TokenV::For], lex_from(cs, i + 3, counter, ren, true))
        } else if ch == 'i' && starts_with_at(cs, i, seq!['i','n']) {
            emit(seq![TokenV::In], lex_from(cs, i + 2, counter, ren, false))
        } else if ch == 'p' && starts_with_at(cs, i, seq!['p','r','i','n','t']) {
            emit(seq![TokenV::Print], lex_from(cs, i + 5, counter, ren, false))
        } else if ch == 'i' && starts_with_at(cs, i, seq!['i','f']) {
            emit(seq![TokenV::If], lex_from(cs, i + 2, counter, ren, false))
        } else if ch == 'e' && starts_with_at(cs, i, seq!['e','l','s','e']) {
            emit(seq![TokenV::Else], lex_from(cs, i + 4, counter, ren, false))
        } else if ch == '{' {
            emit(seq![TokenV::LeftBrace], lex_from(cs, i + 1, counter, ren, false))
        } else if ch == '}' {
            emit(seq![TokenV::RightBrace], lex_from(cs, i + 1, counter, ren, false))
        } else if ch == '(' {
            emit(seq![TokenV::LeftParen], lex_from(cs, i + 1, counter, ren, false))
        } else if ch == ')' {
            emit(seq![TokenV::RightParen], lex_from(cs, i + 1, counter, ren, false))
        } else if ch == '.' {
            if i + 1 < n && cs[i + 1] == '.' {
                emit(seq![TokenV::DotDot], lex_from(cs, i + 2, counter, ren, false))
            } else {
                let j = scan_end(cs, i + 1, false, true);
                if i < j <= n {
                    emit(seq![TokenV::Label(renamed_or(ren, cs.subrange(i + 1, j)))], lex_from(cs, j, counter, ren, false))
                } else {
                    Err(LexError::UnexpectedCharacter(i as usize))
                }
            }
        } else if ch == '<' || ch == '>' {
            if i + 1 < n && cs[i + 1] == '=' {
                emit(seq![if ch == '<' { TokenV::LessEqual } else { TokenV::GreaterEqual }], lex_from(cs, i + 2, counter, ren, false))
            } else {
                emit(seq![if ch == '<' { TokenV::Less } else { TokenV::Greater }], lex_from(cs, i + 1, counter, ren, false))
            }
        } else if ch == '=' || ch == '!' {
            if i + 1 < n && cs[i + 1] == '=' {
                emit(seq![if ch == '=' { TokenV::Equal } else { TokenV::NotEqual }], lex_from(cs, i + 2, counter, ren, false))
            } else {
                Err(LexError::UnexpectedCharacter(i as usize))
            }
        } else if ch == '"' {
            let j = first_of(cs, i + 1, n, '"');
            if j >= n || j <= i {
                Err(LexError::UnterminatedString)
            } else {
                emit(seq![TokenV::String(cs.subrange(i + 1, j))], lex_from(cs, j + 1, counter, ren, false))
            }
        } else if is_digit(ch) {
            let k = digits_end(cs, i, scan_end(cs, i, false, false));
            match number_spec(cs, i, k) {
                None => Err(LexError::InvalidNumber),
                Some(num) => if k <= i || k > n {
                    Err(LexError::InvalidNumber)
                } else if k < n && k + 1 < n && cs[k] == '.' && cs[k + 1] == '.' {
                    let m = k + 2;
                    if m < n {
                        if is_letter(cs[m]) {
                            let e = scan_end(cs, m, false, true);
                            if i < e <= n {
                                emit(seq![TokenV::Number(num), TokenV::DotDot, TokenV::Identifier(cs.subrange(m, e))],
                                    lex_from(cs, e, counter, ren, false))
                            } else {
                                Err(LexError::UnexpectedCharacter(m as usize))
                            }
                        } else {
                            Err(LexError::UnexpectedCharacter(m as usize))
                        }
                    } else {
                        emit(seq![TokenV::Number(num), TokenV::DotDot], lex_from(cs, m, counter, ren, false))
                    }
                } else {
                    emit(seq![TokenV::Number(num)], lex_from(cs, k, counter, ren, false))
                },
            }
        } else if is_letter(ch) {
            let j = scan_end(cs, i, true, false);
            if j <= i || j > n {
                Err(LexError::UnexpectedCharacter(i as usize))
            } else {
                match dotdot_in(cs, i, j) {
                    Some(d) => if dotdot_in(cs, d + 2, j) is Some {
                        Err(LexError::UnexpectedCharacter((d + 2) as usize))
                    } else {
                        match number_spec(cs, d + 2, j) {
                            None => Err(LexError::InvalidNumber),
                            Some(num) => emit(
                                seq![TokenV::Identifier(cs.subrange(i, d)), TokenV::DotDot, TokenV::Number(num)],
                                lex_from(cs, j, counter, ren, false),
                            ),
                        }
                    },
                    None => {
                        let dot = first_of(cs, i, j, '.');
                        if dot < j && starts_with_at(cs, dot + 1, seq!['l','a','b','e','l']) && dot + 6 == j {
                            emit(seq![TokenV::Label(renamed_or(ren, cs.subrange(i, dot)))], lex_from(cs, j, counter, ren, false))
                        } else {
                            let ident = cs.subrange(i, j);
                            if !after_for && lookup_name(ren, ident) is Some {
                                emit(seq![TokenV::Identifier(lookup_name(ren, ident)->0)], lex_from(cs, j, counter, ren, false))
                            } else {
                                let fresh = fresh_spec(counter + 1);
                                emit(seq![TokenV::Identifier(fresh)],
                                    lex_from(cs, j, counter + 1, seq![(ident, fresh)] + ren, false))
                            }
                        }
                    },
                }
            }
        } else {
            Err(LexError::UnexpectedCharacter(i as usize))
        }
    }
}

/// The tokens of a text.
pub open spec fn lex_spec(cs: Seq<char>) -> Result<Seq<TokenV>, LexError> {
    lex_from(cs, 0, 0, Seq::empty(), false)
}

proof fn lemma_emit_append(a: Seq<TokenV>, b: Seq<TokenV>, r: Result<Seq<TokenV>, LexError>)
    ensures
        emit(a, emit(b, r)) == emit(a + b, r),
{
    match r {
        Ok(t) => assert(a + (b + t) =~= (a + b) + t),
        Err(_) => {},
    }
}

/// Whether the last of the tokens is `for`.
pub open spec fn after_for(tokens: Seq<Token>) -> bool {
    tokens.len() > 0 && tokens.last() is For
}

/// Whether a keyword starts at `i`.
pub open spec fn keyword_at(cs: Seq<char>, i: int) -> bool {
    ||| cs[i] == 'f' && starts_with_at(cs, i, seq!['f','o','r'])
    ||| cs[i] == 'i' && starts_with_at(cs, i, seq!['i','n'])
    ||| cs[i] == 'p' && starts_with_at(cs, i, seq!['p','r','i','n','t'])
    ||| cs[i] == 'i' && starts_with_at(cs, i, seq!['i','f'])
    ||| cs[i] == 'e' && starts_with_at(cs, i, seq!['e','l','s','e'])
}

fn keyword(cs: &Vec<char>, i: usize) -> (r: bool)
    requires
        i < cs@.len(),
    ensures
        r == keyword_at(cs@, i as int),
{
    proof {
        reveal_strlit("for");
        reveal_strlit("in");
        reveal_strlit("print");
        reveal_strlit("if");
        reveal_strlit("else");
        reveal_strlit("label");
        assert("for"@ =~= seq!['f', 'o', 'r']);
        assert("in"@ =~= seq!['i', 'n']);
        assert("print"@ =~= seq!['p', 'r', 'i', 'n', 't']);
        assert("if"@ =~= seq!['i', 'f']);
        assert("else"@ =~= seq!['e', 'l', 's', 'e']);
        assert("label"@ =~= seq!['l', 'a', 'b', 'e', 'l']);
    }
    let ch = cs[i];
    (ch == 'f' && starts_with(cs, i, "for")) || (ch == 'i' && starts_with(cs, i, "in"))
        || (ch == 'p' && starts_with(cs, i, "print")) || (ch == 'i' && starts_with(cs, i, "if"))
        || (ch == 'e' && starts_with(cs, i, "else"))
}

/// One step over white space, a keyword or a symbol at `i`.
#[verifier::spinoff_prover]
fn lex_symbol(cs: &Vec<char>, n: usize, i: usize, tokens: &mut Vec<Token>, counter: usize, renaming: &Vec<(String, String)>)
    -> (r: Result<usize, LexError>)
    requires
        cs@.len() == n,
        i < n,
        !is_digit(cs@[i as int]),
        !(is_letter(cs@[i as int]) && !keyword_at(cs@, i as int)),
    ensures
        final(tokens)@.len() >= old(tokens)@.len(),
        final(tokens)@.subrange(0, old(tokens)@.len() as int) == old(tokens)@,
        match r {
            Ok(j) => i < j <= n && lex_from(cs@, i as int, counter as nat, renaming_view(renaming@), after_for(old(tokens)@))
                == emit(tokens_view(final(tokens)@.subrange(old(tokens)@.len() as int, final(tokens)@.len() as int)),
                    lex_from(cs@, j as int, counter as nat, renaming_view(renaming@), after_for(final(tokens)@))),
            Err(e) => lex_from(cs@, i as int, counter as nat, renaming_view(renaming@), after_for(old(tokens)@)) == Err::<Seq<TokenV>, LexError>(e),
        },
{
    proof {
        reveal_strlit("for");
        reveal_strlit("in");
        reveal_strlit("print");
        reveal_strlit("if");
        reveal_strlit("else");
        reveal_strlit("label");
        assert("for"@ =~= seq!['f', 'o', 'r']);
        assert("in"@ =~= seq!['i', 'n']);
        assert("print"@ =~= seq!['p', 'r', 'i', 'n', 't']);
        assert("if"@ =~= seq!['i', 'f']);
        assert("else"@ =~= seq!['e', 'l', 's', 'e']);
        assert("label"@ =~= seq!['l', 'a', 'b', 'e', 'l']);
    }
    let ghost pre = tokens@;
    let ch = cs[i];
    let next: usize;
    if ch == ' ' || ch == '\n' || ch == '\t' || ch == '\r' {
        next = i + 1;
    } else if ch == 'f' && starts_with(cs, i, "for") {
        tokens.push(Token::For);
        next = i + 3;
    } else if ch == 'i' && starts_with(cs, i, "in") {
        tokens.push(Token::In);
        next = i + 2;
    } else if ch == 'p' && starts_with(cs, i, "print") {
        tokens.push(Token::Print);
        next = i + 5;
    } else if ch == 'i' && starts_with(cs, i, "if") {
        tokens.push(Token::If);
        next = i + 2;
    } else if ch == 'e' && starts_with(cs, i, "else") {
        tokens.push(Token::Else);
        next = i + 4;
    } else if ch == '{' {
        tokens.push(Token::LeftBrace);
        next = i + 1;
    } else if ch == '}' {
        tokens.push(Token::RightBrace);
        next = i + 1;
    } else if ch == '(' {
        tokens.push(Token::LeftParen);
        next = i + 1;
    } else if ch == ')' {
        tokens.push(Token::RightParen);
        next = i + 1;
    } else if ch == '.' {
        if i + 1 < n && cs[i + 1] == '.' {
            tokens.push(Token::DotDot);
            next = i + 2;
        } else {
            let j = scan(cs, i + 1, false, true);
            let label = string_of(&cs.as_slice()[i + 1..j]);
            assert(label@ =~= cs@.subrange(i + 1, j as int));
            let tok = match find_renaming(renaming, &label) {
                Some(renamed) => Token::Label(renamed),
                None => Token::Label(label),
            };
            assert(token_view(tok) == TokenV::Label(renamed_or(renaming_view(renaming@), cs@.subrange(i + 1, j as int))));
            tokens.push(tok);
            next = j;
        }
    } else if ch == '<' || ch == '>' {
        if i + 1 < n && cs[i + 1] == '=' {
            tokens.push(if ch == '<' { Token::LessEqual } else { Token::GreaterEqual });
            next = i + 2;
        } else {
            tokens.push(if ch == '<' { Token::Less } else { Token::Greater });
            next = i + 1;
        }
    } else if ch == '=' || ch == '!' {
        if i + 1 < n && cs[i + 1] == '=' {
            tokens.push(if ch == '=' { Token::Equal } else { Token::NotEqual });
            next = i + 2;
        } else {
            return Err(LexError::UnexpectedCharacter(i));
        }
    } else if ch == '"' {
        let mut j = i + 1;
        while j < n && cs[j] != '"'
            invariant
                i < j <= n,
                n == cs@.len(),
                first_of(cs@, i + 1, n as int, '"') == first_of(cs@, j as int, n as int, '"'),
            decreases n - j,
        {
            j = j + 1;
        }
        if j >= n {
            return Err(LexError::UnterminatedString);
        }
        let text = string_of(&cs.as_slice()[i + 1..j]);
        assert(text@ =~= cs@.subrange(i + 1, j as int));
        tokens.push(Token::String(text));
        next = j + 1;
    } else {
        return Err(LexError::UnexpectedCharacter(i));
    }
    proof {
        let added = tokens@.subrange(pre.len() as int, tokens@.len() as int);
        assert(tokens@ =~= pre + added);
        if added.len() == 1 {
            assert(tokens_view(added) =~= seq![token_view(added[0])]);
        } else if added.len() == 2 {
            assert(tokens_view(added) =~= seq![token_view(added[0]), token_view(added[1])]);
        } else if added.len() == 3 {
            assert(tokens_view(added) =~= seq![token_view(added[0]), token_view(added[1]), token_view(added[2])]);
        } else if added.len() == 0 {
            assert(tokens_view(added) =~= Seq::<TokenV>::empty());
        }
        assert(tokens@.subrange(0, pre.len() as int) =~= pre);
    }
    Ok(next)
}

/// One step over a number at `i`, with the `..` and bound that may follow.
#[verifier::spinoff_prover]
fn lex_number(cs: &Vec<char>, n: usize, i: usize, tokens: &mut Vec<Token>, counter: usize, renaming: &Vec<(String, String)>)
    -> (r: Result<usize, LexError>)
    requires
        cs@.len() == n,
        i < n,
        is_digit(cs@[i as int]),
    ensures
        final(tokens)@.len() >= old(tokens)@.len(),
        final(tokens)@.subrange(0, old(tokens)@.len() as int) == old(tokens)@,
        match r {
            Ok(j) => i < j <= n && lex_from(cs@, i as int, counter as nat, renaming_view(renaming@), after_for(old(tokens)@))
                == emit(tokens_view(final(tokens)@.subrange(old(tokens)@.len() as int, final(tokens)@.len() as int)),
                    lex_from(cs@, j as int, counter as nat, renaming_view(renaming@), after_for(final(tokens)@))),
            Err(e) => lex_from(cs@, i as int, counter as nat, renaming_view(renaming@), after_for(old(tokens)@)) == Err::<Seq<TokenV>, LexError>(e),
        },
{
    let ghost pre = tokens@;
    let next: usize;
    let j = scan(cs, i, false, false);
    let mut k = i;
    while k < j && digit(cs[k])
        invariant
            i <= k <= j <= n,
            n == cs@.len(),
            digits_end(cs@, i as int, j as int) == digits_end(cs@, k as int, j as int),
        decreases j - k,
    {
        k = k + 1;
    }
    let num = match read_number(cs, i, k) {
        Some(v) => v,
        None => return Err(LexError::InvalidNumber),
    };
    if k < n && k + 1 < n && cs[k] == '.' && cs[k + 1] == '.' {
        tokens.push(Token::Number(num));
        tokens.push(Token::DotDot);
        let m = k + 2;
        if m < n {
            if letter(cs[m]) {
                let e = scan(cs, m, false, true);
                let ident = string_of(&cs.as_slice()[m..e]);
                assert(ident@ =~= cs@.subrange(m as int, e as int));
                tokens.push(Token::Identifier(ident));
                next = e;
            } else {
                return Err(LexError::UnexpectedCharacter(m));
            }
        } else {
            next = m;
        }
    } else {
        tokens.push(Token::Number(num));
        next = k;
    }
    proof {
        let added = tokens@.subrange(pre.len() as int, tokens@.len() as int);
        assert(tokens@ =~= pre + added);
        if added.len() == 1 {
            assert(tokens_view(added) =~= seq![token_view(added[0])]);
        } else if added.len() == 2 {
            assert(tokens_view(added) =~= seq![token_view(added[0]), token_view(added[1])]);
        } else if added.len() == 3 {
            assert(tokens_view(added) =~= seq![token_view(added[0]), token_view(added[1]), token_view(added[2])]);
        } else if added.len() == 0 {
            assert(tokens_view(added) =~= Seq::<TokenV>::empty());
        }
        assert(tokens@.subrange(0, pre.len() as int) =~= pre);
    }
    Ok(next)
}

/// One step over a word at `i`: a range bound `v..k`, a label `v.label`,
/// or an identifier, renamed when it follows `for` or is new.
#[verifier::spinoff_prover]
fn lex_word(
    cs: &Vec<char>,
    n: usize,
    i: usize,
    tokens: &mut Vec<Token>,
    counter: &mut usize,
    renaming: &mut Vec<(String, String)>,
) -> (r: Result<usize, LexError>)
    requires
        cs@.len() == n,
        i < n,
        *old(counter) <= i,
        is_letter(cs@[i as int]),
        !keyword_at(cs@, i as int),
    ensures
        final(tokens)@.len() >= old(tokens)@.len(),
        final(tokens)@.subrange(0, old(tokens)@.len() as int) == old(tokens)@,
        *final(counter) <= *old(counter) + 1,
        match r {
            Ok(j) => i < j <= n && lex_from(cs@, i as int, *old(counter) as nat, renaming_view(old(renaming)@), after_for(old(tokens)@))
                == emit(tokens_view(final(tokens)@.subrange(old(tokens)@.len() as int, final(tokens)@.len() as int)),
                    lex_from(cs@, j as int, *final(counter) as nat, renaming_view(final(renaming)@), after_for(final(tokens)@))),
            Err(e) => lex_from(cs@, i as int, *old(counter) as nat, renaming_view(old(renaming)@), after_for(old(tokens)@))
                == Err::<Seq<TokenV>, LexError>(e),
        },
{
    proof {
        reveal_strlit("for");
        reveal_strlit("in");
        reveal_strlit("print");
        reveal_strlit("if");
        reveal_strlit("else");
        reveal_strlit("label");
        assert("for"@ =~= seq!['f', 'o', 'r']);
        assert("in"@ =~= seq!['i', 'n']);
        assert("print"@ =~= seq!['p', 'r', 'i', 'n', 't']);
        assert("if"@ =~= seq!['i', 'f']);
        assert("else"@ =~= seq!['e', 'l', 's', 'e']);
        assert("label"@ =~= seq!['l', 'a', 'b', 'e', 'l']);
    }
    let ghost pre = tokens@;
    let next: usize;
    let j = scan(cs, i, true, false);
    match find_dotdot(cs, i, j) {
        Some(d) => {
            let second = find_dotdot(cs, d + 2, j);
            if second.is_some() {
                return Err(LexError::UnexpectedCharacter(d + 2));
            }
            let num = match read_number(cs, d + 2, j) {
                Some(v) => v,
                None => return Err(LexError::InvalidNumber),
            };
            let ident = string_of(&cs.as_slice()[i..d]);
            assert(ident@ =~= cs@.subrange(i as int, d as int));
            tokens.push(Token::Identifier(ident));
            tokens.push(Token::DotDot);
            tokens.push(Token::Number(num));
            next = j;
        },
        None => {
            let mut dot = i;
            while dot < j && cs[dot] != '.'
                invariant
                    i <= dot <= j <= n,
                    n == cs@.len(),
                    first_of(cs@, i as int, j as int, '.') == first_of(cs@, dot as int, j as int, '.'),
                decreases j - dot,
            {
                dot = dot + 1;
            }
            let is_label = dot < j && starts_with(cs, dot + 1, "label") && dot + 6 == j;
            if is_label {
                let var = string_of(&cs.as_slice()[i..dot]);
                assert(var@ =~= cs@.subrange(i as int, dot as int));
                let tok = match find_renaming(renaming, &var) {
                    Some(renamed) => Token::Label(renamed),
                    None => Token::Label(var),
                };
                assert(token_view(tok) == TokenV::Label(renamed_or(renaming_view(renaming@), cs@.subrange(i as int, dot as int))));
                tokens.push(tok);
            } else {
                let identifier = string_of(&cs.as_slice()[i..j]);
                assert(identifier@ =~= cs@.subrange(i as int, j as int));
                let is_after_for = tokens.len() > 0 && match tokens[tokens.len() - 1] {
                    Token::For => true,
                    _ => false,
                };
                let known = if is_after_for { None } else { find_renaming(renaming, &identifier) };
                match known {
                    Some(mapped) => tokens.push(Token::Identifier(mapped)),
                    None => {
                        let renamed = fresh_name(counter);
                        let ghost old_ren = renaming@;
                        renaming.insert(0, (identifier, renamed.clone()));
                        assert(renaming_view(renaming@) =~= seq![(cs@.subrange(i as int, j as int), renamed@)] + renaming_view(old_ren));
                        tokens.push(Token::Identifier(renamed));
                    },
                }
            }
            next = j;
        },
    }
    proof {
        let added = tokens@.subrange(pre.len() as int, tokens@.len() as int);
        assert(tokens@ =~= pre + added);
        if added.len() == 1 {
            assert(tokens_view(added) =~= seq![token_view(added[0])]);
        } else if added.len() == 2 {
            assert(tokens_view(added) =~= seq![token_view(added[0]), token_view(added[1])]);
        } else if added.len() == 3 {
            assert(tokens_view(added) =~= seq![token_view(added[0]), token_view(added[1]), token_view(added[2])]);
        } else if added.len() == 0 {
            assert(tokens_view(added) =~= Seq::<TokenV>::empty());
        }
        assert(tokens@.subrange(0, pre.len() as int) =~= pre);
    }
    Ok(next)
}

/// The tokens of a program text, as `lex_spec` gives them.
pub fn tokenize(input: &str) -> (r: Result<Vec<Token>, LexError>)
    ensures
        match r {
            Ok(tokens) => lex_spec(input@) == Ok::<Seq<TokenV>, LexError>(tokens_view(tokens@)),
            Err(e) => lex_spec(input@) == Err::<Seq<TokenV>, LexError>(e),
        },
{
    let cs = chars_of(input);
    let n = cs.len();
    let mut tokens: Vec<Token> = Vec::new();
    let mut counter: usize = 0;
    let mut renaming: Vec<(String, String)> = Vec::new();
    let mut i: usize = 0;
    assert(tokens_view(tokens@) =~= Seq::<TokenV>::empty());
    assert(renaming_view(renaming@) =~= Seq::<(Seq<char>, Seq<char>)>::empty());
    proof {
        match lex_spec(input@) {
            Ok(t) => assert(Seq::<TokenV>::empty() + t =~= t),
            Err(_) => {},
        }
    }
    while i < n
        invariant
            n == cs@.len(),
            cs@ == input@,
            i <= n,
            counter <= i,
            lex_spec(cs@) == emit(tokens_view(tokens@),
                lex_from(cs@, i as int, counter as nat, renaming_view(renaming@), after_for(tokens@))),
        decreases n - i,
    {
        let ghost pre = tokens@;
        let ghost pre_i = i as int;
        let ghost pre_counter = counter as nat;
        let ghost pre_ren = renaming_view(renaming@);
        let ch = cs[i];
        let step = if digit(ch) {
            lex_number(&cs, n, i, &mut tokens, counter, &renaming)
        } else if letter(ch) && !keyword(&cs, i) {
            lex_word(&cs, n, i, &mut tokens, &mut counter, &mut renaming)
        } else {
            lex_symbol(&cs, n, i, &mut tokens, counter, &renaming)
        };
        match step {
            Err(e) => {
                return Err(e);
            },
            Ok(j) => {
                proof {
                    let added = tokens@.subrange(pre.len() as int, tokens@.len() as int);
                    assert(tokens@ =~= pre + added);
                    assert(tokens_view(tokens@) =~= tokens_view(pre) + tokens_view(added));
                    lemma_emit_append(tokens_view(pre), tokens_view(added),
                        lex_from(cs@, j as int, counter as nat, renaming_view(renaming@), after_for(tokens@)));
                }
                i = j;
            },
        }
    }
    proof {
        match lex_from(cs@, i as int, counter as nat, renaming_view(renaming@), after_for(tokens@)) {
            Ok(t) => assert(tokens_view(tokens@) + t =~= tokens_view(tokens@)),
            Err(_) => {},
        }
    }
    Ok(tokens)
}

} // verus!
