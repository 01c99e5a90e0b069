use vstd::prelude::*;
use vstd::string::*;

use crate::number::{is_digit, decimal_of, Decimal, DecimalView};
use crate::text::{chars_of, same_text};

verus! {

/// A reserved word of the language.
#[derive(Clone, Copy, Debug, PartialEq, Eq, Structural)]
pub enum Keyword {
    End,
    Fn,
    Data,
    Var,
    Return,
    Is,
    Not,
    If,
    Elif,
    Else,
    NoneValue,
    True,
    False,
}

/// The keyword spelled exactly (case included) by `t`, if any.
pub open spec fn keyword_of(t: Seq<char>) -> Option<Keyword> {
    if t == "end"@ {
        Some(Keyword::End)
    } else if t == "fn"@ {
        Some(Keyword::Fn)
    } else if t == "data"@ {
        Some(Keyword::Data)
    } else if t == "var"@ {
        Some(Keyword::Var)
    } else if t == "return"@ {
        Some(Keyword::Return)
    } else if t == "is"@ {
        Some(Keyword::Is)
    } else if t == "not"@ {
        Some(Keyword::Not)
    } else if t == "if"@ {
        Some(Keyword::If)
    } else if t == "elif"@ {
        Some(Keyword::Elif)
    } else if t == "else"@ {
        Some(Keyword::Else)
    } else if t == "none"@ {
        Some(Keyword::NoneValue)
    } else if t == "true"@ {
        Some(Keyword::True)
    } else if t == "false"@ {
        Some(Keyword::False)
    } else {
        None
    }
}

impl Keyword {
    /// The keyword spelled exactly (case included) by `text`, if any.
    pub fn get(text: &str) -> (r: Option<Keyword>)
        ensures
            r == keyword_of(text@),
    {
        if same_text(text, "end") {
            Some(Keyword::End)
        } else if same_text(text, "fn") {
            Some(Keyword::Fn)
        } else if same_text(text, "data") {
            Some(Keyword::Data)
        } else if same_text(text, "var") {
            Some(Keyword::Var)
        } else if same_text(text, "return") {
            Some(Keyword::Return)
        } else if same_text(text, "is") {
            Some(Keyword::Is)
        } else if same_text(text, "not") {
            Some(Keyword::Not)
        } else if same_text(text, "if") {
            Some(Keyword::If)
        } else if same_text(text, "elif") {
            Some(Keyword::Elif)
        } else if same_text(text, "else") {
            Some(Keyword::Else)
        } else if same_text(text, "none") {
            Some(Keyword::NoneValue)
        } else if same_text(text, "true") {
            Some(Keyword::True)
        } else if same_text(text, "false") {
            Some(Keyword::False)
        } else {
            None
        }
    }
}

/// A lexical unit of source text.
#[derive(Clone, Debug, PartialEq)]
pub enum Token {
    Identifier(String),
    Keyword(Keyword),
    Number(Decimal),
    String(String),
    OpenParenthesis,
    CloseParenthesis,
    OpenBracket,
    CloseBracket,
    Plus,
    Minus,
    Asterisk,
    ForwardSlash,
    GreaterThan,
    LessThan,
    Comma,
    Period,
    Colon,
    Eof,
}

/// What a token holds, with its text as a sequence of characters.
pub enum TokenView {
    Identifier(Seq<char>),
    Keyword(Keyword),
    Number(DecimalView),
    String(Seq<char>),
    OpenParenthesis,
    CloseParenthesis,
    OpenBracket,
    CloseBracket,
    Plus,
    Minus,
    Asterisk,
    ForwardSlash,
    GreaterThan,
    LessThan,
    Comma,
    Period,
    Colon,
    Eof,
}

impl View for Token {
    type V = TokenView;

    open spec fn view(&self) -> TokenView {
        match self {
            Token::Identifier(s) => TokenView::Identifier(s@),
            Token::Keyword(k) => TokenView::Keyword(*k),
            Token::Number(d) => TokenView::Number(d@),
            Token::String(s) => TokenView::String(s@),
            Token::OpenParenthesis => TokenView::OpenParenthesis,
            Token::CloseParenthesis => TokenView::CloseParenthesis,
            Token::OpenBracket => TokenView::OpenBracket,
            Token::CloseBracket => TokenView::CloseBracket,
            Token::Plus => TokenView::Plus,
            Token::Minus => TokenView::Minus,
            Token::Asterisk => TokenView::Asterisk,
            Token::ForwardSlash => TokenView::ForwardSlash,
            Token::GreaterThan => TokenView::GreaterThan,
            Token::LessThan => TokenView::LessThan,
            Token::Comma => TokenView::Comma,
            Token::Period => TokenView::Period,
            Token::Colon => TokenView::Colon,
            Token::Eof => TokenView::Eof,
        }
    }
}

/// Why a source text could not be tokenized. Positions count characters from zero.
#[derive(Clone, Debug, PartialEq)]
pub enum LexError {
    /// A character that begins no token, and where it stands.
    UnexpectedCharacter(char, usize),
    /// Where a string literal opens that is never closed.
    UnterminatedString(usize),
    /// The text of a numeric literal that is no number, and where it starts.
    MalformedNumber(String, usize),
}

/// What a lexical error holds, with its text as a sequence of characters.
pub enum LexErrorView {
    UnexpectedCharacter(char, int),
    UnterminatedString(int),
    MalformedNumber(Seq<char>, int),
}

impl View for LexError {
    type V = LexErrorView;

    open spec fn view(&self) -> LexErrorView {
        match self {
            LexError::UnexpectedCharacter(c, p) => LexErrorView::UnexpectedCharacter(*c, *p as int),
            LexError::UnterminatedString(p) => LexErrorView::UnterminatedString(*p as int),
            LexError::MalformedNumber(t, p) => LexErrorView::MalformedNumber(t@, *p as int),
        }
    }
}

pub open spec fn is_space(c: char) -> bool {
    c == ' ' || c == '\t' || c == '\r' || c == '\n'
}

/// Identifiers are made of ASCII letters and digits.
pub open spec fn is_alphanumeric(c: char) -> bool {
    ('a' <= c && c <= 'z') || ('A' <= c && c <= 'Z') || is_digit(c)
}

pub open spec fn is_quote(c: char) -> bool {
    c == '"' || c == '\''
}

/// The token of a character that stands for itself alone.
pub open spec fn punctuation(c: char) -> Option<TokenView> {
    if c == '(' {
        Some(TokenView::OpenParenthesis)
    } else if c == ')' {
        Some(TokenView::CloseParenthesis)
    } else if c == '[' {
        Some(TokenView::OpenBracket)
    } else if c == ']' {
        Some(TokenView::CloseBracket)
    } else if c == '+' {
        Some(TokenView::Plus)
    } else if c == '*' {
        Some(TokenView::Asterisk)
    } else if c == '/' {
        Some(TokenView::ForwardSlash)
    } else if c == '>' {
        Some(TokenView::GreaterThan)
    } else if c == '<' {
        Some(TokenView::LessThan)
    } else if c == ',' {
        Some(TokenView::Comma)
    } else if c == ':' {
        Some(TokenView::Colon)
    } else {
        None
    }
}

/// Characters that continue a numeric literal (`word` false) or a word (`word` true).
pub open spec fn continues(c: char, word: bool) -> bool {
    if word {
        is_alphanumeric(c)
    } else {
        is_digit(c) || c == '.'
    }
}

/// Where the run of continuing characters that starts at `i` ends.
pub open spec fn run_end(s: Seq<char>, i: int, word: bool) -> int
    decreases s.len() - i,
{
    if 0 <= i < s.len() && continues(s[i], word) {
        run_end(s, i + 1, word)
    } else {
        i
    }
}

/// The first position at or after `i` that holds `q`, if any.
pub open spec fn quote_end(s: Seq<char>, i: int, q: char) -> Option<int>
    decreases s.len() - i,
{
    if i < 0 || i >= s.len() {
        None
    } else if s[i] == q {
        Some(i)
    } else {
        quote_end(s, i + 1, q)
    }
}

/// The numeric literal that starts at `i`, and where it ends.
pub open spec fn number_at(s: Seq<char>, i: int) -> Result<(TokenView, int), LexErrorView> {
    let j = run_end(s, i + 1, false);
    let t = s.subrange(i, j);
    match decimal_of(t) {
        Some(d) => Ok((TokenView::Number(d), j)),
        None => Err(LexErrorView::MalformedNumber(t, i)),
    }
}

/// Whether a digit follows position `i` (or a point, where `point` holds).
pub open spec fn followed_by_number(s: Seq<char>, i: int, point: bool) -> bool {
    &&& i + 1 < s.len()
    &&& is_digit(s[i + 1]) || (point && s[i + 1] == '.')
}

/// The token that starts at `i`, which holds no whitespace, and where it ends.
pub open spec fn scan_token(s: Seq<char>, i: int) -> Result<(TokenView, int), LexErrorView> {
    let c = s[i];
    if punctuation(c) is Some {
        Ok((punctuation(c)->0, i + 1))
    } else if c == '-' {
        if followed_by_number(s, i, true) {
            number_at(s, i)
        } else {
            Ok((TokenView::Minus, i + 1))
        }
    } else if c == '.' {
        if followed_by_number(s, i, false) {
            number_at(s, i)
        } else {
            Ok((TokenView::Period, i + 1))
        }
    } else if is_digit(c) {
        number_at(s, i)
    } else if is_quote(c) {
        match quote_end(s, i + 1, c) {
            Some(j) => Ok((TokenView::String(s.subrange(i + 1, j)), j + 1)),
            None => Err(LexErrorView::UnterminatedString(i)),
        }
    } else if is_alphanumeric(c) {
        let j = run_end(s, i + 1, true);
        let w = s.subrange(i, j);
        match keyword_of(w) {
            Some(k) => Ok((TokenView::Keyword(k), j)),
            None => Ok((TokenView::Identifier(w), j)),
        }
    } else {
        Err(LexErrorView::UnexpectedCharacter(c, i))
    }
}

pub proof fn lemma_run_end_bounds(s: Seq<char>, i: int, word: bool)
    requires
        0 <= i <= s.len(),
    ensures
        i <= run_end(s, i, word) <= s.len(),
        forall|k: int| i <= k < run_end(s, i, word) ==> continues(#[trigger] s[k], word),
        run_end(s, i, word) < s.len() ==> !continues(s[run_end(s, i, word)], word),
    decreases s.len() - i,
{
    if i < s.len() && continues(s[i], word) {
        lemma_run_end_bounds(s, i + 1, word);
    }
}

pub proof fn lemma_quote_end_bounds(s: Seq<char>, i: int, q: char)
    requires
        0 <= i,
    ensures
        quote_end(s, i, q) matches Some(j) ==> i <= j < s.len() && s[j] == q,
        forall|j: int|
            #![trigger s[j]]
            quote_end(s, i, q) matches Some(e) && i <= j < e ==> s[j] != q,
        quote_end(s, i, q) is None ==> forall|j: int| i <= j < s.len() ==> s[j] != q,
    decreases s.len() - i,
{
    if i < s.len() && s[i] != q {
        lemma_quote_end_bounds(s, i + 1, q);
    }
}

/// A token always takes at least the character it starts at, and never
/// reaches past the end of the text.
pub proof fn lemma_scan_token_advances(s: Seq<char>, i: int)
    requires
        0 <= i < s.len(),
    ensures
        scan_token(s, i) matches Ok((_t, j)) ==> i < j <= s.len(),
{
    lemma_run_end_bounds(s, i + 1, false);
    lemma_run_end_bounds(s, i + 1, true);
    lemma_quote_end_bounds(s, i + 1, s[i]);
}

/// The tokens of `s` from position `i` on, or the first error met there.
pub open spec fn lex_from(s: Seq<char>, i: int) -> Result<Seq<TokenView>, LexErrorView>
    decreases s.len() - i,
{
    if i < 0 || i >= s.len() {
        Ok(seq![TokenView::Eof])
    } else if is_space(s[i]) {
        lex_from(s, i + 1)
    } else {
        match scan_token(s, i) {
            Ok((t, j)) => {
                proof {
                    lemma_scan_token_advances(s, i);
                }
                prepend(seq![t], lex_from(s, j))
            },
            Err(e) => Err(e),
        }
    }
}

/// `ts` followed by the tokens of `r`, or the error of `r`.
pub open spec fn prepend(ts: Seq<TokenView>, r: Result<Seq<TokenView>, LexErrorView>) -> Result<
    Seq<TokenView>,
    LexErrorView,
> {
    match r {
        Ok(rest) => Ok(ts + rest),
        Err(e) => Err(e),
    }
}

/// The tokens of a whole source text, ending with `Eof`, or the first error.
pub open spec fn lex(s: Seq<char>) -> Result<Seq<TokenView>, LexErrorView> {
    lex_from(s, 0)
}

/// Where the run of continuing characters that starts at `i` ends.
fn scan_run(cs: &Vec<char>, i: usize, word: bool) -> (r: usize)
    requires
        i <= cs@.len(),
    ensures
        r == run_end(cs@, i as int, word),
{
    let mut k: usize = i;
    while k < cs.len() && is_continuing(cs[k], word)
        invariant
            i <= k <= cs@.len(),
            run_end(cs@, k as int, word) == run_end(cs@, i as int, word),
        decreases cs@.len() - k,
    {
        k = k + 1;
    }
    k
}

/// Whether `c` continues a numeric literal (`word` false) or a word (`word` true).
fn is_continuing(c: char, word: bool) -> (r: bool)
    ensures
        r == continues(c, word),
{
    if word {
        ('a' <= c && c <= 'z') || ('A' <= c && c <= 'Z') || ('0' <= c && c <= '9')
    } else {
        ('0' <= c && c <= '9') || c == '.'
    }
}

/// The first position at or after `i` that holds `q`, if any.
fn find_quote(cs: &Vec<char>, i: usize, q: char) -> (r: Option<usize>)
    requires
        i <= cs@.len(),
    ensures
        quote_end(cs@, i as int, q) == (match r {
            Some(j) => Some(j as int),
            None => None,
        }),
{
    let mut k: usize = i;
    while k < cs.len()
        invariant
            i <= k <= cs@.len(),
            quote_end(cs@, k as int, q) == quote_end(cs@, i as int, q),
        decreases cs@.len() - k,
    {
        if cs[k] == q {
            return Some(k);
        }
        k = k + 1;
    }
    None
}

/// Reads the numeric literal that starts at `i`.
fn read_number(code: &str, cs: &Vec<char>, i: usize) -> (r: Result<(Token, usize), LexError>)
    requires
        cs@ == code@,
        i < cs@.len(),
    ensures
        number_at(cs@, i as int) == (match r {
            Ok((t, j)) => Ok((t@, j as int)),
            Err(e) => Err(e@),
        }),
{
    let n = cs.len();
    proof {
        lemma_run_end_bounds(cs@, i + 1, false);
    }
    let j = scan_run(cs, i + 1, false);
    match Decimal::from_chars(cs, i, j) {
        Some(d) => Ok((Token::Number(d), j)),
        None => Err(LexError::MalformedNumber(code.substring_char(i, j).to_owned(), i)),
    }
}

/// Reads the token that starts at `i`, which holds no whitespace.
fn read_token(code: &str, cs: &Vec<char>, i: usize) -> (r: Result<(Token, usize), LexError>)
    requires
        cs@ == code@,
        i < cs@.len(),
        !is_space(cs@[i as int]),
    ensures
        scan_token(cs@, i as int) == (match r {
            Ok((t, j)) => Ok((t@, j as int)),
            Err(e) => Err(e@),
        }),
{
    let c = cs[i];
    let n = cs.len();
    let ghost s = cs@;
    let peek: Option<char> = if i + 1 < n { Some(cs[i + 1]) } else { None };
    let single = match c {
        '(' => Some(Token::OpenParenthesis),
        ')' => Some(Token::CloseParenthesis),
        '[' => Some(Token::OpenBracket),
        ']' => Some(Token::CloseBracket),
        '+' => Some(Token::Plus),
        '*' => Some(Token::Asterisk),
        '/' => Some(Token::ForwardSlash),
        '>' => Some(Token::GreaterThan),
        '<' => Some(Token::LessThan),
        ',' => Some(Token::Comma),
        ':' => Some(Token::Colon),
        _ => None,
    };
    if let Some(t) = single {
        return Ok((t, i + 1));
    }
    if c == '-' {
        match peek {
            Some(p) if ('0' <= p && p <= '9') || p == '.' => read_number(code, cs, i),
            _ => Ok((Token::Minus, i + 1)),
        }
    } else if c == '.' {
        match peek {
            Some(p) if '0' <= p && p <= '9' => read_number(code, cs, i),
            _ => Ok((Token::Period, i + 1)),
        }
    } else if '0' <= c && c <= '9' {
        read_number(code, cs, i)
    } else if c == '"' || c == '\'' {
        match find_quote(cs, i + 1, c) {
            Some(j) => {
                proof {
                    lemma_quote_end_bounds(s, i + 1, c);
                }
                Ok((Token::String(code.substring_char(i + 1, j).to_owned()), j + 1))
            },
            None => Err(LexError::UnterminatedString(i)),
        }
    } else if is_continuing(c, true) {
        proof {
            lemma_run_end_bounds(s, i + 1, true);
        }
        let j = scan_run(cs, i + 1, true);
        let w = code.substring_char(i, j);
        match Keyword::get(w) {
            Some(k) => Ok((Token::Keyword(k), j)),
            None => Ok((Token::Identifier(w.to_owned()), j)),
        }
    } else {
        Err(LexError::UnexpectedCharacter(c, i))
    }
}

/// The tokens of a source text, ending with `Eof`.
pub struct Lexer {
    tokens: Vec<Token>,
}

pub open spec fn token_views(ts: Seq<Token>) -> Seq<TokenView> {
    ts.map_values(|t: Token| t@)
}

impl View for Lexer {
    type V = Seq<TokenView>;

    closed spec fn view(&self) -> Seq<TokenView> {
        token_views(self.tokens@)
    }
}

impl Lexer {
    /// Tokenizes a whole source text in one pass, stopping at the first error.
    pub fn parse(code: &str) -> (r: Result<Lexer, LexError>)
        ensures
            lex(code@) == (match r {
                Ok(l) => Ok(l@),
                Err(e) => Err(e@),
            }),
    {
        let cs = chars_of(code);
        let n = cs.len();
        let mut tokens: Vec<Token> = Vec::new();
        let mut i: usize = 0;
        assert(token_views(tokens@) =~= seq![]);
        assert(prepend(seq![], lex_from(cs@, 0)) == lex_from(cs@, 0)) by {
            if let Ok(rest) = lex_from(cs@, 0) {
                assert(Seq::<TokenView>::empty() + rest =~= rest);
            }
        }
        while i < n
            invariant
                i <= n == cs@.len(),
                cs@ == code@,
                lex(code@) == prepend(token_views(tokens@), lex_from(cs@, i as int)),
            decreases n - i,
        {
            let c = cs[i];
            if c == ' ' || c == '\t' || c == '\r' || c == '\n' {
                i = i + 1;
            } else {
                let ghost before = token_views(tokens@);
                match read_token(code, &cs, i) {
                    Ok((t, j)) => {
                        proof {
                            lemma_scan_token_advances(cs@, i as int);
                        }
                        tokens.push(t);
                        proof {
                            assert(token_views(tokens@) =~= before + seq![t@]);
                            if let Ok(rest) = lex_from(cs@, j as int) {
                                assert(before + (seq![t@] + rest) =~= (before + seq![t@]) + rest);
                            }
                        }
                        i = j;
                    },
                    Err(e) => {
                        return Err(e);
                    },
                }
            }
        }
        let ghost before = token_views(tokens@);
        tokens.push(Token::Eof);
        proof {
            assert(token_views(tokens@) =~= before + seq![TokenView::Eof]);
        }
        Ok(Lexer { tokens })
    }

    /// The tokens, in order; the last one is `Eof`.
    pub fn tokens(&self) -> (r: &Vec<Token>)
        ensures
            token_views(r@) == self@,
    {
        &self.tokens
    }
}

} // verus!
