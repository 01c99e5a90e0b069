use vstd::prelude::*;

use crate::number::is_digit;

use crate::lexer::{
    continues, is_alphanumeric, is_quote, is_space, lemma_quote_end_bounds, lemma_run_end_bounds,
    lemma_scan_token_advances, lex, lex_from, number_at, punctuation, quote_end, run_end,
    scan_token, LexErrorView, TokenView,
};

verus! {

proof fn lemma_scan_token_is_no_eof(s: Seq<char>, i: int)
    requires
        0 <= i < s.len(),
    ensures
        scan_token(s, i) matches Ok((t, _j)) ==> !(t is Eof),
{
}

proof fn lemma_lex_from_stream(s: Seq<char>, i: int)
    requires
        0 <= i,
    ensures
        lex_from(s, i) matches Ok(ts) ==> {
            &&& ts.len() >= 1
            &&& ts.last() is Eof
            &&& forall|k: int| 0 <= k < ts.len() - 1 ==> !(#[trigger] ts[k] is Eof)
        },
    decreases s.len() - i,
{
    if i < s.len() {
        if is_space(s[i]) {
            lemma_lex_from_stream(s, i + 1);
        } else if let Ok((t, j)) = scan_token(s, i) {
            lemma_scan_token_advances(s, i);
            lemma_scan_token_is_no_eof(s, i);
            lemma_lex_from_stream(s, j);
            if let Ok(rest) = lex_from(s, j) {
                let ts = seq![t] + rest;
                assert forall|k: int| 0 <= k < ts.len() - 1 implies !(#[trigger] ts[k] is Eof) by {
                    if k > 0 {
                        assert(ts[k] == rest[k - 1]);
                    }
                }
            }
        }
    }
}

/// A successful tokenization ends with exactly one `Eof`: it is the last
/// token and appears nowhere else.
pub proof fn eof_ends_every_stream(s: Seq<char>)
    ensures
        lex(s) matches Ok(ts) ==> {
            &&& ts.len() >= 1
            &&& ts.last() is Eof
            &&& forall|k: int| 0 <= k < ts.len() - 1 ==> !(#[trigger] ts[k] is Eof)
        },
{
    lemma_lex_from_stream(s, 0);
}

proof fn lemma_spaces_from(s: Seq<char>, i: int)
    requires
        0 <= i,
        forall|k: int| 0 <= k < s.len() ==> is_space(#[trigger] s[k]),
    ensures
        lex_from(s, i) == Ok::<Seq<TokenView>, LexErrorView>(seq![TokenView::Eof]),
    decreases s.len() - i,
{
    if i < s.len() {
        lemma_spaces_from(s, i + 1);
    }
}

/// A text of whitespace alone (or nothing) gives the single token `Eof`.
pub proof fn whitespace_gives_only_eof(s: Seq<char>)
    requires
        forall|k: int| 0 <= k < s.len() ==> is_space(#[trigger] s[k]),
    ensures
        lex(s) == Ok::<Seq<TokenView>, LexErrorView>(seq![TokenView::Eof]),
{
    lemma_spaces_from(s, 0);
}

/// A lone punctuation character gives its own token, then `Eof`.
pub proof fn punctuation_alone(c: char)
    requires
        punctuation(c) is Some,
    ensures
        lex(seq![c]) == Ok::<Seq<TokenView>, LexErrorView>(
            seq![punctuation(c)->0, TokenView::Eof],
        ),
{
    let s = seq![c];
    assert(lex_from(s, 1) == Ok::<Seq<TokenView>, LexErrorView>(seq![TokenView::Eof]));
    assert(seq![punctuation(c)->0] + seq![TokenView::Eof] =~= seq![
        punctuation(c)->0,
        TokenView::Eof,
    ]);
}

proof fn lemma_quote_end_found(s: Seq<char>, i: int, e: int, q: char)
    requires
        0 <= i <= e < s.len(),
        s[e] == q,
        forall|k: int| i <= k < e ==> #[trigger] s[k] != q,
    ensures
        quote_end(s, i, q) == Some(e),
    decreases e - i,
{
    if i < e {
        lemma_quote_end_found(s, i + 1, e, q);
    }
}

/// Both quote characters delimit string literals alike: a body that holds
/// neither of them, between two `"` or between two `'`, gives the same single
/// string token, whose text is the body without its delimiters.
pub proof fn quotes_are_symmetric(body: Seq<char>)
    requires
        forall|k: int| 0 <= k < body.len() ==> !is_quote(#[trigger] body[k]),
    ensures
        lex(seq!['"'] + body + seq!['"']) == lex(seq!['\''] + body + seq!['\'']),
        lex(seq!['"'] + body + seq!['"']) == Ok::<Seq<TokenView>, LexErrorView>(
            seq![TokenView::String(body), TokenView::Eof],
        ),
{
    lemma_quoted(body, '"');
    lemma_quoted(body, '\'');
}

proof fn lemma_quoted(body: Seq<char>, q: char)
    requires
        is_quote(q),
        forall|k: int| 0 <= k < body.len() ==> !is_quote(#[trigger] body[k]),
    ensures
        lex(seq![q] + body + seq![q]) == Ok::<Seq<TokenView>, LexErrorView>(
            seq![TokenView::String(body), TokenView::Eof],
        ),
{
    let s = seq![q] + body + seq![q];
    let e = body.len() + 1int;
    assert forall|k: int| 1 <= k < e implies #[trigger] s[k] != q by {
        assert(s[k] == body[k - 1]);
    }
    lemma_quote_end_found(s, 1, e, q);
    assert(s.subrange(1, e) =~= body);
    assert(lex_from(s, e + 1) == Ok::<Seq<TokenView>, LexErrorView>(seq![TokenView::Eof]));
    assert(seq![TokenView::String(body)] + seq![TokenView::Eof] =~= seq![
        TokenView::String(body),
        TokenView::Eof,
    ]);
}

/// A string literal's text is what stands between its delimiters, and never
/// holds the character that delimits it.
pub proof fn string_excludes_delimiter(s: Seq<char>, i: int)
    requires
        0 <= i < s.len(),
        is_quote(s[i]),
    ensures
        scan_token(s, i) matches Ok((TokenView::String(v), j)) ==> {
            &&& i + 2 <= j <= s.len()
            &&& s[j - 1] == s[i]
            &&& v == s.subrange(i + 1, j - 1)
            &&& forall|k: int| 0 <= k < v.len() ==> #[trigger] v[k] != s[i]
        },
{
    lemma_quote_end_bounds(s, i + 1, s[i]);
    if let Ok((TokenView::String(v), j)) = scan_token(s, i) {
        assert forall|k: int| 0 <= k < v.len() implies #[trigger] v[k] != s[i] by {
            assert(v[k] == s[i + 1 + k]);
        }
    }
}

/// A quote with no matching quote after it is an unterminated string,
/// reported where it opens.
pub proof fn unclosed_quote_is_rejected(s: Seq<char>, i: int)
    requires
        0 <= i < s.len(),
        is_quote(s[i]),
        forall|k: int| i < k < s.len() ==> #[trigger] s[k] != s[i],
    ensures
        scan_token(s, i) == Err::<(TokenView, int), LexErrorView>(
            LexErrorView::UnterminatedString(i),
        ),
{
    lemma_quote_end_bounds(s, i + 1, s[i]);
}

/// Whether a character may stand outside string literals in a text that
/// tokenizes: whitespace, or a character that can begin or continue a token.
pub open spec fn is_recognized(c: char) -> bool {
    is_space(c) || punctuation(c) is Some || c == '-' || c == '.' || is_alphanumeric(c)
        || is_quote(c)
}

proof fn lemma_success_covers(s: Seq<char>, i: int)
    requires
        0 <= i,
        forall|k: int| 0 <= k < s.len() ==> !is_quote(#[trigger] s[k]),
    ensures
        lex_from(s, i) is Ok ==> forall|k: int| i <= k < s.len() ==> is_recognized(#[trigger] s[k]),
    decreases s.len() - i,
{
    if i < s.len() {
        if is_space(s[i]) {
            lemma_success_covers(s, i + 1);
        } else if let Ok((t, j)) = scan_token(s, i) {
            lemma_scan_token_advances(s, i);
            lemma_success_covers(s, j);
            lemma_run_end_bounds(s, i + 1, false);
            lemma_run_end_bounds(s, i + 1, true);
            assert forall|k: int| i <= k < j implies is_recognized(#[trigger] s[k]) by {
                if k > i {
                    assert(continues(s[k], false) || continues(s[k], true));
                }
            }
        }
    }
}

/// A character that begins no token is never skipped: a text without string
/// literals that holds one does not tokenize.
pub proof fn unrecognized_character_fails(s: Seq<char>, k: int)
    requires
        0 <= k < s.len(),
        !is_recognized(s[k]),
        forall|m: int| 0 <= m < s.len() ==> !is_quote(#[trigger] s[m]),
    ensures
        lex(s) is Err,
{
    lemma_success_covers(s, 0);
}

/// A minus sign directly followed by a digit begins a numeric literal that
/// takes that digit in, rather than standing as an operator.
pub proof fn minus_fuses_with_digit(s: Seq<char>, i: int)
    requires
        0 <= i,
        i + 1 < s.len(),
        s[i] == '-',
        is_digit(s[i + 1]),
    ensures
        scan_token(s, i) == number_at(s, i),
        run_end(s, i + 1, false) >= i + 2,
{
    lemma_run_end_bounds(s, i + 1, false);
}

} // verus!
