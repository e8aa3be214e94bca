//! Shell-style word splitting.
//!
//! `split_string` scans its input left to right and splits it on spaces,
//! honoring quoted spans: a character from the delimiter set opens a span,
//! and the span closes on the next occurrence of that same character.
//! Inside an open span, spaces and other delimiter characters are ordinary
//! text. Each emitted token records which delimiter closed it, if any.

use std::collections::HashSet;
use vstd::prelude::*;
use vstd::string::StrSliceExecFns;

pub mod laws;

verus! {

/// The mathematical value of one emitted token: its text and, if a quoted
/// span produced it, the delimiter character that closed the span.
#[verifier::ext_equal]
pub struct Token {
    pub text: Seq<char>,
    pub escaped_with: Option<char>,
}

/// One unit of split output: the token's literal content, and the delimiter
/// that closed it (`None` for words separated only by spaces).
#[derive(PartialEq, Debug)]
pub struct SplitResult {
    pub result: String,
    pub escaped_with: Option<char>,
}

impl View for SplitResult {
    type V = Token;

    open spec fn view(&self) -> Token {
        Token { text: self.result@, escaped_with: self.escaped_with }
    }
}

/// The one way a split can fail: the input ended while a quoted span was
/// still open.
#[derive(PartialEq, Eq, Debug)]
pub enum SplitError {
    UnterminatedQuote,
}

/// The token sequence that the scan yields from a given state: `acc` is the
/// text accumulated for the token under construction and `active` the
/// delimiter of the currently open quoted span, if any. `None` means the
/// input ends inside an open span.
pub open spec fn scan(
    s: Seq<char>,
    delims: Set<char>,
    acc: Seq<char>,
    active: Option<char>,
) -> Option<Seq<Token>>
    decreases s.len(),
{
    if s.len() == 0 {
        match active {
            Some(_) => None,
            None => if acc.len() > 0 {
                Some(seq![Token { text: acc, escaped_with: None }])
            } else {
                Some(Seq::empty())
            },
        }
    } else {
        let c = s.first();
        let rest = s.drop_first();
        match active {
            Some(e) => if c == e {
                match scan(rest, delims, Seq::empty(), None) {
                    Some(ts) => Some(seq![Token { text: acc, escaped_with: Some(e) }] + ts),
                    None => None,
                }
            } else {
                scan(rest, delims, acc.push(c), Some(e))
            },
            None => if c == ' ' {
                if acc.len() > 0 {
                    match scan(rest, delims, Seq::empty(), None) {
                        Some(ts) => Some(seq![Token { text: acc, escaped_with: None }] + ts),
                        None => None,
                    }
                } else {
                    scan(rest, delims, Seq::empty(), None)
                }
            } else if delims.contains(c) {
                scan(rest, delims, acc, Some(c))
            } else {
                scan(rest, delims, acc.push(c), None)
            },
        }
    }
}

/// What splitting an input on spaces with a given delimiter set yields:
/// the tokens in input order, or `None` for an unterminated quoted span.
pub open spec fn split_spec(s: Seq<char>, delims: Set<char>) -> Option<Seq<Token>> {
    scan(s, delims, Seq::empty(), None)
}

/// The token values of a sequence of split results, in order.
pub open spec fn token_views(ts: Seq<SplitResult>) -> Seq<Token> {
    ts.map_values(|t: SplitResult| t@)
}

/// Relies on `HashSet::contains`: whether the set holds the given character.
/// `char` has the consistent `Eq` and `Hash` implementations the hash table
/// needs, so the answer is membership in the set's abstract view.
#[verifier::external_body]
fn delimiter_set_contains(escapes: &HashSet<char>, c: char) -> (r: bool)
    ensures
        r == escapes@.contains(c),
{
    escapes.contains(&c)
}

/// Relies on `String::push`: appends the character to the end of the string.
#[verifier::external_body]
fn push_char(s: &mut String, c: char)
    ensures
        final(s)@ == old(s)@.push(c),
{
    s.push(c)
}

/// Splits `source` on spaces into tokens, treating each character of
/// `escapes` as a quote delimiter: such a character opens a quoted span,
/// which the next occurrence of the same character closes. Inside an open
/// span, spaces and other delimiter characters are literal text. A token
/// closed by a delimiter records it in `escaped_with`; consecutive spaces
/// produce no empty tokens. Fails exactly when the input ends inside an
/// open span.
pub fn split_string(source: String, escapes: HashSet<char>) -> (r: Result<
    Vec<SplitResult>,
    SplitError,
>)
    ensures
        match r {
            Ok(tokens) => split_spec(source@, escapes@) == Some(token_views(tokens@)),
            Err(e) => split_spec(source@, escapes@) is None && e == SplitError::UnterminatedQuote,
        },
{
    let n = source.as_str().unicode_len();
    let mut result: Vec<SplitResult> = Vec::new();
    let mut current: String = String::new();
    let mut escape: Option<char> = None;
    let mut i: usize = 0;
    proof {
        assert(source@.skip(0) =~= source@);
        assert(token_views(result@) + scan(source@, escapes@, current@, escape)->Some_0 =~= scan(
            source@,
            escapes@,
            current@,
            escape,
        )->Some_0);
    }
    while i < n
        invariant
            i <= n,
            n == source@.len(),
            match scan(source@.skip(i as int), escapes@, current@, escape) {
                Some(ts) => split_spec(source@, escapes@) == Some(token_views(result@) + ts),
                None => split_spec(source@, escapes@) is None,
            },
        decreases n - i,
    {
        let ghost prev_result = result@;
        let ghost prev_current = current@;
        let ghost rem = source@.skip(i as int);
        proof {
            assert(rem.first() == source@[i as int]);
            assert(rem.drop_first() =~= source@.skip(i as int + 1));
        }
        let c = source.as_str().get_char(i);
        match escape {
            Some(e) => {
                if e == c {
                    result.push(SplitResult { result: current, escaped_with: Some(e) });
                    current = String::new();
                    escape = None;
                    proof {
                        lemma_token_views_push(prev_result, result@.last());
                        assert(result@.drop_last() =~= prev_result);
                        if let Some(ts) = scan(source@.skip(i as int + 1), escapes@, current@, escape) {
                            let tok = Token { text: prev_current, escaped_with: Some(e) };
                            assert(token_views(prev_result) + (seq![tok] + ts) =~= token_views(
                                result@,
                            ) + ts);
                        }
                    }
                } else {
                    push_char(&mut current, c);
                }
            },
            None => {
                if c == ' ' {
                    proof {
                        if prev_current.len() == 0 {
                            assert(prev_current =~= Seq::<char>::empty());
                        }
                    }
                    if current.as_str().unicode_len() > 0 {
                        result.push(SplitResult { result: current, escaped_with: None });
                        current = String::new();
                        proof {
                            lemma_token_views_push(prev_result, result@.last());
                            assert(result@.drop_last() =~= prev_result);
                            if let Some(ts) = scan(
                                source@.skip(i as int + 1),
                                escapes@,
                                current@,
                                escape,
                            ) {
                                let tok = Token { text: prev_current, escaped_with: None };
                                assert(token_views(prev_result) + (seq![tok] + ts) =~= token_views(
                                    result@,
                                ) + ts);
                            }
                        }
                    }
                } else if delimiter_set_contains(&escapes, c) {
                    escape = Some(c);
                } else {
                    push_char(&mut current, c);
                }
            },
        }
        i = i + 1;
    }
    proof {
        assert(source@.skip(n as int) =~= Seq::<char>::empty());
    }
    if escape.is_some() {
        return Err(SplitError::UnterminatedQuote);
    }
    if current.as_str().unicode_len() > 0 {
        let ghost prev_result = result@;
        result.push(SplitResult { result: current, escaped_with: None });
        proof {
            lemma_token_views_push(prev_result, result@.last());
            assert(result@.drop_last() =~= prev_result);
            assert(token_views(prev_result) + seq![result@.last()@] =~= token_views(result@));
        }
        return Ok(result);
    }
    proof {
        assert(token_views(result@) + Seq::<Token>::empty() =~= token_views(result@));
    }
    Ok(result)
}

/// Appending one split result to a sequence appends its token value to the
/// sequence's token values.
proof fn lemma_token_views_push(ts: Seq<SplitResult>, t: SplitResult)
    ensures
        token_views(ts.push(t)) == token_views(ts) + seq![t@],
{
    assert(token_views(ts.push(t)) =~= token_views(ts) + seq![t@]);
}

} // verus!
