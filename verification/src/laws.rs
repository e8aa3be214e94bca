//! General properties of the splitter, stated over its mathematical model
//! and proved once for all inputs.

use vstd::prelude::*;

use crate::scan;
use crate::split_spec;
use crate::Token;

verus! {

/// The words still to be emitted when the input is split on spaces alone,
/// given the text `acc` already accumulated for the word under construction:
/// maximal runs of non-space characters, so consecutive, leading and
/// trailing spaces yield no empty words.
pub open spec fn words_from(s: Seq<char>, acc: Seq<char>) -> Seq<Seq<char>>
    decreases s.len(),
{
    if s.len() == 0 {
        if acc.len() > 0 {
            seq![acc]
        } else {
            Seq::empty()
        }
    } else if s.first() == ' ' {
        if acc.len() > 0 {
            seq![acc] + words_from(s.drop_first(), Seq::empty())
        } else {
            words_from(s.drop_first(), Seq::empty())
        }
    } else {
        words_from(s.drop_first(), acc.push(s.first()))
    }
}

/// The space-separated words of a sequence: its maximal runs of non-space
/// characters, in order.
pub open spec fn words(s: Seq<char>) -> Seq<Seq<char>> {
    words_from(s, Seq::empty())
}

/// A word is never empty: it is only ever emitted once at least one
/// character has been accumulated.
proof fn lemma_words_from_nonempty(s: Seq<char>, acc: Seq<char>)
    ensures
        forall|j: int| 0 <= j < words_from(s, acc).len() ==> words_from(s, acc)[j].len() > 0,
    decreases s.len(),
{
    if s.len() == 0 {
        if acc.len() > 0 {
            assert(words_from(s, acc) == seq![acc]);
            assert(words_from(s, acc)[0].len() > 0);
        }
        assert(forall|j: int| 0 <= j < words_from(s, acc).len() ==> words_from(s, acc)[j].len() > 0);
    } else if s.first() == ' ' {
        lemma_words_from_nonempty(s.drop_first(), Seq::empty());
        let ws = words_from(s.drop_first(), Seq::empty());
        if acc.len() > 0 {
            assert(words_from(s, acc) == seq![acc] + ws);
            assert(forall|j: int|
                0 <= j < words_from(s, acc).len() ==> words_from(s, acc)[j] == (if j == 0 {
                    acc
                } else {
                    ws[j - 1]
                }));
        }
        assert(forall|j: int| 0 <= j < words_from(s, acc).len() ==> words_from(s, acc)[j].len() > 0);
    } else {
        lemma_words_from_nonempty(s.drop_first(), acc.push(s.first()));
        assert(words_from(s, acc) == words_from(s.drop_first(), acc.push(s.first())));
        assert(forall|j: int| 0 <= j < words_from(s, acc).len() ==> words_from(s, acc)[j].len() > 0);
    }
}

/// When no character of the input belongs to the delimiter set, no quoted
/// span ever opens, and the scan emits exactly the space-separated words.
proof fn lemma_scan_no_delimiters(s: Seq<char>, delims: Set<char>, acc: Seq<char>)
    requires
        forall|i: int| 0 <= i < s.len() ==> !delims.contains(s[i]),
    ensures
        scan(s, delims, acc, None) == Some(
            words_from(s, acc).map_values(|w: Seq<char>| Token { text: w, escaped_with: None }),
        ),
    decreases s.len(),
{
    let f = |w: Seq<char>| Token { text: w, escaped_with: None };
    if s.len() == 0 {
        if acc.len() > 0 {
            assert(seq![Token { text: acc, escaped_with: None }] =~= words_from(s, acc).map_values(
                f,
            ));
        } else {
            assert(Seq::<Token>::empty() =~= words_from(s, acc).map_values(f));
        }
    } else {
        let c = s.first();
        let rest = s.drop_first();
        assert(forall|i: int| 0 <= i < rest.len() ==> !delims.contains(rest[i])) by {
            assert(forall|i: int| 0 <= i < rest.len() ==> rest[i] == s[i + 1]);
        }
        assert(!delims.contains(c));
        if c == ' ' {
            lemma_scan_no_delimiters(rest, delims, Seq::empty());
            if acc.len() > 0 {
                assert(seq![Token { text: acc, escaped_with: None }] + words_from(
                    rest,
                    Seq::empty(),
                ).map_values(f) =~= words_from(s, acc).map_values(f));
            }
        } else {
            lemma_scan_no_delimiters(rest, delims, acc.push(c));
        }
    }
}

/// When the input holds no character of the delimiter set, splitting
/// succeeds and yields exactly the space-separated words of the input, each
/// non-empty and closed by no delimiter.
pub proof fn lemma_no_delimiters(s: Seq<char>, delims: Set<char>)
    requires
        forall|i: int| 0 <= i < s.len() ==> !delims.contains(s[i]),
    ensures
        split_spec(s, delims) == Some(
            words(s).map_values(|w: Seq<char>| Token { text: w, escaped_with: None }),
        ),
        forall|j: int| 0 <= j < words(s).len() ==> words(s)[j].len() > 0,
{
    lemma_scan_no_delimiters(s, delims, Seq::empty());
    lemma_words_from_nonempty(s, Seq::empty());
}

/// What the splitter guarantees of every token it emits. A token closed by
/// no delimiter is a word: non-empty, with no space and no delimiter
/// character in its text. A token closed by a delimiter records a character
/// of the delimiter set other than the space, and its text never holds that
/// character, since its first occurrence would have closed the span earlier.
pub open spec fn token_well_formed(t: Token, delims: Set<char>) -> bool {
    match t.escaped_with {
        None => t.text.len() > 0 && forall|i: int|
            0 <= i < t.text.len() ==> t.text[i] != ' ' && !delims.contains(t.text[i]),
        Some(e) => delims.contains(e) && e != ' ' && forall|i: int|
            0 <= i < t.text.len() ==> t.text[i] != e,
    }
}

/// Every token a scan emits is well-formed, provided the accumulated text
/// respects the state it was gathered in: outside a span it holds no space
/// and no delimiter character, inside a span over `e` it holds no `e`.
proof fn lemma_scan_well_formed(s: Seq<char>, delims: Set<char>, acc: Seq<char>, active: Option<
    char,
>)
    requires
        match active {
            None => forall|i: int|
                0 <= i < acc.len() ==> acc[i] != ' ' && !delims.contains(acc[i]),
            Some(e) => delims.contains(e) && e != ' ' && forall|i: int|
                0 <= i < acc.len() ==> acc[i] != e,
        },
        scan(s, delims, acc, active) is Some,
    ensures
        forall|j: int|
            0 <= j < scan(s, delims, acc, active)->Some_0.len() ==> token_well_formed(
                scan(s, delims, acc, active)->Some_0[j],
                delims,
            ),
    decreases s.len(),
{
    let ts = scan(s, delims, acc, active)->Some_0;
    if s.len() == 0 {
        if acc.len() > 0 {
            assert(token_well_formed(ts[0], delims));
        }
        assert(forall|j: int| 0 <= j < ts.len() ==> token_well_formed(ts[j], delims));
    } else {
        let c = s.first();
        let rest = s.drop_first();
        match active {
            Some(e) => {
                if c == e {
                    lemma_scan_well_formed(rest, delims, Seq::empty(), None);
                    let tail = scan(rest, delims, Seq::empty(), None)->Some_0;
                    assert(ts == seq![Token { text: acc, escaped_with: Some(e) }] + tail);
                    assert(token_well_formed(ts[0], delims));
                    assert(forall|j: int| 1 <= j < ts.len() ==> ts[j] == tail[j - 1]);
                } else {
                    lemma_scan_well_formed(rest, delims, acc.push(c), active);
                }
            },
            None => {
                if c == ' ' {
                    lemma_scan_well_formed(rest, delims, Seq::empty(), None);
                    let tail = scan(rest, delims, Seq::empty(), None)->Some_0;
                    if acc.len() > 0 {
                        assert(ts == seq![Token { text: acc, escaped_with: None }] + tail);
                        assert(token_well_formed(ts[0], delims));
                        assert(forall|j: int| 1 <= j < ts.len() ==> ts[j] == tail[j - 1]);
                    }
                } else if delims.contains(c) {
                    lemma_scan_well_formed(rest, delims, acc, Some(c));
                } else {
                    lemma_scan_well_formed(rest, delims, acc.push(c), None);
                }
            },
        }
        assert(forall|j: int| 0 <= j < ts.len() ==> token_well_formed(ts[j], delims));
    }
}

/// Every token of a successful split is well-formed: a word token is
/// non-empty and free of spaces and delimiter characters, and a quoted token
/// never holds the delimiter that closed it.
pub proof fn lemma_split_well_formed(s: Seq<char>, delims: Set<char>)
    requires
        split_spec(s, delims) is Some,
    ensures
        forall|j: int|
            0 <= j < split_spec(s, delims)->Some_0.len() ==> token_well_formed(
                split_spec(s, delims)->Some_0[j],
                delims,
            ),
{
    lemma_scan_well_formed(s, delims, Seq::empty(), None);
}

/// A token written back out: a quoted token wrapped in the pair of
/// delimiters that closed it, a word token as its bare text.
pub open spec fn render(t: Token) -> Seq<char> {
    match t.escaped_with {
        None => t.text,
        Some(e) => seq![e] + t.text + seq![e],
    }
}

/// A token sequence written back out as one input, the rendered tokens
/// joined by single spaces.
pub open spec fn rejoin(ts: Seq<Token>) -> Seq<char>
    decreases ts.len(),
{
    if ts.len() == 0 {
        Seq::empty()
    } else if ts.len() == 1 {
        render(ts.first())
    } else {
        render(ts.first()) + seq![' '] + rejoin(ts.drop_first())
    }
}

/// Scanning literal text outside a quoted span only accumulates it: none of
/// its characters is a space or a delimiter, so none ends the token.
proof fn lemma_scan_literal_outside(
    text: Seq<char>,
    tail: Seq<char>,
    delims: Set<char>,
    acc: Seq<char>,
)
    requires
        forall|i: int| 0 <= i < text.len() ==> text[i] != ' ' && !delims.contains(text[i]),
    ensures
        scan(text + tail, delims, acc, None) == scan(tail, delims, acc + text, None),
    decreases text.len(),
{
    if text.len() == 0 {
        assert(text + tail =~= tail);
        assert(acc + text =~= acc);
    } else {
        let c = text.first();
        let s = text + tail;
        assert(s.first() == c);
        assert(s.drop_first() =~= text.drop_first() + tail);
        assert(forall|i: int|
            0 <= i < text.drop_first().len() ==> text.drop_first()[i] == text[i + 1]);
        lemma_scan_literal_outside(text.drop_first(), tail, delims, acc.push(c));
        assert(acc.push(c) + text.drop_first() =~= acc + text);
    }
}

/// Scanning literal text inside a span open over `e` only accumulates it:
/// no character of the text is `e`, so the span stays open throughout.
proof fn lemma_scan_literal_inside(
    text: Seq<char>,
    tail: Seq<char>,
    delims: Set<char>,
    acc: Seq<char>,
    e: char,
)
    requires
        forall|i: int| 0 <= i < text.len() ==> text[i] != e,
    ensures
        scan(text + tail, delims, acc, Some(e)) == scan(tail, delims, acc + text, Some(e)),
    decreases text.len(),
{
    if text.len() == 0 {
        assert(text + tail =~= tail);
        assert(acc + text =~= acc);
    } else {
        let c = text.first();
        let s = text + tail;
        assert(s.first() == c);
        assert(s.drop_first() =~= text.drop_first() + tail);
        assert(forall|i: int|
            0 <= i < text.drop_first().len() ==> text.drop_first()[i] == text[i + 1]);
        lemma_scan_literal_inside(text.drop_first(), tail, delims, acc.push(c), e);
        assert(acc.push(c) + text.drop_first() =~= acc + text);
    }
}

/// Splitting is left inverse to rejoining on well-formed tokens: writing a
/// well-formed token sequence back out and splitting it again with the same
/// delimiter set yields the very same tokens.
pub proof fn lemma_rejoin_round_trip(ts: Seq<Token>, delims: Set<char>)
    requires
        forall|j: int| 0 <= j < ts.len() ==> token_well_formed(ts[j], delims),
    ensures
        split_spec(rejoin(ts), delims) == Some(ts),
    decreases ts.len(),
{
    if ts.len() == 0 {
        assert(Seq::<Token>::empty() =~= ts);
    } else {
        let t = ts.first();
        let tr = ts.drop_first();
        assert(token_well_formed(t, delims));
        assert(forall|j: int| 0 <= j < tr.len() ==> tr[j] == ts[j + 1]);
        let tail: Seq<char> = if ts.len() == 1 {
            Seq::empty()
        } else {
            seq![' '] + rejoin(tr)
        };
        assert(rejoin(ts) =~= render(t) + tail);
        if ts.len() > 1 {
            lemma_rejoin_round_trip(tr, delims);
            assert(tail.first() == ' ');
            assert(tail.drop_first() =~= rejoin(tr));
            assert(scan(tail, delims, Seq::empty(), None) == Some(tr));
        } else {
            assert(scan(tail, delims, Seq::empty(), None) == Some(Seq::<Token>::empty()));
        }
        match t.escaped_with {
            None => {
                lemma_scan_literal_outside(t.text, tail, delims, Seq::empty());
                assert(Seq::empty() + t.text =~= t.text);
                assert(t =~= (Token { text: t.text, escaped_with: None }));
                if ts.len() == 1 {
                    assert(seq![t] =~= ts);
                } else {
                    assert(seq![t] + tr =~= ts);
                }
            },
            Some(e) => {
                let s = render(t) + tail;
                assert(s.first() == e);
                assert(s.drop_first() =~= t.text + (seq![e] + tail));
                lemma_scan_literal_inside(t.text, seq![e] + tail, delims, Seq::empty(), e);
                assert(Seq::empty() + t.text =~= t.text);
                assert((seq![e] + tail).first() == e);
                assert((seq![e] + tail).drop_first() =~= tail);
                assert(t =~= (Token { text: t.text, escaped_with: Some(e) }));
                if ts.len() == 1 {
                    assert(seq![t] + Seq::<Token>::empty() =~= ts);
                } else {
                    assert(seq![t] + tr =~= ts);
                }
            },
        }
    }
}

/// Splitting, writing the tokens back out, and splitting again changes
/// nothing: whenever a split succeeds, splitting the rejoined tokens with
/// the same delimiter set yields the same token sequence.
pub proof fn lemma_split_rejoin(s: Seq<char>, delims: Set<char>)
    requires
        split_spec(s, delims) is Some,
    ensures
        split_spec(rejoin(split_spec(s, delims)->Some_0), delims) == split_spec(s, delims),
{
    lemma_split_well_formed(s, delims);
    lemma_rejoin_round_trip(split_spec(s, delims)->Some_0, delims);
}

/// How often a character occurs in a sequence.
pub open spec fn occurrences(s: Seq<char>, c: char) -> nat
    decreases s.len(),
{
    if s.len() == 0 {
        0
    } else {
        occurrences(s.drop_first(), c) + (if s.first() == c {
            1nat
        } else {
            0nat
        })
    }
}

/// With a single delimiter, each of its occurrences either opens or closes a
/// quoted span, so the scan ends inside a span exactly when the count of
/// occurrences still to come plus the one for an already open span is odd.
proof fn lemma_scan_parity(s: Seq<char>, e: char, acc: Seq<char>, active: Option<char>)
    requires
        e != ' ',
        match active {
            Some(a) => a == e,
            None => true,
        },
    ensures
        scan(s, Set::empty().insert(e), acc, active) is None <==> (occurrences(s, e) + (
        if active is Some {
            1nat
        } else {
            0nat
        })) % 2 == 1,
    decreases s.len(),
{
    if s.len() > 0 {
        let c = s.first();
        let rest = s.drop_first();
        match active {
            Some(_) => {
                if c == e {
                    lemma_scan_parity(rest, e, Seq::empty(), None);
                } else {
                    lemma_scan_parity(rest, e, acc.push(c), active);
                }
            },
            None => {
                if c == ' ' {
                    lemma_scan_parity(rest, e, Seq::empty(), None);
                } else if c == e {
                    lemma_scan_parity(rest, e, acc, Some(c));
                } else {
                    lemma_scan_parity(rest, e, acc.push(c), None);
                }
            },
        }
    }
}

/// With a single delimiter other than the space character, splitting fails
/// exactly when the delimiter occurs an odd number of times in the input:
/// an odd count leaves the last quoted span unterminated.
pub proof fn lemma_single_delimiter_parity(s: Seq<char>, e: char)
    requires
        e != ' ',
    ensures
        split_spec(s, Set::empty().insert(e)) is None <==> occurrences(s, e) % 2 == 1,
{
    lemma_scan_parity(s, e, Seq::empty(), None);
}

} // verus!
