//! What holds of every parse.

use crate::grammar::{
    all_nonempty, escape_value, halt, lemma_operation_bounds, lemma_operations_from_nonempty,
    lemma_quote_end_bounds, lemma_run_end, lemma_run_end_is, lemma_seps_end_bounds, more_tokens,
    operation_at, operations_from, opens_unclosed_quote, parse, quote_end, quoted_at, run_end,
    seps_end, token_at, unescaped, word_at, CharClass, Operations, ParseError,
};
use crate::tokenizer::outcome_view;
use vstd::prelude::*;

verus! {

/// No parse holds an empty operation: separators in a row, and separators
/// at either end of the line, leave nothing behind.
pub proof fn law_no_empty_operation(s: Seq<char>)
    ensures
        parse(s) matches Ok(ops) ==> all_nonempty(ops),
{
    lemma_seps_end_bounds(s, 0);
    lemma_operations_from_nonempty(s, seps_end(s, 0));
}

/// A word is the line's own text from its first character on, as far as no
/// space and no semicolon stands: it holds neither, and one of them or the
/// end of the line follows it.
pub proof fn law_word_is_maximal(s: Seq<char>, i: int)
    ensures
        word_at(s, i) matches Some((t, e)) ==> {
            &&& 0 <= i < e <= s.len()
            &&& t == s.subrange(i, e)
            &&& forall|k: int| i <= k < e ==> #[trigger] s[k] != ' ' && s[k] != ';'
            &&& e < s.len() ==> s[e] == ' ' || s[e] == ';'
        },
{
    if 0 <= i < s.len() {
        lemma_run_end(s, i, CharClass::Word);
        let e = run_end(s, i, CharClass::Word);
        assert forall|k: int| i <= k < e implies #[trigger] s[k] != ' ' && s[k] != ';' by {
            assert(CharClass::Word.holds(s[k]));
        }
    }
}

/// A quoted token stands between two double quotes of the line, and holds
/// at most as many characters as stand between them.
pub proof fn law_quoted_is_enclosed(s: Seq<char>, i: int)
    ensures
        quoted_at(s, i) matches Some((t, e)) ==> {
            &&& 0 <= i && i + 2 <= e <= s.len()
            &&& s[i] == '"'
            &&& s[e - 1] == '"'
            &&& t.len() <= e - i - 2
        },
{
    if 0 <= i < s.len() {
        lemma_quote_end_bounds(s, i + 1);
        lemma_unescaped_len(s, i + 1, quote_end(s, i + 1));
    }
}

/// Expanding escapes never makes text longer.
pub proof fn lemma_unescaped_len(s: Seq<char>, k: int, end: int)
    requires
        0 <= k <= end <= s.len(),
    ensures
        unescaped(s, k, end).len() <= end - k,
    decreases end - k,
{
    if k < end {
        if s[k] == '\\' && k + 1 < end {
            lemma_unescaped_len(s, k + 2, end);
        } else {
            lemma_unescaped_len(s, k + 1, end);
        }
    }
}

/// Whether `e` names a place at which the line `s` does go wrong: a double
/// quote that nothing closes, or a character with more than blanks from it on.
pub open spec fn explains(s: Seq<char>, e: ParseError) -> bool {
    match e {
        ParseError::UnterminatedQuote { position } => opens_unclosed_quote(s, position as int),
        ParseError::UnexpectedCharacter { position } => position < s.len() && run_end(
            s,
            position as int,
            CharClass::Blank,
        ) < s.len(),
    }
}

/// An error met from any index on names a place at which the line goes wrong.
pub proof fn lemma_operations_from_error(s: Seq<char>, i: int)
    requires
        0 <= i <= s.len() <= usize::MAX,
    ensures
        operations_from(s, i) matches Err(e) ==> explains(s, e),
    decreases s.len() - i,
{
    lemma_operation_bounds(s, i);
    match operation_at(s, i) {
        None => {},
        Some((op, e)) => {
            let k = seps_end(s, e);
            lemma_seps_end_bounds(s, e);
            if k > e {
                lemma_operations_from_error(s, k);
            }
        },
    }
}

/// Every error points into the line: at an opening double quote that
/// nothing closes, or at the first character that the grammar cannot take.
pub proof fn law_error_explained(s: Seq<char>)
    requires
        s.len() <= usize::MAX,
    ensures
        parse(s) matches Err(e) ==> explains(s, e),
{
    lemma_seps_end_bounds(s, 0);
    lemma_operations_from_error(s, seps_end(s, 0));
}

/// A line of nothing but spaces, tabs and semicolons holds no operation.
/// Left out is the line of blanks alone that starts with a tab: there the
/// tab starts a word.
pub proof fn law_only_separators(s: Seq<char>)
    requires
        forall|k: int| 0 <= k < s.len() ==> CharClass::Filler.holds(#[trigger] s[k]),
        s.len() > 0 && s[0] == '\t' ==> exists|k: int| 0 <= k < s.len() && s[k] == ';',
    ensures
        parse(s) == Ok::<Operations, ParseError>(Seq::empty()),
{
    let j = run_end(s, 0, CharClass::Blank);
    lemma_run_end(s, 0, CharClass::Blank);
    if j < s.len() {
        assert(CharClass::Filler.holds(s[j]));
        lemma_run_end(s, j + 1, CharClass::Filler);
        let k = run_end(s, j + 1, CharClass::Filler);
        assert(k == s.len());
        assert(seps_end(s, 0) == s.len());
        assert(token_at(s, k) is None);
        assert(run_end(s, k, CharClass::Blank) == k);
        assert(operations_from(s, k) == halt(s, k, k));
    } else {
        assert(seps_end(s, 0) == 0);
        if s.len() > 0 {
            assert(CharClass::Blank.holds(s[0]));
            if s[0] == '\t' {
                let w = choose|k: int| 0 <= k < s.len() && s[k] == ';';
                assert(CharClass::Blank.holds(s[w]));
            }
            assert(s[0] == ' ');
        }
        assert(token_at(s, 0) is None);
        assert(operations_from(s, 0) == halt(s, 0, 0));
    }
}

/// A line that is one word (no space, no semicolon, no double quote in
/// front) is one operation of one token, the line itself: outside quotes a
/// backslash is a character like any other.
pub proof fn law_bare_word(s: Seq<char>)
    requires
        s.len() > 0,
        s[0] != '"',
        forall|k: int| 0 <= k < s.len() ==> CharClass::Word.holds(#[trigger] s[k]),
    ensures
        parse(s) == Ok::<Operations, ParseError>(seq![seq![s]]),
{
    let n = s.len() as int;
    lemma_run_end(s, 0, CharClass::Blank);
    let j = run_end(s, 0, CharClass::Blank);
    if j < n {
        assert(CharClass::Word.holds(s[j]));
    }
    assert(seps_end(s, 0) == 0);
    assert(CharClass::Word.holds(s[0]));
    lemma_run_end_is(s, 0, n, CharClass::Word);
    assert(s.subrange(0, n) =~= s);
    assert(token_at(s, 0) == Some((s, n)));
    assert(run_end(s, n, CharClass::Space) == n);
    assert(more_tokens(s, n) == (Seq::<Seq<char>>::empty(), n));
    assert(seq![s] + Seq::<Seq<char>>::empty() =~= seq![s]);
    assert(operation_at(s, 0) == Some((seq![s], n)));
    assert(run_end(s, n, CharClass::Blank) == n);
    assert(seps_end(s, n) == n);
    assert(halt(s, n, n) == Ok::<Operations, ParseError>(Seq::empty()));
    assert(seq![seq![s]] + Seq::<Seq<Seq<char>>>::empty() =~= seq![seq![s]]);
}

/// Between double quotes a backslash and the character `c` after it make one
/// character: the control character that `c` names, or `c` itself.
pub proof fn law_quoted_escape(c: char)
    ensures
        parse(seq!['"', '\\', c, '"']) == Ok::<Operations, ParseError>(
            seq![seq![seq![escape_value(c)]]],
        ),
        c != 'r' && c != 'n' && c != 't' && c != 'v' ==> escape_value(c) == c,
{
    let s = seq!['"', '\\', c, '"'];
    let t = seq![escape_value(c)];
    assert(run_end(s, 0, CharClass::Blank) == 0);
    assert(seps_end(s, 0) == 0);
    assert(quote_end(s, 3) == 3);
    assert(quote_end(s, 1) == 3);
    assert(unescaped(s, 3, 3) == Seq::<char>::empty());
    assert(unescaped(s, 1, 3) == seq![escape_value(s[2])] + unescaped(s, 3, 3));
    assert(unescaped(s, 1, 3) =~= t);
    assert(token_at(s, 0) == Some((t, 4int)));
    assert(run_end(s, 4, CharClass::Space) == 4);
    assert(more_tokens(s, 4) == (Seq::<Seq<char>>::empty(), 4int));
    assert(seq![t] + Seq::<Seq<char>>::empty() =~= seq![t]);
    assert(operation_at(s, 0) == Some((seq![t], 4int)));
    assert(run_end(s, 4, CharClass::Blank) == 4);
    assert(seps_end(s, 4) == 4);
    assert(halt(s, 4, 4) == Ok::<Operations, ParseError>(Seq::empty()));
    assert(seq![seq![t]] + Seq::<Seq<Seq<char>>>::empty() =~= seq![seq![t]]);
}

/// One operation with nothing but spaces, tabs and semicolons around it is
/// the whole parse, however many separators stand before and after it.
/// What stands before it, if anything, holds a semicolon. Left out is the
/// operation whose leading tab a separator in front of it takes.
pub proof fn law_separators_collapse(s: Seq<char>, a: int, b: int, op: Seq<Seq<char>>)
    requires
        0 <= a <= b <= s.len(),
        operation_at(s, a) == Some((op, b)),
        forall|k: int| 0 <= k < a ==> CharClass::Filler.holds(#[trigger] s[k]),
        a > 0 ==> exists|k: int| 0 <= k < a && s[k] == ';',
        s[a] == '\t' ==> a == 0 && seps_end(s, 0) == 0,
        forall|k: int| b <= k < s.len() ==> CharClass::Filler.holds(#[trigger] s[k]),
    ensures
        parse(s) == Ok::<Operations, ParseError>(seq![op]),
{
    let n = s.len() as int;
    lemma_operation_bounds(s, a);
    assert(s[a] != ' ' && s[a] != ';');
    // what stands in front
    lemma_run_end(s, 0, CharClass::Blank);
    let j = run_end(s, 0, CharClass::Blank);
    if a > 0 {
        let w = choose|k: int| 0 <= k < a && s[k] == ';';
        assert(!CharClass::Blank.holds(s[w]));
        assert(j <= w);
        assert(CharClass::Filler.holds(s[j]));
        lemma_run_end_is(s, j + 1, a, CharClass::Filler);
        assert(seps_end(s, 0) == a);
    } else {
        assert(seps_end(s, 0) == 0);
    }
    // what stands behind
    lemma_run_end(s, b, CharClass::Blank);
    let j2 = run_end(s, b, CharClass::Blank);
    if j2 < n {
        assert(CharClass::Filler.holds(s[j2]));
        lemma_run_end(s, j2 + 1, CharClass::Filler);
        let k = run_end(s, j2 + 1, CharClass::Filler);
        assert(k == n);
        assert(seps_end(s, b) == n);
        assert(token_at(s, n) is None);
        assert(run_end(s, n, CharClass::Blank) == n);
        assert(operations_from(s, n) == halt(s, n, n));
    } else {
        assert(seps_end(s, b) == b);
        lemma_run_end(s, b, CharClass::Space);
        let q = run_end(s, b, CharClass::Space);
        if q > b && q < n {
            assert(CharClass::Filler.holds(s[q]));
        }
    }
    assert(seq![op] + Seq::<Seq<Seq<char>>>::empty() =~= seq![op]);
}

/// The result depends on the characters of the line and on nothing else:
/// two runs on equal lines give equal operations, or the same error.
pub proof fn law_deterministic(
    a: &str,
    b: &str,
    out_a: Result<Vec<Vec<String>>, ParseError>,
    out_b: Result<Vec<Vec<String>>, ParseError>,
)
    requires
        a@ == b@,
        outcome_view(out_a) == parse(a@),
        outcome_view(out_b) == parse(b@),
    ensures
        outcome_view(out_a) == outcome_view(out_b),
{
}

} // verus!
