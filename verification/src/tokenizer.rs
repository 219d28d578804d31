//! The tokenizer: one pass over the characters of a line.

use crate::grammar::{
    all_nonempty, escape_value, halt, lemma_operation_stops, lemma_operations_from_nonempty,
    lemma_quote_end_bounds, lemma_run_end, lemma_seps_end_bounds, lemma_token_bounds, more_tokens, operation_at, operations_from, parse, prepend, quote_end,
    quoted_at, run_end, seps_end, token_at, unescaped, word_at, CharClass, Operations, ParseError,
};
use crate::text::{chars_of, push_char, string_of};
use vstd::prelude::*;

verus! {

/// What a result of the tokenizer stands for in contracts.
pub open spec fn outcome_view(out: Result<Vec<Vec<String>>, ParseError>) -> Result<
    Operations,
    ParseError,
> {
    match out {
        Ok(ops) => Ok(ops.deep_view()),
        Err(e) => Err(e),
    }
}

/// `done` followed by the operations of `rest`, or the error of `rest`.
pub open spec fn prefixed(done: Operations, rest: Result<Operations, ParseError>) -> Result<
    Operations,
    ParseError,
> {
    match rest {
        Ok(ops) => Ok(done + ops),
        Err(e) => Err(e),
    }
}

/// Whether `c` belongs to `class`.
pub fn in_class(class: CharClass, c: char) -> (b: bool)
    ensures
        b == class.holds(c),
{
    match class {
        CharClass::Blank => c == ' ' || c == '\t',
        CharClass::Space => c == ' ',
        CharClass::Filler => c == ' ' || c == '\t' || c == ';',
        CharClass::Word => c != ' ' && c != ';',
    }
}

/// The character that a backslash and `c` stand for inside a quoted token.
pub fn unescape_char(c: char) -> (out: char)
    ensures
        out == escape_value(c),
{
    match c {
        'r' => '\r',
        'n' => '\n',
        't' => '\t',
        'v' => '\x0b',
        _ => c,
    }
}

/// Skips the longest run of characters of `class` that starts at `i`.
pub fn scan_run(chars: &[char], i: usize, class: CharClass) -> (e: usize)
    requires
        i <= chars@.len(),
    ensures
        e == run_end(chars@, i as int, class),
        i <= e <= chars@.len(),
{
    let mut j: usize = i;
    while j < chars.len() && in_class(class, chars[j])
        invariant
            i <= j <= chars@.len(),
            run_end(chars@, j as int, class) == run_end(chars@, i as int, class),
        decreases chars@.len() - j,
    {
        j += 1;
    }
    j
}

/// Skips the longest run of separators that starts at `i`.
pub fn skip_separators(chars: &[char], i: usize) -> (e: usize)
    requires
        i <= chars@.len(),
    ensures
        e == seps_end(chars@, i as int),
        i <= e <= chars@.len(),
{
    let j = scan_run(chars, i, CharClass::Blank);
    if j < chars.len() && chars[j] == ';' {
        scan_run(chars, j + 1, CharClass::Filler)
    } else {
        i
    }
}

/// Reads the quoted token that starts at `i`: its text with escapes
/// expanded, and the index behind its closing quote. `None` where no double
/// quote stands at `i`, or none closes it.
pub fn quoted_token(chars: &[char], i: usize) -> (r: Option<(String, usize)>)
    requires
        i <= chars@.len(),
    ensures
        match r {
            Some((t, e)) => quoted_at(chars@, i as int) == Some((t@, e as int)),
            None => quoted_at(chars@, i as int) is None,
        },
{
    if i >= chars.len() || chars[i] != '"' {
        return None;
    }
    let ghost s = chars@;
    let ghost close = quote_end(s, i + 1);
    proof {
        lemma_quote_end_bounds(s, i + 1);
    }
    let mut out = String::new();
    let mut k: usize = i + 1;
    while k < chars.len()
        invariant
            s == chars@,
            i < k <= close <= s.len(),
            s[i as int] == '"',
            close == quote_end(s, i + 1),
            quote_end(s, k as int) == close,
            out@ + unescaped(s, k as int, close) == unescaped(s, i + 1, close),
        decreases s.len() - k,
    {
        let c = chars[k];
        if c == '"' {
            assert(out@ + Seq::<char>::empty() =~= out@);
            return Some((out, k + 1));
        } else if c == '\\' {
            if k + 1 < chars.len() {
                let x = unescape_char(chars[k + 1]);
                proof {
                    lemma_quote_end_bounds(s, k + 2);
                    assert(out@.push(x) + unescaped(s, k + 2, close) =~= out@ + (seq![x]
                        + unescaped(s, k + 2, close)));
                }
                push_char(&mut out, x);
                k += 2;
            } else {
                return None;
            }
        } else {
            proof {
                lemma_quote_end_bounds(s, k + 1);
                assert(out@.push(c) + unescaped(s, k + 1, close) =~= out@ + (seq![c] + unescaped(
                    s,
                    k + 1,
                    close,
                )));
            }
            push_char(&mut out, c);
            k += 1;
        }
    }
    None
}

/// Reads the word that starts at `i`: the longest run without a space or a
/// semicolon, and the index behind it. `None` where the character at `i`
/// cannot start a word.
pub fn unquoted_token(chars: &[char], i: usize) -> (r: Option<(String, usize)>)
    requires
        i <= chars@.len(),
    ensures
        match r {
            Some((t, e)) => word_at(chars@, i as int) == Some((t@, e as int)),
            None => word_at(chars@, i as int) is None,
        },
{
    if i >= chars.len() {
        return None;
    }
    let c = chars[i];
    if c == '"' || c == ' ' || c == ';' {
        None
    } else {
        let e = scan_run(chars, i, CharClass::Word);
        Some((string_of(chars, i, e), e))
    }
}

/// Reads the token that starts at `i`, quoted or else a word, and the index
/// behind it. `None` where no token starts at `i`.
pub fn token(chars: &[char], i: usize) -> (r: Option<(String, usize)>)
    requires
        i <= chars@.len(),
    ensures
        match r {
            Some((t, e)) => token_at(chars@, i as int) == Some((t@, e as int)) && i < e
                <= chars@.len(),
            None => token_at(chars@, i as int) is None,
        },
{
    proof {
        lemma_token_bounds(chars@, i as int);
    }
    match quoted_token(chars, i) {
        Some(found) => Some(found),
        None => unquoted_token(chars, i),
    }
}

/// Reads the operation that starts at `i`: a token and those that follow it
/// after spaces, and the index behind the last. `None` where no token starts
/// at `i`.
pub fn operation_with_args(chars: &[char], i: usize) -> (r: Option<(Vec<String>, usize)>)
    requires
        i <= chars@.len(),
    ensures
        match r {
            Some((op, e)) => operation_at(chars@, i as int) == Some((op.deep_view(), e as int))
                && i < e <= chars@.len(),
            None => operation_at(chars@, i as int) is None,
        },
{
    let ghost s = chars@;
    match token(chars, i) {
        None => None,
        Some((first, e0)) => {
            let ghost target = seq![first@] + more_tokens(s, e0 as int).0;
            let ghost target_end = more_tokens(s, e0 as int).1;
            let mut op: Vec<String> = Vec::new();
            op.push(first);
            assert(op.deep_view() =~= seq![first@]);
            let mut e: usize = e0;
            let mut more = true;
            while more
                invariant
                    s == chars@,
                    i < e <= s.len(),
                    op.deep_view() + more_tokens(s, e as int).0 == target,
                    more_tokens(s, e as int).1 == target_end,
                    !more ==> more_tokens(s, e as int).0 == Seq::<Seq<char>>::empty()
                        && more_tokens(s, e as int).1 == e,
                decreases s.len() - e, (if more { 1int } else { 0int }),
            {
                let q = scan_run(chars, e, CharClass::Space);
                if q == e {
                    more = false;
                } else {
                    match token(chars, q) {
                        None => {
                            more = false;
                        },
                        Some((t, e2)) => {
                            proof {
                                let rest = more_tokens(s, e2 as int).0;
                                assert(op.deep_view().push(t@) + rest =~= op.deep_view() + (seq![
                                    t@,
                                ] + rest));
                            }
                            let ghost before = op.deep_view();
                            op.push(t);
                            assert(op.deep_view() =~= before.push(t@));
                            e = e2;
                        },
                    }
                }
            }
            assert(op.deep_view() + Seq::<Seq<char>>::empty() =~= op.deep_view());
            Some((op, e))
        },
    }
}

/// Decides how the line ends where the grammar stops at `e`, after no token
/// was found at `attempt`.
fn end_of_line(chars: &[char], e: usize, attempt: usize) -> (r: Result<(), ParseError>)
    requires
        e <= chars@.len(),
        attempt <= chars@.len(),
        token_at(chars@, attempt as int) is None,
    ensures
        halt(chars@, e as int, attempt as int) == match r {
            Ok(_) => Ok::<Operations, ParseError>(Seq::empty()),
            Err(err) => Err::<Operations, ParseError>(err),
        },
{
    if attempt < chars.len() && chars[attempt] == '"' {
        Err(ParseError::UnterminatedQuote { position: attempt })
    } else if scan_run(chars, e, CharClass::Blank) >= chars.len() {
        Ok(())
    } else {
        Err(ParseError::UnexpectedCharacter { position: e })
    }
}

/// Operations have as many tokens as their views.
proof fn lemma_lengths(ops: &Vec<Vec<String>>)
    ensures
        forall|n: int|
            0 <= n < ops.len() ==> (#[trigger] ops[n]).len() == ops.deep_view()[n].len(),
{
    assert forall|n: int| 0 <= n < ops.len() implies (#[trigger] ops[n]).len()
        == ops.deep_view()[n].len() by {
        assert(ops.deep_view()[n] == ops[n].deep_view());
    }
}

/// Parses a whole line, given as its characters: its operations in order,
/// or the first thing that is wrong with it.
pub fn operation_sequence(chars: &[char]) -> (out: Result<Vec<Vec<String>>, ParseError>)
    ensures
        outcome_view(out) == parse(chars@),
        out matches Ok(ops) ==> forall|n: int| 0 <= n < ops.len() ==> (#[trigger] ops[n]).len() >= 1,
{
    let ghost s = chars@;
    proof {
        lemma_seps_end_bounds(s, 0);
        lemma_operations_from_nonempty(s, seps_end(s, 0));
    }
    let mut ops: Vec<Vec<String>> = Vec::new();
    let mut i: usize = skip_separators(chars, 0);
    assert(ops.deep_view() =~= Seq::<Seq<Seq<char>>>::empty());
    loop
        invariant
            s == chars@,
            i <= s.len(),
            parse(s) == prefixed(ops.deep_view(), operations_from(s, i as int)),
            parse(s) matches Ok(all) ==> all_nonempty(all),
        decreases s.len() - i,
    {
        match operation_with_args(chars, i) {
            None => {
                let verdict = end_of_line(chars, i, i);
                assert(ops.deep_view() + Seq::<Seq<Seq<char>>>::empty() =~= ops.deep_view());
                proof {
                    lemma_lengths(&ops);
                }
                return match verdict {
                    Ok(_) => Ok(ops),
                    Err(err) => Err(err),
                };
            },
            Some((op, e)) => {
                let ghost done = ops.deep_view();
                let ghost opv = op.deep_view();
                ops.push(op);
                assert(ops.deep_view() =~= done.push(opv));
                proof {
                    let tail = if seps_end(s, e as int) > e {
                        operations_from(s, seps_end(s, e as int))
                    } else {
                        let q = run_end(s, e as int, CharClass::Space);
                        halt(s, e as int, if q > e { q } else { s.len() as int })
                    };
                    assert(operations_from(s, i as int) == prepend(opv, tail));
                    match tail {
                        Ok(rest) => {
                            assert(done + (seq![opv] + rest) =~= done.push(opv) + rest);
                        },
                        Err(_) => {},
                    }
                    assert(prefixed(done, prepend(opv, tail)) == prefixed(done.push(opv), tail));
                }
                let k = skip_separators(chars, e);
                if k > e {
                    i = k;
                } else {
                    let q = scan_run(chars, e, CharClass::Space);
                    proof {
                        lemma_run_end(s, e as int, CharClass::Space);
                    }
                    let attempt = if q > e { q } else { chars.len() };
                    assert(token_at(s, attempt as int) is None) by {
                        lemma_operation_stops(s, i as int);
                    }
                    let verdict = end_of_line(chars, e, attempt);
                    assert(ops.deep_view() + Seq::<Seq<Seq<char>>>::empty() =~= ops.deep_view());
                    proof {
                        lemma_lengths(&ops);
                    }
                    return match verdict {
                        Ok(_) => Ok(ops),
                        Err(err) => Err(err),
                    };
                }
            },
        }
    }
}

/// Splits a line of semicolon-separated operations into its operations. Each
/// operation is a non-empty list of tokens: the name of the operation, then
/// its arguments.
///
/// The line is expected to hold no comment and no backticks that still need
/// to be processed. A line that the grammar does not take to its end is not
/// cut short: the error names the double quote that nothing closes, or the
/// index at which the grammar stops.
pub fn tokenize_operation_sequence(input: &str) -> (out: Result<Vec<Vec<String>>, ParseError>)
    ensures
        outcome_view(out) == parse(input@),
        out matches Ok(ops) ==> forall|n: int| 0 <= n < ops.len() ==> (#[trigger] ops[n]).len() >= 1,
{
    let chars = chars_of(input);
    operation_sequence(chars.as_slice())
}

} // verus!
