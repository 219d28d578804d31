//! Writing an operation back as a line, and reading it again.

use crate::grammar::{
    halt, lemma_run_end, lemma_run_end_is, more_tokens, operation_at, parse, quote_end, run_end,
    seps_end, token_at, unescaped, CharClass, Operations, ParseError,
};
use vstd::prelude::*;

verus! {

/// A token as it is written: between double quotes if it holds a space.
pub open spec fn rendered_token(t: Seq<char>) -> Seq<char> {
    if t.contains(' ') {
        seq!['"'] + t + seq!['"']
    } else {
        t
    }
}

/// The tokens `ts` as they are written behind another token: a space before
/// each.
pub open spec fn rendered_tail(ts: Seq<Seq<char>>) -> Seq<char>
    decreases ts.len(),
{
    if ts.len() == 0 {
        Seq::empty()
    } else {
        seq![' '] + rendered_token(ts[0]) + rendered_tail(ts.drop_first())
    }
}

/// An operation as it is written: its tokens, one space between two.
pub open spec fn rendered(op: Seq<Seq<char>>) -> Seq<char>
    recommends
        op.len() > 0,
{
    rendered_token(op[0]) + rendered_tail(op.drop_first())
}

/// Whether a token can be read back from what `rendered_token` writes: with
/// a space in it, it holds no double quote and no backslash; without one, it
/// is a word.
pub open spec fn survives(t: Seq<char>) -> bool {
    if t.contains(' ') {
        forall|k: int| 0 <= k < t.len() ==> #[trigger] t[k] != '"' && t[k] != '\\'
    } else {
        t.len() > 0 && t[0] != '"' && forall|k: int| 0 <= k < t.len() ==> #[trigger] t[k] != ';'
    }
}

/// Text without double quote and backslash, followed by a double quote,
/// stands for itself.
pub proof fn lemma_plain_quoted(s: Seq<char>, k: int, c: int)
    requires
        0 <= k <= c < s.len(),
        s[c] == '"',
        forall|j: int| k <= j < c ==> #[trigger] s[j] != '"' && s[j] != '\\',
    ensures
        quote_end(s, k) == c,
        unescaped(s, k, c) == s.subrange(k, c),
    decreases c - k,
{
    if k < c {
        lemma_plain_quoted(s, k + 1, c);
        assert(s[k] != '"' && s[k] != '\\');
        assert(seq![s[k]] + s.subrange(k + 1, c) =~= s.subrange(k, c));
    } else {
        assert(s.subrange(k, c) =~= Seq::<char>::empty());
    }
}

/// Text without double quote and backslash, put between double quotes, is
/// one token, whatever spaces and semicolons it holds.
pub proof fn law_quoted_text(body: Seq<char>)
    requires
        forall|k: int| 0 <= k < body.len() ==> #[trigger] body[k] != '"' && body[k] != '\\',
    ensures
        parse(seq!['"'] + body + seq!['"']) == Ok::<Operations, ParseError>(seq![seq![body]]),
{
    let s = seq!['"'] + body + seq!['"'];
    let n = s.len() as int;
    let c = n - 1;
    assert(s[0] == '"');
    assert(s[c] == '"');
    assert forall|j: int| 1 <= j < c implies #[trigger] s[j] != '"' && s[j] != '\\' by {
        assert(s[j] == body[j - 1]);
    }
    lemma_plain_quoted(s, 1, c);
    assert(s.subrange(1, c) =~= body);
    assert(run_end(s, 0, CharClass::Blank) == 0);
    assert(seps_end(s, 0) == 0);
    assert(token_at(s, 0) == Some((body, n)));
    assert(run_end(s, n, CharClass::Space) == n);
    assert(more_tokens(s, n) == (Seq::<Seq<char>>::empty(), n));
    assert(seq![body] + Seq::<Seq<char>>::empty() =~= seq![body]);
    assert(operation_at(s, 0) == Some((seq![body], n)));
    assert(run_end(s, n, CharClass::Blank) == n);
    assert(seps_end(s, n) == n);
    assert(halt(s, n, n) == Ok::<Operations, ParseError>(Seq::empty()));
    assert(seq![seq![body]] + Seq::<Seq<Seq<char>>>::empty() =~= seq![seq![body]]);
}

/// Where a written token stands in a line, followed by a space or by
/// nothing, the token is read there.
pub proof fn lemma_token_rendered(s: Seq<char>, p: int, t: Seq<char>)
    requires
        survives(t),
        0 <= p,
        p + rendered_token(t).len() <= s.len(),
        s.subrange(p, p + rendered_token(t).len()) == rendered_token(t),
        p + rendered_token(t).len() < s.len() ==> s[p + rendered_token(t).len()] == ' ',
    ensures
        rendered_token(t).len() > 0,
        rendered_token(t)[0] != ' ',
        token_at(s, p) == Some((t, p + rendered_token(t).len())),
{
    let r = rendered_token(t);
    let e = p + r.len();
    assert forall|j: int| p <= j < e implies s[j] == r[j - p] by {
        assert(s.subrange(p, e)[j - p] == s[j]);
    }
    if t.contains(' ') {
        let c = p + 1 + t.len();
        assert(s[p] == r[0]);
        assert(s[c] == r[c - p]);
        assert forall|j: int| p + 1 <= j < c implies #[trigger] s[j] != '"' && s[j] != '\\' by {
            assert(s[j] == r[j - p]);
            assert(r[j - p] == t[j - p - 1]);
        }
        lemma_plain_quoted(s, p + 1, c);
        assert(s.subrange(p + 1, c) =~= t) by {
            assert forall|j: int| 0 <= j < t.len() implies s.subrange(p + 1, c)[j] == t[j] by {
                assert(s[p + 1 + j] == r[j + 1]);
            }
        }
    } else {
        assert forall|j: int| p <= j < e implies CharClass::Word.holds(#[trigger] s[j]) by {
            assert(s[j] == t[j - p]);
            if t[j - p] == ' ' {
                assert(t.contains(' '));
            }
        }
        assert(s[p] == t[0]);
        lemma_run_end_is(s, p, e, CharClass::Word);
    }
}

/// Where written tokens fill the rest of a line, they are the tokens read
/// there.
pub proof fn lemma_tail_rendered(s: Seq<char>, e: int, ts: Seq<Seq<char>>)
    requires
        0 <= e <= s.len(),
        forall|k: int| 0 <= k < ts.len() ==> survives(#[trigger] ts[k]),
        s.subrange(e, s.len() as int) == rendered_tail(ts),
    ensures
        more_tokens(s, e) == (ts, s.len() as int),
    decreases ts.len(),
{
    let n = s.len() as int;
    let tail = rendered_tail(ts);
    assert(tail.len() == n - e);
    if ts.len() == 0 {
        assert(run_end(s, e, CharClass::Space) == e);
        assert(ts =~= Seq::<Seq<char>>::empty());
    } else {
        let r0 = rendered_token(ts[0]);
        let rest = rendered_tail(ts.drop_first());
        let q = e + 1;
        let e2 = q + r0.len();
        assert(survives(ts[0]));
        assert(tail == seq![' '] + r0 + rest);
        assert forall|j: int| e <= j < n implies s[j] == tail[j - e] by {
            assert(s.subrange(e, n)[j - e] == s[j]);
        }
        assert(s.subrange(q, e2) =~= r0) by {
            assert forall|j: int| 0 <= j < r0.len() implies s.subrange(q, e2)[j] == r0[j] by {
                assert(s[q + j] == tail[1 + j]);
            }
        }
        assert(s.subrange(e2, n) =~= rest) by {
            assert forall|j: int| 0 <= j < rest.len() implies s.subrange(e2, n)[j] == rest[j] by {
                assert(s[e2 + j] == tail[e2 - e + j]);
            }
        }
        if e2 < n {
            assert(ts.drop_first().len() > 0);
            assert(rest[0] == ' ');
            assert(s[e2] == tail[e2 - e]);
        }
        lemma_token_rendered(s, q, ts[0]);
        assert(s[e] == tail[0]);
        assert(s[q] == tail[1]);
        assert(s[q] == r0[0]);
        lemma_run_end_is(s, e, q, CharClass::Space);
        assert forall|k: int| 0 <= k < ts.drop_first().len() implies survives(
            #[trigger] ts.drop_first()[k],
        ) by {
            assert(ts.drop_first()[k] == ts[k + 1]);
        }
        lemma_tail_rendered(s, e2, ts.drop_first());
        assert(seq![ts[0]] + ts.drop_first() =~= ts);
    }
}

/// In written tokens a semicolon stands only behind a double quote.
pub proof fn lemma_tail_semicolon(ts: Seq<Seq<char>>, j: int)
    requires
        forall|k: int| 0 <= k < ts.len() ==> survives(#[trigger] ts[k]),
        0 <= j < rendered_tail(ts).len(),
        rendered_tail(ts)[j] == ';',
    ensures
        exists|i: int| 0 <= i < j && rendered_tail(ts)[i] == '"',
    decreases ts.len(),
{
    let tail = rendered_tail(ts);
    if ts.len() > 0 {
        let r0 = rendered_token(ts[0]);
        let rest = rendered_tail(ts.drop_first());
        assert(survives(ts[0]));
        assert(tail == seq![' '] + r0 + rest);
        if j >= 1 + r0.len() {
            let j2 = j - 1 - r0.len();
            assert(tail[j] == rest[j2]);
            assert forall|k: int| 0 <= k < ts.drop_first().len() implies survives(
                #[trigger] ts.drop_first()[k],
            ) by {
                assert(ts.drop_first()[k] == ts[k + 1]);
            }
            lemma_tail_semicolon(ts.drop_first(), j2);
            let i2 = choose|i: int| 0 <= i < j2 && rest[i] == '"';
            assert(tail[j - j2 + i2] == rest[i2]);
        } else {
            assert(j >= 1);
            assert(tail[j] == r0[j - 1]);
            lemma_token_semicolon(ts[0], j - 1);
            assert(tail[1] == r0[0]);
        }
    }
}

/// A written token that holds a semicolon starts with a double quote, which
/// is not that semicolon.
pub proof fn lemma_token_semicolon(t: Seq<char>, j: int)
    requires
        survives(t),
        0 <= j < rendered_token(t).len(),
        rendered_token(t)[j] == ';',
    ensures
        rendered_token(t)[0] == '"',
        j > 0,
{
    if !t.contains(' ') {
        assert(t[j] != ';');
    }
}

/// An operation written as a line, its tokens joined by single spaces and
/// those that hold a space put between double quotes, is read back as that
/// one operation. This is stated of the tokens that such writing keeps: a
/// token with a space holds no double quote and no backslash, and one without
/// is not empty, holds no semicolon and does not start with a double quote.
pub proof fn law_round_trip(op: Seq<Seq<char>>)
    requires
        op.len() > 0,
        forall|k: int| 0 <= k < op.len() ==> survives(#[trigger] op[k]),
    ensures
        parse(rendered(op)) == Ok::<Operations, ParseError>(seq![op]),
{
    let s = rendered(op);
    let n = s.len() as int;
    let r0 = rendered_token(op[0]);
    let ts = op.drop_first();
    let tail = rendered_tail(ts);
    let e = r0.len() as int;
    assert(survives(op[0]));
    assert forall|k: int| 0 <= k < ts.len() implies survives(#[trigger] ts[k]) by {
        assert(ts[k] == op[k + 1]);
    }
    assert(s.subrange(0, e) =~= r0);
    assert(s.subrange(e, n) =~= tail);
    if e < n {
        assert(ts.len() > 0);
        assert(tail[0] == ' ');
        assert(s[e] == tail[0]);
    }
    lemma_token_rendered(s, 0, op[0]);
    lemma_tail_rendered(s, e, ts);
    assert(seq![op[0]] + ts =~= op);
    assert(operation_at(s, 0) == Some((op, n)));
    // no separator stands in front
    lemma_run_end(s, 0, CharClass::Blank);
    let j = run_end(s, 0, CharClass::Blank);
    if j < n && s[j] == ';' {
        if j < e {
            assert(s[j] == r0[j]);
            lemma_token_semicolon(op[0], j);
            assert(s[0] == r0[0]);
            assert(CharClass::Blank.holds(s[0]));
        } else {
            assert(s[j] == tail[j - e]);
            lemma_tail_semicolon(ts, j - e);
            let i = choose|i: int| 0 <= i < j - e && tail[i] == '"';
            assert(s[e + i] == tail[i]);
            assert(CharClass::Blank.holds(s[e + i]));
        }
        assert(false);
    }
    assert(seps_end(s, 0) == 0);
    // and nothing is left behind it
    assert(run_end(s, n, CharClass::Blank) == n);
    assert(run_end(s, n, CharClass::Space) == n);
    assert(seps_end(s, n) == n);
    assert(halt(s, n, n) == Ok::<Operations, ParseError>(Seq::empty()));
    assert(seq![op] + Seq::<Seq<Seq<char>>>::empty() =~= seq![op]);
}

} // verus!
