//! What the parse of a line is, over sequences of characters.
//!
//! ```text
//! line       = separator* [ operation ( separator+ operation )* ] separator* blank*
//! separator  = blank* ';' blank*
//! operation  = token ( ' '+ token )*
//! token      = quoted | word
//! quoted     = '"' ( '\' any | any but '"' and '\' )* '"'
//! word       = ( any but ' ' and ';' )+ , not starting with '"'
//! blank      = ' ' | TAB
//! ```
//!
//! Every rule takes as much as it can, and a rule that comes first wins: a
//! tab that follows a token and its spaces, or starts the line, is a word or
//! the start of one, and only a tab next to a semicolon is part of a
//! separator. Inside a quoted token a backslash and the character after it
//! stand for one character; in a word a backslash is an ordinary character.
//! Blanks at the end of the line are ignored; anything else that the rules
//! do not take makes the line an error.

use vstd::prelude::*;

verus! {

/// Why a line has no parse. Positions count characters from the start of the
/// line.
#[derive(Clone, Copy, Debug, PartialEq, Eq, Structural)]
pub enum ParseError {
    /// A token starts with the double quote at `position` and no unescaped
    /// double quote follows it.
    UnterminatedQuote { position: usize },
    /// The grammar takes the line up to `position` and no further, and more
    /// than blanks is left from there on.
    UnexpectedCharacter { position: usize },
}

impl ParseError {
    /// The index, in characters, at which the line went wrong.
    pub fn position(&self) -> (p: usize)
        ensures
            p == match *self {
                ParseError::UnterminatedQuote { position } => position,
                ParseError::UnexpectedCharacter { position } => position,
            },
    {
        match *self {
            ParseError::UnterminatedQuote { position } => position,
            ParseError::UnexpectedCharacter { position } => position,
        }
    }
}

/// The sets of characters that the grammar takes in runs.
#[derive(Clone, Copy, Debug, PartialEq, Eq, Structural)]
pub enum CharClass {
    /// A space or a tab.
    Blank,
    /// A space.
    Space,
    /// A space, a tab or a semicolon: what separators are made of.
    Filler,
    /// Anything but a space and a semicolon: what words are made of.
    Word,
}

impl CharClass {
    /// Whether `c` belongs to the class.
    pub open spec fn holds(self, c: char) -> bool {
        match self {
            CharClass::Blank => c == ' ' || c == '\t',
            CharClass::Space => c == ' ',
            CharClass::Filler => c == ' ' || c == '\t' || c == ';',
            CharClass::Word => c != ' ' && c != ';',
        }
    }
}

/// The view of a parsed line: operations, each a sequence of tokens.
pub type Operations = Seq<Seq<Seq<char>>>;

/// Where the longest run of characters of `class` that starts at `i` ends.
pub open spec fn run_end(s: Seq<char>, i: int, class: CharClass) -> int
    decreases s.len() - i,
{
    if 0 <= i < s.len() && class.holds(s[i]) {
        run_end(s, i + 1, class)
    } else {
        i
    }
}

/// The character that a backslash and `c` stand for inside a quoted token.
pub open spec fn escape_value(c: char) -> char {
    if c == 'r' {
        '\r'
    } else if c == 'n' {
        '\n'
    } else if c == 't' {
        '\t'
    } else if c == 'v' {
        '\x0b'
    } else {
        c
    }
}

/// The index of the first double quote at or after `k` that no backslash
/// escapes, reading escapes from `k` on; `s.len()` if there is none.
pub open spec fn quote_end(s: Seq<char>, k: int) -> int
    decreases s.len() - k,
{
    if k < 0 || k >= s.len() {
        s.len() as int
    } else if s[k] == '"' {
        k
    } else if s[k] == '\\' {
        if k + 1 < s.len() {
            quote_end(s, k + 2)
        } else {
            s.len() as int
        }
    } else {
        quote_end(s, k + 1)
    }
}

/// The characters that `s[k..end]` stands for once escapes are expanded.
pub open spec fn unescaped(s: Seq<char>, k: int, end: int) -> Seq<char>
    decreases end - k,
{
    if k < 0 || k >= end || end > s.len() {
        Seq::empty()
    } else if s[k] == '\\' && k + 1 < end {
        seq![escape_value(s[k + 1])] + unescaped(s, k + 2, end)
    } else {
        seq![s[k]] + unescaped(s, k + 1, end)
    }
}

/// The quoted token that starts at `i`, with its escapes expanded, and the
/// index just behind its closing quote, if a double quote stands at `i` and
/// another closes it.
pub open spec fn quoted_at(s: Seq<char>, i: int) -> Option<(Seq<char>, int)> {
    if 0 <= i < s.len() && s[i] == '"' && quote_end(s, i + 1) < s.len() {
        let close = quote_end(s, i + 1);
        Some((unescaped(s, i + 1, close), close + 1))
    } else {
        None
    }
}

/// The word that starts at `i` and the index just behind it, if the
/// character at `i` can start a word: the longest run without a space or a
/// semicolon.
pub open spec fn word_at(s: Seq<char>, i: int) -> Option<(Seq<char>, int)> {
    if 0 <= i < s.len() && s[i] != '"' && s[i] != ';' && s[i] != ' ' {
        let e = run_end(s, i, CharClass::Word);
        Some((s.subrange(i, e), e))
    } else {
        None
    }
}

/// The token that starts at `i` and the index just behind it, if one starts
/// there: a quoted token, or else a word.
pub open spec fn token_at(s: Seq<char>, i: int) -> Option<(Seq<char>, int)> {
    match quoted_at(s, i) {
        Some(found) => Some(found),
        None => word_at(s, i),
    }
}

/// The tokens that follow a token ending at `e`, each after one or more
/// spaces, and the index just behind the last of them.
pub open spec fn more_tokens(s: Seq<char>, e: int) -> (Seq<Seq<char>>, int)
    decreases s.len() - e,
{
    let q = run_end(s, e, CharClass::Space);
    if q > e {
        match token_at(s, q) {
            Some((t, e2)) => {
                proof {
                    lemma_token_bounds(s, q);
                }
                let (rest, end) = more_tokens(s, e2);
                (seq![t] + rest, end)
            },
            None => (Seq::empty(), e),
        }
    } else {
        (Seq::empty(), e)
    }
}

/// The operation that starts at `i` and the index just behind it, if a token
/// starts there.
pub open spec fn operation_at(s: Seq<char>, i: int) -> Option<(Seq<Seq<char>>, int)> {
    match token_at(s, i) {
        Some((first, e)) => {
            let (rest, end) = more_tokens(s, e);
            Some((seq![first] + rest, end))
        },
        None => None,
    }
}

/// Where the longest run of separators that starts at `i` ends; `i` if no
/// separator starts there.
pub open spec fn seps_end(s: Seq<char>, i: int) -> int {
    let j = run_end(s, i, CharClass::Blank);
    if 0 <= j < s.len() && s[j] == ';' {
        run_end(s, j + 1, CharClass::Filler)
    } else {
        i
    }
}

/// Whether a double quote stands at `q` with no unescaped double quote after
/// it.
pub open spec fn opens_unclosed_quote(s: Seq<char>, q: int) -> bool {
    0 <= q < s.len() && s[q] == '"' && quote_end(s, q + 1) >= s.len()
}

/// How a line ends where the grammar stops at `e`, after it looked for a
/// token at `attempt`: an unclosed quote there is reported; else the line is
/// done if only blanks are left.
pub open spec fn halt(s: Seq<char>, e: int, attempt: int) -> Result<Operations, ParseError> {
    if opens_unclosed_quote(s, attempt) {
        Err(ParseError::UnterminatedQuote { position: attempt as usize })
    } else if run_end(s, e, CharClass::Blank) >= s.len() {
        Ok(Seq::empty())
    } else {
        Err(ParseError::UnexpectedCharacter { position: e as usize })
    }
}

/// `ops` with `op` in front, or the error.
pub open spec fn prepend(op: Seq<Seq<char>>, ops: Result<Operations, ParseError>) -> Result<
    Operations,
    ParseError,
> {
    match ops {
        Ok(rest) => Ok(seq![op] + rest),
        Err(e) => Err(e),
    }
}

/// The operations from `i` to the end of the line, where `i` is the start of
/// the line or follows a separator.
pub open spec fn operations_from(s: Seq<char>, i: int) -> Result<Operations, ParseError>
    decreases s.len() - i,
{
    match operation_at(s, i) {
        None => halt(s, i, i),
        Some((op, e)) => {
            let k = seps_end(s, e);
            if k > e {
                proof {
                    lemma_operation_bounds(s, i);
                    lemma_seps_end_bounds(s, e);
                }
                prepend(op, operations_from(s, k))
            } else {
                let q = run_end(s, e, CharClass::Space);
                prepend(op, halt(s, e, if q > e { q } else { s.len() as int }))
            }
        },
    }
}

/// The parse of the line `s`.
pub open spec fn parse(s: Seq<char>) -> Result<Operations, ParseError> {
    operations_from(s, seps_end(s, 0))
}

/// A run starts at `i`, ends inside the line, holds only characters of the
/// class, and cannot be made longer.
pub proof fn lemma_run_end(s: Seq<char>, i: int, class: CharClass)
    requires
        0 <= i <= s.len(),
    ensures
        i <= run_end(s, i, class) <= s.len(),
        forall|k: int| i <= k < run_end(s, i, class) ==> class.holds(#[trigger] s[k]),
        run_end(s, i, class) < s.len() ==> !class.holds(s[run_end(s, i, class)]),
    decreases s.len() - i,
{
    if i < s.len() && class.holds(s[i]) {
        lemma_run_end(s, i + 1, class);
    }
}

/// A stretch of characters of one class that cannot be made longer is the
/// run that starts where it starts.
pub proof fn lemma_run_end_is(s: Seq<char>, i: int, e: int, class: CharClass)
    requires
        0 <= i <= e <= s.len(),
        forall|k: int| i <= k < e ==> class.holds(#[trigger] s[k]),
        e < s.len() ==> !class.holds(s[e]),
    ensures
        run_end(s, i, class) == e,
    decreases e - i,
{
    if i < e {
        lemma_run_end_is(s, i + 1, e, class);
    }
}

/// The closing quote is looked for at or after `k`, inside the line.
pub proof fn lemma_quote_end_bounds(s: Seq<char>, k: int)
    requires
        0 <= k <= s.len(),
    ensures
        k <= quote_end(s, k) <= s.len(),
        quote_end(s, k) < s.len() ==> s[quote_end(s, k)] == '"',
    decreases s.len() - k,
{
    if k < s.len() && s[k] != '"' {
        if s[k] == '\\' {
            if k + 1 < s.len() {
                lemma_quote_end_bounds(s, k + 2);
            }
        } else {
            lemma_quote_end_bounds(s, k + 1);
        }
    }
}

/// A token holds at least one character of the line and ends inside it.
pub proof fn lemma_token_bounds(s: Seq<char>, i: int)
    ensures
        token_at(s, i) matches Some((t, e)) ==> 0 <= i < e <= s.len(),
{
    if 0 <= i < s.len() {
        lemma_quote_end_bounds(s, i + 1);
        lemma_run_end(s, i, CharClass::Word);
    }
}

/// The tokens after one that ends at `e` end at or after `e`, inside the line.
pub proof fn lemma_more_tokens_bounds(s: Seq<char>, e: int)
    requires
        0 <= e <= s.len(),
    ensures
        e <= more_tokens(s, e).1 <= s.len(),
    decreases s.len() - e,
{
    let q = run_end(s, e, CharClass::Space);
    lemma_run_end(s, e, CharClass::Space);
    if q > e {
        lemma_token_bounds(s, q);
        match token_at(s, q) {
            Some((t, e2)) => {
                lemma_more_tokens_bounds(s, e2);
            },
            None => {},
        }
    }
}

/// An operation holds at least one token and one character of the line.
pub proof fn lemma_operation_bounds(s: Seq<char>, i: int)
    ensures
        operation_at(s, i) matches Some((op, e)) ==> 0 <= i < e <= s.len() && op.len() >= 1,
{
    lemma_token_bounds(s, i);
    match token_at(s, i) {
        Some((first, e)) => {
            lemma_more_tokens_bounds(s, e);
        },
        None => {},
    }
}

/// The tokens after one that ends at `e` go on as far as tokens follow: no
/// token stands behind the spaces after the last of them.
pub proof fn lemma_more_tokens_stops(s: Seq<char>, e: int)
    requires
        0 <= e <= s.len(),
    ensures
        run_end(s, more_tokens(s, e).1, CharClass::Space) > more_tokens(s, e).1 ==> token_at(
            s,
            run_end(s, more_tokens(s, e).1, CharClass::Space),
        ) is None,
    decreases s.len() - e,
{
    let q = run_end(s, e, CharClass::Space);
    if q > e {
        lemma_token_bounds(s, q);
        match token_at(s, q) {
            Some((t, e2)) => {
                lemma_more_tokens_stops(s, e2);
            },
            None => {},
        }
    }
}

/// No token stands behind the spaces after an operation.
pub proof fn lemma_operation_stops(s: Seq<char>, i: int)
    ensures
        operation_at(s, i) matches Some((op, e)) ==> run_end(s, e, CharClass::Space) > e
            ==> token_at(s, run_end(s, e, CharClass::Space)) is None,
{
    lemma_token_bounds(s, i);
    match token_at(s, i) {
        Some((first, e)) => {
            lemma_more_tokens_stops(s, e);
        },
        None => {},
    }
}

/// A run of separators ends at or after its start, inside the line.
pub proof fn lemma_seps_end_bounds(s: Seq<char>, i: int)
    requires
        0 <= i <= s.len(),
    ensures
        i <= seps_end(s, i) <= s.len(),
{
    lemma_run_end(s, i, CharClass::Blank);
    let j = run_end(s, i, CharClass::Blank);
    if j < s.len() {
        lemma_run_end(s, j + 1, CharClass::Filler);
    }
}

/// Whether every operation of `ops` holds at least one token.
pub open spec fn all_nonempty(ops: Operations) -> bool {
    forall|n: int| 0 <= n < ops.len() ==> (#[trigger] ops[n]).len() >= 1
}

/// The operations read from any index on are non-empty.
pub proof fn lemma_operations_from_nonempty(s: Seq<char>, i: int)
    requires
        0 <= i <= s.len(),
    ensures
        operations_from(s, i) matches Ok(ops) ==> all_nonempty(ops),
    decreases s.len() - i,
{
    lemma_operation_bounds(s, i);
    match operation_at(s, i) {
        None => {},
        Some((op, e)) => {
            let k = seps_end(s, e);
            lemma_seps_end_bounds(s, e);
            if k > e {
                lemma_operations_from_nonempty(s, k);
            }
        },
    }
}

} // verus!
