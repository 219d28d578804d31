use keymap::tokenize_operation_sequence;
use nom::branch::alt;
use nom::bytes::complete::{escaped_transform, is_not, tag, take};
use nom::character::complete::{none_of, space0};
use nom::combinator::{complete, recognize, value};
use nom::multi::{many0, many1, separated_list, separated_nonempty_list};
use nom::sequence::{delimited, tuple};
use nom::IResult;

// The grammar of a line written with parser combinators. These take a word
// only if it has two characters or more and a quoted token only if something
// stands between its quotes, let a word start with a space, and leave what
// they cannot take unread.

fn combinator_word(input: &str) -> IResult<&str, String> {
    let parser = tuple((none_of("\";"), is_not(" ;")));
    let parser = nom::combinator::map(recognize(parser), String::from);
    parser(input)
}

fn combinator_quoted(input: &str) -> IResult<&str, String> {
    let parser = escaped_transform(is_not("\"\\"), '\\', |control_char: &str| {
        alt((
            value("\"", tag("\"")),
            value("\\", tag("\\")),
            value("\r", tag("r")),
            value("\n", tag("n")),
            value("\t", tag("t")),
            value("\x0b", tag("v")),
            take(1usize),
        ))(control_char)
    });
    let double_quote = tag("\"");
    let parser = delimited(&double_quote, parser, &double_quote);
    parser(input)
}

fn combinator_token(input: &str) -> IResult<&str, String> {
    let parser = alt((combinator_quoted, combinator_word));
    parser(input)
}

fn combinator_operation(input: &str) -> IResult<&str, Vec<String>> {
    let parser = separated_nonempty_list(many1(tag(" ")), combinator_token);
    parser(input)
}

fn combinator_line(input: &str) -> IResult<&str, Vec<Vec<String>>> {
    let semicolon = delimited(space0, tag(";"), space0);
    let parser = separated_list(many1(&semicolon), combinator_operation);
    let parser = delimited(many0(&semicolon), parser, many0(&semicolon));
    let parser = complete(parser);
    parser(input)
}

/// Every line of at most `max_len` characters over `alphabet`.
fn lines(alphabet: &[char], max_len: usize) -> Vec<String> {
    let mut all = vec![String::new()];
    let mut last = vec![String::new()];
    for _ in 0..max_len {
        let mut next = Vec::new();
        for line in &last {
            for c in alphabet {
                let mut longer = line.clone();
                longer.push(*c);
                next.push(longer);
            }
        }
        all.extend(next.iter().cloned());
        last = next;
    }
    all
}

const ALPHABET: [char; 7] = ['a', 't', ' ', ';', '"', '\\', '\t'];

/// Whether a tab stands in `line` as a word of its own behind a space: the
/// tokenizer reads it as a token, the combinators as part of a separator.
fn has_lone_tab(line: &str) -> bool {
    let chars: Vec<char> = line.chars().collect();
    (1..chars.len()).any(|p| {
        chars[p] == '\t'
            && chars[p - 1] == ' '
            && (p + 1 == chars.len() || chars[p + 1] == ' ' || chars[p + 1] == ';')
    })
}

#[test]
fn what_the_combinators_take_whole_is_tokenized_alike() {
    let mut compared = 0;
    for line in lines(&ALPHABET, 6) {
        let (rest, operations) = combinator_line(&line).unwrap();
        let whole = rest.chars().all(|c| c == ' ');
        let spaced = operations.iter().flatten().any(|t| t.starts_with(' '));
        if whole && !spaced && !has_lone_tab(&line) {
            assert_eq!(tokenize_operation_sequence(&line), Ok(operations), "line {:?}", line);
            compared += 1;
        }
    }
    assert!(compared > 10000, "only {} lines compared", compared);
}

#[test]
fn operations_of_longer_tokens_are_what_the_combinators_give() {
    let mut compared = 0;
    for line in lines(&ALPHABET, 6) {
        if let Ok(operations) = tokenize_operation_sequence(&line) {
            if operations.iter().flatten().all(|t| t.chars().count() >= 2) {
                let (rest, theirs) = combinator_line(&line).unwrap();
                if theirs.iter().flatten().any(|t| t.starts_with(' ')) {
                    continue;
                }
                assert_eq!(theirs, operations, "line {:?}", line);
                assert!(rest.chars().all(|c| c == ' ' || c == '\t'), "line {:?}", line);
                compared += 1;
            }
        }
    }
    assert!(compared > 10000, "only {} lines compared", compared);
}

#[test]
fn the_combinators_stop_where_the_tokenizer_reports() {
    let (rest, operations) = combinator_line("open \"abc\"def").unwrap();
    assert_eq!(operations, vec![vec!["open", "abc"]]);
    assert_eq!(rest, "def");
    assert_eq!(tokenize_operation_sequence("open \"abc\"def").unwrap_err().position(), 10);
    let (rest, operations) = combinator_line("open ; set \"abc").unwrap();
    assert_eq!(operations, vec![vec!["open"], vec!["set"]]);
    assert_eq!(rest, " \"abc");
    assert_eq!(tokenize_operation_sequence("open ; set \"abc").unwrap_err().position(), 11);
}
