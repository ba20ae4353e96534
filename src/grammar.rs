use vstd::prelude::*;
use crate::number::{is_digit, is_separator};
use crate::text::string_of_range;

verus! {

/// Space and tab: the characters that separate the items of a line.
pub open spec fn is_blank(c: char) -> bool {
    c == ' ' || c == '\t'
}

/// The first position at or after `i` that holds no blank.
pub open spec fn skip_blanks(s: Seq<char>, i: int) -> int
    decreases s.len() - i,
{
    if 0 <= i < s.len() && is_blank(s[i]) {
        skip_blanks(s, i + 1)
    } else {
        i
    }
}

/// The first position at or after `i` that holds a double quote, or the end.
pub open spec fn quote_at(s: Seq<char>, i: int) -> int
    decreases s.len() - i,
{
    if 0 <= i < s.len() && s[i] != '"' {
        quote_at(s, i + 1)
    } else {
        i
    }
}

/// Where a numeric literal ends, given that the part of it before `i` ends
/// in a digit: digit runs joined by single separators, and at most one
/// separator after the last run.
pub open spec fn literal_end(s: Seq<char>, i: int) -> int
    decreases s.len() - i,
{
    if 0 <= i < s.len() && is_digit(s[i]) {
        literal_end(s, i + 1)
    } else if 0 <= i && i + 1 < s.len() && is_separator(s[i]) && is_digit(s[i + 1]) {
        literal_end(s, i + 2)
    } else if 0 <= i < s.len() && is_separator(s[i]) {
        i + 1
    } else {
        i
    }
}

/// What the grammar looked for where a line stopped matching.
#[derive(Clone, Copy, Debug, PartialEq, Eq, Structural)]
pub enum Expected {
    /// An opening double quote.
    Identifier,
    /// At least one character between the quotes.
    Name,
    /// The double quote that closes a name.
    ClosingQuote,
    /// A space or tab between two items.
    Whitespace,
    /// A numeric literal or an opening double quote.
    WeightOrIdentifier,
    /// Nothing but blanks up to the end of the line.
    EndOfLine,
}

/// Where a line stopped matching (a position in characters, from 0) and
/// what the grammar looked for there.
#[derive(Clone, Copy, Debug, PartialEq, Eq, Structural)]
pub struct GrammarError {
    pub position: usize,
    pub expected: Expected,
}

/// A grammar error at `position`.
pub open spec fn grammar_error(position: int, expected: Expected) -> GrammarError {
    GrammarError { position: position as usize, expected }
}

/// A quoted name that opens at `i`: the position of its closing quote.
pub open spec fn closing_quote(s: Seq<char>, i: int) -> Result<int, GrammarError> {
    if !(0 <= i < s.len() && s[i] == '"') {
        Err(grammar_error(i, Expected::Identifier))
    } else {
        let c = quote_at(s, i + 1);
        if c >= s.len() {
            Err(grammar_error(s.len() as int, Expected::ClosingQuote))
        } else if c == i + 1 {
            Err(grammar_error(i + 1, Expected::Name))
        } else {
            Ok(c)
        }
    }
}

/// What one line holds, by its text.
pub enum LineModel {
    Blank,
    Weighted { source: Seq<char>, literal: Seq<char>, destination: Seq<char> },
    Unweighted { source: Seq<char>, destination: Seq<char> },
}

/// `m`, where only blanks follow position `i`.
pub open spec fn line_ends(s: Seq<char>, i: int, m: LineModel) -> Result<LineModel, GrammarError> {
    let e = skip_blanks(s, i);
    if e == s.len() {
        Ok(m)
    } else {
        Err(grammar_error(e, Expected::EndOfLine))
    }
}

/// The grammar of one line: blank, or `"source" literal "destination"`, or
/// `"source" "destination"`, with blanks around and between the items.
pub open spec fn line_model(s: Seq<char>) -> Result<LineModel, GrammarError> {
    let a = skip_blanks(s, 0);
    if a == s.len() {
        Ok(LineModel::Blank)
    } else {
        match closing_quote(s, a) {
            Err(e) => Err(e),
            Ok(ac) => {
                let source = s.subrange(a + 1, ac);
                let b = skip_blanks(s, ac + 1);
                if b == s.len() {
                    Err(grammar_error(b, Expected::WeightOrIdentifier))
                } else if b == ac + 1 {
                    Err(grammar_error(b, Expected::Whitespace))
                } else if is_digit(s[b]) {
                    let n = literal_end(s, b + 1);
                    let c = skip_blanks(s, n);
                    if c == s.len() {
                        Err(grammar_error(c, Expected::Identifier))
                    } else if c == n {
                        Err(grammar_error(c, Expected::Whitespace))
                    } else {
                        match closing_quote(s, c) {
                            Err(e) => Err(e),
                            Ok(cc) => line_ends(
                                s,
                                cc + 1,
                                LineModel::Weighted {
                                    source,
                                    literal: s.subrange(b, n),
                                    destination: s.subrange(c + 1, cc),
                                },
                            ),
                        }
                    }
                } else if s[b] != '"' {
                    Err(grammar_error(b, Expected::WeightOrIdentifier))
                } else {
                    match closing_quote(s, b) {
                        Err(e) => Err(e),
                        Ok(bc) => line_ends(
                            s,
                            bc + 1,
                            LineModel::Unweighted { source, destination: s.subrange(b + 1, bc) },
                        ),
                    }
                }
            },
        }
    }
}

/// One line, read: its names unquoted, its literal as written.
#[derive(Debug)]
pub enum Line {
    Blank,
    Weighted { source: String, literal: String, destination: String },
    Unweighted { source: String, destination: String },
}

impl View for Line {
    type V = LineModel;

    open spec fn view(&self) -> LineModel {
        match self {
            Line::Blank => LineModel::Blank,
            Line::Weighted { source, literal, destination } => LineModel::Weighted {
                source: source@,
                literal: literal@,
                destination: destination@,
            },
            Line::Unweighted { source, destination } => LineModel::Unweighted {
                source: source@,
                destination: destination@,
            },
        }
    }
}

fn skip_blanks_from(s: &[char], i: usize) -> (r: usize)
    requires
        i <= s.len(),
    ensures
        r == skip_blanks(s@, i as int),
        i <= r <= s.len(),
{
    let mut j = i;
    while j < s.len() && (s[j] == ' ' || s[j] == '\t')
        invariant
            i <= j <= s.len(),
            skip_blanks(s@, j as int) == skip_blanks(s@, i as int),
        decreases s.len() - j,
    {
        j = j + 1;
    }
    j
}

fn quote_from(s: &[char], i: usize) -> (r: usize)
    requires
        i <= s.len(),
    ensures
        r == quote_at(s@, i as int),
        i <= r <= s.len(),
{
    let mut j = i;
    while j < s.len() && s[j] != '"'
        invariant
            i <= j <= s.len(),
            quote_at(s@, j as int) == quote_at(s@, i as int),
        decreases s.len() - j,
    {
        j = j + 1;
    }
    j
}

fn literal_end_from(s: &[char], i: usize) -> (r: usize)
    requires
        i <= s.len(),
    ensures
        r == literal_end(s@, i as int),
        i <= r <= s.len(),
{
    let mut j = i;
    loop
        invariant
            i <= j <= s.len(),
            literal_end(s@, j as int) == literal_end(s@, i as int),
        decreases s.len() - j,
    {
        if j < s.len() && '0' <= s[j] && s[j] <= '9' {
            j = j + 1;
        } else if j < s.len() && j + 1 < s.len() && (s[j] == '.' || s[j] == ',') && '0' <= s[j
            + 1] && s[j + 1] <= '9' {
            j = j + 2;
        } else if j < s.len() && (s[j] == '.' || s[j] == ',') {
            return j + 1;
        } else {
            return j;
        }
    }
}

fn closing_quote_from(s: &[char], i: usize) -> (r: Result<usize, GrammarError>)
    requires
        i <= s.len(),
    ensures
        match r {
            Ok(c) => closing_quote(s@, i as int) == Ok::<int, GrammarError>(c as int) && i < c
                < s.len(),
            Err(e) => closing_quote(s@, i as int) == Err::<int, GrammarError>(e),
        },
{
    if !(i < s.len() && s[i] == '"') {
        Err(GrammarError { position: i, expected: Expected::Identifier })
    } else {
        let c = quote_from(s, i + 1);
        if c >= s.len() {
            Err(GrammarError { position: s.len(), expected: Expected::ClosingQuote })
        } else if c == i + 1 {
            Err(GrammarError { position: i + 1, expected: Expected::Name })
        } else {
            Ok(c)
        }
    }
}

fn ends_after(s: &[char], i: usize) -> (r: Result<(), GrammarError>)
    requires
        i <= s.len(),
    ensures
        match r {
            Ok(_) => skip_blanks(s@, i as int) == s.len(),
            Err(e) => skip_blanks(s@, i as int) != s.len() && e == grammar_error(
                skip_blanks(s@, i as int),
                Expected::EndOfLine,
            ),
        },
{
    let e = skip_blanks_from(s, i);
    if e == s.len() {
        Ok(())
    } else {
        Err(GrammarError { position: e, expected: Expected::EndOfLine })
    }
}

/// Reads one line (without its line break) by the grammar of `line_model`.
pub fn parse_line(s: &[char]) -> (r: Result<Line, GrammarError>)
    ensures
        match r {
            Ok(l) => line_model(s@) == Ok::<LineModel, GrammarError>(l@),
            Err(e) => line_model(s@) == Err::<LineModel, GrammarError>(e),
        },
{
    let a = skip_blanks_from(s, 0);
    if a == s.len() {
        return Ok(Line::Blank);
    }
    let ac = match closing_quote_from(s, a) {
        Err(e) => return Err(e),
        Ok(c) => c,
    };
    let b = skip_blanks_from(s, ac + 1);
    if b == s.len() {
        return Err(GrammarError { position: b, expected: Expected::WeightOrIdentifier });
    }
    if b == ac + 1 {
        return Err(GrammarError { position: b, expected: Expected::Whitespace });
    }
    if '0' <= s[b] && s[b] <= '9' {
        let n = literal_end_from(s, b + 1);
        let c = skip_blanks_from(s, n);
        if c == s.len() {
            return Err(GrammarError { position: c, expected: Expected::Identifier });
        }
        if c == n {
            return Err(GrammarError { position: c, expected: Expected::Whitespace });
        }
        let cc = match closing_quote_from(s, c) {
            Err(e) => return Err(e),
            Ok(q) => q,
        };
        match ends_after(s, cc + 1) {
            Err(e) => Err(e),
            Ok(_) => Ok(
                Line::Weighted {
                    source: string_of_range(s, a + 1, ac),
                    literal: string_of_range(s, b, n),
                    destination: string_of_range(s, c + 1, cc),
                },
            ),
        }
    } else if s[b] != '"' {
        Err(GrammarError { position: b, expected: Expected::WeightOrIdentifier })
    } else {
        let bc = match closing_quote_from(s, b) {
            Err(e) => return Err(e),
            Ok(q) => q,
        };
        match ends_after(s, bc + 1) {
            Err(e) => Err(e),
            Ok(_) => Ok(
                Line::Unweighted {
                    source: string_of_range(s, a + 1, ac),
                    destination: string_of_range(s, b + 1, bc),
                },
            ),
        }
    }
}

} // verus!
