use vstd::prelude::*;
use crate::document::{
    document_model, edge_text, failure, lines_from, lines_of, preceded_by, quoted, read_line,
    read_lines, without_cr, written, EdgeModel, LineError, ParseFailure,
};
use crate::grammar::{
    closing_quote, is_blank, line_model, literal_end, quote_at, skip_blanks, GrammarError, LineModel,
};
use crate::number::{
    detected_format, is_decimal, is_digit, is_separator, last_separator, normalized, NumberFormat,
};

verus! {

/// A name that can stand between quotes on one line.
pub open spec fn is_name(s: Seq<char>) -> bool {
    &&& s.len() > 0
    &&& forall|i: int| 0 <= i < s.len() ==> #[trigger] s[i] != '"' && s[i] != '\n'
}

/// What the grammar takes as a numeric literal: digit runs joined by
/// single separators, with at most one separator after the last run.
pub open spec fn is_numeric_literal(n: Seq<char>) -> bool {
    &&& n.len() > 0
    &&& is_digit(n[0])
    &&& forall|i: int| 0 <= i < n.len() ==> is_digit(#[trigger] n[i]) || is_separator(n[i])
    &&& forall|i: int| 0 <= i < n.len() - 1 && is_separator(#[trigger] n[i]) ==> is_digit(n[i + 1])
}

/// The line `"source" literal "destination"`.
pub open spec fn weighted_text(source: Seq<char>, literal: Seq<char>, destination: Seq<char>) -> Seq<
    char,
> {
    quoted(source) + seq![' '] + literal + seq![' '] + quoted(destination)
}

/// The line `"source" "destination"`.
pub open spec fn unweighted_text(source: Seq<char>, destination: Seq<char>) -> Seq<char> {
    quoted(source) + seq![' '] + quoted(destination)
}

proof fn lemma_quote_at(s: Seq<char>, i: int, k: int)
    requires
        0 <= i <= k <= s.len(),
        forall|j: int| i <= j < k ==> s[j] != '"',
        k == s.len() || s[k] == '"',
    ensures
        quote_at(s, i) == k,
    decreases k - i,
{
    if i < k {
        lemma_quote_at(s, i + 1, k);
    }
}

proof fn lemma_skip_blanks(s: Seq<char>, i: int, k: int)
    requires
        0 <= i <= k <= s.len(),
        forall|j: int| i <= j < k ==> is_blank(s[j]),
        k == s.len() || !is_blank(s[k]),
    ensures
        skip_blanks(s, i) == k,
    decreases k - i,
{
    if i < k {
        lemma_skip_blanks(s, i + 1, k);
    }
}

proof fn lemma_literal_end(s: Seq<char>, i: int, k: int)
    requires
        0 <= i <= k <= s.len(),
        forall|j: int| i <= j < k ==> is_digit(s[j]) || is_separator(s[j]),
        forall|j: int| i <= j < k - 1 && is_separator(s[j]) ==> is_digit(s[j + 1]),
        k == s.len() || !(is_digit(s[k]) || is_separator(s[k])),
    ensures
        literal_end(s, i) == k,
    decreases k - i,
{
    if i < k {
        if is_digit(s[i]) {
            lemma_literal_end(s, i + 1, k);
        } else if i < k - 1 {
            lemma_literal_end(s, i + 2, k);
        }
    }
}

proof fn lemma_closing_quote(s: Seq<char>, i: int, name: Seq<char>)
    requires
        is_name(name),
        0 <= i,
        i + name.len() + 2 <= s.len(),
        s.subrange(i, i + name.len() + 2) == quoted(name),
    ensures
        closing_quote(s, i) == Ok::<int, GrammarError>(i + name.len() + 1),
        s.subrange(i + 1, i + name.len() + 1) == name,
{
    let k = i + name.len() + 1;
    assert(s[i] == s.subrange(i, k + 1)[0]);
    assert(s[k] == s.subrange(i, k + 1)[k - i]);
    assert forall|j: int| i + 1 <= j < k implies s[j] != '"' by {
        assert(s[j] == s.subrange(i, k + 1)[j - i]);
        assert(s[j] == name[j - i - 1]);
    }
    lemma_quote_at(s, i + 1, k);
    assert(s.subrange(i + 1, k) =~= name) by {
        assert forall|j: int| 0 <= j < name.len() implies s.subrange(i + 1, k)[j] == name[j] by {
            assert(s[i + 1 + j] == s.subrange(i, k + 1)[j + 1]);
        }
    }
}

/// Only blanks.
pub open spec fn is_blank_run(b: Seq<char>) -> bool {
    forall|i: int| 0 <= i < b.len() ==> is_blank(#[trigger] b[i])
}

/// A weighted line with the blank runs `b1` to `b4` before, between and
/// after its items.
pub open spec fn spaced_weighted(
    b1: Seq<char>,
    source: Seq<char>,
    b2: Seq<char>,
    literal: Seq<char>,
    b3: Seq<char>,
    destination: Seq<char>,
    b4: Seq<char>,
) -> Seq<char> {
    b1 + quoted(source) + b2 + literal + b3 + quoted(destination) + b4
}

/// An unweighted line with the blank runs `b1` to `b3` before, between and
/// after its names.
pub open spec fn spaced_unweighted(
    b1: Seq<char>,
    source: Seq<char>,
    b2: Seq<char>,
    destination: Seq<char>,
    b3: Seq<char>,
) -> Seq<char> {
    b1 + quoted(source) + b2 + quoted(destination) + b3
}

proof fn lemma_blank_span(s: Seq<char>, x: int, y: int, b: Seq<char>)
    requires
        0 <= x <= y <= s.len(),
        s.subrange(x, y) == b,
        is_blank_run(b),
    ensures
        forall|j: int| x <= j < y ==> is_blank(s[j]),
{
    assert forall|j: int| x <= j < y implies is_blank(s[j]) by {
        assert(s[j] == s.subrange(x, y)[j - x]);
    }
}

/// A weighted line, with any blanks around and between its items, reads
/// back as its three parts.
#[verifier::spinoff_prover]
#[verifier::rlimit(40)]
pub proof fn lemma_spaced_weighted_line(
    b1: Seq<char>,
    source: Seq<char>,
    b2: Seq<char>,
    literal: Seq<char>,
    b3: Seq<char>,
    destination: Seq<char>,
    b4: Seq<char>,
)
    requires
        is_blank_run(b1),
        is_blank_run(b2),
        is_blank_run(b3),
        is_blank_run(b4),
        b2.len() > 0,
        b3.len() > 0,
        is_name(source),
        is_numeric_literal(literal),
        is_name(destination),
    ensures
        line_model(spaced_weighted(b1, source, b2, literal, b3, destination, b4)) == Ok::<
            LineModel,
            GrammarError,
        >(LineModel::Weighted { source, literal, destination }),
{
    let s = spaced_weighted(b1, source, b2, literal, b3, destination, b4);
    let a = b1.len() as int;
    let ac = a + source.len() + 1;
    let b = ac + 1 + b2.len();
    let n = b + literal.len();
    let c = n + b3.len();
    let cc = c + destination.len() + 1;
    assert(s.len() == cc + 1 + b4.len());
    assert(s.subrange(0, a) =~= b1);
    assert(s.subrange(a, ac + 1) =~= quoted(source));
    assert(s.subrange(ac + 1, b) =~= b2);
    assert(s.subrange(b, n) =~= literal);
    assert(s.subrange(n, c) =~= b3);
    assert(s.subrange(c, cc + 1) =~= quoted(destination));
    assert(s.subrange(cc + 1, s.len() as int) =~= b4);
    lemma_blank_span(s, 0, a, b1);
    lemma_blank_span(s, ac + 1, b, b2);
    lemma_blank_span(s, n, c, b3);
    lemma_blank_span(s, cc + 1, s.len() as int, b4);
    assert(s[a] == s.subrange(a, ac + 1)[0]);
    assert(s[b] == literal[0]);
    assert(s[c] == s.subrange(c, cc + 1)[0]);
    lemma_skip_blanks(s, 0, a);
    lemma_closing_quote(s, a, source);
    lemma_skip_blanks(s, ac + 1, b);
    assert forall|j: int| b + 1 <= j < n implies is_digit(s[j]) || is_separator(s[j]) by {
        assert(s[j] == s.subrange(b, n)[j - b]);
    }
    assert forall|j: int| b + 1 <= j < n - 1 && is_separator(s[j]) implies is_digit(s[j + 1]) by {
        assert(s[j] == s.subrange(b, n)[j - b]);
        assert(s[j + 1] == s.subrange(b, n)[j + 1 - b]);
    }
    lemma_literal_end(s, b + 1, n);
    lemma_skip_blanks(s, n, c);
    lemma_closing_quote(s, c, destination);
    lemma_skip_blanks(s, cc + 1, s.len() as int);
}

/// An unweighted line, with any blanks around and between its names, reads
/// back as its two names.
#[verifier::spinoff_prover]
#[verifier::rlimit(40)]
pub proof fn lemma_spaced_unweighted_line(
    b1: Seq<char>,
    source: Seq<char>,
    b2: Seq<char>,
    destination: Seq<char>,
    b3: Seq<char>,
)
    requires
        is_blank_run(b1),
        is_blank_run(b2),
        is_blank_run(b3),
        b2.len() > 0,
        is_name(source),
        is_name(destination),
    ensures
        line_model(spaced_unweighted(b1, source, b2, destination, b3)) == Ok::<
            LineModel,
            GrammarError,
        >(LineModel::Unweighted { source, destination }),
{
    let s = spaced_unweighted(b1, source, b2, destination, b3);
    let a = b1.len() as int;
    let ac = a + source.len() + 1;
    let b = ac + 1 + b2.len();
    let bc = b + destination.len() + 1;
    assert(s.len() == bc + 1 + b3.len());
    assert(s.subrange(0, a) =~= b1);
    assert(s.subrange(a, ac + 1) =~= quoted(source));
    assert(s.subrange(ac + 1, b) =~= b2);
    assert(s.subrange(b, bc + 1) =~= quoted(destination));
    assert(s.subrange(bc + 1, s.len() as int) =~= b3);
    lemma_blank_span(s, 0, a, b1);
    lemma_blank_span(s, ac + 1, b, b2);
    lemma_blank_span(s, bc + 1, s.len() as int, b3);
    assert(s[a] == s.subrange(a, ac + 1)[0]);
    assert(s[b] == s.subrange(b, bc + 1)[0]);
    assert(s[b] == '"' && !is_digit(s[b]));
    lemma_skip_blanks(s, 0, a);
    lemma_closing_quote(s, a, source);
    lemma_skip_blanks(s, ac + 1, b);
    lemma_closing_quote(s, b, destination);
    lemma_skip_blanks(s, bc + 1, s.len() as int);
}

/// A weighted line as written reads back as its three parts.
pub proof fn lemma_weighted_line(source: Seq<char>, literal: Seq<char>, destination: Seq<char>)
    requires
        is_name(source),
        is_numeric_literal(literal),
        is_name(destination),
    ensures
        line_model(weighted_text(source, literal, destination)) == Ok::<LineModel, GrammarError>(
            LineModel::Weighted { source, literal, destination },
        ),
{
    let e = Seq::<char>::empty();
    assert(weighted_text(source, literal, destination) =~= spaced_weighted(
        e,
        source,
        seq![' '],
        literal,
        seq![' '],
        destination,
        e,
    ));
    lemma_spaced_weighted_line(e, source, seq![' '], literal, seq![' '], destination, e);
}

/// An unweighted line as written reads back as its two names.
pub proof fn lemma_unweighted_line(source: Seq<char>, destination: Seq<char>)
    requires
        is_name(source),
        is_name(destination),
    ensures
        line_model(unweighted_text(source, destination)) == Ok::<LineModel, GrammarError>(
            LineModel::Unweighted { source, destination },
        ),
{
    let e = Seq::<char>::empty();
    assert(unweighted_text(source, destination) =~= spaced_unweighted(
        e,
        source,
        seq![' '],
        destination,
        e,
    ));
    lemma_spaced_unweighted_line(e, source, seq![' '], destination, e);
}

proof fn lemma_lines_skip(s: Seq<char>, start: int, i: int, k: int)
    requires
        0 <= start <= i <= k <= s.len(),
        forall|j: int| i <= j < k ==> s[j] != '\n',
    ensures
        lines_from(s, start, i) == lines_from(s, start, k),
    decreases k - i,
{
    if i < k {
        lemma_lines_skip(s, start, i + 1, k);
    }
}

proof fn lemma_single_line(t: Seq<char>)
    requires
        forall|j: int| 0 <= j < t.len() ==> t[j] != '\n',
    ensures
        lines_of(t) == seq![t],
{
    lemma_lines_skip(t, 0, 0, t.len() as int);
    assert(t.subrange(0, t.len() as int) =~= t);
}

proof fn lemma_lines_shift(p: Seq<char>, r: Seq<char>, a: int, i: int)
    requires
        0 <= a <= i <= r.len(),
    ensures
        lines_from(p + r, p.len() + a, p.len() + i) == lines_from(r, a, i),
    decreases r.len() - i,
{
    let s = p + r;
    let o = p.len() as int;
    if i == r.len() {
        assert(s.subrange(o + a, s.len() as int) =~= r.subrange(a, r.len() as int));
    } else {
        assert(s[o + i] == r[i]);
        if r[i] == '\n' {
            assert(s.subrange(o + a, o + i) =~= r.subrange(a, i));
            lemma_lines_shift(p, r, i + 1, i + 1);
        } else {
            lemma_lines_shift(p, r, a, i + 1);
        }
    }
}

proof fn lemma_no_newline_in_weighted(source: Seq<char>, literal: Seq<char>, destination: Seq<char>)
    requires
        is_name(source),
        is_numeric_literal(literal),
        is_name(destination),
    ensures
        forall|j: int|
            0 <= j < weighted_text(source, literal, destination).len() ==> weighted_text(
                source,
                literal,
                destination,
            )[j] != '\n',
        weighted_text(source, literal, destination).last() == '"',
{
    let t = weighted_text(source, literal, destination);
    let ls = source.len() as int;
    let ln = literal.len() as int;
    assert forall|j: int| 0 <= j < t.len() implies t[j] != '\n' by {
        if 1 <= j < ls + 1 {
            assert(t[j] == source[j - 1]);
        } else if ls + 3 <= j < ls + 3 + ln {
            assert(t[j] == literal[j - ls - 3]);
        } else if ls + ln + 5 <= j < t.len() - 1 {
            assert(t[j] == destination[j - ls - ln - 5]);
        }
    }
}

proof fn lemma_no_newline_in_unweighted(source: Seq<char>, destination: Seq<char>)
    requires
        is_name(source),
        is_name(destination),
    ensures
        forall|j: int|
            0 <= j < unweighted_text(source, destination).len() ==> unweighted_text(
                source,
                destination,
            )[j] != '\n',
{
    let t = unweighted_text(source, destination);
    let ls = source.len() as int;
    assert forall|j: int| 0 <= j < t.len() implies t[j] != '\n' by {
        if 1 <= j < ls + 1 {
            assert(t[j] == source[j - 1]);
        } else if ls + 4 <= j < t.len() - 1 {
            assert(t[j] == destination[j - ls - 4]);
        }
    }
}

/// The edges of one line alone, as `read_lines` gathers them.
pub open spec fn one_line(t: Seq<char>, format: Option<NumberFormat>) -> Result<
    Seq<EdgeModel>,
    ParseFailure,
> {
    match read_line(t, 1, format) {
        Err(e) => Err(e),
        Ok((edge, _)) => Ok(
            match edge {
                Some(r) => seq![r],
                None => Seq::empty(),
            },
        ),
    }
}

proof fn lemma_one_line(t: Seq<char>, format: Option<NumberFormat>)
    requires
        forall|j: int| 0 <= j < t.len() ==> t[j] != '\n',
    ensures
        document_model(t, format) == one_line(t, format),
{
    lemma_single_line(t);
    let lines = lines_of(t);
    assert(lines[0] == t);
    assert(lines.drop_first() =~= Seq::<Seq<char>>::empty());
    match read_line(t, 1, format) {
        Ok((edge, next)) => {
            assert(read_lines(lines.drop_first(), 2, next) == Ok::<
                Seq<EdgeModel>,
                ParseFailure,
            >(Seq::empty()));
            match edge {
                Some(r) => {
                    assert(seq![r] + Seq::<EdgeModel>::empty() =~= seq![r]);
                },
                None => {},
            }
        },
        Err(_) => {},
    }
}

/// The format that a weight is read in: the document's, once known, else
/// the one its literal reveals.
pub open spec fn resolved(format: Option<NumberFormat>, literal: Seq<char>) -> NumberFormat {
    match format {
        Some(f) => f,
        None => detected_format(literal),
    }
}

/// A document of one weighted line yields exactly that edge, its weight
/// being the literal read in the resolved format; or, where that reading is
/// no decimal number, a conversion failure on line 1.
pub proof fn law_weighted_line(
    source: Seq<char>,
    literal: Seq<char>,
    destination: Seq<char>,
    format: Option<NumberFormat>,
)
    requires
        is_name(source),
        is_numeric_literal(literal),
        is_name(destination),
    ensures
        ({
            let w = normalized(resolved(format, literal), literal);
            document_model(weighted_text(source, literal, destination), format) == if is_decimal(
                w,
            ) {
                Ok::<Seq<EdgeModel>, ParseFailure>(
                    seq![EdgeModel::Weighted { line: 1, source, weight: w, destination }],
                )
            } else {
                Err::<Seq<EdgeModel>, ParseFailure>(
                    failure(1, LineError::Conversion),
                )
            }
        }),
{
    let t = weighted_text(source, literal, destination);
    lemma_no_newline_in_weighted(source, literal, destination);
    lemma_one_line(t, format);
    lemma_weighted_line(source, literal, destination);
}

/// A document of one unweighted line yields exactly that edge.
pub proof fn law_unweighted_line(
    source: Seq<char>,
    destination: Seq<char>,
    format: Option<NumberFormat>,
)
    requires
        is_name(source),
        is_name(destination),
    ensures
        document_model(unweighted_text(source, destination), format) == Ok::<
            Seq<EdgeModel>,
            ParseFailure,
        >(seq![EdgeModel::Unweighted { line: 1, source, destination }]),
{
    let t = unweighted_text(source, destination);
    lemma_no_newline_in_unweighted(source, destination);
    lemma_one_line(t, format);
    lemma_unweighted_line(source, destination);
}

/// Once a document's first line is a weighted edge, every later line is
/// read with the format that its literal revealed, whatever the later
/// literals would reveal on their own.
pub proof fn law_first_weight_fixes_format(
    source: Seq<char>,
    literal: Seq<char>,
    destination: Seq<char>,
    rest: Seq<char>,
)
    requires
        is_name(source),
        is_numeric_literal(literal),
        is_name(destination),
        is_decimal(normalized(detected_format(literal), literal)),
    ensures
        ({
            let f = detected_format(literal);
            let first = EdgeModel::Weighted {
                line: 1,
                source,
                weight: normalized(f, literal),
                destination,
            };
            document_model(weighted_text(source, literal, destination) + seq!['\n'] + rest, None)
                == preceded_by(seq![first], read_lines(lines_of(rest), 2, Some(f)))
        }),
{
    let t = weighted_text(source, literal, destination);
    let p = t + seq!['\n'];
    let s = p + rest;
    let k = t.len() as int;
    lemma_no_newline_in_weighted(source, literal, destination);
    assert forall|j: int| 0 <= j < k implies s[j] != '\n' by {
        assert(s[j] == t[j]);
    }
    lemma_lines_skip(s, 0, 0, k);
    assert(s[k] == '\n');
    assert(s.subrange(0, k) =~= t);
    assert(without_cr(t) == t);
    lemma_lines_shift(p, rest, 0, 0);
    let lines = lines_of(s);
    assert(lines =~= seq![t] + lines_of(rest));
    assert(lines[0] == t);
    assert(lines.drop_first() =~= lines_of(rest));
    lemma_weighted_line(source, literal, destination);
}

/// Every character of every line is a blank.
pub open spec fn blank_lines(lines: Seq<Seq<char>>) -> bool {
    forall|k: int, j: int|
        0 <= k < lines.len() && 0 <= j < lines[k].len() ==> is_blank(#[trigger] lines[k][j])
}

/// `s[j]` is a space, a tab, a line break, or a carriage return just before
/// a line break.
pub open spec fn is_blank_or_break(s: Seq<char>, j: int) -> bool {
    is_blank(s[j]) || s[j] == '\n' || (s[j] == '\r' && j + 1 < s.len() && s[j + 1] == '\n')
}

proof fn lemma_blank_lines(s: Seq<char>, start: int, i: int)
    requires
        0 <= start <= i <= s.len(),
        forall|j: int| 0 <= j < s.len() ==> #[trigger] is_blank_or_break(s, j),
        forall|j: int| start <= j < i ==> s[j] != '\n',
    ensures
        blank_lines(lines_from(s, start, i)),
    decreases s.len() - i,
{
    let lines = lines_from(s, start, i);
    if i == s.len() {
        assert forall|k: int, j: int|
            0 <= k < lines.len() && 0 <= j < lines[k].len() implies is_blank(
            #[trigger] lines[k][j],
        ) by {
            assert(lines[k][j] == s[start + j]);
            assert(is_blank_or_break(s, start + j));
        }
    } else if s[i] == '\n' {
        lemma_blank_lines(s, i + 1, i + 1);
        let l = s.subrange(start, i);
        let rest = lines_from(s, i + 1, i + 1);
        assert(lines == seq![without_cr(l)] + rest);
        assert forall|k: int, j: int|
            0 <= k < lines.len() && 0 <= j < lines[k].len() implies is_blank(
            #[trigger] lines[k][j],
        ) by {
            if k == 0 {
                assert(lines[0] == without_cr(l));
                assert(lines[k][j] == s[start + j]);
                assert(is_blank_or_break(s, start + j));
                if s[start + j] == '\r' {
                    assert(start + j + 1 == i);
                    assert(l.last() == '\r');
                }
            } else {
                assert(lines[k] == rest[k - 1]);
                assert(is_blank(rest[k - 1][j]));
            }
        }
    } else {
        lemma_blank_lines(s, start, i + 1);
        assert(lines == lines_from(s, start, i + 1));
    }
}

proof fn lemma_blank_line(l: Seq<char>)
    requires
        forall|j: int| 0 <= j < l.len() ==> is_blank(#[trigger] l[j]),
    ensures
        line_model(l) == Ok::<LineModel, GrammarError>(LineModel::Blank),
{
    lemma_skip_blanks(l, 0, l.len() as int);
}

proof fn lemma_read_blank(lines: Seq<Seq<char>>, n: nat, format: Option<NumberFormat>)
    requires
        blank_lines(lines),
    ensures
        read_lines(lines, n, format) == Ok::<Seq<EdgeModel>, ParseFailure>(
            Seq::empty(),
        ),
    decreases lines.len(),
{
    if lines.len() > 0 {
        assert forall|j: int| 0 <= j < lines[0].len() implies is_blank(#[trigger] lines[0][j]) by {
            assert(is_blank(lines[0][j]));
        }
        lemma_blank_line(lines[0]);
        let rest = lines.drop_first();
        assert forall|k: int, j: int|
            0 <= k < rest.len() && 0 <= j < rest[k].len() implies is_blank(
            #[trigger] rest[k][j],
        ) by {
            assert(rest[k] == lines[k + 1]);
            assert(is_blank(lines[k + 1][j]));
        }
        lemma_read_blank(rest, n + 1, format);
    }
}

/// A document of blank lines only (spaces and tabs, line breaks `\n` or
/// `\r\n`, in any number) yields no edges and no failure.
pub proof fn law_blank_document(s: Seq<char>, format: Option<NumberFormat>)
    requires
        forall|j: int| 0 <= j < s.len() ==> #[trigger] is_blank_or_break(s, j),
    ensures
        document_model(s, format) == Ok::<Seq<EdgeModel>, ParseFailure>(Seq::empty()),
{
    lemma_blank_lines(s, 0, 0);
    lemma_read_blank(lines_of(s), 1, format);
}

proof fn lemma_fails_at(
    lines: Seq<Seq<char>>,
    n: nat,
    k: nat,
    format: Option<NumberFormat>,
    e: GrammarError,
)
    requires
        n < lines.len(),
        read_lines(lines.take(n as int), k, format) is Ok,
        line_model(lines[n as int]) == Err::<LineModel, GrammarError>(e),
    ensures
        read_lines(lines, k, format) == Err::<Seq<EdgeModel>, ParseFailure>(
            failure(k + n, LineError::Grammar(e)),
        ),
    decreases n,
{
    if n > 0 {
        let t = lines.take(n as int);
        assert(t[0] == lines[0]);
        match read_line(lines[0], k, format) {
            Ok((edge, next)) => {
                assert(t.drop_first() =~= lines.drop_first().take(n - 1));
                assert(lines.drop_first()[n - 1] == lines[n as int]);
                lemma_fails_at(lines.drop_first(), (n - 1) as nat, k + 1, next, e);
            },
            Err(_) => {},
        }
    }
}

/// Where the first `n` lines of a document read without failure and the
/// next line breaks the grammar, reading fails on line `n + 1`, with that
/// line's grammar error.
pub proof fn law_failure_names_first_bad_line(
    s: Seq<char>,
    n: nat,
    format: Option<NumberFormat>,
    e: GrammarError,
)
    requires
        n < lines_of(s).len(),
        read_lines(lines_of(s).take(n as int), 1, format) is Ok,
        line_model(lines_of(s)[n as int]) == Err::<LineModel, GrammarError>(e),
    ensures
        document_model(s, format) == Err::<Seq<EdgeModel>, ParseFailure>(
            failure(n + 1, LineError::Grammar(e)),
        ),
{
    lemma_fails_at(lines_of(s), n, 1, format, e);
}

proof fn lemma_written(f: NumberFormat, g: NumberFormat, w: Seq<char>)
    requires
        forall|i: int| 0 <= i < w.len() ==> is_digit(#[trigger] w[i]) || w[i] == '.',
        g == f || forall|i: int| 0 <= i < w.len() ==> #[trigger] w[i] != '.',
    ensures
        normalized(g, written(f, w)) == w,
        (exists|i: int| 0 <= i < w.len() && #[trigger] w[i] == '.') ==> last_separator(
            written(f, w),
        ) == Some(f.decimal_mark()),
        (forall|i: int| 0 <= i < w.len() ==> #[trigger] w[i] != '.') ==> last_separator(
            written(f, w),
        ) == None::<char>,
    decreases w.len(),
{
    if w.len() == 0 {
        assert(written(f, w) =~= Seq::<char>::empty());
    } else {
        let v = w.drop_last();
        assert forall|i: int| 0 <= i < v.len() implies is_digit(#[trigger] v[i]) || v[i] == '.' by {
            assert(v[i] == w[i]);
        }
        if g != f {
            assert forall|i: int| 0 <= i < v.len() implies #[trigger] v[i] != '.' by {
                assert(v[i] == w[i]);
            }
        }
        lemma_written(f, g, v);
        assert(written(f, w).drop_last() =~= written(f, v));
        assert(v.push(w.last()) =~= w);
        let c = w.last();
        if c != '.' {
            if exists|i: int| 0 <= i < w.len() && #[trigger] w[i] == '.' {
                let i = choose|i: int| 0 <= i < w.len() && #[trigger] w[i] == '.';
                assert(v[i] == '.');
            }
            if forall|i: int| 0 <= i < w.len() ==> #[trigger] w[i] != '.' {
                assert forall|i: int| 0 <= i < v.len() implies #[trigger] v[i] != '.' by {
                    assert(v[i] == w[i]);
                }
            }
        } else {
            assert(w[w.len() - 1] == '.');
        }
    }
}

proof fn lemma_written_literal(f: NumberFormat, w: Seq<char>)
    requires
        is_decimal(w),
    ensures
        is_numeric_literal(written(f, w)),
{
    let n = written(f, w);
    assert forall|i: int| 0 <= i < n.len() - 1 && is_separator(#[trigger] n[i]) implies is_digit(
        n[i + 1],
    ) by {
        assert(w[i] == '.');
        assert(w[i + 1] != '.');
        assert(is_digit(w[i + 1]) || w[i + 1] == '.');
    }
    assert forall|i: int| 0 <= i < n.len() implies is_digit(#[trigger] n[i]) || is_separator(
        n[i],
    ) by {
        assert(is_digit(w[i]) || w[i] == '.');
    }
}

/// Edge `e` with line number `n`.
pub open spec fn renumbered(e: EdgeModel, n: nat) -> EdgeModel {
    match e {
        EdgeModel::Weighted { source, weight, destination, .. } => EdgeModel::Weighted {
            line: n,
            source,
            weight,
            destination,
        },
        EdgeModel::Unweighted { source, destination, .. } => EdgeModel::Unweighted {
            line: n,
            source,
            destination,
        },
    }
}

/// What an edge read from a document satisfies: names that can be quoted
/// on one line, and a weight in canonical decimal notation.
pub open spec fn is_edge(e: EdgeModel) -> bool {
    match e {
        EdgeModel::Weighted { source, weight, destination, .. } => is_name(source) && is_name(
            destination,
        ) && is_decimal(weight),
        EdgeModel::Unweighted { source, destination, .. } => is_name(source) && is_name(
            destination,
        ),
    }
}

/// An edge written as a line, its weight in format `f`, reads back as the
/// same edge (on line 1), whether the document's format is `f` or still
/// unknown.
pub proof fn law_round_trip(e: EdgeModel, f: NumberFormat, format: Option<NumberFormat>)
    requires
        is_edge(e),
        format == None::<NumberFormat> || format == Some(f),
    ensures
        document_model(edge_text(e, f), format) == Ok::<
            Seq<EdgeModel>,
            ParseFailure,
        >(seq![renumbered(e, 1)]),
{
    match e {
        EdgeModel::Weighted { source, weight, destination, .. } => {
            let literal = written(f, weight);
            lemma_written_literal(f, weight);
            let g = resolved(format, literal);
            if exists|i: int| 0 <= i < weight.len() && #[trigger] weight[i] == '.' {
                lemma_written(f, f, weight);
            }
            lemma_written(f, g, weight);
            law_weighted_line(source, literal, destination, format);
        },
        EdgeModel::Unweighted { source, destination, .. } => {
            law_unweighted_line(source, destination, format);
        },
    }
}

proof fn lemma_one_edge_among_blanks(
    lines: Seq<Seq<char>>,
    k: nat,
    n: nat,
    format: Option<NumberFormat>,
    e: EdgeModel,
    next: Option<NumberFormat>,
)
    requires
        k < lines.len(),
        forall|i: int| 0 <= i < lines.len() && i != k ==> is_blank_run(#[trigger] lines[i]),
        read_line(lines[k as int], n + k, format) == Ok::<
            (Option<EdgeModel>, Option<NumberFormat>),
            ParseFailure,
        >((Some(e), next)),
    ensures
        read_lines(lines, n, format) == Ok::<Seq<EdgeModel>, ParseFailure>(seq![e]),
    decreases k,
{
    let rest = lines.drop_first();
    if k == 0 {
        assert forall|i: int, j: int|
            0 <= i < rest.len() && 0 <= j < rest[i].len() implies is_blank(
            #[trigger] rest[i][j],
        ) by {
            assert(rest[i] == lines[i + 1]);
            assert(is_blank_run(lines[i + 1]));
        }
        lemma_read_blank(rest, n + 1, next);
        assert(seq![e] + Seq::<EdgeModel>::empty() =~= seq![e]);
    } else {
        assert(is_blank_run(lines[0]));
        lemma_blank_line(lines[0]);
        assert forall|i: int| 0 <= i < rest.len() && i != k - 1 implies is_blank_run(
            #[trigger] rest[i],
        ) by {
            assert(rest[i] == lines[i + 1]);
        }
        assert(rest[k - 1] == lines[k as int]);
        lemma_one_edge_among_blanks(rest, (k - 1) as nat, n + 1, format, e, next);
    }
}

/// A document whose lines are all blank but line `k + 1`, which holds one
/// weighted edge with any blanks around and between its items, yields
/// exactly that edge, numbered `k + 1`, its weight the literal read in the
/// format it reveals (or in the format fixed beforehand).
pub proof fn law_weighted_edge_among_blank_lines(
    s: Seq<char>,
    k: nat,
    b1: Seq<char>,
    source: Seq<char>,
    b2: Seq<char>,
    literal: Seq<char>,
    b3: Seq<char>,
    destination: Seq<char>,
    b4: Seq<char>,
    format: Option<NumberFormat>,
)
    requires
        k < lines_of(s).len(),
        forall|i: int|
            0 <= i < lines_of(s).len() && i != k ==> is_blank_run(#[trigger] lines_of(s)[i]),
        lines_of(s)[k as int] == spaced_weighted(b1, source, b2, literal, b3, destination, b4),
        is_blank_run(b1),
        is_blank_run(b2),
        is_blank_run(b3),
        is_blank_run(b4),
        b2.len() > 0,
        b3.len() > 0,
        is_name(source),
        is_numeric_literal(literal),
        is_name(destination),
        is_decimal(normalized(resolved(format, literal), literal)),
    ensures
        document_model(s, format) == Ok::<Seq<EdgeModel>, ParseFailure>(
            seq![
                EdgeModel::Weighted {
                    line: k + 1,
                    source,
                    weight: normalized(resolved(format, literal), literal),
                    destination,
                },
            ],
        ),
{
    lemma_spaced_weighted_line(b1, source, b2, literal, b3, destination, b4);
    let f = resolved(format, literal);
    let e = EdgeModel::Weighted {
        line: k + 1,
        source,
        weight: normalized(f, literal),
        destination,
    };
    lemma_one_edge_among_blanks(lines_of(s), k, 1, format, e, Some(f));
}

/// A document whose lines are all blank but line `k + 1`, which holds one
/// unweighted edge with any blanks around and between its names, yields
/// exactly that edge, numbered `k + 1`.
pub proof fn law_unweighted_edge_among_blank_lines(
    s: Seq<char>,
    k: nat,
    b1: Seq<char>,
    source: Seq<char>,
    b2: Seq<char>,
    destination: Seq<char>,
    b3: Seq<char>,
    format: Option<NumberFormat>,
)
    requires
        k < lines_of(s).len(),
        forall|i: int|
            0 <= i < lines_of(s).len() && i != k ==> is_blank_run(#[trigger] lines_of(s)[i]),
        lines_of(s)[k as int] == spaced_unweighted(b1, source, b2, destination, b3),
        is_blank_run(b1),
        is_blank_run(b2),
        is_blank_run(b3),
        b2.len() > 0,
        is_name(source),
        is_name(destination),
    ensures
        document_model(s, format) == Ok::<Seq<EdgeModel>, ParseFailure>(
            seq![EdgeModel::Unweighted { line: k + 1, source, destination }],
        ),
{
    lemma_spaced_unweighted_line(b1, source, b2, destination, b3);
    let e = EdgeModel::Unweighted { line: k + 1, source, destination };
    lemma_one_edge_among_blanks(lines_of(s), k, 1, format, e, format);
}

proof fn lemma_skip_blanks_bounds(s: Seq<char>, i: int)
    requires
        0 <= i <= s.len(),
    ensures
        i <= skip_blanks(s, i) <= s.len(),
    decreases s.len() - i,
{
    if i < s.len() && is_blank(s[i]) {
        lemma_skip_blanks_bounds(s, i + 1);
    }
}

proof fn lemma_quote_at_bounds(s: Seq<char>, i: int)
    requires
        0 <= i <= s.len(),
    ensures
        i <= quote_at(s, i) <= s.len(),
        forall|j: int| i <= j < quote_at(s, i) ==> s[j] != '"',
    decreases s.len() - i,
{
    if i < s.len() && s[i] != '"' {
        lemma_quote_at_bounds(s, i + 1);
    }
}

proof fn lemma_literal_end_bounds(s: Seq<char>, i: int)
    requires
        1 <= i <= s.len(),
        is_digit(s[i - 1]),
    ensures
        i <= literal_end(s, i) <= s.len(),
        forall|j: int| i <= j < literal_end(s, i) ==> is_digit(s[j]) || is_separator(s[j]),
        forall|j: int|
            i - 1 <= j < literal_end(s, i) - 1 && is_separator(s[j]) ==> is_digit(s[j + 1]),
    decreases s.len() - i,
{
    if i < s.len() && is_digit(s[i]) {
        lemma_literal_end_bounds(s, i + 1);
    } else if i + 1 < s.len() && is_separator(s[i]) && is_digit(s[i + 1]) {
        lemma_literal_end_bounds(s, i + 2);
    }
}

proof fn lemma_closing_quote_name(s: Seq<char>, i: int)
    requires
        0 <= i,
        forall|j: int| 0 <= j < s.len() ==> s[j] != '\n',
        closing_quote(s, i) is Ok,
    ensures
        i < closing_quote(s, i)->Ok_0 < s.len(),
        is_name(s.subrange(i + 1, closing_quote(s, i)->Ok_0)),
{
    lemma_quote_at_bounds(s, i + 1);
    let c = closing_quote(s, i)->Ok_0;
    let name = s.subrange(i + 1, c);
    assert forall|j: int| 0 <= j < name.len() implies #[trigger] name[j] != '"' && name[j]
        != '\n' by {
        assert(name[j] == s[i + 1 + j]);
    }
}

/// What a line that reads as an edge holds: names that can be quoted on
/// one line, and a numeric literal.
pub proof fn lemma_line_parts(s: Seq<char>)
    requires
        forall|j: int| 0 <= j < s.len() ==> s[j] != '\n',
    ensures
        line_model(s) matches Ok(LineModel::Weighted { source, literal, destination }) ==> is_name(
            source,
        ) && is_numeric_literal(literal) && is_name(destination),
        line_model(s) matches Ok(LineModel::Unweighted { source, destination }) ==> is_name(
            source,
        ) && is_name(destination),
{
    lemma_skip_blanks_bounds(s, 0);
    let a = skip_blanks(s, 0);
    if a < s.len() && closing_quote(s, a) is Ok {
        lemma_closing_quote_name(s, a);
        let ac = closing_quote(s, a)->Ok_0;
        lemma_skip_blanks_bounds(s, ac + 1);
        let b = skip_blanks(s, ac + 1);
        if b < s.len() && b != ac + 1 {
            if is_digit(s[b]) {
                lemma_literal_end_bounds(s, b + 1);
                let n = literal_end(s, b + 1);
                lemma_skip_blanks_bounds(s, n);
                let c = skip_blanks(s, n);
                if c < s.len() && c != n && closing_quote(s, c) is Ok {
                    lemma_closing_quote_name(s, c);
                    let lit = s.subrange(b, n);
                    assert forall|j: int| 0 <= j < lit.len() implies is_digit(#[trigger] lit[j])
                        || is_separator(lit[j]) by {
                        assert(lit[j] == s[b + j]);
                    }
                    assert forall|j: int|
                        0 <= j < lit.len() - 1 && is_separator(#[trigger] lit[j]) implies is_digit(
                        lit[j + 1],
                    ) by {
                        assert(lit[j] == s[b + j]);
                        assert(lit[j + 1] == s[b + j + 1]);
                    }
                }
            } else if s[b] == '"' && closing_quote(s, b) is Ok {
                lemma_closing_quote_name(s, b);
            }
        }
    }
}

/// No line of a document holds a line break.
pub open spec fn single_lines(lines: Seq<Seq<char>>) -> bool {
    forall|k: int, j: int|
        0 <= k < lines.len() && 0 <= j < lines[k].len() ==> #[trigger] lines[k][j] != '\n'
}

proof fn lemma_lines_single(s: Seq<char>, start: int, i: int)
    requires
        0 <= start <= i <= s.len(),
        forall|j: int| start <= j < i ==> s[j] != '\n',
    ensures
        single_lines(lines_from(s, start, i)),
    decreases s.len() - i,
{
    let lines = lines_from(s, start, i);
    if i == s.len() {
        assert forall|k: int, j: int|
            0 <= k < lines.len() && 0 <= j < lines[k].len() implies #[trigger] lines[k][j]
            != '\n' by {
            assert(lines[k][j] == s[start + j]);
        }
    } else if s[i] == '\n' {
        lemma_lines_single(s, i + 1, i + 1);
        let l = s.subrange(start, i);
        let rest = lines_from(s, i + 1, i + 1);
        assert(lines == seq![without_cr(l)] + rest);
        assert forall|k: int, j: int|
            0 <= k < lines.len() && 0 <= j < lines[k].len() implies #[trigger] lines[k][j]
            != '\n' by {
            if k == 0 {
                assert(lines[k][j] == s[start + j]);
            } else {
                assert(lines[k] == rest[k - 1]);
                assert(rest[k - 1][j] != '\n');
            }
        }
    } else {
        lemma_lines_single(s, start, i + 1);
        assert(lines == lines_from(s, start, i + 1));
    }
}

proof fn lemma_read_edges(lines: Seq<Seq<char>>, n: nat, format: Option<NumberFormat>)
    requires
        single_lines(lines),
    ensures
        read_lines(lines, n, format) matches Ok(es) ==> forall|k: int|
            0 <= k < es.len() ==> is_edge(#[trigger] es[k]),
    decreases lines.len(),
{
    if lines.len() > 0 {
        let l = lines[0];
        assert forall|j: int| 0 <= j < l.len() implies l[j] != '\n' by {
            assert(lines[0][j] != '\n');
        }
        lemma_line_parts(l);
        let rest = lines.drop_first();
        assert forall|k: int, j: int|
            0 <= k < rest.len() && 0 <= j < rest[k].len() implies #[trigger] rest[k][j]
            != '\n' by {
            assert(rest[k] == lines[k + 1]);
            assert(lines[k + 1][j] != '\n');
        }
        match read_line(l, n, format) {
            Ok((edge, next)) => {
                lemma_read_edges(rest, n + 1, next);
                match read_lines(rest, n + 1, next) {
                    Ok(t) => {
                        match edge {
                            Some(r) => {
                                let es = seq![r] + t;
                                assert forall|k: int| 0 <= k < es.len() implies is_edge(
                                    #[trigger] es[k],
                                ) by {
                                    if k > 0 {
                                        assert(es[k] == t[k - 1]);
                                    }
                                }
                            },
                            None => {},
                        }
                    },
                    Err(_) => {},
                }
            },
            Err(_) => {},
        }
    }
}

/// Every edge read from a document has names that can be quoted on one
/// line and a weight in canonical decimal notation.
pub proof fn law_read_edges_are_edges(s: Seq<char>, format: Option<NumberFormat>)
    ensures
        document_model(s, format) matches Ok(es) ==> forall|k: int|
            0 <= k < es.len() ==> is_edge(#[trigger] es[k]),
{
    lemma_lines_single(s, 0, 0);
    lemma_read_edges(lines_of(s), 1, format);
}

/// Every edge read from a document, written as a line with its weight in
/// either format, reads back as the same edge (on line 1), whether the
/// format of the new document is fixed beforehand or detected.
pub proof fn law_read_edge_round_trip(
    s: Seq<char>,
    format: Option<NumberFormat>,
    k: int,
    f: NumberFormat,
    g: Option<NumberFormat>,
)
    requires
        document_model(s, format) is Ok,
        0 <= k < document_model(s, format)->Ok_0.len(),
        g == None::<NumberFormat> || g == Some(f),
    ensures
        ({
            let e = document_model(s, format)->Ok_0[k];
            document_model(edge_text(e, f), g) == Ok::<Seq<EdgeModel>, ParseFailure>(
                seq![renumbered(e, 1)],
            )
        }),
{
    law_read_edges_are_edges(s, format);
    law_round_trip(document_model(s, format)->Ok_0[k], f, g);
}

} // verus!
