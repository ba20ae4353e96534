use vstd::prelude::*;
use crate::grammar::{line_model, parse_line, GrammarError, Line, LineModel};
use crate::number::{detected_format, is_decimal, normalized, NumberFormat, Weight};
use crate::text::{chars_of, string_of};

verus! {

/// The lines of `s` from position `i` on, where the current line began at
/// `start`. Lines are separated by `\n`; a `\r` just before a `\n` belongs
/// to the line break.
pub open spec fn lines_from(s: Seq<char>, start: int, i: int) -> Seq<Seq<char>>
    decreases s.len() - i,
{
    if !(0 <= i < s.len()) {
        seq![s.subrange(start, s.len() as int)]
    } else if s[i] == '\n' {
        seq![without_cr(s.subrange(start, i))] + lines_from(s, i + 1, i + 1)
    } else {
        lines_from(s, start, i + 1)
    }
}

/// `l` without a carriage return at its end.
pub open spec fn without_cr(l: Seq<char>) -> Seq<char> {
    if l.len() > 0 && l.last() == '\r' {
        l.drop_last()
    } else {
        l
    }
}

/// The lines of a document, the first being line number 1.
pub open spec fn lines_of(s: Seq<char>) -> Seq<Seq<char>> {
    lines_from(s, 0, 0)
}

/// One edge, by its line number and its names; a weighted edge also by its
/// weight in canonical decimal notation.
pub enum EdgeModel {
    Weighted { line: nat, source: Seq<char>, weight: Seq<char>, destination: Seq<char> },
    Unweighted { line: nat, source: Seq<char>, destination: Seq<char> },
}

/// Why a line was refused.
#[derive(Clone, Copy, Debug, PartialEq, Eq, Structural)]
pub enum LineError {
    /// The line is neither blank nor an edge.
    Grammar(GrammarError),
    /// The weight, read in the document's format, is no decimal number.
    Conversion,
}

/// The first line of a document that could not be read, numbered from 1.
#[derive(Clone, Copy, Debug, PartialEq, Eq, Structural)]
pub struct ParseFailure {
    pub line_number: usize,
    pub error: LineError,
}

/// A failure on line `line`.
pub open spec fn failure(line: nat, error: LineError) -> ParseFailure {
    ParseFailure { line_number: line as usize, error }
}

/// Line number `n` read with the document's format so far (`None` while no
/// weight has been read): the edge it holds, if any, and the format for the
/// lines after it. The first weight fixes the format by what it reveals on
/// its own; every later weight is read in that format.
pub open spec fn read_line(text: Seq<char>, n: nat, format: Option<NumberFormat>) -> Result<
    (Option<EdgeModel>, Option<NumberFormat>),
    ParseFailure,
> {
    match line_model(text) {
        Err(e) => Err(failure(n, LineError::Grammar(e))),
        Ok(LineModel::Blank) => Ok((None, format)),
        Ok(LineModel::Unweighted { source, destination }) => Ok(
            (Some(EdgeModel::Unweighted { line: n, source, destination }), format),
        ),
        Ok(LineModel::Weighted { source, literal, destination }) => {
            let f = match format {
                Some(f) => f,
                None => detected_format(literal),
            };
            let weight = normalized(f, literal);
            if is_decimal(weight) {
                Ok(
                    (
                        Some(EdgeModel::Weighted { line: n, source, weight, destination }),
                        Some(f),
                    ),
                )
            } else {
                Err(failure(n, LineError::Conversion))
            }
        },
    }
}

/// The edges of `lines`, the first being line number `n`, in order; or the
/// failure of the first line that cannot be read.
pub open spec fn read_lines(lines: Seq<Seq<char>>, n: nat, format: Option<NumberFormat>) -> Result<
    Seq<EdgeModel>,
    ParseFailure,
>
    decreases lines.len(),
{
    if lines.len() == 0 {
        Ok(Seq::empty())
    } else {
        match read_line(lines[0], n, format) {
            Err(e) => Err(e),
            Ok((edge, next)) => match read_lines(lines.drop_first(), n + 1, next) {
                Err(e) => Err(e),
                Ok(rest) => Ok(
                    match edge {
                        Some(r) => seq![r] + rest,
                        None => rest,
                    },
                ),
            },
        }
    }
}

/// The edges of document `s`, read with `format` fixed from the start, or
/// detected from the first weight where it is `None`.
pub open spec fn document_model(s: Seq<char>, format: Option<NumberFormat>) -> Result<
    Seq<EdgeModel>,
    ParseFailure,
> {
    read_lines(lines_of(s), 1, format)
}

/// `done` followed by the edges of `r`.
pub open spec fn preceded_by(done: Seq<EdgeModel>, r: Result<Seq<EdgeModel>, ParseFailure>) -> Result<
    Seq<EdgeModel>,
    ParseFailure,
> {
    match r {
        Ok(t) => Ok(done + t),
        Err(e) => Err(e),
    }
}

/// `name` between double quotes.
pub open spec fn quoted(name: Seq<char>) -> Seq<char> {
    seq!['"'] + name + seq!['"']
}

/// Canonical decimal text `w` written in format `f`: its point as the
/// format's decimal mark, without grouping.
pub open spec fn written(f: NumberFormat, w: Seq<char>) -> Seq<char> {
    w.map_values(|c: char| if c == '.' { f.decimal_mark() } else { c })
}

/// The line that states edge `e`, its weight written in format `f`.
pub open spec fn edge_text(e: EdgeModel, f: NumberFormat) -> Seq<char> {
    match e {
        EdgeModel::Weighted { source, weight, destination, .. } => quoted(source) + seq![' ']
            + written(f, weight) + seq![' '] + quoted(destination),
        EdgeModel::Unweighted { source, destination, .. } => quoted(source) + seq![' '] + quoted(
            destination,
        ),
    }
}

/// One edge of a document.
#[derive(Debug)]
pub enum Emission {
    /// Line number, source, weight, destination.
    EdgeDefined(usize, String, Weight, String),
    /// Line number, source, destination.
    EdgeUndefined(usize, String, String),
}

impl View for Emission {
    type V = EdgeModel;

    open spec fn view(&self) -> EdgeModel {
        match self {
            Emission::EdgeDefined(line, source, weight, destination) => EdgeModel::Weighted {
                line: *line as nat,
                source: source@,
                weight: weight@,
                destination: destination@,
            },
            Emission::EdgeUndefined(line, source, destination) => EdgeModel::Unweighted {
                line: *line as nat,
                source: source@,
                destination: destination@,
            },
        }
    }
}

impl PartialEq for Emission {
    fn eq(&self, other: &Emission) -> (r: bool) {
        match (self, other) {
            (Emission::EdgeDefined(l1, s1, w1, d1), Emission::EdgeDefined(l2, s2, w2, d2)) => {
                let same_weight = w1.eq(w2);
                *l1 == *l2 && s1.eq(s2) && same_weight && d1.eq(d2)
            },
            (Emission::EdgeUndefined(l1, s1, d1), Emission::EdgeUndefined(l2, s2, d2)) => {
                *l1 == *l2 && s1.eq(s2) && d1.eq(d2)
            },
            _ => false,
        }
    }
}

impl vstd::std_specs::cmp::PartialEqSpecImpl for Emission {
    open spec fn obeys_eq_spec() -> bool {
        true
    }

    open spec fn eq_spec(&self, other: &Emission) -> bool {
        self@ == other@
    }
}

/// The edges that `v` holds.
pub open spec fn views(v: Seq<Emission>) -> Seq<EdgeModel> {
    v.map_values(|e: Emission| e@)
}

/// The characters of `s` from `from` up to `to`.
fn copy_range(s: &[char], from: usize, to: usize) -> (r: Vec<char>)
    requires
        from <= to <= s.len(),
    ensures
        r@ == s@.subrange(from as int, to as int),
{
    let mut r: Vec<char> = Vec::new();
    let mut i = from;
    while i < to
        invariant
            from <= i <= to <= s.len(),
            r@ == s@.subrange(from as int, i as int),
        decreases to - i,
    {
        r.push(s[i]);
        assert(r@ =~= s@.subrange(from as int, i + 1));
        i = i + 1;
    }
    r
}

/// Appends `s` between double quotes.
fn push_quoted(out: &mut Vec<char>, s: &String)
    ensures
        final(out)@ == old(out)@ + quoted(s@),
{
    let mut chars = chars_of(s.as_str());
    out.push('"');
    out.append(&mut chars);
    out.push('"');
    assert(final(out)@ =~= old(out)@ + quoted(s@));
}

/// Appends weight `w` written in format `f`.
fn push_written(out: &mut Vec<char>, w: &Weight, f: NumberFormat)
    ensures
        final(out)@ == old(out)@ + written(f, w@),
{
    let chars = chars_of(w.as_str());
    let mark = match f {
        NumberFormat::DE => ',',
        NumberFormat::US => '.',
    };
    let ghost start = out@;
    let mut i: usize = 0;
    while i < chars.len()
        invariant
            i <= chars.len(),
            chars@ == w@,
            mark == f.decimal_mark(),
            out@ == start + written(f, w@.take(i as int)),
        decreases chars.len() - i,
    {
        let c = chars[i];
        if c == '.' {
            out.push(mark);
        } else {
            out.push(c);
        }
        assert(written(f, w@.take(i + 1)) =~= written(f, w@.take(i as int)).push(
            if c == '.' { mark } else { c },
        ));
        i = i + 1;
    }
    assert(w@.take(i as int) =~= w@);
}

impl Emission {
    /// The line that states this edge, its weight written in `format`; the
    /// line number is not part of it.
    pub fn to_line(&self, format: NumberFormat) -> (r: String)
        ensures
            r@ == edge_text(self@, format),
    {
        let mut out: Vec<char> = Vec::new();
        match self {
            Emission::EdgeDefined(_, source, weight, destination) => {
                push_quoted(&mut out, source);
                out.push(' ');
                push_written(&mut out, weight, format);
                out.push(' ');
                push_quoted(&mut out, destination);
            },
            Emission::EdgeUndefined(_, source, destination) => {
                push_quoted(&mut out, source);
                out.push(' ');
                push_quoted(&mut out, destination);
            },
        }
        proof {
            assert(out@ =~= edge_text(self@, format));
        }
        string_of(&out)
    }
}

/// Reads line `text`, number `idx + 1`, with the document's format so far:
/// appends its edge, if any, and fixes the format at the first weight.
fn read_one_line(
    text: &Vec<char>,
    idx: usize,
    fmt: &mut Option<NumberFormat>,
    acc: &mut Vec<Emission>,
) -> (r: Result<(), ParseFailure>)
    requires
        text@.len() > 0 ==> idx < usize::MAX,
    ensures
        match read_line(text@, (idx + 1) as nat, *old(fmt)) {
            Err(e) => r == Err::<(), ParseFailure>(e),
            Ok((edge, next)) => {
                &&& r is Ok
                &&& *final(fmt) == next
                &&& views(final(acc)@) == match edge {
                    Some(e) => views(old(acc)@).push(e),
                    None => views(old(acc)@),
                }
            },
        },
{
    let ghost acc0 = acc@;
    match parse_line(text) {
        Err(e) => {
            assert(text@.len() > 0);
            Err(ParseFailure { line_number: idx + 1, error: LineError::Grammar(e) })
        },
        Ok(Line::Blank) => Ok(()),
        Ok(Line::Unweighted { source, destination }) => {
            assert(text@.len() > 0);
            acc.push(Emission::EdgeUndefined(idx + 1, source, destination));
            assert(views(acc@) =~= views(acc0).push(acc@.last()@));
            Ok(())
        },
        Ok(Line::Weighted { source, literal, destination }) => {
            assert(text@.len() > 0);
            let lit = chars_of(literal.as_str());
            let f = match *fmt {
                Some(f) => f,
                None => NumberFormat::detect(&lit),
            };
            match f.weight_of(&lit) {
                None => Err(ParseFailure { line_number: idx + 1, error: LineError::Conversion }),
                Some(w) => {
                    *fmt = Some(f);
                    acc.push(Emission::EdgeDefined(idx + 1, source, w, destination));
                    assert(views(acc@) =~= views(acc0).push(acc@.last()@));
                    Ok(())
                },
            }
        },
    }
}

/// Reads a document line by line and stops at the first line that cannot
/// be read. With `format` the weights are read in it throughout; without,
/// the first weight fixes the format for the rest of the document.
pub fn parse_document(input: &str, format: Option<NumberFormat>) -> (r: Result<
    Vec<Emission>,
    ParseFailure,
>)
    ensures
        match r {
            Ok(v) => document_model(input@, format) == Ok::<Seq<EdgeModel>, ParseFailure>(
                views(v@),
            ),
            Err(e) => document_model(input@, format) == Err::<Seq<EdgeModel>, ParseFailure>(e),
        },
{
    let s = chars_of(input);
    let mut acc: Vec<Emission> = Vec::new();
    let mut fmt = format;
    let mut pos: usize = 0;
    let mut idx: usize = 0;
    loop
        invariant
            s@ == input@,
            pos <= s.len(),
            idx <= pos,
            document_model(input@, format) == preceded_by(
                views(acc@),
                read_lines(lines_from(s@, pos as int, pos as int), (idx + 1) as nat, fmt),
            ),
        decreases s.len() + 1 - pos,
    {
        let mut end = pos;
        while end < s.len() && s[end] != '\n'
            invariant
                pos <= end <= s.len(),
                lines_from(s@, pos as int, end as int) == lines_from(s@, pos as int, pos as int),
            decreases s.len() - end,
        {
            end = end + 1;
        }
        let last = end == s.len();
        let cut = if !last && end > pos && s[end - 1] == '\r' {
            end - 1
        } else {
            end
        };
        let text = copy_range(&s, pos, cut);
        let ghost rest = if last {
            Seq::<Seq<char>>::empty()
        } else {
            lines_from(s@, end + 1, end + 1)
        };
        proof {
            let lines = lines_from(s@, pos as int, pos as int);
            if last {
                assert(lines =~= seq![text@]);
            } else {
                assert(text@ =~= without_cr(s@.subrange(pos as int, end as int)));
            }
            assert(lines =~= seq![text@] + rest);
            assert(lines[0] == text@);
            assert(lines.drop_first() =~= rest);
        }
        let ghost before = views(acc@);
        let ghost fmt_before = fmt;
        let step = read_one_line(&text, idx, &mut fmt, &mut acc);
        proof {
            match read_line(text@, (idx + 1) as nat, fmt_before) {
                Ok((Some(r), next)) => {
                    match read_lines(rest, (idx + 2) as nat, next) {
                        Ok(t) => {
                            assert(before + (seq![r] + t) =~= before.push(r) + t);
                        },
                        Err(_) => {},
                    }
                },
                _ => {},
            }
        }
        if let Err(e) = step {
            return Err(e);
        }
        if last {
            proof {
                assert(views(acc@) + Seq::<EdgeModel>::empty() =~= views(acc@));
            }
            return Ok(acc);
        }
        pos = end + 1;
        idx = idx + 1;
    }
}

/// Reads a document whose format is not known beforehand: the first weight
/// fixes it for the rest of the document.
pub fn parse(input: &str) -> (r: Result<Vec<Emission>, ParseFailure>)
    ensures
        match r {
            Ok(v) => document_model(input@, None) == Ok::<Seq<EdgeModel>, ParseFailure>(
                views(v@),
            ),
            Err(e) => document_model(input@, None) == Err::<Seq<EdgeModel>, ParseFailure>(e),
        },
{
    parse_document(input, None)
}

/// Reads a document as `parse` does. The format is never taken from the
/// caller: the first weight of the document fixes it, so `number_format`
/// plays no part in the result. To read with a format fixed beforehand,
/// use `parse_document` with `Some(format)`.
pub fn parse_emission(input: &str, number_format: NumberFormat) -> (r: Result<
    Vec<Emission>,
    ParseFailure,
>)
    ensures
        match r {
            Ok(v) => document_model(input@, None) == Ok::<Seq<EdgeModel>, ParseFailure>(
                views(v@),
            ),
            Err(e) => document_model(input@, None) == Err::<Seq<EdgeModel>, ParseFailure>(e),
        },
{
    let _ = number_format;
    parse_document(input, None)
}

} // verus!
