use vstd::prelude::*;
use crate::text::{chars_of, string_of};

verus! {

pub open spec fn is_digit(c: char) -> bool {
    '0' <= c && c <= '9'
}

pub open spec fn is_separator(c: char) -> bool {
    c == '.' || c == ','
}

/// The two conventions for writing a weight.
#[derive(Clone, Copy, Debug, PartialEq, Eq, Structural)]
pub enum NumberFormat {
    /// Decimal comma; dots group thousands (`1.234,5`).
    DE,
    /// Decimal point; commas group thousands (`1,234.5`).
    US,
}

impl NumberFormat {
    /// The separator that introduces the fractional part.
    pub open spec fn decimal_mark(self) -> char {
        match self {
            NumberFormat::DE => ',',
            NumberFormat::US => '.',
        }
    }

    /// The separator that groups thousands, and carries no value.
    pub open spec fn group_mark(self) -> char {
        match self {
            NumberFormat::DE => '.',
            NumberFormat::US => ',',
        }
    }
}

/// The separator (`.` or `,`) that occurs last in `s`, if any.
pub open spec fn last_separator(s: Seq<char>) -> Option<char>
    decreases s.len(),
{
    if s.len() == 0 {
        None
    } else if is_separator(s.last()) {
        Some(s.last())
    } else {
        last_separator(s.drop_last())
    }
}

/// The format a literal reveals on its own: the separator written last is
/// the decimal mark, so a literal whose last separator is `,` is German and
/// every other literal (also one without separators) is US.
pub open spec fn detected_format(s: Seq<char>) -> NumberFormat {
    if last_separator(s) == Some(',') {
        NumberFormat::DE
    } else {
        NumberFormat::US
    }
}

/// `s` read in format `f`: every group mark dropped and every decimal mark
/// written as `.`; all other characters kept.
pub open spec fn normalized(f: NumberFormat, s: Seq<char>) -> Seq<char>
    decreases s.len(),
{
    if s.len() == 0 {
        Seq::empty()
    } else {
        let head = normalized(f, s.drop_last());
        let c = s.last();
        if c == f.group_mark() {
            head
        } else if c == f.decimal_mark() {
            head.push('.')
        } else {
            head.push(c)
        }
    }
}

/// A plain decimal number: a digit first, then digits with at most one `.`
/// among them (`12`, `12.`, `12.5`).
pub open spec fn is_decimal(t: Seq<char>) -> bool {
    &&& t.len() > 0
    &&& is_digit(t[0])
    &&& forall|i: int| 0 <= i < t.len() ==> is_digit(#[trigger] t[i]) || t[i] == '.'
    &&& forall|i: int, j: int|
        0 <= i < j < t.len() && #[trigger] t[i] == '.' ==> #[trigger] t[j] != '.'
}

/// A weight in canonical decimal notation (see `is_decimal`): the digits of
/// the literal it was read from, with `.` as the only separator.
#[derive(Debug)]
pub struct Weight {
    text: String,
}

impl View for Weight {
    type V = Seq<char>;

    closed spec fn view(&self) -> Seq<char> {
        self.text@
    }
}

impl Weight {
    /// The canonical decimal text, which `str::parse::<f64>` reads.
    pub fn as_str(&self) -> (r: &str)
        ensures
            r@ == self@,
    {
        self.text.as_str()
    }
}

impl PartialEq for Weight {
    fn eq(&self, other: &Weight) -> (r: bool) {
        self.text == other.text
    }
}

impl vstd::std_specs::cmp::PartialEqSpecImpl for Weight {
    open spec fn obeys_eq_spec() -> bool {
        true
    }

    open spec fn eq_spec(&self, other: &Weight) -> bool {
        self@ == other@
    }
}

/// Whether `t` is a plain decimal number (see `is_decimal`).
pub fn decimal_check(t: &[char]) -> (r: bool)
    ensures
        r == is_decimal(t@),
{
    if t.len() == 0 || !('0' <= t[0] && t[0] <= '9') {
        return false;
    }
    let mut seen_dot = false;
    let mut i: usize = 0;
    while i < t.len()
        invariant
            i <= t.len(),
            t@.len() > 0 && is_digit(t@[0]),
            forall|k: int| 0 <= k < i ==> is_digit(#[trigger] t@[k]) || t@[k] == '.',
            forall|k: int, j: int|
                0 <= k < j < i && #[trigger] t@[k] == '.' ==> #[trigger] t@[j] != '.',
            seen_dot <==> exists|k: int| 0 <= k < i && t@[k] == '.',
        decreases t.len() - i,
    {
        let c = t[i];
        if c == '.' {
            if seen_dot {
                let ghost k = choose|k: int| 0 <= k < i && t@[k] == '.';
                assert(t@[k] == '.' && t@[i as int] == '.');
                return false;
            }
            seen_dot = true;
        } else if !('0' <= c && c <= '9') {
            assert(!(is_digit(t@[i as int]) || t@[i as int] == '.'));
            return false;
        }
        i = i + 1;
    }
    true
}

impl NumberFormat {
    /// The format that `literal` reveals on its own.
    pub fn detect(literal: &[char]) -> (r: NumberFormat)
        ensures
            r == detected_format(literal@),
    {
        let mut last: Option<char> = None;
        let mut i: usize = 0;
        while i < literal.len()
            invariant
                i <= literal.len(),
                last == last_separator(literal@.take(i as int)),
            decreases literal.len() - i,
        {
            let c = literal[i];
            assert(literal@.take(i + 1).drop_last() =~= literal@.take(i as int));
            if c == '.' || c == ',' {
                last = Some(c);
            }
            i = i + 1;
        }
        assert(literal@.take(i as int) =~= literal@);
        if last == Some(',') {
            NumberFormat::DE
        } else {
            NumberFormat::US
        }
    }

    /// `literal` read in this format, as a weight; `None` where the result
    /// is no plain decimal number (two decimal marks, no leading digit).
    pub fn weight_of(&self, literal: &[char]) -> (r: Option<Weight>)
        ensures
            r is Some <==> is_decimal(normalized(*self, literal@)),
            r matches Some(w) ==> w@ == normalized(*self, literal@),
    {
        let (group, decimal) = match self {
            NumberFormat::DE => ('.', ','),
            NumberFormat::US => (',', '.'),
        };
        let mut out: Vec<char> = Vec::new();
        let mut i: usize = 0;
        while i < literal.len()
            invariant
                i <= literal.len(),
                group == self.group_mark(),
                decimal == self.decimal_mark(),
                out@ == normalized(*self, literal@.take(i as int)),
            decreases literal.len() - i,
        {
            let c = literal[i];
            assert(literal@.take(i + 1).drop_last() =~= literal@.take(i as int));
            if c == group {
            } else if c == decimal {
                out.push('.');
            } else {
                out.push(c);
            }
            i = i + 1;
        }
        assert(literal@.take(i as int) =~= literal@);
        if decimal_check(&out) {
            Some(Weight { text: string_of(&out) })
        } else {
            None
        }
    }

    /// `num_str` read in this format: group marks dropped, the decimal mark
    /// taken as the point. `None` where that leaves no plain decimal number.
    pub fn parse_number(&self, num_str: &str) -> (r: Option<Weight>)
        ensures
            r is Some <==> is_decimal(normalized(*self, num_str@)),
            r matches Some(w) ==> w@ == normalized(*self, num_str@),
    {
        let chars = chars_of(num_str);
        self.weight_of(&chars)
    }
}

} // verus!
