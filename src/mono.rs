//! A single term: a coefficient and an exponent of the variable `x`.
use vstd::prelude::*;

use crate::text::{
    chars_of, fits_i32, int_of, int_text, push_int, read_i32, string_of,
};

verus! {

/// Why a piece of text is not a term.
#[derive(Clone, Copy, Debug, PartialEq, Eq, Structural)]
pub enum ParseError {
    /// The coefficient (before the variable) is not a number.
    InvalidBase,
    /// The exponent (after the variable) is not a number.
    InvalidExponent,
    /// The variable occurs more than once.
    TooManySymbols,
    /// Like terms add up to a coefficient outside the `i32` range.
    Overflow,
}

/// Why two terms cannot be added.
#[derive(Clone, Copy, Debug, PartialEq, Eq, Structural)]
pub enum TermError {
    /// The terms have different exponents.
    IncompatibleExponents,
}

/// The term `value * x^exp`.
#[derive(Clone, Copy, Debug, PartialEq, Eq, Structural)]
pub struct Monomial {
    pub value: i32,
    pub exp: i32,
}

/// Truncating integer division, as machine integers divide.
pub open spec fn quot(a: int, b: int) -> int {
    let q = (if a < 0 { -a } else { a }) / (if b < 0 { -b } else { b });
    if (a < 0) != (b < 0) {
        -q
    } else {
        q
    }
}

impl Default for Monomial {
    /// The zero term `0x^0`.
    fn default() -> (r: Monomial)
        ensures
            r@ == (0int, 0int),
    {
        Monomial { value: 0, exp: 0 }
    }
}

/// The term that a piece of text denotes, or why it denotes none.
pub open spec fn term_result(s: Seq<char>) -> Result<Monomial, ParseError> {
    match term_of(cleaned(s)) {
        Ok(t) => Ok(Monomial { value: t.0 as i32, exp: t.1 as i32 }),
        Err(e) => Err(e),
    }
}

impl TryFrom<&str> for Monomial {
    type Error = ParseError;

    fn try_from(value: &str) -> (r: Result<Monomial, ParseError>)
        ensures
            r == term_result(value@),
    {
        Monomial::parse(value)
    }
}

impl vstd::std_specs::convert::TryFromSpecImpl<&str> for Monomial {
    open spec fn obeys_try_from_spec() -> bool {
        true
    }

    open spec fn try_from_spec(v: &str) -> Result<Monomial, ParseError> {
        term_result(v@)
    }
}

/// Truncating division of machine integers.
pub(crate) fn quot_i64(a: i64, b: i64) -> (r: i64)
    requires
        b != 0,
        a > i64::MIN,
        b > i64::MIN,
    ensures
        r == quot(a as int, b as int),
{
    let ua: i64 = if a < 0 {
        -a
    } else {
        a
    };
    let ub: i64 = if b < 0 {
        -b
    } else {
        b
    };
    let q: i64 = ua / ub;
    if (a < 0) != (b < 0) {
        -q
    } else {
        q
    }
}

/// Characters that term text ignores.
pub open spec fn is_skipped(c: char) -> bool {
    c == ' ' || c == '\t' || c == '\n' || c == '\r' || c == '^'
}

pub open spec fn lower_x(c: char) -> char {
    if c == 'X' {
        'x'
    } else {
        c
    }
}

/// Text with blanks and `^` removed and the variable in lower case.
pub open spec fn cleaned(s: Seq<char>) -> Seq<char>
    decreases s.len(),
{
    if s.len() == 0 {
        s
    } else if is_skipped(s.last()) {
        cleaned(s.drop_last())
    } else {
        cleaned(s.drop_last()).push(lower_x(s.last()))
    }
}

/// Index of the first `x` at or after `i`, or the length when there is none.
pub open spec fn find_x(s: Seq<char>, i: int) -> int
    decreases s.len() - i,
{
    if i >= s.len() {
        s.len() as int
    } else if s[i] == 'x' {
        i
    } else {
        find_x(s, i + 1)
    }
}

/// The coefficient text: empty or a bare sign stands for one.
pub open spec fn base_of(b: Seq<char>) -> Option<int> {
    if b.len() == 0 || b == seq!['+'] {
        Some(1)
    } else if b == seq!['-'] {
        Some(-1)
    } else {
        match int_of(b) {
            Some(v) => if fits_i32(v) {
                Some(v)
            } else {
                None
            },
            None => None,
        }
    }
}

/// The exponent text: empty stands for one.
pub open spec fn exp_of(e: Seq<char>) -> Option<int> {
    if e.len() == 0 {
        Some(1)
    } else {
        match int_of(e) {
            Some(v) => if fits_i32(v) {
                Some(v)
            } else {
                None
            },
            None => None,
        }
    }
}

/// The term that cleaned text denotes, as (coefficient, exponent).
pub open spec fn term_of(c: Seq<char>) -> Result<(int, int), ParseError> {
    let k = find_x(c, 0);
    match base_of(c.subrange(0, k)) {
        None => Err(ParseError::InvalidBase),
        Some(v) => if k == c.len() {
            Ok((v, 0))
        } else if find_x(c, k + 1) < c.len() {
            Err(ParseError::TooManySymbols)
        } else {
            match exp_of(c.subrange(k + 1, c.len() as int)) {
                None => Err(ParseError::InvalidExponent),
                Some(e) => Ok((v, e)),
            }
        },
    }
}

/// How a term is written: a coefficient of one is left out unless the
/// exponent is zero, exponent zero is left out, and exponent one is a bare `x`.
pub open spec fn term_text(v: int, e: int) -> Seq<char> {
    let base = if v == -1 && e != 0 {
        seq!['-']
    } else if v == 1 && e != 0 {
        Seq::empty()
    } else {
        int_text(v)
    };
    let power = if e == 0 {
        Seq::empty()
    } else if e == 1 {
        seq!['x']
    } else {
        seq!['x', '^'] + int_text(e)
    };
    base + power
}

proof fn lemma_find_x_bounds(s: Seq<char>, i: int)
    requires
        0 <= i <= s.len(),
    ensures
        i <= find_x(s, i) <= s.len(),
        find_x(s, i) < s.len() ==> s[find_x(s, i)] == 'x',
        forall|j: int| i <= j < find_x(s, i) ==> s[j] != 'x',
    decreases s.len() - i,
{
    if i < s.len() && s[i] != 'x' {
        lemma_find_x_bounds(s, i + 1);
    }
}

impl View for Monomial {
    type V = (int, int);

    open spec fn view(&self) -> (int, int) {
        (self.value as int, self.exp as int)
    }
}

/// Finds the first `x` at or after `i`.
fn seek_x(s: &Vec<char>, i: usize) -> (r: usize)
    requires
        i <= s@.len(),
    ensures
        r == find_x(s@, i as int),
{
    let mut j = i;
    while j < s.len() && s[j] != 'x'
        invariant
            i <= j <= s@.len(),
            find_x(s@, j as int) == find_x(s@, i as int),
        decreases s@.len() - j,
    {
        j = j + 1;
    }
    j
}

impl Monomial {
    pub fn new(value: i32, exp: i32) -> (r: Monomial)
        ensures
            r@ == (value as int, exp as int),
    {
        Monomial { value, exp }
    }

    pub fn get_value(&self) -> (r: i32)
        ensures
            r == self.value,
    {
        self.value
    }

    pub fn get_exp(&self) -> (r: i32)
        ensures
            r == self.exp,
    {
        self.exp
    }

    /// Whether the two terms can be added: they share an exponent.
    pub fn is_operable(&self, other: &Self) -> (r: bool)
        ensures
            r == (self.exp == other.exp),
    {
        self.exp == other.exp
    }

    /// Reads a term such as `-23x^2`, `2x2`, `x`, `- 1` or `4X`.
    pub fn parse(s: &str) -> (r: Result<Monomial, ParseError>)
        ensures
            match term_of(cleaned(s@)) {
                Ok(t) => r == Ok::<Monomial, ParseError>(Monomial { value: t.0 as i32, exp: t.1 as i32 })
                    && fits_i32(t.0) && fits_i32(t.1),
                Err(e) => r == Err::<Monomial, ParseError>(e),
            },
    {
        let raw = chars_of(s);
        let c = clean(&raw);
        Self::parse_cleaned(&c)
    }

    pub(crate) fn parse_cleaned(c: &Vec<char>) -> (r: Result<Monomial, ParseError>)
        ensures
            match term_of(c@) {
                Ok(t) => r == Ok::<Monomial, ParseError>(Monomial { value: t.0 as i32, exp: t.1 as i32 })
                    && fits_i32(t.0) && fits_i32(t.1),
                Err(e) => r == Err::<Monomial, ParseError>(e),
            },
    {
        let k = seek_x(c, 0);
        proof {
            lemma_find_x_bounds(c@, 0);
        }
        let value: i32 = if k == 0 {
            1
        } else if k == 1 && c[0] == '+' {
            assert(c@.subrange(0, 1) =~= seq!['+']);
            1
        } else if k == 1 && c[0] == '-' {
            assert(c@.subrange(0, 1) =~= seq!['-']);
            -1
        } else {
            proof {
                if k == 1 {
                    assert(c@.subrange(0, 1)[0] == c@[0]);
                    assert(c@.subrange(0, 1) != seq!['+']);
                    assert(c@.subrange(0, 1) != seq!['-']);
                }
                if c@.subrange(0, k as int) == seq!['+'] || c@.subrange(0, k as int) == seq!['-'] {
                    assert(c@.subrange(0, k as int).len() == 1);
                }
            }
            match read_i32(c, 0, k) {
                Some(v) => v,
                None => {
                    return Err(ParseError::InvalidBase);
                },
            }
        };
        assert(base_of(c@.subrange(0, k as int)) == Some(value as int));
        if k == c.len() {
            return Ok(Monomial { value, exp: 0 });
        }
        let k2 = seek_x(c, k + 1);
        if k2 < c.len() {
            return Err(ParseError::TooManySymbols);
        }
        let exp: i32 = if k + 1 == c.len() {
            1
        } else {
            match read_i32(c, k + 1, c.len()) {
                Some(e) => e,
                None => {
                    return Err(ParseError::InvalidExponent);
                },
            }
        };
        Ok(Monomial { value, exp })
    }

    /// Adds two terms with the same exponent.
    pub fn add(self, rhs: Self) -> (r: Result<Monomial, TermError>)
        requires
            self.exp == rhs.exp ==> fits_i32(self.value + rhs.value),
        ensures
            self.exp == rhs.exp ==> r == Ok::<Monomial, TermError>(
                Monomial { value: (self.value + rhs.value) as i32, exp: self.exp },
            ),
            self.exp != rhs.exp ==> r == Err::<Monomial, TermError>(
                TermError::IncompatibleExponents,
            ),
    {
        if !self.is_operable(&rhs) {
            return Err(TermError::IncompatibleExponents);
        }
        Ok(Monomial { value: self.value + rhs.value, exp: self.exp })
    }

    /// Multiplies coefficients and adds exponents.
    pub fn mul(self, rhs: Self) -> (r: Monomial)
        requires
            fits_i32(self.value * rhs.value),
            fits_i32(self.exp + rhs.exp),
        ensures
            r@ == (self@.0 * rhs@.0, self@.1 + rhs@.1),
    {
        let v = (self.value as i64) * (rhs.value as i64);
        Monomial { value: v as i32, exp: self.exp + rhs.exp }
    }

    /// Divides coefficients (truncating) and subtracts exponents.
    pub fn div(self, rhs: Self) -> (r: Monomial)
        requires
            rhs.value != 0,
            fits_i32(quot(self.value as int, rhs.value as int)),
            fits_i32(self.exp - rhs.exp),
        ensures
            r@ == (quot(self@.0, rhs@.0), self@.1 - rhs@.1),
    {
        let v = quot_i64(self.value as i64, rhs.value as i64);
        Monomial { value: v as i32, exp: self.exp - rhs.exp }
    }

    /// The same term with the opposite coefficient.
    pub fn neg(self) -> (r: Monomial)
        requires
            self.value != i32::MIN,
        ensures
            r@ == (-self@.0, self@.1),
    {
        Monomial { value: -self.value, exp: self.exp }
    }

    /// Adds up terms that share one exponent; the result carries the exponent
    /// of the last term, or zero when there is none.
    pub fn sum(terms: &Vec<Monomial>) -> (r: Monomial)
        requires
            forall|k: int|
                0 <= k <= terms@.len() ==> fits_i32(#[trigger] value_sum(terms@.take(k))),
        ensures
            r.value == value_sum(terms@),
            r.exp == if terms@.len() == 0 {
                0
            } else {
                terms@.last().exp as int
            },
    {
        let mut exp: i32 = 0;
        let mut total: i32 = 0;
        let mut i: usize = 0;
        while i < terms.len()
            invariant
                i <= terms@.len(),
                forall|k: int|
                    0 <= k <= terms@.len() ==> fits_i32(#[trigger] value_sum(terms@.take(k))),
                total == value_sum(terms@.take(i as int)),
                exp == if i == 0 {
                    0
                } else {
                    terms@[i - 1].exp as int
                },
            decreases terms@.len() - i,
        {
            assert(terms@.take(i + 1).drop_last() =~= terms@.take(i as int));
            assert(fits_i32(value_sum(terms@.take(i + 1))));
            total = total + terms[i].value;
            exp = terms[i].exp;
            i = i + 1;
        }
        assert(terms@.take(terms@.len() as int) =~= terms@);
        Monomial { value: total, exp }
    }

    /// The term as text, such as `-23x^2`, `x`, `-x` or `7`.
    pub fn to_string(&self) -> (r: String)
        ensures
            r@ == term_text(self@.0, self@.1),
    {
        let mut out: Vec<char> = Vec::new();
        self.write_to(&mut out);
        string_of(&out)
    }

    pub(crate) fn write_to(&self, out: &mut Vec<char>)
        ensures
            final(out)@ == old(out)@ + term_text(self@.0, self@.1),
    {
        write_term(out, self.value as i64, self.exp);
    }
}

/// Appends the text of the term `value * x^exp`.
pub(crate) fn write_term(out: &mut Vec<char>, value: i64, exp: i32)
    requires
        value > i64::MIN,
    ensures
        final(out)@ == old(out)@ + term_text(value as int, exp as int),
{
    let ghost start = out@;
    if value == -1 && exp != 0 {
        out.push('-');
    } else if value == 1 && exp != 0 {
    } else {
        push_int(out, value);
    }
    if exp == 0 {
    } else if exp == 1 {
        out.push('x');
    } else {
        out.push('x');
        out.push('^');
        push_int(out, exp as i64);
    }
    assert(out@ =~= start + term_text(value as int, exp as int));
}

/// Sum of the coefficients of a run of terms.
pub open spec fn value_sum(s: Seq<Monomial>) -> int
    decreases s.len(),
{
    if s.len() == 0 {
        0
    } else {
        value_sum(s.drop_last()) + s.last().value
    }
}

/// Removes blanks and `^`, and lowers the variable.
pub(crate) fn clean(s: &Vec<char>) -> (r: Vec<char>)
    ensures
        r@ == cleaned(s@),
{
    let mut r: Vec<char> = Vec::new();
    let mut i: usize = 0;
    while i < s.len()
        invariant
            i <= s@.len(),
            r@ == cleaned(s@.take(i as int)),
        decreases s@.len() - i,
    {
        let c = s[i];
        assert(s@.take(i + 1).drop_last() =~= s@.take(i as int));
        if !(c == ' ' || c == '\t' || c == '\n' || c == '\r' || c == '^') {
            if c == 'X' {
                r.push('x');
            } else {
                r.push(c);
            }
        }
        i = i + 1;
    }
    assert(s@.take(s@.len() as int) =~= s@);
    r
}

} // verus!
