//! Units and unit-tagged quantities.

use vstd::prelude::*;
use vstd::string::StrSliceExecFns;
use vstd::string::StringExecFns;

use crate::render::decimal;
use crate::render::decimal_string;

verus! {

/// Whether `c` is an ASCII decimal digit.
pub open spec fn is_digit(c: char) -> bool {
    c == '0' || c == '1' || c == '2' || c == '3' || c == '4' || c == '5' || c == '6' || c == '7'
        || c == '8' || c == '9'
}

/// The value of the digit `c`; zero on non-digits.
pub open spec fn digit_val(c: char) -> int
    recommends
        is_digit(c),
{
    if c == '1' {
        1
    } else if c == '2' {
        2
    } else if c == '3' {
        3
    } else if c == '4' {
        4
    } else if c == '5' {
        5
    } else if c == '6' {
        6
    } else if c == '7' {
        7
    } else if c == '8' {
        8
    } else if c == '9' {
        9
    } else {
        0
    }
}

/// The length of the longest prefix of `s` made of ASCII digits.
pub open spec fn digit_prefix_len(s: Seq<char>) -> int
    decreases s.len(),
{
    if s.len() == 0 {
        0
    } else if !is_digit(s[0]) {
        0
    } else {
        1 + digit_prefix_len(s.drop_first())
    }
}

/// The number written by the digit sequence `s`, most significant first.
pub open spec fn digits_val(s: Seq<char>) -> int
    decreases s.len(),
{
    if s.len() == 0 {
        0
    } else {
        digits_val(s.drop_last()) * 10 + digit_val(s.last())
    }
}

/// What parsing the character sequence `s` must return: split at the first
/// non-digit character; everything before it is the magnitude, everything
/// from it onward is the unit. An empty digit prefix, or a string with no
/// unit suffix, is `Empty`; a magnitude beyond 64 bits is `Malformed`.
pub open spec fn parse_result_matches(s: Seq<char>, r: Result<Amount, ParseError>) -> bool {
    let b = digit_prefix_len(s);
    if b == 0 || b == s.len() {
        r == Err::<Amount, ParseError>(ParseError::Empty)
    } else if digits_val(s.take(b)) > u64::MAX {
        r == Err::<Amount, ParseError>(ParseError::Malformed)
    } else {
        r matches Ok(a) && a.amount == digits_val(s.take(b)) && a.unit.key@ == s.skip(b)
    }
}

/// A symbolic measurement unit, identified by its string key.
/// Two units are the same exactly when their keys are equal.
#[derive(Debug, Clone, PartialEq)]
pub struct Unit {
    pub key: String,
}

impl Unit {
    /// Makes the unit named by `key`.
    pub fn new(key: &str) -> (u: Unit)
        ensures
            u.key@ == key@,
    {
        Unit { key: key.to_owned() }
    }

    /// A fresh unit with the same key.
    pub fn duplicate(&self) -> (u: Unit)
        ensures
            u.key@ == self.key@,
    {
        Unit { key: self.key.clone() }
    }

    /// The unit's key as an owned string.
    pub fn to_string(&self) -> (s: String)
        ensures
            s@ == self.key@,
    {
        self.key.clone()
    }
}

proof fn lemma_digit_prefix_boundary(s: Seq<char>, i: int)
    requires
        0 <= i <= s.len(),
        forall|j: int| 0 <= j < i ==> is_digit(s[j]),
        i < s.len() ==> !is_digit(s[i]),
    ensures
        digit_prefix_len(s) == i,
    decreases s.len(),
{
    if s.len() == 0 {
    } else if !is_digit(s[0]) {
    } else {
        let t = s.drop_first();
        assert(forall|j: int| 0 <= j < i - 1 ==> is_digit(t[j]));
        lemma_digit_prefix_boundary(t, i - 1);
    }
}

proof fn lemma_digits_val_nonneg(s: Seq<char>)
    ensures
        digits_val(s) >= 0,
    decreases s.len(),
{
    if s.len() > 0 {
        lemma_digits_val_nonneg(s.drop_last());
    }
}

proof fn lemma_digits_val_step(s: Seq<char>, i: int)
    requires
        0 <= i < s.len(),
    ensures
        digits_val(s.take(i + 1)) == digits_val(s.take(i)) * 10 + digit_val(s[i]),
{
    assert(s.take(i + 1).drop_last() =~= s.take(i));
    assert(s.take(i + 1).last() == s[i]);
}

proof fn lemma_digits_val_monotone(s: Seq<char>, i: int, j: int)
    requires
        0 <= i <= j <= s.len(),
    ensures
        digits_val(s.take(i)) <= digits_val(s.take(j)),
    decreases j - i,
{
    if i < j {
        lemma_digits_val_monotone(s, i, j - 1);
        lemma_digits_val_step(s, j - 1);
        lemma_digits_val_nonneg(s.take(j - 1));
    }
}

/// The digit, if any, written by the character `c`.
fn char_digit(c: char) -> (d: Option<u64>)
    ensures
        d matches Some(v) ==> is_digit(c) && v == digit_val(c),
        d is None ==> !is_digit(c),
{
    match c {
        '0' => Some(0u64),
        '1' => Some(1),
        '2' => Some(2),
        '3' => Some(3),
        '4' => Some(4),
        '5' => Some(5),
        '6' => Some(6),
        '7' => Some(7),
        '8' => Some(8),
        '9' => Some(9),
        _ => None,
    }
}

/// A quantity: an unsigned 64-bit magnitude tagged with a unit.
#[derive(Debug, Clone, PartialEq)]
pub struct Amount {
    pub amount: u64,
    pub unit: Unit,
}

impl Amount {
    /// Makes the amount `amount` of `unit`.
    pub fn new(amount: u64, unit: Unit) -> (a: Amount)
        ensures
            a.amount == amount,
            a.unit == unit,
    {
        Amount { amount, unit }
    }

    /// Parses a string of the form `<digits><unit>` into an amount:
    /// the longest ASCII digit prefix is the magnitude, the rest the unit.
    pub fn parse(s: &str) -> (r: Result<Amount, ParseError>)
        ensures
            parse_result_matches(s@, r),
    {
        let n = s.unicode_len();
        let mut b: usize = 0;
        while b < n
            invariant
                b <= n,
                n == s@.len(),
                forall|j: int| 0 <= j < b ==> is_digit(s@[j]),
            ensures
                b <= n,
                n == s@.len(),
                forall|j: int| 0 <= j < b ==> is_digit(s@[j]),
                b == n || !is_digit(s@[b as int]),
            decreases n - b,
        {
            let c = s.get_char(b);
            match char_digit(c) {
                Some(_) => {
                    b = b + 1;
                },
                None => {
                    break ;
                },
            }
        }
        proof {
            lemma_digit_prefix_boundary(s@, b as int);
        }
        if b == 0 || b == n {
            return Err(ParseError::Empty);
        }
        let mut acc: u64 = 0;
        let mut i: usize = 0;
        while i < b
            invariant
                i <= b <= n,
                n == s@.len(),
                forall|j: int| 0 <= j < b ==> is_digit(s@[j]),
                acc == digits_val(s@.take(i as int)),
                digit_prefix_len(s@) == b,
                0 < b < n,
            decreases b - i,
        {
            let c = s.get_char(i);
            let d = match char_digit(c) {
                Some(v) => v,
                None => 0,
            };
            proof {
                lemma_digits_val_step(s@, i as int);
            }
            let next = match acc.checked_mul(10) {
                Some(m) => m.checked_add(d),
                None => None,
            };
            match next {
                Some(v) => {
                    acc = v;
                    i = i + 1;
                },
                None => {
                    proof {
                        lemma_digits_val_monotone(s@, i as int + 1, b as int);
                    }
                    return Err(ParseError::Malformed);
                },
            }
        }
        let unit_str = s.substring_char(b, n);
        proof {
            assert(unit_str@ =~= s@.skip(b as int));
        }
        Ok(Amount { amount: acc, unit: Unit { key: unit_str.to_owned() } })
    }

    /// Renders the amount as `<magnitude><unit>`, with no separator.
    pub fn to_string(&self) -> (s: String)
        ensures
            s@ == amount_chars(*self),
    {
        let s = decimal_string(self.amount).concat(self.unit.key.as_str());
        proof {
            assert(s@ =~= amount_chars(*self));
        }
        s
    }
}

/// The textual form of an amount: its decimal magnitude followed by its
/// unit key.
pub open spec fn amount_chars(a: Amount) -> Seq<char> {
    decimal(a.amount as nat) + a.unit.key@
}

impl core::str::FromStr for Amount {
    type Err = ParseError;

    fn from_str(s: &str) -> Result<Amount, ParseError> {
        Amount::parse(s)
    }
}

/// Why a string failed to parse as an [`Amount`].
#[derive(Debug, Clone, PartialEq)]
pub enum ParseError {
    /// The string has no leading run of ASCII digits followed by a unit.
    Empty,
    /// The digit prefix does not fit in a 64-bit magnitude.
    Malformed,
}

} // verus!
