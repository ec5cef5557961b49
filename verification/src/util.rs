//! Small parsers shared by the configuration and the command line.
use crate::text;
use crate::text::{chars_of, parse_unsigned, quoted, slice_string, trim};
use vstd::prelude::*;
use vstd::string::*;

verus! {

/// What is wrong with a range.
#[derive(Clone, Copy, Debug, PartialEq, Eq, Structural)]
pub enum RangeError {
    /// Not a number with a known unit.
    Unreadable,
    Zero,
    /// More seconds than can be counted.
    TooLarge,
}

/// Seconds per unit.
pub open spec fn unit(c: char) -> Option<nat> {
    if c == 's' {
        Some(1)
    } else if c == 'm' {
        Some(60)
    } else if c == 'h' {
        Some(3600)
    } else if c == 'd' {
        Some(86400)
    } else if c == 'w' {
        Some(604800)
    } else {
        None
    }
}

/// The seconds that a text names.
pub open spec fn range_of(s: Seq<char>) -> Result<nat, RangeError> {
    let t = text::trimmed(s);
    let (num, mult) = if t.len() > 0 && unit(t.last()) is Some {
        (t.drop_last(), unit(t.last())->0)
    } else {
        (t, 1nat)
    };
    match text::unsigned(num, u64::MAX as nat) {
        None => Err(RangeError::Unreadable),
        Some(n) => if n == 0 {
            Err(RangeError::Zero)
        } else if n * mult > u64::MAX {
            Err(RangeError::TooLarge)
        } else {
            Ok(n * mult)
        },
    }
}

/// What is said of a text that is no range.
pub open spec fn range_text(e: RangeError, range: Seq<char>) -> Seq<char> {
    match e {
        RangeError::Unreadable => "cannot parse range "@ + text::debug_form(text::trimmed(range)),
        RangeError::Zero => "range must be > 0"@,
        RangeError::TooLarge => "range is too large"@,
    }
}

impl RangeError {
    pub fn message(&self, range: &str) -> (r: String)
        ensures
            r@ == range_text(*self, range@),
    {
        match self {
            RangeError::Unreadable => {
                let mut m = "cannot parse range ".to_owned();
                m.append(quoted(trim(range).as_str()).as_str());
                m
            },
            RangeError::Zero => "range must be > 0".to_owned(),
            RangeError::TooLarge => "range is too large".to_owned(),
        }
    }
}

/// A range is some seconds, and countable.
pub proof fn lemma_range(s: Seq<char>)
    ensures
        range_of(s) matches Ok(n) ==> 0 < n <= u64::MAX,
{
    let t = text::trimmed(s);
    let (num, mult) = if t.len() > 0 && unit(t.last()) is Some {
        (t.drop_last(), unit(t.last())->0)
    } else {
        (t, 1nat)
    };
    if let Some(n) = text::unsigned(num, u64::MAX as nat) {
        assert(n > 0 ==> n * mult > 0) by (nonlinear_arith)
            requires
                mult > 0,
        ;
    }
}

/// Parse "90s", "5m", "3h", "10d", "2w" (bare numbers = seconds).
pub fn parse_range(s: &str) -> (r: Result<u64, RangeError>)
    ensures
        match r {
            Ok(n) => range_of(s@) == Ok::<nat, RangeError>(n as nat),
            Err(e) => range_of(s@) == Err::<nat, RangeError>(e),
        },
{
    let t = trim(s);
    let v = chars_of(t.as_str());
    let len: usize = v.len();
    let last = if len > 0 {
        v[len - 1]
    } else {
        ' '
    };
    let (num, mult): (String, u64) = if last == 's' {
        (slice_string(&v, 0, len - 1), 1)
    } else if last == 'm' {
        (slice_string(&v, 0, len - 1), 60)
    } else if last == 'h' {
        (slice_string(&v, 0, len - 1), 3600)
    } else if last == 'd' {
        (slice_string(&v, 0, len - 1), 86400)
    } else if last == 'w' {
        (slice_string(&v, 0, len - 1), 604800)
    } else {
        (t.clone(), 1)
    };
    assert(len > 0 ==> v@.subrange(0, len - 1) == t@.drop_last());
    match parse_unsigned(num.as_str(), u64::MAX) {
        None => Err(RangeError::Unreadable),
        Some(n) => {
            if n == 0 {
                return Err(RangeError::Zero);
            }
            assert(n * mult <= 0xffff_ffff_ffff_ffff * 604800) by (nonlinear_arith)
                requires
                    n <= 0xffff_ffff_ffff_ffff,
                    mult <= 604800,
            ;
            let total: u128 = n as u128 * mult as u128;
            if total > u64::MAX as u128 {
                Err(RangeError::TooLarge)
            } else {
                Ok(total as u64)
            }
        },
    }
}

/// A range is a number of seconds, or a number and one of the letters for
/// seconds, minutes, hours, days and weeks.
pub proof fn ranges_are_written_so(n: nat)
    requires
        0 < n,
        n * 604_800 <= u64::MAX,
    ensures
        range_of(text::decimal(n)) == Ok::<nat, RangeError>(n),
        range_of(text::decimal(n).push('s')) == Ok::<nat, RangeError>(n),
        range_of(text::decimal(n).push('m')) == Ok::<nat, RangeError>(n * 60),
        range_of(text::decimal(n).push('h')) == Ok::<nat, RangeError>(n * 60 * 60),
        range_of(text::decimal(n).push('d')) == Ok::<nat, RangeError>(n * 24 * 60 * 60),
        range_of(text::decimal(n).push('w')) == Ok::<nat, RangeError>(n * 7 * 24 * 60 * 60),
{
    let t = text::decimal(n);
    text::a_numeral_stands_for_its_number(n);
    text::numerals_are_read_back(n, u64::MAX as nat);
    assert(text::is_digit(t[0]) && text::is_digit(t[t.len() - 1]));
    text::lemma_trimmed_already(t);
    assert forall|c: char| !text::is_space(c) implies text::trimmed(#[trigger] t.push(c)) == t.push(
        c,
    ) by {
        text::lemma_trimmed_already(t.push(c));
    }
    assert forall|c: char| #[trigger] t.push(c).drop_last() == t by {
        assert(t.push(c).drop_last() =~= t);
    }
    assert(n * 1 == n);
    assert(n * 60 * 60 == n * 3600) by (nonlinear_arith);
    assert(n * 24 * 60 * 60 == n * 86400) by (nonlinear_arith);
    assert(n * 7 * 24 * 60 * 60 == n * 604800) by (nonlinear_arith);
    assert(unit('h') == Some(3600nat) && unit('d') == Some(86400nat));
    assert(t.push('h').last() == 'h' && t.push('d').last() == 'd');
    assert(text::trimmed(t.push('h')) == t.push('h'));
    assert(text::trimmed(t.push('d')) == t.push('d'));
}

/// Nothing is no range, and a letter that stands for no unit makes none.
pub proof fn other_texts_are_no_ranges(n: nat, c: char)
    requires
        !text::is_space(c),
        !text::is_digit(c),
        c != 's' && c != 'm' && c != 'h' && c != 'd' && c != 'w',
    ensures
        range_of(text::decimal(n).push(c)) == Err::<nat, RangeError>(RangeError::Unreadable),
        range_of(Seq::empty()) == Err::<nat, RangeError>(RangeError::Unreadable),
        range_of(text::decimal(0)) == Err::<nat, RangeError>(RangeError::Zero),
{
    let t = text::decimal(n).push(c);
    text::a_numeral_stands_for_its_number(n);
    assert(text::is_digit(text::decimal(n)[0]));
    text::lemma_trimmed_already(t);
    let body = if t[0] == '+' {
        t.drop_first()
    } else {
        t
    };
    assert(!text::is_digit(body[body.len() - 1]));
    text::a_numeral_stands_for_its_number(0);
    text::numerals_are_read_back(0, u64::MAX as nat);
    let z = text::decimal(0);
    assert(text::is_digit(z[0]) && text::is_digit(z[z.len() - 1]));
    text::lemma_trimmed_already(z);
}

/// A range is a number of seconds that 64 bits hold.
pub proof fn lemma_range_bounded(s: Seq<char>)
    ensures
        range_of(s) matches Ok(n) ==> 0 < n <= u64::MAX,
{
    let t = text::trimmed(s);
    let (num, mult) = if t.len() > 0 && unit(t.last()) is Some {
        (t.drop_last(), unit(t.last())->0)
    } else {
        (t, 1nat)
    };
    match text::unsigned(num, u64::MAX as nat) {
        Some(n) => {
            if n > 0 {
                assert(n * mult > 0) by (nonlinear_arith)
                    requires
                        n > 0,
                        mult > 0,
                ;
            }
        },
        None => {},
    }
}

} // verus!
