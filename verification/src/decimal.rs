//! Numbers as the feed writes them: counts in decimal digits, and coordinates
//! as signed decimals that are kept in units of 1e-7 degrees.

use vstd::prelude::*;
use vstd::utf8::encode_utf8;

verus! {

/// The number of units that make one degree.
pub const UNITS_PER_DEGREE: u64 = 10_000_000;

/// The number of fraction digits that a coordinate keeps.
pub const KEPT_PLACES: usize = 7;

/// No coordinate is larger in magnitude: what a text writes beyond it is
/// pinned to it.
pub const COORD_LIMIT: i64 = 1_000_000_000_000_000_000;

/// The largest whole number of degrees below the limit.
pub const WHOLE_LIMIT: u64 = 100_000_000_000;

/// Whether a byte is one of the ASCII digits.
pub open spec fn is_digit(b: u8) -> bool {
    48 <= b <= 57
}

/// Whether every byte is a digit.
pub open spec fn all_digits(s: Seq<u8>) -> bool {
    forall|i: int| 0 <= i < s.len() ==> is_digit(#[trigger] s[i])
}

/// The number that a string of digits writes in base ten.
pub open spec fn digits_value(s: Seq<u8>) -> nat
    decreases s.len(),
{
    if s.len() == 0 {
        0
    } else {
        (digits_value(s.drop_last()) * 10 + (s.last() - 48)) as nat
    }
}

/// Ten to the power `n`.
pub open spec fn pow10(n: nat) -> nat
    decreases n,
{
    if n == 0 {
        1
    } else {
        10 * pow10((n - 1) as nat)
    }
}

/// The number of digits at the start of `s`.
pub open spec fn digit_run(s: Seq<u8>) -> nat
    decreases s.len(),
{
    if s.len() > 0 && is_digit(s[0]) {
        1 + digit_run(s.drop_first())
    } else {
        0
    }
}

/// The count that a field writes: one or more digits and nothing else.
pub open spec fn count_of(s: Seq<u8>) -> Option<nat> {
    if s.len() > 0 && all_digits(s) {
        Some(digits_value(s))
    } else {
        None
    }
}

/// Whether a text starts with a sign.
pub open spec fn has_sign(s: Seq<u8>) -> bool {
    s.len() > 0 && (s[0] == 43 || s[0] == 45)
}

/// The text without its sign.
pub open spec fn unsigned_part(s: Seq<u8>) -> Seq<u8> {
    if has_sign(s) {
        s.skip(1)
    } else {
        s
    }
}

/// The digits before the point.
pub open spec fn whole_digits(s: Seq<u8>) -> Seq<u8> {
    let body = unsigned_part(s);
    body.take(digit_run(body) as int)
}

/// What follows the whole digits: nothing, or a point and the fraction.
pub open spec fn tail_part(s: Seq<u8>) -> Seq<u8> {
    let body = unsigned_part(s);
    body.skip(digit_run(body) as int)
}

/// The digits behind the point.
pub open spec fn fraction_digits(s: Seq<u8>) -> Seq<u8> {
    if tail_part(s).len() > 0 {
        tail_part(s).skip(1)
    } else {
        tail_part(s)
    }
}

/// A decimal is an optional sign, digits, and optionally a point with more
/// digits; at least one digit stands on one side of the point.
pub open spec fn is_decimal(s: Seq<u8>) -> bool {
    &&& tail_part(s).len() > 0 ==> tail_part(s)[0] == 46
    &&& all_digits(fraction_digits(s))
    &&& whole_digits(s).len() + fraction_digits(s).len() > 0
}

/// The fraction in units: its first seven digits, read as if seven stood there.
pub open spec fn fraction_units(f: Seq<u8>) -> nat {
    if f.len() >= KEPT_PLACES {
        digits_value(f.take(KEPT_PLACES as int))
    } else {
        digits_value(f) * pow10((KEPT_PLACES - f.len()) as nat)
    }
}

/// The magnitude of a decimal in units, digits beyond the seventh place cut off.
pub open spec fn magnitude_units(s: Seq<u8>) -> nat {
    digits_value(whole_digits(s)) * (UNITS_PER_DEGREE as nat) + fraction_units(fraction_digits(s))
}

/// The coordinate that a text writes, in units of 1e-7 degrees.
pub open spec fn coord_of(s: Seq<u8>) -> Option<int> {
    if is_decimal(s) {
        let m = if magnitude_units(s) > COORD_LIMIT {
            COORD_LIMIT as int
        } else {
            magnitude_units(s) as int
        };
        if s[0] == 45 {
            Some(-m)
        } else {
            Some(m)
        }
    } else {
        None
    }
}

/// The count that a text field writes, where it fits the machine's numbers.
pub open spec fn count_in(text: Seq<char>) -> Option<u64> {
    match count_of(encode_utf8(text)) {
        Some(v) => if v <= u64::MAX {
            Some(v as u64)
        } else {
            None
        },
        None => None,
    }
}

/// The coordinate that a text field writes.
pub open spec fn coord_in(text: Seq<char>) -> Option<i64> {
    match coord_of(encode_utf8(text)) {
        Some(v) => Some(v as i64),
        None => None,
    }
}

/// A coordinate text that is no decimal.
#[derive(Clone, Debug, PartialEq, Eq)]
pub struct MalformedCoordinate {
    /// The text as it stood in the field.
    pub text: String,
}

/// The number written by the first `k` digits is no larger than the number
/// written by all of them.
pub proof fn lemma_digits_prefix(s: Seq<u8>, k: int)
    requires
        all_digits(s),
        0 <= k <= s.len(),
    ensures
        digits_value(s.take(k)) <= digits_value(s),
    decreases s.len(),
{
    if k == s.len() {
        assert(s.take(k) =~= s);
    } else {
        assert(s.drop_last().take(k) =~= s.take(k));
        assert(is_digit(s[s.len() - 1]));
        lemma_digits_prefix(s.drop_last(), k);
    }
}

/// Reads a count: one or more decimal digits that write a number within `u64`.
pub fn parse_count(text: &str) -> (r: Option<u64>)
    ensures
        r == count_in(text@),
{
    let b = text.as_bytes();
    if b.len() == 0 {
        return None;
    }
    let mut acc: u64 = 0;
    let mut i: usize = 0;
    while i < b.len()
        invariant
            b@ == encode_utf8(text@),
            0 <= i <= b@.len(),
            all_digits(b@.take(i as int)),
            acc == digits_value(b@.take(i as int)),
        decreases b.len() - i,
    {
        let d = b[i];
        if d < 48 || d > 57 {
            assert(!is_digit(b@[i as int]));
            return None;
        }
        let ghost next = b@.take(i + 1);
        assert(next.drop_last() =~= b@.take(i as int));
        assert(next.last() == d);
        if acc > (u64::MAX - (d - 48) as u64) / 10 {
            proof {
                if all_digits(b@) {
                    lemma_digits_prefix(b@, i + 1);
                }
            }
            return None;
        }
        acc = acc * 10 + (d - 48) as u64;
        i += 1;
        assert forall|k: int| 0 <= k < next.len() implies is_digit(#[trigger] next[k]) by {
            if k < i - 1 {
                assert(next[k] == b@.take(i - 1)[k]);
            }
        }
    }
    assert(b@.take(i as int) =~= b@);
    Some(acc)
}

/// The digits at the start of a text are digits, and what follows them is none.
pub proof fn lemma_digit_run(s: Seq<u8>)
    ensures
        digit_run(s) <= s.len(),
        all_digits(s.take(digit_run(s) as int)),
        digit_run(s) < s.len() ==> !is_digit(s[digit_run(s) as int]),
    decreases s.len(),
{
    if s.len() > 0 && is_digit(s[0]) {
        let rest = s.drop_first();
        lemma_digit_run(rest);
        let n = digit_run(rest) as int;
        assert forall|i: int| 0 <= i < n + 1 implies is_digit(#[trigger] s.take(n + 1)[i]) by {
            if i > 0 {
                assert(rest.take(n)[i - 1] == s[i]);
            }
        }
        if n + 1 < s.len() {
            assert(rest[n] == s[n + 1]);
        }
    }
}

/// Reads the digits that start at `from`, as far as they go. Returns where
/// they end and the number they write, pinned to `cap`.
fn read_digits(b: &[u8], from: usize, cap: u64) -> (r: (usize, u64))
    requires
        from <= b@.len(),
        cap <= 1_000_000_000_000_000_000,
    ensures
        r.0 == from + digit_run(b@.skip(from as int)),
        r.0 <= b@.len(),
        r.1 == if digits_value(b@.subrange(from as int, r.0 as int)) > cap {
            cap as nat
        } else {
            digits_value(b@.subrange(from as int, r.0 as int))
        },
{
    let mut i: usize = from;
    let mut acc: u64 = 0;
    let ghost body = b@.skip(from as int);
    assert(body.skip(0) =~= body);
    assert(b@.subrange(from as int, from as int) =~= Seq::<u8>::empty());
    while i < b.len() && b[i] >= 48 && b[i] <= 57
        invariant
            from <= i <= b@.len(),
            body == b@.skip(from as int),
            cap <= 1_000_000_000_000_000_000,
            digit_run(body) == (i - from) + digit_run(body.skip(i - from)),
            acc <= cap,
            acc == if digits_value(b@.subrange(from as int, i as int)) > cap {
                cap as nat
            } else {
                digits_value(b@.subrange(from as int, i as int))
            },
        decreases b.len() - i,
    {
        let d: u64 = (b[i] - 48) as u64;
        proof {
            let here = body.skip(i - from);
            assert(here[0] == b@[i as int]);
            assert(here.drop_first() =~= body.skip(i - from + 1));
            let next = b@.subrange(from as int, i + 1);
            assert(next.drop_last() =~= b@.subrange(from as int, i as int));
            assert(next.last() == b@[i as int]);
        }
        let wide: u64 = acc * 10 + d;
        acc = if wide > cap { cap } else { wide };
        i += 1;
    }
    proof {
        let here = body.skip(i - from);
        if i < b@.len() {
            assert(here[0] == b@[i as int]);
        }
    }
    (i, acc)
}

/// The powers of ten up to the seventh.
pub proof fn lemma_pow10_values()
    ensures
        pow10(0) == 1,
        pow10(1) == 10,
        pow10(2) == 100,
        pow10(3) == 1_000,
        pow10(4) == 10_000,
        pow10(5) == 100_000,
        pow10(6) == 1_000_000,
        pow10(7) == 10_000_000,
{
    reveal_with_fuel(pow10, 8);
}

/// Reads the fraction that starts at `from` and runs to the end of the text.
/// Returns its value in units, or nothing where a byte is no digit.
fn read_fraction(b: &[u8], from: usize) -> (r: Option<u64>)
    requires
        from <= b@.len(),
    ensures
        match r {
            Some(u) => all_digits(b@.skip(from as int)) && u == fraction_units(
                b@.skip(from as int),
            ) && u < 10_000_000,
            None => !all_digits(b@.skip(from as int)),
        },
{
    let ghost fraction = b@.skip(from as int);
    let mut places: usize = 0;
    let mut units: u64 = 0;
    let mut j: usize = from;
    proof {
        lemma_pow10_values();
    }
    while j < b.len()
        invariant
            from <= j <= b@.len(),
            fraction == b@.skip(from as int),
            all_digits(fraction.take(j - from)),
            places == if j - from > KEPT_PLACES {
                KEPT_PLACES as int
            } else {
                j - from
            },
            units == digits_value(fraction.take(places as int)),
            units < pow10(places as nat),
        decreases b.len() - j,
    {
        let d = b[j];
        assert(fraction[j - from] == d);
        if d < 48 || d > 57 {
            return None;
        }
        proof {
            let seen = fraction.take(j - from + 1);
            assert forall|k: int| 0 <= k < seen.len() implies is_digit(#[trigger] seen[k]) by {
                if k < j - from {
                    assert(seen[k] == fraction.take(j - from)[k]);
                }
            }
        }
        if places < KEPT_PLACES {
            proof {
                lemma_pow10_values();
                let next = fraction.take(places + 1);
                assert(next.drop_last() =~= fraction.take(places as int));
                assert(next.last() == d);
                assert(pow10((places + 1) as nat) == 10 * pow10(places as nat));
            }
            units = units * 10 + (d - 48) as u64;
            places += 1;
        }
        j += 1;
    }
    assert(fraction.take(j - from) =~= fraction);
    let ghost kept = units;
    let ghost kept_places = places;
    proof {
        lemma_pow10_values();
        assert(kept * 1 == kept) by (nonlinear_arith);
    }
    while places < KEPT_PLACES
        invariant
            kept_places <= places <= KEPT_PLACES,
            units == kept * pow10((places - kept_places) as nat),
            units < pow10(places as nat),
        decreases KEPT_PLACES - places,
    {
        proof {
            lemma_pow10_values();
            assert(pow10((places + 1 - kept_places) as nat) == 10 * pow10(
                (places - kept_places) as nat,
            ));
            assert(pow10((places + 1) as nat) == 10 * pow10(places as nat));
            assert(kept * (10 * pow10((places - kept_places) as nat)) == 10 * (kept * pow10(
                (places - kept_places) as nat,
            ))) by (nonlinear_arith);
        }
        units = units * 10;
        places += 1;
    }
    proof {
        lemma_pow10_values();
    }
    Some(units)
}

/// Reads a coordinate: an optional sign, digits, and optionally a point with
/// more digits. The result counts units of 1e-7 degrees; digits beyond the
/// seventh place are cut off, and a magnitude beyond the limit is pinned to it.
pub fn parse_coord(text: &str) -> (r: Result<i64, MalformedCoordinate>)
    ensures
        match r {
            Ok(v) => coord_in(text@) == Some(v) && coord_of(encode_utf8(text@)) == Some(v as int),
            Err(e) => coord_in(text@) is None && e.text@ == text@,
        },
{
    let b = text.as_bytes();
    let start: usize = if b.len() > 0 && (b[0] == 43 || b[0] == 45) {
        1
    } else {
        0
    };
    let negative = b.len() > 0 && b[0] == 45;
    let ghost body = unsigned_part(b@);
    assert(body =~= b@.skip(start as int));
    let (dot, whole) = read_digits(b, start, WHOLE_LIMIT);
    proof {
        lemma_digit_run(body);
        assert(b@.subrange(start as int, dot as int) =~= whole_digits(b@));
        assert(tail_part(b@) =~= b@.skip(dot as int));
    }
    let mut units: u64 = 0;
    let mut fraction_len: usize = 0;
    if dot < b.len() {
        if b[dot] != 46 {
            return Err(MalformedCoordinate { text: text.to_owned() });
        }
        assert(fraction_digits(b@) =~= b@.skip(dot + 1));
        match read_fraction(b, dot + 1) {
            Some(u) => {
                units = u;
            },
            None => {
                return Err(MalformedCoordinate { text: text.to_owned() });
            },
        }
        fraction_len = b.len() - (dot + 1);
    } else {
        proof {
            lemma_pow10_values();
            assert(fraction_digits(b@).len() == 0);
        }
    }
    if dot - start + fraction_len == 0 {
        return Err(MalformedCoordinate { text: text.to_owned() });
    }
    assert(is_decimal(b@));
    assert(units == fraction_units(fraction_digits(b@)));
    let magnitude: i64 = if whole >= WHOLE_LIMIT {
        assert(magnitude_units(b@) >= COORD_LIMIT) by (nonlinear_arith)
            requires
                magnitude_units(b@) == digits_value(whole_digits(b@)) * 10_000_000 + units,
                digits_value(whole_digits(b@)) >= 100_000_000_000,
        ;
        COORD_LIMIT
    } else {
        assert(whole * 10_000_000 + units < 1_000_000_000_000_000_000) by (nonlinear_arith)
            requires
                whole < 100_000_000_000,
                units < 10_000_000,
        ;
        (whole * UNITS_PER_DEGREE + units) as i64
    };
    if negative {
        Ok(-magnitude)
    } else {
        Ok(magnitude)
    }
}

} // verus!
