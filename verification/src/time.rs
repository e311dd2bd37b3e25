//! Times of day, quantised to quarter-hours.

use vstd::prelude::*;
use crate::error::SchedError;
use crate::text::{
    chars_of, decimal_text, first_position, is_digit, lemma_decimal_text,
    lemma_digits_are_a_token, lemma_first_position_is, lemma_two_digit_text, parse_unsigned,
    push_decimal, push_two_digits, two_digit_text, unsigned_token,
};

verus! {

/// Number of quarter-hour slots in a day.
pub const SLOTS_PER_DAY: usize = 96;

/// The hour and minute fields of a time string: the tokens on either side of
/// its only `:`, each an unsigned number. A string of another shape has none.
pub open spec fn clock_fields(s: Seq<char>) -> Option<(nat, nat)> {
    let colon = first_position(s, ':') as int;
    if colon < s.len() {
        match (unsigned_token(s.take(colon)), unsigned_token(s.skip(colon + 1))) {
            (Some(h), Some(m)) => Some((h, m)),
            _ => None,
        }
    } else {
        None
    }
}

/// The quarter-hour that a 24-hour time string names. Minutes are cut down
/// to the quarter-hour they fall in, never rounded up.
pub open spec fn clock_qi(s: Seq<char>) -> Result<nat, SchedError> {
    match clock_fields(s) {
        None => Err(SchedError::InvalidFormat),
        Some((h, m)) => {
            let qi = (h * 60 + m) / 15;
            if qi < 96 {
                Ok(qi as nat)
            } else {
                Err(SchedError::OutOfRange)
            }
        },
    }
}

/// The time of a quarter-hour index, if the index lies within the day.
pub open spec fn checked_qi(qi: nat) -> Result<nat, SchedError> {
    if qi < 96 {
        Ok(qi)
    } else {
        Err(SchedError::OutOfRange)
    }
}

/// What a constructor handed back, with the time seen as its quarter-hour index.
pub open spec fn outcome_qi(r: Result<Time, SchedError>) -> Result<nat, SchedError> {
    match r {
        Ok(t) => Ok(t@),
        Err(e) => Err(e),
    }
}

/// A count of quarter-hours written as hours and minutes, `H:MM`.
pub open spec fn text_24h(qi: nat) -> Seq<char> {
    decimal_text(qi / 4) + seq![':'] + two_digit_text((qi % 4) * 15)
}

/// A quarter-hour of the day on the 12-hour clock, `H:MMa` or `H:MMp`.
pub open spec fn text_12h(qi: nat) -> Seq<char> {
    if qi < 4 {
        seq!['1', '2', ':'] + two_digit_text(qi * 15) + seq!['a']
    } else if qi < 48 {
        decimal_text(qi / 4) + seq![':'] + two_digit_text((qi % 4) * 15) + seq!['a']
    } else if qi < 52 {
        seq!['1', '2', ':'] + two_digit_text((qi % 4) * 15) + seq!['p']
    } else {
        decimal_text((qi / 4 - 12) as nat) + seq![':'] + two_digit_text((qi % 4) * 15) + seq!['p']
    }
}

/// A point in the day, held as the index of its quarter-hour slot.
#[derive(Clone, Copy, Debug, PartialEq, Eq, Structural)]
pub struct Time {
    qi: usize,
}

impl View for Time {
    type V = nat;

    closed spec fn view(&self) -> nat {
        self.qi as nat
    }
}

impl Time {
    #[verifier::type_invariant]
    closed spec fn in_day(self) -> bool {
        self.qi < SLOTS_PER_DAY
    }

    /// Reads a 24-hour time, `H:MM` or `HH:MM`.
    pub fn from_str(st: &str) -> (r: Result<Time, SchedError>)
        ensures
            outcome_qi(r) == clock_qi(st@),
    {
        let chars = chars_of(st);
        let n: usize = chars.len();
        let mut colon: usize = 0;
        while colon < n && chars[colon] != ':'
            invariant
                colon <= n == chars.len(),
                forall|j: int| 0 <= j < colon ==> chars[j] != ':',
            decreases n - colon,
        {
            colon = colon + 1;
        }
        proof {
            lemma_first_position_is(chars@, ':', colon as int);
        }
        if colon == n {
            return Err(SchedError::InvalidFormat);
        }
        assert(chars@.take(colon as int) =~= chars@.subrange(0, colon as int));
        assert(chars@.skip(colon + 1) =~= chars@.subrange(colon + 1, n as int));
        let hours: usize = match parse_unsigned(&chars, 0, colon) {
            Some(h) => h,
            None => {
                return Err(SchedError::InvalidFormat);
            },
        };
        let minutes: usize = match parse_unsigned(&chars, colon + 1, n) {
            Some(m) => m,
            None => {
                return Err(SchedError::InvalidFormat);
            },
        };
        if hours >= 24 || minutes >= 1440 {
            return Err(SchedError::OutOfRange);
        }
        let qi: usize = (hours * 60 + minutes) / 15;
        if qi >= SLOTS_PER_DAY {
            return Err(SchedError::OutOfRange);
        }
        Ok(Time { qi })
    }

    /// The time of the quarter-hour slot `qi`.
    pub fn from_qi(qi: usize) -> (r: Result<Time, SchedError>)
        ensures
            outcome_qi(r) == checked_qi(qi as nat),
    {
        if qi >= SLOTS_PER_DAY {
            Err(SchedError::OutOfRange)
        } else {
            Ok(Time { qi })
        }
    }

    /// The time at which the hour `hour` of the day begins.
    pub fn from_hour(hour: usize) -> (r: Result<Time, SchedError>)
        ensures
            outcome_qi(r) == checked_qi(hour as nat * 4),
    {
        if hour >= 24 {
            Err(SchedError::OutOfRange)
        } else {
            Time::from_qi(hour * 4)
        }
    }

    /// This time on the 24-hour clock: the hour as it is, the minutes in two digits.
    pub fn to_string_24h(&self) -> (s: String)
        ensures
            s@ == text_24h(self@),
    {
        proof {
            use_type_invariant(self);
        }
        Time::duration_string(self.qi)
    }

    /// This time on the 12-hour clock, with `a` or `p` behind it.
    pub fn to_string(&self) -> (s: String)
        ensures
            s@ == text_12h(self@),
    {
        proof {
            use_type_invariant(self);
            reveal_strlit("12:");
            reveal_strlit(":");
            reveal_strlit("a");
            reveal_strlit("p");
        }
        let qi: usize = self.qi;
        let mut out = String::new();
        if qi < 4 {
            out.append("12:");
            push_two_digits(&mut out, (qi * 15) as u128);
            out.append("a");
        } else if qi < 48 {
            push_decimal(&mut out, (qi / 4) as u128);
            out.append(":");
            push_two_digits(&mut out, ((qi % 4) * 15) as u128);
            out.append("a");
        } else if qi < 52 {
            out.append("12:");
            push_two_digits(&mut out, ((qi % 4) * 15) as u128);
            out.append("p");
        } else {
            push_decimal(&mut out, (qi / 4 - 12) as u128);
            out.append(":");
            push_two_digits(&mut out, ((qi % 4) * 15) as u128);
            out.append("p");
        }
        assert(out@ =~= text_12h(self@));
        out
    }

    /// The quarter-hour index of this time.
    pub fn get_qi(&self) -> (qi: usize)
        ensures
            qi == self@,
            qi < 96,
    {
        proof {
            use_type_invariant(self);
        }
        self.qi
    }

    /// A length of time, counted in quarter-hours, as hours and minutes.
    pub fn duration_string(qi: usize) -> (s: String)
        ensures
            s@ == text_24h(qi as nat),
    {
        let mut out = String::new();
        push_duration(&mut out, qi as u128);
        out
    }
}

/// Appends a length of time, counted in quarter-hours, as hours and minutes.
pub fn push_duration(out: &mut String, quarters: u128)
    ensures
        final(out)@ == old(out)@ + text_24h(quarters as nat),
{
    proof {
        reveal_strlit(":");
    }
    push_decimal(out, quarters / 4);
    out.append(":");
    push_two_digits(out, (quarters % 4) * 15);
    assert(out@ =~= old(out)@ + text_24h(quarters as nat));
}

/// Two times are equal exactly when they are the same quarter-hour.
pub proof fn lemma_equal_by_qi(a: Time, b: Time)
    ensures
        (a == b) <==> (a@ == b@),
{
}

/// A time string in the form in which times are written out, `H:MM`: the
/// hour without sign or padding, a colon, the minutes in two digits.
pub open spec fn canonical_text(hour: nat, minute: nat) -> Seq<char> {
    decimal_text(hour) + seq![':'] + two_digit_text(minute)
}

/// A time string in the written-out form has the hour and the minute that
/// it was written from as its fields.
pub proof fn lemma_canonical_fields(hour: nat, minute: nat)
    requires
        hour <= usize::MAX,
        minute <= usize::MAX,
    ensures
        clock_fields(canonical_text(hour, minute)) == Some((hour, minute)),
{
    let h = decimal_text(hour);
    let m = two_digit_text(minute);
    let s = canonical_text(hour, minute);
    lemma_decimal_text(hour);
    lemma_two_digit_text(minute);
    assert forall|j: int| 0 <= j < h.len() implies s[j] != ':' by {
        assert(s[j] == h[j]);
        assert(is_digit(h[j]));
    }
    assert(s[h.len() as int] == ':');
    lemma_first_position_is(s, ':', h.len() as int);
    assert(s.take(h.len() as int) =~= h);
    assert(s.skip(h.len() as int + 1) =~= m);
    lemma_digits_are_a_token(h);
    lemma_digits_are_a_token(m);
}

/// Writing a time out on the 24-hour clock and reading it back gives the
/// same time.
pub proof fn lemma_write_then_read(qi: nat)
    requires
        qi < 96,
    ensures
        clock_qi(text_24h(qi)) == Ok::<nat, SchedError>(qi),
{
    lemma_canonical_fields(qi / 4, (qi % 4) * 15);
    assert(text_24h(qi) == canonical_text(qi / 4, (qi % 4) * 15));
}

/// Whatever string a time was read from, writing the time out gives a
/// string in the written-out form that names the same time.
pub proof fn lemma_read_then_write(s: Seq<char>)
    requires
        clock_qi(s) is Ok,
    ensures
        text_24h(clock_qi(s)->Ok_0) == canonical_text(
            clock_qi(s)->Ok_0 / 4,
            (clock_qi(s)->Ok_0 % 4) * 15,
        ),
        clock_qi(text_24h(clock_qi(s)->Ok_0)) == clock_qi(s),
{
    lemma_write_then_read(clock_qi(s)->Ok_0);
}

/// A string in the written-out form that names a quarter-hour of the day is
/// given back letter for letter when the time it names is written out.
pub proof fn lemma_canonical_text_is_kept(hour: nat, minute: nat)
    requires
        hour < 24,
        minute < 60,
        minute % 15 == 0,
    ensures
        clock_qi(canonical_text(hour, minute)) == Ok::<nat, SchedError>(
            hour * 4 + minute / 15,
        ),
        text_24h(hour * 4 + minute / 15) == canonical_text(hour, minute),
{
    lemma_canonical_fields(hour, minute);
}

} // verus!
