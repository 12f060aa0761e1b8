//! Durations of the form `P[n]DT[n]H[n]M[n]S`, in nanoseconds.
//!
//! Years and calendar months have no fixed length and are refused by name; weeks are outside
//! the grammar. Seconds may carry a fraction of at most nine digits, which is read exactly.

use vstd::prelude::*;
use vstd::slice::slice_subrange;

use crate::error::{gives, refuses, Fault, MirrorError, MirrorResult};
use crate::text::chars_of;

verus! {

/// Nanoseconds in a second.
pub const NANOS_PER_SECOND: u64 = 1_000_000_000;

/// Seconds in a minute.
pub const SECONDS_PER_MINUTE: u64 = 60;

/// Seconds in an hour.
pub const SECONDS_PER_HOUR: u64 = 3_600;

/// Seconds in a day.
pub const SECONDS_PER_DAY: u64 = 86_400;

/// Whether a character is a decimal digit.
pub open spec fn is_digit(c: char) -> bool {
    '0' <= c <= '9'
}

/// Whether every character is a decimal digit.
pub open spec fn all_digits(text: Seq<char>) -> bool {
    forall|i: int| 0 <= i < text.len() ==> is_digit(#[trigger] text[i])
}

/// The number a sequence of decimal digits stands for.
pub open spec fn decimal(digits: Seq<char>) -> nat
    decreases digits.len(),
{
    if digits.len() == 0 {
        0
    } else {
        (10 * decimal(digits.drop_last()) + (digits.last() as int - 48)) as nat
    }
}

/// Whether a text is a number that fits `u64`: one digit or more, and nothing else.
pub open spec fn is_number(text: Seq<char>) -> bool {
    text.len() > 0 && all_digits(text) && decimal(text) <= u64::MAX
}

/// Ten to a power.
pub open spec fn ten_to(power: nat) -> nat
    decreases power,
{
    if power == 0 {
        1
    } else {
        10 * ten_to((power - 1) as nat)
    }
}

/// The first position of `c` in `text` from `from` on.
pub open spec fn position_from(text: Seq<char>, c: char, from: int) -> Option<int>
    decreases text.len() - from,
{
    if from < 0 || from >= text.len() {
        None
    } else if text[from] == c {
        Some(from)
    } else {
        position_from(text, c, from + 1)
    }
}

/// The first position of `c` in `text`.
pub open spec fn position(text: Seq<char>, c: char) -> Option<int> {
    position_from(text, c, 0)
}

/// A running total of seconds and the text left, after the component of one unit at the head
/// of `text`, if there is one: a number up to the first occurrence of the unit's letter.
pub open spec fn after_component(
    value: Seq<char>,
    total: nat,
    text: Seq<char>,
    unit: char,
    seconds_per_unit: nat,
) -> Result<(nat, Seq<char>), Fault> {
    match position(text, unit) {
        None => Ok((total, text)),
        Some(at) => if !is_number(text.take(at)) {
            Err(Fault::BadDuration { value })
        } else if total + decimal(text.take(at)) * seconds_per_unit > u64::MAX {
            Err(Fault::BadDuration { value })
        } else {
            Ok((total + decimal(text.take(at)) * seconds_per_unit, text.skip(at + 1)))
        },
    }
}

/// The whole seconds and the nanoseconds of a seconds component without its letter.
pub open spec fn seconds_of(value: Seq<char>, text: Seq<char>) -> Result<(nat, nat), Fault> {
    match position(text, '.') {
        None => if is_number(text) {
            Ok((decimal(text), 0))
        } else {
            Err(Fault::BadDuration { value })
        },
        Some(at) => {
            let fraction = text.skip(at + 1);
            if fraction.len() == 0 || !all_digits(fraction) {
                Err(Fault::BadDuration { value })
            } else if fraction.len() > 9 {
                Err(Fault::DurationFractionTooLong { value })
            } else if !is_number(text.take(at)) {
                Err(Fault::BadDuration { value })
            } else {
                Ok((
                    decimal(text.take(at)),
                    decimal(fraction) * ten_to((9 - fraction.len()) as nat),
                ))
            }
        },
    }
}

/// The nanoseconds of a total of seconds and what follows the minutes: nothing, or a seconds
/// component.
pub open spec fn with_seconds(value: Seq<char>, total: nat, text: Seq<char>) -> Result<nat, Fault> {
    if text.len() == 0 {
        in_nanos(value, total, 0)
    } else if text.last() != 'S' {
        Err(Fault::BadDuration { value })
    } else {
        match seconds_of(value, text.drop_last()) {
            Err(fault) => Err(fault),
            Ok((whole, nanos)) => if total + whole > u64::MAX {
                Err(Fault::BadDuration { value })
            } else {
                in_nanos(value, total + whole, nanos)
            },
        }
    }
}

/// Seconds and nanoseconds as nanoseconds, where they fit `u64`.
pub open spec fn in_nanos(value: Seq<char>, seconds: nat, nanos: nat) -> Result<nat, Fault> {
    if seconds * 1_000_000_000 + nanos > u64::MAX {
        Err(Fault::BadDuration { value })
    } else {
        Ok(seconds * 1_000_000_000 + nanos)
    }
}

/// The nanoseconds of the part of a duration behind `T`, added to a total of seconds.
pub open spec fn with_time(value: Seq<char>, total: nat, time: Seq<char>) -> Result<nat, Fault> {
    if time.len() == 0 {
        Err(Fault::BadDuration { value })
    } else {
        match after_component(value, total, time, 'H', SECONDS_PER_HOUR as nat) {
            Err(fault) => Err(fault),
            Ok((hours, rest)) => match after_component(
                value,
                hours,
                rest,
                'M',
                SECONDS_PER_MINUTE as nat,
            ) {
                Err(fault) => Err(fault),
                Ok((minutes, left)) => with_seconds(value, minutes, left),
            },
        }
    }
}

/// The part of a duration before `T`, behind the leading `P`.
pub open spec fn date_part(rest: Seq<char>) -> Seq<char> {
    match position(rest, 'T') {
        Some(at) => rest.take(at),
        None => rest,
    }
}

/// The length of a duration in nanoseconds, or why it has none.
pub open spec fn duration_nanos(value: Seq<char>) -> Result<nat, Fault> {
    let rest = value.skip(1);
    if value.len() < 2 || value[0] != 'P' {
        Err(Fault::BadDuration { value })
    } else if position(rest, 'Y') is Some {
        Err(Fault::ProhibitedDurationComponent { value, component: 'Y' })
    } else if position(date_part(rest), 'M') is Some {
        Err(Fault::ProhibitedDurationComponent { value, component: 'M' })
    } else {
        match after_component(value, 0, date_part(rest), 'D', SECONDS_PER_DAY as nat) {
            Err(fault) => Err(fault),
            Ok((days, left)) => if left.len() > 0 {
                Err(Fault::BadDuration { value })
            } else {
                match position(rest, 'T') {
                    None => in_nanos(value, days, 0),
                    Some(at) => with_time(value, days, rest.skip(at + 1)),
                }
            },
        }
    }
}

/// The length of a checkpoint cadence, which must be greater than zero.
pub open spec fn cadence_nanos(value: Seq<char>) -> Result<nat, Fault> {
    match duration_nanos(value) {
        Err(fault) => Err(fault),
        Ok(nanos) => if nanos == 0 {
            Err(Fault::NonPositiveCadence { value })
        } else {
            Ok(nanos)
        },
    }
}

/// The first position of `c` among `chars`.
fn find(chars: &[char], c: char) -> (at: Option<usize>)
    ensures
        match at {
            Some(i) => position(chars@, c) == Some(i as int) && i < chars@.len(),
            None => position(chars@, c) is None,
        },
{
    let mut i: usize = 0;
    while i < chars.len()
        invariant
            i <= chars@.len(),
            position(chars@, c) == position_from(chars@, c, i as int),
        decreases chars.len() - i,
    {
        if chars[i] == c {
            return Some(i);
        }
        i += 1;
    }
    None
}

/// A longer digit sequence stands for at least as large a number.
proof fn decimal_grows(digits: Seq<char>, count: int)
    requires
        all_digits(digits),
        0 <= count <= digits.len(),
    ensures
        decimal(digits.take(count)) <= decimal(digits),
    decreases digits.len(),
{
    if count < digits.len() {
        assert(digits.drop_last().take(count) =~= digits.take(count));
        decimal_grows(digits.drop_last(), count);
    } else {
        assert(digits.take(count) =~= digits);
    }
}

/// The number a text stands for, where it is one that fits `u64`.
fn number(chars: &[char]) -> (value: Option<u64>)
    ensures
        match value {
            Some(n) => is_number(chars@) && n == decimal(chars@),
            None => !is_number(chars@),
        },
{
    if chars.len() == 0 {
        return None;
    }
    let mut value: u64 = 0;
    let mut i: usize = 0;
    while i < chars.len()
        invariant
            i <= chars@.len(),
            all_digits(chars@.take(i as int)),
            value == decimal(chars@.take(i as int)),
        decreases chars.len() - i,
    {
        let c: char = chars[i];
        if !('0' <= c && c <= '9') {
            assert(!is_digit(chars@[i as int]));
            return None;
        }
        let digit: u64 = c as u64 - 48;
        proof {
            let head = chars@.take(i + 1);
            assert(head.drop_last() =~= chars@.take(i as int));
            assert(head.last() == c);
            assert forall|j: int| 0 <= j < head.len() implies is_digit(#[trigger] head[j]) by {
                if j < i {
                    assert(chars@.take(i as int)[j] == head[j]);
                }
            }
            if all_digits(chars@) {
                decimal_grows(chars@, i + 1);
            }
        }
        match value.checked_mul(10) {
            None => {
                return None;
            },
            Some(scaled) => match scaled.checked_add(digit) {
                None => {
                    return None;
                },
                Some(sum) => {
                    value = sum;
                },
            },
        }
        i += 1;
    }
    assert(chars@.take(i as int) =~= chars@);
    Some(value)
}

/// Ten to a power of at most nine.
fn power_of_ten(power: usize) -> (value: u64)
    requires
        power <= 9,
    ensures
        value == ten_to(power as nat),
        value <= 1_000_000_000,
{
    let mut value: u64 = 1;
    let mut i: usize = 0;
    assert(ten_to(9) == 1_000_000_000) by {
        reveal_with_fuel(ten_to, 10);
    }
    while i < power
        invariant
            i <= power <= 9,
            value == ten_to(i as nat),
            ten_to(9) == 1_000_000_000,
        decreases power - i,
    {
        proof {
            power_grows((i + 1) as nat, 9);
        }
        value = value * 10;
        i += 1;
    }
    proof {
        power_grows(power as nat, 9);
    }
    value
}

/// A higher power of ten is at least as large.
proof fn power_grows(low: nat, high: nat)
    requires
        low <= high,
    ensures
        ten_to(low) <= ten_to(high),
    decreases high,
{
    if low < high {
        power_grows(low, (high - 1) as nat);
    }
}

/// `count` digits stand for a number below ten to the `count`.
proof fn decimal_is_bounded(digits: Seq<char>)
    requires
        all_digits(digits),
    ensures
        decimal(digits) < ten_to(digits.len()),
    decreases digits.len(),
{
    if digits.len() > 0 {
        decimal_is_bounded(digits.drop_last());
    }
}

/// Consume the component of one unit at the head of `text`, a part of `value`.
fn take_component(
    value: &str,
    total: u64,
    text: &[char],
    unit: char,
    seconds_per_unit: u64,
) -> (taken: MirrorResult<(u64, usize)>)
    ensures
        match taken {
            Ok((sum, used)) => used <= text@.len() && gives(
                after_component(value@, total as nat, text@, unit, seconds_per_unit as nat),
                (sum as nat, text@.skip(used as int)),
            ),
            Err(error) => refuses(
                after_component(value@, total as nat, text@, unit, seconds_per_unit as nat),
                error,
            ),
        },
{
    match find(text, unit) {
        None => {
            assert(text@.skip(0) =~= text@);
            Ok((total, 0))
        },
        Some(at) => {
            let length: usize = text.len();
            assert(at < length);
            let digits = slice_subrange(text, 0, at);
            assert(digits@ =~= text@.take(at as int));
            match number(digits) {
                None => Err(MirrorError::BadDuration { value: value.to_owned() }),
                Some(n) => {
                    let ghost exact = total + n * seconds_per_unit;
                    assert(n * seconds_per_unit >= 0) by (nonlinear_arith);
                    match n.checked_mul(seconds_per_unit) {
                        None => Err(MirrorError::BadDuration { value: value.to_owned() }),
                        Some(seconds) => match total.checked_add(seconds) {
                            None => Err(MirrorError::BadDuration { value: value.to_owned() }),
                            Some(sum) => Ok((sum, at + 1)),
                        },
                    }
                },
            }
        },
    }
}

/// Read a seconds component without its letter.
fn read_seconds(value: &str, text: &[char]) -> (read: MirrorResult<(u64, u64)>)
    ensures
        match read {
            Ok((whole, nanos)) => gives(seconds_of(value@, text@), (whole as nat, nanos as nat))
                && nanos < 1_000_000_000,
            Err(error) => refuses(seconds_of(value@, text@), error),
        },
{
    match find(text, '.') {
        None => match number(text) {
            Some(whole) => Ok((whole, 0)),
            None => Err(MirrorError::BadDuration { value: value.to_owned() }),
        },
        Some(at) => {
            let length: usize = text.len();
            let fraction = slice_subrange(text, at + 1, length);
            assert(fraction@ =~= text@.skip(at + 1));
            let mut digits_only: bool = fraction.len() > 0;
            let mut i: usize = 0;
            while i < fraction.len()
                invariant
                    i <= fraction@.len(),
                    digits_only == (fraction@.len() > 0 && all_digits(fraction@.take(i as int))),
                decreases fraction.len() - i,
            {
                let c: char = fraction[i];
                proof {
                    let head = fraction@.take(i + 1);
                    assert(head[i as int] == c);
                    assert forall|j: int| 0 <= j < i implies head[j] == fraction@.take(
                        i as int,
                    )[j] by {}
                    if all_digits(fraction@.take(i as int)) && is_digit(c) {
                        assert(all_digits(head));
                    }
                    if all_digits(head) {
                        assert forall|j: int| 0 <= j < i implies is_digit(
                            #[trigger] fraction@.take(i as int)[j],
                        ) by {
                            assert(is_digit(head[j]));
                        }
                        assert(is_digit(head[i as int]));
                    }
                }
                digits_only = digits_only && '0' <= c && c <= '9';
                i += 1;
            }
            assert(fraction@.take(i as int) =~= fraction@);
            if !digits_only {
                return Err(MirrorError::BadDuration { value: value.to_owned() });
            }
            if fraction.len() > 9 {
                return Err(MirrorError::DurationFractionTooLong { value: value.to_owned() });
            }
            let whole_digits = slice_subrange(text, 0, at);
            assert(whole_digits@ =~= text@.take(at as int));
            proof {
                decimal_is_bounded(fraction@);
                power_grows(fraction@.len(), 9);
                assert(ten_to(9) == 1_000_000_000) by {
                    reveal_with_fuel(ten_to, 10);
                }
            }
            match number(fraction) {
                None => Err(MirrorError::BadDuration { value: value.to_owned() }),
                Some(parts) => {
                    let scale: u64 = power_of_ten(9 - fraction.len());
                    proof {
                        powers_multiply(fraction@.len(), (9 - fraction@.len()) as nat);
                        assert(parts * scale < 1_000_000_000) by (nonlinear_arith)
                            requires
                                parts < ten_to(fraction@.len()),
                                scale >= 1,
                                ten_to(fraction@.len()) * scale == 1_000_000_000,
                        ;
                    }
                    match number(whole_digits) {
                        Some(whole) => Ok((whole, parts * scale)),
                        None => Err(MirrorError::BadDuration { value: value.to_owned() }),
                    }
                },
            }
        },
    }
}

/// Powers of ten multiply by adding their exponents.
proof fn powers_multiply(a: nat, b: nat)
    ensures
        ten_to(a) * ten_to(b) == ten_to(a + b),
        ten_to(b) >= 1,
    decreases b,
{
    if b > 0 {
        powers_multiply(a, (b - 1) as nat);
        assert(ten_to(a) * (10 * ten_to((b - 1) as nat)) == 10 * (ten_to(a) * ten_to(
            (b - 1) as nat,
        ))) by (nonlinear_arith);
    } else {
        assert(ten_to(a) * 1 == ten_to(a));
    }
}

/// Parse a duration to its length in nanoseconds.
pub fn parse_iso8601_duration_nanos(value: &str) -> (nanos: MirrorResult<u64>)
    ensures
        match nanos {
            Ok(n) => gives(duration_nanos(value@), n as nat),
            Err(error) => refuses(duration_nanos(value@), error),
        },
{
    let chars: Vec<char> = chars_of(value);
    let length: usize = chars.len();
    if length < 2 || chars[0] != 'P' {
        return Err(MirrorError::BadDuration { value: value.to_owned() });
    }
    let rest = slice_subrange(chars.as_slice(), 1, length);
    assert(rest@ =~= value@.skip(1));
    if find(rest, 'Y').is_some() {
        return Err(
            MirrorError::ProhibitedDurationComponent { value: value.to_owned(), component: 'Y' },
        );
    }
    let split_at: Option<usize> = find(rest, 'T');
    let date_end: usize = match split_at {
        Some(at) => at,
        None => rest.len(),
    };
    let date = slice_subrange(rest, 0, date_end);
    assert(date@ =~= date_part(rest@));
    if find(date, 'M').is_some() {
        return Err(
            MirrorError::ProhibitedDurationComponent { value: value.to_owned(), component: 'M' },
        );
    }
    let (days, used): (u64, usize) = match take_component(value, 0, date, 'D', SECONDS_PER_DAY) {
        Ok(taken) => taken,
        Err(error) => {
            return Err(error);
        },
    };
    if used < date.len() {
        return Err(MirrorError::BadDuration { value: value.to_owned() });
    }
    match split_at {
        None => nanos_of(value, days, 0),
        Some(at) => {
            let time = slice_subrange(rest, at + 1, rest.len());
            assert(time@ =~= rest@.skip(at + 1));
            read_time(value, days, time)
        },
    }
}

/// Read the part of a duration behind `T` onto a total of seconds.
fn read_time(value: &str, total: u64, time: &[char]) -> (nanos: MirrorResult<u64>)
    ensures
        match nanos {
            Ok(n) => gives(with_time(value@, total as nat, time@), n as nat),
            Err(error) => refuses(with_time(value@, total as nat, time@), error),
        },
{
    if time.len() == 0 {
        return Err(MirrorError::BadDuration { value: value.to_owned() });
    }
    let (hours, used): (u64, usize) = match take_component(
        value,
        total,
        time,
        'H',
        SECONDS_PER_HOUR,
    ) {
        Ok(taken) => taken,
        Err(error) => {
            return Err(error);
        },
    };
    let rest = slice_subrange(time, used, time.len());
    assert(rest@ =~= time@.skip(used as int));
    let (minutes, used_more): (u64, usize) = match take_component(
        value,
        hours,
        rest,
        'M',
        SECONDS_PER_MINUTE,
    ) {
        Ok(taken) => taken,
        Err(error) => {
            return Err(error);
        },
    };
    let left = slice_subrange(rest, used_more, rest.len());
    assert(left@ =~= rest@.skip(used_more as int));
    if left.len() == 0 {
        return nanos_of(value, minutes, 0);
    }
    if left[left.len() - 1] != 'S' {
        return Err(MirrorError::BadDuration { value: value.to_owned() });
    }
    let text = slice_subrange(left, 0, left.len() - 1);
    assert(text@ =~= left@.drop_last());
    match read_seconds(value, text) {
        Err(error) => Err(error),
        Ok((whole, nanos)) => match minutes.checked_add(whole) {
            None => Err(MirrorError::BadDuration { value: value.to_owned() }),
            Some(seconds) => nanos_of(value, seconds, nanos),
        },
    }
}

/// Seconds and nanoseconds as nanoseconds.
fn nanos_of(value: &str, seconds: u64, nanos: u64) -> (total: MirrorResult<u64>)
    ensures
        match total {
            Ok(n) => gives(in_nanos(value@, seconds as nat, nanos as nat), n as nat),
            Err(error) => refuses(in_nanos(value@, seconds as nat, nanos as nat), error),
        },
{
    match seconds.checked_mul(NANOS_PER_SECOND) {
        None => Err(MirrorError::BadDuration { value: value.to_owned() }),
        Some(scaled) => match scaled.checked_add(nanos) {
            None => Err(MirrorError::BadDuration { value: value.to_owned() }),
            Some(total) => Ok(total),
        },
    }
}

/// Parse a checkpoint cadence: a duration greater than zero.
pub fn parse_checkpoint_cadence_nanos(value: &str) -> (nanos: MirrorResult<u64>)
    ensures
        match nanos {
            Ok(n) => gives(cadence_nanos(value@), n as nat) && n > 0,
            Err(error) => refuses(cadence_nanos(value@), error),
        },
{
    let nanos: u64 = match parse_iso8601_duration_nanos(value) {
        Ok(nanos) => nanos,
        Err(error) => {
            return Err(error);
        },
    };
    if nanos == 0 {
        return Err(MirrorError::NonPositiveCadence { value: value.to_owned() });
    }
    Ok(nanos)
}

// ---- what every well-formed duration means ----

/// The text of a component: its digits and its letter, or nothing.
pub open spec fn component_text(digits: Option<Seq<char>>, unit: char) -> Seq<char> {
    match digits {
        Some(d) => d.push(unit),
        None => Seq::empty(),
    }
}

/// The number of a component, zero where it is left out.
pub open spec fn component_value(digits: Option<Seq<char>>) -> nat {
    match digits {
        Some(d) => decimal(d),
        None => 0,
    }
}

/// Whether the digits of a component, where it is there, are digits, one or more.
pub open spec fn is_component(digits: Option<Seq<char>>) -> bool {
    digits matches Some(d) ==> d.len() > 0 && all_digits(d)
}

/// The digits of a seconds component, its fraction included.
pub open spec fn seconds_digits(whole: Seq<char>, fraction: Option<Seq<char>>) -> Seq<char> {
    match fraction {
        Some(f) => whole.push('.') + f,
        None => whole,
    }
}

/// The nanoseconds of a fraction of at most nine digits.
pub open spec fn fraction_nanos(fraction: Option<Seq<char>>) -> nat {
    match fraction {
        Some(f) => decimal(f) * ten_to((9 - f.len()) as nat),
        None => 0,
    }
}

/// Where `head` does not hold `c`, the first `c` of `head + tail` is that of `tail`.
proof fn position_behind(head: Seq<char>, tail: Seq<char>, c: char)
    requires
        forall|i: int| 0 <= i < head.len() ==> head[i] != c,
    ensures
        position(head + tail, c) == (match position(tail, c) {
            Some(i) => Some(i + head.len()),
            None => None,
        }),
{
    position_shifts(head, tail, c, 0);
    position_reaches(head + tail, c, 0, head.len() as int);
}

/// Skipping characters other than `c` does not change the first position of `c`.
proof fn position_reaches(text: Seq<char>, c: char, from: int, to: int)
    requires
        0 <= from <= to <= text.len(),
        forall|i: int| from <= i < to ==> text[i] != c,
    ensures
        position_from(text, c, from) == position_from(text, c, to),
    decreases to - from,
{
    if from < to {
        position_reaches(text, c, from + 1, to);
    }
}

/// Positions in a tail are positions in the whole, shifted.
proof fn position_shifts(head: Seq<char>, tail: Seq<char>, c: char, from: int)
    requires
        0 <= from <= tail.len(),
    ensures
        position_from(head + tail, c, head.len() + from) == (match position_from(tail, c, from) {
            Some(i) => Some(i + head.len()),
            None => None,
        }),
    decreases tail.len() - from,
{
    if from < tail.len() {
        assert((head + tail)[head.len() + from] == tail[from]);
        position_shifts(head, tail, c, from + 1);
    }
}

/// A text without `c` has no position of `c`.
proof fn position_of_none(text: Seq<char>, c: char)
    requires
        forall|i: int| 0 <= i < text.len() ==> text[i] != c,
    ensures
        position(text, c) is None,
{
    position_reaches(text, c, 0, text.len() as int);
}

/// A component at the head of a text is taken whole; one that is left out takes nothing.
proof fn component_is_taken(
    value: Seq<char>,
    total: nat,
    digits: Option<Seq<char>>,
    unit: char,
    per: nat,
    rest: Seq<char>,
)
    requires
        is_component(digits),
        !is_digit(unit),
        position(rest, unit) is None,
        per >= 1,
    ensures
        total + component_value(digits) * per <= u64::MAX ==> after_component(
            value,
            total,
            component_text(digits, unit) + rest,
            unit,
            per,
        ) == Ok::<_, Fault>((total + component_value(digits) * per, rest)),
        total + component_value(digits) * per > u64::MAX ==> (total <= u64::MAX ==> (
        after_component(value, total, component_text(digits, unit) + rest, unit, per) == Err::<
            (nat, Seq<char>),
            Fault,
        >(Fault::BadDuration { value }))),
{
    let text = component_text(digits, unit) + rest;
    match digits {
        None => {
            assert(text =~= rest);
            assert(component_value(digits) * per == 0) by (nonlinear_arith)
                requires
                    component_value(digits) == 0,
            ;
        },
        Some(d) => {
            let tail = seq![unit] + rest;
            assert(text =~= d + tail);
            assert forall|i: int| 0 <= i < d.len() implies d[i] != unit by {
                assert(is_digit(d[i]));
            }
            position_behind(d, tail, unit);
            assert(position(tail, unit) == Some(0int)) by {
                assert(tail[0] == unit);
            }
            assert(text.take(d.len() as int) =~= d);
            assert(text.skip(d.len() as int + 1) =~= rest);
            assert(decimal(d) * per >= decimal(d)) by (nonlinear_arith)
                requires
                    per >= 1,
            ;
        },
    }
}

/// Whether the parts of a seconds component, where it is there, are digits, at most nine of
/// them behind the point.
pub open spec fn is_seconds(seconds: Option<(Seq<char>, Option<Seq<char>>)>) -> bool {
    seconds matches Some((whole, fraction)) ==> {
        &&& is_component(Some(whole))
        &&& is_component(fraction)
        &&& (fraction matches Some(f) ==> f.len() <= 9)
    }
}

/// The text of a seconds component, or nothing.
pub open spec fn seconds_text(seconds: Option<(Seq<char>, Option<Seq<char>>)>) -> Seq<char> {
    match seconds {
        Some((whole, fraction)) => seconds_digits(whole, fraction).push('S'),
        None => Seq::empty(),
    }
}

/// A fraction of at most nine digits is less than a second.
proof fn a_fraction_is_below_a_second(fraction: Seq<char>)
    requires
        all_digits(fraction),
        fraction.len() <= 9,
    ensures
        decimal(fraction) * ten_to((9 - fraction.len()) as nat) < 1_000_000_000,
{
    decimal_is_bounded(fraction);
    powers_multiply(fraction.len(), (9 - fraction.len()) as nat);
    assert(ten_to(9) == 1_000_000_000) by {
        reveal_with_fuel(ten_to, 10);
    }
    let scale = ten_to((9 - fraction.len()) as nat);
    assert(decimal(fraction) * scale < 1_000_000_000) by (nonlinear_arith)
        requires
            decimal(fraction) < ten_to(fraction.len()),
            scale >= 1,
            ten_to(fraction.len()) * scale == 1_000_000_000,
    ;
}

/// A seconds component is read exactly.
proof fn seconds_are_read(value: Seq<char>, whole: Seq<char>, fraction: Option<Seq<char>>)
    requires
        is_seconds(Some((whole, fraction))),
    ensures
        fraction_nanos(fraction) < 1_000_000_000,
        decimal(whole) <= u64::MAX ==> seconds_of(value, seconds_digits(whole, fraction)) == Ok::<
            _,
            Fault,
        >((decimal(whole), fraction_nanos(fraction))),
        decimal(whole) > u64::MAX ==> seconds_of(value, seconds_digits(whole, fraction)) == Err::<
            (nat, nat),
            _,
        >(Fault::BadDuration { value }),
{
    assert forall|i: int| 0 <= i < whole.len() implies whole[i] != '.' by {
        assert(is_digit(whole[i]));
    }
    match fraction {
        Some(f) => {
            a_fraction_is_below_a_second(f);
            let dotted = whole.push('.') + f;
            let tail = seq!['.'] + f;
            assert(dotted =~= whole + tail);
            position_behind(whole, tail, '.');
            assert(tail[0] == '.');
            assert(position(tail, '.') == Some(0int));
            assert(dotted.take(whole.len() as int) =~= whole);
            assert(dotted.skip(whole.len() as int + 1) =~= f);
        },
        None => {
            position_of_none(whole, '.');
        },
    }
}

/// The part behind `T` adds its exact length to a total.
proof fn time_is_read(
    value: Seq<char>,
    total: nat,
    hours: Option<Seq<char>>,
    minutes: Option<Seq<char>>,
    seconds: Option<(Seq<char>, Option<Seq<char>>)>,
)
    requires
        is_component(hours),
        is_component(minutes),
        is_seconds(seconds),
        hours is Some || minutes is Some || seconds is Some,
        total <= u64::MAX,
    ensures
        ({
            let nanos = nanos_from(
                total + component_value(hours) * 3_600 + component_value(minutes) * 60,
                seconds,
            );
            let parsed = with_time(value, total, time_text(hours, minutes, seconds));
            &&& nanos <= u64::MAX ==> parsed == Ok::<nat, Fault>(nanos)
            &&& nanos > u64::MAX ==> parsed == Err::<nat, Fault>(
                Fault::BadDuration { value },
            )
        }),
{
    let tail = seconds_text(seconds);
    let after_hours = component_text(minutes, 'M') + tail;
    let time = time_text(hours, minutes, seconds);
    assert(time =~= component_text(hours, 'H') + after_hours);
    letters_of(minutes, 'M');
    assert forall|i: int| 0 <= i < tail.len() implies tail[i] != 'H' && tail[i] != 'M' by {
        let (whole, fraction) = seconds->0;
        if i < whole.len() {
            assert(is_digit(whole[i]));
        } else if fraction is Some && whole.len() < i < tail.len() - 1 {
            assert(is_digit(fraction->0[i - whole.len() - 1]));
        }
    }
    assert forall|i: int| 0 <= i < after_hours.len() implies after_hours[i] != 'H' by {
        if i < component_text(minutes, 'M').len() {
            assert(after_hours[i] == component_text(minutes, 'M')[i]);
        } else {
            assert(after_hours[i] == tail[i - component_text(minutes, 'M').len()]);
        }
    }
    position_of_none(after_hours, 'H');
    position_of_none(tail, 'M');
    component_is_taken(value, total, hours, 'H', 3_600, after_hours);
    component_is_taken(value, total + component_value(hours) * 3_600, minutes, 'M', 60, tail);
    if let Some((whole, fraction)) = seconds {
        seconds_are_read(value, whole, fraction);
        assert(tail.drop_last() =~= seconds_digits(whole, fraction));
    }
}

/// A total of seconds and a seconds component in nanoseconds.
pub open spec fn nanos_from(total: nat, seconds: Option<(Seq<char>, Option<Seq<char>>)>) -> nat {
    match seconds {
        Some((whole, fraction)) => (total + decimal(whole)) * 1_000_000_000 + fraction_nanos(
            fraction,
        ),
        None => total * 1_000_000_000,
    }
}

/// A duration written from its components, each of them optional but not all of them left
/// out, parses to its exact length; it is refused as malformed where that length exceeds the
/// range.
pub proof fn a_well_formed_duration_has_its_length(
    days: Option<Seq<char>>,
    hours: Option<Seq<char>>,
    minutes: Option<Seq<char>>,
    seconds: Option<(Seq<char>, Option<Seq<char>>)>,
)
    requires
        is_component(days),
        is_component(hours),
        is_component(minutes),
        is_seconds(seconds),
        days is Some || hours is Some || minutes is Some || seconds is Some,
    ensures
        ({
            let nanos = length_of(days, hours, minutes, seconds);
            let value = duration_text(days, hours, minutes, seconds);
            let parsed = duration_nanos(value);
            &&& nanos <= u64::MAX ==> parsed == Ok::<nat, Fault>(nanos)
            &&& nanos > u64::MAX ==> parsed == Err::<nat, Fault>(Fault::BadDuration { value })
        }),
{
    let value = duration_text(days, hours, minutes, seconds);
    let date = component_text(days, 'D');
    let time = time_text(hours, minutes, seconds);
    let timed = hours is Some || minutes is Some || seconds is Some;
    let behind = if timed {
        seq!['T'] + time
    } else {
        Seq::empty()
    };
    let rest = value.skip(1);
    assert(rest =~= date + behind);
    letters_of(days, 'D');
    time_holds_no_date_letter(hours, minutes, seconds);
    assert forall|i: int| 0 <= i < rest.len() implies rest[i] != 'Y' by {
        if i < date.len() {
            assert(rest[i] == date[i]);
        } else if i > date.len() {
            assert(rest[i] == time[i - date.len() - 1]);
        }
    }
    position_of_none(rest, 'Y');
    position_of_none(date, 'M');
    position_behind(date, behind, 'T');
    if timed {
        assert(behind[0] == 'T');
        assert(position(behind, 'T') == Some(0int));
        assert(rest.take(date.len() as int) =~= date);
        assert(rest.skip(date.len() as int + 1) =~= time);
    } else {
        assert(behind =~= Seq::<char>::empty());
        assert(position(behind, 'T') is None);
        assert(rest =~= date);
    }
    assert(date_part(rest) == date);
    assert(date + Seq::<char>::empty() =~= date);
    assert(position(Seq::<char>::empty(), 'D') is None);
    component_is_taken(value, 0, days, 'D', 86_400, Seq::empty());
    let day_seconds = component_value(days) * 86_400;
    if timed && day_seconds <= u64::MAX {
        time_is_read(value, day_seconds, hours, minutes, seconds);
    }
}

/// The part behind `T` holds no year letter.
proof fn time_holds_no_date_letter(
    hours: Option<Seq<char>>,
    minutes: Option<Seq<char>>,
    seconds: Option<(Seq<char>, Option<Seq<char>>)>,
)
    requires
        is_component(hours),
        is_component(minutes),
        is_seconds(seconds),
    ensures
        forall|i: int|
            0 <= i < time_text(hours, minutes, seconds).len() ==> #[trigger] time_text(
                hours,
                minutes,
                seconds,
            )[i] != 'Y',
{
    let time = time_text(hours, minutes, seconds);
    let head = component_text(hours, 'H');
    let middle = component_text(minutes, 'M');
    let tail = seconds_text(seconds);
    letters_of(hours, 'H');
    letters_of(minutes, 'M');
    assert forall|i: int| 0 <= i < time.len() implies #[trigger] time[i] != 'Y' by {
        if i < head.len() {
            assert(time[i] == head[i]);
        } else if i < head.len() + middle.len() {
            assert(time[i] == middle[i - head.len()]);
        } else {
            let j = i - head.len() - middle.len();
            assert(time[i] == tail[j]);
            let (whole, fraction) = seconds->0;
            if j < whole.len() {
                assert(is_digit(whole[j]));
            } else if fraction is Some && whole.len() < j < tail.len() - 1 {
                assert(is_digit(fraction->0[j - whole.len() - 1]));
            }
        }
    }
}

/// A component text holds digits and its own letter only.
proof fn letters_of(digits: Option<Seq<char>>, unit: char)
    requires
        is_component(digits),
    ensures
        forall|i: int|
            0 <= i < component_text(digits, unit).len() ==> #[trigger] component_text(
                digits,
                unit,
            )[i] == unit || is_digit(component_text(digits, unit)[i]),
{
    if let Some(d) = digits {
        assert forall|i: int| 0 <= i < d.len() implies is_digit(
            #[trigger] component_text(digits, unit)[i],
        ) by {
            assert(is_digit(d[i]));
        }
    }
}

/// The part of a duration behind `T`.
pub open spec fn time_text(
    hours: Option<Seq<char>>,
    minutes: Option<Seq<char>>,
    seconds: Option<(Seq<char>, Option<Seq<char>>)>,
) -> Seq<char> {
    component_text(hours, 'H') + component_text(minutes, 'M') + seconds_text(seconds)
}

/// A duration written from its components; `T` stands where a time component does.
pub open spec fn duration_text(
    days: Option<Seq<char>>,
    hours: Option<Seq<char>>,
    minutes: Option<Seq<char>>,
    seconds: Option<(Seq<char>, Option<Seq<char>>)>,
) -> Seq<char> {
    seq!['P'] + component_text(days, 'D') + (if hours is Some || minutes is Some
        || seconds is Some {
        seq!['T'] + time_text(hours, minutes, seconds)
    } else {
        Seq::empty()
    })
}

/// The nanoseconds a duration's components add up to.
pub open spec fn length_of(
    days: Option<Seq<char>>,
    hours: Option<Seq<char>>,
    minutes: Option<Seq<char>>,
    seconds: Option<(Seq<char>, Option<Seq<char>>)>,
) -> nat {
    nanos_from(
        component_value(days) * 86_400 + component_value(hours) * 3_600 + component_value(minutes)
            * 60,
        seconds,
    )
}

/// Every refusal of a duration carries the value as submitted.
pub proof fn a_refusal_carries_the_value(value: Seq<char>)
    ensures
        duration_nanos(value) matches Err(fault) ==> match fault {
            Fault::BadDuration { value: carried } => carried == value,
            Fault::ProhibitedDurationComponent { value: carried, .. } => carried == value,
            Fault::DurationFractionTooLong { value: carried } => carried == value,
            _ => false,
        },
{
}

/// Whether a duration is written from components, each of them digits, and has a length.
pub open spec fn is_written_as(
    value: Seq<char>,
    nanos: nat,
    days: Option<Seq<char>>,
    hours: Option<Seq<char>>,
    minutes: Option<Seq<char>>,
    seconds: Option<(Seq<char>, Option<Seq<char>>)>,
) -> bool {
    &&& is_component(days)
    &&& is_component(hours)
    &&& is_component(minutes)
    &&& is_seconds(seconds)
    &&& days is Some || hours is Some || minutes is Some || seconds is Some
    &&& value == duration_text(days, hours, minutes, seconds)
    &&& nanos == length_of(days, hours, minutes, seconds)
    &&& nanos <= u64::MAX
}

/// The first position of a character holds it, and none before it does; there is none exactly
/// where it does not occur.
proof fn a_position_is_the_first(text: Seq<char>, c: char, from: int)
    requires
        0 <= from <= text.len(),
    ensures
        match position_from(text, c, from) {
            Some(at) => from <= at < text.len() && text[at] == c && forall|i: int|
                from <= i < at ==> #[trigger] text[i] != c,
            None => forall|i: int| from <= i < text.len() ==> #[trigger] text[i] != c,
        },
    decreases text.len() - from,
{
    if from < text.len() {
        a_position_is_the_first(text, c, from + 1);
    }
}

/// The digits of the component of one unit at the head of a text, where it has one.
spec fn component_of(text: Seq<char>, unit: char) -> Option<Seq<char>> {
    match position(text, unit) {
        Some(at) => Some(text.take(at)),
        None => None,
    }
}

/// A component that is taken is its digits and its letter, and what is left follows it.
proof fn a_taken_component_is_written(
    value: Seq<char>,
    total: nat,
    text: Seq<char>,
    unit: char,
    per_unit: nat,
)
    ensures
        after_component(value, total, text, unit, per_unit) matches Ok((sum, left)) ==> {
            &&& is_component(component_of(text, unit))
            &&& text == component_text(component_of(text, unit), unit) + left
            &&& sum == total + component_value(component_of(text, unit)) * per_unit
        },
{
    a_position_is_the_first(text, unit, 0);
    if let Ok((sum, left)) = after_component(value, total, text, unit, per_unit) {
        match position(text, unit) {
            Some(at) => {
                assert(text =~= text.take(at).push(unit) + text.skip(at + 1));
            },
            None => {
                assert(text =~= Seq::<char>::empty() + text);
                assert(0 * per_unit == 0) by (nonlinear_arith);
            },
        }
    }
}

/// The parts of a seconds component, where the text has one.
spec fn seconds_parts(text: Seq<char>) -> Option<(Seq<char>, Option<Seq<char>>)> {
    if text.len() == 0 {
        None
    } else {
        let digits = text.drop_last();
        match position(digits, '.') {
            Some(at) => Some((digits.take(at), Some(digits.skip(at + 1)))),
            None => Some((digits, None)),
        }
    }
}

/// A seconds component that is read is written from its parts.
proof fn read_seconds_are_written(value: Seq<char>, total: nat, text: Seq<char>)
    ensures
        with_seconds(value, total, text) matches Ok(nanos) ==> {
            &&& is_seconds(seconds_parts(text))
            &&& text == seconds_text(seconds_parts(text))
            &&& nanos == nanos_from(total, seconds_parts(text))
            &&& nanos <= u64::MAX
        },
{
    if let Ok(nanos) = with_seconds(value, total, text) {
        if text.len() > 0 {
            let digits = text.drop_last();
            a_position_is_the_first(digits, '.', 0);
            assert(text =~= digits.push('S'));
            if let Some(at) = position(digits, '.') {
                assert(digits =~= digits.take(at).push('.') + digits.skip(at + 1));
            }
        }
    }
}

/// The part behind `T` that is read is written from its components.
proof fn a_read_time_is_written(value: Seq<char>, total: nat, time: Seq<char>) -> (parts: (
    Option<Seq<char>>,
    Option<Seq<char>>,
    Option<(Seq<char>, Option<Seq<char>>)>,
))
    ensures
        with_time(value, total, time) matches Ok(nanos) ==> {
            let (hours, minutes, seconds) = parts;
            &&& is_component(hours)
            &&& is_component(minutes)
            &&& is_seconds(seconds)
            &&& hours is Some || minutes is Some || seconds is Some
            &&& time == time_text(hours, minutes, seconds)
            &&& nanos == nanos_from(
                total + component_value(hours) * 3_600 + component_value(minutes) * 60,
                seconds,
            )
            &&& nanos <= u64::MAX
        },
{
    let hours = component_of(time, 'H');
    a_taken_component_is_written(value, total, time, 'H', 3_600);
    let (hour_seconds, behind) = after_component(value, total, time, 'H', 3_600)->Ok_0;
    let minutes = component_of(behind, 'M');
    a_taken_component_is_written(value, hour_seconds, behind, 'M', 60);
    let (minute_seconds, tail) = after_component(value, hour_seconds, behind, 'M', 60)->Ok_0;
    let seconds = seconds_parts(tail);
    read_seconds_are_written(value, minute_seconds, tail);
    if with_time(value, total, time) is Ok {
        assert(time == component_text(hours, 'H') + behind);
        assert(behind == component_text(minutes, 'M') + tail);
        assert(tail == seconds_text(seconds));
        assert(time =~= time_text(hours, minutes, seconds));
        if hours is None && minutes is None && seconds is None {
            assert(time =~= Seq::<char>::empty());
        }
    }
    (hours, minutes, seconds)
}

/// The part before `T` that is read is written from its component.
proof fn a_read_date_is_written(value: Seq<char>, date: Seq<char>)
    ensures
        after_component(value, 0, date, 'D', 86_400) matches Ok((seconds, left)) ==> left.len() == 0
            ==> {
            &&& is_component(component_of(date, 'D'))
            &&& date == component_text(component_of(date, 'D'), 'D')
            &&& seconds == component_value(component_of(date, 'D')) * 86_400
        },
{
    a_taken_component_is_written(value, 0, date, 'D', 86_400);
    if let Ok((_, left)) = after_component(value, 0, date, 'D', 86_400) {
        if left.len() == 0 {
            let text = component_text(component_of(date, 'D'), 'D');
            assert(text + left =~= text);
        }
    }
}

/// Only what is written from components is read as a duration, and it is read as what they add up
/// to: nothing stands before, between or behind them.
pub proof fn only_written_durations_are_read(value: Seq<char>)
    ensures
        duration_nanos(value) matches Ok(nanos) ==> exists|
            days: Option<Seq<char>>,
            hours: Option<Seq<char>>,
            minutes: Option<Seq<char>>,
            seconds: Option<(Seq<char>, Option<Seq<char>>)>,
        | #[trigger]
            is_written_as(value, nanos, days, hours, minutes, seconds),
{
    if let Ok(nanos) = duration_nanos(value) {
        let rest = value.skip(1);
        let date = date_part(rest);
        let days = component_of(date, 'D');
        assert(value =~= seq!['P'] + rest);
        a_position_is_the_first(rest, 'T', 0);
        a_read_date_is_written(value, date);
        let day_seconds = component_value(days) * 86_400;
        assert(after_component(value, 0, date, 'D', 86_400)->Ok_0.0 == day_seconds);
        match position(rest, 'T') {
            None => {
                assert(rest == date);
                if days is None {
                    assert(rest =~= Seq::<char>::empty());
                }
                assert(value =~= duration_text(days, None, None, None));
                assert(nanos == day_seconds * 1_000_000_000);
                assert(is_written_as(value, nanos, days, None, None, None));
            },
            Some(at) => {
                let time = rest.skip(at + 1);
                assert(with_time(value, day_seconds, time) == Ok::<nat, Fault>(nanos));
                let (hours, minutes, seconds) = a_read_time_is_written(value, day_seconds, time);
                assert(rest =~= date + (seq!['T'] + time));
                assert(value =~= duration_text(days, hours, minutes, seconds));
                assert(is_written_as(value, nanos, days, hours, minutes, seconds));
            },
        }
    }
}

/// Calendar components are refused by name, before anything else of the duration is read: a year
/// wherever it stands, and a month where it stands before the time.
pub proof fn calendar_components_are_refused_by_name(value: Seq<char>, at: int)
    requires
        value.len() >= 2,
        value[0] == 'P',
        1 <= at < value.len(),
    ensures
        value[at] == 'Y' ==> duration_nanos(value) == Err::<nat, Fault>(
            Fault::ProhibitedDurationComponent { value, component: 'Y' },
        ),
        value[at] == 'M' && (forall|i: int| 1 <= i < value.len() ==> #[trigger] value[i] != 'Y')
            && (forall|i: int| 1 <= i < at ==> #[trigger] value[i] != 'T') ==> duration_nanos(value)
            == Err::<nat, Fault>(Fault::ProhibitedDurationComponent { value, component: 'M' }),
{
    let rest = value.skip(1);
    let date = date_part(rest);
    a_position_is_the_first(rest, 'Y', 0);
    a_position_is_the_first(rest, 'T', 0);
    a_position_is_the_first(date, 'M', 0);
    assert(rest[at - 1] == value[at]);
    if value[at] == 'M' && (forall|i: int| 1 <= i < at ==> #[trigger] value[i] != 'T') {
        if let Some(t) = position(rest, 'T') {
            assert(value[t + 1] == 'T');
        }
        assert(at - 1 < date.len());
        assert(date[at - 1] == 'M');
    }
}

/// A fraction of a second that is too long is refused for that: seconds written with one or more
/// digits and a fraction of more than nine are never rounded.
pub proof fn a_long_fraction_is_refused_by_name(whole: Seq<char>, fraction: Seq<char>)
    requires
        is_component(Some(whole)),
        all_digits(fraction),
        fraction.len() > 9,
    ensures
        ({
            let value = seq!['P', 'T'] + whole.push('.') + fraction + seq!['S'];
            duration_nanos(value) == Err::<nat, Fault>(Fault::DurationFractionTooLong { value })
        }),
{
    let value = seq!['P', 'T'] + whole.push('.') + fraction + seq!['S'];
    let rest = value.skip(1);
    let time = rest.skip(1);
    let digits = time.drop_last();
    let n = whole.len() as int;
    assert(digits =~= whole.push('.') + fraction);
    assert(rest[0] == 'T');
    assert forall|i: int| 0 <= i < time.len() implies #[trigger] time[i] != 'H' && time[i] != 'M'
        && time[i] != 'Y' by {
        if i < n {
            assert(time[i] == whole[i]);
            assert(is_digit(whole[i]));
        } else if i > n && i < n + 1 + fraction.len() {
            assert(time[i] == fraction[i - n - 1]);
            assert(is_digit(fraction[i - n - 1]));
        }
    }
    assert forall|i: int| 0 <= i < rest.len() implies #[trigger] rest[i] != 'Y' by {
        if i > 0 {
            assert(rest[i] == time[i - 1]);
        }
    }
    a_position_is_the_first(rest, 'Y', 0);
    a_position_is_the_first(rest, 'T', 0);
    let date = date_part(rest);
    assert(date =~= Seq::<char>::empty());
    a_position_is_the_first(date, 'M', 0);
    a_position_is_the_first(date, 'D', 0);
    a_position_is_the_first(time, 'H', 0);
    a_position_is_the_first(time, 'M', 0);
    a_position_is_the_first(digits, '.', 0);
    assert(digits[n] == '.');
    assert forall|i: int| 0 <= i < n implies #[trigger] digits[i] != '.' by {
        assert(digits[i] == whole[i]);
        assert(is_digit(whole[i]));
    }
    assert(position(digits, '.') == Some(n));
    assert(digits.skip(n + 1) =~= fraction);
    assert(time.last() == 'S');
}

/// A cadence is a duration that is greater than zero; zero is refused for that, and anything that
/// is no duration for what it fails in.
pub proof fn a_cadence_is_a_positive_duration(value: Seq<char>)
    ensures
        match duration_nanos(value) {
            Ok(nanos) => cadence_nanos(value) == if nanos > 0 {
                Ok::<nat, Fault>(nanos)
            } else {
                Err::<nat, Fault>(Fault::NonPositiveCadence { value })
            },
            Err(fault) => cadence_nanos(value) == Err::<nat, Fault>(fault),
        },
{
}

/// Digits stand for their values in place: the first counts for as many tens as digits follow it.
pub proof fn a_leading_digit_counts_in_its_place(c: char, rest: Seq<char>)
    requires
        is_digit(c),
        all_digits(rest),
    ensures
        decimal(seq![c] + rest) == (c as int - 48) * ten_to(rest.len()) + decimal(rest),
        ten_to(0) == 1,
        ten_to(9) == 1_000_000_000,
    decreases rest.len(),
{
    assert(ten_to(9) == 1_000_000_000) by {
        reveal_with_fuel(ten_to, 10);
    }
    let whole = seq![c] + rest;
    if rest.len() == 0 {
        assert(whole.drop_last() =~= Seq::<char>::empty());
        assert(whole.last() == c);
        assert(decimal(whole.drop_last()) == 0);
        assert(decimal(whole) == c as int - 48);
        assert(ten_to(0) == 1);
    } else {
        let less = rest.drop_last();
        assert forall|i: int| 0 <= i < less.len() implies is_digit(#[trigger] less[i]) by {
            assert(less[i] == rest[i]);
        }
        assert(is_digit(rest[rest.len() - 1]));
        a_leading_digit_counts_in_its_place(c, less);
        assert(whole.drop_last() =~= seq![c] + less);
        let power = ten_to(less.len());
        let digit = c as int - 48;
        let last = rest.last() as int - 48;
        assert(whole.last() == rest.last());
        assert(decimal(whole) == 10 * decimal(seq![c] + less) + last);
        assert(decimal(rest) == 10 * decimal(less) + last);
        assert(ten_to(rest.len()) == 10 * power);
        assert(10 * (digit * power) == digit * (10 * power)) by (nonlinear_arith);
    }
}

} // verus!
