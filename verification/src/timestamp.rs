//! Checkpoint times and cadence epochs, as Unix nanoseconds.
//!
//! A checkpoint time has one rendering, `YYYY-MM-DDTHH:MM:SS.fffffffffZ`, and no other text is
//! read as one: the nine fractional digits are the exact nanoseconds a checkpoint signs.

use vstd::prelude::*;

use crate::duration::is_digit;
use crate::error::{gives, refuses, Fault, MirrorError, MirrorResult};
use crate::text::{chars_of, same_text, text_before};

verus! {

/// The format description of a checkpoint time.
pub const CHECKPOINT_TIME_FORMAT: &'static str =
    "[year]-[month]-[day]T[hour]:[minute]:[second].[subsecond digits:9]Z";

/// The literal character at a position of a checkpoint time, where it is not a digit.
pub open spec fn time_literal(at: int) -> Option<char> {
    if at == 4 || at == 7 {
        Some('-')
    } else if at == 10 {
        Some('T')
    } else if at == 13 || at == 16 {
        Some(':')
    } else if at == 19 {
        Some('.')
    } else if at == 29 {
        Some('Z')
    } else {
        None
    }
}

/// Whether a character may stand at a position of a checkpoint time.
pub open spec fn fits_time_shape(at: int, c: char) -> bool {
    match time_literal(at) {
        Some(literal) => c == literal,
        None => is_digit(c),
    }
}

/// Whether a text has the shape of a checkpoint time: thirty characters, the literals in
/// place and a digit everywhere else.
pub open spec fn has_time_shape(text: Seq<char>) -> bool {
    text.len() == 30 && forall|i: int| 0 <= i < 30 ==> fits_time_shape(i, #[trigger] text[i])
}

/// The UTC rendering of a Unix nanosecond count in a format.
pub uninterp spec fn utc_text(nanos: int, format: Seq<char>) -> Option<Seq<char>>;

/// The Unix nanosecond count of a UTC date and time written in a format.
pub uninterp spec fn utc_nanos(text: Seq<char>, format: Seq<char>) -> Option<int>;

/// `time::OffsetDateTime::from_unix_timestamp_nanos` and `format`, named by [`utc_text`].
///
/// Every `u64` nanosecond count lies between the years 1970 and 2554, so in the checkpoint
/// time format it has a rendering, with a year of four digits, which reads back as the count.
/// Every component of that format has a fixed width, is padded with zeros and stands before
/// every smaller one, so the renderings order as the counts do.
#[verifier::external_body]
fn render_utc(nanos: u64, format: &str) -> (text: Option<String>)
    ensures
        match text {
            Some(t) => utc_text(nanos as int, format@) == Some(t@),
            None => utc_text(nanos as int, format@) is None,
        },
        format@ == CHECKPOINT_TIME_FORMAT@ ==> text is Some && has_time_shape(text->0@)
            && utc_nanos(text->0@, format@) == Some(nanos as int),
        format@ == CHECKPOINT_TIME_FORMAT@ ==> forall|other: u64|
            (#[trigger] utc_text(other as int, format@)) is Some ==> (nanos < other <==> text_before(
                text->0@,
                utc_text(other as int, format@)->0,
            )),
{
    let format = time::format_description::parse_borrowed::<1>(format).ok()?;
    let instant = time::OffsetDateTime::from_unix_timestamp_nanos(i128::from(nanos)).ok()?;
    instant.format(&format).ok()
}

/// `time::PrimitiveDateTime::parse`, read as UTC, named by [`utc_nanos`].
///
/// Texts of another shape are kept from it: its fixed-width fraction is read on the promise
/// that the digits are there.
#[verifier::external_body]
fn read_utc(text: &str, format: &str) -> (nanos: Option<i128>)
    requires
        has_time_shape(text@),
        format@ == CHECKPOINT_TIME_FORMAT@,
    ensures
        match nanos {
            Some(n) => utc_nanos(text@, format@) == Some(n as int),
            None => utc_nanos(text@, format@) is None,
        },
{
    let format = time::format_description::parse_borrowed::<1>(format).ok()?;
    let parsed = time::PrimitiveDateTime::parse(text, &format).ok()?;
    Some(parsed.assume_utc().unix_timestamp_nanos())
}

/// The Unix nanosecond count of an RFC 3339 instant.
pub uninterp spec fn rfc3339_nanos(text: Seq<char>) -> Option<int>;

/// `time::OffsetDateTime::parse` with `Rfc3339`, named by [`rfc3339_nanos`].
#[verifier::external_body]
fn read_rfc3339(text: &str) -> (nanos: Option<i128>)
    ensures
        match nanos {
            Some(n) => rfc3339_nanos(text@) == Some(n as int),
            None => rfc3339_nanos(text@) is None,
        },
{
    let format = time::format_description::well_known::Rfc3339;
    time::OffsetDateTime::parse(text, &format).ok().map(|instant| instant.unix_timestamp_nanos())
}

/// The rendering of a checkpoint time.
pub open spec fn checkpoint_time_text(nanos: u64) -> Option<Seq<char>> {
    utc_text(nanos as int, CHECKPOINT_TIME_FORMAT@)
}

/// The Unix nanoseconds of a checkpoint time: of a text of its shape that denotes an instant
/// at or after the Unix epoch and is that instant's rendering, and of no other.
pub open spec fn checkpoint_time_nanos(text: Seq<char>) -> Result<u64, Fault> {
    let bad = Err(Fault::BadCheckpointTime { value: text });
    if !has_time_shape(text) {
        bad
    } else {
        match utc_nanos(text, CHECKPOINT_TIME_FORMAT@) {
            None => bad,
            Some(nanos) => if 0 <= nanos <= u64::MAX && checkpoint_time_text(nanos as u64) == Some(
                text,
            ) {
                Ok(nanos as u64)
            } else {
                bad
            },
        }
    }
}

/// Whether a text stands to the checkpoint time of every count as a count stands to that count:
/// before it exactly where it is less.
pub open spec fn orders_as(text: Seq<char>, nanos: u64) -> bool {
    forall|other: u64|
        (#[trigger] checkpoint_time_text(other)) is Some ==> (nanos < other <==> text_before(
            text,
            checkpoint_time_text(other)->0,
        ))
}

/// The Unix nanoseconds of a cadence epoch.
pub open spec fn epoch_nanos(text: Seq<char>) -> Result<u64, Fault> {
    match rfc3339_nanos(text) {
        Some(nanos) => if 0 <= nanos <= u64::MAX {
            Ok(nanos as u64)
        } else {
            Err(Fault::BadCadenceEpoch { value: text })
        },
        None => Err(Fault::BadCadenceEpoch { value: text }),
    }
}

/// A nanosecond count within `u64`.
fn unsigned_nanos(nanos: i128) -> (value: Option<u64>)
    ensures
        match value {
            Some(v) => v == nanos,
            None => nanos < 0 || nanos > u64::MAX,
        },
{
    if nanos < 0 || nanos > u64::MAX as i128 {
        None
    } else {
        Some(nanos as u64)
    }
}

/// Render a Unix nanosecond count as a checkpoint time. There is a rendering for every count, it
/// parses back to the count, and renderings order as the counts do.
pub fn render_checkpoint_time(nanos: u64) -> (text: MirrorResult<String>)
    ensures
        text matches Ok(t) && checkpoint_time_text(nanos) == Some(t@) && gives(
            checkpoint_time_nanos(t@),
            nanos,
        ) && orders_as(t@, nanos),
{
    match render_utc(nanos, CHECKPOINT_TIME_FORMAT) {
        Some(text) => Ok(text),
        None => Err(MirrorError::BadCheckpointTime { value: String::new() }),
    }
}

/// Whether a text has the shape of a checkpoint time.
pub fn has_profile_time_shape(value: &str) -> (shaped: bool)
    ensures
        shaped == has_time_shape(value@),
{
    let chars: Vec<char> = chars_of(value);
    if chars.len() != 30 {
        return false;
    }
    let mut i: usize = 0;
    while i < 30
        invariant
            chars@ == value@,
            chars@.len() == 30,
            i <= 30,
            forall|j: int| 0 <= j < i ==> fits_time_shape(j, #[trigger] chars@[j]),
        decreases 30 - i,
    {
        let c: char = chars[i];
        let fits: bool = match i {
            4 | 7 => c == '-',
            10 => c == 'T',
            13 | 16 => c == ':',
            19 => c == '.',
            29 => c == 'Z',
            _ => '0' <= c && c <= '9',
        };
        if !fits {
            assert(!fits_time_shape(i as int, chars@[i as int]));
            return false;
        }
        i += 1;
    }
    true
}

/// Parse a checkpoint time to its exact Unix nanoseconds. The order of the texts is the order of
/// the times.
pub fn parse_checkpoint_time(value: &str) -> (nanos: MirrorResult<u64>)
    ensures
        match nanos {
            Ok(n) => gives(checkpoint_time_nanos(value@), n) && orders_as(value@, n),
            Err(error) => refuses(checkpoint_time_nanos(value@), error),
        },
{
    if !has_profile_time_shape(value) {
        return Err(MirrorError::BadCheckpointTime { value: value.to_owned() });
    }
    let read: i128 = match read_utc(value, CHECKPOINT_TIME_FORMAT) {
        Some(read) => read,
        None => {
            return Err(MirrorError::BadCheckpointTime { value: value.to_owned() });
        },
    };
    let nanos: u64 = match unsigned_nanos(read) {
        Some(nanos) => nanos,
        None => {
            return Err(MirrorError::BadCheckpointTime { value: value.to_owned() });
        },
    };
    let rendered: String = match render_checkpoint_time(nanos) {
        Ok(rendered) => rendered,
        Err(error) => {
            return Err(error);
        },
    };
    if same_text(rendered.as_str(), value) {
        Ok(nanos)
    } else {
        Err(MirrorError::BadCheckpointTime { value: value.to_owned() })
    }
}

/// Parse an RFC 3339 cadence epoch to Unix nanoseconds.
pub fn parse_rfc3339_nanos(value: &str) -> (nanos: MirrorResult<u64>)
    ensures
        match nanos {
            Ok(n) => gives(epoch_nanos(value@), n),
            Err(error) => refuses(epoch_nanos(value@), error),
        },
{
    match read_rfc3339(value) {
        None => Err(MirrorError::BadCadenceEpoch { value: value.to_owned() }),
        Some(read) => match unsigned_nanos(read) {
            Some(nanos) => Ok(nanos),
            None => Err(MirrorError::BadCadenceEpoch { value: value.to_owned() }),
        },
    }
}

/// A text that parses as a checkpoint time is the rendering of what it parses to, so no two
/// texts parse to one time.
pub proof fn a_checkpoint_time_has_one_text(a: Seq<char>, b: Seq<char>)
    ensures
        checkpoint_time_nanos(a) is Ok ==> checkpoint_time_text(checkpoint_time_nanos(a)->Ok_0)
            == Some(a),
        checkpoint_time_nanos(a) is Ok && checkpoint_time_nanos(a) == checkpoint_time_nanos(b) ==> a
            == b,
{
}

/// Where a text orders as its checkpoint time, it comes before another checkpoint time exactly
/// where it is earlier.
pub proof fn the_order_of_the_texts_is_that_of_the_times(a: Seq<char>, b: Seq<char>)
    requires
        checkpoint_time_nanos(a) is Ok,
        checkpoint_time_nanos(b) is Ok,
        orders_as(a, checkpoint_time_nanos(a)->Ok_0),
    ensures
        checkpoint_time_nanos(a)->Ok_0 < checkpoint_time_nanos(b)->Ok_0 <==> text_before(a, b),
{
    assert(checkpoint_time_text(checkpoint_time_nanos(b)->Ok_0) == Some(b));
}

/// A text is a checkpoint time exactly where it has the shape, denotes an instant, and is that
/// instant's own rendering: four digits, two and two for the date, two, two and two for the time,
/// and nine for the fraction, with the literals between them.
pub proof fn a_checkpoint_time_is_its_own_rendering(text: Seq<char>, nanos: u64)
    ensures
        checkpoint_time_nanos(text) == Ok::<u64, Fault>(nanos) <==> {
            &&& text.len() == 30
            &&& text[4] == '-' && text[7] == '-' && text[10] == 'T' && text[13] == ':' && text[16]
                == ':' && text[19] == '.' && text[29] == 'Z'
            &&& forall|i: int|
                0 <= i < 29 && i != 4 && i != 7 && i != 10 && i != 13 && i != 16 && i != 19 ==> '0'
                    <= #[trigger] text[i] <= '9'
            &&& utc_nanos(text, CHECKPOINT_TIME_FORMAT@) == Some(nanos as int)
            &&& utc_text(nanos as int, CHECKPOINT_TIME_FORMAT@) == Some(text)
        },
        checkpoint_time_nanos(text) matches Err(fault) ==> fault == (Fault::BadCheckpointTime {
            value: text,
        }),
{
    let digits = forall|i: int|
        0 <= i < 29 && i != 4 && i != 7 && i != 10 && i != 13 && i != 16 && i != 19 ==> '0'
            <= #[trigger] text[i] <= '9';
    if text.len() == 30 && text[4] == '-' && text[7] == '-' && text[10] == 'T' && text[13] == ':'
        && text[16] == ':' && text[19] == '.' && text[29] == 'Z' && digits {
        assert forall|i: int| 0 <= i < 30 implies fits_time_shape(i, #[trigger] text[i]) by {}
    }
    if has_time_shape(text) {
        assert(fits_time_shape(4, text[4]) && fits_time_shape(7, text[7]) && fits_time_shape(
            10,
            text[10],
        ) && fits_time_shape(13, text[13]) && fits_time_shape(16, text[16]) && fits_time_shape(
            19,
            text[19],
        ) && fits_time_shape(29, text[29]));
    }
}

/// An epoch is read exactly where its text is an instant that fits: at or after the Unix epoch and
/// within the range of the count; every other is refused with its text.
pub proof fn an_epoch_is_an_instant_that_fits(text: Seq<char>)
    ensures
        match epoch_nanos(text) {
            Ok(nanos) => rfc3339_nanos(text) == Some(nanos as int),
            Err(fault) => fault == (Fault::BadCadenceEpoch { value: text }) && (rfc3339_nanos(
                text,
            ) matches Some(nanos) ==> nanos < 0 || nanos > u64::MAX),
        },
{
}

} // verus!
