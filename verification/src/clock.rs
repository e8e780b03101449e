//! Moments as text.

use chrono::{DateTime, SecondsFormat};
use vstd::prelude::*;

verus! {

/// What chrono writes for a moment, given in milliseconds since 1970.
pub uninterp spec fn moment_text(millis: i64) -> Option<Seq<char>>;

/// A moment in UTC with milliseconds and a final Z, from
/// `chrono::DateTime::from_timestamp_millis` and `to_rfc3339_opts`; nothing for a
/// moment that chrono cannot hold. The text depends on the moment alone.
#[verifier::external_body]
fn format_moment(millis: i64) -> (text: Option<String>)
    ensures
        text.is_some() == moment_text(millis).is_some(),
        text matches Some(found) ==> moment_text(millis) == Some(found@),
{
    Some(DateTime::from_timestamp_millis(millis)?.to_rfc3339_opts(SecondsFormat::Millis, true))
}

/// A moment as it stands in reports.
pub fn rfc3339(millis: i64) -> (text: Option<String>)
    ensures
        text.is_some() == moment_text(millis).is_some(),
        text matches Some(found) ==> moment_text(millis) == Some(found@),
{
    format_moment(millis)
}

/// A text that can stand in a file name: dashes for colons.
pub open spec fn file_stamp(text: Seq<char>) -> Seq<char> {
    Seq::new(
        text.len(),
        |i: int|
            if text[i] == ':' {
                '-'
            } else {
                text[i]
            },
    )
}

/// A moment as it stands in the name of a directory.
pub fn stamp(text: &str) -> (stamped: String)
    ensures
        stamped@ == file_stamp(text@),
{
    let mut stamped: String = String::new();
    let mut index: usize = 0;
    let length: usize = text.unicode_len();
    while index < length
        invariant
            index <= length,
            length == text@.len(),
            stamped@ == file_stamp(text@).take(index as int),
        decreases length - index,
    {
        let c: char = text.get_char(index);
        if c == ':' {
            stamped.push('-');
        } else {
            stamped.push(c);
        }
        index += 1;
        assert(stamped@ =~= file_stamp(text@).take(index as int));
    }
    assert(file_stamp(text@).take(length as int) =~= file_stamp(text@));
    stamped
}

} // verus!
