//! What the library has from other crates: the wording of byte counts and of
//! calendar times. Nothing here is proved; each contract states what the
//! crate behind it is taken to do.

use vstd::prelude::*;

verus! {

/// The text that `bytesize` writes for a number of bytes, in units of 1000
/// bytes (`"512 B"`, `"5.0 GB"`).
pub uninterp spec fn byte_size_text(bytes: u64) -> Seq<char>;

/// The text that `chrono` writes for the calendar time that lies `seconds`
/// after 1970-01-01 00:00:00, in the `strftime` pattern `pattern`; `None`
/// where `chrono` cannot represent the time or does not accept the pattern.
pub uninterp spec fn formatted_time(seconds: i64, pattern: Seq<char>) -> Option<Seq<char>>;

/// Calls `Display` of `systemstat::ByteSize` (a re-export of
/// `bytesize::ByteSize`) on `ByteSize::b(bytes)`. The contract claims that the
/// text depends on `bytes` alone, and gives it its name.
#[verifier::external_body]
pub(crate) fn format_byte_size(bytes: u64) -> (text: String)
    ensures
        text@ == byte_size_text(bytes),
{
    systemstat::ByteSize::b(bytes).to_string()
}

/// Calls `chrono::DateTime::from_timestamp(seconds, 0)`, then
/// `DateTime::format(pattern)` on the time it gives, and writes the outcome
/// with `DelayedFormat::write_to`. The result is `None` where the first
/// returns `None` or the last returns an error. The contract claims that the
/// result depends on `seconds` and `pattern` alone, and gives it its name.
#[verifier::external_body]
pub(crate) fn format_time(seconds: i64, pattern: &str) -> (text: Option<String>)
    ensures
        match text {
            Some(t) => formatted_time(seconds, pattern@) == Some(t@),
            None => formatted_time(seconds, pattern@).is_none(),
        },
{
    let time = chrono::DateTime::from_timestamp(seconds, 0)?;
    let mut text = String::new();
    match time.format(pattern).write_to(&mut text) {
        Ok(()) => Some(text),
        Err(_) => None,
    }
}

} // verus!
