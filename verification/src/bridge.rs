use vstd::prelude::*;
use chrono::{Datelike, Timelike};

verus! {

pub assume_specification[ String::push ](s: &mut String, c: char)
    ensures
        final(s)@ == old(s)@.push(c),
;

/// A character that can appear in a freshly drawn identifier: a decimal
/// digit or a lower-case hex letter.
pub open spec fn is_hex_lower(c: char) -> bool {
    (48 <= c as u32 && c as u32 <= 57) || (97 <= c as u32 && c as u32 <= 102)
}

/// Relies on uuid::Uuid::new_v4 and its simple formatting: 32 lower-case
/// hexadecimal digits. The value is random, so nothing relates two calls.
#[verifier::external_body]
pub fn fresh_id() -> (r: String)
    ensures
        r@.len() == 32,
        forall|i: int| 0 <= i < 32 ==> is_hex_lower(#[trigger] r@[i]),
{
    uuid::Uuid::new_v4().simple().to_string()
}

/// Relies on chrono::Utc::now and the Datelike/Timelike accessors: the
/// clock reports the current moment, a valid calendar date of the common
/// era (month 1 to 12, day within the month, a year the cast keeps), the
/// hour below 24, minute and second below 60.
#[verifier::external_body]
pub fn now_date_time() -> (r: (crate::models::dates::Date, crate::models::dates::Time))
    ensures
        r.0.wf(),
        r.1.wf(),
{
    let n = chrono::Utc::now().naive_local();
    (
        crate::models::dates::Date { year: n.year() as u32, month: n.month(), day: n.day() },
        crate::models::dates::Time { hour: n.hour(), minute: n.minute(), second: n.second() },
    )
}

/// The Unicode upper-case form of a text: a function of its characters
/// alone, in every process and on every machine.
pub uninterp spec fn upper_of(s: Seq<char>) -> Seq<char>;

/// Relies on str::to_uppercase: the Unicode upper-case mapping of the
/// text, depending on the characters alone.
#[verifier::external_body]
pub fn to_uppercase(s: &str) -> (r: String)
    ensures
        r@ == upper_of(s@),
{
    s.to_uppercase()
}

/// The inline text of one markdown line: what the markdown parser yields as
/// text and code events, concatenated. A function of the line alone.
pub uninterp spec fn inline_text_of(line: Seq<char>) -> Seq<char>;

/// Relies on pulldown_cmark::Parser: parses a single line with strikethrough
/// enabled and concatenates its text and inline-code events.
#[verifier::external_body]
pub fn markdown_inline_text(line: &str) -> (r: String)
    ensures
        r@ == inline_text_of(line@),
{
    let mut opts = pulldown_cmark::Options::empty();
    opts.insert(pulldown_cmark::Options::ENABLE_STRIKETHROUGH);
    let mut buf = String::new();
    for ev in pulldown_cmark::Parser::new_ext(line, opts) {
        match ev {
            pulldown_cmark::Event::Text(t) => buf.push_str(&t),
            pulldown_cmark::Event::Code(t) => buf.push_str(&t),
            _ => {},
        }
    }
    buf
}

} // verus!
