use vstd::prelude::*;
use crate::text;

verus! {

/// A calendar date, held as plain numbers so the engine can reason about
/// it. The companion clock crate only ever supplies the current day.
#[derive(Clone, Copy, Debug, PartialEq, Eq, Structural)]
pub struct Date {
    pub year: u32,
    pub month: u32,
    pub day: u32,
}

/// A time of day, held as plain numbers.
#[derive(Clone, Copy, Debug, PartialEq, Eq, Structural)]
pub struct Time {
    pub hour: u32,
    pub minute: u32,
    pub second: u32,
}

pub open spec fn is_leap_year(y: int) -> bool {
    y % 4 == 0 && (y % 100 != 0 || y % 400 == 0)
}

pub open spec fn days_in_month(y: int, m: int) -> int {
    if m == 2 {
        if is_leap_year(y) {
            29
        } else {
            28
        }
    } else if m == 4 || m == 6 || m == 9 || m == 11 {
        30
    } else {
        31
    }
}

impl Date {
    /// A real calendar date.
    pub open spec fn wf(self) -> bool {
        1 <= self.month <= 12 && 1 <= self.day <= days_in_month(
            self.year as int,
            self.month as int,
        )
    }
}

impl Time {
    pub open spec fn wf(self) -> bool {
        self.hour < 24 && self.minute < 60 && self.second < 60
    }
}

/// `YYYY-MM-DD`, the year zero-padded to four digits.
pub open spec fn date_text(d: Date) -> Seq<char> {
    text::dec_padded(d.year as nat, 4) + seq!['-'] + text::dec_padded(d.month as nat, 2)
        + seq!['-'] + text::dec_padded(d.day as nat, 2)
}

/// `HH:MM:SS`.
pub open spec fn time_text(t: Time) -> Seq<char> {
    text::dec_padded(t.hour as nat, 2) + seq![':'] + text::dec_padded(t.minute as nat, 2)
        + seq![':'] + text::dec_padded(t.second as nat, 2)
}

/// Appends `YYYY-MM-DD`.
pub fn push_date_text(d: &Date, out: &mut Vec<char>)
    ensures
        final(out)@ == old(out)@ + date_text(*d),
{
    text::push_dec_padded(d.year, 4, out);
    out.push('-');
    text::push_dec_padded(d.month, 2, out);
    out.push('-');
    text::push_dec_padded(d.day, 2, out);
    proof {
        assert(out@ =~= old(out)@ + date_text(*d));
    }
}

/// Appends `HH:MM:SS`.
pub fn push_time_text(t: &Time, out: &mut Vec<char>)
    ensures
        final(out)@ == old(out)@ + time_text(*t),
{
    text::push_dec_padded(t.hour, 2, out);
    out.push(':');
    text::push_dec_padded(t.minute, 2, out);
    out.push(':');
    text::push_dec_padded(t.second, 2, out);
    proof {
        assert(out@ =~= old(out)@ + time_text(*t));
    }
}

/// What a strict `YYYY-MM-DD` reading accepts: ten characters, dashes in
/// place, digits elsewhere, and a real calendar date.
pub open spec fn parse_date_spec(s: Seq<char>) -> Option<Date> {
    if s.len() == 10 && s[4] == '-' && s[7] == '-' && text::all_digits(s.take(4))
        && text::all_digits(s.subrange(5, 7)) && text::all_digits(s.subrange(8, 10)) {
        let d = Date {
            year: text::digits_val(s.take(4)) as u32,
            month: text::digits_val(s.subrange(5, 7)) as u32,
            day: text::digits_val(s.subrange(8, 10)) as u32,
        };
        if d.wf() {
            Option::Some(d)
        } else {
            Option::None
        }
    } else {
        Option::None
    }
}

/// What a strict `HH:MM:SS` reading accepts.
pub open spec fn parse_time_spec(s: Seq<char>) -> Option<Time> {
    if s.len() == 8 && s[2] == ':' && s[5] == ':' && text::all_digits(s.take(2))
        && text::all_digits(s.subrange(3, 5)) && text::all_digits(s.subrange(6, 8)) {
        let t = Time {
            hour: text::digits_val(s.take(2)) as u32,
            minute: text::digits_val(s.subrange(3, 5)) as u32,
            second: text::digits_val(s.subrange(6, 8)) as u32,
        };
        if t.wf() {
            Option::Some(t)
        } else {
            Option::None
        }
    } else {
        Option::None
    }
}

fn digit_pair(v: &Vec<char>, at: usize) -> (r: u32)
    requires
        at + 2 <= v@.len(),
        text::all_digits(v@.subrange(at as int, at + 2)),
    ensures
        r == text::digits_val(v@.subrange(at as int, at + 2)),
        r < 100,
{
    let ghost s = v@.subrange(at as int, at + 2);
    let n = v.len();
    proof {
        assert(at + 2 <= n);
    }
    let c0 = v[at];
    let c1 = v[at + 1];
    proof {
        assert(s.len() == 2);
        assert(c0 == s[0]);
        assert(c1 == s[1]);
        assert(text::is_digit(s[0]));
        assert(text::is_digit(s[1]));
        assert(48 <= c0 as u32 <= 57);
        assert(48 <= c1 as u32 <= 57);
    }
    let d0 = c0 as u32 - 48;
    let d1 = c1 as u32 - 48;
    proof {
        assert(s.drop_last() =~= seq![s[0]]);
        assert(seq![s[0]].drop_last() =~= Seq::<char>::empty());
        assert(text::digits_val(Seq::<char>::empty()) == 0);
        assert(text::digits_val(seq![s[0]]) == text::digit_val(s[0]));
        assert(s.last() == s[1]);
        assert(text::digits_val(s) == text::digit_val(s[0]) * 10 + text::digit_val(s[1]));
    }
    d0 * 10 + d1
}

fn digit_quad(v: &Vec<char>, at: usize) -> (r: u32)
    requires
        at + 4 <= v@.len(),
        text::all_digits(v@.subrange(at as int, at + 4)),
    ensures
        r == text::digits_val(v@.subrange(at as int, at + 4)),
        r < 10000,
{
    let ghost s = v@.subrange(at as int, at + 4);
    let n = v.len();
    proof {
        assert(at + 4 <= n);
    }
    let c0 = v[at];
    let c1 = v[at + 1];
    let c2 = v[at + 2];
    let c3 = v[at + 3];
    proof {
        assert(s.len() == 4);
        assert(c0 == s[0]);
        assert(c1 == s[1]);
        assert(c2 == s[2]);
        assert(c3 == s[3]);
        assert(text::is_digit(s[0]) && text::is_digit(s[1]) && text::is_digit(s[2])
            && text::is_digit(s[3]));
        assert(48 <= c0 as u32 <= 57);
        assert(48 <= c1 as u32 <= 57);
        assert(48 <= c2 as u32 <= 57);
        assert(48 <= c3 as u32 <= 57);
    }
    let d0 = c0 as u32 - 48;
    let d1 = c1 as u32 - 48;
    let d2 = c2 as u32 - 48;
    let d3 = c3 as u32 - 48;
    proof {
        assert(s.drop_last() =~= seq![s[0], s[1], s[2]]);
        assert(seq![s[0], s[1], s[2]].drop_last() =~= seq![s[0], s[1]]);
        assert(seq![s[0], s[1]].drop_last() =~= seq![s[0]]);
        assert(seq![s[0]].drop_last() =~= Seq::<char>::empty());
        assert(text::digits_val(Seq::<char>::empty()) == 0);
        assert(text::digits_val(seq![s[0]]) == text::digit_val(s[0]));
        assert(text::digits_val(seq![s[0], s[1]]) == text::digit_val(s[0]) * 10
            + text::digit_val(s[1]));
        assert(text::digits_val(seq![s[0], s[1], s[2]]) == (text::digit_val(s[0]) * 10
            + text::digit_val(s[1])) * 10 + text::digit_val(s[2]));
        assert(text::digits_val(s) == ((text::digit_val(s[0]) * 10 + text::digit_val(s[1])) * 10
            + text::digit_val(s[2])) * 10 + text::digit_val(s[3]));
    }
    ((d0 * 10 + d1) * 10 + d2) * 10 + d3
}

fn all_digits_in(v: &Vec<char>, from: usize, to: usize) -> (r: bool)
    requires
        from <= to <= v@.len(),
    ensures
        r == text::all_digits(v@.subrange(from as int, to as int)),
{
    let mut i = from;
    while i < to
        invariant
            from <= i <= to <= v@.len(),
            forall|j: int| from <= j < i ==> text::is_digit(#[trigger] v@[j]),
        decreases to - i,
    {
        if !text::char_is_digit(v[i]) {
            proof {
                assert(v@.subrange(from as int, to as int)[i - from] == v@[i as int]);
            }
            return false;
        }
        i = i + 1;
    }
    proof {
        assert forall|j: int| 0 <= j < to - from implies text::is_digit(
            #[trigger] v@.subrange(from as int, to as int)[j],
        ) by {
            assert(v@[from + j] == v@.subrange(from as int, to as int)[j]);
        }
    }
    true
}

/// Reads a strict `YYYY-MM-DD` date.
pub fn parse_date(v: &Vec<char>) -> (r: Option<Date>)
    ensures
        r == parse_date_spec(v@),
        r matches Option::Some(d) ==> d.wf(),
{
    if v.len() != 10 {
        return None;
    }
    if !(v[4] == '-' && v[7] == '-') {
        return None;
    }
    if !all_digits_in(v, 0, 4) || !all_digits_in(v, 5, 7) || !all_digits_in(v, 8, 10) {
        proof {
            assert(v@.take(4) =~= v@.subrange(0, 4));
        }
        return None;
    }
    proof {
        assert(v@.take(4) =~= v@.subrange(0, 4));
    }
    let year = digit_quad(v, 0);
    let month = digit_pair(v, 5);
    let day = digit_pair(v, 8);
    let d = Date { year, month, day };
    if month < 1 || month > 12 || day < 1 {
        return None;
    }
    let max_day = days_in_month_exec(year, month);
    if day > max_day {
        return None;
    }
    Some(d)
}

/// Reads a strict `HH:MM:SS` time.
pub fn parse_time(v: &Vec<char>) -> (r: Option<Time>)
    ensures
        r == parse_time_spec(v@),
        r matches Option::Some(t) ==> t.wf(),
{
    if v.len() != 8 {
        return None;
    }
    if !(v[2] == ':' && v[5] == ':') {
        return None;
    }
    if !all_digits_in(v, 0, 2) || !all_digits_in(v, 3, 5) || !all_digits_in(v, 6, 8) {
        proof {
            assert(v@.take(2) =~= v@.subrange(0, 2));
        }
        return None;
    }
    proof {
        assert(v@.take(2) =~= v@.subrange(0, 2));
    }
    let hour = digit_pair(v, 0);
    let minute = digit_pair(v, 3);
    let second = digit_pair(v, 6);
    let t = Time { hour, minute, second };
    if hour > 23 || minute > 59 || second > 59 {
        return None;
    }
    Some(t)
}

fn days_in_month_exec(y: u32, m: u32) -> (r: u32)
    ensures
        r == days_in_month(y as int, m as int),
{
    if m == 2 {
        if y % 4 == 0 && (y % 100 != 0 || y % 400 == 0) {
            29
        } else {
            28
        }
    } else if m == 4 || m == 6 || m == 9 || m == 11 {
        30
    } else {
        31
    }
}

} // verus!
