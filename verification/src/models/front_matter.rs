use vstd::prelude::*;
use crate::bridge;
use crate::models::dates::{Date, Time};
use crate::models::dates;
use crate::text;

verus! {

broadcast use crate::seqviews::lemma_charvecs_deep_view;

/// The metadata block at the head of a note file: a stable identifier, an
/// optional title, and the creation date and time.
#[derive(Debug, Clone)]
pub struct FrontMatter {
    pub id: String,
    pub title: Option<String>,
    pub date: Date,
    pub time: Time,
}

/// The shape of a freshly drawn identifier.
pub open spec fn fresh_id_shape(s: Seq<char>) -> bool {
    s.len() == 32 && forall|i: int| 0 <= i < 32 ==> bridge::is_hex_lower(#[trigger] s[i])
}

/// The key of a `key: value` line, trimmed.
pub open spec fn line_key(l: Seq<char>) -> Seq<char> {
    text::trimmed(l.take(text::find_char_at(l, ':')))
}

/// The value of a `key: value` line, trimmed.
pub open spec fn line_val(l: Seq<char>) -> Seq<char> {
    text::trimmed(l.skip(text::find_char_at(l, ':') + 1))
}

/// The value of the first line carrying the given key.
pub open spec fn fm_lookup(lines: Seq<Seq<char>>, key: Seq<char>) -> Option<Seq<char>>
    decreases lines.len(),
{
    if lines.len() == 0 {
        Option::None
    } else if lines[0].contains(':') && line_key(lines[0]) == key {
        Option::Some(line_val(lines[0]))
    } else {
        fm_lookup(lines.drop_first(), key)
    }
}

/// Whether the block carries a date or time that does not read back: then
/// the whole block is discarded rather than half-read.
pub open spec fn fm_bad(lines: Seq<Seq<char>>) -> bool {
    ||| (fm_lookup(lines, "date"@) matches Option::Some(v) && dates::parse_date_spec(v) is None)
    ||| (fm_lookup(lines, "time"@) matches Option::Some(v) && dates::parse_time_spec(v) is None)
}

/// What reading a metadata block promises of the identifier, date and
/// time. Missing fields are filled with a fresh identifier or the current
/// clock, of which only the shape is known; a discarded block yields the
/// same shapes.
pub open spec fn fm_fields_match(
    id: Seq<char>,
    date: Date,
    time: Time,
    lines: Seq<Seq<char>>,
) -> bool {
    if fm_bad(lines) {
        fresh_id_shape(id) && date.wf() && time.wf()
    } else {
        &&& match fm_lookup(lines, "id"@) {
            Option::Some(v) => id == v,
            Option::None => fresh_id_shape(id),
        }
        &&& match fm_lookup(lines, "date"@) {
            Option::Some(v) => dates::parse_date_spec(v) == Option::Some(date),
            Option::None => date.wf(),
        }
        &&& match fm_lookup(lines, "time"@) {
            Option::Some(v) => dates::parse_time_spec(v) == Option::Some(time),
            Option::None => time.wf(),
        }
    }
}

/// What reading a metadata block promises of the whole result: the fields
/// above, and the title line when the block is kept.
pub open spec fn fm_matches(fm: FrontMatter, lines: Seq<Seq<char>>) -> bool {
    &&& fm_fields_match(fm.id@, fm.date, fm.time, lines)
    &&& if fm_bad(lines) {
        fm.title is None
    } else {
        match fm_lookup(lines, "title"@) {
            Option::Some(v) => fm.title matches Option::Some(t) && t@ == v,
            Option::None => fm.title is None,
        }
    }
}

/// The rendered form of the block: one `key: value` line per field, the
/// title line only when a title is present.
pub open spec fn fm_render(fm: FrontMatter) -> Seq<char> {
    "id: "@ + fm.id@ + seq!['\n'] + (match fm.title {
        Option::Some(t) => "title: "@ + t@ + seq!['\n'],
        Option::None => Seq::<char>::empty(),
    }) + "date: "@ + dates::date_text(fm.date) + seq!['\n'] + "time: "@ + dates::time_text(
        fm.time,
    ) + seq!['\n']
}

/// A metadata block for a new note: fresh identifier, no title, the clock's
/// date and time.
pub fn default_front_matter() -> (r: FrontMatter)
    ensures
        fresh_id_shape(r.id@),
        r.title is None,
        r.date.wf(),
        r.time.wf(),
{
    let id = bridge::fresh_id();
    let (date, time) = bridge::now_date_time();
    FrontMatter { id, title: None, date, time }
}

/// Splits a line at its first colon into trimmed key and value.
fn split_kv(line: &Vec<char>) -> (r: Option<(Vec<char>, Vec<char>)>)
    ensures
        match r {
            Option::Some(kv) => line@.contains(':') && kv.0@ == line_key(line@) && kv.1@
                == line_val(line@),
            Option::None => !line@.contains(':'),
        },
{
    let n = line.len();
    let mut i: usize = 0;
    proof {
        text::lemma_find_char(line@, ':');
    }
    while i < n && line[i] != ':'
        invariant
            0 <= i <= n,
            n == line@.len(),
            forall|j: int| 0 <= j < i ==> line@[j] != ':',
        decreases n - i,
    {
        i = i + 1;
    }
    if i == n {
        proof {
            if line@.contains(':') {
                let k = choose|k: int| 0 <= k < n && line@[k] == ':';
                assert(line@[k] != ':');
            }
        }
        return None;
    }
    proof {
        assert(line@[i as int] == ':');
        assert(line@.contains(':')) by {
            assert(line@[i as int] == ':');
        }
        assert(text::find_char_at(line@, ':') == i) by {
            if text::find_char_at(line@, ':') < i {
                assert(line@[text::find_char_at(line@, ':')] == ':');
            }
        }
        assert(line@.take(i as int) =~= line@.subrange(0, i as int));
        assert(line@.skip(i + 1) =~= line@.subrange(i + 1, n as int));
    }
    let key_raw = text::slice_range(line, 0, i);
    let val_raw = text::slice_range(line, i + 1, n);
    let key = text::trim_chars(&key_raw);
    let val = text::trim_chars(&val_raw);
    Some((key, val))
}

/// Reads a metadata block from its lines, line by line, first occurrence of
/// each key winning; a date or time that does not read back discards the
/// whole block.
pub fn parse_front_matter(lines: &Vec<Vec<char>>) -> (r: FrontMatter)
    ensures
        fm_matches(r, lines.deep_view()),
{
    let ghost ls = lines.deep_view();
    let mut id: Option<String> = None;
    let mut title: Option<String> = None;
    let mut date: Option<Date> = None;
    let mut time: Option<Time> = None;
    let n = lines.len();
    let mut i: usize = 0;
    proof {
        assert(ls.skip(0) =~= ls);
    }
    while i < n
        invariant
            0 <= i <= n,
            n == lines@.len(),
            ls == lines.deep_view(),
            match id {
                Option::Some(s) => fm_lookup(ls, "id"@) == Option::Some(s@),
                Option::None => fm_lookup(ls, "id"@) == fm_lookup(ls.skip(i as int), "id"@),
            },
            match title {
                Option::Some(s) => fm_lookup(ls, "title"@) == Option::Some(s@),
                Option::None => fm_lookup(ls, "title"@) == fm_lookup(
                    ls.skip(i as int),
                    "title"@,
                ),
            },
            match date {
                Option::Some(d) => (fm_lookup(ls, "date"@) matches Option::Some(v)
                    && dates::parse_date_spec(v) == Option::Some(d)),
                Option::None => fm_lookup(ls, "date"@) == fm_lookup(ls.skip(i as int), "date"@),
            },
            match time {
                Option::Some(t) => (fm_lookup(ls, "time"@) matches Option::Some(v)
                    && dates::parse_time_spec(v) == Option::Some(t)),
                Option::None => fm_lookup(ls, "time"@) == fm_lookup(ls.skip(i as int), "time"@),
            },
        decreases n - i,
    {
        let line = &lines[i];
        proof {
            reveal_strlit("id");
            reveal_strlit("title");
            reveal_strlit("date");
            reveal_strlit("time");
            assert(("date"@)[0] != ("time"@)[0]);
            assert("date"@ != "time"@);
            assert(ls.skip(i as int)[0] == ls[i as int]);
            assert(ls.skip(i as int).drop_first() =~= ls.skip(i + 1));
            assert(line@ == ls[i as int]);
        }
        match split_kv(line) {
            Some((key, val)) => {
                proof {
                    assert(ls.skip(i as int)[0].contains(':'));
                    assert(line_key(ls.skip(i as int)[0]) == key@);
                    assert(line_val(ls.skip(i as int)[0]) == val@);
                }
                if text::chars_eq_str(&key, "id") {
                    if id.is_none() {
                        proof {
                            assert(fm_lookup(ls.skip(i as int), "id"@) == Option::Some(val@));
                        }
                        id = Some(text::chars_to_string(&val));
                    }
                    proof {
                        if time is None {
                            assert(fm_lookup(ls.skip(i as int), "time"@) == fm_lookup(
                                ls.skip(i + 1),
                                "time"@,
                            ));
                        }
                    }
                } else if text::chars_eq_str(&key, "title") {
                    if title.is_none() {
                        proof {
                            assert(fm_lookup(ls.skip(i as int), "title"@) == Option::Some(val@));
                            assert(fm_lookup(ls, "title"@) == Option::Some(val@));
                        }
                        title = Some(text::chars_to_string(&val));
                    }
                    proof {
                        if time is None {
                            assert(fm_lookup(ls.skip(i as int), "time"@) == fm_lookup(
                                ls.skip(i + 1),
                                "time"@,
                            ));
                        }
                    }
                } else if text::chars_eq_str(&key, "date") {
                    if date.is_none() {
                        proof {
                            assert(fm_lookup(ls.skip(i as int), "date"@) == Option::Some(val@));
                            assert(fm_lookup(ls, "date"@) == Option::Some(val@));
                        }
                        match dates::parse_date(&val) {
                            Some(d) => {
                                date = Some(d);
                            },
                            None => {
                                proof {
                                    assert(fm_lookup(ls, "date"@) == Option::Some(val@));
                                }
                                return default_front_matter();
                            },
                        }
                    }
                    proof {
                        if time is None {
                            assert(fm_lookup(ls.skip(i as int), "time"@) == fm_lookup(
                                ls.skip(i + 1),
                                "time"@,
                            ));
                        }
                    }
                } else if text::chars_eq_str(&key, "time") {
                    if time.is_none() {
                        proof {
                            assert(fm_lookup(ls.skip(i as int), "time"@) == Option::Some(val@));
                            assert(fm_lookup(ls, "time"@) == Option::Some(val@));
                        }
                        match dates::parse_time(&val) {
                            Some(t) => {
                                time = Some(t);
                            },
                            None => {
                                proof {
                                    assert(fm_lookup(ls, "time"@) == Option::Some(val@));
                                }
                                return default_front_matter();
                            },
                        }
                    }
                } else {
                    proof {
                        assert(key@ != "time"@);
                        if time is None {
                            assert(fm_lookup(ls.skip(i as int), "time"@) == fm_lookup(
                                ls.skip(i + 1),
                                "time"@,
                            ));
                        }
                    }
                }
            },
            None => {
                proof {
                    if time is None {
                        assert(fm_lookup(ls.skip(i as int), "time"@) == fm_lookup(
                            ls.skip(i + 1),
                            "time"@,
                        ));
                    }
                }
            },
        }
        i = i + 1;
    }
    proof {
        assert(ls.skip(i as int) =~= Seq::<Seq<char>>::empty());
    }
    let id_s = match id {
        Some(s) => s,
        None => bridge::fresh_id(),
    };
    let (now_d, now_t) = bridge::now_date_time();
    let date_v = match date {
        Some(d) => d,
        None => now_d,
    };
    let time_v = match time {
        Some(t) => t,
        None => now_t,
    };
    FrontMatter { id: id_s, title, date: date_v, time: time_v }
}

/// Renders the metadata block back to text.
pub fn render_front_matter(fm: &FrontMatter) -> (r: String)
    ensures
        r@ == fm_render(*fm),
{
    let mut out: Vec<char> = Vec::new();
    let mut piece = text::str_chars("id: ");
    out.append(&mut piece);
    let mut idc = text::str_chars(fm.id.as_str());
    out.append(&mut idc);
    out.push('\n');
    match &fm.title {
        Some(t) => {
            let mut tp = text::str_chars("title: ");
            out.append(&mut tp);
            let mut tc = text::str_chars(t.as_str());
            out.append(&mut tc);
            out.push('\n');
        },
        None => {},
    }
    let mut dp = text::str_chars("date: ");
    out.append(&mut dp);
    dates::push_date_text(&fm.date, &mut out);
    out.push('\n');
    let mut tp2 = text::str_chars("time: ");
    out.append(&mut tp2);
    dates::push_time_text(&fm.time, &mut out);
    out.push('\n');
    proof {
        assert(out@ =~= fm_render(*fm));
    }
    text::chars_to_string(&out)
}

} // verus!
