use vstd::prelude::*;
use crate::bridge;
use crate::models::front_matter;
use crate::models::front_matter::FrontMatter;
use crate::text;

verus! {

broadcast use crate::seqviews::lemma_charvecs_deep_view;

/// A parsed note: its metadata block and its free-form content.
#[derive(Debug, Clone)]
pub struct Note {
    pub front_matter: FrontMatter,
    pub content: String,
}

// ---------------------------------------------------------------------------
// Framing: where the metadata block ends
// ---------------------------------------------------------------------------

/// The index of the first closing delimiter line at or after `i`, or -1.
pub open spec fn first_close_from(lines: Seq<Seq<char>>, i: int) -> int
    decreases lines.len() - i,
    when i <= lines.len()
{
    if i >= lines.len() {
        -1
    } else if text::trimmed(lines[i]) == "---"@ {
        i
    } else {
        first_close_from(lines, i + 1)
    }
}

/// Whether the text opens with a delimiter line and closes it later.
pub open spec fn has_front_matter(lines: Seq<Seq<char>>) -> bool {
    lines.len() > 0 && text::trimmed(lines[0]) == "---"@ && first_close_from(lines, 1) >= 0
}

/// The lines that make up the content: everything after the closing
/// delimiter, or the whole text when no block is present or it never
/// closes.
pub open spec fn content_lines_of(lines: Seq<Seq<char>>) -> Seq<Seq<char>> {
    if has_front_matter(lines) {
        lines.skip(first_close_from(lines, 1) + 1)
    } else {
        lines
    }
}

/// The lines between the delimiters.
pub open spec fn fm_lines_of(lines: Seq<Seq<char>>) -> Seq<Seq<char>> {
    if has_front_matter(lines) {
        lines.subrange(1, first_close_from(lines, 1))
    } else {
        Seq::empty()
    }
}

// ---------------------------------------------------------------------------
// Titles
// ---------------------------------------------------------------------------

pub open spec fn is_sentence_sep(c: char) -> bool {
    c == '.' || c == '!' || c == '?' || c == '('
}

/// The index of the first character that is not a sentence separator; zero
/// when every character is one, in which case the scan leaves its start
/// at the beginning.
pub open spec fn sentence_start(s: Seq<char>) -> int {
    if exists|i: int| 0 <= i < s.len() && !is_sentence_sep(s[i]) {
        first_non_sep(s)
    } else {
        0
    }
}

pub open spec fn first_non_sep(s: Seq<char>) -> int
    decreases s.len(),
{
    if s.len() == 0 {
        0
    } else if !is_sentence_sep(s[0]) {
        0
    } else {
        1 + first_non_sep(s.drop_first())
    }
}

/// Where the first sentence ends, relative to `rest`: the first separator.
pub open spec fn first_sep_at(rest: Seq<char>) -> int
    decreases rest.len(),
{
    if rest.len() == 0 {
        0
    } else if is_sentence_sep(rest[0]) {
        0
    } else {
        1 + first_sep_at(rest.drop_first())
    }
}

/// The first sentence of a line: skip leading separators, stop at the next
/// separator, trim; the whole line trimmed when no separator follows.
pub open spec fn first_sentence_spec(s: Seq<char>) -> Seq<char> {
    let st = sentence_start(s);
    let rest = s.skip(st);
    if exists|i: int| 0 <= i < rest.len() && is_sentence_sep(rest[i]) {
        text::trimmed(rest.take(first_sep_at(rest)))
    } else {
        text::trimmed(s)
    }
}

/// The title drawn from content lines: the first line whose markdown inline
/// text has a non-empty first sentence, else a fixed fallback.
pub open spec fn title_from_lines(ls: Seq<Seq<char>>) -> Seq<char>
    decreases ls.len(),
{
    if ls.len() == 0 {
        "untitled"@
    } else {
        let t = first_sentence_spec(bridge::inline_text_of(ls[0]));
        if t.len() > 0 {
            t
        } else {
            title_from_lines(ls.drop_first())
        }
    }
}

pub open spec fn extract_title_spec(content: Seq<char>) -> Seq<char> {
    title_from_lines(text::lines_of(content))
}

/// The title a parsed note ends up with: the metadata title when the block
/// is present and sound, else one drawn from the content.
pub open spec fn parsed_title(text_v: Seq<char>) -> Seq<char> {
    let lines = text::lines_of(text_v);
    let fml = fm_lines_of(lines);
    if !front_matter::fm_bad(fml) && front_matter::fm_lookup(fml, "title"@) is Some {
        front_matter::fm_lookup(fml, "title"@)->0
    } else {
        extract_title_spec(text::joined_nl(content_lines_of(lines)))
    }
}

fn char_is_sep(c: char) -> (r: bool)
    ensures
        r == is_sentence_sep(c),
{
    c == '.' || c == '!' || c == '?' || c == '('
}

fn first_sentence_chars(v: &Vec<char>) -> (r: Vec<char>)
    ensures
        r@ == first_sentence_spec(v@),
{
    let n = v.len();
    let mut st: usize = 0;
    let mut found_start = false;
    let mut i: usize = 0;
    while i < n
        invariant_except_break
            !found_start,
            forall|j: int| 0 <= j < i ==> is_sentence_sep(#[trigger] v@[j]),
        invariant
            0 <= i <= n,
            n == v@.len(),
            st == (if found_start { i as int } else { 0int }),
            found_start ==> i < n && !is_sentence_sep(v@[i as int]),
        ensures
            found_start ==> st == i && i < n && !is_sentence_sep(v@[i as int]) && forall|j: int|
                0 <= j < i ==> is_sentence_sep(#[trigger] v@[j]),
            !found_start ==> st == 0 && forall|j: int|
                0 <= j < n ==> is_sentence_sep(#[trigger] v@[j]),
        decreases n - i,
    {
        if !char_is_sep(v[i]) {
            found_start = true;
            st = i;
            break;
        }
        i = i + 1;
    }
    proof {
        if found_start {
            assert(sentence_start(v@) == st) by {
                assert(!is_sentence_sep(v@[st as int]));
                lemma_first_non_sep(v@, st as int);
            }
        } else {
            assert(sentence_start(v@) == 0) by {
                if exists|j: int| 0 <= j < v@.len() && !is_sentence_sep(v@[j]) {
                    let j = choose|j: int| 0 <= j < v@.len() && !is_sentence_sep(v@[j]);
                    assert(is_sentence_sep(v@[j]));
                }
            }
            assert(st == 0);
        }
    }
    let ghost rest = v@.skip(st as int);
    let mut k: usize = st;
    let mut found_sep = false;
    while k < n
        invariant_except_break
            !found_sep,
            forall|j: int| st <= j < k ==> !is_sentence_sep(#[trigger] v@[j]),
        invariant
            st <= k <= n,
            n == v@.len(),
            found_sep ==> k < n && is_sentence_sep(v@[k as int]),
        ensures
            found_sep ==> k < n && is_sentence_sep(v@[k as int]) && forall|j: int|
                st <= j < k ==> !is_sentence_sep(#[trigger] v@[j]),
            !found_sep ==> k == n && forall|j: int|
                st <= j < n ==> !is_sentence_sep(#[trigger] v@[j]),
        decreases n - k,
    {
        if char_is_sep(v[k]) {
            found_sep = true;
            break;
        }
        k = k + 1;
    }
    if found_sep {
        proof {
            assert(exists|i: int| 0 <= i < rest.len() && is_sentence_sep(rest[i])) by {
                assert(rest[k - st] == v@[k as int]);
                assert(is_sentence_sep(rest[k - st]));
            }
            assert(first_sep_at(rest) == k - st) by {
                assert forall|j: int| 0 <= j < k - st implies !is_sentence_sep(rest[j]) by {
                    assert(rest[j] == v@[st + j]);
                }
                assert(is_sentence_sep(rest[k - st]));
                lemma_first_sep_at(rest, k - st);
            }
            assert(rest.take(k - st) =~= v@.subrange(st as int, k as int));
        }
        let piece = text::slice_range(v, st, k);
        text::trim_chars(&piece)
    } else {
        proof {
            if exists|i: int| 0 <= i < rest.len() && is_sentence_sep(rest[i]) {
                let j = choose|j: int| 0 <= j < rest.len() && is_sentence_sep(rest[j]);
                assert(rest[j] == v@[st + j]);
            }
        }
        text::trim_chars(v)
    }
}

proof fn lemma_first_non_sep(s: Seq<char>, k: int)
    requires
        0 <= k < s.len(),
        !is_sentence_sep(s[k]),
        forall|j: int| 0 <= j < k ==> is_sentence_sep(#[trigger] s[j]),
    ensures
        first_non_sep(s) == k,
    decreases k,
{
    if k == 0 {
    } else {
        assert(is_sentence_sep(s[0]));
        assert(s.drop_first()[k - 1] == s[k]);
        assert forall|j: int| 0 <= j < k - 1 implies is_sentence_sep(
            #[trigger] s.drop_first()[j],
        ) by {
            assert(s.drop_first()[j] == s[j + 1]);
            assert(is_sentence_sep(s[j + 1]));
        }
        lemma_first_non_sep(s.drop_first(), k - 1);
    }
}

proof fn lemma_first_sep_at(s: Seq<char>, k: int)
    requires
        0 <= k < s.len(),
        is_sentence_sep(s[k]),
        forall|j: int| 0 <= j < k ==> !is_sentence_sep(#[trigger] s[j]),
    ensures
        first_sep_at(s) == k,
    decreases k,
{
    if k == 0 {
    } else {
        assert(!is_sentence_sep(s[0]));
        assert(s.drop_first()[k - 1] == s[k]);
        assert forall|j: int| 0 <= j < k - 1 implies !is_sentence_sep(
            #[trigger] s.drop_first()[j],
        ) by {
            assert(s.drop_first()[j] == s[j + 1]);
        }
        lemma_first_sep_at(s.drop_first(), k - 1);
    }
}

/// The first sentence of a line of text, the leading run of sentence
/// separators skipped and the result trimmed.
pub fn get_first_sentence(line: &str) -> (r: String)
    ensures
        r@ == first_sentence_spec(line@),
{
    let chars = text::str_chars(line);
    let s = first_sentence_chars(&chars);
    text::chars_to_string(&s)
}

/// The display title of a text: the first line whose inline text has a
/// non-empty first sentence.
pub fn extract_title(content: &str) -> (r: String)
    ensures
        r@ == extract_title_spec(content@),
{
    let chars = text::str_chars(content);
    let lines = text::split_lines(&chars);
    let ghost ls = text::lines_of(content@);
    let n = lines.len();
    let mut i: usize = 0;
    proof {
        assert(ls.skip(0) =~= ls);
    }
    while i < n
        invariant
            0 <= i <= n,
            n == lines@.len(),
            ls == text::lines_of(content@),
            lines.deep_view() == ls,
            title_from_lines(ls) == title_from_lines(ls.skip(i as int)),
        decreases n - i,
    {
        proof {
            assert(ls.skip(i as int)[0] == ls[i as int]);
            assert(ls.skip(i as int).drop_first() =~= ls.skip(i + 1));
        }
        let line_s = text::chars_to_string(&lines[i]);
        let inline = bridge::markdown_inline_text(line_s.as_str());
        let inline_chars = text::str_chars(inline.as_str());
        let sentence = first_sentence_chars(&inline_chars);
        if sentence.len() > 0 {
            proof {
                assert(line_s@ == ls[i as int]);
                assert(inline@ == bridge::inline_text_of(ls[i as int]));
                assert(sentence@ == first_sentence_spec(bridge::inline_text_of(ls[i as int])));
                assert(title_from_lines(ls.skip(i as int)) == sentence@);
            }
            return text::chars_to_string(&sentence);
        }
        i = i + 1;
    }
    proof {
        assert(ls.skip(i as int) =~= Seq::<Seq<char>>::empty());
    }
    "untitled".to_owned()
}

impl Note {
    pub fn new(front_matter: FrontMatter, content: String) -> (r: Note)
        ensures
            r.front_matter == front_matter,
            r.content == content,
    {
        Note { front_matter, content }
    }

    /// Reads a note from its textual form: splits off the metadata block,
    /// reads it, and falls back to a title drawn from the content.
    pub fn from_text(text_in: &str) -> (r: Note)
        ensures
            ({
                let lines = text::lines_of(text_in@);
                &&& r.content@ == text::joined_nl(content_lines_of(lines))
                &&& (r.front_matter.title matches Option::Some(t) && t@ == parsed_title(
                    text_in@,
                ))
                &&& front_matter::fm_fields_match(
                    r.front_matter.id@,
                    r.front_matter.date,
                    r.front_matter.time,
                    fm_lines_of(lines),
                )
            }),
    {
        let chars = text::str_chars(text_in);
        let all_lines = text::split_lines(&chars);
        let ghost ls = text::lines_of(text_in@);
        let n = all_lines.len();
        // find the closing delimiter
        let mut close: usize = 0;
        let mut has_fm = false;
        if n > 0 {
            let t0 = text::trim_chars(&all_lines[0]);
            if text::chars_eq_str(&t0, "---") {
                let mut k: usize = 1;
                while k < n
                    invariant_except_break
                        !has_fm,
                        first_close_from(ls, 1) == first_close_from(ls, k as int),
                    invariant
                        1 <= k <= n,
                        n == ls.len(),
                        all_lines.deep_view() == ls,
                        has_fm ==> k < n && text::trimmed(ls[k as int]) == "---"@
                            && first_close_from(ls, 1) == k,
                    ensures
                        has_fm ==> k < n && first_close_from(ls, 1) == k,
                        !has_fm ==> first_close_from(ls, 1) == -1,
                    decreases n - k,
                {
                    let tk = text::trim_chars(&all_lines[k]);
                    if text::chars_eq_str(&tk, "---") {
                        has_fm = true;
                        proof {
                            assert(first_close_from(ls, k as int) == k);
                        }
                        break;
                    }
                    k = k + 1;
                }
                close = k;
            }
        }
        let ghost lines_ghost = ls;
        let fm: FrontMatter;
        let content_start: usize;
        if has_fm {
            proof {
                assert(has_front_matter(ls));
            }
            let mut fm_lines: Vec<Vec<char>> = Vec::new();
            let mut j: usize = 1;
            while j < close
                invariant
                    1 <= j <= close,
                    close < n,
                    n == all_lines@.len(),
                    all_lines.deep_view() == ls,
                    fm_lines.deep_view() =~= ls.subrange(1, j as int),
                decreases close - j,
            {
                let ghost pre = fm_lines.deep_view();
                fm_lines.push(all_lines[j].clone());
                proof {
                    assert(fm_lines.deep_view() =~= pre.push(ls[j as int]));
                    assert(fm_lines.deep_view() =~= ls.subrange(1, (j + 1) as int));
                }
                j = j + 1;
            }
            proof {
                assert(fm_lines.deep_view() =~= fm_lines_of(ls));
            }
            fm = front_matter::parse_front_matter(&fm_lines);
            content_start = close + 1;
        } else {
            proof {
                assert(!has_front_matter(ls));
            }
            let empty_lines: Vec<Vec<char>> = Vec::new();
            proof {
                assert(empty_lines.deep_view() =~= fm_lines_of(ls));
            }
            fm = front_matter::parse_front_matter(&empty_lines);
            content_start = 0;
        }
        // assemble the content
        let mut content_lines: Vec<Vec<char>> = Vec::new();
        let mut j: usize = content_start;
        proof {
            if has_fm {
                assert(content_lines_of(ls) =~= ls.skip(content_start as int));
            } else {
                assert(content_lines_of(ls) =~= ls.skip(0));
            }
            assert(content_lines.deep_view() =~= ls.subrange(
                content_start as int,
                content_start as int,
            ));
        }
        while j < n
            invariant
                content_start <= j <= n || (content_start > n && j == content_start),
                n == all_lines@.len(),
                all_lines.deep_view() == ls,
                j <= n ==> content_lines.deep_view() =~= ls.subrange(
                    content_start as int,
                    j as int,
                ),
                j > n ==> content_lines.deep_view() =~= Seq::<Seq<char>>::empty(),
            decreases n - j,
        {
            let ghost pre = content_lines.deep_view();
            content_lines.push(all_lines[j].clone());
            proof {
                assert(content_lines.deep_view() =~= pre.push(ls[j as int]));
                assert(content_lines.deep_view() =~= ls.subrange(
                    content_start as int,
                    (j + 1) as int,
                ));
            }
            j = j + 1;
        }
        proof {
            if content_start <= n {
                assert(content_lines.deep_view() =~= ls.skip(content_start as int));
            }
            assert(content_lines.deep_view() =~= content_lines_of(ls));
        }
        let content_chars = text::join_lines(&content_lines);
        let content = text::chars_to_string(&content_chars);
        let fm2 = match fm.title {
            Some(t) => FrontMatter { id: fm.id, title: Some(t), date: fm.date, time: fm.time },
            None => {
                let title = extract_title(content.as_str());
                FrontMatter { id: fm.id, title: Some(title), date: fm.date, time: fm.time }
            },
        };
        Note { front_matter: fm2, content }
    }

    /// Renders the note back to text: the delimited metadata block followed
    /// by the content.
    pub fn to_text(&self) -> (r: String)
        ensures
            r@ == note_text(self.front_matter, self.content@),
    {
        let mut out: Vec<char> = Vec::new();
        let mut open_line = text::str_chars("---\n");
        out.append(&mut open_line);
        let fm_text = front_matter::render_front_matter(&self.front_matter);
        let mut fm_chars = text::str_chars(fm_text.as_str());
        out.append(&mut fm_chars);
        let mut close_line = text::str_chars("---\n");
        out.append(&mut close_line);
        let mut content_chars = text::str_chars(self.content.as_str());
        out.append(&mut content_chars);
        proof {
            reveal_strlit("---\n");
            reveal_strlit("---");
            assert("---\n"@ =~= "---"@ + seq!['\n']);
            assert(out@ =~= note_text(self.front_matter, self.content@));
        }
        text::chars_to_string(&out)
    }

    /// The display title: the stored one, or one drawn from the content.
    pub fn get_title(&self) -> (r: String)
        ensures
            r@ == match self.front_matter.title {
                Option::Some(t) => t@,
                Option::None => extract_title_spec(self.content@),
            },
    {
        match &self.front_matter.title {
            Some(t) => t.clone(),
            None => extract_title(self.content.as_str()),
        }
    }
}

/// The textual form of a note: delimiters around the metadata block, then
/// the content.
pub open spec fn note_text(fm: FrontMatter, content: Seq<char>) -> Seq<char> {
    "---"@ + seq!['\n'] + front_matter::fm_render(fm) + "---"@ + seq!['\n'] + content
}


proof fn lemma_first_close_scan(lines: Seq<Seq<char>>, a: int, b: int)
    requires
        1 <= a <= b < lines.len(),
        forall|j: int| a <= j < b ==> text::trimmed(#[trigger] lines[j]) != "---"@,
        text::trimmed(lines[b]) == "---"@,
    ensures
        first_close_from(lines, a) == b,
    decreases b - a,
{
    if a == b {
    } else {
        assert(text::trimmed(lines[a]) != "---"@);
        lemma_first_close_scan(lines, a + 1, b);
    }
}

/// A single newline-terminated chunk is one line.
proof fn lemma_single_line(c: Seq<char>)
    requires
        !c.contains('\n'),
        !c.contains('\r'),
    ensures
        text::lines_of(c + seq!['\n']) == seq![c],
{
    let a = c + seq!['\n'];
    assert(a.last() == '\n');
    assert(a.drop_last() =~= c);
    text::lemma_split_nl_concat(a, Seq::empty(), Seq::empty(), Seq::empty());
    assert(a + Seq::<char>::empty() =~= a);
    text::lemma_split_nl_single(c, Seq::empty(), Seq::empty());
    assert(Seq::<char>::empty() + c =~= c);
    assert(text::raw_parts(a) == Seq::<Seq<char>>::empty().push(c).push(Seq::<char>::empty()));
    assert(text::raw_parts(a).last().len() == 0);
    assert(text::raw_parts(a).drop_last() =~= Seq::<Seq<char>>::empty().push(c));
    assert(c.len() > 0 ==> c.last() != '\r') by {
        if c.len() > 0 && c.last() == '\r' {
            assert(c[c.len() - 1] == '\r');
        }
    }
    assert(text::strip_cr(c) == c);
    assert(text::lines_of(a) =~= seq![c]);
}

/// The delimiter line trims to itself.
proof fn lemma_delim_trimmed()
    ensures
        text::trimmed("---"@) == "---"@,
        ("---"@).len() == 3,
        !("---"@).contains('\n'),
        !("---"@).contains('\r'),
{
    reveal_strlit("---");
    assert(text::trim_front("---"@) == "---"@);
    assert(text::trim_back("---"@) == "---"@);
    assert(!("---"@).contains('\n')) by {
        if ("---"@).contains('\n') {
            let k = choose|k: int| 0 <= k < 3 && ("---"@)[k] == '\n';
            assert(("---"@)[k] == '-');
        }
    }
    assert(!("---"@).contains('\r')) by {
        if ("---"@).contains('\r') {
            let k = choose|k: int| 0 <= k < 3 && ("---"@)[k] == '\r';
            assert(("---"@)[k] == '-');
        }
    }
}

/// A line that starts with a letter does not trim to the delimiter.
proof fn lemma_field_line_not_delim(l: Seq<char>)
    requires
        l.len() > 0,
        !text::is_space(l[0]),
        l[0] != '-',
    ensures
        text::trimmed(l) != "---"@,
{
    text::lemma_trimmed_head(l);
    reveal_strlit("---");
    if text::trimmed(l) == "---"@ {
        assert(text::trimmed(l)[0] == '-');
    }
}

/// Rendered date and time texts hold only digits and punctuation.
proof fn lemma_datetime_clean(d: crate::models::dates::Date, t: crate::models::dates::Time)
    ensures
        !crate::models::dates::date_text(d).contains('\n'),
        !crate::models::dates::date_text(d).contains('\r'),
        !crate::models::dates::time_text(t).contains('\n'),
        !crate::models::dates::time_text(t).contains('\r'),
{
    text::lemma_dec_padded_ascii(d.year as nat, 4);
    text::lemma_dec_padded_ascii(d.month as nat, 2);
    text::lemma_dec_padded_ascii(d.day as nat, 2);
    text::lemma_dec_padded_ascii(t.hour as nat, 2);
    text::lemma_dec_padded_ascii(t.minute as nat, 2);
    text::lemma_dec_padded_ascii(t.second as nat, 2);
    let dt = crate::models::dates::date_text(d);
    let tt = crate::models::dates::time_text(t);
    assert forall|c: char| c == '\n' || c == '\r' implies !dt.contains(c) && !tt.contains(
        c,
    ) by {
        if dt.contains(c) {
            let k = choose|k: int| 0 <= k < dt.len() && dt[k] == c;
            assert(text::is_digit(dt[k]) || dt[k] == '-');
        }
        if tt.contains(c) {
            let k = choose|k: int| 0 <= k < tt.len() && tt[k] == c;
            assert(text::is_digit(tt[k]) || tt[k] == ':');
        }
    }
}

/// Reading back a rendered note recovers its content exactly: the metadata
/// block frames correctly and the remaining lines join back to the same
/// text. Holds for contents free of carriage returns and of a trailing
/// newline, and metadata fields that fit on one line.
#[verifier::rlimit(60)]
pub proof fn lemma_note_text_round_trip(fm: FrontMatter, content: Seq<char>)
    requires
        !fm.id@.contains('\n'),
        !fm.id@.contains('\r'),
        fm.title matches Option::Some(t) ==> !t@.contains('\n') && !t@.contains('\r'),
        !content.contains('\r'),
        content.len() > 0 ==> content.last() != '\n',
    ensures
        text::joined_nl(content_lines_of(text::lines_of(note_text(fm, content)))) == content,
{
    reveal_strlit("id: ");
    reveal_strlit("title: ");
    reveal_strlit("date: ");
    reveal_strlit("time: ");
    let delim = "---"@;
    let nl = seq!['\n'];
    let l_id = "id: "@ + fm.id@;
    let l_date = "date: "@ + crate::models::dates::date_text(fm.date);
    let l_time = "time: "@ + crate::models::dates::time_text(fm.time);
    lemma_delim_trimmed();
    lemma_datetime_clean(fm.date, fm.time);
    // each rendered line is newline-free
    assert(!("id: "@).contains('\n') && !("id: "@).contains('\r')) by {
        if ("id: "@).contains('\n') || ("id: "@).contains('\r') {
            let k = choose|k: int|
                0 <= k < 4 && (("id: "@)[k] == '\n' || ("id: "@)[k] == '\r');
        }
    }
    assert(!("date: "@).contains('\n') && !("date: "@).contains('\r')) by {
        if ("date: "@).contains('\n') || ("date: "@).contains('\r') {
            let k = choose|k: int|
                0 <= k < 6 && (("date: "@)[k] == '\n' || ("date: "@)[k] == '\r');
        }
    }
    assert(!("time: "@).contains('\n') && !("time: "@).contains('\r')) by {
        if ("time: "@).contains('\n') || ("time: "@).contains('\r') {
            let k = choose|k: int|
                0 <= k < 6 && (("time: "@)[k] == '\n' || ("time: "@)[k] == '\r');
        }
    }
    text::lemma_no_char_concat("id: "@, fm.id@, '\n');
    text::lemma_no_char_concat("id: "@, fm.id@, '\r');
    text::lemma_no_char_concat("date: "@, crate::models::dates::date_text(fm.date), '\n');
    text::lemma_no_char_concat("date: "@, crate::models::dates::date_text(fm.date), '\r');
    text::lemma_no_char_concat("time: "@, crate::models::dates::time_text(fm.time), '\n');
    text::lemma_no_char_concat("time: "@, crate::models::dates::time_text(fm.time), '\r');
    // the body lines of the rendered block, in order
    let body: Seq<Seq<char>> = match fm.title {
        Option::Some(t) => seq![l_id, "title: "@ + t@, l_date, l_time],
        Option::None => seq![l_id, l_date, l_time],
    };
    if fm.title is Some {
        let t = fm.title->0;
        assert(!("title: "@).contains('\n') && !("title: "@).contains('\r')) by {
            if ("title: "@).contains('\n') || ("title: "@).contains('\r') {
                let k = choose|k: int|
                    0 <= k < 7 && (("title: "@)[k] == '\n' || ("title: "@)[k] == '\r');
            }
        }
        text::lemma_no_char_concat("title: "@, t@, '\n');
        text::lemma_no_char_concat("title: "@, t@, '\r');
    }
    // lines of the whole rendered text
    let whole = note_text(fm, content);
    let open_chunk = delim + nl;
    let close_rest = delim + nl + content;
    assert(whole =~= open_chunk + (front_matter::fm_render(fm) + close_rest));
    text::lemma_lines_concat(open_chunk, front_matter::fm_render(fm) + close_rest);
    lemma_single_line(delim);
    assert(text::lines_of(open_chunk) == seq![delim]);
    // the rendered block is its lines, one chunk at a time
    let lid_chunk = l_id + nl;
    let ldate_chunk = l_date + nl;
    let ltime_chunk = l_time + nl;
    lemma_single_line(l_id);
    lemma_single_line(l_date);
    lemma_single_line(l_time);
    text::lemma_lines_concat(ldate_chunk, ltime_chunk + close_rest);
    text::lemma_lines_concat(ltime_chunk, close_rest);
    let tail_dt = ldate_chunk + (ltime_chunk + close_rest);
    assert(text::lines_of(tail_dt) =~= seq![l_date] + (seq![l_time] + text::lines_of(
        close_rest,
    )));
    match fm.title {
        Option::Some(t) => {
            let l_title = "title: "@ + t@;
            lemma_single_line(l_title);
            text::lemma_lines_concat(l_title + nl, tail_dt);
            text::lemma_lines_concat(lid_chunk, (l_title + nl) + tail_dt);
            assert(front_matter::fm_render(fm) + close_rest =~= lid_chunk + ((l_title + nl)
                + tail_dt));
            assert(text::lines_of(front_matter::fm_render(fm) + close_rest) =~= body
                + text::lines_of(close_rest));
        },
        Option::None => {
            text::lemma_lines_concat(lid_chunk, tail_dt);
            assert(front_matter::fm_render(fm) + close_rest =~= lid_chunk + tail_dt);
            assert(text::lines_of(front_matter::fm_render(fm) + close_rest) =~= body
                + text::lines_of(close_rest));
        },
    }
    // lines of the closing delimiter and content
    text::lemma_lines_concat(delim + nl, content);
    assert(text::lines_of(close_rest) =~= seq![delim] + text::lines_of(content));
    let lines = text::lines_of(whole);
    let nbody = body.len() as int;
    assert(lines =~= seq![delim] + body + seq![delim] + text::lines_of(content));
    // framing: the first delimiter opens, the second closes
    assert(lines[0] == delim);
    assert(lines[nbody + 1] == delim);
    assert forall|j: int| 1 <= j < nbody + 1 implies text::trimmed(#[trigger] lines[j])
        != delim by {
        assert(lines[j] == body[j - 1]);
        reveal_strlit("id: ");
        reveal_strlit("title: ");
        reveal_strlit("date: ");
        reveal_strlit("time: ");
        assert(body[j - 1].len() > 0 && !text::is_space(body[j - 1][0]) && body[j - 1][0]
            != '-');
        lemma_field_line_not_delim(body[j - 1]);
    }
    lemma_first_close_scan(lines, 1, nbody + 1);
    assert(has_front_matter(lines));
    assert(content_lines_of(lines) =~= text::lines_of(content));
    text::lemma_lines_join_id(content);
}

} // verus!

