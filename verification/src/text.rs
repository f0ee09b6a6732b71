use vstd::prelude::*;
use vstd::string::StrSliceExecFns;

verus! {

broadcast use crate::seqviews::lemma_charvecs_deep_view;

// ---------------------------------------------------------------------------
// Characters
// ---------------------------------------------------------------------------

pub open spec fn is_digit(c: char) -> bool {
    48 <= c as u32 && c as u32 <= 57
}

pub open spec fn digit_val(c: char) -> int {
    c as u32 - 48
}

pub open spec fn is_space(c: char) -> bool {
    c == ' ' || c == '\t' || c == '\r' || c == '\n'
}

pub fn char_is_space(c: char) -> (r: bool)
    ensures
        r == is_space(c),
{
    c == ' ' || c == '\t' || c == '\r' || c == '\n'
}

pub fn char_is_digit(c: char) -> (r: bool)
    ensures
        r == is_digit(c),
{
    let u = c as u32;
    48 <= u && u <= 57
}

// ---------------------------------------------------------------------------
// Strings and character vectors
// ---------------------------------------------------------------------------

/// The characters of a string, with constant-time indexed access.
pub fn str_chars(s: &str) -> (v: Vec<char>)
    ensures
        v@ == s@,
{
    let n = s.unicode_len();
    let mut v: Vec<char> = Vec::new();
    for i in 0..n
        invariant
            n == s@.len(),
            v@ =~= s@.subrange(0, i as int),
    {
        v.push(s.get_char(i));
    }
    proof {
        assert(v@ =~= s@);
    }
    v
}

pub fn chars_to_string(v: &Vec<char>) -> (s: String)
    ensures
        s@ == v@,
{
    let mut s = String::new();
    for i in 0..v.len()
        invariant
            s@ =~= v@.subrange(0, i as int),
    {
        s.push(v[i]);
    }
    proof {
        assert(s@ =~= v@);
    }
    s
}

// ---------------------------------------------------------------------------
// Substring search
// ---------------------------------------------------------------------------

pub open spec fn is_substring_at(hay: Seq<char>, needle: Seq<char>, k: int) -> bool {
    0 <= k && k + needle.len() <= hay.len() && hay.subrange(k, k + needle.len() as int)
        == needle
}

/// Whether `needle` occurs contiguously anywhere in `hay`.
pub open spec fn contains_seq(hay: Seq<char>, needle: Seq<char>) -> bool {
    exists|k: int| is_substring_at(hay, needle, k)
}

fn matches_at(hay: &Vec<char>, needle: &Vec<char>, k: usize) -> (r: bool)
    requires
        k + needle@.len() <= hay@.len(),
    ensures
        r == is_substring_at(hay@, needle@, k as int),
{
    let nl = needle.len();
    let hl = hay.len();
    for j in 0..nl
        invariant
            nl == needle@.len(),
            hl == hay@.len(),
            k + nl <= hl,
            forall|jj: int| 0 <= jj < j ==> hay@[k + jj] == needle@[jj],
    {
        if hay[k + j] != needle[j] {
            proof {
                assert(hay@.subrange(k as int, k + needle@.len() as int)[j as int]
                    != needle@[j as int]);
            }
            return false;
        }
    }
    proof {
        assert(hay@.subrange(k as int, k + needle@.len() as int) =~= needle@);
    }
    true
}

pub fn find_substring(hay: &Vec<char>, needle: &Vec<char>) -> (r: bool)
    ensures
        r == contains_seq(hay@, needle@),
{
    let hl = hay.len();
    let nl = needle.len();
    if nl > hl {
        return false;
    }
    let end = hl - nl;
    let mut k: usize = 0;
    let mut found = false;
    loop
        invariant_except_break
            !found,
        invariant
            nl <= hl,
            hl == hay@.len(),
            nl == needle@.len(),
            end == hl - nl,
            0 <= k <= end,
            forall|j: int| 0 <= j < k ==> !is_substring_at(hay@, needle@, j),
        ensures
            found ==> is_substring_at(hay@, needle@, k as int),
            !found ==> forall|j: int| 0 <= j <= end ==> !is_substring_at(hay@, needle@, j),
        decreases end - k,
    {
        if matches_at(hay, needle, k) {
            found = true;
            break;
        }
        if k == end {
            break;
        }
        k = k + 1;
    }
    found
}

// ---------------------------------------------------------------------------
// Decimal numbers
// ---------------------------------------------------------------------------

pub open spec fn all_digits(s: Seq<char>) -> bool {
    forall|i: int| 0 <= i < s.len() ==> is_digit(#[trigger] s[i])
}

/// The value of a string of decimal digits, most significant first.
pub open spec fn digits_val(s: Seq<char>) -> int
    decreases s.len(),
{
    if s.len() == 0 {
        0
    } else {
        digits_val(s.drop_last()) * 10 + digit_val(s.last())
    }
}

pub proof fn lemma_digits_val_bounds(s: Seq<char>)
    requires
        all_digits(s),
    ensures
        0 <= digits_val(s),
        forall|k: int| 0 <= k <= s.len() ==> digits_val(#[trigger] s.take(k)) <= digits_val(s),
    decreases s.len(),
{
    if s.len() == 0 {
    } else {
        assert(all_digits(s.drop_last()));
        lemma_digits_val_bounds(s.drop_last());
        assert(0 <= digit_val(s.last()));
        assert(digits_val(s.drop_last()) <= digits_val(s.drop_last()) * 10) by (nonlinear_arith)
            requires 0 <= digits_val(s.drop_last());
        assert forall|k: int| 0 <= k <= s.len() implies digits_val(#[trigger] s.take(k))
            <= digits_val(s) by {
            if k < s.len() {
                assert(s.take(k) =~= s.drop_last().take(k));
            } else {
                assert(s.take(k) =~= s);
            }
        }
    }
}

/// The value denoted by an optionally signed decimal literal, if the string
/// is one.
pub open spec fn int_literal_value(s: Seq<char>) -> Option<int> {
    if s.len() == 0 {
        Option::None
    } else if s[0] == '+' || s[0] == '-' {
        let rest = s.subrange(1, s.len() as int);
        if rest.len() > 0 && all_digits(rest) {
            if s[0] == '-' {
                Option::Some(-digits_val(rest))
            } else {
                Option::Some(digits_val(rest))
            }
        } else {
            Option::None
        }
    } else {
        if all_digits(s) {
            Option::Some(digits_val(s))
        } else {
            Option::None
        }
    }
}

/// What `str::parse::<i32>` accepts: a signed decimal literal whose value
/// fits in 32 bits.
pub open spec fn parse_i32_spec(s: Seq<char>) -> Option<int> {
    match int_literal_value(s) {
        Option::Some(v) => if -0x8000_0000 <= v <= 0x7fff_ffff {
            Option::Some(v)
        } else {
            Option::None
        },
        Option::None => Option::None,
    }
}

/// Parses an optionally signed decimal literal as a 32-bit integer.
pub fn parse_i32(v: &Vec<char>) -> (r: Option<i32>)
    ensures
        match r {
            Option::Some(x) => parse_i32_spec(v@) == Option::Some(x as int),
            Option::None => parse_i32_spec(v@) is None,
        },
{
    if v.len() == 0 {
        return None;
    }
    let neg = v[0] == '-';
    let signed = neg || v[0] == '+';
    let start: usize = if signed { 1 } else { 0 };
    if v.len() == start {
        return None;
    }
    let ghost digits = v@.subrange(start as int, v@.len() as int);
    proof {
        if !signed {
            assert(digits =~= v@);
        }
    }
    let limit: i64 = if neg { 0x8000_0000 } else { 0x7fff_ffff };
    let mut acc: i64 = 0;
    let mut i: usize = start;
    proof {
        assert(v@.subrange(start as int, start as int) =~= Seq::<char>::empty());
    }
    while i < v.len()
        invariant
            start <= i <= v@.len(),
            start < v@.len(),
            start == (if signed { 1int } else { 0int }),
            neg == (v@[0] == '-'),
            signed == (v@[0] == '-' || v@[0] == '+'),
            digits == v@.subrange(start as int, v@.len() as int),
            all_digits(v@.subrange(start as int, i as int)),
            acc == digits_val(v@.subrange(start as int, i as int)),
            0 <= acc <= limit,
            limit == (if neg { 0x8000_0000i64 } else { 0x7fff_ffffi64 }),
        decreases v@.len() - i,
    {
        let c = v[i];
        if !char_is_digit(c) {
            proof {
                assert(!all_digits(digits)) by {
                    assert(digits[i - start] == c);
                }
                if !signed {
                    assert(digits =~= v@);
                }
            }
            return None;
        }
        let d = (c as u32 - 48) as i64;
        proof {
            assert(v@.subrange(start as int, (i + 1) as int)
                =~= v@.subrange(start as int, i as int).push(c));
            assert(v@.subrange(start as int, (i + 1) as int).drop_last()
                =~= v@.subrange(start as int, i as int));
        }
        let next = acc * 10 + d;
        if next > limit {
            // every longer digit string denotes at least this value, so the
            // literal cannot fit in 32 bits
            proof {
                if all_digits(digits) {
                    lemma_digits_val_bounds(digits);
                    assert(digits.take(i + 1 - start)
                        =~= v@.subrange(start as int, (i + 1) as int));
                    assert(digits_val(digits) >= next);
                }
                if !signed {
                    assert(digits =~= v@);
                }
            }
            return None;
        }
        acc = next;
        i = i + 1;
    }
    proof {
        assert(v@.subrange(start as int, i as int) =~= digits);
        if !signed {
            assert(digits =~= v@);
        }
    }
    let r: i32 = if neg {
        if acc == 0x8000_0000 {
            -0x8000_0000
        } else {
            -((acc as i32))
        }
    } else {
        acc as i32
    };
    Some(r)
}

/// The decimal digits of `n`, most significant first.
pub open spec fn dec_digits(n: nat) -> Seq<char>
    decreases n,
{
    if n < 10 {
        seq![(((48 + n) as u8) as char)]
    } else {
        dec_digits(n / 10).push((((48 + n % 10) as u8) as char))
    }
}

/// Appends the decimal digits of `n`.
pub fn push_dec(n: u32, out: &mut Vec<char>)
    ensures
        final(out)@ == old(out)@ + dec_digits(n as nat),
    decreases n,
{
    if n < 10 {
        out.push(((48 + n as u8)) as char);
        proof {
            assert(out@ =~= old(out)@ + dec_digits(n as nat));
        }
    } else {
        push_dec(n / 10, out);
        out.push(((48 + (n % 10) as u8)) as char);
        proof {
            assert(out@ =~= old(out)@ + dec_digits(n as nat));
        }
    }
}

/// `n` in decimal, left-padded with zeros to at least `width` digits.
pub open spec fn dec_padded(n: nat, width: nat) -> Seq<char> {
    if dec_digits(n).len() >= width {
        dec_digits(n)
    } else {
        Seq::new((width - dec_digits(n).len()) as nat, |i: int| '0') + dec_digits(n)
    }
}

/// Appends `n` in decimal, left-padded with zeros to at least `width` digits.
pub fn push_dec_padded(n: u32, width: usize, out: &mut Vec<char>)
    ensures
        final(out)@ == old(out)@ + dec_padded(n as nat, width as nat),
{
    let mut digits: Vec<char> = Vec::new();
    push_dec(n, &mut digits);
    let mut pad: usize = 0;
    let need = if digits.len() >= width {
        0
    } else {
        width - digits.len()
    };
    while pad < need
        invariant
            pad <= need,
            out@ == old(out)@ + Seq::new(pad as nat, |i: int| '0'),
            need == (if digits@.len() >= width { 0int } else { width - digits@.len() }),
        decreases need - pad,
    {
        out.push('0');
        proof {
            assert(out@ =~= old(out)@ + Seq::new((pad + 1) as nat, |i: int| '0'));
        }
        pad = pad + 1;
    }
    let mut j: usize = 0;
    while j < digits.len()
        invariant
            out@ == old(out)@ + Seq::new(need as nat, |i: int| '0') + digits@.subrange(
                0,
                j as int,
            ),
            0 <= j <= digits@.len(),
            need == (if digits@.len() >= width { 0int } else { width - digits@.len() }),
        decreases digits@.len() - j,
    {
        out.push(digits[j]);
        proof {
            assert(out@ =~= old(out)@ + Seq::new(need as nat, |i: int| '0') + digits@.subrange(
                0,
                (j + 1) as int,
            ));
        }
        j = j + 1;
    }
    proof {
        assert(digits@.subrange(0, digits@.len() as int) =~= digits@);
        assert(out@ =~= old(out)@ + dec_padded(n as nat, width as nat));
    }
}

// ---------------------------------------------------------------------------
// Trimming
// ---------------------------------------------------------------------------

pub open spec fn trim_front(s: Seq<char>) -> Seq<char>
    decreases s.len(),
{
    if s.len() > 0 && is_space(s[0]) {
        trim_front(s.drop_first())
    } else {
        s
    }
}

pub open spec fn trim_back(s: Seq<char>) -> Seq<char>
    decreases s.len(),
{
    if s.len() > 0 && is_space(s.last()) {
        trim_back(s.drop_last())
    } else {
        s
    }
}

/// The sequence with leading and trailing whitespace removed.
pub open spec fn trimmed(s: Seq<char>) -> Seq<char> {
    trim_back(trim_front(s))
}

/// Removes leading and trailing whitespace.
pub fn trim_chars(v: &Vec<char>) -> (r: Vec<char>)
    ensures
        r@ == trimmed(v@),
{
    let mut i: usize = 0;
    proof {
        assert(v@.skip(0) =~= v@);
    }
    while i < v.len() && char_is_space(v[i])
        invariant
            0 <= i <= v@.len(),
            trim_front(v@) == trim_front(v@.skip(i as int)),
        decreases v@.len() - i,
    {
        proof {
            assert(v@.skip(i as int).drop_first() =~= v@.skip(i + 1));
        }
        i = i + 1;
    }
    proof {
        assert(trim_front(v@) == v@.skip(i as int));
        assert(v@.skip(i as int) =~= v@.subrange(i as int, v@.len() as int));
    }
    let mut j: usize = v.len();
    while j > i && char_is_space(v[j - 1])
        invariant
            i <= j <= v@.len(),
            trim_front(v@) == v@.skip(i as int),
            trim_back(v@.skip(i as int)) == trim_back(v@.subrange(i as int, j as int)),
        decreases j,
    {
        proof {
            assert(v@.subrange(i as int, j as int).drop_last()
                =~= v@.subrange(i as int, (j - 1) as int));
        }
        j = j - 1;
    }
    proof {
        assert(trim_back(v@.subrange(i as int, j as int)) == v@.subrange(i as int, j as int));
    }
    let mut r: Vec<char> = Vec::new();
    let mut k: usize = i;
    while k < j
        invariant
            i <= k <= j <= v@.len(),
            r@ =~= v@.subrange(i as int, k as int),
        decreases j - k,
    {
        r.push(v[k]);
        proof {
            assert(r@ =~= v@.subrange(i as int, (k + 1) as int));
        }
        k = k + 1;
    }
    proof {
        assert(r@ =~= v@.subrange(i as int, j as int));
    }
    r
}


// ---------------------------------------------------------------------------
// Lines
// ---------------------------------------------------------------------------

/// One step of splitting on newlines: `cur` is the line being read, `acc`
/// the lines already read. The part after the last newline is kept too.
pub open spec fn split_nl_acc(s: Seq<char>, cur: Seq<char>, acc: Seq<Seq<char>>) -> Seq<Seq<char>>
    decreases s.len(),
{
    if s.len() == 0 {
        acc.push(cur)
    } else if s[0] == '\n' {
        split_nl_acc(s.drop_first(), Seq::empty(), acc.push(cur))
    } else {
        split_nl_acc(s.drop_first(), cur.push(s[0]), acc)
    }
}

pub open spec fn raw_parts(s: Seq<char>) -> Seq<Seq<char>> {
    split_nl_acc(s, Seq::empty(), Seq::empty())
}

/// A line with a trailing carriage return removed.
pub open spec fn strip_cr(l: Seq<char>) -> Seq<char> {
    if l.len() > 0 && l.last() == '\r' {
        l.drop_last()
    } else {
        l
    }
}

/// The lines of a text, as the standard line iterator yields them: split on
/// newlines, no final empty line, carriage returns stripped.
pub open spec fn lines_of(s: Seq<char>) -> Seq<Seq<char>> {
    let parts = raw_parts(s);
    let kept = if parts.len() > 0 && parts.last().len() == 0 {
        parts.drop_last()
    } else {
        parts
    };
    kept.map_values(|l: Seq<char>| strip_cr(l))
}

/// The lines joined back with single newlines.
pub open spec fn joined_nl(ls: Seq<Seq<char>>) -> Seq<char>
    decreases ls.len(),
{
    if ls.len() == 0 {
        Seq::empty()
    } else if ls.len() == 1 {
        ls[0]
    } else {
        ls[0] + seq!['\n'] + joined_nl(ls.drop_first())
    }
}

/// Splitting distributes over the accumulator.
pub proof fn lemma_split_nl_unfold(s: Seq<char>, cur: Seq<char>, acc: Seq<Seq<char>>)
    ensures
        split_nl_acc(s, cur, acc) == acc + split_nl_acc(s, cur, Seq::empty()),
    decreases s.len(),
{
    if s.len() == 0 {
        assert(acc.push(cur) =~= acc + Seq::<Seq<char>>::empty().push(cur));
    } else if s[0] == '\n' {
        lemma_split_nl_unfold(s.drop_first(), Seq::empty(), acc.push(cur));
        lemma_split_nl_unfold(s.drop_first(), Seq::empty(), Seq::<Seq<char>>::empty().push(cur));
        assert(acc.push(cur) =~= acc + Seq::<Seq<char>>::empty().push(cur));
        assert(acc.push(cur) + split_nl_acc(s.drop_first(), Seq::empty(), Seq::empty())
            =~= acc + (Seq::<Seq<char>>::empty().push(cur) + split_nl_acc(
            s.drop_first(),
            Seq::empty(),
            Seq::empty(),
        )));
    } else {
        lemma_split_nl_unfold(s.drop_first(), cur.push(s[0]), acc);
    }
}

/// Splitting a text that ends in a newline and then more text carries the
/// first text's lines into the accumulator.
pub proof fn lemma_split_nl_concat(a: Seq<char>, b: Seq<char>, cur: Seq<char>, acc: Seq<Seq<char>>)
    requires
        a.len() > 0,
        a.last() == '\n',
    ensures
        split_nl_acc(a + b, cur, acc) == split_nl_acc(
            b,
            Seq::empty(),
            split_nl_acc(a.drop_last(), cur, acc),
        ),
    decreases a.len(),
{
    if a.len() == 1 {
        assert((a + b).drop_first() =~= b);
        assert(a.drop_last() =~= Seq::<char>::empty());
        assert((a + b)[0] == '\n');
        assert(split_nl_acc(a + b, cur, acc) == split_nl_acc(b, Seq::empty(), acc.push(cur)));
        assert(split_nl_acc(a.drop_last(), cur, acc) == acc.push(cur));
    } else {
        assert((a + b)[0] == a[0]);
        assert((a + b).drop_first() =~= a.drop_first() + b);
        assert(a.drop_first().len() > 0 && a.drop_first().last() == '\n');
        assert(a.drop_last()[0] == a[0]);
        assert(a.drop_last().drop_first() =~= a.drop_first().drop_last());
        if a[0] == '\n' {
            lemma_split_nl_concat(a.drop_first(), b, Seq::empty(), acc.push(cur));
        } else {
            lemma_split_nl_concat(a.drop_first(), b, cur.push(a[0]), acc);
        }
    }
}

/// A text without newlines is a single part.
pub proof fn lemma_split_nl_single(c: Seq<char>, cur: Seq<char>, acc: Seq<Seq<char>>)
    requires
        !c.contains('\n'),
    ensures
        split_nl_acc(c, cur, acc) == acc.push(cur + c),
    decreases c.len(),
{
    if c.len() == 0 {
        assert(cur + c =~= cur);
    } else {
        assert(c[0] != '\n');
        assert(!c.drop_first().contains('\n')) by {
            if c.drop_first().contains('\n') {
                let k = choose|k: int|
                    0 <= k < c.drop_first().len() && c.drop_first()[k] == '\n';
                assert(c[k + 1] == '\n');
            }
        }
        lemma_split_nl_single(c.drop_first(), cur.push(c[0]), acc);
        assert(cur.push(c[0]) + c.drop_first() =~= cur + c);
    }
}

/// The final part is never empty when the text does not end in a newline.
pub proof fn lemma_split_nl_last(s: Seq<char>, cur: Seq<char>, acc: Seq<Seq<char>>)
    requires
        s.len() > 0,
        s.last() != '\n',
    ensures
        split_nl_acc(s, cur, acc).last().len() > 0,
    decreases s.len(),
{
    if s.len() == 1 {
        assert(s[0] == s.last());
        assert(s[0] != '\n');
        assert(s.drop_first() =~= Seq::<char>::empty());
        assert(split_nl_acc(s.drop_first(), cur.push(s[0]), acc) == acc.push(cur.push(s[0])));
        assert(split_nl_acc(s, cur, acc) == acc.push(cur.push(s[0])));
    } else {
        assert(s.drop_first().last() == s.last());
        if s[0] == '\n' {
            lemma_split_nl_last(s.drop_first(), Seq::empty(), acc.push(cur));
        } else {
            lemma_split_nl_last(s.drop_first(), cur.push(s[0]), acc);
        }
    }
}

/// The number of parts is at least one more than the accumulator holds.
pub proof fn lemma_split_nl_len(s: Seq<char>, cur: Seq<char>, acc: Seq<Seq<char>>)
    ensures
        split_nl_acc(s, cur, acc).len() > acc.len(),
    decreases s.len(),
{
    if s.len() == 0 {
    } else if s[0] == '\n' {
        lemma_split_nl_len(s.drop_first(), Seq::empty(), acc.push(cur));
    } else {
        lemma_split_nl_len(s.drop_first(), cur.push(s[0]), acc);
    }
}

/// Lines distribute over concatenation at a newline boundary.
pub proof fn lemma_lines_concat(a: Seq<char>, b: Seq<char>)
    requires
        a.len() > 0,
        a.last() == '\n',
    ensures
        lines_of(a + b) == lines_of(a) + lines_of(b),
{
    let pa = raw_parts(a.drop_last());
    lemma_split_nl_concat(a, b, Seq::empty(), Seq::empty());
    lemma_split_nl_unfold(b, Seq::empty(), pa);
    assert(raw_parts(a + b) == pa + raw_parts(b));
    lemma_split_nl_concat(a, Seq::empty(), Seq::empty(), Seq::empty());
    assert(a + Seq::<char>::empty() =~= a);
    assert(raw_parts(a) == pa.push(Seq::<char>::empty()));
    assert(raw_parts(a).last().len() == 0);
    lemma_split_nl_len(a.drop_last(), Seq::empty(), Seq::empty());
    assert(raw_parts(a).drop_last() =~= pa);
    assert(lines_of(a) =~= pa.map_values(|l: Seq<char>| strip_cr(l)));
    let pb = raw_parts(b);
    lemma_split_nl_len(b, Seq::empty(), Seq::empty());
    assert((pa + pb).last() == pb.last());
    if pb.last().len() == 0 {
        assert((pa + pb).drop_last() =~= pa + pb.drop_last());
        assert(lines_of(a + b) =~= (pa + pb.drop_last()).map_values(|l: Seq<char>| strip_cr(l)));
        assert(lines_of(b) =~= pb.drop_last().map_values(|l: Seq<char>| strip_cr(l)));
        assert((pa + pb.drop_last()).map_values(|l: Seq<char>| strip_cr(l)) =~= pa.map_values(
            |l: Seq<char>| strip_cr(l),
        ) + pb.drop_last().map_values(|l: Seq<char>| strip_cr(l)));
    } else {
        assert(lines_of(a + b) =~= (pa + pb).map_values(|l: Seq<char>| strip_cr(l)));
        assert(lines_of(b) =~= pb.map_values(|l: Seq<char>| strip_cr(l)));
        assert((pa + pb).map_values(|l: Seq<char>| strip_cr(l)) =~= pa.map_values(
            |l: Seq<char>| strip_cr(l),
        ) + pb.map_values(|l: Seq<char>| strip_cr(l)));
    }
}

/// The index of the first newline.
pub open spec fn first_nl(s: Seq<char>) -> int
    decreases s.len(),
{
    if s.len() == 0 {
        0
    } else if s[0] == '\n' {
        0
    } else {
        1 + first_nl(s.drop_first())
    }
}

pub proof fn lemma_first_nl(s: Seq<char>)
    requires
        s.contains('\n'),
    ensures
        0 <= first_nl(s) < s.len(),
        s[first_nl(s)] == '\n',
        forall|j: int| 0 <= j < first_nl(s) ==> s[j] != '\n',
    decreases s.len(),
{
    if s.len() == 0 {
    } else if s[0] == '\n' {
    } else {
        assert(s.drop_first().contains('\n')) by {
            let k = choose|k: int| 0 <= k < s.len() && s[k] == '\n';
            assert(s.drop_first()[k - 1] == '\n');
        }
        lemma_first_nl(s.drop_first());
        assert forall|j: int| 0 <= j < first_nl(s) implies s[j] != '\n' by {
            if j > 0 {
                assert(s.drop_first()[j - 1] != '\n');
            }
        }
    }
}

/// Joining the lines of a text gives the text back, provided it has no
/// carriage returns and no trailing newline.
pub proof fn lemma_lines_join_id(c: Seq<char>)
    requires
        !c.contains('\r'),
        c.len() > 0 ==> c.last() != '\n',
    ensures
        joined_nl(lines_of(c)) == c,
    decreases c.len(),
{
    if !c.contains('\n') {
        lemma_split_nl_single(c, Seq::empty(), Seq::empty());
        assert(Seq::<char>::empty() + c =~= c);
        assert(raw_parts(c) == Seq::<Seq<char>>::empty().push(c));
        if c.len() == 0 {
            assert(lines_of(c) =~= Seq::<Seq<char>>::empty());
        } else {
            assert(raw_parts(c).last() == c);
            assert(lines_of(c) =~= Seq::<Seq<char>>::empty().push(c).map_values(
                |l: Seq<char>| strip_cr(l),
            ));
            assert(c.last() != '\r') by {
                assert(c[c.len() - 1] == c.last());
                if c.last() == '\r' {
                    assert(c.contains('\r'));
                }
            }
            assert(strip_cr(c) == c);
            assert(lines_of(c).len() == 1);
            assert(lines_of(c)[0] == c);
        }
    } else {
        lemma_first_nl(c);
        let k = first_nl(c);
        let a = c.take(k + 1);
        let b = c.skip(k + 1);
        assert(a + b =~= c);
        assert(a.last() == '\n');
        lemma_lines_concat(a, b);
        let c1 = a.drop_last();
        assert(c1 =~= c.take(k));
        assert(!c1.contains('\n')) by {
            if c1.contains('\n') {
                let j = choose|j: int| 0 <= j < c1.len() && c1[j] == '\n';
                assert(c[j] == '\n');
            }
        }
        lemma_split_nl_single(c1, Seq::empty(), Seq::empty());
        lemma_split_nl_concat(a, Seq::empty(), Seq::empty(), Seq::empty());
        assert(a + Seq::<char>::empty() =~= a);
        assert(Seq::<char>::empty() + c1 =~= c1);
        assert(raw_parts(a) == Seq::<Seq<char>>::empty().push(c1).push(Seq::<char>::empty()));
        assert(raw_parts(a).last().len() == 0);
        assert(raw_parts(a).drop_last() =~= Seq::<Seq<char>>::empty().push(c1));
        assert(!c1.contains('\r')) by {
            if c1.contains('\r') {
                let j = choose|j: int| 0 <= j < c1.len() && c1[j] == '\r';
                assert(c[j] == '\r');
            }
        }
        assert(c1.len() > 0 ==> c1.last() != '\r') by {
            if c1.len() > 0 && c1.last() == '\r' {
                assert(c1.contains('\r')) by {
                    assert(c1[c1.len() - 1] == '\r');
                }
            }
        }
        assert(lines_of(a).len() == 1 && lines_of(a)[0] == c1) by {
            assert(lines_of(a) =~= Seq::<Seq<char>>::empty().push(c1).map_values(
                |l: Seq<char>| strip_cr(l),
            ));
            assert(strip_cr(c1) == c1);
        }
        assert(b.len() > 0) by {
            if b.len() == 0 {
                assert(c.last() == '\n');
            }
        }
        assert(b.last() == c.last());
        assert(!b.contains('\r')) by {
            if b.contains('\r') {
                let j = choose|j: int| 0 <= j < b.len() && b[j] == '\r';
                assert(c[k + 1 + j] == '\r');
            }
        }
        lemma_lines_join_id(b);
        let lb = lines_of(b);
        assert(lb.len() >= 1) by {
            lemma_split_nl_len(b, Seq::empty(), Seq::empty());
            lemma_split_nl_last(b, Seq::empty(), Seq::empty());
            if raw_parts(b).len() > 0 && raw_parts(b).last().len() == 0 {
                assert(false);
            }
        }
        assert(lines_of(c) == lines_of(a) + lb);
        assert(lines_of(c).len() == 1 + lb.len());
        assert(lines_of(c)[0] == c1);
        assert(lines_of(c).drop_first() =~= lb);
        if lines_of(c).len() == 1 {
            assert(false);
        }
        assert(joined_nl(lines_of(c)) == c1 + seq!['\n'] + joined_nl(lb));
        assert(c1 + seq!['\n'] =~= a);
        assert(c1 + seq!['\n'] + b =~= c);
    }
}

/// The lines of a text, each line as a character vector.
pub fn split_lines(v: &Vec<char>) -> (r: Vec<Vec<char>>)
    ensures
        r.deep_view() == lines_of(v@),
{
    let mut out: Vec<Vec<char>> = Vec::new();
    let mut cur: Vec<char> = Vec::new();
    let n = v.len();
    let mut i: usize = 0;
    proof {
        assert(v@.skip(0) =~= v@);
        assert(out.deep_view() =~= Seq::<Seq<char>>::empty());
    }
    while i < n
        invariant
            0 <= i <= n,
            n == v@.len(),
            raw_parts(v@) == split_nl_acc(v@.skip(i as int), cur@, out.deep_view()),
        decreases n - i,
    {
        let c = v[i];
        proof {
            assert(v@.skip(i as int)[0] == v@[i as int]);
            assert(v@.skip(i as int).drop_first() =~= v@.skip(i + 1));
        }
        if c == '\n' {
            let ghost dv = out.deep_view();
            let ghost curv = cur@;
            out.push(cur);
            proof {
                assert(out.deep_view() =~= dv.push(curv));
            }
            cur = Vec::new();
            proof {
                assert(cur@ =~= Seq::<char>::empty());
            }
        } else {
            cur.push(c);
        }
        i = i + 1;
    }
    proof {
        assert(v@.skip(i as int) =~= Seq::<char>::empty());
    }
    let ghost dv = out.deep_view();
    let ghost curv = cur@;
    let keep_last = cur.len() > 0;
    out.push(cur);
    proof {
        assert(out.deep_view() =~= dv.push(curv));
        assert(raw_parts(v@) == out.deep_view());
    }
    if !keep_last {
        let _ = out.pop();
        proof {
            assert(out.deep_view() =~= raw_parts(v@).drop_last());
        }
    }
    // strip carriage returns
    let ghost kept = out.deep_view();
    let mut r: Vec<Vec<char>> = Vec::new();
    let m = out.len();
    let mut j: usize = 0;
    while j < m
        invariant
            0 <= j <= m,
            m == out@.len(),
            kept == out.deep_view(),
            r.deep_view() =~= kept.take(j as int).map_values(|l: Seq<char>| strip_cr(l)),
        decreases m - j,
    {
        let line = &out[j];
        let ghost dvr = r.deep_view();
        if line.len() > 0 && line[line.len() - 1] == '\r' {
            let mut stripped = line.clone();
            let _ = stripped.pop();
            proof {
                assert(stripped@ =~= kept[j as int].drop_last());
            }
            r.push(stripped);
        } else {
            r.push(line.clone());
        }
        proof {
            assert(out@[j as int]@ == kept[j as int]);
            assert(r.deep_view() =~= dvr.push(strip_cr(kept[j as int])));
            assert(kept.take((j + 1) as int).map_values(|l: Seq<char>| strip_cr(l)) =~= kept.take(
                j as int,
            ).map_values(|l: Seq<char>| strip_cr(l)).push(strip_cr(kept[j as int])));
        }
        j = j + 1;
    }
    proof {
        assert(kept.take(m as int) =~= kept);
        if raw_parts(v@).len() > 0 && raw_parts(v@).last().len() == 0 {
            assert(r.deep_view() =~= lines_of(v@));
        } else {
            assert(r.deep_view() =~= lines_of(v@));
        }
    }
    r
}

/// `joined_nl` grows at the back one line at a time.
pub proof fn lemma_joined_push(ls: Seq<Seq<char>>, x: Seq<char>)
    ensures
        joined_nl(ls.push(x)) == if ls.len() == 0 {
            x
        } else {
            joined_nl(ls) + seq!['\n'] + x
        },
    decreases ls.len(),
{
    if ls.len() == 0 {
        assert(ls.push(x).len() == 1);
        assert(ls.push(x)[0] == x);
    } else {
        lemma_joined_push(ls.drop_first(), x);
        assert(ls.push(x).drop_first() =~= ls.drop_first().push(x));
        assert(ls.push(x)[0] == ls[0]);
        if ls.len() == 1 {
            assert(ls.drop_first().len() == 0);
            assert(joined_nl(ls.push(x)) == ls[0] + seq!['\n'] + x);
            assert(joined_nl(ls) == ls[0]);
        } else {
            assert(joined_nl(ls.push(x)) == ls[0] + seq!['\n'] + (joined_nl(ls.drop_first())
                + seq!['\n'] + x));
            assert(ls[0] + seq!['\n'] + (joined_nl(ls.drop_first()) + seq!['\n'] + x) =~= (
            ls[0] + seq!['\n'] + joined_nl(ls.drop_first())) + seq!['\n'] + x);
        }
    }
}

/// The lines joined back with single newlines.
pub fn join_lines(parts: &Vec<Vec<char>>) -> (r: Vec<char>)
    ensures
        r@ == joined_nl(parts.deep_view()),
{
    let mut r: Vec<char> = Vec::new();
    let n = parts.len();
    let mut i: usize = 0;
    proof {
        assert(parts.deep_view().take(0) =~= Seq::<Seq<char>>::empty());
    }
    while i < n
        invariant
            0 <= i <= n,
            n == parts@.len(),
            r@ == joined_nl(parts.deep_view().take(i as int)),
        decreases n - i,
    {
        let ghost dv = parts.deep_view();
        if i > 0 {
            r.push('\n');
        }
        let mut line = parts[i].clone();
        proof {
            assert(line@ == dv[i as int]);
        }
        r.append(&mut line);
        proof {
            lemma_joined_push(dv.take(i as int), dv[i as int]);
            assert(dv.take(i as int).push(dv[i as int]) =~= dv.take((i + 1) as int));
            if i == 0 {
                assert(r@ =~= joined_nl(dv.take((i + 1) as int)));
            } else {
                assert(r@ =~= joined_nl(dv.take(i as int)) + seq!['\n'] + dv[i as int]);
                assert(r@ =~= joined_nl(dv.take((i + 1) as int)));
            }
        }
        i = i + 1;
    }
    proof {
        assert(parts.deep_view().take(n as int) =~= parts.deep_view());
    }
    r
}


// ---------------------------------------------------------------------------
// Small helpers
// ---------------------------------------------------------------------------

/// The index of the first occurrence of `c`, or the length when absent.
pub open spec fn find_char_at(s: Seq<char>, c: char) -> int
    decreases s.len(),
{
    if s.len() == 0 {
        0
    } else if s[0] == c {
        0
    } else {
        1 + find_char_at(s.drop_first(), c)
    }
}

pub proof fn lemma_find_char(s: Seq<char>, c: char)
    ensures
        0 <= find_char_at(s, c) <= s.len(),
        s.contains(c) ==> find_char_at(s, c) < s.len() && s[find_char_at(s, c)] == c,
        forall|j: int| 0 <= j < find_char_at(s, c) ==> s[j] != c,
    decreases s.len(),
{
    if s.len() == 0 {
    } else if s[0] == c {
        assert(s.contains(c)) by {
            assert(s[0] == c);
        }
    } else {
        lemma_find_char(s.drop_first(), c);
        if s.contains(c) {
            assert(s.drop_first().contains(c)) by {
                let k = choose|k: int| 0 <= k < s.len() && s[k] == c;
                assert(s.drop_first()[k - 1] == c);
            }
        }
        assert forall|j: int| 0 <= j < find_char_at(s, c) implies s[j] != c by {
            if j > 0 {
                assert(s.drop_first()[j - 1] != c);
            }
        }
    }
}

/// Character-for-character comparison of a vector and a string.
pub fn chars_eq_str(v: &Vec<char>, s: &str) -> (r: bool)
    ensures
        r == (v@ == s@),
{
    let n = s.unicode_len();
    if v.len() != n {
        return false;
    }
    for i in 0..n
        invariant
            n == s@.len(),
            n == v@.len(),
            forall|j: int| 0 <= j < i ==> v@[j] == s@[j],
    {
        if v[i] != s.get_char(i) {
            return false;
        }
    }
    proof {
        assert(v@ =~= s@);
    }
    true
}

/// A copy of the characters from `a` (inclusive) to `b` (exclusive).
pub fn slice_range(v: &Vec<char>, a: usize, b: usize) -> (r: Vec<char>)
    requires
        a <= b <= v@.len(),
    ensures
        r@ == v@.subrange(a as int, b as int),
{
    let mut r: Vec<char> = Vec::new();
    let mut i = a;
    while i < b
        invariant
            a <= i <= b <= v@.len(),
            r@ =~= v@.subrange(a as int, i as int),
        decreases b - i,
    {
        r.push(v[i]);
        proof {
            assert(r@ =~= v@.subrange(a as int, (i + 1) as int));
        }
        i = i + 1;
    }
    r
}

/// A character absent from both halves is absent from their concatenation.
pub proof fn lemma_no_char_concat(a: Seq<char>, b: Seq<char>, c: char)
    requires
        !a.contains(c),
        !b.contains(c),
    ensures
        !(a + b).contains(c),
{
    if (a + b).contains(c) {
        let k = choose|k: int| 0 <= k < (a + b).len() && (a + b)[k] == c;
        if k < a.len() {
            assert(a[k] == c);
        } else {
            assert(b[k - a.len()] == c);
        }
    }
}

/// Trimming keeps the head of a sequence whose head is not whitespace.
pub proof fn lemma_trimmed_head(s: Seq<char>)
    requires
        s.len() > 0,
        !is_space(s[0]),
    ensures
        trimmed(s).len() > 0,
        trimmed(s)[0] == s[0],
{
    assert(trim_front(s) == s);
    lemma_trim_back_head(s);
}

proof fn lemma_trim_back_head(s: Seq<char>)
    requires
        s.len() > 0,
        !is_space(s[0]),
    ensures
        trim_back(s).len() > 0,
        trim_back(s)[0] == s[0],
    decreases s.len(),
{
    if s.len() > 0 && is_space(s.last()) {
        assert(s.len() >= 2) by {
            if s.len() == 1 {
                assert(s.last() == s[0]);
            }
        }
        assert(s.drop_last()[0] == s[0]);
        lemma_trim_back_head(s.drop_last());
    }
}

/// Every character of a decimal rendering is a digit.
pub proof fn lemma_dec_digits_ascii(n: nat)
    ensures
        forall|i: int|
            0 <= i < dec_digits(n).len() ==> is_digit(#[trigger] dec_digits(n)[i]),
    decreases n,
{
    if n < 10 {
    } else {
        lemma_dec_digits_ascii(n / 10);
        assert forall|i: int| 0 <= i < dec_digits(n).len() implies is_digit(
            #[trigger] dec_digits(n)[i],
        ) by {
            if i < dec_digits(n / 10).len() {
                assert(dec_digits(n)[i] == dec_digits(n / 10)[i]);
            }
        }
    }
}

/// Every character of a padded decimal rendering is a digit or zero.
pub proof fn lemma_dec_padded_ascii(n: nat, w: nat)
    ensures
        forall|i: int|
            0 <= i < dec_padded(n, w).len() ==> is_digit(#[trigger] dec_padded(n, w)[i]),
{
    lemma_dec_digits_ascii(n);
    if dec_digits(n).len() < w {
        assert forall|i: int| 0 <= i < dec_padded(n, w).len() implies is_digit(
            #[trigger] dec_padded(n, w)[i],
        ) by {
            let pad = w - dec_digits(n).len();
            if i < pad {
                assert(dec_padded(n, w)[i] == '0');
            } else {
                assert(dec_padded(n, w)[i] == dec_digits(n)[i - pad]);
            }
        }
    }
}

} // verus!


