use vstd::prelude::*;
use core::cmp::Ordering;
use crate::errors::NottoError;
use crate::fs_tree::{FsTree, content_at, dir_at};
use crate::io::paths::NottoPath;
use crate::io::paths;
use crate::models::note::Note;
use crate::models::note;
use crate::text;

verus! {

broadcast use crate::seqviews::lemma_segments_deep_view;

/// One listing row: a display name, the entry's logical path, and whether
/// it is a directory.
pub struct PathEntry {
    name: String,
    pub path: NottoPath,
    is_dir: bool,
}

/// Lexicographic comparison of two names by character value.
pub open spec fn lex_cmp(a: Seq<char>, b: Seq<char>) -> Ordering
    decreases a.len(),
{
    if a.len() == 0 && b.len() == 0 {
        Ordering::Equal
    } else if a.len() == 0 {
        Ordering::Less
    } else if b.len() == 0 {
        Ordering::Greater
    } else if (a[0] as u32) < (b[0] as u32) {
        Ordering::Less
    } else if (a[0] as u32) > (b[0] as u32) {
        Ordering::Greater
    } else {
        lex_cmp(a.drop_first(), b.drop_first())
    }
}

impl PathEntry {
    pub closed spec fn name_view(&self) -> Seq<char> {
        self.name@
    }

    pub closed spec fn path_view(&self) -> Seq<Seq<char>> {
        self.path@
    }

    pub closed spec fn is_dir_spec(&self) -> bool {
        self.is_dir
    }

    /// The listing order: directories first; two names that both read as
    /// numbers compare numerically, so journal entries fall in calendar
    /// order; otherwise names compare lexicographically.
    pub open spec fn partial_cmp_spec_def(&self, other: &PathEntry) -> Option<Ordering> {
        if self.is_dir_spec() == other.is_dir_spec() {
            match (text::parse_i32_spec(self.name_view()), text::parse_i32_spec(
                other.name_view(),
            )) {
                (Option::Some(x), Option::Some(y)) => Option::Some(
                    if x < y {
                        Ordering::Less
                    } else if x == y {
                        Ordering::Equal
                    } else {
                        Ordering::Greater
                    },
                ),
                _ => Option::Some(lex_cmp(self.name_view(), other.name_view())),
            }
        } else if self.is_dir_spec() {
            Option::Some(Ordering::Less)
        } else {
            Option::Some(Ordering::Greater)
        }
    }

    /// Renders a NottoPath in its platform form, separated by slashes.
    pub fn string_to_pathbuf(path: &NottoPath) -> (r: String)
        ensures
            r@ == paths::joined(path@),
    {
        path.to_path_string()
    }

    /// Reads a platform path back into a NottoPath, segment by segment.
    pub fn pathbuf_to_string(path: &str) -> (r: NottoPath)
        ensures
            r@ == paths::path_segments_of(path@),
            r.wf(),
    {
        let mut result = NottoPath::new();
        result.push(path);
        proof {
            assert(result@ =~= paths::path_segments_of(path@));
        }
        result
    }

    /// The physical location of this entry under `base_path`.
    pub fn get_full_path(&self, base_path: &NottoPath) -> (r: NottoPath)
        ensures
            r@ == base_path@ + self.path_view(),
    {
        base_path.concat(&self.path)
    }

    pub fn is_dir(&self) -> (r: bool)
        ensures
            r == self.is_dir_spec(),
    {
        self.is_dir
    }

    /// The row's display text: directories in brackets.
    pub fn to_string(&self) -> (r: String)
        ensures
            r@ == if self.is_dir_spec() {
                "["@ + self.name_view() + "]"@
            } else {
                self.name_view()
            },
    {
        if self.is_dir {
            let mut out = text::str_chars("[");
            let mut n = text::str_chars(self.name.as_str());
            out.append(&mut n);
            let mut c = text::str_chars("]");
            out.append(&mut c);
            proof {
                assert(out@ =~= "["@ + self.name_view() + "]"@);
            }
            text::chars_to_string(&out)
        } else {
            self.name.clone()
        }
    }
}

fn lex_cmp_exec(a: &Vec<char>, b: &Vec<char>) -> (r: Ordering)
    ensures
        r == lex_cmp(a@, b@),
    decreases a@.len(),
{
    let mut i: usize = 0;
    let na = a.len();
    let nb = b.len();
    proof {
        assert(a@.skip(0) =~= a@);
        assert(b@.skip(0) =~= b@);
    }
    while i < na && i < nb
        invariant
            0 <= i <= na,
            0 <= i <= nb,
            na == a@.len(),
            nb == b@.len(),
            lex_cmp(a@, b@) == lex_cmp(a@.skip(i as int), b@.skip(i as int)),
        decreases na - i,
    {
        let ca = a[i] as u32;
        let cb = b[i] as u32;
        proof {
            assert(a@.skip(i as int)[0] == a@[i as int]);
            assert(b@.skip(i as int)[0] == b@[i as int]);
            assert(a@.skip(i as int).drop_first() =~= a@.skip(i + 1));
            assert(b@.skip(i as int).drop_first() =~= b@.skip(i + 1));
        }
        if ca < cb {
            return Ordering::Less;
        }
        if ca > cb {
            return Ordering::Greater;
        }
        i = i + 1;
    }
    proof {
        if i == na {
            assert(a@.skip(i as int) =~= Seq::<char>::empty());
        } else {
            assert(b@.skip(i as int) =~= Seq::<char>::empty());
        }
    }
    if na == nb {
        Ordering::Equal
    } else if i == na {
        Ordering::Less
    } else {
        Ordering::Greater
    }
}

impl PartialEq for PathEntry {
    fn eq(&self, other: &PathEntry) -> (r: bool) {
        paths::str_eq(&self.name, &other.name) && self.path.same_path(&other.path)
            && self.is_dir == other.is_dir
    }
}

impl vstd::std_specs::cmp::PartialEqSpecImpl for PathEntry {
    open spec fn obeys_eq_spec() -> bool {
        true
    }

    open spec fn eq_spec(&self, other: &PathEntry) -> bool {
        self.name_view() == other.name_view() && self.path_view() == other.path_view()
            && self.is_dir_spec() == other.is_dir_spec()
    }
}

impl PartialOrd for PathEntry {
    /// Directories come first; numeric names in numeric order; the rest
    /// lexicographically.
    fn partial_cmp(&self, other: &PathEntry) -> (r: Option<Ordering>) {
        if self.is_dir == other.is_dir {
            let an = text::str_chars(self.name.as_str());
            let bn = text::str_chars(other.name.as_str());
            match (text::parse_i32(&an), text::parse_i32(&bn)) {
                (Some(x), Some(y)) => {
                    if x < y {
                        Some(Ordering::Less)
                    } else if x == y {
                        Some(Ordering::Equal)
                    } else {
                        Some(Ordering::Greater)
                    }
                },
                _ => Some(lex_cmp_exec(&an, &bn)),
            }
        } else if self.is_dir {
            Some(Ordering::Less)
        } else {
            Some(Ordering::Greater)
        }
    }
}

impl vstd::std_specs::cmp::PartialOrdSpecImpl for PathEntry {
    open spec fn obeys_partial_cmp_spec() -> bool {
        true
    }

    open spec fn partial_cmp_spec(&self, other: &PathEntry) -> Option<Ordering> {
        self.partial_cmp_spec_def(other)
    }
}

/// The listing order as a relation: at or before.
pub open spec fn entry_le(a: PathEntry, b: PathEntry) -> bool {
    a.partial_cmp_spec_def(&b) matches Option::Some(
        Ordering::Less
        | Ordering::Equal,
    )
}

/// Adjacent rows stand in listing order.
pub open spec fn sorted_rows(s: Seq<PathEntry>) -> bool {
    forall|i: int| 0 <= i < s.len() - 1 ==> entry_le(#[trigger] s[i], s[i + 1])
}

proof fn lemma_lex_total(a: Seq<char>, b: Seq<char>)
    ensures
        lex_cmp(a, b) is Less ==> lex_cmp(b, a) is Greater,
        lex_cmp(a, b) is Greater ==> lex_cmp(b, a) is Less,
        lex_cmp(a, b) is Equal ==> lex_cmp(b, a) is Equal,
    decreases a.len(),
{
    if a.len() > 0 && b.len() > 0 && (a[0] as u32) == (b[0] as u32) {
        lemma_lex_total(a.drop_first(), b.drop_first());
    }
}

/// Any two rows compare one way or the other.
pub proof fn lemma_entry_le_total(a: PathEntry, b: PathEntry)
    ensures
        entry_le(a, b) || entry_le(b, a),
{
    lemma_lex_total(a.name_view(), b.name_view());
}

fn entry_le_exec(a: &PathEntry, b: &PathEntry) -> (r: bool)
    ensures
        r == entry_le(*a, *b),
{
    match a.partial_cmp(b) {
        Some(Ordering::Less) => true,
        Some(Ordering::Equal) => true,
        _ => false,
    }
}

proof fn lemma_insert_multiset(s: Seq<PathEntry>, j: int, e: PathEntry)
    requires
        0 <= j <= s.len(),
    ensures
        s.insert(j, e).to_multiset() == s.to_multiset().insert(e),
{
    broadcast use vstd::seq_lib::group_to_multiset_ensures;

    let s2 = s.insert(j, e);
    assert(s2.remove(j) =~= s);
    assert(s2[j] == e);
    assert(s2.remove(j).to_multiset() =~= s2.to_multiset().remove(e));
    assert(s2.contains(e)) by {
        assert(s2[j] == e);
    }
    assert(s2.to_multiset().count(e) > 0);
    assert(s2.to_multiset().remove(e).insert(e) =~= s2.to_multiset());
    assert(s.to_multiset().insert(e) =~= s2.to_multiset());
}

/// Places a row into a sorted listing, keeping it sorted.
fn insert_sorted(out: &mut Vec<PathEntry>, e: PathEntry)
    requires
        sorted_rows(old(out)@),
    ensures
        sorted_rows(final(out)@),
        final(out)@.to_multiset() == old(out)@.to_multiset().insert(e),
        final(out)@.len() == old(out)@.len() + 1,
        exists|j: int| 0 <= j <= old(out)@.len() && final(out)@ == old(out)@.insert(j, e),
{
    let n = out.len();
    let mut j: usize = 0;
    while j < n && !entry_le_exec(&e, &out[j])
        invariant
            0 <= j <= n,
            n == out@.len(),
            forall|k: int| 0 <= k < j ==> !entry_le(e, #[trigger] out@[k]),
        decreases n - j,
    {
        j = j + 1;
    }
    let ghost pre = out@;
    out.insert(j, e);
    proof {
        assert(out@ == pre.insert(j as int, e));
        lemma_insert_multiset(pre, j as int, e);
        assert forall|i: int| 0 <= i < out@.len() - 1 implies entry_le(
            #[trigger] out@[i],
            out@[i + 1],
        ) by {
            if i + 1 < j {
                assert(out@[i] == pre[i] && out@[i + 1] == pre[i + 1]);
                assert(entry_le(pre[i], pre[i + 1]));
            } else if i + 1 == j {
                assert(out@[i] == pre[i] && out@[i + 1] == e);
                assert(!entry_le(e, pre[i]));
                lemma_entry_le_total(e, pre[i]);
            } else if i == j {
                assert(out@[i] == e && out@[i + 1] == pre[i]);
                assert(j < n ==> entry_le(e, pre[j as int]));
            } else {
                assert(out@[i] == pre[i - 1] && out@[i + 1] == pre[i]);
                assert(entry_le(pre[i - 1], pre[i]));
            }
        }
    }
}

/// One faithful listing row for the visible child `s` of `parent`.
pub open spec fn entry_row(
    m: Map<Seq<Seq<char>>, crate::fs_tree::NodeView>,
    parent: Seq<Seq<char>>,
    s: Seq<char>,
    e: PathEntry,
) -> bool {
    &&& m.contains_key(parent.push(s))
    &&& s.len() > 0 && s[0] != '.'
    &&& e.path_view() == parent.push(s)
    &&& if dir_at(m, parent.push(s)) {
        e.is_dir_spec() && e.name_view() == s
    } else {
        !e.is_dir_spec() && e.name_view() == note::parsed_title(content_at(m, parent.push(s)))
            + " ["@ + s + "]"@
    }
}

/// A faithful row: its subject is the last segment of its own path.
pub open spec fn row_ok(
    m: Map<Seq<Seq<char>>, crate::fs_tree::NodeView>,
    parent: Seq<Seq<char>>,
    e: PathEntry,
) -> bool {
    e.path_view().len() > 0 && entry_row(m, parent, e.path_view().last(), e)
}

/// Lists the immediate children of a directory for interactive display.
pub struct NoteBrowser {
    base_path: NottoPath,
}

impl NoteBrowser {
    pub closed spec fn base_view(&self) -> Seq<Seq<char>> {
        self.base_path@
    }

    pub fn new(base_path: NottoPath) -> (r: Self)
        ensures
            r.base_view() == base_path@,
    {
        NoteBrowser { base_path }
    }

    /// The path relative to the base: a leading base prefix is removed.
    pub fn get_rel_path_string(&self, path: &NottoPath) -> (r: NottoPath)
        ensures
            r@ == if self.base_view().len() <= path@.len() && path@.take(
                self.base_view().len() as int,
            ) == self.base_view() {
                path@.skip(self.base_view().len() as int)
            } else {
                path@
            },
            path.wf() ==> r.wf(),
    {
        path.strip_prefix(&self.base_path)
    }

    /// The rows for the children of `path`: hidden names are skipped,
    /// directories carry their raw name, files carry the parsed note's
    /// title with the file name in brackets, each child appears at most
    /// once, and rows come out in listing order, directories first and
    /// numeric names in numeric order.
    pub fn get_selections_for_path(&self, fs: &FsTree, path: &NottoPath) -> (r: Result<
        Vec<PathEntry>,
        NottoError,
    >)
        requires
            fs.wf(),
            path.wf(),
        ensures
            r is Ok <==> dir_at(fs.tree(), path@),
            (r matches Result::Ok(v) ==> sorted_rows(v@)),
            (r matches Result::Ok(v) ==> forall|i: int|
                0 <= i < v@.len() ==> row_ok(fs.tree(), path@, #[trigger] v@[i])),
            (r matches Result::Ok(v) ==> forall|s: Seq<char>|
                fs.tree().contains_key(#[trigger] path@.push(s)) && s.len() > 0 && s[0] != '.'
                    ==> exists|i: int|
                    0 <= i < v@.len() && entry_row(fs.tree(), path@, s, v@[i])),
            (r matches Result::Ok(v) ==> forall|i: int, j: int|
                0 <= i < j < v@.len() ==> (#[trigger] v@[i]).path_view() != (
                #[trigger] v@[j]).path_view()),
    {
        if !fs.is_dir(path) {
            return Err(
                NottoError::ConfigDirectory { message: "not a directory".to_owned() },
            );
        }
        let result = build_rows(fs, path);
        Ok(result)
    }
}

/// After placing one new row among rows drawn from earlier children, every
/// row still comes from one child and no two rows share a path.
proof fn lemma_rows_after_insert(
    pre: Seq<PathEntry>,
    result: Seq<PathEntry>,
    e: PathEntry,
    names: Seq<String>,
    i: int,
)
    requires
        exists|at: int| 0 <= at <= pre.len() && result == pre.insert(at, e),
        0 <= i < names.len(),
        e.path_view().len() > 0,
        e.path_view().last() == names[i]@,
        forall|k1: int, k2: int| 0 <= k1 < k2 < names.len() ==> names[k1]@ != names[k2]@,
        forall|a: int|
            0 <= a < pre.len() ==> (#[trigger] pre[a]).path_view().len() > 0 && exists|k: int|
                0 <= k < i && pre[a].path_view().last() == names[k]@,
        forall|a: int, b: int|
            0 <= a < b < pre.len() ==> (#[trigger] pre[a]).path_view() != (
            #[trigger] pre[b]).path_view(),
    ensures
        forall|a: int|
            0 <= a < result.len() ==> (#[trigger] result[a]).path_view().len() > 0 && exists|
                k: int,
            | 0 <= k < i + 1 && result[a].path_view().last() == names[k]@,
        forall|a: int, b: int|
            0 <= a < b < result.len() ==> (#[trigger] result[a]).path_view() != (
            #[trigger] result[b]).path_view(),
{
    let at = choose|at: int| 0 <= at <= pre.len() && result == pre.insert(at, e);
    assert(result[at] == e);
    assert forall|a: int|
        0 <= a < result.len() implies (#[trigger] result[a]).path_view().len() > 0 && exists|
        k: int,
    | 0 <= k < i + 1 && result[a].path_view().last() == names[k]@ by {
        if a < at {
            assert(result[a] == pre[a]);
        } else if a > at {
            assert(result[a] == pre[a - 1]);
        }
    }
    assert forall|a: int, b: int|
        0 <= a < b < result.len() implies (#[trigger] result[a]).path_view() != (
        #[trigger] result[b]).path_view() by {
        if a != at && b != at {
            let ap: int = if a < at { a } else { a - 1 };
            let bp: int = if b < at { b } else { b - 1 };
            assert(result[a] == pre[ap] && result[b] == pre[bp]);
            assert(pre[ap].path_view() != pre[bp].path_view());
        } else {
            let other: int = if a == at { b } else { a };
            let op: int = if other < at { other } else { other - 1 };
            assert(result[other] == pre[op]);
            let k = choose|k: int| 0 <= k < i && pre[op].path_view().last() == names[k]@;
            assert(names[k]@ != names[i]@);
            if result[a].path_view() == result[b].path_view() {
                assert(pre[op].path_view().last() == e.path_view().last());
            }
        }
    }
}

/// Builds the listing rows for the children of a directory.
#[verifier::rlimit(100)]
#[verifier::spinoff_prover]
fn build_rows(fs: &FsTree, path: &NottoPath) -> (result: Vec<PathEntry>)
    requires
        fs.wf(),
        path.wf(),
    ensures
        sorted_rows(result@),
        forall|i: int| 0 <= i < result@.len() ==> row_ok(fs.tree(), path@, #[trigger] result@[i]),
        forall|s: Seq<char>|
            fs.tree().contains_key(#[trigger] path@.push(s)) && s.len() > 0 && s[0] != '.'
                ==> exists|i: int|
                0 <= i < result@.len() && entry_row(fs.tree(), path@, s, result@[i]),
        forall|i: int, j: int|
            0 <= i < j < result@.len() ==> (#[trigger] result@[i]).path_view() != (
            #[trigger] result@[j]).path_view(),
{
        let names = fs.children(path);
        let mut result: Vec<PathEntry> = Vec::new();
        let n = names.len();
        let mut i: usize = 0;
        while i < n
            invariant
                0 <= i <= n,
                n == names@.len(),
                fs.wf(),
                path.wf(),
                forall|k: int|
                    0 <= k < n ==> NottoPath::seg_wf(#[trigger] names@[k]@) && fs.tree()
                        .contains_key(path@.push(names@[k]@)),
                forall|k1: int, k2: int| 0 <= k1 < k2 < n ==> names@[k1]@ != names@[k2]@,
                sorted_rows(result@),
                forall|ii: int|
                    0 <= ii < result@.len() ==> row_ok(fs.tree(), path@, #[trigger] result@[ii]),
                forall|k: int|
                    0 <= k < i && names@[k]@[0] != '.' ==> exists|ii: int|
                        0 <= ii < result@.len() && entry_row(
                            fs.tree(),
                            path@,
                            #[trigger] names@[k]@,
                            result@[ii],
                        ),
                forall|a: int|
                    0 <= a < result@.len() ==> (#[trigger] result@[a]).path_view().len() > 0
                        && exists|k: int|
                        0 <= k < i && result@[a].path_view().last() == names@[k]@,
                forall|a: int, b: int|
                    0 <= a < b < result@.len() ==> (#[trigger] result@[a]).path_view() != (
                    #[trigger] result@[b]).path_view(),
            decreases n - i,
        {
            let name = &names[i];
            let first = name.as_str().get_char(0);
            if first != '.' {
                let child = path.join_seg(name);
                let entry: PathEntry;
                if fs.is_dir(&child) {
                    entry = PathEntry { name: name.clone(), path: child, is_dir: true };
                    proof {
                        assert(entry_row(fs.tree(), path@, names@[i as int]@, entry));
                    }
                } else {
                    let content = match fs.read_file(&child) {
                        Some(c) => c,
                        None => {
                            proof {
                                assert(false);
                            }
                            "".to_owned()
                        },
                    };
                    let parsed = Note::from_text(content.as_str());
                    let title = parsed.get_title();
                    let mut disp = text::str_chars(title.as_str());
                    let mut open_b = text::str_chars(" [");
                    disp.append(&mut open_b);
                    let mut nm = text::str_chars(name.as_str());
                    disp.append(&mut nm);
                    let mut close_b = text::str_chars("]");
                    disp.append(&mut close_b);
                    let display = text::chars_to_string(&disp);
                    entry = PathEntry { name: display, path: child, is_dir: false };
                    proof {
                        assert(entry.name_view() =~= note::parsed_title(
                            content_at(fs.tree(), path@.push(names@[i as int]@)),
                        ) + " ["@ + names@[i as int]@ + "]"@);
                        assert(entry_row(fs.tree(), path@, names@[i as int]@, entry));
                    }
                }
                let ghost pre_seq = result@;
                let ghost the_entry = entry;
                insert_sorted(&mut result, entry);
                proof {
                    broadcast use vstd::seq_lib::group_to_multiset_ensures;

                    assert(the_entry.path_view().last() == names@[i as int]@);
                    lemma_rows_after_insert(
                        pre_seq,
                        result@,
                        the_entry,
                        names@,
                        i as int,
                    );
                    assert(result@.to_multiset() == pre_seq.to_multiset().insert(the_entry));
                    assert(result@.to_multiset().count(the_entry) > 0);
                    assert(result@.contains(the_entry));
                    assert forall|ii: int|
                        0 <= ii < result@.len() implies row_ok(
                        fs.tree(),
                        path@,
                        #[trigger] result@[ii],
                    ) by {
                        let x = result@[ii];
                        assert(result@.contains(x)) by {
                            assert(result@[ii] == x);
                        }
                        assert(result@.to_multiset().count(x) > 0);
                        if x == the_entry {
                            assert(x.path_view().last() == names@[i as int]@);
                            assert(entry_row(fs.tree(), path@, names@[i as int]@, x));
                        } else {
                            assert(pre_seq.to_multiset().count(x) > 0);
                            assert(pre_seq.contains(x));
                            let oi = choose|oi: int|
                                0 <= oi < pre_seq.len() && pre_seq[oi] == x;
                            assert(row_ok(fs.tree(), path@, pre_seq[oi]));
                        }
                    }
                    assert forall|k: int|
                        0 <= k < i + 1 && names@[k]@[0] != '.' implies exists|ii: int|
                        0 <= ii < result@.len() && entry_row(
                            fs.tree(),
                            path@,
                            #[trigger] names@[k]@,
                            result@[ii],
                        ) by {
                        if k < i {
                            let oi = choose|oi: int|
                                0 <= oi < pre_seq.len() && entry_row(
                                    fs.tree(),
                                    path@,
                                    names@[k]@,
                                    pre_seq[oi],
                                );
                            let x = pre_seq[oi];
                            assert(pre_seq.contains(x)) by {
                                assert(pre_seq[oi] == x);
                            }
                            assert(pre_seq.to_multiset().count(x) > 0);
                            assert(result@.to_multiset().count(x) > 0);
                            assert(result@.contains(x));
                            let ni = choose|ni: int|
                                0 <= ni < result@.len() && result@[ni] == x;
                            assert(entry_row(fs.tree(), path@, names@[k]@, result@[ni]));
                        } else {
                            let ni = choose|ni: int|
                                0 <= ni < result@.len() && result@[ni] == the_entry;
                            assert(entry_row(fs.tree(), path@, names@[k]@, result@[ni]));
                        }
                    }
                }
            }
            i = i + 1;
        }
        proof {
            assert forall|s: Seq<char>|
                fs.tree().contains_key(#[trigger] path@.push(s)) && s.len() > 0 && s[0]
                    != '.' implies exists|ii: int|
                0 <= ii < result@.len() && entry_row(fs.tree(), path@, s, result@[ii]) by {
                let k = choose|k: int| 0 <= k < names@.len() && names@[k]@ == s;
                assert(names@[k]@[0] != '.');
            }
        }
    result
}


} // verus!
