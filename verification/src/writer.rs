use vstd::prelude::*;
use crate::bridge;
use crate::errors::NottoError;
use crate::fs_tree::{
    FsTree, NodeView, can_write, content_at, dir_at, file_at, mkdir_ok, tree_wf, with_dirs,
};
use crate::io::paths::NottoPath;
use crate::models::note::Note;
use crate::text;

verus! {

broadcast use crate::seqviews::lemma_segments_deep_view;

/// How an existing logical note name is currently materialized on disk.
#[derive(Debug, PartialEq, Eq)]
pub enum NoteFileType {
    File(String),
    Directory(String),
}

/// The storage engine: owns the base directory and keeps the one-identity
/// rule — a note is a file `name.md` or a directory `name` with a root
/// `index.md`, never both.
pub struct Writer {
    base: NottoPath,
}

// ---------------------------------------------------------------------------
// Names
// ---------------------------------------------------------------------------

/// The name with one trailing `.md` removed.
pub open spec fn strip_md(s: Seq<char>) -> Seq<char> {
    if s.len() >= 3 && s.subrange(s.len() - 3, s.len() as int) == ".md"@ {
        s.take(s.len() - 3)
    } else {
        s
    }
}

/// The name with the note extension appended.
pub open spec fn md_name(stem: Seq<char>) -> Seq<char> {
    stem + ".md"@
}

/// The index of the last dot, or -1.
pub open spec fn last_dot(s: Seq<char>) -> int
    decreases s.len(),
{
    if s.len() == 0 {
        -1
    } else if s.last() == '.' {
        s.len() - 1
    } else {
        last_dot(s.drop_last())
    }
}

/// The file stem: the part before the last dot, unless the only dot leads.
pub open spec fn stem_of(s: Seq<char>) -> Seq<char> {
    if last_dot(s) > 0 {
        s.take(last_dot(s))
    } else {
        s
    }
}

pub open spec fn stem_path(r: Seq<Seq<char>>) -> Seq<Seq<char>> {
    r.drop_last().push(stem_of(r.last()))
}

pub open spec fn md_sibling(r: Seq<Seq<char>>) -> Seq<Seq<char>> {
    r.drop_last().push(md_name(stem_of(r.last())))
}

/// Whether probing finds a file note.
pub open spec fn probe_file(m: Map<Seq<Seq<char>>, NodeView>, parent: Seq<Seq<char>>, stem: Seq<char>) -> bool {
    file_at(m, parent.push(md_name(stem)))
}

/// Whether probing finds a promoted directory note: the directory and its
/// root note both present.
pub open spec fn probe_dir(m: Map<Seq<Seq<char>>, NodeView>, parent: Seq<Seq<char>>, stem: Seq<char>) -> bool {
    stem.len() > 0 && m.contains_key(parent.push(stem)) && m.contains_key(
        parent.push(stem).push("index.md"@),
    )
}

// ---------------------------------------------------------------------------
// Promotion, directory creation and saving, as functions of the tree
// ---------------------------------------------------------------------------

/// The tree after promoting the file note at `r` into a directory note, or
/// nothing when some step cannot be taken. Mirrors the three-step move: the
/// file steps aside, the directory appears, the file returns as its root.
pub open spec fn promote_result(m: Map<Seq<Seq<char>>, NodeView>, r: Seq<Seq<char>>) -> Option<
    Map<Seq<Seq<char>>, NodeView>,
>
    decreases m.dom().len(),
    when m.dom().finite()
{
    if !file_at(m, r) || r.len() == 0 {
        Option::None
    } else {
        let content = content_at(m, r);
        let m1 = m.remove(r);
        let dest = stem_path(r);
        let dmd = md_sibling(r);
        let m2opt: Option<Map<Seq<Seq<char>>, NodeView>> = if dir_at(m1, dest) {
            Option::Some(m1)
        } else if file_at(m1, dest) {
            promote_result(m1, dest)
        } else if file_at(m1, dmd) {
            promote_result(m1, dmd)
        } else {
            if mkdir_ok(m1, dest) {
                Option::Some(with_dirs(m1, dest))
            } else {
                Option::None
            }
        };
        match m2opt {
            Option::Some(m2) => {
                let idx = dest.push("index.md"@);
                if can_write(m2, idx) {
                    Option::Some(m2.insert(idx, NodeView::File(content)))
                } else {
                    Option::None
                }
            },
            Option::None => Option::None,
        }
    }
}

/// One step of promotion-aware directory creation at prefix `p`: an
/// existing directory stands, an existing file is promoted, a sibling
/// note file named by the stem with the note extension in the
/// extension's place is promoted, and otherwise the directory is created.
pub open spec fn ensure_one_result(m: Map<Seq<Seq<char>>, NodeView>, p: Seq<Seq<char>>) -> Option<
    Map<Seq<Seq<char>>, NodeView>,
> {
    if p.len() == 0 {
        Option::Some(m)
    } else if m.contains_key(p) {
        if file_at(m, p) {
            promote_result(m, p)
        } else {
            Option::Some(m)
        }
    } else if file_at(m, p.drop_last().push(md_name(stem_of(p.last())))) {
        promote_result(m, p.drop_last().push(md_name(stem_of(p.last()))))
    } else {
        if mkdir_ok(m, p) {
            Option::Some(with_dirs(m, p))
        } else {
            Option::None
        }
    }
}

/// Directory creation along the first `k` segments of `p`, one promotion-
/// aware step per prefix.
pub open spec fn ensure_dir_result(m: Map<Seq<Seq<char>>, NodeView>, p: Seq<Seq<char>>, k: int) -> Option<
    Map<Seq<Seq<char>>, NodeView>,
>
    decreases k,
    when 0 <= k <= p.len()
{
    if k == 0 {
        Option::Some(m)
    } else {
        match ensure_dir_result(m, p, k - 1) {
            Option::Some(m2) => ensure_one_result(m2, p.take(k)),
            Option::None => Option::None,
        }
    }
}

/// The outcome of a save: the path written and the new tree; a naming
/// conflict with the offending name; or a filesystem failure.
pub ghost enum SaveOutcome {
    Saved(Seq<Seq<char>>, Map<Seq<Seq<char>>, NodeView>),
    Conflict(Seq<char>),
    Failed,
}

/// What saving does, step by step: make the parent a directory, probe for
/// the name, refuse to overwrite without leave, and write the rendered note
/// at the place the probe picked.
pub open spec fn save_spec(
    m0: Map<Seq<Seq<char>>, NodeView>,
    parent: Seq<Seq<char>>,
    raw_name: Seq<char>,
    overwrite: bool,
    rendered: Seq<char>,
) -> SaveOutcome {
    let m1opt = if parent.len() == 0 || m0.contains_key(parent) {
        Option::Some(m0)
    } else {
        ensure_dir_result(m0, parent, parent.len() as int)
    };
    match m1opt {
        Option::None => SaveOutcome::Failed,
        Option::Some(m1) => {
            let stripped = strip_md(raw_name);
            let stem = strip_md(stripped);
            let fname = md_name(stem);
            if probe_file(m1, parent, stem) {
                if !overwrite {
                    SaveOutcome::Conflict(stripped)
                } else {
                    save_write(m1, parent.push(fname), rendered)
                }
            } else if probe_dir(m1, parent, stem) {
                if !overwrite {
                    SaveOutcome::Conflict(stripped)
                } else {
                    save_write(m1, parent.push(stem).push("index.md"@), rendered)
                }
            } else {
                save_write(m1, parent.push(md_name(stripped)), rendered)
            }
        },
    }
}

pub open spec fn save_write(
    m: Map<Seq<Seq<char>>, NodeView>,
    target: Seq<Seq<char>>,
    rendered: Seq<char>,
) -> SaveOutcome {
    if can_write(m, target) {
        SaveOutcome::Saved(target, m.insert(target, NodeView::File(rendered)))
    } else {
        SaveOutcome::Failed
    }
}

/// Which way a save goes does not depend on the rendered text: the probe
/// and the write check look only at the tree and the name.
pub proof fn lemma_save_outcome_shape(
    m0: Map<Seq<Seq<char>>, NodeView>,
    parent: Seq<Seq<char>>,
    raw_name: Seq<char>,
    overwrite: bool,
    c1: Seq<char>,
    c2: Seq<char>,
)
    ensures
        save_spec(m0, parent, raw_name, overwrite, c1) is Saved <==> save_spec(
            m0,
            parent,
            raw_name,
            overwrite,
            c2,
        ) is Saved,
        save_spec(m0, parent, raw_name, overwrite, c1) is Conflict <==> save_spec(
            m0,
            parent,
            raw_name,
            overwrite,
            c2,
        ) is Conflict,
{
}

/// Under a missing node there is nothing.
pub proof fn lemma_no_orphans(m: Map<Seq<Seq<char>>, NodeView>, p: Seq<Seq<char>>, s: Seq<char>)
    requires
        tree_wf(m),
        p.len() >= 1,
        !m.contains_key(p),
    ensures
        !m.contains_key(p.push(s)),
{
    if m.contains_key(p.push(s)) {
        assert(p.push(s).len() > 1);
        assert(dir_at(m, p.push(s).drop_last()));
        assert(p.push(s).drop_last() =~= p);
    }
}


/// The probe's file name and stem keep separators out.
pub proof fn lemma_strip_parts(s: Seq<char>)
    requires
        !s.contains('/'),
    ensures
        NottoPath::seg_wf(md_name(strip_md(s))),
        !strip_md(s).contains('/'),
        strip_md(s).len() > 0 ==> NottoPath::seg_wf(strip_md(s)),
{
    lemma_name_parts_wf(s);
}

/// The directory root note's name is a well-formed segment.
pub proof fn lemma_index_wf()
    ensures
        NottoPath::seg_wf("index.md"@),
{
    lemma_md_clean();
}

/// The extension contains no separator.
proof fn lemma_md_clean()
    ensures
        !(".md"@).contains('/'),
        (".md"@).len() == 3,
        !("index.md"@).contains('/'),
        ("index.md"@).len() == 8,
{
    reveal_strlit(".md");
    reveal_strlit("index.md");
    if (".md"@).contains('/') {
        let k = choose|k: int| 0 <= k < 3 && (".md"@)[k] == '/';
    }
    if ("index.md"@).contains('/') {
        let k = choose|k: int| 0 <= k < 8 && ("index.md"@)[k] == '/';
    }
}

/// A name without separators keeps them out of its stem and extension
/// forms.
proof fn lemma_name_parts_wf(s: Seq<char>)
    requires
        !s.contains('/'),
    ensures
        !strip_md(s).contains('/'),
        NottoPath::seg_wf(md_name(strip_md(s))),
        NottoPath::seg_wf(md_name(s)),
    decreases 0int,
{
    lemma_md_clean();
    assert(!strip_md(s).contains('/')) by {
        if strip_md(s).contains('/') {
            let k = choose|k: int| 0 <= k < strip_md(s).len() && strip_md(s)[k] == '/';
            assert(s[k] == '/');
        }
    }
    text::lemma_no_char_concat(strip_md(s), ".md"@, '/');
    text::lemma_no_char_concat(s, ".md"@, '/');
    assert(md_name(strip_md(s)).len() >= 3);
    assert(md_name(s).len() >= 3);
}

/// The stem of a well-formed segment is a well-formed segment.
proof fn lemma_stem_wf(s: Seq<char>)
    requires
        NottoPath::seg_wf(s),
    ensures
        NottoPath::seg_wf(stem_of(s)),
    decreases s.len(),
{
    lemma_last_dot_bounds(s);
    if last_dot(s) > 0 {
        assert(stem_of(s).len() > 0);
        if stem_of(s).contains('/') {
            let k = choose|k: int| 0 <= k < stem_of(s).len() && stem_of(s)[k] == '/';
            assert(s[k] == '/');
        }
    }
}

proof fn lemma_last_dot_bounds(s: Seq<char>)
    ensures
        -1 <= last_dot(s) < s.len(),
        last_dot(s) >= 0 ==> s[last_dot(s)] == '.',
        forall|j: int| last_dot(s) < j < s.len() ==> s[j] != '.',
    decreases s.len(),
{
    if s.len() == 0 {
    } else if s.last() == '.' {
    } else {
        lemma_last_dot_bounds(s.drop_last());
        assert forall|j: int| last_dot(s) < j < s.len() implies s[j] != '.' by {
            if j < s.len() - 1 {
                assert(s.drop_last()[j] != '.');
            }
        }
    }
}

/// Strips one trailing `.md` from a name.
fn strip_md_exec(name: &String) -> (r: Vec<char>)
    ensures
        r@ == strip_md(name@),
{
    let chars = text::str_chars(name.as_str());
    let n = chars.len();
    if n >= 3 {
        let tail = text::slice_range(&chars, n - 3, n);
        if text::chars_eq_str(&tail, ".md") {
            proof {
                assert(name@.take(n - 3) =~= name@.subrange(0, n - 3));
            }
            return text::slice_range(&chars, 0, n - 3);
        }
    }
    chars
}

/// Appends the note extension.
fn with_md(stem: &Vec<char>) -> (r: String)
    ensures
        r@ == md_name(stem@),
{
    let mut out = stem.clone();
    let mut ext = text::str_chars(".md");
    out.append(&mut ext);
    text::chars_to_string(&out)
}

/// The stem of a segment, as the platform's file-stem rule has it.
fn stem_exec(seg: &String) -> (r: String)
    ensures
        r@ == stem_of(seg@),
{
    let chars = text::str_chars(seg.as_str());
    let n = chars.len();
    let mut k: usize = n;
    let mut found = false;
    while k > 0
        invariant_except_break
            !found,
            forall|j: int| k <= j < n ==> chars@[j] != '.',
        invariant
            0 <= k <= n,
            n == chars@.len(),
            chars@ == seg@,
            found ==> k < n && chars@[k as int] == '.',
        ensures
            found ==> k < n && chars@[k as int] == '.' && forall|j: int|
                k < j < n ==> chars@[j] != '.',
            !found ==> forall|j: int| 0 <= j < n ==> chars@[j] != '.',
        decreases k,
    {
        if chars[k - 1] == '.' {
            k = k - 1;
            found = true;
            break;
        }
        k = k - 1;
    }
    proof {
        lemma_last_dot_bounds(seg@);
        if found {
            assert(last_dot(seg@) == k) by {
                if last_dot(seg@) < k {
                    assert(seg@[k as int] != '.');
                } else if last_dot(seg@) > k {
                    assert(seg@[last_dot(seg@)] != '.');
                }
            }
        } else {
            assert(last_dot(seg@) == -1) by {
                if last_dot(seg@) >= 0 {
                    assert(seg@[last_dot(seg@)] != '.');
                }
            }
        }
    }
    if found && k > 0 {
        let piece = text::slice_range(&chars, 0, k);
        proof {
            assert(seg@.take(k as int) =~= seg@.subrange(0, k as int));
        }
        text::chars_to_string(&piece)
    } else {
        proof {
            assert(stem_of(seg@) == seg@);
        }
        text::chars_to_string(&chars)
    }
}

impl Writer {
    /// The base directory that roots every logical path.
    pub closed spec fn base_view(&self) -> Seq<Seq<char>> {
        self.base@
    }

    pub fn new(base_path: NottoPath) -> (r: Self)
        ensures
            r.base_view() == base_path@,
    {
        Writer { base: base_path }
    }

    /// The physical location of a logical path: the base followed by it.
    pub fn get_full_path(&self, path: &NottoPath) -> (r: NottoPath)
        ensures
            r@ == self.base_view() + path@,
    {
        self.base.concat(path)
    }

    /// Whether anything exists at `path` under the base.
    pub fn exists_at(&self, fs: &FsTree, path: &NottoPath) -> (r: bool)
        requires
            fs.wf(),
        ensures
            r == (path@.len() == 0 || fs.tree().contains_key(path@)),
    {
        fs.exists_node(path)
    }

    /// Whether `path` is a directory under the base.
    pub fn is_dir(&self, fs: &FsTree, path: &NottoPath) -> (r: bool)
        requires
            fs.wf(),
        ensures
            r == dir_at(fs.tree(), path@),
    {
        fs.is_dir(path)
    }

    /// Whether `path` is a regular file under the base.
    pub fn is_file(&self, fs: &FsTree, path: &NottoPath) -> (r: bool)
        requires
            fs.wf(),
        ensures
            r == file_at(fs.tree(), path@),
    {
        fs.is_file(path)
    }

    /// The sole authority for telling file notes from promoted directory
    /// notes: a file `name.md`, else a directory `name` holding `index.md`.
    pub fn note_file_exists(&self, fs: &FsTree, path: &NottoPath, file_name: &String) -> (r:
        Option<NoteFileType>)
        requires
            fs.wf(),
            path.wf(),
            !file_name@.contains('/'),
        ensures
            ({
                let m = fs.tree();
                let stem = strip_md(file_name@);
                match r {
                    Option::Some(t) => match t {
                        NoteFileType::File(f) => f@ == md_name(stem) && probe_file(
                            m,
                            path@,
                            stem,
                        ),
                        NoteFileType::Directory(d) => d@ == stem && !probe_file(m, path@, stem)
                            && probe_dir(m, path@, stem),
                    },
                    Option::None => !probe_file(m, path@, stem) && !probe_dir(m, path@, stem),
                }
            }),
    {
        let stem = strip_md_exec(file_name);
        let fname = with_md(&stem);
        proof {
            lemma_name_parts_wf(file_name@);
        }
        let fpath = path.join_seg(&fname);
        if fs.is_file(&fpath) {
            return Some(NoteFileType::File(fname));
        }
        if stem.len() == 0 {
            return None;
        }
        let stem_string = text::chars_to_string(&stem);
        proof {
            assert(NottoPath::seg_wf(stem_string@)) by {
                lemma_name_parts_wf(file_name@);
            }
        }
        let dpath = path.join_seg(&stem_string);
        if fs.exists_node(&dpath) {
            let index_name = "index.md".to_owned();
            proof {
                lemma_md_clean();
            }
            let ipath = dpath.join_seg(&index_name);
            if fs.exists_node(&ipath) {
                return Some(NoteFileType::Directory(stem_string));
            }
        }
        None
    }
}


impl Writer {
    /// Converts an existing file note into a directory note with the same
    /// content: the file steps aside, the directory appears (promoting
    /// whatever stands in its way), and the file returns as `index.md`.
    pub fn convert_note_to_parent_note(&self, fs: &mut FsTree, note_path: &NottoPath) -> (r:
        Result<(), NottoError>)
        requires
            old(fs).wf(),
            note_path.wf(),
        ensures
            final(fs).wf(),
            match r {
                Result::Ok(_) => promote_result(old(fs).tree(), note_path@) matches Option::Some(
                    m2,
                ) && final(fs).tree() == m2,
                Result::Err(e) => promote_result(old(fs).tree(), note_path@) is None && !(
                e is NoteExists) && (!file_at(old(fs).tree(), note_path@) ==> *final(fs) == *old(
                    fs,
                ) && e is FileError),
            },
        decreases old(fs).node_count(),
    {
        proof {
            old(fs).lemma_wf_tree();
        }
        if !fs.exists_node(note_path) {
            return Err(
                NottoError::FileError { message: "expected a note, found nothing".to_owned() },
            );
        }
        if !fs.is_file(note_path) {
            return Err(
                NottoError::FileError {
                    message: "expected a file note, found something else".to_owned(),
                },
            );
        }
        let ghost m0 = fs.tree();
        proof {
            assert(note_path@.len() >= 1);
            assert(NottoPath::seg_wf(note_path@[note_path@.len() - 1]));
        }
        let content = match fs.read_file(note_path) {
            Some(c) => c,
            None => {
                proof {
                    assert(false);
                }
                return Err(
                    NottoError::FileError { message: "unreadable note".to_owned() },
                );
            },
        };
        let parent = note_path.parent();
        let last = note_path.last_seg().clone();
        let stem_string = stem_exec(&last);
        let temp_name = bridge::fresh_id();
        proof {
            assert(NottoPath::seg_wf(temp_name@)) by {
                if temp_name@.contains('/') {
                    let k = choose|k: int| 0 <= k < temp_name@.len() && temp_name@[k] == '/';
                    assert(bridge::is_hex_lower(temp_name@[k]));
                }
            }
        }
        let temp_path = parent.join_seg(&temp_name);
        match fs.detach_file(note_path, &temp_path) {
            Ok(_) => {},
            Err(e) => {
                proof {
                    assert(false);
                }
                return Err(e);
            },
        }
        let ghost m1 = fs.tree();
        proof {
            assert(m1 == m0.remove(note_path@));
        }
        proof {
            lemma_stem_wf(note_path@.last());
            assert(stem_string@ == stem_of(note_path@.last()));
        }
        let dest = parent.join_seg(&stem_string);
        let dmd_name = with_md(&text::str_chars(stem_string.as_str()));
        proof {
            lemma_md_clean();
            text::lemma_no_char_concat(stem_of(note_path@.last()), ".md"@, '/');
        }
        let dmd = parent.join_seg(&dmd_name);
        proof {
            assert(dest@ == stem_path(note_path@));
            assert(dmd@ == md_sibling(note_path@));
            assert(dest.wf());
        }
        if fs.is_dir(&dest) {
        } else if fs.is_file(&dest) {
            match self.convert_note_to_parent_note(fs, &dest) {
                Ok(_) => {},
                Err(e) => {
                    proof {
                        assert(promote_result(m0, note_path@) is None);
                    }
                    return Err(e);
                },
            }
        } else if fs.is_file(&dmd) {
            match self.convert_note_to_parent_note(fs, &dmd) {
                Ok(_) => {},
                Err(e) => {
                    proof {
                        assert(promote_result(m0, note_path@) is None);
                    }
                    return Err(e);
                },
            }
        } else {
            match fs.make_dirs(&dest) {
                Ok(_) => {},
                Err(e) => {
                    proof {
                        assert(promote_result(m0, note_path@) is None);
                    }
                    return Err(
                        NottoError::ConfigDirectory {
                            message: "could not create the note directory".to_owned(),
                        },
                    );
                },
            }
        }
        let index_name = "index.md".to_owned();
        let idx = dest.join_seg(&index_name);
        match fs.attach_file(&idx, content, &temp_path) {
            Ok(_) => {
                proof {
                    assert(promote_result(m0, note_path@) matches Option::Some(m2) && fs.tree()
                        == m2);
                }
                Ok(())
            },
            Err(e) => {
                proof {
                    assert(promote_result(m0, note_path@) is None);
                }
                Err(e)
            },
        }
    }
}


/// Once a step fails, the walk fails.
proof fn lemma_edr_none_mono(m: Map<Seq<Seq<char>>, NodeView>, p: Seq<Seq<char>>, k: int, k2: int)
    requires
        0 <= k <= k2 <= p.len(),
        ensure_dir_result(m, p, k) is None,
    ensures
        ensure_dir_result(m, p, k2) is None,
    decreases k2 - k,
{
    if k < k2 {
        lemma_edr_none_mono(m, p, k, k2 - 1);
    }
}

impl Writer {
    /// Makes `path` a directory if it is not one already, promoting a file
    /// note that stands at the place or at its `.md` sibling.
    fn create_dir_if_doesnt_exist(&self, fs: &mut FsTree, path: &NottoPath) -> (r: Result<
        (),
        NottoError,
    >)
        requires
            old(fs).wf(),
            path.wf(),
            path@.len() >= 1,
        ensures
            final(fs).wf(),
            match r {
                Result::Ok(_) => ensure_one_result(old(fs).tree(), path@) matches Option::Some(
                    m2,
                ) && final(fs).tree() == m2,
                Result::Err(e) => ensure_one_result(old(fs).tree(), path@) is None && !(
                e is NoteExists),
            },
    {
        if fs.exists_node(path) {
            if fs.is_file(path) {
                match self.convert_note_to_parent_note(fs, path) {
                    Ok(_) => Ok(()),
                    Err(e) => {
                        proof {
                            assert(!(e is NoteExists)) by {
                                assert(file_at(old(fs).tree(), path@));
                            }
                        }
                        Err(e)
                    },
                }
            } else {
                Ok(())
            }
        } else {
            let last = path.last_seg().clone();
            let stem = stem_exec(&last);
            let possible_name = with_md(&text::str_chars(stem.as_str()));
            proof {
                lemma_md_clean();
                assert(NottoPath::seg_wf(path@.last()));
                lemma_stem_wf(path@.last());
                text::lemma_no_char_concat(stem_of(path@.last()), ".md"@, '/');
            }
            let parent = path.parent();
            let possible = parent.join_seg(&possible_name);
            proof {
                assert(possible@ == path@.drop_last().push(md_name(stem_of(path@.last()))));
            }
            if fs.is_file(&possible) {
                match self.convert_note_to_parent_note(fs, &possible) {
                    Ok(_) => Ok(()),
                    Err(e) => {
                        proof {
                            assert(!(e is NoteExists)) by {
                                assert(file_at(old(fs).tree(), possible@));
                            }
                        }
                        Err(e)
                    },
                }
            } else {
                match fs.make_dirs(path) {
                    Ok(_) => Ok(()),
                    Err(e) => Err(e),
                }
            }
        }
    }

    /// Walks `path` one segment at a time, making each prefix a directory
    /// with promotion where a file note stands in the way.
    pub fn create_dir_all(&self, fs: &mut FsTree, path: &NottoPath) -> (r: Result<(), NottoError>)
        requires
            old(fs).wf(),
            path.wf(),
        ensures
            final(fs).wf(),
            match r {
                Result::Ok(_) => ensure_dir_result(old(fs).tree(), path@, path@.len() as int)
                    matches Option::Some(m2) && final(fs).tree() == m2,
                Result::Err(e) => ensure_dir_result(old(fs).tree(), path@, path@.len() as int)
                    is None && !(e is NoteExists),
            },
    {
        let ghost m0 = fs.tree();
        let n = path.seg_count();
        let mut k: usize = 0;
        while k < n
            invariant
                0 <= k <= n,
                n == path@.len(),
                path.wf(),
                fs.wf(),
                m0 == old(fs).tree(),
                ensure_dir_result(m0, path@, k as int) == Option::Some(fs.tree()),
            decreases n - k,
        {
            let pref = path.prefix(k + 1);
            proof {
                assert(pref@ == path@.take(k + 1));
            }
            match self.create_dir_if_doesnt_exist(fs, &pref) {
                Ok(_) => {
                    proof {
                        assert(ensure_dir_result(m0, path@, (k + 1) as int) == Option::Some(
                            fs.tree(),
                        ));
                    }
                },
                Err(e) => {
                    proof {
                        assert(ensure_dir_result(m0, path@, (k + 1) as int) is None);
                        lemma_edr_none_mono(m0, path@, (k + 1) as int, path@.len() as int);
                    }
                    return Err(e);
                },
            }
            k = k + 1;
        }
        Ok(())
    }

    /// Saves a note under `path` with the given bare name. The parent is
    /// made a directory first, promoting file notes along the way; an
    /// existing note of that name is only overwritten with leave, else the
    /// save fails with a naming conflict; the note is rendered and written
    /// where the probe found it, or at `name.md` when the name is free.
    /// Returns the path actually written.
    pub fn save_note_at(
        &self,
        fs: &mut FsTree,
        note: Note,
        path: &NottoPath,
        file_name: &String,
        overwrite: bool,
    ) -> (r: Result<NottoPath, NottoError>)
        requires
            old(fs).wf(),
            path.wf(),
            !file_name@.contains('/'),
        ensures
            final(fs).wf(),
            ({
                let outcome = save_spec(
                    old(fs).tree(),
                    path@,
                    file_name@,
                    overwrite,
                    crate::models::note::note_text(note.front_matter, note.content@),
                );
                match r {
                    Result::Ok(p) => outcome matches SaveOutcome::Saved(t, m2) && p@ == t
                        && final(fs).tree() == m2 && p.wf(),
                    Result::Err(e) => match outcome {
                        SaveOutcome::Saved(t, m2) => false,
                        SaveOutcome::Conflict(nm) => (e matches NottoError::NoteExists {
                            note_name,
                        } && note_name@ == nm) && ((path@.len() == 0 || old(fs).tree()
                            .contains_key(path@)) ==> *final(fs) == *old(fs)),
                        SaveOutcome::Failed => !(e is NoteExists),
                    },
                }
            }),
    {
        proof {
            old(fs).lemma_wf_tree();
        }
        let ghost m0 = fs.tree();
        let ghost existed = path@.len() == 0 || m0.contains_key(path@);
        if !fs.exists_node(path) {
            match self.create_dir_all(fs, path) {
                Ok(_) => {},
                Err(e) => {
                    return Err(e);
                },
            }
        }
        let ghost m1 = fs.tree();
        let stripped_chars = strip_md_exec(file_name);
        let stripped = text::chars_to_string(&stripped_chars);
        proof {
            assert(!stripped@.contains('/')) by {
                lemma_name_parts_wf(file_name@);
            }
        }
        let target: NottoPath;
        match self.note_file_exists(fs, path, &stripped) {
            Some(t) => {
                if !overwrite {
                    return Err(NottoError::NoteExists { note_name: stripped });
                }
                match t {
                    NoteFileType::File(f) => {
                        proof {
                            lemma_name_parts_wf(stripped@);
                        }
                        target = path.join_seg(&f);
                    },
                    NoteFileType::Directory(d) => {
                        proof {
                            lemma_name_parts_wf(stripped@);
                            assert(NottoPath::seg_wf(d@)) by {
                                assert(!strip_md(stripped@).contains('/'));
                            }
                            lemma_md_clean();
                        }
                        let index_name = "index.md".to_owned();
                        target = path.join_seg(&d).join_seg(&index_name);
                    },
                }
            },
            None => {
                let fname = with_md(&stripped_chars);
                proof {
                    lemma_name_parts_wf(file_name@);
                    lemma_md_clean();
                    text::lemma_no_char_concat(stripped@, ".md"@, '/');
                }
                target = path.join_seg(&fname);
            },
        }
        let rendered = note.to_text();
        match fs.write_file(&target, rendered) {
            Ok(_) => Ok(target),
            Err(e) => Err(e),
        }
    }
}


/// A character that may not appear in a derived file name.
pub open spec fn is_special(c: char) -> bool {
    ||| c == ' '
    ||| c == ':'
    ||| c == '.'
    ||| c == ','
    ||| c == '/'
    ||| c == '\\'
    ||| c == '<'
    ||| c == '>'
    ||| c == '"'
    ||| c == '|'
    ||| c == '?'
    ||| c == '*'
    ||| c == '^'
    ||| c == '\''
}

/// The title with every special character dropped.
pub open spec fn keep_allowed(s: Seq<char>) -> Seq<char>
    decreases s.len(),
{
    if s.len() == 0 {
        s
    } else {
        keep_allowed(s.drop_last()) + (if is_special(s.last()) {
            Seq::<char>::empty()
        } else {
            seq![s.last()]
        })
    }
}

/// The sanitized title: specials dropped, trimmed, cut to the name limit.
pub open spec fn sanitized_title(t: Seq<char>) -> Seq<char> {
    let k = text::trimmed(keep_allowed(t));
    if k.len() > 32 {
        k.take(32)
    } else {
        k
    }
}

/// The derived file name: the sanitized title, or the identifier cut to
/// the same limit when nothing of the title survives; always with the note
/// extension.
pub open spec fn file_name_spec(title: Seq<char>, id: Seq<char>) -> Seq<char> {
    let b = sanitized_title(title);
    let b2 = if b.len() == 0 {
        if id.len() > 32 {
            id.take(32)
        } else {
            id
        }
    } else {
        b
    };
    md_name(b2)
}

fn char_is_special(c: char) -> (r: bool)
    ensures
        r == is_special(c),
{
    c == ' ' || c == ':' || c == '.' || c == ',' || c == '/' || c == '\\' || c == '<' || c == '>'
        || c == '"' || c == '|' || c == '?' || c == '*' || c == '^' || c == '\''
}

impl Writer {
    /// Derives a default file name from the note's title, falling back to
    /// its identifier when nothing printable survives.
    pub fn get_file_name_from_note(&self, note: &Note) -> (r: String)
        ensures
            r@ == file_name_spec(
                match note.front_matter.title {
                    Option::Some(t) => t@,
                    Option::None => crate::models::note::extract_title_spec(note.content@),
                },
                note.front_matter.id@,
            ),
    {
        let title = note.get_title();
        let chars = text::str_chars(title.as_str());
        let n = chars.len();
        let mut kept: Vec<char> = Vec::new();
        let mut i: usize = 0;
        proof {
            assert(chars@.take(0) =~= Seq::<char>::empty());
        }
        while i < n
            invariant
                0 <= i <= n,
                n == chars@.len(),
                kept@ == keep_allowed(chars@.take(i as int)),
            decreases n - i,
        {
            let c = chars[i];
            proof {
                assert(chars@.take((i + 1) as int).drop_last() =~= chars@.take(i as int));
                assert(chars@.take((i + 1) as int).last() == c);
            }
            if !char_is_special(c) {
                kept.push(c);
                proof {
                    assert(kept@ =~= keep_allowed(chars@.take((i + 1) as int)));
                }
            } else {
                proof {
                    assert(kept@ =~= keep_allowed(chars@.take((i + 1) as int)));
                }
            }
            i = i + 1;
        }
        proof {
            assert(chars@.take(n as int) =~= chars@);
        }
        let trimmed_chars = text::trim_chars(&kept);
        let base = if trimmed_chars.len() > 32 {
            let cut = text::slice_range(&trimmed_chars, 0, 32);
            proof {
                assert(cut@ =~= text::trimmed(keep_allowed(title@)).take(32));
            }
            cut
        } else {
            trimmed_chars
        };
        if base.len() == 0 {
            let idc = text::str_chars(note.front_matter.id.as_str());
            let idcut = if idc.len() > 32 {
                let c2 = text::slice_range(&idc, 0, 32);
                proof {
                    assert(c2@ =~= note.front_matter.id@.take(32));
                }
                c2
            } else {
                idc
            };
            with_md(&idcut)
        } else {
            with_md(&base)
        }
    }
}

// ---------------------------------------------------------------------------
// Laws
// ---------------------------------------------------------------------------

proof fn lemma_keep_allowed_clean(s: Seq<char>)
    ensures
        forall|i: int| 0 <= i < keep_allowed(s).len() ==> !is_special(#[trigger] keep_allowed(s)[i]),
    decreases s.len(),
{
    if s.len() > 0 {
        lemma_keep_allowed_clean(s.drop_last());
        assert forall|i: int| 0 <= i < keep_allowed(s).len() implies !is_special(
            #[trigger] keep_allowed(s)[i],
        ) by {
            if i < keep_allowed(s.drop_last()).len() {
                assert(keep_allowed(s)[i] == keep_allowed(s.drop_last())[i]);
            } else {
                assert(keep_allowed(s)[i] == s.last());
            }
        }
    }
}

proof fn lemma_trim_front_clean(s: Seq<char>)
    requires
        forall|i: int| 0 <= i < s.len() ==> !is_special(#[trigger] s[i]),
    ensures
        forall|i: int|
            0 <= i < text::trim_front(s).len() ==> !is_special(#[trigger] text::trim_front(s)[i]),
    decreases s.len(),
{
    if s.len() > 0 && text::is_space(s[0]) {
        assert forall|i: int| 0 <= i < s.drop_first().len() implies !is_special(
            #[trigger] s.drop_first()[i],
        ) by {
            assert(s.drop_first()[i] == s[i + 1]);
        }
        lemma_trim_front_clean(s.drop_first());
        assert forall|i: int| 0 <= i < text::trim_front(s).len() implies !is_special(
            #[trigger] text::trim_front(s)[i],
        ) by {
            assert(text::trim_front(s)[i] == text::trim_front(s.drop_first())[i]);
        }
    }
}

proof fn lemma_trim_back_clean(s: Seq<char>)
    requires
        forall|i: int| 0 <= i < s.len() ==> !is_special(#[trigger] s[i]),
    ensures
        forall|i: int|
            0 <= i < text::trim_back(s).len() ==> !is_special(#[trigger] text::trim_back(s)[i]),
    decreases s.len(),
{
    if s.len() > 0 && text::is_space(s.last()) {
        assert forall|i: int| 0 <= i < s.drop_last().len() implies !is_special(
            #[trigger] s.drop_last()[i],
        ) by {
            assert(s.drop_last()[i] == s[i]);
        }
        lemma_trim_back_clean(s.drop_last());
        assert forall|i: int| 0 <= i < text::trim_back(s).len() implies !is_special(
            #[trigger] text::trim_back(s)[i],
        ) by {
            assert(text::trim_back(s)[i] == text::trim_back(s.drop_last())[i]);
        }
    }
}

/// The derived file name is sanitized: it always ends in the note
/// extension, what comes from the title is free of special characters and
/// cut to the name limit, and an empty survivor falls back to the
/// identifier cut to the same limit.
pub proof fn lemma_file_name_sanitized(title: Seq<char>, id: Seq<char>)
    ensures
        ({
            let r = file_name_spec(title, id);
            let b = sanitized_title(title);
            &&& r.subrange(r.len() - 3, r.len() as int) == ".md"@
            &&& b.len() <= 32
            &&& forall|i: int| 0 <= i < b.len() ==> !is_special(#[trigger] b[i])
            &&& (b.len() > 0 ==> r == md_name(b))
            &&& (b.len() == 0 ==> r == md_name(
                if id.len() > 32 {
                    id.take(32)
                } else {
                    id
                },
            ))
        }),
{
    lemma_md_clean();
    let k = text::trimmed(keep_allowed(title));
    lemma_keep_allowed_clean(title);
    lemma_trim_front_clean(keep_allowed(title));
    lemma_trim_back_clean(text::trim_front(keep_allowed(title)));
    let b = sanitized_title(title);
    assert forall|i: int| 0 <= i < b.len() implies !is_special(#[trigger] b[i]) by {
        if k.len() > 32 {
            assert(b[i] == k[i]);
        }
    }
    let r = file_name_spec(title, id);
    assert(r.subrange(r.len() - 3, r.len() as int) =~= ".md"@);
}

/// Saving then reading the saved path returns the note's content exactly,
/// for contents without carriage returns or a trailing newline and
/// single-line metadata fields.
pub proof fn lemma_save_read_round_trip(
    m0: Map<Seq<Seq<char>>, NodeView>,
    parent: Seq<Seq<char>>,
    raw_name: Seq<char>,
    overwrite: bool,
    fm: crate::models::front_matter::FrontMatter,
    content: Seq<char>,
)
    requires
        save_spec(m0, parent, raw_name, overwrite, crate::models::note::note_text(fm, content))
            is Saved,
        !fm.id@.contains('\n'),
        !fm.id@.contains('\r'),
        fm.title matches Option::Some(t) ==> !t@.contains('\n') && !t@.contains('\r'),
        !content.contains('\r'),
        content.len() > 0 ==> content.last() != '\n',
    ensures
        ({
            let outcome = save_spec(
                m0,
                parent,
                raw_name,
                overwrite,
                crate::models::note::note_text(fm, content),
            );
            let t = outcome->Saved_0;
            let m2 = outcome->Saved_1;
            &&& file_at(m2, t)
            &&& content_at(m2, t) == crate::models::note::note_text(fm, content)
            &&& text::joined_nl(
                crate::models::note::content_lines_of(text::lines_of(content_at(m2, t))),
            ) == content
        }),
{
    crate::models::note::lemma_note_text_round_trip(fm, content);
    let rendered = crate::models::note::note_text(fm, content);
    let outcome = save_spec(m0, parent, raw_name, overwrite, rendered);
    let t = outcome->Saved_0;
    let m2 = outcome->Saved_1;
    let m1opt = if parent.len() == 0 || m0.contains_key(parent) {
        Option::Some(m0)
    } else {
        ensure_dir_result(m0, parent, parent.len() as int)
    };
    let m1 = m1opt->Some_0;
    let stripped = strip_md(raw_name);
    let stem = strip_md(stripped);
    let fname = md_name(stem);
    if probe_file(m1, parent, stem) && overwrite {
        assert(outcome == save_write(m1, parent.push(fname), rendered));
        assert(m2 == m1.insert(t, NodeView::File(rendered)));
    } else if !probe_file(m1, parent, stem) && probe_dir(m1, parent, stem) && overwrite {
        assert(outcome == save_write(m1, parent.push(stem).push("index.md"@), rendered));
        assert(m2 == m1.insert(t, NodeView::File(rendered)));
    } else {
        assert(outcome == save_write(m1, parent.push(md_name(stripped)), rendered));
        assert(m2 == m1.insert(t, NodeView::File(rendered)));
    }
    assert(file_at(m2, t));
    assert(content_at(m2, t) == rendered);
}

/// After a successful save the probe finds exactly one interpretation of
/// the name: a file note or a directory note, never neither and never
/// both. Stated for a parent that already exists and a tree that does not
/// already carry both interpretations.
pub proof fn lemma_one_identity(
    m0: Map<Seq<Seq<char>>, NodeView>,
    parent: Seq<Seq<char>>,
    raw_name: Seq<char>,
    overwrite: bool,
    rendered: Seq<char>,
)
    requires
        tree_wf(m0),
        parent.len() == 0 || m0.contains_key(parent),
        strip_md(strip_md(raw_name)) == strip_md(raw_name),
        !(probe_file(m0, parent, strip_md(strip_md(raw_name))) && probe_dir(
            m0,
            parent,
            strip_md(strip_md(raw_name)),
        )),
        save_spec(m0, parent, raw_name, overwrite, rendered) is Saved,
    ensures
        ({
            let m2 = save_spec(m0, parent, raw_name, overwrite, rendered)->Saved_1;
            let stem = strip_md(strip_md(raw_name));
            &&& probe_file(m2, parent, stem) || probe_dir(m2, parent, stem)
            &&& !(probe_file(m2, parent, stem) && probe_dir(m2, parent, stem))
        }),
{
    let stem = strip_md(strip_md(raw_name));
    let stripped = strip_md(raw_name);
    let fname = md_name(stem);
    let m2 = save_spec(m0, parent, raw_name, overwrite, rendered)->Saved_1;
    lemma_md_clean();
    assert(stem == stripped);
    assert(fname.len() == stem.len() + 3);
    assert(parent.push(stem) != parent.push(fname)) by {
        if parent.push(stem) == parent.push(fname) {
            assert(parent.push(stem).last() == stem);
            assert(parent.push(fname).last() == fname);
        }
    }
    let idx = parent.push(stem).push("index.md"@);
    assert(idx != parent.push(fname)) by {
        assert(idx.len() == parent.len() + 2);
        assert(parent.push(fname).len() == parent.len() + 1);
    }
    if probe_file(m0, parent, stem) {
        assert(m2 == m0.insert(parent.push(fname), NodeView::File(rendered)));
        assert(probe_file(m2, parent, stem));
        assert(!probe_dir(m2, parent, stem));
    } else if probe_dir(m0, parent, stem) {
        assert(m2 == m0.insert(idx, NodeView::File(rendered)));
        assert(probe_dir(m2, parent, stem)) by {
            assert(parent.push(stem) != idx) by {
                assert(idx.len() == parent.len() + 2);
            }
        }
        assert(!probe_file(m2, parent, stem));
    } else {
        let target = parent.push(md_name(stripped));
        assert(m2 == m0.insert(target, NodeView::File(rendered)));
        assert(md_name(stripped) == fname);
        assert(probe_file(m2, parent, stem));
        assert(!probe_dir(m2, parent, stem));
    }
}


/// Appending the extension and taking the stem are inverse.
proof fn lemma_stem_of_md(a: Seq<char>)
    requires
        a.len() > 0,
    ensures
        stem_of(md_name(a)) == a,
        last_dot(md_name(a)) == a.len(),
{
    reveal_strlit(".md");
    let s = md_name(a);
    assert(s.len() == a.len() + 3);
    assert(s.last() == 'd');
    assert(s.drop_last() =~= a + seq!['.', 'm']);
    assert((a + seq!['.', 'm']).last() == 'm');
    assert((a + seq!['.', 'm']).drop_last() =~= a + seq!['.']);
    assert((a + seq!['.']).last() == '.');
    assert((a + seq!['.']).len() == a.len() + 1);
    assert(last_dot(a + seq!['.']) == (a + seq!['.']).len() - 1);
    assert(last_dot(a + seq!['.']) == a.len());
    assert(last_dot(a + seq!['.', 'm']) == a.len());
    assert(last_dot(s) == a.len());
    assert(s.take(a.len() as int) =~= a);
}

/// Promotion preserves content: saving a note and then a child below it
/// turns the note into a directory note whose root keeps the first
/// content, places the child beside it, and flips the probe to the
/// directory identity. Stated for fresh names; the child may not claim the
/// directory root note's own name.
pub proof fn lemma_promotion_preserves_content(
    m0: Map<Seq<Seq<char>>, NodeView>,
    a: Seq<char>,
    b: Seq<char>,
    x: Seq<char>,
    y: Seq<char>,
)
    requires
        tree_wf(m0),
        NottoPath::seg_wf(a),
        NottoPath::seg_wf(b),
        strip_md(a) == a,
        strip_md(b) == b,
        stem_of(a) == a,
        md_name(b) != "index.md"@,
        !m0.contains_key(seq![md_name(a)]),
        !m0.contains_key(seq![a]),
    ensures
        ({
            let o1 = save_spec(m0, Seq::empty(), a, false, x);
            let t1 = o1->Saved_0;
            let m1 = o1->Saved_1;
            &&& o1 is Saved
            &&& t1 == seq![md_name(a)]
            &&& ({
                let o2 = save_spec(m1, seq![a], b, false, y);
                let t2 = o2->Saved_0;
                let m2 = o2->Saved_1;
                &&& o2 is Saved
                &&& t2 == seq![a, md_name(b)]
                &&& file_at(m2, seq![a, "index.md"@]) && content_at(m2, seq![a, "index.md"@])
                    == x
                &&& file_at(m2, t2) && content_at(m2, t2) == y
                &&& probe_dir(m2, Seq::empty(), a) && !probe_file(m2, Seq::empty(), a)
            })
        }),
{
    lemma_md_clean();
    lemma_stem_of_md(a);
    lemma_stem_of_md(b);
    let mda = md_name(a);
    let mdb = md_name(b);
    let empty = Seq::<Seq<char>>::empty();
    // the first save probes a fresh root and writes the file note
    assert(!probe_file(m0, empty, a)) by {
        assert(empty.push(mda) =~= seq![mda]);
    }
    assert(!probe_dir(m0, empty, a)) by {
        assert(empty.push(a) =~= seq![a]);
    }
    assert(can_write(m0, seq![mda])) by {
        assert(seq![mda].drop_last() =~= empty);
    }
    assert(empty.push(md_name(strip_md(a))) =~= seq![mda]);
    let o1 = save_spec(m0, empty, a, false, x);
    assert(o1 == save_write(m0, seq![mda], x));
    let m1 = m0.insert(seq![mda], NodeView::File(x));
    assert(o1 == SaveOutcome::Saved(seq![mda], m1));
    // the second save first makes `a` a directory, promoting the file note
    assert(mda != a) by {
        assert(mda.len() == a.len() + 3);
    }
    assert(!m1.contains_key(seq![a]));
    let pa = seq![a];
    assert(ensure_dir_result(m1, pa, 0) == Option::Some(m1));
    assert(pa.take(1) =~= pa);
    assert(pa.drop_last() =~= empty);
    assert(pa.drop_last().push(md_name(stem_of(pa.last()))) =~= seq![mda]);
    assert(file_at(m1, seq![mda]));
    // the promotion itself, on the tree with the file note
    let r = seq![mda];
    assert(file_at(m1, r) && r.len() == 1);
    assert(content_at(m1, r) == x);
    let m1r = m1.remove(r);
    assert(m1r =~= m0);
    assert(stem_path(r) =~= pa) by {
        assert(r.drop_last() =~= empty);
        assert(r.last() == mda);
        assert(stem_of(mda) == a);
    }
    assert(md_sibling(r) =~= r) by {
        assert(strip_md(mda) == a) by {
            assert(mda.subrange(mda.len() - 3, mda.len() as int) =~= ".md"@);
            assert(mda.take(mda.len() - 3) =~= a);
        }
    }
    assert(!dir_at(m0, pa) && !file_at(m0, pa));
    assert(!file_at(m0, r));
    assert(mkdir_ok(m0, pa)) by {
        assert forall|k: int| 1 <= k <= pa.len() implies !file_at(m0, #[trigger] pa.take(k)) by {
            assert(pa.take(k) =~= pa);
        }
    }
    let mdirs = with_dirs(m0, pa);
    assert(mdirs == m0.insert(pa, NodeView::Dir)) by {
        assert(pa.drop_last() =~= empty);
        assert(with_dirs(m0, empty) == m0);
    }
    let idx = pa.push("index.md"@);
    assert(!m0.contains_key(idx)) by {
        lemma_no_orphans(m0, pa, "index.md"@);
    }
    assert(can_write(mdirs, idx)) by {
        assert(idx.drop_last() =~= pa);
    }
    let mp = mdirs.insert(idx, NodeView::File(x));
    assert(promote_result(m1, r) == Option::Some(mp));
    assert(ensure_one_result(m1, pa) == Option::Some(mp));
    assert(ensure_dir_result(m1, pa, 1) == Option::Some(mp));
    // the child's name is free under the new directory
    assert(!m0.contains_key(pa.push(mdb))) by {
        lemma_no_orphans(m0, pa, mdb);
    }
    assert(!m0.contains_key(pa.push(b))) by {
        lemma_no_orphans(m0, pa, b);
    }
    assert(!probe_file(mp, pa, b)) by {
        assert(pa.push(mdb) != idx) by {
            if pa.push(mdb) == idx {
                assert(pa.push(mdb).last() == mdb);
                assert(idx.last() == "index.md"@);
            }
        }
        assert(pa.push(mdb) != pa) by {
            assert(pa.push(mdb).len() == pa.len() + 1);
        }
        assert(pa.push(mdb) != r) by {
            assert(pa.push(mdb).len() == 2);
        }
    }
    assert(!probe_dir(mp, pa, b)) by {
        assert(pa.push(b) != idx) by {
            if pa.push(b) == idx {
                assert(pa.push(b).last() == b);
                assert(idx.last() == "index.md"@);
                assert(b == "index.md"@);
                reveal_strlit("index.md");
                reveal_strlit(".md");
                assert(b.len() == 8);
                assert(b.subrange(5, 8) =~= ".md"@);
                assert(strip_md(b) == b.take(5));
                assert(strip_md(b).len() == 5);
            }
        }
        assert(pa.push(b) != pa) by {
            assert(pa.push(b).len() == pa.len() + 1);
        }
        assert(pa.push(b) != r) by {
            assert(pa.push(b).len() == 2);
        }
    }
    let t2 = pa.push(md_name(strip_md(b)));
    assert(t2 =~= seq![a, mdb]);
    assert(can_write(mp, t2)) by {
        assert(t2.drop_last() =~= pa);
        assert(dir_at(mp, pa)) by {
            assert(pa != idx) by {
                assert(idx.len() == 2);
            }
        }
        assert(!(mp.contains_key(t2) && mp[t2] is Dir)) by {
            assert(!probe_file(mp, pa, b));
            assert(pa.push(mdb) == t2);
        }
    }
    let o2 = save_spec(m1, pa, b, false, y);
    assert(o2 == save_write(mp, t2, y));
    let m2 = mp.insert(t2, NodeView::File(y));
    assert(o2 == SaveOutcome::Saved(t2, m2));
    // the directory root note keeps the first content
    assert(t2 != idx) by {
        assert(t2.last() == mdb && idx.last() == "index.md"@);
    }
    assert(file_at(m2, idx) && content_at(m2, idx) == x);
    assert(idx =~= seq![a, "index.md"@]);
    assert(file_at(m2, t2) && content_at(m2, t2) == y);
    // and the probe now reports the directory identity
    assert(probe_dir(m2, empty, a)) by {
        assert(empty.push(a) =~= pa);
        assert(pa != idx && pa != t2) by {
            assert(idx.len() == 2 && t2.len() == 2);
        }
        assert(pa.push("index.md"@) =~= idx);
    }
    assert(!probe_file(m2, empty, a)) by {
        assert(empty.push(mda) =~= r);
        assert(!m2.contains_key(r)) by {
            assert(r != idx) by {
                assert(r.len() == 1);
            }
            assert(r != t2) by {
                assert(r.len() == 1);
            }
            assert(r != pa) by {
                if r == pa {
                    assert(r.last() == mda && pa.last() == a);
                }
            }
            assert(!m0.contains_key(r));
        }
    }
}

} // verus!





