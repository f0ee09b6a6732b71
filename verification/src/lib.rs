mod bridge;
pub mod errors;
pub mod finder;
pub mod fs_tree;
pub mod io;
pub mod models;
pub mod seqviews;
pub mod text;
pub mod writer;

use vstd::prelude::*;
use crate::errors::NottoError;
use crate::finder::{FindCondition, Finder, NoteFindMessage};
use crate::fs_tree::{FsTree, NodeView, content_at, file_at};
use crate::io::browser::PathEntry;
use crate::io::paths::NottoPath;
use crate::io::paths;
use crate::models::config::{Config, Resolution, resolve_field};
use crate::models::dates::Date;
use crate::models::front_matter;
use crate::models::front_matter::FrontMatter;
use crate::models::note::Note;
use crate::models::note;
use crate::text as textutil;
use crate::writer::{
    SaveOutcome, Writer, ensure_dir_result, file_name_spec, md_name, probe_dir, probe_file,
    save_spec, strip_md,
};

verus! {

/// The front door of the library: configuration, the in-memory image of
/// the note tree, and the operations the command layer drives.
pub struct Notto {
    pub config: Config,
    pub fs: FsTree,
}

/// Where a named destination ends when every step succeeds: the parents
/// became directories with promotion, an existing note of the name was
/// reused with the tree left as the directory walk made it, and a fresh
/// name received a new file note.
pub open spec fn named_note_ok(
    m0: Map<Seq<Seq<char>>, NodeView>,
    m2: Map<Seq<Seq<char>>, NodeView>,
    segs: Seq<Seq<char>>,
    p: Seq<Seq<char>>,
) -> bool {
    let parent = segs.drop_last();
    let name = segs.last();
    let stem = strip_md(name);
    &&& segs.len() > 0
    &&& ensure_dir_result(m0, parent, parent.len() as int) matches Option::Some(m1) && ({
        if probe_file(m1, parent, stem) {
            p == parent.push(md_name(stem)) && m2 == m1
        } else if probe_dir(m1, parent, stem) {
            p == parent.push(stem).push("index.md"@) && m2 == m1
        } else {
            p == parent.push(md_name(stem)) && file_at(m2, p)
        }
    })
}

/// Why a named destination fails: it names no segment, a directory could
/// not be made, or the fresh note's save did not go through. Which way a
/// save goes does not depend on the rendered text, so the empty text
/// stands in for it.
pub open spec fn named_note_err(
    m0: Map<Seq<Seq<char>>, NodeView>,
    segs: Seq<Seq<char>>,
    e: NottoError,
) -> bool {
    let parent = segs.drop_last();
    let name = segs.last();
    let stem = strip_md(name);
    ||| (segs.len() == 0 && e is CreateNoteError)
    ||| (segs.len() > 0 && ensure_dir_result(m0, parent, parent.len() as int) is None && !(
    e is NoteExists))
    ||| (segs.len() > 0 && (ensure_dir_result(m0, parent, parent.len() as int) matches
        Option::Some(m1) && ({
        &&& !probe_file(m1, parent, stem)
        &&& !probe_dir(m1, parent, stem)
        &&& !(save_spec(m1, parent, name, false, Seq::empty()) is Saved)
    })))
}

/// A note saved from editor text: the text parses to this metadata block
/// and body, the file name derives from the parsed title and identifier,
/// and the save lands at the base root without leave to overwrite.
pub open spec fn derived_note_ok(
    m0: Map<Seq<Seq<char>>, NodeView>,
    m2: Map<Seq<Seq<char>>, NodeView>,
    text_v: Seq<char>,
    fm: FrontMatter,
    p: Seq<Seq<char>>,
) -> bool {
    let lines = textutil::lines_of(text_v);
    let body = textutil::joined_nl(note::content_lines_of(lines));
    &&& fm.title matches Option::Some(t) && t@ == note::parsed_title(text_v)
    &&& front_matter::fm_fields_match(fm.id@, fm.date, fm.time, note::fm_lines_of(lines))
    &&& ({
        let nm = file_name_spec(note::parsed_title(text_v), fm.id@);
        &&& !nm.contains('/')
        &&& save_spec(m0, Seq::empty(), nm, false, note::note_text(fm, body)) matches
            SaveOutcome::Saved(t2, mm) && p == t2 && m2 == mm
    })
}

/// One way an unnamed note's save can fail, for the metadata the parse
/// drew: the derived name is unusable as a segment, or the save did not
/// go through.
pub open spec fn derived_note_attempt(
    m0: Map<Seq<Seq<char>>, NodeView>,
    text_v: Seq<char>,
    fm: FrontMatter,
) -> bool {
    &&& fm.title matches Option::Some(t) && t@ == note::parsed_title(text_v)
    &&& ({
        let nm = file_name_spec(note::parsed_title(text_v), fm.id@);
        nm.contains('/') || !(save_spec(m0, Seq::empty(), nm, false, Seq::empty()) is Saved)
    })
}

/// Why an unnamed note fails: no text, or a failed attempt as above.
pub open spec fn derived_note_err(
    m0: Map<Seq<Seq<char>>, NodeView>,
    text_v: Seq<char>,
    e: NottoError,
) -> bool {
    ||| (text_v.len() == 0 && e is CreateNoteError)
    ||| (text_v.len() > 0 && exists|fm: FrontMatter| #[trigger] derived_note_attempt(
        m0,
        text_v,
        fm,
    ))
}

/// The name a journal entry takes: the last segment of the given name, or
/// the directory root note's name when none is given or none survives.
pub open spec fn journal_leaf(name: Option<String>) -> Seq<char> {
    match name {
        Option::Some(n) => {
            let s = paths::path_segments_of(n@);
            if s.len() == 0 {
                "index.md"@
            } else {
                s.last()
            }
        },
        Option::None => "index.md"@,
    }
}

/// A date's year/month/day segments followed by the entry's name, the
/// numbers rendered in plain decimal.
pub open spec fn journal_segs(d: Date, leaf: Seq<char>) -> Seq<Seq<char>> {
    seq![
        textutil::dec_digits(d.year as nat),
        textutil::dec_digits(d.month as nat),
        textutil::dec_digits(d.day as nat),
        leaf,
    ]
}

impl Notto {
    /// A fresh engine over an empty image; the surrounding program seeds
    /// the image from the disk before use.
    pub fn new(config: Config) -> (r: Notto)
        ensures
            r.config == config,
            r.fs.wf(),
            r.fs.tree() =~= Map::<Seq<Seq<char>>, NodeView>::empty(),
            r.fs.pending() =~= Seq::<crate::fs_tree::FsAction>::empty(),
    {
        Notto { config, fs: FsTree::new() }
    }

    /// Resolves a note path to its physical location under the configured
    /// notes directory, for the surrounding program to open in an editor.
    pub fn open_by_path(&self, note_path: &NottoPath) -> (r: Result<NottoPath, NottoError>)
        ensures
            match r {
                Result::Ok(p) => resolve_field(
                    self.config.contexts_view(),
                    self.config.current_context(),
                    false,
                ) matches Resolution::Found(d) && p@ == paths::path_segments_of(d) + note_path@,
                Result::Err(_) => !(resolve_field(
                    self.config.contexts_view(),
                    self.config.current_context(),
                    false,
                ) is Found),
            },
    {
        let dir = match self.config.get_notes_dir() {
            Ok(d) => d,
            Err(e) => {
                return Err(e);
            },
        };
        let base = PathEntry::pathbuf_to_string(dir.as_str());
        Ok(base.concat(note_path))
    }

    /// Searches the whole tree: one message per matching note and the
    /// terminal mark last, as the finder promises. Fails only when no
    /// notes directory resolves from the configuration.
    pub fn find(&self, conditions: Vec<FindCondition>) -> (r: Result<
        Vec<NoteFindMessage>,
        NottoError,
    >)
        requires
            self.fs.wf(),
        ensures
            r is Err ==> !(resolve_field(
                self.config.contexts_view(),
                self.config.current_context(),
                false,
            ) is Found),
            (r matches Result::Ok(msgs) ==> {
                &&& msgs@.len() >= 1
                &&& msgs@.last() is Finish
                &&& forall|i: int|
                    0 <= i < msgs@.len() - 1 ==> ((#[trigger] msgs@[i]) matches
                        NoteFindMessage::Result(res) && res.path.wf() && file_at(
                        self.fs.tree(),
                        res.path@,
                    ) && finder::all_match(
                        finder::note_body(content_at(self.fs.tree(), res.path@)),
                        conditions@,
                    ))
                &&& forall|q: Seq<Seq<char>>|
                    #[trigger] file_at(self.fs.tree(), q) && q.len() > 0 && finder::all_match(
                        finder::note_body(content_at(self.fs.tree(), q)),
                        conditions@,
                    ) ==> exists|i: int|
                        0 <= i < msgs@.len() - 1 && ((#[trigger] msgs@[i]) matches
                            NoteFindMessage::Result(res) && res.path@ == q)
            }),
    {
        let dir = match self.config.get_notes_dir() {
            Ok(d) => d,
            Err(e) => {
                return Err(e);
            },
        };
        let base = PathEntry::pathbuf_to_string(dir.as_str());
        let finder_v = Finder::new(base);
        let root = NottoPath::new();
        let r = finder_v.find(&self.fs, &root, conditions);
        proof {
            assert(root@.len() == 0);
            assert(r is Ok);
            let msgs = r->Ok_0;
            assert forall|q: Seq<Seq<char>>|
                #[trigger] file_at(self.fs.tree(), q) && q.len() > 0 && finder::all_match(
                    finder::note_body(content_at(self.fs.tree(), q)),
                    conditions@,
                ) implies exists|i: int|
                0 <= i < msgs@.len() - 1 && ((#[trigger] msgs@[i]) matches
                    NoteFindMessage::Result(res) && res.path@ == q) by {
                assert(finder::under(root@, q)) by {
                    assert(q.take(0) =~= root@);
                }
            }
        }
        r
    }

    /// Creates the named note, or resolves where it already lives. The
    /// path names the note; missing parents are created with promotion;
    /// an existing note is opened in place, a fresh name is saved as an
    /// empty note. Without a destination, the text the editor produced is
    /// saved under a name derived from its title. Returns the path for
    /// the surrounding program to open.
    pub fn create_or_open_note_at(
        &mut self,
        dest_path: Option<String>,
        editor_text: String,
    ) -> (r: Result<NottoPath, NottoError>)
        requires
            old(self).fs.wf(),
        ensures
            final(self).fs.wf(),
            final(self).config == old(self).config,
            match r {
                Result::Ok(p) => p.wf() && match dest_path {
                    Option::Some(d) => named_note_ok(
                        old(self).fs.tree(),
                        final(self).fs.tree(),
                        paths::path_segments_of(d@),
                        p@,
                    ),
                    Option::None => editor_text@.len() > 0 && exists|fm: FrontMatter| #[trigger]
                        derived_note_ok(
                            old(self).fs.tree(),
                            final(self).fs.tree(),
                            editor_text@,
                            fm,
                            p@,
                        ),
                },
                Result::Err(e) => match dest_path {
                    Option::Some(d) => named_note_err(
                        old(self).fs.tree(),
                        paths::path_segments_of(d@),
                        e,
                    ) && (paths::path_segments_of(d@).len() == 0 ==> *final(self) == *old(self)),
                    Option::None => derived_note_err(old(self).fs.tree(), editor_text@, e) && (
                    editor_text@.len() == 0 ==> *final(self) == *old(self)),
                },
            },
    {
        let writer = Writer::new(NottoPath::new());
        match dest_path {
            Some(d) => {
                let mut full = NottoPath::new();
                full.push(d.as_str());
                if full.is_empty() {
                    return Err(
                        NottoError::CreateNoteError {
                            message: "the destination names no note".to_owned(),
                        },
                    );
                }
                let parent = full.parent();
                let name = full.last_seg().clone();
                if full.seg_count() > 1 {
                    match writer.create_dir_all(&mut self.fs, &parent) {
                        Ok(_) => {},
                        Err(e) => {
                            return Err(e);
                        },
                    }
                } else {
                    proof {
                        assert(parent@ =~= Seq::<Seq<char>>::empty());
                        assert(ensure_dir_result(
                            old(self).fs.tree(),
                            parent@,
                            parent@.len() as int,
                        ) == Option::Some(old(self).fs.tree()));
                    }
                }
                proof {
                    assert(!name@.contains('/')) by {
                        assert(NottoPath::seg_wf(full@.last()));
                    }
                }
                let ghost m1 = self.fs.tree();
                match writer.note_file_exists(&self.fs, &parent, &name) {
                    Some(t) => match t {
                        crate::writer::NoteFileType::File(f) => {
                            proof {
                                crate::writer::lemma_strip_parts(name@);
                            }
                            Ok(parent.join_seg(&f))
                        },
                        crate::writer::NoteFileType::Directory(dn) => {
                            proof {
                                crate::writer::lemma_strip_parts(name@);
                            }
                            let index_name = "index.md".to_owned();
                            proof {
                                crate::writer::lemma_index_wf();
                            }
                            Ok(parent.join_seg(&dn).join_seg(&index_name))
                        },
                    },
                    None => {
                        let fm = front_matter::default_front_matter();
                        let note_v = Note::new(fm, "".to_owned());
                        let ghost fmg = note_v.front_matter;
                        let ghost cg = note_v.content@;
                        match writer.save_note_at(&mut self.fs, note_v, &parent, &name, false) {
                            Ok(p) => {
                                proof {
                                    assert(file_at(self.fs.tree(), p@));
                                }
                                Ok(p)
                            },
                            Err(e) => {
                                proof {
                                    crate::writer::lemma_save_outcome_shape(
                                        m1,
                                        parent@,
                                        name@,
                                        false,
                                        note::note_text(fmg, cg),
                                        Seq::empty(),
                                    );
                                }
                                Err(e)
                            },
                        }
                    },
                }
            },
            None => {
                if editor_text.as_str().unicode_len() == 0 {
                    return Err(
                        NottoError::CreateNoteError {
                            message: "no content in the note, not saving".to_owned(),
                        },
                    );
                }
                let note_v = Note::from_text(editor_text.as_str());
                let file_name = writer.get_file_name_from_note(&note_v);
                let ghost fmg = note_v.front_matter;
                let ghost cg = note_v.content@;
                let chars = textutil::str_chars(file_name.as_str());
                let cn = chars.len();
                let mut has_sep = false;
                let mut ci: usize = 0;
                while ci < cn
                    invariant
                        0 <= ci <= cn,
                        cn == chars@.len(),
                        has_sep == exists|j: int| 0 <= j < ci && chars@[j] == '/',
                    decreases cn - ci,
                {
                    if chars[ci] == '/' {
                        has_sep = true;
                    }
                    proof {
                        if has_sep && !(exists|j: int| 0 <= j < ci && chars@[j] == '/') {
                            assert(chars@[ci as int] == '/');
                        }
                    }
                    ci = ci + 1;
                }
                if has_sep {
                    proof {
                        assert(file_name@.contains('/')) by {
                            let j = choose|j: int| 0 <= j < cn && chars@[j] == '/';
                            assert(file_name@[j] == '/');
                        }
                        assert(derived_note_attempt(old(self).fs.tree(), editor_text@, fmg));
                    }
                    return Err(
                        NottoError::CreateNoteError {
                            message: "the derived name is unusable".to_owned(),
                        },
                    );
                }
                proof {
                    if file_name@.contains('/') {
                        let j = choose|j: int|
                            0 <= j < file_name@.len() && file_name@[j] == '/';
                        assert(chars@[j] == '/');
                    }
                }
                let root = NottoPath::new();
                match writer.save_note_at(&mut self.fs, note_v, &root, &file_name, false) {
                    Ok(p) => {
                        proof {
                            assert(file_at(self.fs.tree(), p@));
                            assert(derived_note_ok(
                                old(self).fs.tree(),
                                self.fs.tree(),
                                editor_text@,
                                fmg,
                                p@,
                            ));
                        }
                        Ok(p)
                    },
                    Err(e) => {
                        proof {
                            crate::writer::lemma_save_outcome_shape(
                                old(self).fs.tree(),
                                root@,
                                file_name@,
                                false,
                                note::note_text(fmg, cg),
                                Seq::empty(),
                            );
                            assert(derived_note_attempt(old(self).fs.tree(), editor_text@, fmg));
                        }
                        Err(e)
                    },
                }
            },
        }
    }

    /// Creates or opens a journal note under a year/month/day hierarchy
    /// for today, named by the last segment of the given name, or by the
    /// directory root note when none is given: exactly a named create at
    /// the clock's date path.
    pub fn create_journal_entry(
        &mut self,
        name: Option<String>,
        editor_text: String,
    ) -> (r: Result<NottoPath, NottoError>)
        requires
            old(self).fs.wf(),
        ensures
            final(self).fs.wf(),
            final(self).config == old(self).config,
            match r {
                Result::Ok(p) => p.wf() && exists|d: Date| #[trigger]
                    d.wf() && named_note_ok(
                        old(self).fs.tree(),
                        final(self).fs.tree(),
                        journal_segs(d, journal_leaf(name)),
                        p@,
                    ),
                Result::Err(e) => exists|d: Date| #[trigger]
                    d.wf() && named_note_err(
                        old(self).fs.tree(),
                        journal_segs(d, journal_leaf(name)),
                        e,
                    ),
            },
    {
        let ghost nameg = name;
        let (today, _) = crate::bridge::now_date_time();
        let note_name: String = match name {
            Some(n) => {
                let mut parsed = NottoPath::new();
                parsed.push(n.as_str());
                if parsed.is_empty() {
                    "index.md".to_owned()
                } else {
                    parsed.last_seg().clone()
                }
            },
            None => "index.md".to_owned(),
        };
        proof {
            assert(note_name@ == journal_leaf(nameg));
            assert(NottoPath::seg_wf(journal_leaf(nameg))) by {
                crate::writer::lemma_index_wf();
            }
        }
        let mut path_chars: Vec<char> = Vec::new();
        textutil::push_dec(today.year, &mut path_chars);
        path_chars.push('/');
        textutil::push_dec(today.month, &mut path_chars);
        path_chars.push('/');
        textutil::push_dec(today.day, &mut path_chars);
        path_chars.push('/');
        let mut name_chars = textutil::str_chars(note_name.as_str());
        path_chars.append(&mut name_chars);
        let dest = textutil::chars_to_string(&path_chars);
        proof {
            assert(dest@ =~= textutil::dec_digits(today.year as nat) + seq!['/'] + (
            textutil::dec_digits(today.month as nat) + seq!['/'] + (textutil::dec_digits(
                today.day as nat,
            ) + seq!['/'] + note_name@)));
            lemma_journal_path(today, note_name@, dest@);
        }
        let r = self.create_or_open_note_at(Some(dest), editor_text);
        proof {
            assert(today.wf());
            if r is Ok {
                assert(named_note_ok(
                    old(self).fs.tree(),
                    self.fs.tree(),
                    journal_segs(today, journal_leaf(nameg)),
                    (r->Ok_0)@,
                ));
            } else {
                assert(named_note_err(
                    old(self).fs.tree(),
                    journal_segs(today, journal_leaf(nameg)),
                    r->Err_0,
                ));
            }
        }
        r
    }
}

/// A rendered decimal number is a non-empty, separator-free segment.
proof fn lemma_dec_seg(n: nat)
    ensures
        textutil::dec_digits(n).len() >= 1,
        !textutil::dec_digits(n).contains('/'),
{
    textutil::lemma_dec_digits_ascii(n);
    if textutil::dec_digits(n).contains('/') {
        let k = choose|k: int|
            0 <= k < textutil::dec_digits(n).len() && textutil::dec_digits(n)[k] == '/';
        assert(textutil::is_digit(textutil::dec_digits(n)[k]));
    }
}

/// The composed date path splits back into its four segments.
proof fn lemma_journal_path(d: Date, leaf: Seq<char>, dest: Seq<char>)
    requires
        NottoPath::seg_wf(leaf),
        dest == textutil::dec_digits(d.year as nat) + seq!['/'] + (textutil::dec_digits(
            d.month as nat,
        ) + seq!['/'] + (textutil::dec_digits(d.day as nat) + seq!['/'] + leaf)),
    ensures
        paths::path_segments_of(dest) == journal_segs(d, leaf),
{
    lemma_dec_seg(d.year as nat);
    lemma_dec_seg(d.month as nat);
    lemma_dec_seg(d.day as nat);
    let yd = textutil::dec_digits(d.year as nat);
    let md = textutil::dec_digits(d.month as nat);
    let dd = textutil::dec_digits(d.day as nat);
    let t2 = md + seq!['/'] + (dd + seq!['/'] + leaf);
    let t3 = dd + seq!['/'] + leaf;
    assert(dest =~= yd + seq!['/'] + t2);
    paths::lemma_segments_chunk(yd, t2);
    assert(t2 =~= md + seq!['/'] + t3);
    paths::lemma_segments_chunk(md, t3);
    assert(t3 =~= dd + seq!['/'] + leaf);
    paths::lemma_segments_chunk(dd, leaf);
    paths::lemma_segments_single(leaf);
    assert(paths::path_segments_of(dest) =~= journal_segs(d, leaf));
}

} // verus!
