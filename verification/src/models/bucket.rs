use vstd::prelude::*;
use crate::fs_tree::{FsTree, NodeView};
use crate::io::paths::NottoPath;
use crate::models::front_matter::FrontMatter;
use crate::models::note::Note;
use crate::models::note;
use crate::text;
use crate::writer::{SaveOutcome, Writer, file_name_spec, save_spec};

verus! {

/// One pending copy: the temporary file an editor left behind, and where
/// the note it holds belongs.
pub struct BucketItem {
    pub context: String,
    pub file: String,
    pub file_name: Option<String>,
    pub dest_path: NottoPath,
}

/// The pending tasks for copying note files out of the temporary
/// directory after an editor crashed but left its file.
pub struct Bucket {
    pub items: Vec<BucketItem>,
}

/// What one replayed item does to the tree: an unreadable file changes
/// nothing; a readable one is parsed with the metadata `fm`, named by the
/// item or derived from the note, and saved without leave to overwrite.
/// `wrote` records whether the save went through; a failed save may still
/// have made directories on the way, so only a successful one pins the
/// next tree.
pub open spec fn item_step(
    m: Map<Seq<Seq<char>>, NodeView>,
    item: BucketItem,
    text: Option<String>,
    fm: FrontMatter,
    wrote: bool,
    m2: Map<Seq<Seq<char>>, NodeView>,
) -> bool {
    match text {
        Option::None => !wrote && m2 == m,
        Option::Some(t) => {
            let body = text::joined_nl(note::content_lines_of(text::lines_of(t@)));
            let name = match item.file_name {
                Option::Some(f) => f@,
                Option::None => file_name_spec(note::parsed_title(t@), fm.id@),
            };
            &&& fm.title matches Option::Some(tt) && tt@ == note::parsed_title(t@)
            &&& if name.contains('/') {
                !wrote && m2 == m
            } else {
                let o = save_spec(m, item.dest_path@, name, false, note::note_text(fm, body));
                &&& wrote <==> o is Saved
                &&& (o matches SaveOutcome::Saved(t2, mm) ==> m2 == mm)
            }
        },
    }
}

/// The whole replay: a chain of trees from the first to the last, one
/// item step each, under the metadata each parse drew.
pub open spec fn bucket_chain(
    m_first: Map<Seq<Seq<char>>, NodeView>,
    m_last: Map<Seq<Seq<char>>, NodeView>,
    items: Seq<BucketItem>,
    texts: Seq<Option<String>>,
    written: Seq<bool>,
    fms: Seq<FrontMatter>,
    ms: Seq<Map<Seq<Seq<char>>, NodeView>>,
) -> bool {
    &&& fms.len() == items.len()
    &&& ms.len() == items.len() + 1
    &&& ms[0] == m_first
    &&& ms[items.len() as int] == m_last
    &&& written.len() == items.len()
    &&& forall|i: int|
        0 <= i < items.len() ==> #[trigger] item_step(
            ms[i],
            items[i],
            texts[i],
            fms[i],
            written[i],
            ms[i + 1],
        )
}

impl Bucket {
    /// Replays the pending copies against one base's tree: `texts[i]` is
    /// what could be read back for item `i`, and the result records which
    /// items were written, so their temporary files can be removed. Each
    /// item is one step of the chain: parsed, named, and saved without
    /// leave to overwrite; failures leave the remaining items running.
    pub fn process(
        &self,
        writer: &Writer,
        fs: &mut FsTree,
        texts: &Vec<Option<String>>,
    ) -> (written: Vec<bool>)
        requires
            old(fs).wf(),
            texts@.len() == self.items@.len(),
            forall|i: int| 0 <= i < self.items@.len() ==> (#[trigger] self.items@[i]).dest_path.wf(),
        ensures
            final(fs).wf(),
            written@.len() == self.items@.len(),
            exists|fms: Seq<FrontMatter>, ms: Seq<Map<Seq<Seq<char>>, NodeView>>| #[trigger]
                bucket_chain(
                    old(fs).tree(),
                    final(fs).tree(),
                    self.items@,
                    texts@,
                    written@,
                    fms,
                    ms,
                ),
    {
        let mut written: Vec<bool> = Vec::new();
        let ghost mut fms: Seq<FrontMatter> = Seq::empty();
        let ghost mut ms: Seq<Map<Seq<Seq<char>>, NodeView>> = seq![old(fs).tree()];
        let n = self.items.len();
        let mut i: usize = 0;
        while i < n
            invariant
                0 <= i <= n,
                n == self.items@.len(),
                n == texts@.len(),
                fs.wf(),
                written@.len() == i,
                fms.len() == i,
                ms.len() == i + 1,
                ms[0] == old(fs).tree(),
                ms[i as int] == fs.tree(),
                forall|k: int|
                    0 <= k < i ==> #[trigger] item_step(
                        ms[k],
                        self.items@[k],
                        texts@[k],
                        fms[k],
                        written@[k],
                        ms[k + 1],
                    ),
                forall|k: int|
                    0 <= k < n ==> (#[trigger] self.items@[k]).dest_path.wf(),
            decreases n - i,
        {
            let item = &self.items[i];
            let ok: bool;
            let ghost fm_used: FrontMatter;
            match &texts[i] {
                Some(txt) => {
                    let note_v = Note::from_text(txt.as_str());
                    proof {
                        fm_used = note_v.front_matter;
                    }
                    let file_name = match &item.file_name {
                        Some(f) => f.clone(),
                        None => writer.get_file_name_from_note(&note_v),
                    };
                    let chars = text::str_chars(file_name.as_str());
                    let mut has_sep = false;
                    let cn = chars.len();
                    let mut ci: usize = 0;
                    while ci < cn
                        invariant
                            0 <= ci <= cn,
                            cn == chars@.len(),
                            has_sep == exists|j: int| 0 <= j < ci && chars@[j] == '/',
                        decreases cn - ci,
                    {
                        if chars[ci] == '/' {
                            has_sep = true;
                        }
                        proof {
                            if has_sep && !(exists|j: int| 0 <= j < ci && chars@[j] == '/') {
                                assert(chars@[ci as int] == '/');
                            }
                        }
                        ci = ci + 1;
                    }
                    if has_sep {
                        proof {
                            assert(file_name@.contains('/')) by {
                                let j = choose|j: int| 0 <= j < cn && chars@[j] == '/';
                                assert(file_name@[j] == '/');
                            }
                        }
                        ok = false;
                    } else {
                        proof {
                            if file_name@.contains('/') {
                                let j = choose|j: int|
                                    0 <= j < file_name@.len() && file_name@[j] == '/';
                                assert(chars@[j] == '/');
                            }
                        }
                        let ghost cg = note_v.content@;
                        match writer.save_note_at(fs, note_v, &item.dest_path, &file_name, false) {
                            Ok(_) => {
                                ok = true;
                            },
                            Err(_) => {
                                ok = false;
                            },
                        }
                    }
                },
                None => {
                    proof {
                        fm_used = vstd::pervasive::arbitrary();
                    }
                    ok = false;
                },
            }
            proof {
                assert(item_step(
                    ms[i as int],
                    self.items@[i as int],
                    texts@[i as int],
                    fm_used,
                    ok,
                    fs.tree(),
                ));
                fms = fms.push(fm_used);
                ms = ms.push(fs.tree());
            }
            written.push(ok);
            i = i + 1;
        }
        proof {
            assert(bucket_chain(
                old(fs).tree(),
                fs.tree(),
                self.items@,
                texts@,
                written@,
                fms,
                ms,
            ));
        }
        written
    }
}

} // verus!
