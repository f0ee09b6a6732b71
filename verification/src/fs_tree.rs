use vstd::prelude::*;
use crate::errors::NottoError;
use crate::io::paths::NottoPath;

verus! {

broadcast use crate::seqviews::lemma_segments_deep_view;

/// What a tree holds at one path: a directory, or a file with its text.
pub enum NodeView {
    Dir,
    File(Seq<char>),
}

/// One physical step that a caller replays onto the real disk, in order.
pub enum FsAction {
    MakeDir(NottoPath),
    WriteFile(NottoPath, String),
    MoveFile(NottoPath, NottoPath),
}

enum FsNode {
    Dir,
    File(String),
}

struct FsEntry {
    path: NottoPath,
    node: FsNode,
}

/// The in-memory image of the note tree under the base directory. All
/// engine logic runs against this image; the pending actions record what
/// must be replayed onto the disk to keep it in step.
pub struct FsTree {
    entries: Vec<FsEntry>,
    log: Vec<FsAction>,
}

// ---------------------------------------------------------------------------
// Spec-level vocabulary over the abstract tree
// ---------------------------------------------------------------------------

/// A directory position: the root, or a Dir node.
pub open spec fn dir_at(m: Map<Seq<Seq<char>>, NodeView>, p: Seq<Seq<char>>) -> bool {
    p.len() == 0 || (m.contains_key(p) && m[p] is Dir)
}

/// A file position.
pub open spec fn file_at(m: Map<Seq<Seq<char>>, NodeView>, p: Seq<Seq<char>>) -> bool {
    m.contains_key(p) && m[p] is File
}

/// The text of the file at `p`.
pub open spec fn content_at(m: Map<Seq<Seq<char>>, NodeView>, p: Seq<Seq<char>>) -> Seq<char> {
    match m[p] {
        NodeView::File(c) => c,
        NodeView::Dir => Seq::empty(),
    }
}

/// A file may be created or overwritten at `p`: below a directory, and not
/// shadowing a directory.
pub open spec fn can_write(m: Map<Seq<Seq<char>>, NodeView>, p: Seq<Seq<char>>) -> bool {
    p.len() > 0 && dir_at(m, p.drop_last()) && !(m.contains_key(p) && m[p] is Dir)
}

/// Directories may be created along the whole of `p`: no prefix is a file.
pub open spec fn mkdir_ok(m: Map<Seq<Seq<char>>, NodeView>, p: Seq<Seq<char>>) -> bool {
    forall|k: int| 1 <= k <= p.len() ==> !file_at(m, #[trigger] p.take(k))
}

/// The tree with directories added at every missing prefix of `p`.
pub open spec fn with_dirs(m: Map<Seq<Seq<char>>, NodeView>, p: Seq<Seq<char>>) -> Map<
    Seq<Seq<char>>,
    NodeView,
>
    decreases p.len(),
{
    if p.len() == 0 {
        m
    } else {
        let m2 = with_dirs(m, p.drop_last());
        if m2.contains_key(p) {
            m2
        } else {
            m2.insert(p, NodeView::Dir)
        }
    }
}

/// A file may be moved from `from` to `to`.
pub open spec fn can_move(
    m: Map<Seq<Seq<char>>, NodeView>,
    from: Seq<Seq<char>>,
    to: Seq<Seq<char>>,
) -> bool {
    file_at(m, from) && to.len() > 0 && dir_at(m, to.drop_last()) && !(m.contains_key(to)
        && m[to] is Dir)
}

/// Well-formedness of an abstract tree: no node at the root, well-formed
/// segments, every non-root node under a directory, and finitely many nodes.
pub open spec fn tree_wf(m: Map<Seq<Seq<char>>, NodeView>) -> bool {
    &&& m.dom().finite()
    &&& !m.contains_key(Seq::empty())
    &&& forall|p: Seq<Seq<char>>| #[trigger]
        m.contains_key(p) ==> p.len() >= 1 && NottoPath::path_wf(p)
    &&& forall|p: Seq<Seq<char>>| #[trigger] m.contains_key(p) && p.len() > 1 ==> dir_at(
        m,
        p.drop_last(),
    )
}

spec fn node_view(n: FsNode) -> NodeView {
    match n {
        FsNode::Dir => NodeView::Dir,
        FsNode::File(s) => NodeView::File(s@),
    }
}

spec fn entries_has(es: Seq<FsEntry>, p: Seq<Seq<char>>) -> bool {
    exists|i: int| 0 <= i < es.len() && #[trigger] es[i].path@ == p
}

spec fn entries_index(es: Seq<FsEntry>, p: Seq<Seq<char>>) -> int {
    choose|i: int| 0 <= i < es.len() && #[trigger] es[i].path@ == p
}

spec fn entries_map(es: Seq<FsEntry>) -> Map<Seq<Seq<char>>, NodeView> {
    Map::new(
        |p: Seq<Seq<char>>| entries_has(es, p),
        |p: Seq<Seq<char>>| node_view(es[entries_index(es, p)].node),
    )
}

spec fn entries_unique(es: Seq<FsEntry>) -> bool {
    forall|i: int, j: int|
        0 <= i < j < es.len() ==> #[trigger] es[i].path@ != #[trigger] es[j].path@
}

impl FsTree {
    /// The abstract value of the image: a map from paths to nodes.
    pub closed spec fn tree(self) -> Map<Seq<Seq<char>>, NodeView> {
        entries_map(self.entries@)
    }

    /// The actions not yet replayed onto the disk.
    pub closed spec fn pending(self) -> Seq<FsAction> {
        self.log@
    }

    pub closed spec fn wf(self) -> bool {
        let es = self.entries@;
        &&& entries_unique(es)
        &&& forall|i: int|
            0 <= i < es.len() ==> (#[trigger] es[i].path)@.len() >= 1 && es[i].path.wf()
        &&& forall|i: int|
            0 <= i < es.len() && #[trigger] es[i].path@.len() > 1 ==> exists|j: int|
                0 <= j < es.len() && #[trigger] es[j].path@ == es[i].path@.drop_last()
                    && es[j].node is Dir
    }

    /// An empty image: the bare base directory.
    pub fn new() -> (r: Self)
        ensures
            r.wf(),
            r.tree() =~= Map::empty(),
            r.pending() =~= Seq::<FsAction>::empty(),
    {
        let r = FsTree { entries: Vec::new(), log: Vec::new() };
        proof {
            assert(forall|p: Seq<Seq<char>>| !entries_has(r.entries@, p));
        }
        r
    }

    /// A well-formed image yields a well-formed abstract tree.
    pub proof fn lemma_wf_tree(self)
        requires
            self.wf(),
        ensures
            tree_wf(self.tree()),
    {
        let es = self.entries@;
        let m = self.tree();
        assert(m.dom() =~= Set::new(|p: Seq<Seq<char>>| entries_has(es, p)));
        assert(m.dom().finite()) by {
            lemma_entries_dom_finite(es);
        }
        assert forall|p: Seq<Seq<char>>| #[trigger] m.contains_key(p) implies p.len() >= 1
            && NottoPath::path_wf(p) by {
            let i = entries_index(es, p);
            assert(es[i].path@ == p);
        }
        assert forall|p: Seq<Seq<char>>| #[trigger] m.contains_key(p) && p.len() > 1 implies dir_at(
            m,
            p.drop_last(),
        ) by {
            let i = entries_index(es, p);
            assert(es[i].path@ == p);
            let j = choose|j: int|
                0 <= j < es.len() && #[trigger] es[j].path@ == es[i].path@.drop_last()
                    && es[j].node is Dir;
            assert(entries_has(es, p.drop_last()));
            let k = entries_index(es, p.drop_last());
            assert(es[k].path@ == es[j].path@);
            assert(k == j || es[k].path@ != es[j].path@);
        }
    }
}

proof fn lemma_entries_dom_finite(es: Seq<FsEntry>)
    ensures
        Set::new(|p: Seq<Seq<char>>| entries_has(es, p)).finite(),
        Set::new(|p: Seq<Seq<char>>| entries_has(es, p)).len() <= es.len(),
    decreases es.len(),
{
    if es.len() == 0 {
        assert(Set::new(|p: Seq<Seq<char>>| entries_has(es, p)) =~= Set::empty());
    } else {
        let fewer = es.drop_last();
        lemma_entries_dom_finite(fewer);
        let s_few = Set::new(|p: Seq<Seq<char>>| entries_has(fewer, p));
        let s_all = Set::new(|p: Seq<Seq<char>>| entries_has(es, p));
        assert forall|p: Seq<Seq<char>>| s_all.contains(p) implies s_few.insert(
            es.last().path@,
        ).contains(p) by {
            let i = choose|i: int| 0 <= i < es.len() && #[trigger] es[i].path@ == p;
            if i < es.len() - 1 {
                assert(fewer[i].path@ == p);
            }
        }
        assert forall|p: Seq<Seq<char>>| s_few.insert(es.last().path@).contains(p) implies s_all
            .contains(p) by {
            if p == es.last().path@ {
                assert(es[es.len() - 1].path@ == p);
            } else {
                let i = choose|i: int| 0 <= i < fewer.len() && #[trigger] fewer[i].path@ == p;
                assert(es[i].path@ == p);
            }
        }
        assert(s_all =~= s_few.insert(es.last().path@));
    }
}

/// Adding an entry at a fresh path inserts one node into the abstract map.
proof fn lemma_entries_push(es: Seq<FsEntry>, e: FsEntry)
    requires
        entries_unique(es),
        !entries_has(es, e.path@),
    ensures
        entries_map(es.push(e)) =~= entries_map(es).insert(e.path@, node_view(e.node)),
{
    let es2 = es.push(e);
    assert forall|p: Seq<Seq<char>>| #[trigger] entries_has(es2, p) implies entries_has(es, p)
        || p == e.path@ by {
        let i = choose|i: int| 0 <= i < es2.len() && #[trigger] es2[i].path@ == p;
        if i < es.len() {
            assert(es[i].path@ == p);
        }
    }
    assert forall|p: Seq<Seq<char>>| entries_has(es, p) implies #[trigger] entries_has(
        es2,
        p,
    ) by {
        let i = choose|i: int| 0 <= i < es.len() && #[trigger] es[i].path@ == p;
        assert(es2[i].path@ == p);
    }
    assert(es2[es.len() as int].path@ == e.path@);
    assert(entries_has(es2, e.path@));
    assert forall|p: Seq<Seq<char>>| #[trigger] entries_has(es2, p) implies entries_map(es2)[p]
        == entries_map(es).insert(e.path@, node_view(e.node))[p] by {
        let i = entries_index(es2, p);
        assert(es2[i].path@ == p);
        if p == e.path@ {
            if i < es.len() {
                assert(es[i].path@ == p);
                assert(false);
            }
            assert(entries_map(es2)[p] == node_view(e.node));
        } else {
            assert(i < es.len());
            assert(es[i].path@ == p);
            let j = entries_index(es, p);
            assert(es[j].path@ == p);
            assert(i == j || i < j || j < i);
            assert(i == j);
            assert(node_view(es2[i].node) == node_view(es[i].node));
        }
    }
}

/// Removing the entry at index `i` removes its node from the abstract map.
proof fn lemma_entries_remove(es: Seq<FsEntry>, i: int)
    requires
        entries_unique(es),
        0 <= i < es.len(),
    ensures
        entries_map(es.remove(i)) =~= entries_map(es).remove(es[i].path@),
{
    let es2 = es.remove(i);
    let p0 = es[i].path@;
    assert forall|p: Seq<Seq<char>>| #[trigger] entries_has(es2, p) implies entries_has(es, p)
        && p != p0 by {
        let a = choose|a: int| 0 <= a < es2.len() && #[trigger] es2[a].path@ == p;
        if a < i {
            assert(es[a].path@ == p);
        } else {
            assert(es[a + 1].path@ == p);
        }
    }
    assert forall|p: Seq<Seq<char>>| entries_has(es, p) && p != p0 implies #[trigger] entries_has(
        es2,
        p,
    ) by {
        let a = choose|a: int| 0 <= a < es.len() && #[trigger] es[a].path@ == p;
        if a < i {
            assert(es2[a].path@ == p);
        } else {
            assert(a != i);
            assert(es2[a - 1].path@ == p);
        }
    }
    assert forall|p: Seq<Seq<char>>| #[trigger] entries_has(es2, p) implies entries_map(es2)[p]
        == entries_map(es)[p] by {
        let a = entries_index(es2, p);
        assert(es2[a].path@ == p);
        let b = entries_index(es, p);
        assert(es[b].path@ == p);
        if a < i {
            assert(es[a].path@ == p);
            assert(a == b || es[a].path@ != es[b].path@);
        } else {
            assert(es[a + 1].path@ == p);
            assert(a + 1 == b || es[a + 1].path@ != es[b].path@);
        }
    }
}


/// Replacing the node of the entry at `i` updates one binding of the
/// abstract map.
proof fn lemma_entries_update(es: Seq<FsEntry>, i: int, e: FsEntry)
    requires
        entries_unique(es),
        0 <= i < es.len(),
        es[i].path@ == e.path@,
    ensures
        entries_map(es.update(i, e)) =~= entries_map(es).insert(e.path@, node_view(e.node)),
{
    let es2 = es.update(i, e);
    assert(es2[i] == e);
    assert(entries_has(es, e.path@));
    assert(entries_has(es2, e.path@));
    assert forall|p: Seq<Seq<char>>| #[trigger] entries_has(es2, p) implies entries_has(es, p) by {
        let a = choose|a: int| 0 <= a < es2.len() && #[trigger] es2[a].path@ == p;
        assert(es[a].path@ == p);
    }
    assert forall|p: Seq<Seq<char>>| #[trigger] entries_has(es, p) implies entries_has(es2, p) by {
        let a = choose|a: int| 0 <= a < es.len() && #[trigger] es[a].path@ == p;
        assert(es2[a].path@ == p);
    }
    assert forall|p: Seq<Seq<char>>| #[trigger] entries_has(es2, p) implies entries_map(es2)[p]
        == entries_map(es).insert(e.path@, node_view(e.node))[p] by {
        let a = entries_index(es2, p);
        assert(es2[a].path@ == p);
        if p == e.path@ {
            assert(a == i || es[a].path@ != es[i].path@);
            assert(a == i);
        } else {
            assert(a != i);
            let b = entries_index(es, p);
            assert(es[b].path@ == p);
            assert(a == b);
        }
    }
}

impl FsTree {
    /// The number of nodes in the image.
    pub closed spec fn node_count(self) -> nat {
        self.entries@.len() as nat
    }

    fn find_entry(&self, p: &NottoPath) -> (r: Option<usize>)
        requires
            self.wf(),
        ensures
            match r {
                Option::Some(i) => i < self.entries@.len() && self.entries@[i as int].path@
                    == p@ && self.tree().contains_key(p@),
                Option::None => !self.tree().contains_key(p@),
            },
    {
        let n = self.entries.len();
        for i in 0..n
            invariant
                n == self.entries@.len(),
                forall|j: int| 0 <= j < i ==> #[trigger] self.entries@[j].path@ != p@,
        {
            if self.entries[i].path.same_path(p) {
                proof {
                    assert(entries_has(self.entries@, p@));
                }
                return Some(i);
            }
        }
        proof {
            assert(!entries_has(self.entries@, p@));
        }
        None
    }

    proof fn lemma_entry_value(self, i: int)
        requires
            self.wf(),
            0 <= i < self.entries@.len(),
        ensures
            self.tree().contains_key(self.entries@[i].path@),
            self.tree()[self.entries@[i].path@] == node_view(self.entries@[i].node),
    {
        let es = self.entries@;
        let p = es[i].path@;
        assert(entries_has(es, p));
        let j = entries_index(es, p);
        assert(es[j].path@ == p);
        assert(i == j);
    }

    /// Whether anything exists at `p`; the root always does.
    pub fn exists_node(&self, p: &NottoPath) -> (r: bool)
        requires
            self.wf(),
        ensures
            r == (p@.len() == 0 || self.tree().contains_key(p@)),
    {
        if p.is_empty() {
            true
        } else {
            self.find_entry(p).is_some()
        }
    }

    /// Whether `p` is a directory position (the root counts).
    pub fn is_dir(&self, p: &NottoPath) -> (r: bool)
        requires
            self.wf(),
        ensures
            r == dir_at(self.tree(), p@),
    {
        if p.is_empty() {
            return true;
        }
        match self.find_entry(p) {
            Some(i) => {
                proof {
                    self.lemma_entry_value(i as int);
                }
                match &self.entries[i].node {
                    FsNode::Dir => true,
                    FsNode::File(_) => false,
                }
            },
            None => false,
        }
    }

    /// Whether `p` is a file.
    pub fn is_file(&self, p: &NottoPath) -> (r: bool)
        requires
            self.wf(),
        ensures
            r == file_at(self.tree(), p@),
    {
        match self.find_entry(p) {
            Some(i) => {
                proof {
                    self.lemma_entry_value(i as int);
                }
                match &self.entries[i].node {
                    FsNode::Dir => false,
                    FsNode::File(_) => true,
                }
            },
            None => false,
        }
    }

    /// The text of the file at `p`, if `p` is a file.
    pub fn read_file(&self, p: &NottoPath) -> (r: Option<String>)
        requires
            self.wf(),
        ensures
            match r {
                Option::Some(c) => file_at(self.tree(), p@) && c@ == content_at(
                    self.tree(),
                    p@,
                ),
                Option::None => !file_at(self.tree(), p@),
            },
    {
        match self.find_entry(p) {
            Some(i) => {
                proof {
                    self.lemma_entry_value(i as int);
                }
                match &self.entries[i].node {
                    FsNode::Dir => None,
                    FsNode::File(s) => Some(s.clone()),
                }
            },
            None => None,
        }
    }

    /// Creates or overwrites the file at `p`. No record is made for the
    /// disk; public wrappers add one.
    fn set_file(&mut self, p: &NottoPath, content: String) -> (r: Result<(), NottoError>)
        requires
            old(self).wf(),
            p.wf(),
        ensures
            final(self).wf(),
            final(self).pending() == old(self).pending(),
            match r {
                Result::Ok(_) => can_write(old(self).tree(), p@) && final(self).tree()
                    == old(self).tree().insert(p@, NodeView::File(content@)),
                Result::Err(e) => *final(self) == *old(self) && !can_write(
                    old(self).tree(),
                    p@,
                ) && e is ConfigDirectory,
            },
    {
        if p.is_empty() {
            return Err(io_error());
        }
        let parent = p.parent();
        if !self.is_dir(&parent) {
            return Err(io_error());
        }
        match self.find_entry(p) {
            Some(i) => {
                proof {
                    self.lemma_entry_value(i as int);
                }
                match &self.entries[i].node {
                    FsNode::Dir => Err(io_error()),
                    FsNode::File(_) => {
                        let ghost es = self.entries@;
                        let path = self.entries[i].path.clone();
                        let ghost e2 = FsEntry { path: path, node: FsNode::File(content) };
                        self.entries[i] = FsEntry { path, node: FsNode::File(content) };
                        proof {
                            assert(self.entries@ =~= es.update(i as int, self.entries@[i as int]));
                            lemma_entries_update(es, i as int, self.entries@[i as int]);
                            assert(self.tree() =~= old(self).tree().insert(
                                p@,
                                NodeView::File(content@),
                            ));
                            assert forall|a: int|
                                0 <= a < self.entries@.len()
                                    && #[trigger] self.entries@[a].path@.len() > 1 implies exists|
                                j: int,
                            |
                                0 <= j < self.entries@.len()
                                    && #[trigger] self.entries@[j].path@
                                    == self.entries@[a].path@.drop_last()
                                    && self.entries@[j].node is Dir by {
                                let j = choose|j: int|
                                    0 <= j < es.len() && #[trigger] es[j].path@
                                        == es[a].path@.drop_last() && es[j].node is Dir;
                                assert(j != i);
                                assert(self.entries@[j].path@ == self.entries@[a].path@.drop_last()
                                    && self.entries@[j].node is Dir);
                            }
                        }
                        Ok(())
                    },
                }
            },
            None => {
                let ghost es = self.entries@;
                self.entries.push(FsEntry { path: p.clone(), node: FsNode::File(content) });
                proof {
                    lemma_entries_push(es, self.entries@.last());
                    assert(self.tree() =~= old(self).tree().insert(p@, NodeView::File(content@)));
                    let k = choose|k: int|
                        0 <= k < es.len() && #[trigger] es[k].path@ == p@.drop_last();
                    assert forall|a: int|
                        0 <= a < self.entries@.len()
                            && #[trigger] self.entries@[a].path@.len() > 1 implies exists|j: int|
                        0 <= j < self.entries@.len() && #[trigger] self.entries@[j].path@
                            == self.entries@[a].path@.drop_last()
                            && self.entries@[j].node is Dir by {
                        if a < es.len() {
                            let j = choose|j: int|
                                0 <= j < es.len() && #[trigger] es[j].path@
                                    == es[a].path@.drop_last() && es[j].node is Dir;
                            assert(self.entries@[j].path@ == self.entries@[a].path@.drop_last()
                                && self.entries@[j].node is Dir);
                        } else {
                            assert(dir_at(entries_map(es), p@.drop_last()));
                            assert(entries_has(es, p@.drop_last()));
                            let j = entries_index(es, p@.drop_last());
                            assert(es[j].path@ == p@.drop_last());
                            assert(node_view(es[j].node) is Dir);
                            assert(self.entries@[j].path@ == self.entries@[a].path@.drop_last()
                                && self.entries@[j].node is Dir);
                        }
                    }
                    assert(entries_unique(self.entries@)) by {
                        assert(forall|x: int, y: int|
                            0 <= x < y < es.len() ==> #[trigger] self.entries@[x].path@
                                != #[trigger] self.entries@[y].path@);
                    }
                }
                Ok(())
            },
        }
    }

    /// Creates or overwrites the file at `p` and records the write for the
    /// disk.
    pub fn write_file(&mut self, p: &NottoPath, content: String) -> (r: Result<(), NottoError>)
        requires
            old(self).wf(),
            p.wf(),
        ensures
            final(self).wf(),
            match r {
                Result::Ok(_) => {
                    &&& can_write(old(self).tree(), p@)
                    &&& final(self).tree() == old(self).tree().insert(p@, NodeView::File(content@))
                    &&& final(self).pending().len() == old(self).pending().len() + 1
                    &&& forall|i: int|
                        0 <= i < old(self).pending().len() ==> final(self).pending()[i] == old(
                            self,
                        ).pending()[i]
                    &&& (final(self).pending().last() matches FsAction::WriteFile(q, c) && q@ == p@
                        && c@ == content@)
                },
                Result::Err(e) => *final(self) == *old(self) && !can_write(old(self).tree(), p@)
                    && e is ConfigDirectory,
            },
    {
        let logged = content.clone();
        match self.set_file(p, content) {
            Ok(_) => {
                self.log.push(FsAction::WriteFile(p.clone(), logged));
                Ok(())
            },
            Err(e) => Err(e),
        }
    }

    /// Creates or overwrites the file at `p` without recording anything:
    /// for loading a tree that is already on disk.
    pub fn seed_file(&mut self, p: &NottoPath, content: String) -> (r: Result<(), NottoError>)
        requires
            old(self).wf(),
            p.wf(),
        ensures
            final(self).wf(),
            final(self).pending() == old(self).pending(),
            match r {
                Result::Ok(_) => can_write(old(self).tree(), p@) && final(self).tree()
                    == old(self).tree().insert(p@, NodeView::File(content@)),
                Result::Err(e) => *final(self) == *old(self) && !can_write(
                    old(self).tree(),
                    p@,
                ) && e is ConfigDirectory,
            },
    {
        self.set_file(p, content)
    }

    /// Removes the file at `from`; the disk record moves it aside to
    /// `phys_to`, a transient location outside the modeled tree.
    pub fn detach_file(&mut self, from: &NottoPath, phys_to: &NottoPath) -> (r: Result<
        (),
        NottoError,
    >)
        requires
            old(self).wf(),
        ensures
            final(self).wf(),
            match r {
                Result::Ok(_) => {
                    &&& file_at(old(self).tree(), from@)
                    &&& final(self).tree() == old(self).tree().remove(from@)
                    &&& final(self).node_count() == old(self).node_count() - 1
                    &&& final(self).pending().len() == old(self).pending().len() + 1
                    &&& forall|i: int|
                        0 <= i < old(self).pending().len() ==> final(self).pending()[i] == old(
                            self,
                        ).pending()[i]
                    &&& (final(self).pending().last() matches FsAction::MoveFile(a, b) && a@
                        == from@ && b@ == phys_to@)
                },
                Result::Err(e) => *final(self) == *old(self) && !file_at(old(self).tree(), from@)
                    && e is FileError,
            },
    {
        match self.find_entry(from) {
            Some(i) => {
                proof {
                    self.lemma_entry_value(i as int);
                }
                match &self.entries[i].node {
                    FsNode::Dir => Err(
                        NottoError::FileError {
                            message: "expected a file, found a directory".to_owned(),
                        },
                    ),
                    FsNode::File(_) => {
                        let ghost es = self.entries@;
                        let _ = self.entries.remove(i);
                        proof {
                            lemma_entries_remove(es, i as int);
                            assert(self.tree() =~= old(self).tree().remove(from@));
                            assert forall|a: int|
                                0 <= a < self.entries@.len()
                                    && #[trigger] self.entries@[a].path@.len() > 1 implies exists|
                                j: int,
                            |
                                0 <= j < self.entries@.len()
                                    && #[trigger] self.entries@[j].path@
                                    == self.entries@[a].path@.drop_last()
                                    && self.entries@[j].node is Dir by {
                                let a0: int = if a < i { a } else { a + 1 };
                                let j = choose|j: int|
                                    0 <= j < es.len() && #[trigger] es[j].path@
                                        == es[a0].path@.drop_last() && es[j].node is Dir;
                                assert(j != i);
                                let j2: int = if j < i { j } else { j - 1 };
                                assert(self.entries@[j2].path@
                                    == self.entries@[a].path@.drop_last()
                                    && self.entries@[j2].node is Dir);
                            }
                            assert(entries_unique(self.entries@)) by {
                                assert forall|x: int, y: int|
                                    0 <= x < y < self.entries@.len() implies #[trigger] self
                                    .entries@[x].path@ != #[trigger] self.entries@[y].path@ by {
                                    let x0: int = if x < i { x } else { x + 1 };
                                    let y0: int = if y < i { y } else { y + 1 };
                                    assert(es[x0].path@ != es[y0].path@);
                                }
                            }
                        }
                        self.log.push(FsAction::MoveFile(from.clone(), phys_to.clone()));
                        Ok(())
                    },
                }
            },
            None => Err(
                NottoError::FileError { message: "expected a file, found nothing".to_owned() },
            ),
        }
    }

    /// Places a file at `to`; the disk record moves it back in from
    /// `phys_from`, the transient location of an earlier detach.
    pub fn attach_file(
        &mut self,
        to: &NottoPath,
        content: String,
        phys_from: &NottoPath,
    ) -> (r: Result<(), NottoError>)
        requires
            old(self).wf(),
            to.wf(),
        ensures
            final(self).wf(),
            match r {
                Result::Ok(_) => {
                    &&& can_write(old(self).tree(), to@)
                    &&& final(self).tree() == old(self).tree().insert(to@, NodeView::File(content@))
                    &&& final(self).pending().len() == old(self).pending().len() + 1
                    &&& forall|i: int|
                        0 <= i < old(self).pending().len() ==> final(self).pending()[i] == old(
                            self,
                        ).pending()[i]
                    &&& (final(self).pending().last() matches FsAction::MoveFile(a, b) && a@
                        == phys_from@ && b@ == to@)
                },
                Result::Err(e) => *final(self) == *old(self) && !can_write(old(self).tree(), to@)
                    && e is ConfigDirectory,
            },
    {
        match self.set_file(to, content) {
            Ok(_) => {
                self.log.push(FsAction::MoveFile(phys_from.clone(), to.clone()));
                Ok(())
            },
            Err(e) => Err(e),
        }
    }

    /// Hands out the recorded actions and clears the record.
    pub fn take_pending(&mut self) -> (r: Vec<FsAction>)
        ensures
            r@ == old(self).pending(),
            final(self).pending() =~= Seq::<FsAction>::empty(),
            final(self).tree() == old(self).tree(),
            final(self).wf() == old(self).wf(),
    {
        let mut out: Vec<FsAction> = Vec::new();
        core::mem::swap(&mut out, &mut self.log);
        out
    }
}

fn io_error() -> (r: NottoError)
    ensures
        r is ConfigDirectory,
{
    NottoError::ConfigDirectory { message: "filesystem operation failed".to_owned() }
}


/// Adding directories never touches existing nodes, and adds only
/// directories.
pub proof fn lemma_with_dirs_frame(m: Map<Seq<Seq<char>>, NodeView>, q: Seq<Seq<char>>)
    ensures
        forall|x: Seq<Seq<char>>| #[trigger]
            m.contains_key(x) ==> with_dirs(m, q).contains_key(x) && with_dirs(m, q)[x] == m[x],
        forall|x: Seq<Seq<char>>| #[trigger]
            with_dirs(m, q).contains_key(x) ==> m.contains_key(x) || with_dirs(m, q)[x] is Dir,
    decreases q.len(),
{
    if q.len() == 0 {
    } else {
        lemma_with_dirs_frame(m, q.drop_last());
    }
}

proof fn lemma_mkdir_ok_extend(m0: Map<Seq<Seq<char>>, NodeView>, p: Seq<Seq<char>>, k: int)
    requires
        0 <= k < p.len(),
        mkdir_ok(m0, p.take(k)),
        !file_at(m0, p.take(k + 1)),
    ensures
        mkdir_ok(m0, p.take(k + 1)),
{
    assert forall|kk: int| 1 <= kk <= k + 1 implies !file_at(m0, #[trigger] p.take(k + 1).take(kk)) by {
        if kk <= k {
            assert(p.take(k + 1).take(kk) =~= p.take(kk));
            assert(p.take(k).take(kk) =~= p.take(kk));
            assert(!file_at(m0, p.take(k).take(kk)));
        } else {
            assert(p.take(k + 1).take(kk) =~= p.take(k + 1));
        }
    }
}

impl FsTree {
    /// Creates directories along every missing prefix of `p`, as the
    /// platform's recursive directory creation does. No disk record.
    fn mkdirs_inner(&mut self, p: &NottoPath) -> (r: Result<(), NottoError>)
        requires
            old(self).wf(),
            p.wf(),
        ensures
            final(self).wf(),
            final(self).pending() == old(self).pending(),
            match r {
                Result::Ok(_) => mkdir_ok(old(self).tree(), p@) && final(self).tree()
                    == with_dirs(old(self).tree(), p@),
                Result::Err(e) => {
                    &&& !mkdir_ok(old(self).tree(), p@)
                    &&& e is ConfigDirectory
                    &&& forall|q: Seq<Seq<char>>| #[trigger]
                        old(self).tree().contains_key(q) ==> final(self).tree().contains_key(q)
                            && final(self).tree()[q] == old(self).tree()[q]
                    &&& forall|q: Seq<Seq<char>>| #[trigger]
                        final(self).tree().contains_key(q) ==> old(self).tree().contains_key(q)
                            || final(self).tree()[q] is Dir
                },
            },
    {
        let ghost m0 = old(self).tree();
        let n = p.seg_count();
        let mut k: usize = 0;
        proof {
            assert(p@.take(0) =~= Seq::<Seq<char>>::empty());
        }
        while k < n
            invariant
                0 <= k <= n,
                n == p@.len(),
                p.wf(),
                self.wf(),
                self.pending() == old(self).pending(),
                m0 == old(self).tree(),
                self.tree() == with_dirs(m0, p@.take(k as int)),
                dir_at(self.tree(), p@.take(k as int)),
                mkdir_ok(m0, p@.take(k as int)),
            decreases n - k,
        {
            let pref = p.prefix(k + 1);
            proof {
                assert(pref@.drop_last() =~= p@.take(k as int));
                assert(NottoPath::seg_wf(p@[k as int]));
                lemma_with_dirs_frame(m0, p@.take(k as int));
            }
            match self.find_entry(&pref) {
                Some(i) => {
                    proof {
                        self.lemma_entry_value(i as int);
                    }
                    match &self.entries[i].node {
                        FsNode::File(_) => {
                            proof {
                                assert(file_at(self.tree(), pref@));
                                assert(m0.contains_key(pref@) && m0[pref@] is File) by {
                                    if !m0.contains_key(pref@) {
                                        assert(self.tree()[pref@] is Dir);
                                    } else {
                                        assert(with_dirs(m0, p@.take(k as int)).contains_key(
                                            pref@,
                                        ) && with_dirs(m0, p@.take(k as int))[pref@]
                                            == m0[pref@]);
                                    }
                                }
                                assert(pref@ == p@.take(k + 1));
                                assert(!mkdir_ok(m0, p@)) by {
                                    assert(file_at(m0, p@.take(k + 1)));
                                }
                            }
                            return Err(io_error());
                        },
                        FsNode::Dir => {
                            proof {
                                assert(self.tree().contains_key(pref@));
                                assert(!file_at(m0, pref@)) by {
                                    if m0.contains_key(pref@) {
                                        assert(with_dirs(m0, p@.take(k as int)).contains_key(
                                            pref@,
                                        ) && with_dirs(m0, p@.take(k as int))[pref@]
                                            == m0[pref@]);
                                    }
                                }
                                assert(pref@ == p@.take(k + 1));
                                lemma_mkdir_ok_extend(m0, p@, k as int);
                                assert(with_dirs(m0, p@.take(k + 1)) == self.tree());
                                assert(dir_at(self.tree(), p@.take(k + 1)));
                            }
                        },
                    }
                },
                None => {
                    let ghost es = self.entries@;
                    self.entries.push(FsEntry { path: pref, node: FsNode::Dir });
                    proof {
                        lemma_entries_push(es, self.entries@.last());
                        assert(self.tree() =~= entries_map(es).insert(pref@, NodeView::Dir));
                        assert(!file_at(m0, pref@)) by {
                            assert(!entries_map(es).contains_key(pref@));
                            if m0.contains_key(pref@) {
                                assert(with_dirs(m0, p@.take(k as int)).contains_key(pref@));
                            }
                        }
                        assert(pref@ == p@.take(k + 1));
                        lemma_mkdir_ok_extend(m0, p@, k as int);
                        assert(self.tree() == with_dirs(m0, p@.take(k + 1)));
                        assert(dir_at(self.tree(), p@.take(k + 1)));
                        assert(entries_unique(self.entries@)) by {
                            assert(forall|x: int, y: int|
                                0 <= x < y < es.len() ==> #[trigger] self.entries@[x].path@
                                    != #[trigger] self.entries@[y].path@);
                        }
                        assert forall|a: int|
                            0 <= a < self.entries@.len()
                                && #[trigger] self.entries@[a].path@.len() > 1 implies exists|
                            j: int,
                        |
                            0 <= j < self.entries@.len() && #[trigger] self.entries@[j].path@
                                == self.entries@[a].path@.drop_last()
                                && self.entries@[j].node is Dir by {
                            if a < es.len() {
                                let j = choose|j: int|
                                    0 <= j < es.len() && #[trigger] es[j].path@
                                        == es[a].path@.drop_last() && es[j].node is Dir;
                                assert(self.entries@[j].path@
                                    == self.entries@[a].path@.drop_last()
                                    && self.entries@[j].node is Dir);
                            } else {
                                assert(self.entries@[a].path@ == pref@);
                                assert(dir_at(entries_map(es), pref@.drop_last()));
                                assert(entries_has(es, pref@.drop_last()));
                                let j = entries_index(es, pref@.drop_last());
                                assert(es[j].path@ == pref@.drop_last());
                                assert(node_view(es[j].node) is Dir);
                                assert(self.entries@[j].path@
                                    == self.entries@[a].path@.drop_last()
                                    && self.entries@[j].node is Dir);
                            }
                        }
                    }
                },
            }
            k = k + 1;
        }
        proof {
            assert(p@.take(n as int) =~= p@);
        }
        Ok(())
    }

    /// Creates directories along `p` and records one recursive creation for
    /// the disk.
    pub fn make_dirs(&mut self, p: &NottoPath) -> (r: Result<(), NottoError>)
        requires
            old(self).wf(),
            p.wf(),
        ensures
            final(self).wf(),
            match r {
                Result::Ok(_) => {
                    &&& mkdir_ok(old(self).tree(), p@)
                    &&& final(self).tree() == with_dirs(old(self).tree(), p@)
                    &&& final(self).pending().len() == old(self).pending().len() + 1
                    &&& forall|i: int|
                        0 <= i < old(self).pending().len() ==> final(self).pending()[i] == old(
                            self,
                        ).pending()[i]
                    &&& (final(self).pending().last() matches FsAction::MakeDir(q) && q@ == p@)
                },
                Result::Err(e) => {
                    &&& !mkdir_ok(old(self).tree(), p@)
                    &&& e is ConfigDirectory
                    &&& final(self).pending() == old(self).pending()
                    &&& forall|q: Seq<Seq<char>>| #[trigger]
                        old(self).tree().contains_key(q) ==> final(self).tree().contains_key(q)
                            && final(self).tree()[q] == old(self).tree()[q]
                    &&& forall|q: Seq<Seq<char>>| #[trigger]
                        final(self).tree().contains_key(q) ==> old(self).tree().contains_key(q)
                            || final(self).tree()[q] is Dir
                },
            },
    {
        match self.mkdirs_inner(p) {
            Ok(_) => {
                self.log.push(FsAction::MakeDir(p.clone()));
                Ok(())
            },
            Err(e) => Err(e),
        }
    }

    /// Creates directories along `p` without recording anything: for
    /// loading a tree that is already on disk.
    pub fn seed_dir(&mut self, p: &NottoPath) -> (r: Result<(), NottoError>)
        requires
            old(self).wf(),
            p.wf(),
        ensures
            final(self).wf(),
            final(self).pending() == old(self).pending(),
            match r {
                Result::Ok(_) => mkdir_ok(old(self).tree(), p@) && final(self).tree()
                    == with_dirs(old(self).tree(), p@),
                Result::Err(e) => !mkdir_ok(old(self).tree(), p@) && e is ConfigDirectory,
            },
    {
        self.mkdirs_inner(p)
    }

    /// The names of the nodes directly under `p`, each exactly once, in no
    /// promised order.
    pub fn children(&self, p: &NottoPath) -> (r: Vec<String>)
        requires
            self.wf(),
        ensures
            forall|i: int|
                0 <= i < r@.len() ==> NottoPath::seg_wf(#[trigger] r@[i]@)
                    && self.tree().contains_key(p@.push(r@[i]@)),
            forall|i: int, j: int| 0 <= i < j < r@.len() ==> r@[i]@ != r@[j]@,
            forall|s: Seq<char>|
                self.tree().contains_key(#[trigger] p@.push(s)) ==> exists|i: int|
                    0 <= i < r@.len() && r@[i]@ == s,
    {
        let mut r: Vec<String> = Vec::new();
        let n = self.entries.len();
        let pk = p.seg_count();
        let mut e_i: usize = 0;
        while e_i < n
            invariant
                0 <= e_i <= n,
                self.wf(),
                n == self.entries@.len(),
                pk == p@.len(),
                forall|i: int|
                    0 <= i < r@.len() ==> NottoPath::seg_wf(#[trigger] r@[i]@) && exists|j: int|
                        0 <= j < e_i && #[trigger] self.entries@[j].path@ == p@.push(r@[i]@),
                forall|i: int, j: int| 0 <= i < j < r@.len() ==> r@[i]@ != r@[j]@,
                forall|j: int|
                    0 <= j < e_i && #[trigger] self.entries@[j].path@.len() == p@.len() + 1
                        && self.entries@[j].path@.take(p@.len() as int) == p@ ==> exists|i: int|
                        0 <= i < r@.len() && r@[i]@ == self.entries@[j].path@.last(),
            decreases n - e_i,
        {
            let e_path = &self.entries[e_i].path;
            let e_len = e_path.seg_count();
            if e_len > pk && e_len - 1 == pk && e_path.starts_with(p) {
                let name = e_path.last_seg().clone();
                let ghost old_r = r@;
                proof {
                    assert(e_path@ =~= p@.push(name@));
                    assert(NottoPath::seg_wf(name@)) by {
                        assert(self.entries@[e_i as int].path.wf());
                        assert(NottoPath::seg_wf(e_path@[pk as int]));
                    }
                    assert forall|i: int| 0 <= i < r@.len() implies r@[i]@ != name@ by {
                        if r@[i]@ == name@ {
                            let j = choose|j: int|
                                0 <= j < e_i && #[trigger] self.entries@[j].path@ == p@.push(
                                    r@[i]@,
                                );
                            assert(self.entries@[j].path@ == self.entries@[e_i as int].path@);
                            assert(false);
                        }
                    }
                }
                let ghost namev = name@;
                r.push(name);
                proof {
                    let li = old_r.len() as int;
                    assert(r@[li]@ == namev);
                    assert forall|i: int| 0 <= i < r@.len() implies NottoPath::seg_wf(
                        #[trigger] r@[i]@,
                    ) && exists|j: int|
                        0 <= j < e_i + 1 && #[trigger] self.entries@[j].path@ == p@.push(
                            r@[i]@,
                        ) by {
                        if i < li {
                            assert(r@[i] == old_r[i]);
                            assert(NottoPath::seg_wf(old_r[i]@));
                            let j = choose|j: int|
                                0 <= j < e_i && #[trigger] self.entries@[j].path@ == p@.push(
                                    old_r[i]@,
                                );
                            assert(self.entries@[j].path@ == p@.push(r@[i]@));
                        } else {
                            assert(r@[i]@ == namev);
                            assert(self.entries@[e_i as int].path@ == p@.push(r@[i]@));
                        }
                    }
                    assert forall|j: int|
                        0 <= j < e_i + 1 && #[trigger] self.entries@[j].path@.len() == p@.len()
                            + 1 && self.entries@[j].path@.take(p@.len() as int) == p@ implies exists|
                        i: int,
                    |
                        0 <= i < r@.len() && r@[i]@ == self.entries@[j].path@.last() by {
                        if j < e_i {
                            let i = choose|i: int|
                                0 <= i < old_r.len() && old_r[i]@ == self.entries@[j].path@.last();
                            assert(r@[i] == old_r[i]);
                            assert(r@[i]@ == self.entries@[j].path@.last());
                        } else {
                            assert(r@[li]@ == self.entries@[j].path@.last());
                        }
                    }
                }
            } else {
                proof {
                    if self.entries@[e_i as int].path@.len() == p@.len() + 1
                        && self.entries@[e_i as int].path@.take(p@.len() as int) == p@ {
                        assert(false);
                    }
                }
            }
            e_i = e_i + 1;
        }
        proof {
            assert forall|i: int|
                0 <= i < r@.len() implies NottoPath::seg_wf(#[trigger] r@[i]@)
                && self.tree().contains_key(p@.push(r@[i]@)) by {
                let j = choose|j: int|
                    0 <= j < n && #[trigger] self.entries@[j].path@ == p@.push(r@[i]@);
                assert(entries_has(self.entries@, p@.push(r@[i]@)));
            }
            assert forall|s: Seq<char>|
                self.tree().contains_key(#[trigger] p@.push(s)) implies exists|i: int|
                0 <= i < r@.len() && r@[i]@ == s by {
                let q = p@.push(s);
                let j = entries_index(self.entries@, q);
                assert(self.entries@[j].path@ == q);
                assert(q.len() == p@.len() + 1);
                assert(q.take(p@.len() as int) =~= p@);
                assert(q.last() == s);
            }
        }
        r
    }
}

spec fn max_path_len(es: Seq<FsEntry>) -> nat
    decreases es.len(),
{
    if es.len() == 0 {
        0
    } else {
        let m = max_path_len(es.drop_last());
        if es.last().path@.len() > m {
            es.last().path@.len() as nat
        } else {
            m
        }
    }
}

proof fn lemma_max_path_len(es: Seq<FsEntry>, i: int)
    requires
        0 <= i < es.len(),
    ensures
        es[i].path@.len() <= max_path_len(es),
    decreases es.len(),
{
    if i == es.len() - 1 {
    } else {
        lemma_max_path_len(es.drop_last(), i);
    }
}

impl FsTree {
    /// A bound on the length of every path in the image.
    pub closed spec fn depth_bound(self) -> nat {
        max_path_len(self.entries@)
    }

    /// No node lies deeper than the bound.
    pub proof fn lemma_depth_bound(self, p: Seq<Seq<char>>)
        requires
            self.tree().contains_key(p),
        ensures
            p.len() <= self.depth_bound(),
    {
        let i = entries_index(self.entries@, p);
        assert(self.entries@[i].path@ == p);
        lemma_max_path_len(self.entries@, i);
    }
}

} // verus!


