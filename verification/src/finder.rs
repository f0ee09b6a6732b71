use vstd::prelude::*;
use crate::bridge;
use crate::errors::NottoError;
use crate::fs_tree::{FsTree, content_at, dir_at, file_at, tree_wf};
use crate::io::paths::NottoPath;
use crate::models::dates::{Date, Time};
use crate::models::note::Note;
use crate::models::note;
use crate::text;

verus! {

broadcast use crate::seqviews::lemma_segments_deep_view;

/// One message on a search's result stream: a match, or the terminal mark.
pub enum NoteFindMessage {
    Result(NoteFindResult),
    Finish,
}

/// A matching note and where it was found.
pub struct NoteFindResult {
    pub note: Note,
    pub path: NottoPath,
}

/// How a date or time condition relates to the note's own.
#[derive(Debug, Clone)]
pub enum TimeFind {
    Before,
    After,
    At,
}

/// One predicate of a search; a note matches when it satisfies all of
/// them. The tag, date and time kinds are declared but do not match yet.
#[derive(Debug, Clone)]
pub enum FindCondition {
    Text(String),
    Tag(String),
    Date(TimeFind, Date),
    Time(TimeFind, Time),
}

/// Walks the tree under the base directory and streams back the notes that
/// satisfy every condition.
pub struct Finder {
    base_path: NottoPath,
}

/// The content a reader sees for a stored file: its text with the metadata
/// block split off.
pub open spec fn note_body(raw: Seq<char>) -> Seq<char> {
    text::joined_nl(note::content_lines_of(text::lines_of(raw)))
}

/// Whether one condition accepts a note with the given content: a text
/// condition is a case-blind substring test under the Unicode upper-case
/// fold; the other kinds never match.
pub open spec fn cond_matches(content: Seq<char>, c: FindCondition) -> bool {
    match c {
        FindCondition::Text(t) => text::contains_seq(
            bridge::upper_of(content),
            bridge::upper_of(t@),
        ),
        _ => false,
    }
}

/// A note matches when every condition accepts it.
pub open spec fn all_match(content: Seq<char>, conds: Seq<FindCondition>) -> bool {
    forall|i: int| 0 <= i < conds.len() ==> cond_matches(content, #[trigger] conds[i])
}

/// Matching is blind to the case of the query and of the content: two
/// texts with one upper-case form match the same conditions.
pub proof fn lemma_match_case_blind(c1: Seq<char>, c2: Seq<char>, t1: String, t2: String)
    requires
        bridge::upper_of(c1) == bridge::upper_of(c2),
        bridge::upper_of(t1@) == bridge::upper_of(t2@),
    ensures
        cond_matches(c1, FindCondition::Text(t1)) == cond_matches(c2, FindCondition::Text(t2)),
{
}

/// Strictly below `root`.
pub open spec fn under(root: Seq<Seq<char>>, q: Seq<Seq<char>>) -> bool {
    root.len() < q.len() && q.take(root.len() as int) == root
}

/// Every proper prefix of a node is a directory node.
proof fn lemma_prefix_node(
    m: Map<Seq<Seq<char>>, crate::fs_tree::NodeView>,
    q: Seq<Seq<char>>,
    k: int,
)
    requires
        tree_wf(m),
        m.contains_key(q),
        1 <= k < q.len(),
    ensures
        m.contains_key(q.take(k)),
        dir_at(m, q.take(k)),
    decreases q.len() - k,
{
    if k == q.len() - 1 {
        assert(dir_at(m, q.drop_last()));
        assert(q.drop_last() =~= q.take(k));
        assert(q.take(k).len() == k >= 1);
    } else {
        lemma_prefix_node(m, q, k + 1);
        assert(dir_at(m, q.take(k + 1).drop_last()));
        assert(q.take(k + 1).drop_last() =~= q.take(k));
    }
}

/// Collects every file strictly below `p`, depth first, each exactly once.
fn collect_leaves(fs: &FsTree, p: &NottoPath, out: &mut Vec<NottoPath>)
    requires
        fs.wf(),
        p.wf(),
        dir_at(fs.tree(), p@),
    ensures
        final(out)@.len() >= old(out)@.len(),
        forall|i: int| 0 <= i < old(out)@.len() ==> final(out)@[i] == old(out)@[i],
        forall|i: int|
            old(out)@.len() <= i < final(out)@.len() ==> (#[trigger] final(out)@[i]).wf()
                && file_at(fs.tree(), final(out)@[i]@) && under(p@, final(out)@[i]@),
        forall|i: int, j: int|
            old(out)@.len() <= i < j < final(out)@.len() ==> final(out)@[i]@ != final(out)@[j]@,
        forall|q: Seq<Seq<char>>|
            #[trigger] file_at(fs.tree(), q) && under(p@, q) ==> exists|i: int|
                old(out)@.len() <= i < final(out)@.len() && final(out)@[i]@ == q,
    decreases fs.depth_bound() + 1 - p@.len(),
{
    proof {
        fs.lemma_wf_tree();
        if p@.len() > 0 {
            fs.lemma_depth_bound(p@);
        }
    }
    let names = fs.children(p);
    let n = names.len();
    let ghost base = out@.len() as int;
    let ghost m = fs.tree();
    let mut i: usize = 0;
    while i < n
        invariant
            0 <= i <= n,
            n == names@.len(),
            fs.wf(),
            p.wf(),
            dir_at(fs.tree(), p@),
            m == fs.tree(),
            tree_wf(m),
            forall|k: int|
                0 <= k < n ==> NottoPath::seg_wf(#[trigger] names@[k]@) && m.contains_key(
                    p@.push(names@[k]@),
                ),
            forall|k1: int, k2: int| 0 <= k1 < k2 < n ==> names@[k1]@ != names@[k2]@,
            forall|s: Seq<char>|
                m.contains_key(#[trigger] p@.push(s)) ==> exists|k: int|
                    0 <= k < n && names@[k]@ == s,
            out@.len() >= base,
            forall|a: int| 0 <= a < base ==> out@[a] == old(out)@[a],
            base == old(out)@.len(),
            forall|a: int|
                base <= a < out@.len() ==> (#[trigger] out@[a]).wf() && file_at(m, out@[a]@)
                    && under(p@, out@[a]@) && exists|k: int|
                    0 <= k < i && out@[a]@[p@.len() as int] == names@[k]@,
            forall|a: int, b: int| base <= a < b < out@.len() ==> out@[a]@ != out@[b]@,
            forall|q: Seq<Seq<char>>|
                #[trigger] file_at(m, q) && under(p@, q) && (exists|k: int|
                    0 <= k < i && q[p@.len() as int] == names@[k]@) ==> exists|a: int|
                    base <= a < out@.len() && out@[a]@ == q,
        decreases n - i,
    {
        let name = &names[i];
        let child = p.join_seg(name);
        let ghost pre_len = out@.len() as int;
        if fs.is_dir(&child) {
            proof {
                assert(child@.len() == p@.len() + 1);
                fs.lemma_depth_bound(child@);
            }
            let ghost pre = out@;
            collect_leaves(fs, &child, out);
            proof {
                assert(forall|a: int| 0 <= a < pre_len ==> out@[a] == pre[a]);
                assert forall|a: int|
                    base <= a < out@.len() implies (#[trigger] out@[a]).wf() && file_at(
                    m,
                    out@[a]@,
                ) && under(p@, out@[a]@) && exists|k: int|
                    0 <= k < i + 1 && out@[a]@[p@.len() as int] == names@[k]@ by {
                    if a < pre_len {
                    } else {
                        assert(under(child@, out@[a]@));
                        assert(out@[a]@.take(child@.len() as int) == child@);
                        assert(out@[a]@[p@.len() as int] == child@[p@.len() as int]) by {
                            assert(out@[a]@.take(child@.len() as int)[p@.len() as int]
                                == out@[a]@[p@.len() as int]);
                        }
                        assert(under(p@, out@[a]@)) by {
                            assert(out@[a]@.take(p@.len() as int) =~= child@.take(
                                p@.len() as int,
                            ));
                            assert(child@.take(p@.len() as int) =~= p@);
                        }
                        assert(out@[a]@[p@.len() as int] == names@[i as int]@);
                    }
                }
                assert forall|a: int, b: int|
                    base <= a < b < out@.len() implies out@[a]@ != out@[b]@ by {
                    if a < pre_len && b >= pre_len {
                        assert(out@[a] == pre[a]);
                        let k = choose|k: int|
                            0 <= k < i && out@[a]@[p@.len() as int] == names@[k]@;
                        assert(under(child@, out@[b]@));
                        assert(out@[b]@.take(child@.len() as int) == child@);
                        assert(out@[b]@[p@.len() as int] == child@[p@.len() as int]) by {
                            assert(out@[b]@.take(child@.len() as int)[p@.len() as int]
                                == out@[b]@[p@.len() as int]);
                        }
                        assert(out@[b]@[p@.len() as int] == names@[i as int]@);
                        assert(names@[k]@ != names@[i as int]@);
                    }
                }
                assert forall|q: Seq<Seq<char>>|
                    #[trigger] file_at(m, q) && under(p@, q) && (exists|k: int|
                        0 <= k < i + 1 && q[p@.len() as int] == names@[k]@) implies exists|
                    a: int,
                |
                    base <= a < out@.len() && out@[a]@ == q by {
                    let k = choose|k: int|
                        0 <= k < i + 1 && q[p@.len() as int] == names@[k]@;
                    if k < i {
                        assert(exists|k2: int|
                            0 <= k2 < i && q[p@.len() as int] == names@[k2]@) by {
                            assert(0 <= k < i && q[p@.len() as int] == names@[k]@);
                        }
                        let a = choose|a: int|
                            base <= a < pre.len() && pre[a]@ == q;
                        assert(out@[a] == pre[a]);
                        assert(out@[a]@ == q);
                    } else {
                        assert(under(child@, q)) by {
                            assert(q.take(child@.len() as int) =~= child@) by {
                                assert(q.take(p@.len() as int) == p@);
                                assert(q[p@.len() as int] == names@[i as int]@);
                                assert forall|x: int|
                                    0 <= x < child@.len() implies q.take(
                                    child@.len() as int,
                                )[x] == child@[x] by {
                                    if x < p@.len() {
                                        assert(q.take(p@.len() as int)[x] == q[x]);
                                    }
                                }
                            }
                            assert(q.len() > child@.len()) by {
                                if q.len() == child@.len() {
                                    assert(q =~= child@);
                                    assert(file_at(m, child@) && dir_at(m, child@));
                                }
                            }
                        }
                        let a = choose|a: int|
                            pre_len <= a < out@.len() && out@[a]@ == q;
                        assert(out@[a]@ == q);
                    }
                }
            }
        } else {
            proof {
                assert(file_at(m, child@)) by {
                    assert(m.contains_key(child@));
                }
            }
            let ghost pre = out@;
            out.push(child);
            proof {
                assert(out@[pre_len] == pre.push(out@[pre_len]).index(pre_len));
                assert(out@[pre_len]@ == p@.push(names@[i as int]@));
                assert(under(p@, out@[pre_len]@)) by {
                    assert(out@[pre_len]@.take(p@.len() as int) =~= p@);
                }
                assert forall|a: int, b: int|
                    base <= a < b < out@.len() implies out@[a]@ != out@[b]@ by {
                    if b == pre_len && a < pre_len {
                        let k = choose|k: int|
                            0 <= k < i && out@[a]@[p@.len() as int] == names@[k]@;
                        assert(out@[b]@[p@.len() as int] == names@[i as int]@);
                        assert(names@[k]@ != names@[i as int]@);
                    }
                }
                assert forall|q: Seq<Seq<char>>|
                    #[trigger] file_at(m, q) && under(p@, q) && (exists|k: int|
                        0 <= k < i + 1 && q[p@.len() as int] == names@[k]@) implies exists|
                    a: int,
                |
                    base <= a < out@.len() && out@[a]@ == q by {
                    let k = choose|k: int|
                        0 <= k < i + 1 && q[p@.len() as int] == names@[k]@;
                    if k < i {
                        assert(exists|k2: int|
                            0 <= k2 < i && q[p@.len() as int] == names@[k2]@) by {
                            assert(0 <= k < i && q[p@.len() as int] == names@[k]@);
                        }
                        let a = choose|a: int|
                            base <= a < pre.len() && pre[a]@ == q;
                        assert(out@[a] == pre[a]);
                        assert(out@[a]@ == q);
                    } else {
                        assert(q[p@.len() as int] == names@[i as int]@);
                        if q.len() > p@.len() + 1 {
                            lemma_prefix_node(m, q, p@.len() as int + 1);
                            assert(q.take(p@.len() as int + 1) =~= child@) by {
                                assert forall|x: int|
                                    0 <= x < p@.len() as int + 1 implies q.take(p@.len() as int + 1)[x]
                                    == child@[x] by {
                                    if x < p@.len() {
                                        assert(q.take(p@.len() as int)[x] == q[x]);
                                    }
                                }
                            }
                            assert(dir_at(m, child@));
                            assert(false);
                        }
                        assert(q =~= child@);
                        assert(out@[pre_len]@ == q);
                    }
                }
            }
        }
        i = i + 1;
    }
    proof {
        assert forall|q: Seq<Seq<char>>|
            #[trigger] file_at(m, q) && under(p@, q) implies exists|a: int|
            base <= a < out@.len() && out@[a]@ == q by {
            let s = q[p@.len() as int];
            assert(m.contains_key(p@.push(s))) by {
                if q.len() == p@.len() + 1 {
                    assert(q =~= p@.push(s));
                } else {
                    lemma_prefix_node(m, q, p@.len() as int + 1);
                    assert(q.take(p@.len() as int + 1) =~= p@.push(s)) by {
                        assert forall|x: int|
                            0 <= x < p@.len() as int + 1 implies q.take(p@.len() as int + 1)[x] == p@.push(
                            s,
                        )[x] by {
                            if x < p@.len() {
                                assert(q.take(p@.len() as int)[x] == q[x]);
                            }
                        }
                    }
                }
            }
        }
    }
}

/// Whether the note's content satisfies every condition.
pub fn matches_all(content: &String, conds: &Vec<FindCondition>) -> (r: bool)
    ensures
        r == all_match(content@, conds@),
{
    let upper_s = bridge::to_uppercase(content.as_str());
    let upper = text::str_chars(upper_s.as_str());
    let n = conds.len();
    for i in 0..n
        invariant
            n == conds@.len(),
            upper@ == bridge::upper_of(content@),
            forall|j: int| 0 <= j < i ==> cond_matches(content@, #[trigger] conds@[j]),
    {
        let ok = match &conds[i] {
            FindCondition::Text(t) => {
                let tupper_s = bridge::to_uppercase(t.as_str());
                let tupper = text::str_chars(tupper_s.as_str());
                text::find_substring(&upper, &tupper)
            },
            _ => false,
        };
        if !ok {
            return false;
        }
    }
    proof {
        assert(all_match(content@, conds@));
    }
    true
}

impl Finder {
    pub closed spec fn base_view(&self) -> Seq<Seq<char>> {
        self.base_path@
    }

    pub fn new(base_path: NottoPath) -> (r: Self)
        ensures
            r.base_view() == base_path@,
    {
        Finder { base_path }
    }

    /// Searches every note strictly below `path`: the result holds one
    /// message per matching note, each exactly once and in no promised
    /// order, and the terminal mark comes last. Fails only when the root
    /// of the search is not a directory.
    pub fn find(&self, fs: &FsTree, path: &NottoPath, conditions: Vec<FindCondition>) -> (r:
        Result<Vec<NoteFindMessage>, NottoError>)
        requires
            fs.wf(),
            path.wf(),
        ensures
            r is Ok <==> dir_at(fs.tree(), path@),
            (r matches Result::Ok(msgs) ==> {
                &&& msgs@.len() >= 1
                &&& msgs@.last() is Finish
                &&& forall|i: int|
                    0 <= i < msgs@.len() - 1 ==> ((#[trigger] msgs@[i]) matches
                        NoteFindMessage::Result(res) && res.path.wf() && file_at(
                        fs.tree(),
                        res.path@,
                    ) && under(path@, res.path@) && all_match(
                        note_body(content_at(fs.tree(), res.path@)),
                        conditions@,
                    ) && res.note.content@ == note_body(content_at(fs.tree(), res.path@)))
                &&& forall|i: int, j: int|
                    0 <= i < j < msgs@.len() - 1 ==> ((#[trigger] msgs@[i]) matches
                        NoteFindMessage::Result(a) && ((#[trigger] msgs@[j]) matches
                        NoteFindMessage::Result(b) && a.path@ != b.path@))
                &&& forall|q: Seq<Seq<char>>|
                    #[trigger] file_at(fs.tree(), q) && under(path@, q) && all_match(
                        note_body(content_at(fs.tree(), q)),
                        conditions@,
                    ) ==> exists|i: int|
                        0 <= i < msgs@.len() - 1 && ((#[trigger] msgs@[i]) matches
                            NoteFindMessage::Result(res) && res.path@ == q)
            }),
    {
        if !fs.is_dir(path) {
            return Err(
                NottoError::ConfigDirectory { message: "not a directory".to_owned() },
            );
        }
        let mut leaves: Vec<NottoPath> = Vec::new();
        collect_leaves(fs, path, &mut leaves);
        let mut msgs: Vec<NoteFindMessage> = Vec::new();
        let n = leaves.len();
        let mut i: usize = 0;
        while i < n
            invariant
                0 <= i <= n,
                n == leaves@.len(),
                fs.wf(),
                path.wf(),
                forall|a: int|
                    0 <= a < n ==> (#[trigger] leaves@[a]).wf() && file_at(
                        fs.tree(),
                        leaves@[a]@,
                    ) && under(path@, leaves@[a]@),
                forall|a: int, b: int| 0 <= a < b < n ==> leaves@[a]@ != leaves@[b]@,
                forall|q: Seq<Seq<char>>|
                    #[trigger] file_at(fs.tree(), q) && under(path@, q) ==> exists|a: int|
                        0 <= a < n && leaves@[a]@ == q,
                forall|k: int|
                    0 <= k < msgs@.len() ==> ((#[trigger] msgs@[k]) matches
                        NoteFindMessage::Result(res) && res.path.wf() && file_at(
                        fs.tree(),
                        res.path@,
                    ) && under(path@, res.path@) && all_match(
                        note_body(content_at(fs.tree(), res.path@)),
                        conditions@,
                    ) && res.note.content@ == note_body(content_at(fs.tree(), res.path@))
                        && (exists|a: int| 0 <= a < i && leaves@[a]@ == res.path@)),
                forall|a: int|
                    0 <= a < i && all_match(
                        note_body(content_at(fs.tree(), #[trigger] leaves@[a]@)),
                        conditions@,
                    ) ==> exists|k: int|
                        0 <= k < msgs@.len() && ((#[trigger] msgs@[k]) matches
                            NoteFindMessage::Result(res) && res.path@ == leaves@[a]@),
                forall|k1: int, k2: int|
                    0 <= k1 < k2 < msgs@.len() ==> ((#[trigger] msgs@[k1]) matches
                        NoteFindMessage::Result(a) && ((#[trigger] msgs@[k2]) matches
                        NoteFindMessage::Result(b) && a.path@ != b.path@)),
            decreases n - i,
        {
            let leaf = &leaves[i];
            let content = match fs.read_file(leaf) {
                Some(c) => c,
                None => {
                    proof {
                        assert(false);
                    }
                    "".to_owned()
                },
            };
            let parsed = Note::from_text(content.as_str());
            proof {
                assert(parsed.content@ == note_body(content_at(fs.tree(), leaves@[i as int]@)));
            }
            if matches_all(&parsed.content, &conditions) {
                let ghost pre = msgs@;
                msgs.push(
                    NoteFindMessage::Result(
                        NoteFindResult { note: parsed, path: leaf.clone() },
                    ),
                );
                proof {
                    assert(forall|k: int| 0 <= k < pre.len() ==> msgs@[k] == pre[k]);
                    assert(msgs@[pre.len() as int] matches NoteFindMessage::Result(res)
                        && res.path@ == leaves@[i as int]@);
                    assert forall|a: int|
                        0 <= a < i + 1 && all_match(
                            note_body(content_at(fs.tree(), #[trigger] leaves@[a]@)),
                            conditions@,
                        ) implies exists|k: int|
                        0 <= k < msgs@.len() && ((#[trigger] msgs@[k]) matches
                            NoteFindMessage::Result(res) && res.path@ == leaves@[a]@) by {
                        if a < i {
                            let k = choose|k: int|
                                0 <= k < pre.len() && ((#[trigger] pre[k]) matches
                                    NoteFindMessage::Result(res) && res.path@ == leaves@[a]@);
                            assert(msgs@[k] == pre[k]);
                            assert((msgs@[k]) matches NoteFindMessage::Result(res)
                                && res.path@ == leaves@[a]@);
                        } else {
                            assert((msgs@[pre.len() as int]) matches NoteFindMessage::Result(
                                res,
                            ) && res.path@ == leaves@[a]@);
                        }
                    }
                    assert forall|k1: int, k2: int|
                        0 <= k1 < k2 < msgs@.len() implies ((#[trigger] msgs@[k1]) matches
                        NoteFindMessage::Result(a1) && ((#[trigger] msgs@[k2]) matches
                        NoteFindMessage::Result(b1) && a1.path@ != b1.path@)) by {
                        if k2 == pre.len() as int {
                            assert(msgs@[k1] == pre[k1]);
                            assert((pre[k1]) matches NoteFindMessage::Result(a1) ==> exists|
                                aa: int,
                            | 0 <= aa < i && leaves@[aa]@ == a1.path@);
                        } else {
                            assert(msgs@[k1] == pre[k1] && msgs@[k2] == pre[k2]);
                        }
                    }
                }
            }
            i = i + 1;
        }
        let ghost pre_f = msgs@;
        msgs.push(NoteFindMessage::Finish);
        proof {
            assert(forall|k: int| 0 <= k < pre_f.len() ==> msgs@[k] == pre_f[k]);
            assert(msgs@.last() is Finish);
            assert forall|q: Seq<Seq<char>>|
                #[trigger] file_at(fs.tree(), q) && under(path@, q) && all_match(
                    note_body(content_at(fs.tree(), q)),
                    conditions@,
                ) implies exists|k: int|
                0 <= k < msgs@.len() - 1 && ((#[trigger] msgs@[k]) matches
                    NoteFindMessage::Result(res) && res.path@ == q) by {
                let a = choose|a: int| 0 <= a < n && leaves@[a]@ == q;
                assert(all_match(note_body(content_at(fs.tree(), leaves@[a]@)), conditions@));
                let k = choose|k: int|
                    0 <= k < pre_f.len() && ((#[trigger] pre_f[k]) matches
                        NoteFindMessage::Result(res) && res.path@ == leaves@[a]@);
                assert(msgs@[k] == pre_f[k]);
                assert((msgs@[k]) matches NoteFindMessage::Result(res) && res.path@ == q);
            }
        }
        Ok(msgs)
    }
}

} // verus!
