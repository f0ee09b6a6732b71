use vstd::prelude::*;
use crate::text;

verus! {

broadcast use crate::seqviews::lemma_segments_deep_view;

/// One step of splitting a raw path string on `/`: `cur` is the segment
/// being read, `acc` the segments already read. Empty segments (from
/// repeated separators) are dropped.
pub open spec fn split_acc(s: Seq<char>, cur: Seq<char>, acc: Seq<Seq<char>>) -> Seq<Seq<char>>
    decreases s.len(),
{
    if s.len() == 0 {
        if cur.len() > 0 {
            acc.push(cur)
        } else {
            acc
        }
    } else if s[0] == '/' {
        split_acc(
            s.drop_first(),
            Seq::empty(),
            if cur.len() > 0 {
                acc.push(cur)
            } else {
                acc
            },
        )
    } else {
        split_acc(s.drop_first(), cur.push(s[0]), acc)
    }
}

/// The non-empty segments of a raw path string, in order.
pub open spec fn path_segments_of(s: Seq<char>) -> Seq<Seq<char>> {
    split_acc(s, Seq::empty(), Seq::empty())
}

/// Splitting distributes over the accumulator.
pub proof fn lemma_split_acc_unfold(s: Seq<char>, cur: Seq<char>, acc: Seq<Seq<char>>)
    ensures
        split_acc(s, cur, acc) == acc + split_acc(s, cur, Seq::empty()),
    decreases s.len(),
{
    if s.len() == 0 {
        if cur.len() > 0 {
            assert(acc.push(cur) =~= acc + Seq::<Seq<char>>::empty().push(cur));
        } else {
            assert(acc =~= acc + Seq::<Seq<char>>::empty());
        }
    } else if s[0] == '/' {
        if cur.len() > 0 {
            lemma_split_acc_unfold(s.drop_first(), Seq::empty(), acc.push(cur));
            lemma_split_acc_unfold(s.drop_first(), Seq::empty(), Seq::<Seq<char>>::empty().push(cur));
            assert(acc.push(cur) =~= acc + Seq::<Seq<char>>::empty().push(cur));
            assert(acc.push(cur) + split_acc(s.drop_first(), Seq::empty(), Seq::empty())
                =~= acc + (Seq::<Seq<char>>::empty().push(cur) + split_acc(
                s.drop_first(),
                Seq::empty(),
                Seq::empty(),
            )));
        } else {
            lemma_split_acc_unfold(s.drop_first(), Seq::empty(), acc);
        }
    } else {
        lemma_split_acc_unfold(s.drop_first(), cur.push(s[0]), acc);
    }
}

/// Every segment that splitting yields is non-empty and free of separators.
pub proof fn lemma_split_acc_wf(s: Seq<char>, cur: Seq<char>, acc: Seq<Seq<char>>)
    requires
        !cur.contains('/'),
        forall|i: int| 0 <= i < acc.len() ==> #[trigger] NottoPath::seg_wf(acc[i]),
    ensures
        forall|i: int|
            0 <= i < split_acc(s, cur, acc).len() ==> #[trigger] NottoPath::seg_wf(
                split_acc(s, cur, acc)[i],
            ),
    decreases s.len(),
{
    if s.len() == 0 {
        if cur.len() > 0 {
            assert(split_acc(s, cur, acc) == acc.push(cur));
            assert forall|i: int| 0 <= i < acc.push(cur).len() implies #[trigger] NottoPath::seg_wf(
                acc.push(cur)[i],
            ) by {
                if i < acc.len() {
                    assert(NottoPath::seg_wf(acc[i]));
                } else {
                    assert(acc.push(cur)[i] == cur);
                }
            }
        } else {
            assert(split_acc(s, cur, acc) == acc);
        }
    } else if s[0] == '/' {
        if cur.len() > 0 {
            assert(split_acc(s, cur, acc) == split_acc(s.drop_first(), Seq::empty(), acc.push(cur)));
            assert forall|i: int| 0 <= i < acc.push(cur).len() implies #[trigger] NottoPath::seg_wf(
                acc.push(cur)[i],
            ) by {
                if i < acc.len() {
                    assert(NottoPath::seg_wf(acc[i]));
                } else {
                    assert(acc.push(cur)[i] == cur);
                }
            }
            lemma_split_acc_wf(s.drop_first(), Seq::empty(), acc.push(cur));
        } else {
            assert(split_acc(s, cur, acc) == split_acc(s.drop_first(), Seq::empty(), acc));
            lemma_split_acc_wf(s.drop_first(), Seq::empty(), acc);
        }
    } else {
        assert(split_acc(s, cur, acc) == split_acc(s.drop_first(), cur.push(s[0]), acc));
        assert(!cur.push(s[0]).contains('/')) by {
            assert(forall|j: int|
                0 <= j < cur.push(s[0]).len() ==> #[trigger] cur.push(s[0])[j] != '/');
        }
        lemma_split_acc_wf(s.drop_first(), cur.push(s[0]), acc);
    }
}

/// The segments joined back into a raw path string with `/` separators.
pub open spec fn joined(segs: Seq<Seq<char>>) -> Seq<char>
    decreases segs.len(),
{
    if segs.len() == 0 {
        Seq::empty()
    } else if segs.len() == 1 {
        segs[0]
    } else {
        joined(segs.drop_last()) + seq!['/'] + segs.last()
    }
}


/// A separator-free chunk is consumed into the segment being read.
pub proof fn lemma_split_acc_chunk(c: Seq<char>, tail: Seq<char>, cur: Seq<char>, acc: Seq<Seq<char>>)
    requires
        !c.contains('/'),
    ensures
        split_acc(c + tail, cur, acc) == split_acc(tail, cur + c, acc),
    decreases c.len(),
{
    if c.len() == 0 {
        assert(c + tail =~= tail);
        assert(cur + c =~= cur);
    } else {
        assert(c[0] != '/') by {
            if c[0] == '/' {
                assert(c.contains('/')) by {
                    assert(c[0] == '/');
                }
            }
        }
        assert((c + tail)[0] == c[0]);
        assert((c + tail).drop_first() =~= c.drop_first() + tail);
        assert(!c.drop_first().contains('/')) by {
            if c.drop_first().contains('/') {
                let k = choose|k: int| 0 <= k < c.drop_first().len() && c.drop_first()[k] == '/';
                assert(c[k + 1] == '/');
            }
        }
        lemma_split_acc_chunk(c.drop_first(), tail, cur.push(c[0]), acc);
        assert(cur.push(c[0]) + c.drop_first() =~= cur + c);
    }
}

/// Splitting peels one leading segment at its separator.
pub proof fn lemma_segments_chunk(c: Seq<char>, rest: Seq<char>)
    requires
        c.len() > 0,
        !c.contains('/'),
    ensures
        path_segments_of(c + seq!['/'] + rest) == seq![c] + path_segments_of(rest),
{
    let s = c + seq!['/'] + rest;
    assert(s =~= c + (seq!['/'] + rest));
    lemma_split_acc_chunk(c, seq!['/'] + rest, Seq::empty(), Seq::empty());
    assert(Seq::<char>::empty() + c =~= c);
    assert((seq!['/'] + rest)[0] == '/');
    assert((seq!['/'] + rest).drop_first() =~= rest);
    assert(Seq::<Seq<char>>::empty().push(c) =~= seq![c]);
    assert(split_acc(seq!['/'] + rest, c, Seq::empty()) == split_acc(rest, Seq::empty(), seq![c]));
    lemma_split_acc_unfold(rest, Seq::empty(), seq![c]);
}

/// A lone separator-free name is a single segment.
pub proof fn lemma_segments_single(c: Seq<char>)
    requires
        c.len() > 0,
        !c.contains('/'),
    ensures
        path_segments_of(c) == seq![c],
{
    lemma_split_acc_chunk(c, Seq::empty(), Seq::empty(), Seq::empty());
    assert(c + Seq::<char>::empty() =~= c);
    assert(Seq::<char>::empty() + c =~= c);
    assert(split_acc(Seq::empty(), c, Seq::empty()) == Seq::<Seq<char>>::empty().push(c));
    assert(Seq::<Seq<char>>::empty().push(c) =~= seq![c]);
}

/// A logical, normalized note path: a sequence of non-empty, separator-free
/// segments, independent of how the note is materialized on disk.
pub struct NottoPath {
    segments: Vec<String>,
}

impl NottoPath {
    /// The mathematical value of a path: its segments, each as a character
    /// sequence.
    pub closed spec fn view(&self) -> Seq<Seq<char>> {
        self.segments.deep_view()
    }

    /// Every segment is non-empty and contains no separator.
    pub open spec fn seg_wf(seg: Seq<char>) -> bool {
        seg.len() > 0 && !seg.contains('/')
    }

    pub open spec fn path_wf(p: Seq<Seq<char>>) -> bool {
        forall|i: int| 0 <= i < p.len() ==> #[trigger] Self::seg_wf(p[i])
    }

    pub open spec fn wf(&self) -> bool {
        Self::path_wf(self@)
    }

    /// The empty path, which denotes the root.
    pub fn new() -> (r: Self)
        ensures
            r@ =~= Seq::<Seq<char>>::empty(),
            r.wf(),
    {
        Self { segments: Vec::new() }
    }

    pub fn seg_count(&self) -> (n: usize)
        ensures
            n == self@.len(),
    {
        self.segments.len()
    }

    pub fn is_empty(&self) -> (r: bool)
        ensures
            r == (self@.len() == 0),
    {
        self.segments.len() == 0
    }

    pub fn seg_at(&self, i: usize) -> (r: &String)
        requires
            i < self@.len(),
        ensures
            r@ == self@[i as int],
    {
        &self.segments[i]
    }

    /// Appends the non-empty segments of a raw, `/`-separated string.
    pub fn push(&mut self, path: &str)
        requires
            old(self).wf(),
        ensures
            final(self).wf(),
            final(self)@ == old(self)@ + path_segments_of(path@),
    {
        let chars = text::str_chars(path);
        let mut cur: Vec<char> = Vec::new();
        let ghost orig = self@;
        let mut i: usize = 0;
        proof {
            assert(chars@.skip(0) =~= chars@);
        }
        while i < chars.len()
            invariant
                0 <= i <= chars@.len(),
                chars@ == path@,
                !cur@.contains('/'),
                orig + path_segments_of(path@) == self@ + split_acc(
                    chars@.skip(i as int),
                    cur@,
                    Seq::empty(),
                ),
            decreases chars@.len() - i,
        {
            let c = chars[i];
            proof {
                assert(chars@.skip(i as int).drop_first() =~= chars@.skip(i + 1));
            }
            if c == '/' {
                if cur.len() > 0 {
                    proof {
                        assert(split_acc(chars@.skip(i as int), cur@, Seq::empty())
                            == split_acc(
                            chars@.skip(i + 1),
                            Seq::empty(),
                            Seq::<Seq<char>>::empty().push(cur@),
                        ));
                        lemma_split_acc_unfold(
                            chars@.skip(i + 1),
                            Seq::empty(),
                            Seq::<Seq<char>>::empty().push(cur@),
                        );
                    }
                    let seg = text::chars_to_string(&cur);
                    let ghost pre = self@;
                    self.segments.push(seg);
                    proof {
                        assert(self@ =~= pre.push(cur@));
                        assert(pre.push(cur@) + split_acc(
                            chars@.skip(i + 1),
                            Seq::empty(),
                            Seq::empty(),
                        ) =~= pre + (Seq::<Seq<char>>::empty().push(cur@) + split_acc(
                            chars@.skip(i + 1),
                            Seq::empty(),
                            Seq::empty(),
                        )));
                    }
                    cur = Vec::new();
                } else {
                    proof {
                        assert(cur@ =~= Seq::<char>::empty());
                        assert(split_acc(chars@.skip(i as int), cur@, Seq::empty())
                            == split_acc(chars@.skip(i + 1), Seq::empty(), Seq::empty()));
                    }
                }
            } else {
                let ghost curv = cur@;
                proof {
                    assert(split_acc(chars@.skip(i as int), curv, Seq::empty())
                        == split_acc(chars@.skip(i + 1), curv.push(c), Seq::empty()));
                }
                cur.push(c);
                proof {
                    assert(!cur@.contains('/')) by {
                        assert(forall|j: int|
                            0 <= j < cur@.len() ==> #[trigger] cur@[j] != '/');
                    }
                }
            }
            i = i + 1;
        }
        proof {
            assert(chars@.skip(i as int) =~= Seq::<char>::empty());
        }
        if cur.len() > 0 {
            let seg = text::chars_to_string(&cur);
            let ghost pre = self@;
            self.segments.push(seg);
            proof {
                assert(self@ =~= pre.push(cur@));
            }
        }
        proof {
            assert(self@ =~= orig + path_segments_of(path@));
            lemma_split_acc_wf(path@, Seq::empty(), Seq::empty());
            assert forall|j: int| 0 <= j < self@.len() implies #[trigger] NottoPath::seg_wf(
                self@[j],
            ) by {
                if j < orig.len() {
                    assert(NottoPath::seg_wf(orig[j]));
                } else {
                    assert(self@[j] == path_segments_of(path@)[j - orig.len()]);
                }
            }
        }
    }

    /// The path extended by one well-formed segment.
    pub fn join_seg(&self, seg: &String) -> (r: NottoPath)
        requires
            Self::seg_wf(seg@),
        ensures
            r@ == self@.push(seg@),
            self.wf() ==> r.wf(),
    {
        let mut segments = clone_segments(&self.segments);
        segments.push(seg.clone());
        let r = NottoPath { segments };
        proof {
            assert(r@ =~= self@.push(seg@));
            if self.wf() {
                assert forall|i: int| 0 <= i < r@.len() implies #[trigger] NottoPath::seg_wf(
                    r@[i],
                ) by {
                    if i < self@.len() {
                        assert(NottoPath::seg_wf(self@[i]));
                    }
                }
            }
        }
        r
    }

    /// The path without its last segment.
    pub fn parent(&self) -> (r: NottoPath)
        requires
            self@.len() > 0,
        ensures
            r@ == self@.drop_last(),
            self.wf() ==> r.wf(),
    {
        let mut segments = clone_segments(&self.segments);
        let _ = segments.pop();
        let r = NottoPath { segments };
        proof {
            assert(r@ =~= self@.drop_last());
            if self.wf() {
                assert forall|i: int| 0 <= i < r@.len() implies #[trigger] NottoPath::seg_wf(
                    r@[i],
                ) by {
                    assert(NottoPath::seg_wf(self@[i]));
                }
            }
        }
        r
    }

    pub fn last_seg(&self) -> (r: &String)
        requires
            self@.len() > 0,
        ensures
            r@ == self@.last(),
    {
        &self.segments[self.segments.len() - 1]
    }

    /// The first `k` segments.
    pub fn prefix(&self, k: usize) -> (r: NottoPath)
        requires
            k <= self@.len(),
        ensures
            r@ == self@.take(k as int),
            self.wf() ==> r.wf(),
    {
        let mut segments: Vec<String> = Vec::new();
        let mut i: usize = 0;
        while i < k
            invariant
                0 <= i <= k <= self@.len(),
                segments.deep_view() =~= self@.take(i as int),
            decreases k - i,
        {
            let ghost pre = segments.deep_view();
            let c = self.segments[i].clone();
            proof {
                assert(c@ == self@[i as int]);
            }
            segments.push(c);
            proof {
                assert(segments.deep_view() =~= pre.push(c@));
                assert(segments.deep_view() =~= self@.take((i + 1) as int));
            }
            i = i + 1;
        }
        let r = NottoPath { segments };
        proof {
            if self.wf() {
                assert forall|j: int| 0 <= j < r@.len() implies #[trigger] NottoPath::seg_wf(
                    r@[j],
                ) by {
                    assert(NottoPath::seg_wf(self@[j]));
                }
            }
        }
        r
    }


    /// This path followed by all segments of `other`.
    pub fn concat(&self, other: &NottoPath) -> (r: NottoPath)
        ensures
            r@ == self@ + other@,
            self.wf() && other.wf() ==> r.wf(),
    {
        let mut segments = clone_segments(&self.segments);
        let mut tail = clone_segments(&other.segments);
        segments.append(&mut tail);
        let r = NottoPath { segments };
        proof {
            assert(r@ =~= self@ + other@);
            if self.wf() && other.wf() {
                assert forall|i: int| 0 <= i < r@.len() implies #[trigger] NottoPath::seg_wf(
                    r@[i],
                ) by {
                    if i < self@.len() {
                        assert(NottoPath::seg_wf(self@[i]));
                    } else {
                        assert(NottoPath::seg_wf(other@[i - self@.len()]));
                    }
                }
            }
        }
        r
    }

    /// Whether the two paths have the same segments.
    pub fn same_path(&self, other: &NottoPath) -> (r: bool)
        ensures
            r == (self@ == other@),
    {
        if self.segments.len() != other.segments.len() {
            proof {
                assert(self@.len() != other@.len());
            }
            return false;
        }
        let n = self.segments.len();
        for i in 0..n
            invariant
                n == self@.len(),
                n == other@.len(),
                forall|j: int| 0 <= j < i ==> self@[j] == other@[j],
        {
            if !str_eq(&self.segments[i], &other.segments[i]) {
                proof {
                    assert(self@[i as int] != other@[i as int]);
                }
                return false;
            }
            proof {
                assert(self@[i as int] == other@[i as int]);
            }
        }
        proof {
            assert(self@ =~= other@);
        }
        true
    }

    /// Whether `base` is a (not necessarily proper) leading prefix of this
    /// path.
    pub fn starts_with(&self, base: &NottoPath) -> (r: bool)
        ensures
            r == (base@.len() <= self@.len() && self@.take(base@.len() as int) == base@),
    {
        if base.segments.len() > self.segments.len() {
            return false;
        }
        let n = base.segments.len();
        for i in 0..n
            invariant
                n == base@.len(),
                n <= self@.len(),
                forall|j: int| 0 <= j < i ==> self@[j] == base@[j],
        {
            if !str_eq(&self.segments[i], &base.segments[i]) {
                proof {
                    assert(self@.take(base@.len() as int)[i as int] != base@[i as int]);
                }
                return false;
            }
        }
        proof {
            assert(self@.take(base@.len() as int) =~= base@);
        }
        true
    }

    /// The path with a leading `base` removed; the path itself when `base`
    /// is not a prefix.
    pub fn strip_prefix(&self, base: &NottoPath) -> (r: NottoPath)
        ensures
            r@ == (if base@.len() <= self@.len() && self@.take(base@.len() as int) == base@ {
                self@.skip(base@.len() as int)
            } else {
                self@
            }),
            self.wf() ==> r.wf(),
    {
        if self.starts_with(base) {
            let n = self.segments.len();
            let k = base.segments.len();
            let mut segments: Vec<String> = Vec::new();
            let mut i: usize = k;
            while i < n
                invariant
                    k <= i <= n,
                    n == self@.len(),
                    segments.deep_view() =~= self@.subrange(k as int, i as int),
                decreases n - i,
            {
                let ghost pre = segments.deep_view();
                let c = self.segments[i].clone();
                proof {
                    assert(c@ == self@[i as int]);
                }
                segments.push(c);
                proof {
                    assert(segments.deep_view() =~= pre.push(c@));
                    assert(segments.deep_view() =~= self@.subrange(k as int, (i + 1) as int));
                }
                i = i + 1;
            }
            let r = NottoPath { segments };
            proof {
                assert(r@ =~= self@.skip(k as int));
                if self.wf() {
                    assert forall|j: int| 0 <= j < r@.len() implies #[trigger] NottoPath::seg_wf(
                        r@[j],
                    ) by {
                        assert(NottoPath::seg_wf(self@[k + j]));
                    }
                }
            }
            r
        } else {
            NottoPath { segments: clone_segments(&self.segments) }
        }
    }

    /// The raw `/`-separated form of the path.
    pub fn to_path_string(&self) -> (r: String)
        ensures
            r@ == joined(self@),
    {
        let mut out: Vec<char> = Vec::new();
        let n = self.segments.len();
        let mut i: usize = 0;
        while i < n
            invariant
                0 <= i <= n,
                n == self@.len(),
                out@ == joined(self@.take(i as int)),
            decreases n - i,
        {
            if i > 0 {
                out.push('/');
            }
            let mut seg = text::str_chars(self.segments[i].as_str());
            out.append(&mut seg);
            proof {
                let t = self@.take((i + 1) as int);
                assert(t.drop_last() =~= self@.take(i as int));
                assert(t.last() == self@[i as int]);
                if i == 0 {
                    assert(out@ =~= joined(t));
                } else {
                    assert(out@ =~= joined(t));
                }
            }
            i = i + 1;
        }
        proof {
            assert(self@.take(n as int) =~= self@);
        }
        text::chars_to_string(&out)
    }
}

impl Clone for NottoPath {
    /// Cloning keeps the path's value.
    fn clone(&self) -> (r: Self)
        ensures
            r@ == self@,
    {
        NottoPath { segments: clone_segments(&self.segments) }
    }
}

/// String equality by value.
pub fn str_eq(a: &String, b: &String) -> (r: bool)
    ensures
        r == (a@ == b@),
{
    a.eq(b)
}

fn clone_segments(v: &Vec<String>) -> (r: Vec<String>)
    ensures
        r.deep_view() == v.deep_view(),
        r@.len() == v@.len(),
        forall|i: int| 0 <= i < v@.len() ==> #[trigger] r@[i]@ == v@[i]@,
{
    let mut r: Vec<String> = Vec::new();
    let n = v.len();
    for i in 0..n
        invariant
            n == v@.len(),
            r@.len() == i,
            forall|j: int| 0 <= j < i ==> #[trigger] r@[j]@ == v@[j]@,
    {
        r.push(v[i].clone());
    }
    proof {
        assert(r.deep_view() =~= v.deep_view());
    }
    r
}


} // verus!
