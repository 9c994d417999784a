use vstd::prelude::*;
use crate::bytes::{
    compare_segments, copy_bytes, lemma_seg_lt_transitive, lemma_seg_lt_trichotomy, seg_lt, segs_view,
};
use crate::model::{ErrorKind, TreeError};

verus! {

/// A regular file as the path tree records it.
pub struct File {
    pub path: Vec<Vec<u8>>,
    pub last_modified: u64,
    pub file_size: u64,
    pub hash: Vec<u8>,
}

/// A directory as the path tree records it.
pub struct Directory {
    pub path: Vec<Vec<u8>>,
    pub last_modified: u64,
    pub hash: Vec<u8>,
}

pub enum Entry {
    Directory(Directory),
    File(File),
}

/// The mathematical value of a path-tree node: its segment, its data and its
/// children in key order.
pub struct PathModel<D> {
    pub segment: Seq<u8>,
    pub data: D,
    pub children: Seq<PathModel<D>>,
}

/// The number of leading children whose segment sorts before `seg`.
pub open spec fn key_position<D>(cs: Seq<PathModel<D>>, seg: Seq<u8>) -> int
    decreases cs.len(),
{
    if cs.len() == 0 {
        0
    } else {
        let p = key_position(cs.drop_last(), seg);
        if p == cs.len() - 1 && seg_lt(cs.last().segment, seg) {
            cs.len() as int
        } else {
            p
        }
    }
}

pub open spec fn key_index<D>(cs: Seq<PathModel<D>>, seg: Seq<u8>) -> Option<int> {
    let p = key_position(cs, seg);
    if p < cs.len() && cs[p].segment == seg {
        Some(p)
    } else {
        None
    }
}

/// The node reached from `n` along `p`.
pub open spec fn path_at<D>(n: PathModel<D>, p: Seq<Seq<u8>>) -> Option<PathModel<D>>
    decreases p.len(),
{
    if p.len() == 0 {
        Some(n)
    } else {
        match key_index(n.children, p[0]) {
            None => None,
            Some(i) => path_at(n.children[i], p.drop_first()),
        }
    }
}

pub open spec fn path_leaf<D>(seg: Seq<u8>, d: D) -> PathModel<D> {
    PathModel { segment: seg, data: d, children: Seq::empty() }
}

pub open spec fn with_kids<D>(n: PathModel<D>, cs: Seq<PathModel<D>>) -> PathModel<D> {
    PathModel { segment: n.segment, data: n.data, children: cs }
}

/// The tree after adding `d` as a new leaf at `p`.
pub open spec fn path_insert<D>(n: PathModel<D>, p: Seq<Seq<u8>>, d: D) -> Result<PathModel<D>, ErrorKind>
    decreases p.len(),
{
    if p.len() == 0 {
        Err(ErrorKind::AlreadyExists)
    } else {
        let i = key_position(n.children, p[0]);
        let found = key_index(n.children, p[0]) is Some;
        if p.len() == 1 {
            if found {
                Err(ErrorKind::AlreadyExists)
            } else {
                Ok(with_kids(n, n.children.insert(i, path_leaf(p[0], d))))
            }
        } else if !found {
            Err(ErrorKind::NotFound)
        } else {
            match path_insert(n.children[i], p.drop_first(), d) {
                Err(x) => Err(x),
                Ok(c) => Ok(with_kids(n, n.children.update(i, c))),
            }
        }
    }
}

/// The tree after replacing the data of the node at `p`.
pub open spec fn path_update<D>(n: PathModel<D>, p: Seq<Seq<u8>>, d: D) -> Result<PathModel<D>, ErrorKind>
    decreases p.len(),
{
    if p.len() == 0 {
        Ok(PathModel { segment: n.segment, data: d, children: n.children })
    } else {
        match key_index(n.children, p[0]) {
            None => Err(ErrorKind::NotFound),
            Some(i) => match path_update(n.children[i], p.drop_first(), d) {
                Err(x) => Err(x),
                Ok(c) => Ok(with_kids(n, n.children.update(i, c))),
            },
        }
    }
}

/// The tree after detaching the subtree at `p`.
pub open spec fn path_remove<D>(n: PathModel<D>, p: Seq<Seq<u8>>) -> Result<PathModel<D>, ErrorKind>
    decreases p.len(),
{
    if p.len() == 0 {
        Err(ErrorKind::NotFound)
    } else {
        match key_index(n.children, p[0]) {
            None => Err(ErrorKind::NotFound),
            Some(i) => if p.len() == 1 {
                Ok(with_kids(n, n.children.remove(i)))
            } else {
                match path_remove(n.children[i], p.drop_first()) {
                    Err(x) => Err(x),
                    Ok(c) => Ok(with_kids(n, n.children.update(i, c))),
                }
            },
        }
    }
}

/// `r` reports the outcome `res` of an operation that took the tree from
/// `before` to `after`.
pub open spec fn path_applied<D>(before: PathModel<D>, after: PathModel<D>, res: Result<PathModel<D>, ErrorKind>, r: Result<(), ErrorKind>) -> bool {
    match res {
        Ok(m) => r is Ok && after == m,
        Err(x) => r == Err::<(), ErrorKind>(x) && after == before,
    }
}

/// `r` reports to a caller who gave the path `p` the outcome `res` of an
/// operation that took the tree from `before` to `after`.
pub open spec fn path_reported<D>(
    before: PathModel<D>,
    after: PathModel<D>,
    res: Result<PathModel<D>, ErrorKind>,
    r: Result<(), TreeError>,
    p: Seq<Seq<u8>>,
) -> bool {
    match res {
        Ok(m) => r is Ok && after == m,
        Err(k) => r is Err && r->Err_0.kind() == k && r->Err_0.path_view() == p && after == before,
    }
}

proof fn lemma_key_position_unique<D>(cs: Seq<PathModel<D>>, seg: Seq<u8>, p: int)
    requires
        0 <= p <= cs.len(),
        forall|k: int| 0 <= k < p ==> seg_lt(#[trigger] cs[k].segment, seg),
        p < cs.len() ==> !seg_lt(cs[p].segment, seg),
    ensures
        p == key_position(cs, seg),
    decreases cs.len(),
{
    if cs.len() > 0 {
        if p == cs.len() {
            lemma_key_position_unique(cs.drop_last(), seg, p - 1);
        } else {
            assert forall|k: int| 0 <= k < p implies seg_lt(#[trigger] cs.drop_last()[k].segment, seg) by {
                assert(cs.drop_last()[k] == cs[k]);
            }
            if p < cs.len() - 1 {
                lemma_key_position_unique(cs.drop_last(), seg, p);
            } else {
                lemma_key_position_unique(cs.drop_last(), seg, p);
            }
        }
    }
}

/// Children are stored in strictly increasing key order, so keys are unique.
pub open spec fn keys_sorted<D>(cs: Seq<PathModel<D>>) -> bool {
    forall|i: int, j: int| 0 <= i < j < cs.len() ==> seg_lt(#[trigger] cs[i].segment, #[trigger] cs[j].segment)
}

/// Every node's children are in strictly increasing key order.
pub open spec fn path_wf<D>(n: PathModel<D>) -> bool
    decreases n,
{
    &&& keys_sorted(n.children)
    &&& forall|i: int| 0 <= i < n.children.len() ==> path_wf(#[trigger] n.children[i])
}

proof fn lemma_key_position<D>(cs: Seq<PathModel<D>>, seg: Seq<u8>)
    ensures
        0 <= key_position(cs, seg) <= cs.len(),
        forall|k: int| 0 <= k < key_position(cs, seg) ==> seg_lt(#[trigger] cs[k].segment, seg),
        key_position(cs, seg) < cs.len() ==> !seg_lt(cs[key_position(cs, seg)].segment, seg),
    decreases cs.len(),
{
    if cs.len() > 0 {
        lemma_key_position(cs.drop_last(), seg);
        assert forall|k: int| 0 <= k < cs.len() - 1 implies cs.drop_last()[k] == cs[k] by {}
    }
}

proof fn lemma_keys_sorted_insert<D>(cs: Seq<PathModel<D>>, x: PathModel<D>)
    requires
        keys_sorted(cs),
        key_index(cs, x.segment) is None,
    ensures
        keys_sorted(cs.insert(key_position(cs, x.segment), x)),
{
    let seg = x.segment;
    lemma_key_position(cs, seg);
    let i = key_position(cs, seg);
    let ns = cs.insert(i, x);
    if i < cs.len() {
        lemma_seg_lt_trichotomy(cs[i].segment, seg);
    }
    assert forall|a: int, b: int| 0 <= a < b < ns.len() implies seg_lt(#[trigger] ns[a].segment, #[trigger] ns[b].segment) by {
        if b < i {
        } else if b == i {
        } else if a < i {
            assert(seg_lt(cs[a].segment, cs[b - 1].segment));
        } else if a == i {
            if b - 1 > i {
                assert(seg_lt(cs[i].segment, cs[b - 1].segment));
                lemma_seg_lt_transitive(seg, cs[i].segment, cs[b - 1].segment);
            }
        } else {
            assert(seg_lt(cs[a - 1].segment, cs[b - 1].segment));
        }
    }
}

/// Insertion keeps every key list sorted, and keeps the root's segment.
pub proof fn lemma_path_insert_wf<D>(n: PathModel<D>, p: Seq<Seq<u8>>, d: D)
    requires
        path_wf(n),
    ensures
        path_insert(n, p, d) matches Ok(m) ==> path_wf(m) && m.segment == n.segment,
    decreases p.len(),
{
    if p.len() > 0 {
        let cs = n.children;
        let i = key_position(cs, p[0]);
        lemma_key_position(cs, p[0]);
        if p.len() == 1 {
            if key_index(cs, p[0]) is None {
                let x = path_leaf(p[0], d);
                lemma_keys_sorted_insert(cs, x);
                let ns = cs.insert(i, x);
                assert forall|k: int| 0 <= k < ns.len() implies path_wf(#[trigger] ns[k]) by {
                    if k > i {
                        assert(ns[k] == cs[k - 1]);
                    } else if k == i {
                        assert(x.children.len() == 0);
                    }
                }
            }
        } else if key_index(cs, p[0]) is Some {
            lemma_path_insert_wf(cs[i], p.drop_first(), d);
            if let Ok(c) = path_insert(cs[i], p.drop_first(), d) {
                let ns = cs.update(i, c);
                assert forall|a: int, b: int| 0 <= a < b < ns.len() implies seg_lt(#[trigger] ns[a].segment, #[trigger] ns[b].segment) by {
                    assert(seg_lt(cs[a].segment, cs[b].segment));
                }
            }
        }
    }
}

/// Replacing data keeps every key list sorted.
pub proof fn lemma_path_update_wf<D>(n: PathModel<D>, p: Seq<Seq<u8>>, d: D)
    requires
        path_wf(n),
    ensures
        path_update(n, p, d) matches Ok(m) ==> path_wf(m) && m.segment == n.segment,
    decreases p.len(),
{
    if p.len() > 0 {
        if let Some(i) = key_index(n.children, p[0]) {
            let cs = n.children;
            lemma_key_position(cs, p[0]);
            lemma_path_update_wf(cs[i], p.drop_first(), d);
            if let Ok(c) = path_update(cs[i], p.drop_first(), d) {
                let ns = cs.update(i, c);
                assert forall|a: int, b: int| 0 <= a < b < ns.len() implies seg_lt(#[trigger] ns[a].segment, #[trigger] ns[b].segment) by {
                    assert(seg_lt(cs[a].segment, cs[b].segment));
                }
            }
        }
    }
}

/// Removal keeps every key list sorted.
pub proof fn lemma_path_remove_wf<D>(n: PathModel<D>, p: Seq<Seq<u8>>)
    requires
        path_wf(n),
    ensures
        path_remove(n, p) matches Ok(m) ==> path_wf(m) && m.segment == n.segment,
    decreases p.len(),
{
    if p.len() > 0 {
        if let Some(i) = key_index(n.children, p[0]) {
            let cs = n.children;
            lemma_key_position(cs, p[0]);
            if p.len() == 1 {
                let ns = cs.remove(i);
                assert forall|a: int, b: int| 0 <= a < b < ns.len() implies seg_lt(#[trigger] ns[a].segment, #[trigger] ns[b].segment) by {
                    let a0 = if a < i { a } else { a + 1 };
                    let b0 = if b < i { b } else { b + 1 };
                    assert(seg_lt(cs[a0].segment, cs[b0].segment));
                }
                assert forall|k: int| 0 <= k < ns.len() implies path_wf(#[trigger] ns[k]) by {
                    if k >= i {
                        assert(ns[k] == cs[k + 1]);
                    }
                }
            } else {
                lemma_path_remove_wf(cs[i], p.drop_first());
                if let Ok(c) = path_remove(cs[i], p.drop_first()) {
                    let ns = cs.update(i, c);
                    assert forall|a: int, b: int| 0 <= a < b < ns.len() implies seg_lt(#[trigger] ns[a].segment, #[trigger] ns[b].segment) by {
                        assert(seg_lt(cs[a].segment, cs[b].segment));
                    }
                }
            }
        }
    }
}

/// One node of a path tree; it owns its children, kept in increasing
/// segment order.
pub struct PathNode<D> {
    segment: Vec<u8>,
    data: D,
    children: Vec<PathNode<D>>,
}

impl<D> PathNode<D> {
    pub closed spec fn model(&self) -> PathModel<D>
        decreases self,
    {
        PathModel {
            segment: self.segment@,
            data: self.data,
            children: Seq::new(
                self.children@.len(),
                |i: int|
                    if 0 <= i < self.children@.len() {
                        self.children@[i].model()
                    } else {
                        path_leaf(Seq::empty(), self.data)
                    },
            ),
        }
    }

    fn position(&self, seg: &[u8]) -> (r: (usize, bool))
        ensures
            r.0 == key_position(self.model().children, seg@),
            r.0 <= self.children@.len(),
            self.model().children.len() == self.children@.len(),
            r.1 == (key_index(self.model().children, seg@) is Some),
    {
        let mut i: usize = 0;
        while i < self.children.len()
            invariant
                0 <= i <= self.children@.len(),
                self.model().children.len() == self.children@.len(),
                forall|k: int| 0 <= k < i ==> seg_lt(#[trigger] self.model().children[k].segment, seg@),
            decreases self.children.len() - i,
        {
            assert(self.model().children[i as int] == self.children@[i as int].model());
            let c = compare_segments(self.children[i].segment.as_slice(), seg);
            if c >= 0 {
                proof {
                    lemma_key_position_unique(self.model().children, seg@, i as int);
                }
                return (i, c == 0);
            }
            i = i + 1;
        }
        proof {
            lemma_key_position_unique(self.model().children, seg@, i as int);
        }
        (i, false)
    }

    fn insert(&mut self, segs: &[Vec<u8>], data: D) -> (r: Result<(), ErrorKind>)
        requires
            segs.len() > 0,
        ensures
            path_applied(old(self).model(), final(self).model(), path_insert(old(self).model(), segs_view(segs@), data), r),
        decreases segs.len(),
    {
        let (i, found) = self.position(segs[0].as_slice());
        assert(segs_view(segs@)[0] == segs@[0]@);
        if segs.len() == 1 {
            if found {
                return Err(ErrorKind::AlreadyExists);
            }
            let node = PathNode { segment: copy_bytes(segs[0].as_slice()), data, children: Vec::new() };
            assert(node.model().children =~= Seq::<PathModel<D>>::empty());
            self.children.insert(i, node);
            assert(self.model().children =~= old(self).model().children.insert(i as int, node.model()));
        } else {
            if !found {
                return Err(ErrorKind::NotFound);
            }
            assert(old(self).model().children[i as int] == old(self).children@[i as int].model());
            let mut child = self.children.remove(i);
            let rest = vstd::slice::slice_subrange(segs, 1, segs.len());
            assert(segs_view(rest@) =~= segs_view(segs@).drop_first());
            let r = child.insert(rest, data);
            self.children.insert(i, child);
            assert(self.model().children =~= old(self).model().children.update(i as int, child.model()));
            if r.is_err() {
                assert(self.model().children =~= old(self).model().children);
                return r;
            }
        }
        Ok(())
    }

    fn update(&mut self, segs: &[Vec<u8>], data: D) -> (r: Result<(), ErrorKind>)
        ensures
            path_applied(old(self).model(), final(self).model(), path_update(old(self).model(), segs_view(segs@), data), r),
        decreases segs.len(),
    {
        if segs.len() == 0 {
            self.data = data;
            assert(self.model().children =~= old(self).model().children);
            return Ok(());
        }
        let (i, found) = self.position(segs[0].as_slice());
        assert(segs_view(segs@)[0] == segs@[0]@);
        if !found {
            return Err(ErrorKind::NotFound);
        }
        assert(old(self).model().children[i as int] == old(self).children@[i as int].model());
        let mut child = self.children.remove(i);
        let rest = vstd::slice::slice_subrange(segs, 1, segs.len());
        assert(segs_view(rest@) =~= segs_view(segs@).drop_first());
        let r = child.update(rest, data);
        self.children.insert(i, child);
        assert(self.model().children =~= old(self).model().children.update(i as int, child.model()));
        if r.is_err() {
            assert(self.model().children =~= old(self).model().children);
        }
        r
    }

    fn remove(&mut self, segs: &[Vec<u8>]) -> (r: Result<(), ErrorKind>)
        ensures
            path_applied(old(self).model(), final(self).model(), path_remove(old(self).model(), segs_view(segs@)), r),
        decreases segs.len(),
    {
        if segs.len() == 0 {
            return Err(ErrorKind::NotFound);
        }
        let (i, found) = self.position(segs[0].as_slice());
        assert(segs_view(segs@)[0] == segs@[0]@);
        if !found {
            return Err(ErrorKind::NotFound);
        }
        assert(old(self).model().children[i as int] == old(self).children@[i as int].model());
        if segs.len() == 1 {
            let _detached = self.children.remove(i);
            assert(self.model().children =~= old(self).model().children.remove(i as int));
            return Ok(());
        }
        let mut child = self.children.remove(i);
        let rest = vstd::slice::slice_subrange(segs, 1, segs.len());
        assert(segs_view(rest@) =~= segs_view(segs@).drop_first());
        let r = child.remove(rest);
        self.children.insert(i, child);
        assert(self.model().children =~= old(self).model().children.update(i as int, child.model()));
        if r.is_err() {
            assert(self.model().children =~= old(self).model().children);
        }
        r
    }

    fn get(&self, segs: &[Vec<u8>]) -> (r: Result<&D, ErrorKind>)
        ensures
            match path_at(self.model(), segs_view(segs@)) {
                Some(m) => r is Ok && *r->Ok_0 == m.data,
                None => r is Err && r->Err_0 == ErrorKind::NotFound,
            },
        decreases segs.len(),
    {
        if segs.len() == 0 {
            return Ok(&self.data);
        }
        let (i, found) = self.position(segs[0].as_slice());
        assert(segs_view(segs@)[0] == segs@[0]@);
        if !found {
            return Err(ErrorKind::NotFound);
        }
        assert(self.model().children[i as int] == self.children@[i as int].model());
        let rest = vstd::slice::slice_subrange(segs, 1, segs.len());
        assert(segs_view(rest@) =~= segs_view(segs@).drop_first());
        self.children[i].get(rest)
    }
}

/// A tree of data keyed by sequences of byte-string segments.
pub struct Tree<D> {
    root: PathNode<D>,
}

impl<D> View for Tree<D> {
    type V = PathModel<D>;

    closed spec fn view(&self) -> PathModel<D> {
        self.root.model()
    }
}

impl<D> Tree<D> {
    pub open spec fn wf(&self) -> bool {
        path_wf(self@)
    }

    /// A tree with a single node, keyed `root_segment`, holding `data`.
    pub fn new(root_segment: Vec<u8>, data: D) -> (r: Tree<D>)
        ensures
            r@ == path_leaf(root_segment@, data),
            r.wf(),
    {
        let root = PathNode { segment: root_segment, data, children: Vec::new() };
        assert(root.model().children =~= Seq::<PathModel<D>>::empty());
        Tree { root }
    }

    /// The data of the node at `segments`.
    pub fn get(&self, segments: &[Vec<u8>]) -> (r: Result<&D, TreeError>)
        ensures
            match path_at(self@, segs_view(segments@)) {
                Some(m) => r is Ok && *r->Ok_0 == m.data,
                None => r is Err && r->Err_0.kind() == ErrorKind::NotFound && r->Err_0.path_view() == segs_view(segments@),
            },
    {
        match self.root.get(segments) {
            Ok(x) => Ok(x),
            Err(k) => Err(TreeError::at(k, segments)),
        }
    }

    /// Adds `data` as a new leaf at `segments`.
    pub fn insert(&mut self, segments: &[Vec<u8>], data: D) -> (r: Result<(), TreeError>)
        requires
            old(self).wf(),
            segments.len() > 0,
        ensures
            final(self).wf(),
            path_reported(old(self)@, final(self)@, path_insert(old(self)@, segs_view(segments@), data), r, segs_view(segments@)),
    {
        proof {
            lemma_path_insert_wf(self@, segs_view(segments@), data);
        }
        match self.root.insert(segments, data) {
            Ok(x) => Ok(x),
            Err(k) => Err(TreeError::at(k, segments)),
        }
    }

    /// Replaces the data of the node at `segments`.
    pub fn update(&mut self, segments: &[Vec<u8>], data: D) -> (r: Result<(), TreeError>)
        requires
            old(self).wf(),
        ensures
            final(self).wf(),
            path_reported(old(self)@, final(self)@, path_update(old(self)@, segs_view(segments@), data), r, segs_view(segments@)),
    {
        proof {
            lemma_path_update_wf(self@, segs_view(segments@), data);
        }
        match self.root.update(segments, data) {
            Ok(x) => Ok(x),
            Err(k) => Err(TreeError::at(k, segments)),
        }
    }

    /// Detaches the subtree at `segments`.
    pub fn remove(&mut self, segments: &[Vec<u8>]) -> (r: Result<(), TreeError>)
        requires
            old(self).wf(),
            segments.len() > 0,
        ensures
            final(self).wf(),
            path_reported(old(self)@, final(self)@, path_remove(old(self)@, segs_view(segments@)), r, segs_view(segments@)),
    {
        proof {
            lemma_path_remove_wf(self@, segs_view(segments@));
        }
        match self.root.remove(segments) {
            Ok(x) => Ok(x),
            Err(k) => Err(TreeError::at(k, segments)),
        }
    }
}

} // verus!
