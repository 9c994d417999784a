use vstd::prelude::*;
use crate::bytes::{
    bytes_equal, compare_segments, copy_bytes, copy_path, digest, lemma_seg_lt_irreflexive,
    lemma_seg_lt_transitive, lemma_seg_lt_trichotomy, seg_lt, segs_view,
};
use crate::laws::{lemma_insert_wf, lemma_remove_wf, lemma_update_wf};
use crate::diff::{
    change_of, changes_view, diff_children, diff_nodes, find_moves, leaves_of, leaves_of_children,
    move_pairs, moves_view, Change, Difference,
};
use crate::entry::MerkleEntry;
use crate::model::{
    applied, child_index, insert_model, interior_input, leaf, lemma_lower_bound,
    lemma_lower_bound_unique, lower_bound, node_at, recompute, remove_model, replace_entry, reported,
    sorted_children, update_model, wf, with_children, ErrorKind, NodeModel, TreeError,
};

verus! {

/// One node of a Merkle path tree; it owns its children, kept in strictly
/// increasing segment order.
pub struct TreeNode {
    segment: Vec<u8>,
    hash: Vec<u8>,
    last_modified: u64,
    data: MerkleEntry,
    children: Vec<TreeNode>,
}

impl TreeNode {
    pub closed spec fn model(&self) -> NodeModel
        decreases self,
    {
        NodeModel {
            segment: self.segment@,
            hash: self.hash@,
            last_modified: self.last_modified,
            entry: self.data,
            children: Seq::new(
                self.children@.len(),
                |i: int|
                    if 0 <= i < self.children@.len() {
                        self.children@[i].model()
                    } else {
                        leaf(Seq::empty(), self.data)
                    },
            ),
        }
    }
}

impl View for TreeNode {
    type V = NodeModel;

    open spec fn view(&self) -> NodeModel {
        self.model()
    }
}

/// Appends `src` to `dst`.
fn append_bytes(dst: &mut Vec<u8>, src: &[u8])
    ensures
        final(dst)@ == old(dst)@ + src@,
{
    let mut i: usize = 0;
    while i < src.len()
        invariant
            0 <= i <= src.len(),
            dst@ == old(dst)@ + src@.subrange(0, i as int),
        decreases src.len() - i,
    {
        dst.push(src[i]);
        assert(dst@ =~= old(dst)@ + src@.subrange(0, i + 1));
        i = i + 1;
    }
    assert(src@.subrange(0, src@.len() as int) =~= src@);
}

impl TreeNode {
    /// Where `seg` stands or would stand among the children, and whether a
    /// child is stored under it.
    fn position(&self, seg: &[u8]) -> (r: (usize, bool))
        ensures
            r.0 == lower_bound(self@.children, seg@),
            r.0 <= self.children@.len(),
            self@.children.len() == self.children@.len(),
            r.1 == (child_index(self@.children, seg@) is Some),
    {
        let mut i: usize = 0;
        while i < self.children.len()
            invariant
                0 <= i <= self.children@.len(),
                self@.children.len() == self.children@.len(),
                forall|k: int| 0 <= k < i ==> seg_lt(#[trigger] self@.children[k].segment, seg@),
            decreases self.children.len() - i,
        {
            assert(self@.children[i as int] == self.children@[i as int]@);
            let c = compare_segments(self.children[i].segment.as_slice(), seg);
            if c >= 0 {
                proof {
                    lemma_lower_bound_unique(self@.children, seg@, i as int);
                }
                return (i, c == 0);
            }
            i = i + 1;
        }
        proof {
            lemma_lower_bound_unique(self@.children, seg@, i as int);
        }
        (i, false)
    }

    /// Recomputes the hash and time of a node after a change below it.
    fn recompute(&mut self, now: u64)
        ensures
            final(self)@ == recompute(old(self)@, now),
    {
        if self.children.len() == 0 {
            self.hash = self.data.get_hash();
            self.last_modified = self.data.get_last_modified();
            assert(self@.children =~= old(self)@.children);
            return;
        }
        let mut input: Vec<u8> = Vec::new();
        let mut i: usize = 0;
        while i < self.children.len()
            invariant
                0 <= i <= self.children@.len(),
                self@.children.len() == self.children@.len(),
                input@ == interior_input(self@.children.subrange(0, i as int)),
            decreases self.children.len() - i,
        {
            assert(self@.children[i as int] == self.children@[i as int]@);
            assert(self@.children.subrange(0, i + 1).drop_last() =~= self@.children.subrange(0, i as int));
            append_bytes(&mut input, self.children[i].hash.as_slice());
            append_bytes(&mut input, self.children[i].segment.as_slice());
            assert(input@ =~= interior_input(self@.children.subrange(0, i + 1)));
            i = i + 1;
        }
        assert(self@.children.subrange(0, i as int) =~= self@.children);
        self.hash = digest(input.as_slice());
        self.last_modified = now;
        assert(self@.children =~= old(self)@.children);
    }

    fn new_leaf(seg: &[u8], data: MerkleEntry) -> (r: TreeNode)
        ensures
            r@ == leaf(seg@, data),
    {
        let hash = data.get_hash();
        let last_modified = data.get_last_modified();
        let r = TreeNode { segment: copy_bytes(seg), hash, last_modified, data, children: Vec::new() };
        assert(r@.children =~= Seq::<NodeModel>::empty());
        r
    }

    fn insert(&mut self, segs: &[Vec<u8>], data: MerkleEntry, now: u64) -> (r: Result<(), ErrorKind>)
        requires
            segs.len() > 0,
        ensures
            applied(old(self)@, final(self)@, insert_model(old(self)@, segs_view(segs@), data, now), r),
        decreases segs.len(),
    {
        let (i, found) = self.position(segs[0].as_slice());
        assert(segs_view(segs@)[0] == segs@[0]@);
        if segs.len() == 1 {
            if found {
                return Err(ErrorKind::AlreadyExists);
            }
            let node = TreeNode::new_leaf(segs[0].as_slice(), data);
            self.children.insert(i, node);
            assert(self@.children =~= old(self)@.children.insert(i as int, node@));
        } else {
            if !found {
                return Err(ErrorKind::NotFound);
            }
            assert(old(self)@.children[i as int] == old(self).children@[i as int]@);
            let mut child = self.children.remove(i);
            let rest = vstd::slice::slice_subrange(segs, 1, segs.len());
            assert(segs_view(rest@) =~= segs_view(segs@).drop_first());
            let r = child.insert(rest, data, now);
            self.children.insert(i, child);
            assert(self@.children =~= old(self)@.children.update(i as int, child@));
            if r.is_err() {
                assert(self@.children =~= old(self)@.children);
                return r;
            }
        }
        self.recompute(now);
        Ok(())
    }

    fn replace_entry(&mut self, data: MerkleEntry)
        ensures
            final(self)@ == replace_entry(old(self)@, data),
    {
        if self.children.len() == 0 {
            self.hash = data.get_hash();
            self.last_modified = data.get_last_modified();
        }
        self.data = data;
        assert(self@.children =~= old(self)@.children);
    }

    fn update(&mut self, segs: &[Vec<u8>], data: MerkleEntry, now: u64) -> (r: Result<(), ErrorKind>)
        ensures
            applied(old(self)@, final(self)@, update_model(old(self)@, segs_view(segs@), data, now), r),
        decreases segs.len(),
    {
        if segs.len() == 0 {
            self.replace_entry(data);
            return Ok(());
        }
        let (i, found) = self.position(segs[0].as_slice());
        assert(segs_view(segs@)[0] == segs@[0]@);
        if !found {
            return Err(ErrorKind::NotFound);
        }
        assert(old(self)@.children[i as int] == old(self).children@[i as int]@);
        let mut child = self.children.remove(i);
        let rest = vstd::slice::slice_subrange(segs, 1, segs.len());
        assert(segs_view(rest@) =~= segs_view(segs@).drop_first());
        let r = child.update(rest, data, now);
        self.children.insert(i, child);
        assert(self@.children =~= old(self)@.children.update(i as int, child@));
        if r.is_err() {
            assert(self@.children =~= old(self)@.children);
            return r;
        }
        self.recompute(now);
        Ok(())
    }

    fn remove(&mut self, segs: &[Vec<u8>], now: u64) -> (r: Result<(), ErrorKind>)
        ensures
            applied(old(self)@, final(self)@, remove_model(old(self)@, segs_view(segs@), now), r),
        decreases segs.len(),
    {
        if segs.len() == 0 {
            return Err(ErrorKind::NotFound);
        }
        let (i, found) = self.position(segs[0].as_slice());
        assert(segs_view(segs@)[0] == segs@[0]@);
        if !found {
            return Err(ErrorKind::NotFound);
        }
        assert(old(self)@.children[i as int] == old(self).children@[i as int]@);
        if segs.len() == 1 {
            let _detached = self.children.remove(i);
            assert(self@.children =~= old(self)@.children.remove(i as int));
        } else {
            let mut child = self.children.remove(i);
            let rest = vstd::slice::slice_subrange(segs, 1, segs.len());
            assert(segs_view(rest@) =~= segs_view(segs@).drop_first());
            let r = child.remove(rest, now);
            self.children.insert(i, child);
            assert(self@.children =~= old(self)@.children.update(i as int, child@));
            if r.is_err() {
                assert(self@.children =~= old(self)@.children);
                return r;
            }
        }
        self.recompute(now);
        Ok(())
    }

    fn get(&self, segs: &[Vec<u8>]) -> (r: Result<&TreeNode, ErrorKind>)
        ensures
            match node_at(self@, segs_view(segs@)) {
                Some(m) => r is Ok && r->Ok_0@ == m,
                None => r is Err && r->Err_0 == ErrorKind::NotFound,
            },
        decreases segs.len(),
    {
        if segs.len() == 0 {
            return Ok(self);
        }
        let (i, found) = self.position(segs[0].as_slice());
        assert(segs_view(segs@)[0] == segs@[0]@);
        if !found {
            return Err(ErrorKind::NotFound);
        }
        assert(self@.children[i as int] == self.children@[i as int]@);
        let rest = vstd::slice::slice_subrange(segs, 1, segs.len());
        assert(segs_view(rest@) =~= segs_view(segs@).drop_first());
        self.children[i].get(rest)
    }
}

pub open spec fn nodes_view(v: Seq<TreeNode>) -> Seq<NodeModel> {
    v.map_values(|n: TreeNode| n@)
}

/// A fresh path: `path` followed by `seg`.
fn child_path(path: &[Vec<u8>], seg: &[u8]) -> (r: Vec<Vec<u8>>)
    ensures
        segs_view(r@) == segs_view(path@).push(seg@),
{
    let mut r = copy_path(path);
    r.push(copy_bytes(seg));
    assert(segs_view(r@) =~= segs_view(path@).push(seg@));
    r
}

impl TreeNode {
    proof fn lemma_children_view(&self)
        ensures
            self@.children == nodes_view(self.children@),
            self@.children.len() == self.children@.len(),
    {
        assert(self@.children =~= nodes_view(self.children@));
    }

    fn change(&self, path: &[Vec<u8>]) -> (r: Change)
        ensures
            r@ == change_of(segs_view(path@), self@),
    {
        Change { path: copy_path(path), hash: copy_bytes(self.hash.as_slice()), last_modified: self.last_modified }
    }

    /// Appends the childless nodes of this subtree, in key order.
    fn collect_leaves(&self, path: &[Vec<u8>], out: &mut Vec<Change>)
        ensures
            changes_view(final(out)@) == changes_view(old(out)@) + leaves_of(self@, segs_view(path@)),
        decreases self,
    {
        proof {
            self.lemma_children_view();
        }
        if self.children.len() == 0 {
            let c = self.change(path);
            out.push(c);
            assert(changes_view(out@) =~= changes_view(old(out)@) + leaves_of(self@, segs_view(path@)));
            return;
        }
        let ghost cs = self@.children;
        let ghost p = segs_view(path@);
        let mut i: usize = 0;
        while i < self.children.len()
            invariant
                0 <= i <= self.children@.len(),
                cs == self@.children,
                cs == nodes_view(self.children@),
                cs.len() == self.children@.len(),
                p == segs_view(path@),
                changes_view(out@) == changes_view(old(out)@) + leaves_of_children(cs.subrange(0, i as int), p),
            decreases self.children.len() - i,
        {
            assert(cs.subrange(0, i + 1).drop_last() =~= cs.subrange(0, i as int));
            assert(cs[i as int] == self.children@[i as int]@);
            let cp = child_path(path, self.children[i].segment.as_slice());
            self.children[i].collect_leaves(cp.as_slice(), out);
            assert(changes_view(out@) =~= changes_view(old(out)@) + leaves_of_children(cs.subrange(0, i + 1), p));
            i = i + 1;
        }
        assert(cs.subrange(0, i as int) =~= cs);
    }

    /// Appends the changes of this node (left) against `other` (right), both
    /// at `path`.
    fn find_difference(&self, other: &TreeNode, path: &[Vec<u8>], left: &mut Vec<Change>, right: &mut Vec<Change>)
        requires
            wf(self@),
            wf(other@),
        ensures
            changes_view(final(left)@) == changes_view(old(left)@) + diff_nodes(self@, other@, segs_view(path@)).0,
            changes_view(final(right)@) == changes_view(old(right)@) + diff_nodes(self@, other@, segs_view(path@)).1,
        decreases self, 0int,
    {
        proof {
            self.lemma_children_view();
            other.lemma_children_view();
        }
        if bytes_equal(self.hash.as_slice(), other.hash.as_slice()) {
            assert(changes_view(left@) =~= changes_view(old(left)@) + Seq::empty());
            assert(changes_view(right@) =~= changes_view(old(right)@) + Seq::empty());
            return;
        }
        if self.children.len() == 0 && other.children.len() == 0 {
            if self.last_modified > other.last_modified {
                left.push(self.change(path));
            } else {
                right.push(other.change(path));
            }
            assert(changes_view(left@) =~= changes_view(old(left)@) + diff_nodes(self@, other@, segs_view(path@)).0);
            assert(changes_view(right@) =~= changes_view(old(right)@) + diff_nodes(self@, other@, segs_view(path@)).1);
            return;
        }
        assert forall|k: int| 0 <= k < self.children@.len() implies wf(#[trigger] self.children@[k]@) by {
            assert(self@.children[k] == self.children@[k]@);
        }
        assert forall|k: int| 0 <= k < other.children@.len() implies wf(#[trigger] other.children@[k]@) by {
            assert(other@.children[k] == other.children@[k]@);
        }
        find_diff_in_children(&self.children, &other.children, path, left, right);
    }
}

/// Appends the changes between two key-sorted child lists under `parent`.
fn find_diff_in_children(
    xs: &Vec<TreeNode>,
    ys: &Vec<TreeNode>,
    parent: &[Vec<u8>],
    left: &mut Vec<Change>,
    right: &mut Vec<Change>,
)
    requires
        sorted_children(nodes_view(xs@)),
        sorted_children(nodes_view(ys@)),
        forall|k: int| 0 <= k < xs@.len() ==> wf(#[trigger] xs@[k]@),
        forall|k: int| 0 <= k < ys@.len() ==> wf(#[trigger] ys@[k]@),
    ensures
        changes_view(final(left)@) == changes_view(old(left)@) + diff_children(nodes_view(xs@), nodes_view(ys@), segs_view(parent@)).0,
        changes_view(final(right)@) == changes_view(old(right)@) + diff_children(nodes_view(xs@), nodes_view(ys@), segs_view(parent@)).1,
    decreases xs, 1int,
{
    let ghost xm = nodes_view(xs@);
    let ghost ym = nodes_view(ys@);
    let ghost p = segs_view(parent@);
    let mut i: usize = 0;
    let mut j: usize = 0;
    while i < xs.len() || j < ys.len()
        invariant
            0 <= i <= xs@.len(),
            0 <= j <= ys@.len(),
            xm == nodes_view(xs@),
            ym == nodes_view(ys@),
            p == segs_view(parent@),
            sorted_children(xm),
            sorted_children(ym),
            forall|k: int| 0 <= k < xs@.len() ==> wf(#[trigger] xs@[k]@),
            forall|k: int| 0 <= k < ys@.len() ==> wf(#[trigger] ys@[k]@),
            i > 0 && j < ys@.len() ==> seg_lt(xm[i - 1].segment, ym[j as int].segment),
            j > 0 && i < xs@.len() ==> seg_lt(ym[j - 1].segment, xm[i as int].segment),
            changes_view(left@) == changes_view(old(left)@) + diff_children(xm.subrange(0, i as int), ym.subrange(0, j as int), p).0,
            changes_view(right@) == changes_view(old(right)@) + diff_children(xm.subrange(0, i as int), ym.subrange(0, j as int), p).1,
        decreases xs.len() + ys.len() - i - j,
    {
        let c: i8 = if i < xs.len() && j < ys.len() {
            compare_segments(xs[i].segment.as_slice(), ys[j].segment.as_slice())
        } else if i < xs.len() {
            -1
        } else {
            1
        };
        let ghost xs0 = xm.subrange(0, i as int);
        let ghost ys0 = ym.subrange(0, j as int);
        let ghost l0 = changes_view(left@);
        let ghost r0 = changes_view(right@);
        if c < 0 {
            let ghost xs1 = xm.subrange(0, i + 1);
            assert(xs1.drop_last() =~= xs0);
            assert(xs1.last() == xm[i as int]);
            proof {
                if j > 0 {
                    lemma_seg_lt_trichotomy(ym[j - 1].segment, xm[i as int].segment);
                }
                if i + 1 < xs@.len() && j > 0 {
                    assert(seg_lt(xm[i as int].segment, xm[i + 1].segment));
                    lemma_seg_lt_transitive(ym[j - 1].segment, xm[i as int].segment, xm[i + 1].segment);
                }
            }
            let cp = child_path(parent, xs[i].segment.as_slice());
            xs[i].collect_leaves(cp.as_slice(), left);
            assert(changes_view(left@) =~= changes_view(old(left)@) + diff_children(xs1, ys0, p).0);
            i = i + 1;
        } else if c > 0 {
            let ghost ys1 = ym.subrange(0, j + 1);
            assert(ys1.drop_last() =~= ys0);
            assert(ys1.last() == ym[j as int]);
            proof {
                if i > 0 {
                    lemma_seg_lt_trichotomy(xm[i - 1].segment, ym[j as int].segment);
                }
                if j + 1 < ys@.len() && i > 0 {
                    assert(seg_lt(ym[j as int].segment, ym[j + 1].segment));
                    lemma_seg_lt_transitive(xm[i - 1].segment, ym[j as int].segment, ym[j + 1].segment);
                }
            }
            let cp = child_path(parent, ys[j].segment.as_slice());
            ys[j].collect_leaves(cp.as_slice(), right);
            assert(changes_view(right@) =~= changes_view(old(right)@) + diff_children(xs0, ys1, p).1);
            j = j + 1;
        } else {
            let ghost xs1 = xm.subrange(0, i + 1);
            let ghost ys1 = ym.subrange(0, j + 1);
            assert(xs1.drop_last() =~= xs0);
            assert(ys1.drop_last() =~= ys0);
            assert(xs1.last() == xm[i as int]);
            assert(ys1.last() == ym[j as int]);
            proof {
                lemma_seg_lt_irreflexive(xm[i as int].segment);
                if i + 1 < xs@.len() {
                    assert(seg_lt(xm[i as int].segment, xm[i + 1].segment));
                }
                if j + 1 < ys@.len() {
                    assert(seg_lt(ym[j as int].segment, ym[j + 1].segment));
                }
            }
            let cp = child_path(parent, xs[i].segment.as_slice());
            xs[i].find_difference(&ys[j], cp.as_slice(), left, right);
            assert(changes_view(left@) =~= changes_view(old(left)@) + diff_children(xs1, ys1, p).0);
            assert(changes_view(right@) =~= changes_view(old(right)@) + diff_children(xs1, ys1, p).1);
            i = i + 1;
            j = j + 1;
        }
    }
    assert(xm.subrange(0, i as int) =~= xm);
    assert(ym.subrange(0, j as int) =~= ym);
}

/// Seconds since the Unix epoch, read from the system clock.
///
/// Relies on `std::time::SystemTime::elapsed` of `UNIX_EPOCH`; a clock set
/// before the epoch reads as 0.
#[verifier::external_body]
fn now_secs() -> (r: u64) {
    std::time::UNIX_EPOCH.elapsed().map(|d| d.as_secs()).unwrap_or(0)
}

/// A Merkle path tree: entries keyed by sequences of byte-string segments,
/// every node with children hashed from them, so that the root hash
/// summarises the whole tree.
pub struct MerkleTree {
    root: TreeNode,
}

impl View for MerkleTree {
    type V = NodeModel;

    closed spec fn view(&self) -> NodeModel {
        self.root@
    }
}

impl MerkleTree {
    pub open spec fn wf(&self) -> bool {
        wf(self@)
    }

    /// A tree with a single node: segment `root_segment`, hash and time from
    /// `data`.
    pub fn new(root_segment: Vec<u8>, data: MerkleEntry) -> (r: MerkleTree)
        ensures
            r@ == leaf(root_segment@, data),
            r.wf(),
    {
        let root = TreeNode::new_leaf(root_segment.as_slice(), data);
        MerkleTree { root }
    }

    /// The entry of the node at `segments`.
    pub fn get(&self, segments: &[Vec<u8>]) -> (r: Result<&MerkleEntry, TreeError>)
        ensures
            match node_at(self@, segs_view(segments@)) {
                Some(m) => r is Ok && *r->Ok_0 == m.entry,
                None => r is Err && r->Err_0.kind() == ErrorKind::NotFound && r->Err_0.path_view() == segs_view(segments@),
            },
    {
        match self.root.get(segments) {
            Ok(n) => Ok(&n.data),
            Err(k) => Err(TreeError::at(k, segments)),
        }
    }

    /// The current hash of the node at `segments`.
    pub fn get_hash(&self, segments: &[Vec<u8>]) -> (r: Result<Vec<u8>, TreeError>)
        ensures
            match node_at(self@, segs_view(segments@)) {
                Some(m) => r is Ok && r->Ok_0@ == m.hash,
                None => r is Err && r->Err_0.kind() == ErrorKind::NotFound && r->Err_0.path_view() == segs_view(segments@),
            },
    {
        match self.root.get(segments) {
            Ok(n) => Ok(copy_bytes(n.hash.as_slice())),
            Err(k) => Err(TreeError::at(k, segments)),
        }
    }

    /// The last-modified time of the node at `segments`.
    pub fn get_last_modified(&self, segments: &[Vec<u8>]) -> (r: Result<u64, TreeError>)
        ensures
            match node_at(self@, segs_view(segments@)) {
                Some(m) => r is Ok && r->Ok_0 == m.last_modified,
                None => r is Err && r->Err_0.kind() == ErrorKind::NotFound && r->Err_0.path_view() == segs_view(segments@),
            },
    {
        match self.root.get(segments) {
            Ok(n) => Ok(n.last_modified),
            Err(k) => Err(TreeError::at(k, segments)),
        }
    }

    /// The hash of the root node.
    pub fn root_hash(&self) -> (r: Vec<u8>)
        ensures
            r@ == self@.hash,
    {
        copy_bytes(self.root.hash.as_slice())
    }

    /// Inserts `data` as a new leaf at `segments`; every ancestor is
    /// recomputed with `now` as the time of the change.
    pub fn insert_at(&mut self, segments: &[Vec<u8>], data: MerkleEntry, now: u64) -> (r: Result<(), TreeError>)
        requires
            old(self).wf(),
            segments.len() > 0,
        ensures
            final(self).wf(),
            reported(old(self)@, final(self)@, insert_model(old(self)@, segs_view(segments@), data, now), r, segs_view(segments@)),
    {
        proof {
            lemma_insert_wf(self@, segs_view(segments@), data, now);
        }
        match self.root.insert(segments, data, now) {
            Ok(()) => Ok(()),
            Err(k) => Err(TreeError::at(k, segments)),
        }
    }

    /// Replaces the entry of the node at `segments`; every ancestor is
    /// recomputed with `now` as the time of the change.
    pub fn update_at(&mut self, segments: &[Vec<u8>], data: MerkleEntry, now: u64) -> (r: Result<(), TreeError>)
        requires
            old(self).wf(),
        ensures
            final(self).wf(),
            reported(old(self)@, final(self)@, update_model(old(self)@, segs_view(segments@), data, now), r, segs_view(segments@)),
    {
        proof {
            lemma_update_wf(self@, segs_view(segments@), data, now);
        }
        match self.root.update(segments, data, now) {
            Ok(()) => Ok(()),
            Err(k) => Err(TreeError::at(k, segments)),
        }
    }

    /// Detaches the subtree at `segments`; every ancestor is recomputed with
    /// `now` as the time of the change.
    pub fn remove_at(&mut self, segments: &[Vec<u8>], now: u64) -> (r: Result<(), TreeError>)
        requires
            old(self).wf(),
            segments.len() > 0,
        ensures
            final(self).wf(),
            reported(old(self)@, final(self)@, remove_model(old(self)@, segs_view(segments@), now), r, segs_view(segments@)),
    {
        proof {
            lemma_remove_wf(self@, segs_view(segments@), now);
        }
        match self.root.remove(segments, now) {
            Ok(()) => Ok(()),
            Err(k) => Err(TreeError::at(k, segments)),
        }
    }

    /// Compares this tree (left) with `other` (right). `None` when the root
    /// hashes are equal; otherwise the changes on each side, in key order,
    /// and the pairs of a left and a right change with equal hashes.
    pub fn find_difference(&self, other: &MerkleTree) -> (r: Option<Difference>)
        requires
            self.wf(),
            other.wf(),
        ensures
            r is None <==> self@.hash == other@.hash,
            r matches Some(d) ==> {
                &&& changes_view(d.left@) == diff_nodes(self@, other@, Seq::empty()).0
                &&& changes_view(d.right@) == diff_nodes(self@, other@, Seq::empty()).1
                &&& moves_view(d.moves@) == move_pairs(changes_view(d.left@), changes_view(d.right@))
            },
    {
        if bytes_equal(self.root.hash.as_slice(), other.root.hash.as_slice()) {
            return None;
        }
        let mut left: Vec<Change> = Vec::new();
        let mut right: Vec<Change> = Vec::new();
        let root_path: Vec<Vec<u8>> = Vec::new();
        assert(segs_view(root_path@) =~= Seq::<Seq<u8>>::empty());
        self.root.find_difference(&other.root, root_path.as_slice(), &mut left, &mut right);
        assert(changes_view(left@) =~= diff_nodes(self@, other@, Seq::empty()).0);
        assert(changes_view(right@) =~= diff_nodes(self@, other@, Seq::empty()).1);
        let moves = find_moves(&left, &right);
        Some(Difference { left, right, moves })
    }

    /// `insert_at` with the current time of the system clock.
    pub fn insert(&mut self, segments: &[Vec<u8>], data: MerkleEntry) -> (r: Result<(), TreeError>)
        requires
            old(self).wf(),
            segments.len() > 0,
        ensures
            final(self).wf(),
            exists|now: u64|
                #[trigger] reported(old(self)@, final(self)@, insert_model(old(self)@, segs_view(segments@), data, now), r, segs_view(segments@)),
    {
        let now = now_secs();
        self.insert_at(segments, data, now)
    }

    /// `update_at` with the current time of the system clock.
    pub fn update(&mut self, segments: &[Vec<u8>], data: MerkleEntry) -> (r: Result<(), TreeError>)
        requires
            old(self).wf(),
        ensures
            final(self).wf(),
            exists|now: u64|
                #[trigger] reported(old(self)@, final(self)@, update_model(old(self)@, segs_view(segments@), data, now), r, segs_view(segments@)),
    {
        let now = now_secs();
        self.update_at(segments, data, now)
    }

    /// `remove_at` with the current time of the system clock.
    pub fn remove(&mut self, segments: &[Vec<u8>]) -> (r: Result<(), TreeError>)
        requires
            old(self).wf(),
            segments.len() > 0,
        ensures
            final(self).wf(),
            exists|now: u64|
                #[trigger] reported(old(self)@, final(self)@, remove_model(old(self)@, segs_view(segments@), now), r, segs_view(segments@)),
    {
        let now = now_secs();
        self.remove_at(segments, now)
    }
}

} // verus!
