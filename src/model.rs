use vstd::prelude::*;
use crate::bytes::{blake3_of, copy_path, seg_lt, segs_view};
use crate::entry::MerkleEntry;

verus! {

/// The mathematical value of a tree node: its segment, its hash, its
/// last-modified time, the entry it holds, and its children in key order.
pub struct NodeModel {
    pub segment: Seq<u8>,
    pub hash: Seq<u8>,
    pub last_modified: u64,
    pub entry: MerkleEntry,
    pub children: Seq<NodeModel>,
}

/// Why a tree operation did not take place.
#[derive(Clone, Copy, Debug, PartialEq, Eq, Structural)]
pub enum ErrorKind {
    /// A segment of the path is not a key of the node reached so far.
    NotFound,
    /// The last segment of the path is already a key of its parent.
    AlreadyExists,
}

/// The bytes that an interior node's hash covers: each child's hash followed
/// by its segment, in key order.
pub open spec fn interior_input(cs: Seq<NodeModel>) -> Seq<u8>
    decreases cs.len(),
{
    if cs.len() == 0 {
        Seq::empty()
    } else {
        interior_input(cs.drop_last()) + cs.last().hash + cs.last().segment
    }
}

/// The hash of an interior node with these children.
pub open spec fn interior_hash(cs: Seq<NodeModel>) -> Seq<u8> {
    blake3_of(interior_input(cs))
}

/// Children are stored in strictly increasing segment order.
pub open spec fn sorted_children(cs: Seq<NodeModel>) -> bool {
    forall|i: int, j: int|
        0 <= i < j < cs.len() ==> seg_lt(#[trigger] cs[i].segment, #[trigger] cs[j].segment)
}

/// The position at which `seg` stands or would stand among `cs`: the number of
/// leading children whose segment sorts before it.
pub open spec fn lower_bound(cs: Seq<NodeModel>, seg: Seq<u8>) -> int
    decreases cs.len(),
{
    if cs.len() == 0 {
        0
    } else {
        let p = lower_bound(cs.drop_last(), seg);
        if p == cs.len() - 1 && seg_lt(cs.last().segment, seg) {
            cs.len() as int
        } else {
            p
        }
    }
}

/// The index of the child stored under `seg`, if there is one.
pub open spec fn child_index(cs: Seq<NodeModel>, seg: Seq<u8>) -> Option<int> {
    let p = lower_bound(cs, seg);
    if p < cs.len() && cs[p].segment == seg {
        Some(p)
    } else {
        None
    }
}

/// The node reached from `n` by following the segments of `p`.
pub open spec fn node_at(n: NodeModel, p: Seq<Seq<u8>>) -> Option<NodeModel>
    decreases p.len(),
{
    if p.len() == 0 {
        Some(n)
    } else {
        match child_index(n.children, p[0]) {
            None => None,
            Some(i) => node_at(n.children[i], p.drop_first()),
        }
    }
}

/// A childless node holding `e` under the key `seg`.
pub open spec fn leaf(seg: Seq<u8>, e: MerkleEntry) -> NodeModel {
    NodeModel {
        segment: seg,
        hash: e.hash_view(),
        last_modified: e.last_modified_view(),
        entry: e,
        children: Seq::empty(),
    }
}

pub open spec fn with_children(n: NodeModel, cs: Seq<NodeModel>) -> NodeModel {
    NodeModel { segment: n.segment, hash: n.hash, last_modified: n.last_modified, entry: n.entry, children: cs }
}

/// After a mutation below `n`: a node with children takes the hash of its
/// children and the time `now`; a node left without children takes the hash
/// and time of its own entry.
pub open spec fn recompute(n: NodeModel, now: u64) -> NodeModel {
    if n.children.len() == 0 {
        NodeModel {
            segment: n.segment,
            hash: n.entry.hash_view(),
            last_modified: n.entry.last_modified_view(),
            entry: n.entry,
            children: n.children,
        }
    } else {
        NodeModel {
            segment: n.segment,
            hash: interior_hash(n.children),
            last_modified: now,
            entry: n.entry,
            children: n.children,
        }
    }
}

/// A well-formed node: children in strictly increasing key order, each
/// well-formed, a node with children hashed from them and a childless node
/// holding its entry's hash.
pub open spec fn wf(n: NodeModel) -> bool
    decreases n,
{
    &&& sorted_children(n.children)
    &&& (n.children.len() > 0 ==> n.hash == interior_hash(n.children))
    &&& (n.children.len() == 0 ==> n.hash == n.entry.hash_view())
    &&& forall|i: int| 0 <= i < n.children.len() ==> wf(#[trigger] n.children[i])
}

/// The tree after inserting `e` as a new leaf at `p`, all its ancestors
/// recomputed at time `now`.
pub open spec fn insert_model(n: NodeModel, p: Seq<Seq<u8>>, e: MerkleEntry, now: u64) -> Result<NodeModel, ErrorKind>
    decreases p.len(),
{
    if p.len() == 0 {
        Err(ErrorKind::AlreadyExists)
    } else {
        let i = lower_bound(n.children, p[0]);
        let found = child_index(n.children, p[0]) is Some;
        if p.len() == 1 {
            if found {
                Err(ErrorKind::AlreadyExists)
            } else {
                Ok(recompute(with_children(n, n.children.insert(i, leaf(p[0], e))), now))
            }
        } else if !found {
            Err(ErrorKind::NotFound)
        } else {
            match insert_model(n.children[i], p.drop_first(), e, now) {
                Err(x) => Err(x),
                Ok(c) => Ok(recompute(with_children(n, n.children.update(i, c)), now)),
            }
        }
    }
}

/// The node itself after its entry is replaced by `e`: a childless node also
/// takes the hash and time of `e`.
pub open spec fn replace_entry(n: NodeModel, e: MerkleEntry) -> NodeModel {
    if n.children.len() == 0 {
        NodeModel {
            segment: n.segment,
            hash: e.hash_view(),
            last_modified: e.last_modified_view(),
            entry: e,
            children: n.children,
        }
    } else {
        NodeModel {
            segment: n.segment,
            hash: n.hash,
            last_modified: n.last_modified,
            entry: e,
            children: n.children,
        }
    }
}

/// The tree after replacing the entry of the node at `p`, its ancestors
/// recomputed at time `now`.
pub open spec fn update_model(n: NodeModel, p: Seq<Seq<u8>>, e: MerkleEntry, now: u64) -> Result<NodeModel, ErrorKind>
    decreases p.len(),
{
    if p.len() == 0 {
        Ok(replace_entry(n, e))
    } else {
        match child_index(n.children, p[0]) {
            None => Err(ErrorKind::NotFound),
            Some(i) => match update_model(n.children[i], p.drop_first(), e, now) {
                Err(x) => Err(x),
                Ok(c) => Ok(recompute(with_children(n, n.children.update(i, c)), now)),
            },
        }
    }
}

/// The tree after detaching the subtree at `p`, its ancestors recomputed at
/// time `now`.
pub open spec fn remove_model(n: NodeModel, p: Seq<Seq<u8>>, now: u64) -> Result<NodeModel, ErrorKind>
    decreases p.len(),
{
    if p.len() == 0 {
        Err(ErrorKind::NotFound)
    } else {
        match child_index(n.children, p[0]) {
            None => Err(ErrorKind::NotFound),
            Some(i) => if p.len() == 1 {
                Ok(recompute(with_children(n, n.children.remove(i)), now))
            } else {
                match remove_model(n.children[i], p.drop_first(), now) {
                    Err(x) => Err(x),
                    Ok(c) => Ok(recompute(with_children(n, n.children.update(i, c)), now)),
                }
            },
        }
    }
}

/// `r` reports the outcome `res` of an operation that took the tree from
/// `before` to `after`: on success `after` is the new tree, on failure the
/// tree is unchanged.
pub open spec fn applied(before: NodeModel, after: NodeModel, res: Result<NodeModel, ErrorKind>, r: Result<(), ErrorKind>) -> bool {
    match res {
        Ok(m) => r is Ok && after == m,
        Err(x) => r == Err::<(), ErrorKind>(x) && after == before,
    }
}

/// A failed tree operation, with the path it was given.
#[derive(Clone, Debug, PartialEq, Eq)]
pub enum TreeError {
    /// A segment of the path is not a key of the node reached so far.
    NotFound(Vec<Vec<u8>>),
    /// The last segment of the path is already a key of its parent.
    AlreadyExists(Vec<Vec<u8>>),
}

impl TreeError {
    pub open spec fn kind(&self) -> ErrorKind {
        match self {
            TreeError::NotFound(_) => ErrorKind::NotFound,
            TreeError::AlreadyExists(_) => ErrorKind::AlreadyExists,
        }
    }

    pub open spec fn path_view(&self) -> Seq<Seq<u8>> {
        match self {
            TreeError::NotFound(p) => segs_view(p@),
            TreeError::AlreadyExists(p) => segs_view(p@),
        }
    }

    /// The error of kind `kind` for the path `segments`.
    pub fn at(kind: ErrorKind, segments: &[Vec<u8>]) -> (r: TreeError)
        ensures
            r.kind() == kind,
            r.path_view() == segs_view(segments@),
    {
        match kind {
            ErrorKind::NotFound => TreeError::NotFound(copy_path(segments)),
            ErrorKind::AlreadyExists => TreeError::AlreadyExists(copy_path(segments)),
        }
    }
}

/// `r` reports to a caller who gave the path `p` the outcome `res` of an
/// operation that took the tree from `before` to `after`: on success `after`
/// is the new tree; on failure the tree is unchanged and the error names its
/// kind and `p`.
pub open spec fn reported(
    before: NodeModel,
    after: NodeModel,
    res: Result<NodeModel, ErrorKind>,
    r: Result<(), TreeError>,
    p: Seq<Seq<u8>>,
) -> bool {
    match res {
        Ok(m) => r is Ok && after == m,
        Err(k) => r is Err && r->Err_0.kind() == k && r->Err_0.path_view() == p && after == before,
    }
}

/// `lower_bound` is the first position whose segment does not sort before
/// `seg`.
pub proof fn lemma_lower_bound(cs: Seq<NodeModel>, seg: Seq<u8>)
    ensures
        0 <= lower_bound(cs, seg) <= cs.len(),
        forall|k: int| 0 <= k < lower_bound(cs, seg) ==> seg_lt(#[trigger] cs[k].segment, seg),
        lower_bound(cs, seg) < cs.len() ==> !seg_lt(cs[lower_bound(cs, seg)].segment, seg),
    decreases cs.len(),
{
    if cs.len() > 0 {
        lemma_lower_bound(cs.drop_last(), seg);
        assert forall|k: int| 0 <= k < cs.len() - 1 implies cs.drop_last()[k] == cs[k] by {}
    }
}

/// Any position with that property is `lower_bound`.
pub proof fn lemma_lower_bound_unique(cs: Seq<NodeModel>, seg: Seq<u8>, p: int)
    requires
        0 <= p <= cs.len(),
        forall|k: int| 0 <= k < p ==> seg_lt(#[trigger] cs[k].segment, seg),
        p < cs.len() ==> !seg_lt(cs[p].segment, seg),
    ensures
        p == lower_bound(cs, seg),
{
    lemma_lower_bound(cs, seg);
    let q = lower_bound(cs, seg);
    if p < q {
        assert(seg_lt(cs[p].segment, seg));
    } else if q < p {
        assert(seg_lt(cs[q].segment, seg));
    }
}

} // verus!
