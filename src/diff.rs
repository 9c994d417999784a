use vstd::prelude::*;
use crate::bytes::{bytes_equal, seg_lt, segs_view};
use crate::model::NodeModel;

verus! {

/// One reported node: its path from the root, its hash and its
/// last-modified time.
pub struct ChangeView {
    pub path: Seq<Seq<u8>>,
    pub hash: Seq<u8>,
    pub last_modified: u64,
}

pub open spec fn change_of(path: Seq<Seq<u8>>, n: NodeModel) -> ChangeView {
    ChangeView { path, hash: n.hash, last_modified: n.last_modified }
}

/// The childless nodes of the subtree `n` at `path`, in key order.
pub open spec fn leaves_of(n: NodeModel, path: Seq<Seq<u8>>) -> Seq<ChangeView>
    decreases n,
{
    if n.children.len() == 0 {
        seq![change_of(path, n)]
    } else {
        leaves_of_children(n.children, path)
    }
}

/// The childless nodes of the subtrees `cs` under the parent path `parent`.
pub open spec fn leaves_of_children(cs: Seq<NodeModel>, parent: Seq<Seq<u8>>) -> Seq<ChangeView>
    decreases cs,
{
    if cs.len() == 0 {
        Seq::empty()
    } else {
        leaves_of_children(cs.drop_last(), parent) + leaves_of(cs.last(), parent.push(cs.last().segment))
    }
}

/// The changes of `a` (left) against `b` (right), both at `path`.
pub open spec fn diff_nodes(a: NodeModel, b: NodeModel, path: Seq<Seq<u8>>) -> (Seq<ChangeView>, Seq<ChangeView>)
    decreases a, 0int,
{
    if a.hash == b.hash {
        (Seq::empty(), Seq::empty())
    } else if a.children.len() == 0 && b.children.len() == 0 {
        if a.last_modified > b.last_modified {
            (seq![change_of(path, a)], Seq::empty())
        } else {
            (Seq::empty(), seq![change_of(path, b)])
        }
    } else {
        diff_children(a.children, b.children, path)
    }
}

/// The changes between two key-sorted child sequences under `parent`: keys
/// of one side only give the leaves of their subtrees, keys of both sides
/// are compared recursively.
pub open spec fn diff_children(xs: Seq<NodeModel>, ys: Seq<NodeModel>, parent: Seq<Seq<u8>>) -> (Seq<ChangeView>, Seq<ChangeView>)
    decreases xs, ys.len(),
{
    if xs.len() == 0 && ys.len() == 0 {
        (Seq::empty(), Seq::empty())
    } else if ys.len() == 0 || (xs.len() > 0 && seg_lt(ys.last().segment, xs.last().segment)) {
        let d = diff_children(xs.drop_last(), ys, parent);
        (d.0 + leaves_of(xs.last(), parent.push(xs.last().segment)), d.1)
    } else if xs.len() == 0 || seg_lt(xs.last().segment, ys.last().segment) {
        let d = diff_children(xs, ys.drop_last(), parent);
        (d.0, d.1 + leaves_of(ys.last(), parent.push(ys.last().segment)))
    } else {
        let d = diff_children(xs.drop_last(), ys.drop_last(), parent);
        let e = diff_nodes(xs.last(), ys.last(), parent.push(xs.last().segment));
        (d.0 + e.0, d.1 + e.1)
    }
}

/// The pairs `(i, j)` of a left change `i` and right change `j` with equal
/// hashes whose left index is `i`, by increasing `j`.
pub open spec fn moves_row(i: int, h: Seq<u8>, right: Seq<ChangeView>) -> Seq<(int, int)>
    decreases right.len(),
{
    if right.len() == 0 {
        Seq::empty()
    } else {
        moves_row(i, h, right.drop_last()) + if right.last().hash == h {
            seq![(i, right.len() - 1)]
        } else {
            Seq::empty()
        }
    }
}

/// Every pair `(i, j)` such that left change `i` and right change `j` have the
/// same hash: the same content seen at two places, an inferred move. Ordered
/// by `i`, then by `j`.
pub open spec fn move_pairs(left: Seq<ChangeView>, right: Seq<ChangeView>) -> Seq<(int, int)>
    decreases left.len(),
{
    if left.len() == 0 {
        Seq::empty()
    } else {
        move_pairs(left.drop_last(), right) + moves_row(left.len() - 1, left.last().hash, right)
    }
}

proof fn lemma_concat_contains<A>(s1: Seq<A>, s2: Seq<A>, x: A)
    ensures
        (s1 + s2).contains(x) <==> s1.contains(x) || s2.contains(x),
{
    let s = s1 + s2;
    if s.contains(x) {
        let k = choose|k: int| 0 <= k < s.len() && s[k] == x;
        if k < s1.len() {
            assert(s1[k] == x);
        } else {
            assert(s2[k - s1.len()] == x);
        }
    }
    if s1.contains(x) {
        let k = choose|k: int| 0 <= k < s1.len() && s1[k] == x;
        assert(s[k] == x);
    }
    if s2.contains(x) {
        let k = choose|k: int| 0 <= k < s2.len() && s2[k] == x;
        assert(s[k + s1.len()] == x);
    }
}

proof fn lemma_moves_row_contains(i: int, h: Seq<u8>, right: Seq<ChangeView>, a: int, b: int)
    ensures
        moves_row(i, h, right).contains((a, b)) <==> a == i && 0 <= b < right.len() && right[b].hash == h,
    decreases right.len(),
{
    if right.len() > 0 {
        let last: Seq<(int, int)> = if right.last().hash == h {
            seq![(i, right.len() - 1)]
        } else {
            Seq::empty()
        };
        lemma_moves_row_contains(i, h, right.drop_last(), a, b);
        lemma_concat_contains(moves_row(i, h, right.drop_last()), last, (a, b));
        if last.contains((a, b)) {
            let k = choose|k: int| 0 <= k < last.len() && last[k] == (a, b);
        }
        if a == i && b == right.len() - 1 && right[b].hash == h {
            assert(last[0] == (a, b));
        }
    }
}

/// `(i, j)` is a move pair exactly when left change `i` and right change `j`
/// have the same hash.
pub proof fn lemma_move_pairs_contains(left: Seq<ChangeView>, right: Seq<ChangeView>, i: int, j: int)
    ensures
        move_pairs(left, right).contains((i, j))
            <==> 0 <= i < left.len() && 0 <= j < right.len() && left[i].hash == right[j].hash,
    decreases left.len(),
{
    if left.len() > 0 {
        let n = left.len() - 1;
        lemma_move_pairs_contains(left.drop_last(), right, i, j);
        lemma_moves_row_contains(n, left.last().hash, right, i, j);
        lemma_concat_contains(move_pairs(left.drop_last(), right), moves_row(n, left.last().hash, right), (i, j));
    }
}

/// Swapping the sides of a diff swaps each move pair: `(i, j)` pairs left
/// change `i` with right change `j` exactly when `(j, i)` pairs them once
/// the sides are swapped.
pub proof fn lemma_move_pairs_swap(left: Seq<ChangeView>, right: Seq<ChangeView>, i: int, j: int)
    ensures
        move_pairs(left, right).contains((i, j)) <==> move_pairs(right, left).contains((j, i)),
{
    lemma_move_pairs_contains(left, right, i, j);
    lemma_move_pairs_contains(right, left, j, i);
}

/// A reported node of a diff: its path from the root, its hash and its
/// last-modified time.
pub struct Change {
    pub path: Vec<Vec<u8>>,
    pub hash: Vec<u8>,
    pub last_modified: u64,
}

impl View for Change {
    type V = ChangeView;

    open spec fn view(&self) -> ChangeView {
        ChangeView { path: segs_view(self.path@), hash: self.hash@, last_modified: self.last_modified }
    }
}

pub open spec fn changes_view(v: Seq<Change>) -> Seq<ChangeView> {
    v.map_values(|c: Change| c@)
}

pub open spec fn moves_view(v: Seq<(usize, usize)>) -> Seq<(int, int)> {
    v.map_values(|m: (usize, usize)| (m.0 as int, m.1 as int))
}

/// The outcome of comparing two trees that differ: what changed on the
/// left, what changed on the right, and the pairs of a left and a right
/// change with equal hashes (indices into `left` and `right`).
pub struct Difference {
    pub left: Vec<Change>,
    pub right: Vec<Change>,
    pub moves: Vec<(usize, usize)>,
}

/// Pairs each left change with every right change of equal hash.
pub fn find_moves(left: &Vec<Change>, right: &Vec<Change>) -> (r: Vec<(usize, usize)>)
    ensures
        moves_view(r@) == move_pairs(changes_view(left@), changes_view(right@)),
{
    let ghost l = changes_view(left@);
    let ghost rt = changes_view(right@);
    let mut r: Vec<(usize, usize)> = Vec::new();
    let mut i: usize = 0;
    while i < left.len()
        invariant
            0 <= i <= left.len(),
            l == changes_view(left@),
            rt == changes_view(right@),
            moves_view(r@) == move_pairs(l.subrange(0, i as int), rt),
        decreases left.len() - i,
    {
        let mut j: usize = 0;
        while j < right.len()
            invariant
                0 <= i < left.len(),
                0 <= j <= right.len(),
                l == changes_view(left@),
                rt == changes_view(right@),
                moves_view(r@) == move_pairs(l.subrange(0, i as int), rt) + moves_row(i as int, l[i as int].hash, rt.subrange(0, j as int)),
            decreases right.len() - j,
        {
            assert(rt.subrange(0, j + 1).drop_last() =~= rt.subrange(0, j as int));
            let ghost before = moves_view(r@);
            if bytes_equal(left[i].hash.as_slice(), right[j].hash.as_slice()) {
                r.push((i, j));
                assert(moves_view(r@) =~= before + seq![(i as int, j as int)]);
            }
            j = j + 1;
        }
        assert(rt.subrange(0, j as int) =~= rt);
        assert(l.subrange(0, i + 1).drop_last() =~= l.subrange(0, i as int));
        i = i + 1;
    }
    assert(l.subrange(0, i as int) =~= l);
    r
}

} // verus!
