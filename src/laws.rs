use vstd::prelude::*;
use crate::bytes::{blake3_of, lemma_seg_lt_irreflexive, lemma_seg_lt_transitive, lemma_seg_lt_trichotomy, seg_lt};
use crate::diff::{diff_children, diff_nodes, lemma_move_pairs_swap, move_pairs, ChangeView};
use crate::entry::MerkleEntry;
use crate::model::{
    child_index, insert_model, interior_hash, interior_input, leaf, lemma_lower_bound,
    lemma_lower_bound_unique, lower_bound, node_at, recompute, remove_model, replace_entry,
    sorted_children, update_model, wf, with_children, NodeModel, ErrorKind,
};

verus! {

/// Inserting `x` at its lower bound, where no child has its segment, keeps
/// the children sorted.
proof fn lemma_sorted_insert(cs: Seq<NodeModel>, x: NodeModel)
    requires
        sorted_children(cs),
        child_index(cs, x.segment) is None,
    ensures
        sorted_children(cs.insert(lower_bound(cs, x.segment), x)),
{
    let seg = x.segment;
    lemma_lower_bound(cs, seg);
    let i = lower_bound(cs, seg);
    let ns = cs.insert(i, x);
    if i < cs.len() {
        lemma_seg_lt_trichotomy(cs[i].segment, seg);
    }
    assert forall|a: int, b: int| 0 <= a < b < ns.len() implies seg_lt(#[trigger] ns[a].segment, #[trigger] ns[b].segment) by {
        if b < i {
        } else if b == i {
        } else if a < i {
            assert(seg_lt(cs[a].segment, cs[b - 1].segment));
        } else if a == i {
            if b - 1 > i {
                assert(seg_lt(cs[i].segment, cs[b - 1].segment));
                lemma_seg_lt_transitive(seg, cs[i].segment, cs[b - 1].segment);
            }
        } else {
            assert(seg_lt(cs[a - 1].segment, cs[b - 1].segment));
        }
    }
}

proof fn lemma_sorted_remove(cs: Seq<NodeModel>, i: int)
    requires
        sorted_children(cs),
        0 <= i < cs.len(),
    ensures
        sorted_children(cs.remove(i)),
{
    let ns = cs.remove(i);
    assert forall|a: int, b: int| 0 <= a < b < ns.len() implies seg_lt(#[trigger] ns[a].segment, #[trigger] ns[b].segment) by {
        let a0 = if a < i { a } else { a + 1 };
        let b0 = if b < i { b } else { b + 1 };
        assert(seg_lt(cs[a0].segment, cs[b0].segment));
    }
}

proof fn lemma_sorted_update(cs: Seq<NodeModel>, i: int, c: NodeModel)
    requires
        sorted_children(cs),
        0 <= i < cs.len(),
        c.segment == cs[i].segment,
    ensures
        sorted_children(cs.update(i, c)),
{
    let ns = cs.update(i, c);
    assert forall|a: int, b: int| 0 <= a < b < ns.len() implies seg_lt(#[trigger] ns[a].segment, #[trigger] ns[b].segment) by {
        assert(seg_lt(cs[a].segment, cs[b].segment));
    }
}

/// A node whose children are sorted and well-formed is well-formed after
/// recomputation.
proof fn lemma_recompute_wf(n: NodeModel, cs: Seq<NodeModel>, now: u64)
    requires
        sorted_children(cs),
        forall|k: int| 0 <= k < cs.len() ==> wf(#[trigger] cs[k]),
    ensures
        wf(recompute(with_children(n, cs), now)),
        recompute(with_children(n, cs), now).segment == n.segment,
{
}

/// Insertion keeps a tree well-formed and keeps the root's segment.
pub proof fn lemma_insert_wf(n: NodeModel, p: Seq<Seq<u8>>, e: MerkleEntry, now: u64)
    requires
        wf(n),
    ensures
        insert_model(n, p, e, now) matches Ok(m) ==> wf(m) && m.segment == n.segment,
    decreases p.len(),
{
    if p.len() > 0 {
        let cs = n.children;
        let i = lower_bound(cs, p[0]);
        lemma_lower_bound(cs, p[0]);
        if p.len() == 1 {
            if child_index(cs, p[0]) is None {
                let x = leaf(p[0], e);
                lemma_sorted_insert(cs, x);
                let ns = cs.insert(i, x);
                assert forall|k: int| 0 <= k < ns.len() implies wf(#[trigger] ns[k]) by {
                    if k < i {
                    } else if k == i {
                        assert(x.children.len() == 0);
                    } else {
                        assert(ns[k] == cs[k - 1]);
                    }
                }
                lemma_recompute_wf(n, ns, now);
            }
        } else if child_index(cs, p[0]) is Some {
            lemma_insert_wf(cs[i], p.drop_first(), e, now);
            if let Ok(c) = insert_model(cs[i], p.drop_first(), e, now) {
                lemma_sorted_update(cs, i, c);
                lemma_recompute_wf(n, cs.update(i, c), now);
            }
        }
    }
}

/// Replacing an entry keeps a tree well-formed and keeps the root's segment.
pub proof fn lemma_update_wf(n: NodeModel, p: Seq<Seq<u8>>, e: MerkleEntry, now: u64)
    requires
        wf(n),
    ensures
        update_model(n, p, e, now) matches Ok(m) ==> wf(m) && m.segment == n.segment,
    decreases p.len(),
{
    if p.len() == 0 {
        let m = replace_entry(n, e);
        assert(m.children == n.children);
    } else if let Some(i) = child_index(n.children, p[0]) {
        let cs = n.children;
        lemma_lower_bound(cs, p[0]);
        lemma_update_wf(cs[i], p.drop_first(), e, now);
        if let Ok(c) = update_model(cs[i], p.drop_first(), e, now) {
            lemma_sorted_update(cs, i, c);
            lemma_recompute_wf(n, cs.update(i, c), now);
        }
    }
}

/// Removal keeps a tree well-formed and keeps the root's segment.
pub proof fn lemma_remove_wf(n: NodeModel, p: Seq<Seq<u8>>, now: u64)
    requires
        wf(n),
    ensures
        remove_model(n, p, now) matches Ok(m) ==> wf(m) && m.segment == n.segment,
    decreases p.len(),
{
    if p.len() > 0 {
        if let Some(i) = child_index(n.children, p[0]) {
            let cs = n.children;
            lemma_lower_bound(cs, p[0]);
            if p.len() == 1 {
                lemma_sorted_remove(cs, i);
                let ns = cs.remove(i);
                assert forall|k: int| 0 <= k < ns.len() implies wf(#[trigger] ns[k]) by {
                    if k >= i {
                        assert(ns[k] == cs[k + 1]);
                    }
                }
                lemma_recompute_wf(n, ns, now);
            } else {
                lemma_remove_wf(cs[i], p.drop_first(), now);
                if let Ok(c) = remove_model(cs[i], p.drop_first(), now) {
                    lemma_sorted_update(cs, i, c);
                    lemma_recompute_wf(n, cs.update(i, c), now);
                }
            }
        }
    }
}

/// Every node of a well-formed tree is well-formed.
pub proof fn lemma_node_at_wf(n: NodeModel, p: Seq<Seq<u8>>)
    requires
        wf(n),
    ensures
        node_at(n, p) matches Some(m) ==> wf(m),
    decreases p.len(),
{
    if p.len() > 0 {
        if let Some(i) = child_index(n.children, p[0]) {
            lemma_lower_bound(n.children, p[0]);
            lemma_node_at_wf(n.children[i], p.drop_first());
        }
    }
}

/// In a well-formed tree every node with children `c1 .. ck` (in key order)
/// has the hash BLAKE3(c1.hash ++ c1.segment ++ ... ++ ck.hash ++ ck.segment);
/// new trees are well-formed and insert, update and remove keep them so.
pub proof fn lemma_interior_hash(t: NodeModel, p: Seq<Seq<u8>>)
    requires
        wf(t),
        node_at(t, p) is Some,
        node_at(t, p).unwrap().children.len() > 0,
    ensures
        node_at(t, p).unwrap().hash == blake3_of(interior_input(node_at(t, p).unwrap().children)),
{
    lemma_node_at_wf(t, p);
}

/// In a well-formed tree every childless node's hash is the hash of its
/// entry; new trees are well-formed and insert, update and remove keep them
/// so.
pub proof fn lemma_leaf_hash(t: NodeModel, p: Seq<Seq<u8>>)
    requires
        wf(t),
        node_at(t, p) is Some,
        node_at(t, p).unwrap().children.len() == 0,
    ensures
        node_at(t, p).unwrap().hash == node_at(t, p).unwrap().entry.hash_view(),
{
    lemma_node_at_wf(t, p);
}

proof fn lemma_interior_input_same(xs: Seq<NodeModel>, ys: Seq<NodeModel>)
    requires
        xs.len() == ys.len(),
        forall|k: int| 0 <= k < xs.len() ==> #[trigger] xs[k].hash == ys[k].hash && xs[k].segment == ys[k].segment,
    ensures
        interior_input(xs) == interior_input(ys),
    decreases xs.len(),
{
    if xs.len() > 0 {
        lemma_interior_input_same(xs.drop_last(), ys.drop_last());
    }
}

proof fn lemma_lower_bound_same(xs: Seq<NodeModel>, ys: Seq<NodeModel>, seg: Seq<u8>)
    requires
        xs.len() == ys.len(),
        forall|k: int| 0 <= k < xs.len() ==> #[trigger] xs[k].segment == ys[k].segment,
    ensures
        lower_bound(xs, seg) == lower_bound(ys, seg),
    decreases xs.len(),
{
    if xs.len() > 0 {
        lemma_lower_bound_same(xs.drop_last(), ys.drop_last(), seg);
    }
}

/// Removing a leaf and inserting an entry of the same hash at the same path
/// restores the root hash.
pub proof fn lemma_remove_then_reinsert(t: NodeModel, p: Seq<Seq<u8>>, e: MerkleEntry, now1: u64, now2: u64)
    requires
        wf(t),
        p.len() > 0,
        node_at(t, p) matches Some(n) && n.children.len() == 0 && n.hash == e.hash_view(),
    ensures
        remove_model(t, p, now1) matches Ok(t1) && insert_model(t1, p, e, now2) matches Ok(t2) && t2.hash == t.hash,
    decreases p.len(),
{
    let cs = t.children;
    let s = p[0];
    lemma_lower_bound(cs, s);
    let i = lower_bound(cs, s);
    assert(child_index(cs, s) == Some(i));
    if p.len() == 1 {
        let t1 = recompute(with_children(t, cs.remove(i)), now1);
        let rs = cs.remove(i);
        assert(t1.children == rs);
        if i + 1 < cs.len() {
            assert(seg_lt(cs[i].segment, cs[i + 1].segment));
            lemma_seg_lt_trichotomy(cs[i + 1].segment, s);
            lemma_seg_lt_irreflexive(s);
        }
        lemma_lower_bound_unique(rs, s, i);
        let x = leaf(s, e);
        let ns = rs.insert(i, x);
        assert(node_at(cs[i], p.drop_first()) == Some(cs[i]));
        assert(x.hash == cs[i].hash);
        assert forall|k: int| 0 <= k < ns.len() implies #[trigger] ns[k].hash == cs[k].hash && ns[k].segment == cs[k].segment by {
            if k > i {
                assert(ns[k] == rs[k - 1]);
                assert(rs[k - 1] == cs[k]);
            } else if k < i {
                assert(ns[k] == rs[k]);
            }
        }
        lemma_interior_input_same(ns, cs);
    } else {
        let rest = p.drop_first();
        let c = cs[i];
        lemma_remove_then_reinsert(c, rest, e, now1, now2);
        lemma_remove_wf(c, rest, now1);
        let c1 = remove_model(c, rest, now1).unwrap();
        lemma_insert_wf(c1, rest, e, now2);
        let c2 = insert_model(c1, rest, e, now2).unwrap();
        let us = cs.update(i, c1);
        lemma_lower_bound_same(us, cs, s);
        let t1 = recompute(with_children(t, us), now1);
        assert(t1.children == us);
        assert(us.update(i, c2) =~= cs.update(i, c2));
        lemma_interior_input_same(cs.update(i, c2), cs);
    }
}

/// An update leaves the same nodes in the tree, gives the node at `p` the
/// entry `e` and leaves every other node's entry as it was.
pub proof fn lemma_update_keeps_others(t: NodeModel, p: Seq<Seq<u8>>, e: MerkleEntry, now: u64, q: Seq<Seq<u8>>)
    requires
        wf(t),
        update_model(t, p, e, now) is Ok,
    ensures
        ({
            let m = update_model(t, p, e, now).unwrap();
            &&& (node_at(m, q) is Some <==> node_at(t, q) is Some)
            &&& q == p ==> node_at(m, q).unwrap().entry == e
            &&& q != p && node_at(t, q) is Some ==> node_at(m, q).unwrap().entry == node_at(t, q).unwrap().entry
        }),
    decreases p.len(),
{
    let m = update_model(t, p, e, now).unwrap();
    let cs = t.children;
    if p.len() == 0 {
        assert(m.children == cs);
        if q.len() == 0 {
            assert(q == p);
        }
    } else {
        let i = child_index(cs, p[0]).unwrap();
        lemma_lower_bound(cs, p[0]);
        lemma_update_wf(cs[i], p.drop_first(), e, now);
        let c1 = update_model(cs[i], p.drop_first(), e, now).unwrap();
        let ns = cs.update(i, c1);
        assert(m.children == ns);
        if q.len() > 0 {
            lemma_lower_bound_same(ns, cs, q[0]);
            let j = lower_bound(cs, q[0]);
            lemma_lower_bound(cs, q[0]);
            if j < cs.len() && j == i {
                lemma_update_keeps_others(cs[i], p.drop_first(), e, now, q.drop_first());
                if q[0] == p[0] && q.drop_first() == p.drop_first() {
                    assert forall|k: int| 0 <= k < q.len() implies q[k] == p[k] by {
                        if k > 0 {
                            assert(q[k] == q.drop_first()[k - 1]);
                            assert(p[k] == p.drop_first()[k - 1]);
                        }
                    }
                    assert(q =~= p);
                }
                if q == p {
                    assert(q.drop_first() == p.drop_first());
                }
            }
        } else {
            assert(q != p);
        }
    }
}

/// A tree compared with itself shows no change (and `find_difference`
/// returns `None`, the root hashes being equal).
pub proof fn lemma_diff_identical(t: NodeModel)
    ensures
        diff_nodes(t, t, Seq::empty()) == (Seq::<ChangeView>::empty(), Seq::<ChangeView>::empty()),
{
}

/// Inserting at a path that is already in the tree fails with
/// `AlreadyExists`, and the tree is left as it was.
pub proof fn lemma_insert_existing(t: NodeModel, p: Seq<Seq<u8>>, e: MerkleEntry, now: u64)
    requires
        p.len() > 0,
        node_at(t, p) is Some,
    ensures
        insert_model(t, p, e, now) == Err::<NodeModel, ErrorKind>(ErrorKind::AlreadyExists),
    decreases p.len(),
{
    if p.len() > 1 {
        let i = lower_bound(t.children, p[0]);
        lemma_insert_existing(t.children[i], p.drop_first(), e, now);
    }
}

/// Two trees whose corresponding differing leaves never share a
/// last-modified time.
pub open spec fn no_tied_leaves(a: NodeModel, b: NodeModel) -> bool
    decreases a, 0int,
{
    if a.hash == b.hash {
        true
    } else if a.children.len() == 0 && b.children.len() == 0 {
        a.last_modified != b.last_modified
    } else {
        no_tied_children(a.children, b.children)
    }
}

pub open spec fn no_tied_children(xs: Seq<NodeModel>, ys: Seq<NodeModel>) -> bool
    decreases xs, ys.len(),
{
    if xs.len() == 0 && ys.len() == 0 {
        true
    } else if ys.len() == 0 || (xs.len() > 0 && seg_lt(ys.last().segment, xs.last().segment)) {
        no_tied_children(xs.drop_last(), ys)
    } else if xs.len() == 0 || seg_lt(xs.last().segment, ys.last().segment) {
        no_tied_children(xs, ys.drop_last())
    } else {
        no_tied_children(xs.drop_last(), ys.drop_last()) && no_tied_leaves(xs.last(), ys.last())
    }
}

proof fn lemma_no_tied_children_symmetric(xs: Seq<NodeModel>, ys: Seq<NodeModel>)
    requires
        no_tied_children(xs, ys),
    ensures
        no_tied_children(ys, xs),
    decreases xs, ys.len(),
{
    if xs.len() > 0 && ys.len() > 0 {
        lemma_seg_lt_trichotomy(xs.last().segment, ys.last().segment);
    }
    if xs.len() == 0 && ys.len() == 0 {
    } else if ys.len() == 0 || (xs.len() > 0 && seg_lt(ys.last().segment, xs.last().segment)) {
        lemma_no_tied_children_symmetric(xs.drop_last(), ys);
    } else if xs.len() == 0 || seg_lt(xs.last().segment, ys.last().segment) {
        lemma_no_tied_children_symmetric(xs, ys.drop_last());
    } else {
        lemma_no_tied_children_symmetric(xs.drop_last(), ys.drop_last());
        lemma_no_tied_symmetric(xs.last(), ys.last());
    }
}

proof fn lemma_no_tied_symmetric(a: NodeModel, b: NodeModel)
    requires
        no_tied_leaves(a, b),
    ensures
        no_tied_leaves(b, a),
    decreases a, 0int,
{
    if a.hash != b.hash && !(a.children.len() == 0 && b.children.len() == 0) {
        lemma_no_tied_children_symmetric(a.children, b.children);
    }
}

proof fn lemma_diff_children_symmetric(xs: Seq<NodeModel>, ys: Seq<NodeModel>, parent: Seq<Seq<u8>>)
    requires
        no_tied_children(xs, ys),
    ensures
        diff_children(xs, ys, parent).0 == diff_children(ys, xs, parent).1,
        diff_children(xs, ys, parent).1 == diff_children(ys, xs, parent).0,
    decreases xs, ys.len(),
{
    if xs.len() > 0 && ys.len() > 0 {
        lemma_seg_lt_trichotomy(xs.last().segment, ys.last().segment);
    }
    if xs.len() == 0 && ys.len() == 0 {
    } else if ys.len() == 0 || (xs.len() > 0 && seg_lt(ys.last().segment, xs.last().segment)) {
        lemma_diff_children_symmetric(xs.drop_last(), ys, parent);
    } else if xs.len() == 0 || seg_lt(xs.last().segment, ys.last().segment) {
        lemma_diff_children_symmetric(xs, ys.drop_last(), parent);
    } else {
        lemma_diff_children_symmetric(xs.drop_last(), ys.drop_last(), parent);
        lemma_diff_symmetric(xs.last(), ys.last(), parent.push(xs.last().segment));
    }
}

/// Swapping the two trees of a diff swaps its two sides, wherever no two
/// differing leaves compared with each other have equal last-modified times
/// (a tie goes to the right side in either order).
pub proof fn lemma_diff_symmetric(a: NodeModel, b: NodeModel, path: Seq<Seq<u8>>)
    requires
        no_tied_leaves(a, b),
    ensures
        diff_nodes(a, b, path).0 == diff_nodes(b, a, path).1,
        diff_nodes(a, b, path).1 == diff_nodes(b, a, path).0,
    decreases a, 0int,
{
    if a.hash != b.hash && !(a.children.len() == 0 && b.children.len() == 0) {
        lemma_diff_children_symmetric(a.children, b.children, path);
    }
}

/// Swapping the two trees of a diff swaps its two sides and each inferred
/// move pair, wherever no two differing leaves compared with each other have
/// equal last-modified times.
pub proof fn lemma_diff_moves_symmetric(a: NodeModel, b: NodeModel, i: int, j: int)
    requires
        no_tied_leaves(a, b),
    ensures
        diff_nodes(a, b, Seq::empty()).0 == diff_nodes(b, a, Seq::empty()).1,
        diff_nodes(a, b, Seq::empty()).1 == diff_nodes(b, a, Seq::empty()).0,
        move_pairs(diff_nodes(a, b, Seq::empty()).0, diff_nodes(a, b, Seq::empty()).1).contains((i, j))
            <==> move_pairs(diff_nodes(b, a, Seq::empty()).0, diff_nodes(b, a, Seq::empty()).1).contains((j, i)),
{
    lemma_diff_symmetric(a, b, Seq::empty());
    lemma_move_pairs_swap(diff_nodes(a, b, Seq::empty()).0, diff_nodes(a, b, Seq::empty()).1, i, j);
}

} // verus!
