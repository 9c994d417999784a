use vstd::prelude::*;
use crate::bytes::{lemma_seg_lt_irreflexive, lemma_seg_lt_trichotomy, seg_lt};
use crate::entry::MerkleEntry;
use crate::laws::{lemma_insert_wf, lemma_remove_wf};
use crate::model::{
    child_index, insert_model, interior_hash, interior_input, leaf, lemma_lower_bound,
    lemma_lower_bound_unique, lower_bound, node_at, recompute, remove_model, sorted_children, wf,
    with_children, ErrorKind, NodeModel,
};

verus! {

/// Two trees of the same shape with the same segments and hashes at every
/// node (they may differ in entries and last-modified times).
pub open spec fn same_hashes(a: NodeModel, b: NodeModel) -> bool
    decreases a,
{
    &&& a.segment == b.segment
    &&& a.hash == b.hash
    &&& a.children.len() == b.children.len()
    &&& forall|i: int| 0 <= i < a.children.len() ==> same_hashes(#[trigger] a.children[i], b.children[i])
}

/// Some child is stored under `s`.
pub open spec fn has_key(cs: Seq<NodeModel>, s: Seq<u8>) -> bool {
    exists|i: int| 0 <= i < cs.len() && #[trigger] cs[i].segment == s
}

/// The child stored under `s` (meaningful where `has_key(cs, s)`).
pub open spec fn child_at(cs: Seq<NodeModel>, s: Seq<u8>) -> NodeModel {
    cs[lower_bound(cs, s)]
}

pub proof fn lemma_same_hashes_refl(a: NodeModel)
    ensures
        same_hashes(a, a),
    decreases a,
{
    assert forall|i: int| 0 <= i < a.children.len() implies same_hashes(#[trigger] a.children[i], a.children[i]) by {
        lemma_same_hashes_refl(a.children[i]);
    }
}

proof fn lemma_key_at(cs: Seq<NodeModel>, s: Seq<u8>, i: int)
    requires
        sorted_children(cs),
        0 <= i < cs.len(),
        cs[i].segment == s,
    ensures
        lower_bound(cs, s) == i,
        child_index(cs, s) == Some(i),
        child_at(cs, s) == cs[i],
{
    lemma_seg_lt_irreflexive(s);
    assert forall|k: int| 0 <= k < i implies seg_lt(#[trigger] cs[k].segment, s) by {
        assert(seg_lt(cs[k].segment, cs[i].segment));
    }
    lemma_lower_bound_unique(cs, s, i);
}

proof fn lemma_has_key(cs: Seq<NodeModel>, s: Seq<u8>)
    requires
        sorted_children(cs),
    ensures
        has_key(cs, s) <==> child_index(cs, s) is Some,
        has_key(cs, s) ==> child_at(cs, s).segment == s && 0 <= lower_bound(cs, s) < cs.len(),
{
    lemma_lower_bound(cs, s);
    if has_key(cs, s) {
        let i = choose|i: int| 0 <= i < cs.len() && #[trigger] cs[i].segment == s;
        lemma_key_at(cs, s, i);
    } else if child_index(cs, s) is Some {
        let i = lower_bound(cs, s);
        assert(cs[i].segment == s);
    }
}

/// Two sorted child sequences holding the same keys, with children of equal
/// key alike in hashes, are alike position by position.
proof fn lemma_sorted_match(xs: Seq<NodeModel>, ys: Seq<NodeModel>)
    requires
        sorted_children(xs),
        sorted_children(ys),
        forall|s: Seq<u8>| #[trigger] has_key(xs, s) <==> has_key(ys, s),
        forall|i: int, j: int|
            0 <= i < xs.len() && 0 <= j < ys.len() && #[trigger] xs[i].segment == #[trigger] ys[j].segment
                ==> same_hashes(xs[i], ys[j]),
    ensures
        xs.len() == ys.len(),
        forall|i: int| 0 <= i < xs.len() ==> same_hashes(#[trigger] xs[i], ys[i]),
    decreases xs.len() + ys.len(),
{
    if xs.len() == 0 && ys.len() == 0 {
        return;
    }
    if xs.len() == 0 {
        assert(has_key(ys, ys[0].segment));
        assert(!has_key(xs, ys[0].segment));
        return;
    }
    if ys.len() == 0 {
        assert(has_key(xs, xs[0].segment));
        assert(!has_key(ys, xs[0].segment));
        return;
    }
    let a = xs.last().segment;
    let b = ys.last().segment;
    assert(has_key(xs, a));
    assert(has_key(ys, b));
    if a != b {
        assert(has_key(ys, a));
        let j = choose|j: int| 0 <= j < ys.len() && #[trigger] ys[j].segment == a;
        assert(j != ys.len() - 1);
        assert(seg_lt(ys[j].segment, ys[ys.len() - 1].segment));
        assert(has_key(xs, b));
        let i = choose|i: int| 0 <= i < xs.len() && #[trigger] xs[i].segment == b;
        assert(i != xs.len() - 1);
        assert(seg_lt(xs[i].segment, xs[xs.len() - 1].segment));
        lemma_seg_lt_trichotomy(a, b);
        assert(false);
    }
    let xd = xs.drop_last();
    let yd = ys.drop_last();
    assert forall|s: Seq<u8>| #[trigger] has_key(xd, s) <==> has_key(yd, s) by {
        if has_key(xd, s) {
            let i = choose|i: int| 0 <= i < xd.len() && #[trigger] xd[i].segment == s;
            assert(xs[i].segment == s);
            assert(seg_lt(xs[i].segment, xs[xs.len() - 1].segment));
            lemma_seg_lt_irreflexive(s);
            assert(has_key(xs, s));
            assert(has_key(ys, s));
            let j = choose|j: int| 0 <= j < ys.len() && #[trigger] ys[j].segment == s;
            assert(j != ys.len() - 1);
            assert(yd[j].segment == s);
        }
        if has_key(yd, s) {
            let j = choose|j: int| 0 <= j < yd.len() && #[trigger] yd[j].segment == s;
            assert(ys[j].segment == s);
            assert(seg_lt(ys[j].segment, ys[ys.len() - 1].segment));
            lemma_seg_lt_irreflexive(s);
            assert(has_key(ys, s));
            assert(has_key(xs, s));
            let i = choose|i: int| 0 <= i < xs.len() && #[trigger] xs[i].segment == s;
            assert(i != xs.len() - 1);
            assert(xd[i].segment == s);
        }
    }
    assert forall|i: int, j: int|
        0 <= i < xd.len() && 0 <= j < yd.len() && #[trigger] xd[i].segment == #[trigger] yd[j].segment
            implies same_hashes(xd[i], yd[j]) by {
        assert(xs[i].segment == ys[j].segment);
    }
    lemma_sorted_match(xd, yd);
    assert forall|i: int| 0 <= i < xs.len() implies same_hashes(#[trigger] xs[i], ys[i]) by {
        if i < xs.len() - 1 {
            assert(same_hashes(xd[i], yd[i]));
        } else {
            assert(xs[i].segment == ys[i].segment);
        }
    }
}

/// Children alike position by position give parents of equal interior hash.
proof fn lemma_same_interior(xs: Seq<NodeModel>, ys: Seq<NodeModel>)
    requires
        xs.len() == ys.len(),
        forall|i: int| 0 <= i < xs.len() ==> same_hashes(#[trigger] xs[i], ys[i]),
    ensures
        interior_input(xs) == interior_input(ys),
    decreases xs.len(),
{
    if xs.len() > 0 {
        lemma_same_interior(xs.drop_last(), ys.drop_last());
        assert(same_hashes(xs[xs.len() - 1], ys[ys.len() - 1]));
    }
}

/// What an insertion does key by key at the top of the tree.
proof fn lemma_insert_keys(t: NodeModel, p: Seq<Seq<u8>>, e: MerkleEntry, now: u64)
    requires
        wf(t),
        p.len() > 0,
        insert_model(t, p, e, now) is Ok,
    ensures
        ({
            let t1 = insert_model(t, p, e, now).unwrap();
            let cs = t.children;
            let ns = t1.children;
            &&& wf(t1)
            &&& t1.segment == t.segment
            &&& ns.len() > 0
            &&& forall|s: Seq<u8>| #[trigger] has_key(ns, s) <==> (has_key(cs, s) || s == p[0])
            &&& forall|s: Seq<u8>| s != p[0] && has_key(cs, s) ==> #[trigger] child_at(ns, s) == child_at(cs, s)
            &&& p.len() == 1 ==> !has_key(cs, p[0]) && child_at(ns, p[0]) == leaf(p[0], e)
            &&& p.len() > 1 ==> {
                &&& has_key(cs, p[0])
                &&& insert_model(child_at(cs, p[0]), p.drop_first(), e, now) is Ok
                &&& child_at(ns, p[0]) == insert_model(child_at(cs, p[0]), p.drop_first(), e, now).unwrap()
            }
        }),
{
    lemma_insert_wf(t, p, e, now);
    let t1 = insert_model(t, p, e, now).unwrap();
    let cs = t.children;
    let ns = t1.children;
    let s0 = p[0];
    lemma_lower_bound(cs, s0);
    lemma_has_key(cs, s0);
    let i = lower_bound(cs, s0);
    if p.len() == 1 {
        let x = leaf(s0, e);
        assert(ns == cs.insert(i, x));
        lemma_key_at(ns, s0, i);
        assert forall|s: Seq<u8>| #[trigger] has_key(ns, s) <==> (has_key(cs, s) || s == s0) by {
            if has_key(ns, s) {
                let k = choose|k: int| 0 <= k < ns.len() && #[trigger] ns[k].segment == s;
                if k < i {
                    assert(cs[k].segment == s);
                } else if k > i {
                    assert(cs[k - 1].segment == s);
                }
            }
            if has_key(cs, s) {
                let j = choose|j: int| 0 <= j < cs.len() && #[trigger] cs[j].segment == s;
                if j < i {
                    assert(ns[j].segment == s);
                } else {
                    assert(ns[j + 1].segment == s);
                }
            }
            if s == s0 {
                assert(ns[i].segment == s);
            }
        }
        assert forall|s: Seq<u8>| s != s0 && has_key(cs, s) implies #[trigger] child_at(ns, s) == child_at(cs, s) by {
            let j = choose|j: int| 0 <= j < cs.len() && #[trigger] cs[j].segment == s;
            lemma_key_at(cs, s, j);
            if j < i {
                assert(ns[j] == cs[j]);
                lemma_key_at(ns, s, j);
            } else {
                assert(ns[j + 1] == cs[j]);
                lemma_key_at(ns, s, j + 1);
            }
        }
    } else {
        let c = cs[i];
        let c1 = insert_model(c, p.drop_first(), e, now).unwrap();
        lemma_insert_wf(c, p.drop_first(), e, now);
        assert(ns == cs.update(i, c1));
        lemma_key_at(ns, s0, i);
        assert forall|s: Seq<u8>| #[trigger] has_key(ns, s) <==> (has_key(cs, s) || s == s0) by {
            if has_key(ns, s) {
                let k = choose|k: int| 0 <= k < ns.len() && #[trigger] ns[k].segment == s;
                assert(cs[k].segment == s);
            }
            if has_key(cs, s) {
                let j = choose|j: int| 0 <= j < cs.len() && #[trigger] cs[j].segment == s;
                assert(ns[j].segment == s);
            }
            if s == s0 {
                assert(cs[i].segment == s);
            }
        }
        assert forall|s: Seq<u8>| s != s0 && has_key(cs, s) implies #[trigger] child_at(ns, s) == child_at(cs, s) by {
            let j = choose|j: int| 0 <= j < cs.len() && #[trigger] cs[j].segment == s;
            lemma_key_at(cs, s, j);
            assert(ns[j] == cs[j]);
            lemma_key_at(ns, s, j);
        }
    }
}

proof fn lemma_lower_bound_alike(xs: Seq<NodeModel>, ys: Seq<NodeModel>, seg: Seq<u8>)
    requires
        xs.len() == ys.len(),
        forall|k: int| 0 <= k < xs.len() ==> same_hashes(#[trigger] xs[k], ys[k]),
    ensures
        lower_bound(xs, seg) == lower_bound(ys, seg),
    decreases xs.len(),
{
    if xs.len() > 0 {
        lemma_lower_bound_alike(xs.drop_last(), ys.drop_last(), seg);
        assert(same_hashes(xs[xs.len() - 1], ys[ys.len() - 1]));
    }
}

/// Trees alike in every hash stay alike after the same insertion, at any
/// times: with the commutation below, the hashes of a tree built by
/// insertions do not depend on their order.
pub proof fn lemma_insert_congruent(a: NodeModel, b: NodeModel, p: Seq<Seq<u8>>, e: MerkleEntry, na: u64, nb: u64)
    requires
        same_hashes(a, b),
        insert_model(a, p, e, na) is Ok,
    ensures
        insert_model(b, p, e, nb) is Ok,
        same_hashes(insert_model(a, p, e, na).unwrap(), insert_model(b, p, e, nb).unwrap()),
    decreases p.len(),
{
    let xs = a.children;
    let ys = b.children;
    lemma_lower_bound_alike(xs, ys, p[0]);
    lemma_lower_bound(xs, p[0]);
    let i = lower_bound(xs, p[0]);
    if i < xs.len() {
        assert(same_hashes(xs[i], ys[i]));
    }
    if p.len() == 1 {
        let x = leaf(p[0], e);
        let xa = xs.insert(i, x);
        let xb = ys.insert(i, x);
        assert forall|k: int| 0 <= k < xa.len() implies same_hashes(#[trigger] xa[k], xb[k]) by {
            if k < i {
                assert(same_hashes(xs[k], ys[k]));
            } else if k == i {
                lemma_same_hashes_refl(x);
            } else {
                assert(same_hashes(xs[k - 1], ys[k - 1]));
            }
        }
        lemma_same_interior(xa, xb);
    } else {
        lemma_insert_congruent(xs[i], ys[i], p.drop_first(), e, na, nb);
        let ca = insert_model(xs[i], p.drop_first(), e, na).unwrap();
        let cb = insert_model(ys[i], p.drop_first(), e, nb).unwrap();
        let xa = xs.update(i, ca);
        let xb = ys.update(i, cb);
        assert forall|k: int| 0 <= k < xa.len() implies same_hashes(#[trigger] xa[k], xb[k]) by {
            if k != i {
                assert(same_hashes(xs[k], ys[k]));
            }
        }
        lemma_same_interior(xa, xb);
    }
}

/// Inserting at two paths gives trees alike in every hash, whichever of
/// the two insertions comes first (where both orders succeed): the root hash
/// of a tree does not depend on the order in which its entries arrived.
pub proof fn lemma_insertions_commute(
    t: NodeModel,
    p: Seq<Seq<u8>>,
    e: MerkleEntry,
    q: Seq<Seq<u8>>,
    f: MerkleEntry,
    now1: u64,
    now2: u64,
    now3: u64,
    now4: u64,
)
    requires
        wf(t),
        p.len() > 0,
        q.len() > 0,
        insert_model(t, p, e, now1) matches Ok(t1) && insert_model(t1, q, f, now2) is Ok,
        insert_model(t, q, f, now3) matches Ok(t2) && insert_model(t2, p, e, now4) is Ok,
    ensures
        same_hashes(
            insert_model(insert_model(t, p, e, now1).unwrap(), q, f, now2).unwrap(),
            insert_model(insert_model(t, q, f, now3).unwrap(), p, e, now4).unwrap(),
        ),
        insert_model(insert_model(t, p, e, now1).unwrap(), q, f, now2).unwrap().hash
            == insert_model(insert_model(t, q, f, now3).unwrap(), p, e, now4).unwrap().hash,
    decreases p.len(),
{
    let t1 = insert_model(t, p, e, now1).unwrap();
    let t2 = insert_model(t, q, f, now3).unwrap();
    let t12 = insert_model(t1, q, f, now2).unwrap();
    let t21 = insert_model(t2, p, e, now4).unwrap();
    lemma_insert_keys(t, p, e, now1);
    lemma_insert_keys(t1, q, f, now2);
    lemma_insert_keys(t, q, f, now3);
    lemma_insert_keys(t2, p, e, now4);
    let cs = t.children;
    let c1 = t1.children;
    let c2 = t2.children;
    let xs = t12.children;
    let ys = t21.children;
    let p0 = p[0];
    let q0 = q[0];
    assert forall|s: Seq<u8>| #[trigger] has_key(xs, s) <==> has_key(ys, s) by {
        assert(has_key(xs, s) == (has_key(c1, s) || s == q0));
        assert(has_key(c1, s) == (has_key(cs, s) || s == p0));
        assert(has_key(ys, s) == (has_key(c2, s) || s == p0));
        assert(has_key(c2, s) == (has_key(cs, s) || s == q0));
    }
    // the child under each key is alike on both sides
    assert forall|s: Seq<u8>| #[trigger] has_key(xs, s) implies same_hashes(child_at(xs, s), child_at(ys, s)) by {
        assert(has_key(c1, s) == (has_key(cs, s) || s == p0));
        assert(has_key(c2, s) == (has_key(cs, s) || s == q0));
        if s == p0 && s == q0 {
            if p.len() == 1 {
                assert(has_key(c2, p0));
            } else if q.len() == 1 {
                assert(has_key(c1, q0));
            } else {
                let c = child_at(cs, p0);
                assert(wf(c)) by {
                    lemma_has_key(cs, p0);
                }
                lemma_insertions_commute(c, p.drop_first(), e, q.drop_first(), f, now1, now2, now3, now4);
            }
        } else if s == p0 {
            if p.len() > 1 {
                assert(wf(child_at(cs, p0))) by {
                    lemma_has_key(cs, p0);
                }
                lemma_same_hashes_refl(child_at(cs, p0));
                lemma_insert_congruent(child_at(cs, p0), child_at(cs, p0), p.drop_first(), e, now1, now4);
            } else {
                lemma_same_hashes_refl(leaf(p0, e));
            }
        } else if s == q0 {
            if q.len() > 1 {
                lemma_same_hashes_refl(child_at(cs, q0));
                lemma_insert_congruent(child_at(cs, q0), child_at(cs, q0), q.drop_first(), f, now2, now3);
            } else {
                lemma_same_hashes_refl(leaf(q0, f));
            }
        } else {
            lemma_same_hashes_refl(child_at(cs, s));
        }
    }
    assert forall|i: int, j: int|
        0 <= i < xs.len() && 0 <= j < ys.len() && #[trigger] xs[i].segment == #[trigger] ys[j].segment
            implies same_hashes(xs[i], ys[j]) by {
        let s = xs[i].segment;
        lemma_key_at(xs, s, i);
        lemma_key_at(ys, s, j);
        assert(has_key(xs, s));
    }
    lemma_sorted_match(xs, ys);
    lemma_same_interior(xs, ys);
}

/// The entries of a sequence of insertions: each a path and an entry.
pub open spec fn prefixed(ops: Seq<(Seq<Seq<u8>>, MerkleEntry)>, pre: Seq<Seq<u8>>) -> Seq<(Seq<Seq<u8>>, MerkleEntry)> {
    ops.map_values(|o: (Seq<Seq<u8>>, MerkleEntry)| (pre + o.0, o.1))
}

pub open spec fn tails(ops: Seq<(Seq<Seq<u8>>, MerkleEntry)>) -> Seq<(Seq<Seq<u8>>, MerkleEntry)> {
    ops.map_values(|o: (Seq<Seq<u8>>, MerkleEntry)| (o.0.drop_first(), o.1))
}

/// The paths (relative to `n`) and entries of the subtree `n`, parents
/// before their children, children in key order.
pub open spec fn subtree_entries(n: NodeModel) -> Seq<(Seq<Seq<u8>>, MerkleEntry)>
    decreases n, 0int,
{
    seq![(Seq::<Seq<u8>>::empty(), n.entry)] + children_entries(n.children)
}

/// The entries of the subtrees `cs`, each path starting with its child's
/// segment.
pub open spec fn children_entries(cs: Seq<NodeModel>) -> Seq<(Seq<Seq<u8>>, MerkleEntry)>
    decreases cs, 0int,
{
    if cs.len() == 0 {
        Seq::empty()
    } else {
        children_entries(cs.drop_last()) + prefixed(subtree_entries(cs.last()), seq![cs.last().segment])
    }
}

/// The tree after inserting every entry of `ops` in turn, all at time `now`.
pub open spec fn insert_all(t: NodeModel, ops: Seq<(Seq<Seq<u8>>, MerkleEntry)>, now: u64) -> Result<NodeModel, ErrorKind>
    decreases ops.len(),
{
    if ops.len() == 0 {
        Ok(t)
    } else {
        match insert_model(t, ops[0].0, ops[0].1, now) {
            Err(k) => Err(k),
            Ok(t1) => insert_all(t1, ops.drop_first(), now),
        }
    }
}

proof fn lemma_insert_all_concat(t: NodeModel, a: Seq<(Seq<Seq<u8>>, MerkleEntry)>, b: Seq<(Seq<Seq<u8>>, MerkleEntry)>, now: u64)
    ensures
        insert_all(t, a + b, now) == match insert_all(t, a, now) {
            Err(k) => Err(k),
            Ok(m) => insert_all(m, b, now),
        },
    decreases a.len(),
{
    if a.len() == 0 {
        assert(a + b =~= b);
    } else {
        assert((a + b).drop_first() =~= a.drop_first() + b);
        assert((a + b)[0] == a[0]);
        if let Ok(t1) = insert_model(t, a[0].0, a[0].1, now) {
            lemma_insert_all_concat(t1, a.drop_first(), b, now);
        }
    }
}

proof fn lemma_children_entries_paths(cs: Seq<NodeModel>)
    ensures
        forall|x: int| 0 <= x < children_entries(cs).len() ==> (#[trigger] children_entries(cs)[x]).0.len() >= 1,
    decreases cs.len(),
{
    if cs.len() > 0 {
        lemma_children_entries_paths(cs.drop_last());
        let a = children_entries(cs.drop_last());
        let b = prefixed(subtree_entries(cs.last()), seq![cs.last().segment]);
        assert forall|x: int| 0 <= x < children_entries(cs).len() implies (#[trigger] children_entries(cs)[x]).0.len() >= 1 by {
            if x >= a.len() {
                assert(children_entries(cs)[x] == b[x - a.len()]);
            } else {
                assert(children_entries(cs)[x] == a[x]);
            }
        }
    }
}

proof fn lemma_tails_prefixed(ops: Seq<(Seq<Seq<u8>>, MerkleEntry)>, pre: Seq<Seq<u8>>)
    requires
        pre.len() > 0,
    ensures
        tails(prefixed(ops, pre)) == prefixed(ops, pre.drop_first()),
        forall|x: int| 0 <= x < ops.len() ==> (#[trigger] prefixed(ops, pre)[x]).0[0] == pre[0]
            && prefixed(ops, pre)[x].0.len() == pre.len() + ops[x].0.len(),
{
    assert forall|x: int| 0 <= x < ops.len() implies (#[trigger] tails(prefixed(ops, pre))[x]) == prefixed(ops, pre.drop_first())[x] by {
        assert((pre + ops[x].0).drop_first() =~= pre.drop_first() + ops[x].0);
    }
    assert(tails(prefixed(ops, pre)) =~= prefixed(ops, pre.drop_first()));
}

/// Insertions that all go below the child at index `i` act on that child
/// alone.
proof fn lemma_insert_all_descend(t: NodeModel, i: int, ops: Seq<(Seq<Seq<u8>>, MerkleEntry)>, now: u64)
    requires
        wf(t),
        0 <= i < t.children.len(),
        forall|x: int| 0 <= x < ops.len() ==> (#[trigger] ops[x]).0.len() >= 2 && ops[x].0[0] == t.children[i].segment,
        insert_all(t.children[i], tails(ops), now) is Ok,
    ensures
        insert_all(t, ops, now) is Ok,
        ops.len() == 0 ==> insert_all(t, ops, now).unwrap() == t,
        ops.len() > 0 ==> insert_all(t, ops, now).unwrap() == recompute(
            with_children(t, t.children.update(i, insert_all(t.children[i], tails(ops), now).unwrap())),
            now,
        ),
    decreases ops.len(),
{
    if ops.len() > 0 {
        let cs = t.children;
        let path = ops[0].0;
        let e = ops[0].1;
        let k = cs[i].segment;
        lemma_key_at(cs, k, i);
        assert(tails(ops)[0] == (path.drop_first(), e));
        assert(tails(ops).drop_first() =~= tails(ops.drop_first()));
        let c1 = insert_model(cs[i], path.drop_first(), e, now).unwrap();
        lemma_insert_wf(t, path, e, now);
        lemma_insert_wf(cs[i], path.drop_first(), e, now);
        let t1 = insert_model(t, path, e, now).unwrap();
        assert(t1 == recompute(with_children(t, cs.update(i, c1)), now));
        let rest = ops.drop_first();
        assert forall|x: int| 0 <= x < rest.len() implies (#[trigger] rest[x]).0.len() >= 2 && rest[x].0[0] == t1.children[i].segment by {
            assert(rest[x] == ops[x + 1]);
        }
        lemma_insert_all_descend(t1, i, rest, now);
        if rest.len() > 0 {
            assert(t1.children.update(i, insert_all(c1, tails(rest), now).unwrap()) =~= cs.update(i, insert_all(c1, tails(rest), now).unwrap()));
        }
    }
}

/// Rebuilding a node from its entry and then the entries of its first `j`
/// children gives those children alike in hashes.
proof fn lemma_rebuild_children(n: NodeModel, j: int, now: u64)
    requires
        wf(n),
        0 <= j <= n.children.len(),
    ensures
        insert_all(leaf(n.segment, n.entry), children_entries(n.children.subrange(0, j)), now) matches Ok(m)
            && wf(m) && m.segment == n.segment && m.children.len() == j
            && (forall|x: int| 0 <= x < j ==> same_hashes(#[trigger] m.children[x], n.children[x]))
            && (j > 0 ==> m.hash == interior_hash(m.children)),
    decreases n, j,
{
    let l = leaf(n.segment, n.entry);
    if j == 0 {
        assert(n.children.subrange(0, 0) =~= Seq::<NodeModel>::empty());
        assert(l.children =~= Seq::<NodeModel>::empty());
        return;
    }
    lemma_rebuild_children(n, j - 1, now);
    let sub = n.children.subrange(0, j);
    assert(sub.drop_last() =~= n.children.subrange(0, j - 1));
    let c = n.children[j - 1];
    let s = c.segment;
    let a = children_entries(n.children.subrange(0, j - 1));
    let b = prefixed(subtree_entries(c), seq![s]);
    lemma_insert_all_concat(l, a, b, now);
    let m0 = insert_all(l, a, now).unwrap();
    // the child's own entry goes last among the children
    assert forall|k: int| 0 <= k < m0.children.len() implies seg_lt(#[trigger] m0.children[k].segment, s) by {
        assert(same_hashes(m0.children[k], n.children[k]));
        assert(seg_lt(n.children[k].segment, n.children[j - 1].segment));
    }
    lemma_lower_bound_unique(m0.children, s, m0.children.len() as int);
    let first = seq![(seq![s], c.entry)];
    let rest = prefixed(children_entries(c.children), seq![s]);
    assert(subtree_entries(c) == seq![(Seq::<Seq<u8>>::empty(), c.entry)] + children_entries(c.children));
    assert(b =~= first + rest) by {
        assert(seq![s] + Seq::<Seq<u8>>::empty() =~= seq![s]);
    }
    lemma_insert_all_concat(m0, first, rest, now);
    let p1 = seq![s];
    assert(p1.len() == 1 && p1[0] == s);
    let lf = leaf(s, c.entry);
    lemma_insert_wf(m0, p1, c.entry, now);
    let m1 = insert_model(m0, p1, c.entry, now).unwrap();
    assert(m0.children.insert(m0.children.len() as int, lf) =~= m0.children.push(lf));
    assert(m1 == recompute(with_children(m0, m0.children.push(lf)), now));
    assert(first.drop_first() =~= Seq::<(Seq<Seq<u8>>, MerkleEntry)>::empty());
    assert(first[0] == (p1, c.entry));
    assert(insert_all(m1, first.drop_first(), now) == Ok::<NodeModel, ErrorKind>(m1));
    assert(insert_all(m0, first, now) == Ok::<NodeModel, ErrorKind>(m1));
    lemma_tails_prefixed(children_entries(c.children), seq![s]);
    assert(seq![s].drop_first() =~= Seq::<Seq<u8>>::empty());
    assert forall|x: int| 0 <= x < children_entries(c.children).len() implies
        (#[trigger] prefixed(children_entries(c.children), Seq::<Seq<u8>>::empty())[x]) == children_entries(c.children)[x] by {
        assert(Seq::<Seq<u8>>::empty() + children_entries(c.children)[x].0 =~= children_entries(c.children)[x].0);
    }
    assert(prefixed(children_entries(c.children), Seq::<Seq<u8>>::empty()) =~= children_entries(c.children));
    assert(wf(c));
    lemma_rebuild(c, now);
    lemma_children_entries_paths(c.children);
    let mi = m0.children.len() as int;
    assert(m1.children[mi] == lf);
    assert forall|x: int| 0 <= x < rest.len() implies (#[trigger] rest[x]).0.len() >= 2 && rest[x].0[0] == m1.children[mi].segment by {
        assert(children_entries(c.children)[x].0.len() >= 1);
    }
    lemma_insert_all_descend(m1, mi, rest, now);
    let mc = insert_all(lf, children_entries(c.children), now).unwrap();
    let m = insert_all(m1, rest, now).unwrap();
    if rest.len() == 0 {
        assert(children_entries(c.children).len() == 0);
        assert(mc == lf);
    } else {
        assert(m == recompute(with_children(m1, m1.children.update(mi, mc)), now));
    }
    assert(m.children =~= m0.children.push(mc));
    assert(wf(m)) by {
        if rest.len() > 0 {
            lemma_insert_all_wf(m1, rest, now);
        }
    }
    assert forall|x: int| 0 <= x < j implies same_hashes(#[trigger] m.children[x], n.children[x]) by {
        if x == j - 1 {
            assert(m.children[x] == mc);
        } else {
            assert(m.children[x] == m0.children[x]);
        }
    }
}

/// Insertions keep a tree well-formed.
proof fn lemma_insert_all_wf(t: NodeModel, ops: Seq<(Seq<Seq<u8>>, MerkleEntry)>, now: u64)
    requires
        wf(t),
    ensures
        insert_all(t, ops, now) matches Ok(m) ==> wf(m) && m.segment == t.segment,
    decreases ops.len(),
{
    if ops.len() > 0 {
        lemma_insert_wf(t, ops[0].0, ops[0].1, now);
        if let Ok(t1) = insert_model(t, ops[0].0, ops[0].1, now) {
            lemma_insert_all_wf(t1, ops.drop_first(), now);
        }
    }
}

/// Rebuilding a node from its entry and the entries below it gives a node
/// alike in every hash.
proof fn lemma_rebuild(n: NodeModel, now: u64)
    requires
        wf(n),
    ensures
        insert_all(leaf(n.segment, n.entry), children_entries(n.children), now) matches Ok(m)
            && same_hashes(m, n),
    decreases n, n.children.len() + 1,
{
    lemma_rebuild_children(n, n.children.len() as int, now);
    assert(n.children.subrange(0, n.children.len() as int) =~= n.children);
    let m = insert_all(leaf(n.segment, n.entry), children_entries(n.children), now).unwrap();
    if n.children.len() > 0 {
        lemma_same_interior(m.children, n.children);
    } else {
        assert(m == leaf(n.segment, n.entry));
    }
}

/// The tree after inserting every entry of `ops` in turn, the `k`-th at time
/// `nows[k]`.
pub open spec fn insert_all_at(t: NodeModel, ops: Seq<(Seq<Seq<u8>>, MerkleEntry)>, nows: Seq<u64>) -> Result<NodeModel, ErrorKind>
    decreases ops.len(),
{
    if ops.len() == 0 || nows.len() == 0 {
        Ok(t)
    } else {
        match insert_model(t, ops[0].0, ops[0].1, nows[0]) {
            Err(k) => Err(k),
            Ok(t1) => insert_all_at(t1, ops.drop_first(), nows.drop_first()),
        }
    }
}

/// The times of a run of insertions change no hash.
proof fn lemma_insert_all_times(a: NodeModel, b: NodeModel, ops: Seq<(Seq<Seq<u8>>, MerkleEntry)>, now: u64, nows: Seq<u64>)
    requires
        same_hashes(a, b),
        nows.len() == ops.len(),
        insert_all(a, ops, now) is Ok,
    ensures
        insert_all_at(b, ops, nows) matches Ok(m) && same_hashes(insert_all(a, ops, now).unwrap(), m),
    decreases ops.len(),
{
    if ops.len() > 0 {
        lemma_insert_congruent(a, b, ops[0].0, ops[0].1, now, nows[0]);
        lemma_insert_all_times(
            insert_model(a, ops[0].0, ops[0].1, now).unwrap(),
            insert_model(b, ops[0].0, ops[0].1, nows[0]).unwrap(),
            ops.drop_first(),
            now,
            nows.drop_first(),
        );
    }
}

/// `lemma_subtree_reinsert` where each insertion has its own time, as the
/// clock gives them.
pub proof fn lemma_subtree_reinsert_at(t: NodeModel, p: Seq<Seq<u8>>, now0: u64, nows: Seq<u64>)
    requires
        wf(t),
        p.len() > 0,
        node_at(t, p) is Some,
        nows.len() == subtree_entries(node_at(t, p).unwrap()).len(),
    ensures
        remove_model(t, p, now0) matches Ok(t1)
            && insert_all_at(t1, prefixed(subtree_entries(node_at(t, p).unwrap()), p), nows) matches Ok(t2)
            && same_hashes(t2, t),
{
    lemma_subtree_reinsert(t, p, now0, 0);
    let t1 = remove_model(t, p, now0).unwrap();
    let ops = prefixed(subtree_entries(node_at(t, p).unwrap()), p);
    lemma_same_hashes_refl(t1);
    lemma_insert_all_times(t1, t1, ops, 0, nows);
    lemma_same_hashes_trans(insert_all_at(t1, ops, nows).unwrap(), insert_all(t1, ops, 0).unwrap(), t);
}

proof fn lemma_same_hashes_trans(a: NodeModel, b: NodeModel, c: NodeModel)
    requires
        same_hashes(b, a),
        same_hashes(b, c),
    ensures
        same_hashes(a, c),
    decreases a,
{
    assert forall|i: int| 0 <= i < a.children.len() implies same_hashes(#[trigger] a.children[i], c.children[i]) by {
        assert(same_hashes(b.children[i], a.children[i]));
        assert(same_hashes(b.children[i], c.children[i]));
        lemma_same_hashes_trans(a.children[i], b.children[i], c.children[i]);
    }
}

/// Removing the subtree at `p` and inserting its entries again at the same
/// paths, parents before children, gives a tree alike in every hash: every
/// node, the root included, has its former hash again.
pub proof fn lemma_subtree_reinsert(t: NodeModel, p: Seq<Seq<u8>>, now0: u64, now: u64)
    requires
        wf(t),
        p.len() > 0,
        node_at(t, p) is Some,
    ensures
        remove_model(t, p, now0) matches Ok(t1)
            && insert_all(t1, prefixed(subtree_entries(node_at(t, p).unwrap()), p), now) matches Ok(t2)
            && same_hashes(t2, t),
    decreases p.len(),
{
    let cs = t.children;
    let k = p[0];
    lemma_lower_bound(cs, k);
    let i = lower_bound(cs, k);
    let n = node_at(t, p).unwrap();
    let ops = prefixed(subtree_entries(n), p);
    lemma_tails_prefixed(subtree_entries(n), p);
    lemma_insert_wf(t, p, n.entry, now);
    lemma_remove_wf(t, p, now0);
    if p.len() == 1 {
        let c = cs[i];
        assert(node_at(c, p.drop_first()) == Some(c));
        let rs = cs.remove(i);
        let t1 = remove_model(t, p, now0).unwrap();
        assert(t1.children == rs);
        if i + 1 < cs.len() {
            assert(seg_lt(cs[i].segment, cs[i + 1].segment));
            lemma_seg_lt_trichotomy(cs[i + 1].segment, k);
            lemma_seg_lt_irreflexive(k);
        }
        lemma_lower_bound_unique(rs, k, i);
        let lf = leaf(k, c.entry);
        let first = seq![(p, c.entry)];
        let rest = prefixed(children_entries(c.children), p);
        assert(ops =~= first + rest) by {
            assert(p + Seq::<Seq<u8>>::empty() =~= p);
        }
        lemma_insert_all_concat(t1, first, rest, now);
        if i < rs.len() {
            assert(rs[i] == cs[i + 1]);
        }
        assert(child_index(rs, k) is None);
        assert(insert_model(t1, p, c.entry, now) == Ok::<NodeModel, ErrorKind>(
            recompute(with_children(t1, rs.insert(i, leaf(k, c.entry))), now),
        ));
        lemma_insert_wf(t1, p, c.entry, now);
        let u = insert_model(t1, p, c.entry, now).unwrap();
        assert(first[0] == (p, c.entry));
        assert(rs.insert(i, lf) =~= cs.update(i, lf));
        assert(first.drop_first() =~= Seq::<(Seq<Seq<u8>>, MerkleEntry)>::empty());
        assert(insert_all(u, first.drop_first(), now) == Ok::<NodeModel, ErrorKind>(u));
        assert(insert_all(t1, first, now) == Ok::<NodeModel, ErrorKind>(u));
        lemma_tails_prefixed(children_entries(c.children), p);
        assert(p.drop_first() =~= Seq::<Seq<u8>>::empty());
        assert(prefixed(children_entries(c.children), Seq::<Seq<u8>>::empty()) =~= children_entries(c.children)) by {
            assert forall|x: int| 0 <= x < children_entries(c.children).len() implies
                (#[trigger] prefixed(children_entries(c.children), Seq::<Seq<u8>>::empty())[x]) == children_entries(c.children)[x] by {
                assert(Seq::<Seq<u8>>::empty() + children_entries(c.children)[x].0 =~= children_entries(c.children)[x].0);
            }
        }
        lemma_rebuild(c, now);
        lemma_children_entries_paths(c.children);
        assert(u.children[i] == lf);
        assert forall|x: int| 0 <= x < rest.len() implies (#[trigger] rest[x]).0.len() >= 2 && rest[x].0[0] == u.children[i].segment by {
            assert(children_entries(c.children)[x].0.len() >= 1);
        }
        lemma_insert_all_descend(u, i, rest, now);
        let mc = insert_all(lf, children_entries(c.children), now).unwrap();
        let t2 = insert_all(u, rest, now).unwrap();
        if rest.len() == 0 {
            assert(mc == lf);
        }
        assert(t2.children =~= cs.update(i, mc));
        assert forall|x: int| 0 <= x < cs.len() implies same_hashes(#[trigger] t2.children[x], cs[x]) by {
            if x != i {
                lemma_same_hashes_refl(cs[x]);
            }
        }
        lemma_same_interior(t2.children, cs);
    } else {
        let c = cs[i];
        let q = p.drop_first();
        assert(node_at(c, q) == Some(n));
        lemma_subtree_reinsert(c, q, now0, now);
        let c1 = remove_model(c, q, now0).unwrap();
        let t1 = remove_model(t, p, now0).unwrap();
        lemma_remove_wf(c, q, now0);
        assert(t1.children == cs.update(i, c1));
        assert(tails(ops) == prefixed(subtree_entries(n), q));
        assert forall|x: int| 0 <= x < ops.len() implies (#[trigger] ops[x]).0.len() >= 2 && ops[x].0[0] == t1.children[i].segment by {
            assert(ops[x] == prefixed(subtree_entries(n), p)[x]);
        }
        lemma_insert_all_descend(t1, i, ops, now);
        assert(ops.len() > 0);
        let c2 = insert_all(c1, tails(ops), now).unwrap();
        let t2 = insert_all(t1, ops, now).unwrap();
        assert(t2.children =~= cs.update(i, c2));
        assert forall|x: int| 0 <= x < cs.len() implies same_hashes(#[trigger] t2.children[x], cs[x]) by {
            if x != i {
                lemma_same_hashes_refl(cs[x]);
            }
        }
        lemma_same_interior(t2.children, cs);
    }
}

} // verus!
