use vstd::prelude::*;

verus! {

/// The 32-byte BLAKE3 digest of a byte string.
pub uninterp spec fn blake3_of(data: Seq<u8>) -> Seq<u8>;

/// Relies on `blake3::hash`: the BLAKE3 digest of the input, 32 bytes long
/// (`blake3::OUT_LEN`).
#[verifier::external_body]
pub(crate) fn digest(data: &[u8]) -> (r: Vec<u8>)
    ensures
        r@ == blake3_of(data@),
        r@.len() == 32,
{
    blake3::hash(data).as_bytes().to_vec()
}

/// Byte-lexicographic order: `a` sorts strictly before `b`.
pub open spec fn seg_lt(a: Seq<u8>, b: Seq<u8>) -> bool
    decreases a.len(),
{
    if b.len() == 0 {
        false
    } else if a.len() == 0 {
        true
    } else if a[0] != b[0] {
        a[0] < b[0]
    } else {
        seg_lt(a.drop_first(), b.drop_first())
    }
}

pub proof fn lemma_seg_lt_irreflexive(a: Seq<u8>)
    ensures
        !seg_lt(a, a),
    decreases a.len(),
{
    if a.len() > 0 {
        lemma_seg_lt_irreflexive(a.drop_first());
    }
}

pub proof fn lemma_seg_lt_trichotomy(a: Seq<u8>, b: Seq<u8>)
    ensures
        a == b || seg_lt(a, b) || seg_lt(b, a),
        !(seg_lt(a, b) && seg_lt(b, a)),
    decreases a.len(),
{
    if a.len() > 0 && b.len() > 0 && a[0] == b[0] {
        lemma_seg_lt_trichotomy(a.drop_first(), b.drop_first());
        if a.drop_first() == b.drop_first() {
            assert(a =~= seq![a[0]] + a.drop_first());
            assert(b =~= seq![b[0]] + b.drop_first());
        }
    } else if a.len() == 0 && b.len() == 0 {
        assert(a =~= b);
    }
}

pub proof fn lemma_seg_lt_transitive(a: Seq<u8>, b: Seq<u8>, c: Seq<u8>)
    requires
        seg_lt(a, b),
        seg_lt(b, c),
    ensures
        seg_lt(a, c),
    decreases a.len(),
{
    if a.len() > 0 && a[0] == b[0] && b[0] == c[0] {
        lemma_seg_lt_transitive(a.drop_first(), b.drop_first(), c.drop_first());
    }
}

/// Compares two segments in byte-lexicographic order: -1, 0 or 1 as `a`
/// sorts before, equal to, or after `b`.
pub fn compare_segments(a: &[u8], b: &[u8]) -> (r: i8)
    ensures
        r == 0 <==> a@ == b@,
        r < 0 <==> seg_lt(a@, b@),
        r > 0 <==> seg_lt(b@, a@),
{
    proof {
        lemma_seg_lt_trichotomy(a@, b@);
        assert(a@.subrange(0, a@.len() as int) =~= a@);
        assert(b@.subrange(0, b@.len() as int) =~= b@);
    }
    let mut i: usize = 0;
    while i < a.len() && i < b.len()
        invariant
            0 <= i <= a.len(),
            i <= b.len(),
            a@.subrange(0, i as int) == b@.subrange(0, i as int),
            seg_lt(a@, b@) == seg_lt(a@.subrange(i as int, a@.len() as int), b@.subrange(i as int, b@.len() as int)),
            seg_lt(b@, a@) == seg_lt(b@.subrange(i as int, b@.len() as int), a@.subrange(i as int, a@.len() as int)),
        decreases a.len() - i,
    {
        if a[i] != b[i] {
            if a[i] < b[i] {
                return -1;
            } else {
                return 1;
            }
        }
        assert(a@.subrange(i as int, a@.len() as int).drop_first() =~= a@.subrange(i + 1, a@.len() as int));
        assert(b@.subrange(i as int, b@.len() as int).drop_first() =~= b@.subrange(i + 1, b@.len() as int));
        assert(a@.subrange(0, i + 1) =~= a@.subrange(0, i as int).push(a[i as int]));
        assert(b@.subrange(0, i + 1) =~= b@.subrange(0, i as int).push(b[i as int]));
        i = i + 1;
    }
    if a.len() == b.len() {
        assert(a@ =~= a@.subrange(0, i as int));
        assert(b@ =~= b@.subrange(0, i as int));
        0
    } else if a.len() < b.len() {
        -1
    } else {
        1
    }
}

/// The segments of a path, each as a byte sequence.
pub open spec fn segs_view(p: Seq<Vec<u8>>) -> Seq<Seq<u8>> {
    p.map_values(|s: Vec<u8>| s@)
}

/// A fresh copy of a byte string.
pub fn copy_bytes(b: &[u8]) -> (r: Vec<u8>)
    ensures
        r@ == b@,
{
    vstd::slice::slice_to_vec(b)
}

/// A fresh copy of a path given as segments.
pub fn copy_path(p: &[Vec<u8>]) -> (r: Vec<Vec<u8>>)
    ensures
        segs_view(r@) == segs_view(p@),
{
    let mut r: Vec<Vec<u8>> = Vec::new();
    let mut i: usize = 0;
    while i < p.len()
        invariant
            0 <= i <= p.len(),
            r.len() == i,
            forall|k: int| 0 <= k < i ==> (#[trigger] r@[k])@ == p@[k]@,
        decreases p.len() - i,
    {
        let seg = copy_bytes(p[i].as_slice());
        r.push(seg);
        i = i + 1;
    }
    assert(segs_view(r@) =~= segs_view(p@));
    r
}

/// Whether two byte strings are equal.
pub fn bytes_equal(a: &[u8], b: &[u8]) -> (r: bool)
    ensures
        r == (a@ == b@),
{
    if a.len() != b.len() {
        return false;
    }
    let mut i: usize = 0;
    while i < a.len()
        invariant
            a.len() == b.len(),
            0 <= i <= a.len(),
            forall|k: int| 0 <= k < i ==> a@[k] == b@[k],
        decreases a.len() - i,
    {
        if a[i] != b[i] {
            return false;
        }
        i = i + 1;
    }
    assert(a@ =~= b@);
    true
}

} // verus!
