use vstd::prelude::*;

verus! {

/// `m` is the least key among the hits of `hits`: some surface was hit
/// at `m`, and none was hit nearer.
///
/// A hit's key orders hits by their ray parameter; `None` stands for a
/// surface the ray missed.
pub open spec fn is_least_key(hits: Seq<Option<u64>>, m: u64) -> bool {
    &&& hits.contains(Some(m))
    &&& forall|j: int| 0 <= j < hits.len() && hits[j] is Some ==> m <= hits[j]->0
}

/// No surface was hit.
pub open spec fn all_missed(hits: Seq<Option<u64>>) -> bool {
    forall|j: int| 0 <= j < hits.len() ==> hits[j] is None
}

/// `k` is the first surface, in list order, among those hit at the least key.
pub open spec fn is_first_nearest(hits: Seq<Option<u64>>, k: int) -> bool {
    &&& 0 <= k < hits.len()
    &&& hits[k] is Some
    &&& is_least_key(hits, hits[k]->0)
    &&& forall|j: int| 0 <= j < k && hits[j] is Some ==> hits[k]->0 < hits[j]->0
}

/// Picks the nearest hit of a scene: the index of the surface hit at the
/// least key, the first such surface where several tie, or `None` when
/// every surface was missed.
pub fn nearest(hits: &Vec<Option<u64>>) -> (r: Option<usize>)
    ensures
        r is None <==> all_missed(hits@),
        r matches Some(k) ==> is_first_nearest(hits@, k as int),
{
    let mut best: Option<usize> = None;
    let mut best_key: u64 = 0;
    for i in 0..hits.len()
        invariant
            best is None ==> forall|j: int| 0 <= j < i ==> hits@[j] is None,
            best matches Some(k) ==> {
                &&& k < i
                &&& hits@[k as int] == Some(best_key)
                &&& forall|j: int| 0 <= j < i && hits@[j] is Some ==> best_key <= hits@[j]->0
                &&& forall|j: int| 0 <= j < k && hits@[j] is Some ==> best_key < hits@[j]->0
            },
    {
        if let Some(t) = hits[i] {
            if best.is_none() || t < best_key {
                best = Some(i);
                best_key = t;
            }
        }
    }
    if let Some(k) = best {
        assert(hits@.contains(Some(best_key))) by {
            assert(hits@[k as int] == Some(best_key));
        }
    }
    best
}

/// `t` lies strictly between `lo` and `hi`.
pub open spec fn strictly_within(t: u64, lo: u64, hi: u64) -> bool {
    lo < t && t < hi
}

/// Picks, among candidate ray parameters taken in the order given, the first
/// that lies strictly inside `(lo, hi)`, or `None` when none does.
pub fn first_within(ts: &Vec<u64>, lo: u64, hi: u64) -> (r: Option<usize>)
    ensures
        r is None <==> forall|j: int| 0 <= j < ts@.len() ==> !strictly_within(ts@[j], lo, hi),
        r matches Some(k) ==> {
            &&& k < ts@.len()
            &&& strictly_within(ts@[k as int], lo, hi)
            &&& forall|j: int| 0 <= j < k ==> !strictly_within(ts@[j], lo, hi)
        },
{
    for i in 0..ts.len()
        invariant
            forall|j: int| 0 <= j < i ==> !strictly_within(ts@[j], lo, hi),
    {
        if lo < ts[i] && ts[i] < hi {
            return Some(i);
        }
    }
    None
}

/// Where the candidates come in ascending order, the first one inside the
/// range is the least one inside it: a sphere reports its nearer crossing.
pub proof fn lemma_first_within_is_least(ts: Seq<u64>, lo: u64, hi: u64, k: int)
    requires
        forall|i: int, j: int| 0 <= i < j < ts.len() ==> ts[i] <= ts[j],
        0 <= k < ts.len(),
        strictly_within(ts[k], lo, hi),
        forall|j: int| 0 <= j < k ==> !strictly_within(ts[j], lo, hi),
    ensures
        forall|j: int| 0 <= j < ts.len() && strictly_within(ts[j], lo, hi) ==> ts[k] <= ts[j],
{
}

/// The least key of a scene's hits does not depend on the order in which
/// its surfaces are listed: any reordering of the hits has the same one.
pub proof fn lemma_least_key_order_free(a: Seq<Option<u64>>, b: Seq<Option<u64>>, m: u64)
    requires
        a.to_multiset() =~= b.to_multiset(),
        is_least_key(a, m),
    ensures
        is_least_key(b, m),
{
    broadcast use vstd::seq_lib::to_multiset_contains;

    assert(a.to_multiset().count(Some(m)) > 0);
    assert forall|j: int| 0 <= j < b.len() && b[j] is Some implies m <= b[j]->0 by {
        assert(b.contains(b[j]));
        assert(b.to_multiset().count(b[j]) > 0);
        assert(a.contains(b[j]));
        let i = choose|i: int| 0 <= i < a.len() && a[i] == b[j];
        assert(a[i] is Some);
    }
}

/// A scene has at most one least key.
pub proof fn lemma_least_key_unique(hits: Seq<Option<u64>>, m1: u64, m2: u64)
    requires
        is_least_key(hits, m1),
        is_least_key(hits, m2),
    ensures
        m1 == m2,
{
    let i1 = choose|i: int| 0 <= i < hits.len() && hits[i] == Some(m1);
    let i2 = choose|i: int| 0 <= i < hits.len() && hits[i] == Some(m2);
    assert(m2 <= hits[i1]->0);
    assert(m1 <= hits[i2]->0);
}

} // verus!
