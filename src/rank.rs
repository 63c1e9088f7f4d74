use vstd::prelude::*;

use crate::color::{clone_name, RawColor};

verus! {

/// A candidate with its score for one input color.
#[derive(Debug)]
pub struct ScoredCandidate {
    /// The candidate's name, if it has one.
    pub name: Option<String>,
    /// The candidate's token as it was given.
    pub display: String,
    /// The score as an order-preserving key: a smaller key is a closer color.
    pub key: u32,
}

/// Candidate `a` comes before candidate `b`: a smaller key, or an equal key and
/// an earlier position.
pub open spec fn before(keys: Seq<u32>, a: int, b: int) -> bool {
    keys[a] < keys[b] || (keys[a] == keys[b] && a < b)
}

/// `r` lists the positions of the `n` candidates with the smallest keys,
/// smallest first, equal keys in the order given.
pub open spec fn is_top(keys: Seq<u32>, n: int, r: Seq<usize>) -> bool {
    &&& r.len() == n
    &&& forall|i: int| 0 <= i < n ==> #[trigger] r[i] < keys.len()
    &&& forall|i: int, j: int| 0 <= i < j < n ==> before(keys, #[trigger] r[i] as int, #[trigger] r[j] as int)
    &&& forall|i: int, k: int|
        #![trigger r[i], r.contains(k as usize)]
        0 <= i < n && 0 <= k < keys.len() && !r.contains(k as usize) ==> before(keys, r[i] as int, k)
}

/// Positions of the `n` candidates with the smallest keys, most similar first.
/// Equal keys keep the order in which the candidates were given.
pub fn closest(keys: &Vec<u32>, n: usize) -> (r: Vec<usize>)
    requires
        n <= keys.len(),
    ensures
        is_top(keys@, n as int, r@),
        n == keys.len() ==> forall|k: int| 0 <= k < keys.len() ==> #[trigger] r@.contains(k as usize),
{
    // Insertion sort of all positions, then the first n.
    let mut order: Vec<usize> = Vec::new();
    let mut i: usize = 0;
    while i < keys.len()
        invariant
            i <= keys.len(),
            order@.len() == i,
            forall|q: int| 0 <= q < i ==> #[trigger] order@[q] < i,
            forall|k: int| 0 <= k < i ==> #[trigger] order@.contains(k as usize),
            forall|p: int, q: int|
                0 <= p < q < i ==> before(keys@, #[trigger] order@[p] as int, #[trigger] order@[q] as int),
        decreases keys.len() - i,
    {
        let mut p: usize = 0;
        while p < order.len() && keys[order[p]] <= keys[i]
            invariant
                p <= order@.len(),
                order@.len() == i,
                i < keys.len(),
                forall|q: int| 0 <= q < i ==> #[trigger] order@[q] < i,
                forall|q: int| 0 <= q < p ==> keys@[#[trigger] order@[q] as int] <= keys@[i as int],
            decreases order@.len() - p,
        {
            p = p + 1;
        }
        proof {
            assert forall|q: int| p <= q < i implies keys@[i as int] < keys@[#[trigger] order@[q] as int] by {
                if q > p {
                    assert(before(keys@, order@[p as int] as int, order@[q] as int));
                }
            }
        }
        let ghost old_order = order@;
        order.insert(p, i);
        proof {
            assert(order@ == old_order.insert(p as int, i));
            assert forall|k: int| 0 <= k < i + 1 implies #[trigger] order@.contains(k as usize) by {
                if k == i {
                    assert(order@[p as int] == i);
                } else {
                    assert(old_order.contains(k as usize));
                    let q = choose|q: int| 0 <= q < old_order.len() && old_order[q] == k as usize;
                    if q < p {
                        assert(order@[q] == k as usize);
                    } else {
                        assert(order@[q + 1] == k as usize);
                    }
                }
            }
            assert forall|a: int, b: int| 0 <= a < b < i + 1 implies before(
                keys@,
                #[trigger] order@[a] as int,
                #[trigger] order@[b] as int,
            ) by {
                if b < p {
                    assert(before(keys@, old_order[a] as int, old_order[b] as int));
                } else if b == p {
                    assert(keys@[old_order[a] as int] <= keys@[i as int]);
                } else if a > p {
                    assert(before(keys@, old_order[a - 1] as int, old_order[b - 1] as int));
                } else if a == p {
                    assert(keys@[i as int] < keys@[old_order[b - 1] as int]);
                } else {
                    assert(before(keys@, old_order[a] as int, old_order[b - 1] as int));
                }
            }
        }
        i = i + 1;
    }
    let ghost full = order@;
    order.truncate(n);
    proof {
        assert(order@ == full.subrange(0, n as int));
        if n == keys.len() {
            assert(order@ =~= full);
        }
        assert forall|a: int, k: int|
            #![trigger order@[a], order@.contains(k as usize)]
            0 <= a < n && 0 <= k < keys.len() && !order@.contains(k as usize) implies before(
            keys@,
            order@[a] as int,
            k,
        ) by {
            assert(full.contains(k as usize));
            let q = choose|q: int| 0 <= q < full.len() && full[q] == k as usize;
            if q < n {
                assert(order@[q] == k as usize);
            } else {
                assert(before(keys@, full[a] as int, full[q] as int));
            }
        }
    }
    order
}

/// `r` holds, in order, the candidates at the positions `top`, with their keys.
pub open spec fn lists(
    candidates: Seq<(Option<String>, RawColor)>,
    keys: Seq<u32>,
    top: Seq<usize>,
    r: Seq<ScoredCandidate>,
) -> bool {
    &&& r.len() == top.len()
    &&& forall|i: int|
        0 <= i < r.len() ==> (#[trigger] r[i]).name == candidates[top[i] as int].0 && r[i].display@
            == candidates[top[i] as int].1.raw_text() && r[i].key == keys[top[i] as int]
}

/// The `n` candidates with the smallest keys, closest first; candidates with
/// equal keys keep their order. `keys[i]` is the score of `candidates[i]`.
pub fn rank(candidates: &Vec<(Option<String>, RawColor)>, keys: &Vec<u32>, n: usize) -> (r: Vec<
    ScoredCandidate,
>)
    requires
        keys.len() == candidates.len(),
        n <= keys.len(),
    ensures
        exists|top: Seq<usize>|
            {
                &&& is_top(keys@, n as int, top)
                &&& lists(candidates@, keys@, top, r@)
                &&& n == keys.len() ==> forall|k: int| 0 <= k < keys.len() ==> #[trigger] top.contains(k as usize)
            },
{
    let top = closest(keys, n);
    let mut r: Vec<ScoredCandidate> = Vec::with_capacity(n);
    let mut i: usize = 0;
    while i < top.len()
        invariant
            i <= top@.len(),
            is_top(keys@, n as int, top@),
            keys@.len() == candidates@.len(),
            lists(candidates@, keys@, top@.subrange(0, i as int), r@),
        decreases top@.len() - i,
    {
        let k = top[i];
        assert(k < keys@.len());
        let entry = ScoredCandidate {
            name: clone_name(&candidates[k].0),
            display: candidates[k].1.get_raw_color(),
            key: keys[k],
        };
        let ghost before = r@;
        r.push(entry);
        i = i + 1;
        proof {
            assert forall|j: int| 0 <= j < r@.len() implies (#[trigger] r@[j]).name
                == candidates@[top@.subrange(0, i as int)[j] as int].0 && r@[j].display@
                == candidates@[top@.subrange(0, i as int)[j] as int].1.raw_text() && r@[j].key
                == keys@[top@.subrange(0, i as int)[j] as int] by {
                if j < i - 1 {
                    assert(r@[j] == before[j]);
                    assert(top@.subrange(0, i as int)[j] == top@.subrange(0, i - 1)[j]);
                }
            }
        }
    }
    proof {
        assert(top@.subrange(0, top@.len() as int) == top@);
        assert(n == keys.len() ==> forall|k: int| 0 <= k < keys.len() ==> #[trigger] top@.contains(k as usize));
    }
    r
}

/// Ranking is deterministic: for the same keys and the same `n` exactly one
/// list of positions is the top `n`, so ranking the same candidates twice, in
/// the same order, gives the same result.
pub proof fn lemma_top_unique(keys: Seq<u32>, n: int, r1: Seq<usize>, r2: Seq<usize>)
    requires
        is_top(keys, n, r1),
        is_top(keys, n, r2),
    ensures
        r1 == r2,
{
    lemma_top_prefix(keys, n, r1, r2, n);
    assert(r1 =~= r2);
}

proof fn lemma_top_prefix(keys: Seq<u32>, n: int, r1: Seq<usize>, r2: Seq<usize>, m: int)
    requires
        is_top(keys, n, r1),
        is_top(keys, n, r2),
        0 <= m <= n,
    ensures
        forall|j: int| 0 <= j < m ==> r1[j] == r2[j],
    decreases m,
{
    if m > 0 {
        lemma_top_prefix(keys, n, r1, r2, m - 1);
        let i = m - 1;
        if r1[i] != r2[i] {
            lemma_top_no_earlier(keys, n, r1, r2, i);
            lemma_top_no_earlier(keys, n, r2, r1, i);
        }
    }
}

/// Where two top lists agree before position `i`, neither can hold at `i` a
/// candidate that comes before the other's.
proof fn lemma_top_no_earlier(keys: Seq<u32>, n: int, r1: Seq<usize>, r2: Seq<usize>, i: int)
    requires
        is_top(keys, n, r1),
        is_top(keys, n, r2),
        0 <= i < n,
        forall|j: int| 0 <= j < i ==> r1[j] == r2[j],
    ensures
        !before(keys, r1[i] as int, r2[i] as int),
{
    let a = r1[i];
    if !before(keys, r1[i] as int, r2[i] as int) {
    } else if r2.contains(a) {
        let j = choose|j: int| 0 <= j < r2.len() && r2[j] == a;
        if j < i {
            assert(r1[j] == a);
            assert(before(keys, r1[j] as int, r1[i] as int));
        } else {
            assert(before(keys, r2[i] as int, r2[j] as int));
        }
    } else {
        assert(r1[i] < keys.len());
        assert(!r2.contains((a as int) as usize));
        assert(before(keys, r2[i] as int, a as int));
    }
}

} // verus!
