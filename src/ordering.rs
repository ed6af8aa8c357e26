//! Ordering of scored moves, best first.
use vstd::prelude::*;

verus! {

broadcast use {vstd::seq_lib::group_to_multiset_ensures, vstd::multiset::group_multiset_axioms};

/// The first components of the scored items.
pub open spec fn firsts<T>(s: Seq<(T, i32)>) -> Seq<T> {
    s.map_values(|p: (T, i32)| p.0)
}

/// Two lists holding the same scored items hold the same items once the
/// scores are dropped.
pub proof fn lemma_firsts_multiset<T>(a: Seq<(T, i32)>, b: Seq<(T, i32)>)
    requires
        a.to_multiset() == b.to_multiset(),
    ensures
        firsts(a).to_multiset() == firsts(b).to_multiset(),
    decreases a.len(),
{
    if a.len() == 0 {
        assert(b.to_multiset().len() == 0);
        assert(b.len() == 0);
        assert(firsts(a) =~= firsts(b));
    } else {
        let x = a.last();
        let a1 = a.drop_last();
        assert(a == a1.push(x));
        assert(a.to_multiset().count(x) > 0);
        assert(b.contains(x));
        let i = choose|i: int| 0 <= i < b.len() && b[i] == x;
        let b1 = b.remove(i);
        assert(a1.to_multiset() =~= b1.to_multiset()) by {
            assert(a.to_multiset() == a1.to_multiset().insert(x));
            assert(b1.to_multiset() == b.to_multiset().remove(x));
        }
        lemma_firsts_multiset(a1, b1);
        assert(firsts(a) =~= firsts(a1).push(x.0));
        assert(firsts(b1) =~= firsts(b).remove(i));
        assert(firsts(b)[i] == x.0);
        let mb = firsts(b).to_multiset();
        assert(firsts(b1).to_multiset() == mb.remove(x.0));
        assert(mb.count(x.0) > 0) by {
            assert(firsts(b).contains(x.0));
        }
        assert(mb =~= mb.remove(x.0).insert(x.0));
    }
}

/// Scores never increase along `s`.
pub open spec fn sorted_desc<T>(s: Seq<(T, i32)>) -> bool {
    forall|i: int, j: int| 0 <= i < j < s.len() ==> s[i].1 >= s[j].1
}

/// The scored items of `v` by non-increasing score.
pub fn sort_by_score_desc<T: Copy>(v: &Vec<(T, i32)>) -> (r: Vec<(T, i32)>)
    ensures
        r@.len() == v@.len(),
        r@.to_multiset() == v@.to_multiset(),
        sorted_desc(r@),
{
    let mut r: Vec<(T, i32)> = Vec::new();
    let mut i: usize = 0;
    while i < v.len()
        invariant
            i <= v@.len(),
            r@.len() == i,
            r@.to_multiset() == v@.subrange(0, i as int).to_multiset(),
            sorted_desc(r@),
        decreases v@.len() - i,
    {
        let x = v[i];
        let mut p: usize = 0;
        while p < r.len() && r[p].1 >= x.1
            invariant
                p <= r@.len(),
                forall|k: int| 0 <= k < p ==> r@[k].1 >= x.1,
            decreases r@.len() - p,
        {
            p = p + 1;
        }
        let ghost before = r@;
        r.insert(p, x);
        proof {
            assert(v@.subrange(0, i + 1) == v@.subrange(0, i as int).push(x));
            assert forall|a: int, b: int| 0 <= a < b < r@.len() implies r@[a].1 >= r@[b].1 by {
                if b < p {
                } else if b == p {
                } else if a < p {
                    assert(r@[b] == before[b - 1]);
                    if p < before.len() {
                        assert(before[b - 1].1 <= before[p as int].1);
                    }
                } else if a == p {
                    assert(r@[b] == before[b - 1]);
                    assert(before[b - 1].1 <= before[p as int].1);
                } else {
                    assert(r@[a] == before[a - 1]);
                    assert(r@[b] == before[b - 1]);
                }
            }
        }
        i = i + 1;
    }
    assert(v@.subrange(0, v@.len() as int) == v@);
    r
}

/// The items among the first `n` of `ranked` whose score is within `delta`
/// of `best`, in order.
pub open spec fn near_best<T>(ranked: Seq<(T, i32)>, n: int, best: i32, delta: i32) -> Seq<(T, i32)>
    decreases n,
{
    if n <= 0 || ranked.len() == 0 {
        Seq::empty()
    } else if n > ranked.len() {
        near_best(ranked, ranked.len() as int, best, delta)
    } else if best - ranked[n - 1].1 <= delta {
        near_best(ranked, n - 1, best, delta).push(ranked[n - 1])
    } else {
        near_best(ranked, n - 1, best, delta)
    }
}

/// Every item of `near_best` is among the first `n` of `ranked` and scores
/// within `delta` of `best`.
pub proof fn lemma_near_best_contained<T>(ranked: Seq<(T, i32)>, n: int, best: i32, delta: i32)
    ensures
        forall|k: int|
            0 <= k < near_best(ranked, n, best, delta).len() ==> {
                let c = #[trigger] near_best(ranked, n, best, delta)[k];
                &&& best - c.1 <= delta
                &&& exists|j: int| 0 <= j < n && j < ranked.len() && ranked[j] == c
            },
    decreases n,
{
    if n <= 0 || ranked.len() == 0 {
    } else if n > ranked.len() {
        let m = ranked.len() as int;
        lemma_near_best_contained(ranked, m, best, delta);
        assert forall|k: int| 0 <= k < near_best(ranked, n, best, delta).len() implies {
            let c = #[trigger] near_best(ranked, n, best, delta)[k];
            &&& best - c.1 <= delta
            &&& exists|j: int| 0 <= j < n && j < ranked.len() && ranked[j] == c
        } by {
            let c = near_best(ranked, m, best, delta)[k];
            let j = choose|j: int| 0 <= j < m && j < ranked.len() && ranked[j] == c;
            assert(0 <= j < n && j < ranked.len() && ranked[j] == c);
        }
    } else {
        lemma_near_best_contained(ranked, n - 1, best, delta);
        let prev = near_best(ranked, n - 1, best, delta);
        assert forall|k: int| 0 <= k < near_best(ranked, n, best, delta).len() implies {
            let c = #[trigger] near_best(ranked, n, best, delta)[k];
            &&& best - c.1 <= delta
            &&& exists|j: int| 0 <= j < n && j < ranked.len() && ranked[j] == c
        } by {
            if k < prev.len() {
                let c = prev[k];
                assert(near_best(ranked, n, best, delta)[k] == c);
                let j = choose|j: int| 0 <= j < n - 1 && j < ranked.len() && ranked[j] == c;
                assert(0 <= j < n && j < ranked.len() && ranked[j] == c);
            } else {
                assert(near_best(ranked, n, best, delta)[k] == ranked[n - 1]);
            }
        }
    }
}

/// The randomized pick among near-best items: when more than one of the
/// first `top_n` items of `ranked` scores within `score_delta` of
/// `best_score`, the one at `entropy` modulo their number; otherwise none.
pub fn pick_near_best<T: Copy>(
    ranked: &Vec<(T, i32)>,
    top_n: u32,
    best_score: i32,
    score_delta: i32,
    entropy: u64,
) -> (r: Option<(T, i32)>)
    requires
        -100_000_000 <= best_score <= 100_000_000,
        forall|i: int| 0 <= i < ranked@.len() ==> -100_000_000 <= #[trigger] ranked@[i].1 <= 100_000_000,
    ensures
        ({
            let near = near_best(ranked@, top_n as int, best_score, score_delta);
            r == if near.len() > 1 {
                Some(near[(entropy as int) % (near.len() as int)])
            } else {
                None::<(T, i32)>
            }
        }),
{
    let mut candidates: Vec<(T, i32)> = Vec::new();
    let limit: usize = if (top_n as usize) < ranked.len() {
        top_n as usize
    } else {
        ranked.len()
    };
    let mut i: usize = 0;
    while i < limit
        invariant
            i <= limit,
            limit <= ranked@.len(),
            limit == top_n || limit == ranked@.len(),
            limit <= top_n,
            -100_000_000 <= best_score <= 100_000_000,
            forall|k: int| 0 <= k < ranked@.len() ==> -100_000_000 <= #[trigger] ranked@[k].1 <= 100_000_000,
            candidates@ == near_best(ranked@, i as int, best_score, score_delta),
        decreases limit - i,
    {
        let c = ranked[i];
        if best_score - c.1 <= score_delta {
            candidates.push(c);
        }
        i = i + 1;
    }
    assert(candidates@ == near_best(ranked@, top_n as int, best_score, score_delta)) by {
        if limit < top_n {
            assert(near_best(ranked@, top_n as int, best_score, score_delta) == near_best(
                ranked@,
                ranked@.len() as int,
                best_score,
                score_delta,
            ));
        }
    }
    if candidates.len() > 1 {
        let idx = (entropy % (candidates.len() as u64)) as usize;
        Some(candidates[idx])
    } else {
        None
    }
}

} // verus!
