use vstd::prelude::*;
use crate::graph::ids;
use crate::ident::{
    id_before, id_less, lemma_id_less_asymmetric, lemma_id_less_irreflexive,
    lemma_id_less_total, lemma_id_less_transitive,
};

verus! {

/// Entry `i` ranks before entry `j`: a larger score first; between equal
/// scores, the name that comes first in lexicographic order; between equal
/// names too, the earlier entry.
pub open spec fn ranks_before(scores: Seq<u128>, names: Seq<Seq<char>>, i: int, j: int) -> bool {
    scores[i] > scores[j] || (scores[i] == scores[j] && (id_less(names[i], names[j]) || (names[i]
        == names[j] && i < j)))
}

proof fn lemma_ranks_transitive(scores: Seq<u128>, names: Seq<Seq<char>>, i: int, j: int, k: int)
    requires
        ranks_before(scores, names, i, j),
        ranks_before(scores, names, j, k),
    ensures
        ranks_before(scores, names, i, k),
{
    if scores[i] == scores[j] && scores[j] == scores[k] {
        if id_less(names[i], names[j]) && id_less(names[j], names[k]) {
            lemma_id_less_transitive(names[i], names[j], names[k]);
        }
    }
}

proof fn lemma_ranks_asymmetric(scores: Seq<u128>, names: Seq<Seq<char>>, i: int, j: int)
    ensures
        !(ranks_before(scores, names, i, j) && ranks_before(scores, names, j, i)),
{
    lemma_id_less_asymmetric(names[i], names[j]);
    lemma_id_less_irreflexive(names[i]);
}

proof fn lemma_ranks_total(scores: Seq<u128>, names: Seq<Seq<char>>, i: int, j: int)
    requires
        i != j,
    ensures
        ranks_before(scores, names, i, j) || ranks_before(scores, names, j, i),
{
    if names[i] != names[j] {
        lemma_id_less_total(names[i], names[j]);
    }
}

/// `idx` is the list of the `n` best entries of `scores` (all of them when
/// there are fewer), best first.
pub open spec fn is_top(scores: Seq<u128>, names: Seq<Seq<char>>, n: nat, idx: Seq<int>) -> bool {
    &&& idx.len() == if n < scores.len() {
        n
    } else {
        scores.len()
    }
    &&& forall|t: int| 0 <= t < idx.len() ==> 0 <= #[trigger] idx[t] < scores.len()
    &&& forall|s: int, t: int|
        0 <= s < t < idx.len() ==> ranks_before(scores, names, #[trigger] idx[s], #[trigger] idx[t])
    &&& forall|i: int, t: int|
        0 <= i < scores.len() && !idx.contains(i) && 0 <= t < idx.len() ==> #[trigger] ranks_before(
            scores,
            names,
            idx[t],
            i,
        )
}

/// The indices as integers.
pub open spec fn as_ints(v: Seq<usize>) -> Seq<int> {
    v.map_values(|i: usize| i as int)
}

/// The indices of the `n` best entries of `scores`, best first: larger
/// scores first, equal scores by name in lexicographic order.
pub fn top_indices(scores: &Vec<u128>, names: &Vec<String>, n: usize) -> (r: Vec<usize>)
    requires
        names@.len() == scores@.len(),
    ensures
        is_top(scores@, ids(names@), n as nat, as_ints(r@)),
{
    let ghost nm = ids(names@);
    let len = scores.len();
    let rounds = if n < len {
        n
    } else {
        len
    };
    let mut rem: Vec<usize> = Vec::new();
    let mut i: usize = 0;
    while i < len
        invariant
            i <= len == scores@.len(),
            rem@.len() == i,
            forall|q: int| 0 <= q < i ==> rem@[q] == q,
        decreases len - i,
    {
        rem.push(i);
        i = i + 1;
    }
    let mut r: Vec<usize> = Vec::new();
    proof {
        assert forall|x: int| 0 <= x < len implies (rem@.contains(x as usize) <==> !as_ints(r@).contains(x)) by {
            assert(rem@[x] == x);
        }
    }
    while r.len() < rounds
        invariant
            len == scores@.len(),
            rounds <= len,
            rounds == n || rounds == len,
            rounds <= n,
            r@.len() <= rounds,
            rem@.len() + r@.len() == len,
            rem@.no_duplicates(),
            forall|q: int| 0 <= q < rem@.len() ==> rem@[q] < len,
            forall|x: int| 0 <= x < len ==> (rem@.contains(x as usize) <==> !as_ints(r@).contains(x)),
            forall|t: int| 0 <= t < r@.len() ==> r@[t] < len,
            forall|s: int, t: int|
                0 <= s < t < r@.len() ==> ranks_before(scores@, nm, r@[s] as int, r@[t] as int),
            forall|q: int, t: int|
                0 <= q < rem@.len() && 0 <= t < r@.len() ==> ranks_before(
                    scores@,
                    nm,
                    r@[t] as int,
                    rem@[q] as int,
                ),
            nm == ids(names@),
            names@.len() == len,
        decreases rounds - r@.len(),
    {
        let mut p: usize = 0;
        let mut q: usize = 1;
        while q < rem.len()
            invariant
                0 <= p < q <= rem@.len(),
                rem@.no_duplicates(),
                nm == ids(names@),
                names@.len() == len,
                forall|q2: int| 0 <= q2 < rem@.len() ==> rem@[q2] < len,
                len == scores@.len(),
                forall|q2: int|
                    0 <= q2 < q && q2 != p ==> ranks_before(
                        scores@,
                        nm,
                        rem@[p as int] as int,
                        rem@[q2] as int,
                    ),
            decreases rem@.len() - q,
        {
            let a = scores[rem[q]];
            let b = scores[rem[p]];
            let ghost old_p = p;
            proof {
                assert(rem@[q as int] != rem@[p as int]);
            }
            let better = a > b || (a == b && (id_before(&names[rem[q]], &names[rem[p]]) || (
            names[rem[q]] == names[rem[p]] && rem[q] < rem[p])));
            assert(better == ranks_before(scores@, nm, rem@[q as int] as int, rem@[p as int] as int));
            if better {
                p = q;
                proof {
                    assert forall|q2: int| 0 <= q2 < q + 1 && q2 != p implies ranks_before(
                        scores@,
                        nm,
                        rem@[p as int] as int,
                        rem@[q2] as int,
                    ) by {
                        if q2 != old_p {
                            lemma_ranks_transitive(
                                scores@,
                                nm,
                                rem@[q as int] as int,
                                rem@[old_p as int] as int,
                                rem@[q2] as int,
                            );
                        }
                    }
                }
            } else {
                proof {
                    lemma_ranks_total(scores@, nm, rem@[q as int] as int, rem@[p as int] as int);
                }
            }
            q = q + 1;
        }
        let ghost old_rem = rem@;
        let ghost old_r = r@;
        let best = rem.remove(p);
        r.push(best);
        proof {
            assert(as_ints(r@) =~= as_ints(old_r).push(best as int));
            assert forall|q2: int| 0 <= q2 < rem@.len() implies rem@[q2] == old_rem[if q2 < p {
                q2
            } else {
                q2 + 1
            }] by {}
            assert forall|x: int| 0 <= x < len implies (rem@.contains(x as usize) <==> !as_ints(
                r@,
            ).contains(x)) by {
                if x == best as int {
                    assert(as_ints(r@)[old_r.len() as int] == x);
                    if rem@.contains(x as usize) {
                        let q2 = choose|q2: int| 0 <= q2 < rem@.len() && rem@[q2] == x as usize;
                        if q2 < p {
                            assert(old_rem[q2] == old_rem[p as int]);
                        } else {
                            assert(old_rem[q2 + 1] == old_rem[p as int]);
                        }
                    }
                } else {
                    if rem@.contains(x as usize) {
                        let q2 = choose|q2: int| 0 <= q2 < rem@.len() && rem@[q2] == x as usize;
                        let q3 = if q2 < p {
                            q2
                        } else {
                            q2 + 1
                        };
                        assert(old_rem[q3] == x as usize);
                        assert(old_rem.contains(x as usize));
                        assert(!as_ints(old_r).contains(x));
                    }
                    if old_rem.contains(x as usize) {
                        let q3 = choose|q3: int| 0 <= q3 < old_rem.len() && old_rem[q3] == x as usize;
                        assert(q3 != p);
                        let q2 = if q3 < p {
                            q3
                        } else {
                            q3 - 1
                        };
                        assert(rem@[q2] == x as usize);
                    }
                    if as_ints(r@).contains(x) {
                        let t = choose|t: int| 0 <= t < as_ints(r@).len() && as_ints(r@)[t] == x;
                        assert(as_ints(old_r)[t] == x);
                    }
                    if as_ints(old_r).contains(x) {
                        let t = choose|t: int| 0 <= t < as_ints(old_r).len() && as_ints(old_r)[t] == x;
                        assert(as_ints(r@)[t] == x);
                    }
                }
            }
        }
    }
    proof {
        let idx = as_ints(r@);
        assert forall|i2: int, t: int|
            0 <= i2 < scores@.len() && !idx.contains(i2) && 0 <= t < idx.len() implies #[trigger] ranks_before(
            scores@,
            nm,
            idx[t],
            i2,
        ) by {
            assert(rem@.contains(i2 as usize));
            let q2 = choose|q2: int| 0 <= q2 < rem@.len() && rem@[q2] == i2 as usize;
        }
    }
    r
}


/// The best-`n` list is unique: two lists that both meet `is_top` for the
/// same scores are equal, so a ranking never depends on anything but its
/// input.
pub proof fn lemma_top_unique(scores: Seq<u128>, names: Seq<Seq<char>>, n: nat, a: Seq<int>, b: Seq<int>)
    requires
        is_top(scores, names, n, a),
        is_top(scores, names, n, b),
    ensures
        a == b,
{
    if a != b {
        assert(a.len() == b.len());
        if forall|t: int| 0 <= t < a.len() ==> a[t] == b[t] {
            assert(a =~= b);
        }
        let t0 = choose|t: int| 0 <= t < a.len() && a[t] != b[t];
        lemma_first_difference(a, b, t0);
        let t = choose|t: int|
            0 <= t < a.len() && a[t] != b[t] && forall|s: int| 0 <= s < t ==> a[s] == b[s];
        lemma_top_step(scores, names, n, a, b, t);
        lemma_top_step(scores, names, n, b, a, t);
        lemma_ranks_total(scores, names, a[t], b[t]);
    }
}

proof fn lemma_first_difference(a: Seq<int>, b: Seq<int>, t0: int)
    requires
        a.len() == b.len(),
        0 <= t0 < a.len(),
        a[t0] != b[t0],
    ensures
        exists|t: int| 0 <= t < a.len() && a[t] != b[t] && forall|s: int| 0 <= s < t ==> a[s] == b[s],
    decreases t0,
{
    if exists|s: int| 0 <= s < t0 && a[s] != b[s] {
        let s = choose|s: int| 0 <= s < t0 && a[s] != b[s];
        lemma_first_difference(a, b, s);
    } else {
        assert(forall|s: int| 0 <= s < t0 ==> a[s] == b[s]);
    }
}

/// At the first position where two best-`n` lists differ, the entry of
/// the first does not rank before the entry of the second.
proof fn lemma_top_step(scores: Seq<u128>, names: Seq<Seq<char>>, n: nat, a: Seq<int>, b: Seq<int>, t: int)
    requires
        is_top(scores, names, n, a),
        is_top(scores, names, n, b),
        0 <= t < a.len(),
        a[t] != b[t],
        forall|s: int| 0 <= s < t ==> a[s] == b[s],
    ensures
        !ranks_before(scores, names, a[t], b[t]),
{
    if ranks_before(scores, names, a[t], b[t]) {
        let x = a[t];
        assert(0 <= x < scores.len());
        assert(0 <= b[t] < scores.len());
        if b.contains(x) {
            let t2 = choose|t2: int| 0 <= t2 < b.len() && b[t2] == x;
            if t2 < t {
                assert(a[t2] == x);
                assert(ranks_before(scores, names, a[t2], a[t]));
                lemma_ranks_asymmetric(scores, names, x, x);
            } else {
                assert(ranks_before(scores, names, b[t], b[t2]));
                lemma_ranks_asymmetric(scores, names, x, b[t]);
            }
        } else {
            assert(ranks_before(scores, names, b[t], x));
            lemma_ranks_asymmetric(scores, names, x, b[t]);
        }
    }
}

} // verus!
