use vstd::prelude::*;
use crate::graph::{ids, total_edges, Graph};
use crate::ranking::{as_ints, is_top, top_indices};

verus! {

/// How many times `b` occurs in `s`.
pub open spec fn count_in(s: Seq<Seq<char>>, b: Seq<char>) -> nat
    decreases s.len(),
{
    if s.len() == 0 {
        0
    } else {
        count_in(s.drop_last(), b) + if s.last() == b {
            1nat
        } else {
            0nat
        }
    }
}

/// All reviewed businesses of an edge table, list after list.
pub open spec fn all_reviewed(edges: Seq<(String, Vec<String>)>) -> Seq<Seq<char>>
    decreases edges.len(),
{
    if edges.len() == 0 {
        seq![]
    } else {
        all_reviewed(edges.drop_last()) + ids(edges.last().1@)
    }
}

/// The identifiers of a count table, in order.
pub open spec fn count_keys(c: Seq<(String, usize)>) -> Seq<Seq<char>> {
    c.map_values(|e: (String, usize)| e.0@)
}

/// The sum of the counts of a count table.
pub open spec fn count_sum(c: Seq<(String, usize)>) -> nat
    decreases c.len(),
{
    if c.len() == 0 {
        0
    } else {
        count_sum(c.drop_last()) + c.last().1 as nat
    }
}

proof fn lemma_all_reviewed_len(edges: Seq<(String, Vec<String>)>)
    ensures
        all_reviewed(edges).len() == total_edges(edges),
    decreases edges.len(),
{
    if edges.len() > 0 {
        lemma_all_reviewed_len(edges.drop_last());
    }
}

proof fn lemma_total_edges_prefix(edges: Seq<(String, Vec<String>)>, k: int)
    requires
        0 <= k <= edges.len(),
    ensures
        total_edges(edges.take(k)) <= total_edges(edges),
    decreases edges.len(),
{
    if k < edges.len() {
        assert(edges.drop_last().take(k) =~= edges.take(k));
        lemma_total_edges_prefix(edges.drop_last(), k);
    } else {
        assert(edges.take(k) =~= edges);
    }
}

proof fn lemma_count_sum_update(c: Seq<(String, usize)>, m: int, e: (String, usize))
    requires
        0 <= m < c.len(),
        e.1 == c[m].1 + 1,
    ensures
        count_sum(c.update(m, e)) == count_sum(c) + 1,
    decreases c.len(),
{
    let n = c.update(m, e);
    if m < c.len() - 1 {
        assert(n.drop_last() =~= c.drop_last().update(m, e));
        lemma_count_sum_update(c.drop_last(), m, e);
    } else {
        assert(n.drop_last() =~= c.drop_last());
    }
}

proof fn lemma_count_in_le(s: Seq<Seq<char>>, b: Seq<char>)
    ensures
        count_in(s, b) <= s.len(),
    decreases s.len(),
{
    if s.len() > 0 {
        lemma_count_in_le(s.drop_last(), b);
    }
}

/// The number of reviews that each user wrote: one entry per edge-table
/// entry, in the same order.
pub fn top_reviewers(graph: &Vec<(String, Vec<String>)>) -> (r: Vec<(String, usize)>)
    ensures
        r@.len() == graph@.len(),
        forall|k: int|
            0 <= k < r@.len() ==> (#[trigger] r@[k]).0@ == graph@[k].0@ && r@[k].1
                == graph@[k].1@.len(),
{
    let mut count: Vec<(String, usize)> = Vec::new();
    let mut k: usize = 0;
    while k < graph.len()
        invariant
            k <= graph@.len(),
            count@.len() == k,
            forall|t: int|
                0 <= t < k ==> (#[trigger] count@[t]).0@ == graph@[t].0@ && count@[t].1
                    == graph@[t].1@.len(),
        decreases graph@.len() - k,
    {
        count.push((graph[k].0.clone(), graph[k].1.len()));
        k = k + 1;
    }
    count
}

/// The number of reviews that each business received, over all the edge
/// lists. Each reviewed business appears once, in order of first review,
/// and the counts add up to the number of edges.
pub fn top_restaurants(graph: &Graph) -> (r: Vec<(String, usize)>)
    requires
        total_edges(graph.edges@) <= usize::MAX,
    ensures
        count_keys(r@).no_duplicates(),
        forall|b: Seq<char>| count_keys(r@).contains(b) <==> all_reviewed(graph.edges@).contains(b),
        forall|t: int|
            0 <= t < r@.len() ==> (#[trigger] r@[t]).1 == count_in(
                all_reviewed(graph.edges@),
                r@[t].0@,
            ),
        count_sum(r@) == total_edges(graph.edges@),
{
    let edges = &graph.edges;
    let mut count: Vec<(String, usize)> = Vec::new();
    let mut k: usize = 0;
    proof {
        assert(count_keys(count@) =~= Seq::<Seq<char>>::empty());
        assert(edges@.take(0) =~= Seq::<(String, Vec<String>)>::empty());
        lemma_all_reviewed_len(edges@);
    }
    while k < edges.len()
        invariant
            k <= edges@.len(),
            edges == &graph.edges,
            total_edges(edges@) <= usize::MAX,
            all_reviewed(edges@).len() == total_edges(edges@),
            count_keys(count@).no_duplicates(),
            forall|b: Seq<char>|
                count_keys(count@).contains(b) <==> all_reviewed(edges@.take(k as int)).contains(b),
            forall|t: int|
                0 <= t < count@.len() ==> (#[trigger] count@[t]).1 == count_in(
                    all_reviewed(edges@.take(k as int)),
                    count@[t].0@,
                ),
            count_sum(count@) == all_reviewed(edges@.take(k as int)).len(),
        decreases edges@.len() - k,
    {
        let list = &edges[k].1;
        let ghost done = all_reviewed(edges@.take(k as int));
        proof {
            assert(edges@.take(k + 1).drop_last() =~= edges@.take(k as int));
            lemma_all_reviewed_len(edges@.take(k + 1));
            lemma_total_edges_prefix(edges@, k + 1);
        }
        let mut j: usize = 0;
        assert(done + ids(list@).take(0) =~= done);
        while j < list.len()
            invariant
                k < edges@.len(),
                j <= list@.len(),
                list == &edges@[k as int].1,
                done == all_reviewed(edges@.take(k as int)),
                all_reviewed(edges@.take(k + 1)) == done + ids(list@),
                all_reviewed(edges@.take(k + 1)).len() <= usize::MAX,
                count_keys(count@).no_duplicates(),
                forall|b: Seq<char>|
                    count_keys(count@).contains(b) <==> (done + ids(list@).take(j as int)).contains(b),
                forall|t: int|
                    0 <= t < count@.len() ==> (#[trigger] count@[t]).1 == count_in(
                        done + ids(list@).take(j as int),
                        count@[t].0@,
                    ),
                count_sum(count@) == (done + ids(list@).take(j as int)).len(),
            decreases list@.len() - j,
        {
            let b = &list[j];
            let ghost seen = done + ids(list@).take(j as int);
            let ghost now = done + ids(list@).take(j + 1);
            let ghost old_count = count@;
            assert(now =~= seen.push(b@));
            assert(now.len() <= (done + ids(list@)).len());
            let pos = find_count(&count, b);
            let found = pos.is_some();
            let m: usize = match pos {
                Some(m) => m,
                None => 0,
            };
            if found {
                proof {
                    assert(count@[m as int].1 == count_in(seen, count@[m as int].0@));
                    lemma_count_in_le(seen, b@);
                }
                let c = count[m].1;
                count.set(m, (b.clone(), c + 1));
                proof {
                    lemma_count_sum_update(old_count, m as int, count@[m as int]);
                    assert(count@ =~= old_count.update(m as int, count@[m as int]));
                    assert(count_keys(count@) =~= count_keys(old_count));
                }
            } else {
                proof {
                    assert(!seen.contains(b@));
                    assert(count_in(seen, b@) == 0) by {
                        lemma_count_in_absent(seen, b@);
                    }
                }
                count.push((b.clone(), 1));
                proof {
                    assert(count_keys(count@) =~= count_keys(old_count).push(b@));
                    assert(count@.drop_last() =~= old_count);
                }
            }
            proof {
                assert forall|x: Seq<char>| count_keys(count@).contains(x) <==> now.contains(x) by {
                    if count_keys(count@).contains(x) && x != b@ {
                        let t = choose|t: int| 0 <= t < count_keys(count@).len() && count_keys(count@)[t] == x;
                        assert(count_keys(old_count)[t] == x);
                        assert(count_keys(old_count).contains(x));
                        assert(seen.contains(x));
                        let i = choose|i: int| 0 <= i < seen.len() && seen[i] == x;
                        assert(now[i] == x);
                    }
                    if now.contains(x) && x != b@ {
                        let i = choose|i: int| 0 <= i < now.len() && now[i] == x;
                        assert(seen[i] == x);
                        assert(count_keys(old_count).contains(x));
                        let t = choose|t: int| 0 <= t < count_keys(old_count).len() && count_keys(old_count)[t] == x;
                        assert(count_keys(count@)[t] == x);
                    }
                    if x == b@ {
                        assert(now[now.len() - 1] == x);
                        if found {
                            assert(count_keys(count@)[m as int] == x);
                        } else {
                            assert(count_keys(count@)[old_count.len() as int] == x);
                        }
                    }
                }
                assert forall|t: int| 0 <= t < count@.len() implies (#[trigger] count@[t]).1 == count_in(now, count@[t].0@) by {
                    assert(now.drop_last() =~= seen);
                    assert(now.last() == b@);
                    if found {
                        if t != m {
                            assert(count@[t] == old_count[t]);
                            assert(count_keys(count@)[t] != count_keys(count@)[m as int]);
                        } else {
                            assert(old_count[t].1 == count_in(seen, old_count[t].0@));
                        }
                    } else if t < old_count.len() {
                        assert(count@[t] == old_count[t]);
                        assert(count_keys(old_count)[t] == count@[t].0@);
                    }
                }
            }
            j = j + 1;
        }
        assert(done + ids(list@).take(j as int) =~= done + ids(list@));
        k = k + 1;
    }
    assert(edges@.take(edges@.len() as int) =~= edges@);
    count
}

/// The index of the entry of `b` in a count table, if there is one.
fn find_count(count: &Vec<(String, usize)>, b: &String) -> (r: Option<usize>)
    ensures
        match r {
            Some(m) => m < count@.len() && count@[m as int].0@ == b@,
            None => !count_keys(count@).contains(b@),
        },
{
    let mut i: usize = 0;
    while i < count.len()
        invariant
            i <= count@.len(),
            forall|t: int| 0 <= t < i ==> count@[t].0@ != b@,
        decreases count@.len() - i,
    {
        if count[i].0 == *b {
            return Some(i);
        }
        i = i + 1;
    }
    proof {
        assert forall|t: int| 0 <= t < count_keys(count@).len() implies count_keys(count@)[t] != b@ by {}
    }
    None
}

proof fn lemma_count_in_absent(s: Seq<Seq<char>>, b: Seq<char>)
    requires
        !s.contains(b),
    ensures
        count_in(s, b) == 0,
    decreases s.len(),
{
    if s.len() > 0 {
        assert(!s.drop_last().contains(b)) by {
            if s.drop_last().contains(b) {
                let i = choose|i: int| 0 <= i < s.drop_last().len() && s.drop_last()[i] == b;
                assert(s[i] == b);
            }
        }
        lemma_count_in_absent(s.drop_last(), b);
    }
}


/// The counts of a count table as ranking scores.
pub open spec fn count_scores(data: Seq<(String, usize)>) -> Seq<u128> {
    data.map_values(|e: (String, usize)| e.1 as u128)
}

/// The `n` entries with the largest counts, largest first; entries with
/// equal counts come in lexicographic order of their identifiers, so the
/// result does not depend on the order of `data`.
pub fn top_nodes(data: &Vec<(String, usize)>, n: usize) -> (r: Vec<(String, usize)>)
    ensures
        exists|idx: Seq<int>|
            {
                &&& is_top(count_scores(data@), count_keys(data@), n as nat, idx)
                &&& r@.len() == idx.len()
                &&& forall|t: int|
                    0 <= t < r@.len() ==> (#[trigger] r@[t]).0@ == data@[idx[t]].0@ && r@[t].1
                        == data@[idx[t]].1
            },
{
    let mut scores: Vec<u128> = Vec::new();
    let mut names: Vec<String> = Vec::new();
    let mut i: usize = 0;
    while i < data.len()
        invariant
            i <= data@.len(),
            scores@.len() == i,
            names@.len() == i,
            forall|k: int| 0 <= k < i ==> scores@[k] == data@[k].1 as u128,
            forall|k: int| 0 <= k < i ==> names@[k]@ == data@[k].0@,
        decreases data@.len() - i,
    {
        scores.push(data[i].1 as u128);
        names.push(data[i].0.clone());
        i = i + 1;
    }
    assert(scores@ =~= count_scores(data@));
    assert(ids(names@) =~= count_keys(data@));
    let top = top_indices(&scores, &names, n);
    let mut r: Vec<(String, usize)> = Vec::new();
    let mut t: usize = 0;
    while t < top.len()
        invariant
            t <= top@.len(),
            is_top(count_scores(data@), count_keys(data@), n as nat, as_ints(top@)),
            scores@.len() == data@.len(),
            r@.len() == t,
            forall|s: int|
                0 <= s < t ==> (#[trigger] r@[s]).0@ == data@[top@[s] as int].0@ && r@[s].1
                    == data@[top@[s] as int].1,
        decreases top@.len() - t,
    {
        assert(as_ints(top@)[t as int] == top@[t as int] as int);
        let k = top[t];
        r.push((data[k].0.clone(), data[k].1));
        t = t + 1;
    }
    assert(as_ints(top@).len() == r@.len());
    r
}

} // verus!
