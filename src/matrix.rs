use vstd::prelude::*;
use crate::counts::all_reviewed;
use crate::graph::{find_id, ids, keys};
use crate::ident::{
    id_before, id_less, lemma_id_less_irreflexive, lemma_id_less_total, lemma_id_less_transitive,
};

verus! {

/// The sum of the entries of a row.
pub open spec fn row_sum(row: Seq<usize>) -> nat
    decreases row.len(),
{
    if row.len() == 0 {
        0
    } else {
        row_sum(row.drop_last()) + row.last() as nat
    }
}

/// The entry for a business in the row of a user who reviewed `reviewed`.
pub open spec fn presence(reviewed: Seq<Seq<char>>, b: Seq<char>) -> usize {
    if reviewed.contains(b) {
        1
    } else {
        0
    }
}

/// The user identifiers of a matrix's rows, in order.
pub open spec fn row_keys(m: AdjacencyMatrix) -> Seq<Seq<char>> {
    m.rows@.map_values(|e: (String, Vec<usize>)| e.0@)
}

/// A user/business presence matrix. Column `c` stands for `businesses[c]`;
/// each row pairs a user with one 0/1 entry per column.
pub struct AdjacencyMatrix {
    pub businesses: Vec<String>,
    pub rows: Vec<(String, Vec<usize>)>,
}

impl AdjacencyMatrix {
    /// Columns are distinct businesses, rows are keyed by distinct users,
    /// every row has one entry per column, and every entry is 0 or 1.
    pub open spec fn wf(&self) -> bool {
        &&& ids(self.businesses@).no_duplicates()
        &&& row_keys(*self).no_duplicates()
        &&& forall|k: int|
            0 <= k < self.rows@.len() ==> (#[trigger] self.rows@[k]).1@.len()
                == self.businesses@.len()
        &&& forall|k: int, c: int|
            0 <= k < self.rows@.len() && 0 <= c < self.rows@[k].1@.len() ==> #[trigger] self.rows@[k].1@[c]
                <= 1
    }

    /// The row of `user`, if the matrix has one.
    pub fn row(&self, user: &String) -> (r: Option<&Vec<usize>>)
        ensures
            match r {
                Some(v) => exists|k: int|
                    0 <= k < self.rows@.len() && self.rows@[k].0@ == user@ && *v
                        == #[trigger] self.rows@[k].1,
                None => forall|k: int| 0 <= k < self.rows@.len() ==> #[trigger] self.rows@[k].0@ != user@,
            },
    {
        let mut i: usize = 0;
        while i < self.rows.len()
            invariant
                i <= self.rows@.len(),
                forall|k: int| 0 <= k < i ==> #[trigger] self.rows@[k].0@ != user@,
            decreases self.rows@.len() - i,
        {
            if self.rows[i].0 == *user {
                return Some(&self.rows[i].1);
            }
            i = i + 1;
        }
        None
    }
}

proof fn lemma_list_in_all_reviewed(edges: Seq<(String, Vec<String>)>, k: int, j: int)
    requires
        0 <= k < edges.len(),
        0 <= j < edges[k].1@.len(),
    ensures
        all_reviewed(edges).contains(edges[k].1@[j]@),
    decreases edges.len(),
{
    let prev = all_reviewed(edges.drop_last());
    let last = ids(edges.last().1@);
    if k < edges.len() - 1 {
        lemma_list_in_all_reviewed(edges.drop_last(), k, j);
        let i = choose|i: int| 0 <= i < prev.len() && prev[i] == edges[k].1@[j]@;
        assert((prev + last)[i] == edges[k].1@[j]@);
    } else {
        assert((prev + last)[prev.len() + j] == edges[k].1@[j]@);
    }
}

/// A 0/1 row over distinct columns that marks the members of `s` sums to
/// the size of `s`.
proof fn lemma_row_sum_counts(cols: Seq<Seq<char>>, s: Set<Seq<char>>, row: Seq<usize>)
    requires
        cols.no_duplicates(),
        row.len() == cols.len(),
        s.finite(),
        forall|x: Seq<char>| s.contains(x) ==> cols.contains(x),
        forall|c: int| 0 <= c < row.len() ==> row[c] == if s.contains(cols[c]) {
            1usize
        } else {
            0usize
        },
    ensures
        row_sum(row) == s.len(),
    decreases cols.len(),
{
    if cols.len() == 0 {
        assert(s =~= Set::<Seq<char>>::empty());
    } else {
        let last = cols.last();
        let s2 = s.remove(last);
        assert forall|x: Seq<char>| s2.contains(x) implies cols.drop_last().contains(x) by {
            let c = choose|c: int| 0 <= c < cols.len() && cols[c] == x;
            assert(c != cols.len() - 1);
            assert(cols.drop_last()[c] == x);
        }
        assert forall|c: int| 0 <= c < row.drop_last().len() implies row.drop_last()[c] == if s2.contains(
            cols.drop_last()[c],
        ) {
            1usize
        } else {
            0usize
        } by {
            assert(cols[c] != last);
        }
        lemma_row_sum_counts(cols.drop_last(), s2, row.drop_last());
        vstd::set::axiom_set_remove_len(s, last);
    }
}


/// The identifiers are in strictly increasing lexicographic order.
pub open spec fn sorted_ids(s: Seq<Seq<char>>) -> bool {
    forall|k: int, l: int| 0 <= k < l < s.len() ==> id_less(#[trigger] s[k], #[trigger] s[l])
}

proof fn lemma_sorted_distinct(s: Seq<Seq<char>>)
    requires
        sorted_ids(s),
    ensures
        s.no_duplicates(),
{
    assert forall|k: int, l: int| 0 <= k < s.len() && 0 <= l < s.len() && k != l implies s[k]
        != s[l] by {
        lemma_id_less_irreflexive(s[k]);
        if k < l {
            assert(id_less(s[k], s[l]));
        } else {
            assert(id_less(s[l], s[k]));
        }
    }
}

/// Adds `b` to a sorted list of identifiers, unless it is there already.
fn insert_sorted(all: &mut Vec<String>, b: &String)
    requires
        sorted_ids(ids(old(all)@)),
    ensures
        sorted_ids(ids(final(all)@)),
        forall|x: Seq<char>|
            ids(final(all)@).contains(x) <==> (ids(old(all)@).contains(x) || x == b@),
{
    let ghost old_ids = ids(all@);
    let mut p: usize = 0;
    while p < all.len() && id_before(&all[p], b)
        invariant
            p <= all@.len(),
            all@ == old(all)@,
            old_ids == ids(all@),
            forall|k: int| 0 <= k < p ==> id_less(#[trigger] all@[k]@, b@),
        decreases all@.len() - p,
    {
        p = p + 1;
    }
    if p < all.len() && all[p] == *b {
        assert(old_ids[p as int] == b@);
        return;
    }
    proof {
        if p < all@.len() {
            lemma_id_less_total(all@[p as int]@, b@);
        }
        assert forall|k: int| 0 <= k < old_ids.len() implies old_ids[k] != b@ by {
            lemma_id_less_irreflexive(b@);
            if k < p {
                assert(id_less(all@[k]@, b@));
            } else {
                assert(id_less(b@, old_ids[p as int]));
                if k > p {
                    assert(id_less(old_ids[p as int], old_ids[k]));
                    lemma_id_less_transitive(b@, old_ids[p as int], old_ids[k]);
                }
            }
        }
    }
    all.insert(p, b.clone());
    proof {
        let n = ids(all@);
        assert(n =~= old_ids.insert(p as int, b@));
        assert forall|k: int, l: int| 0 <= k < l < n.len() implies id_less(
            #[trigger] n[k],
            #[trigger] n[l],
        ) by {
            if l < p {
                assert(n[k] == old_ids[k] && n[l] == old_ids[l]);
            } else if l == p {
                assert(n[k] == old_ids[k]);
                assert(id_less(all@[k]@, b@));
            } else if k > p {
                assert(n[k] == old_ids[k - 1] && n[l] == old_ids[l - 1]);
            } else if k == p {
                assert(n[l] == old_ids[l - 1]);
                if l - 1 > p {
                    lemma_id_less_transitive(b@, old_ids[p as int], old_ids[l - 1]);
                }
            } else {
                assert(n[k] == old_ids[k] && n[l] == old_ids[l - 1]);
                assert(id_less(old_ids[k], b@));
                if l - 1 >= p {
                    if l - 1 > p {
                        lemma_id_less_transitive(b@, old_ids[p as int], old_ids[l - 1]);
                    }
                    lemma_id_less_transitive(old_ids[k], b@, old_ids[l - 1]);
                }
            }
        }
        assert forall|x: Seq<char>| n.contains(x) <==> (old_ids.contains(x) || x == b@) by {
            if n.contains(x) {
                let t = choose|t: int| 0 <= t < n.len() && n[t] == x;
                if t < p {
                    assert(old_ids[t] == x);
                } else if t > p {
                    assert(old_ids[t - 1] == x);
                }
            }
            if old_ids.contains(x) {
                let t = choose|t: int| 0 <= t < old_ids.len() && old_ids[t] == x;
                if t < p {
                    assert(n[t] == x);
                } else {
                    assert(n[t + 1] == x);
                }
            }
            if x == b@ {
                assert(n[p as int] == x);
            }
        }
    }
}

/// The reviewed businesses in lexicographic order, each once.
fn business_universe(graph: &Vec<(String, Vec<String>)>) -> (r: Vec<String>)
    ensures
        sorted_ids(ids(r@)),
        forall|b: Seq<char>| ids(r@).contains(b) <==> all_reviewed(graph@).contains(b),
{
    let mut all: Vec<String> = Vec::new();
    let mut k: usize = 0;
    assert(ids(all@) =~= Seq::<Seq<char>>::empty());
    assert(graph@.take(0) =~= Seq::<(String, Vec<String>)>::empty());
    while k < graph.len()
        invariant
            k <= graph@.len(),
            sorted_ids(ids(all@)),
            forall|b: Seq<char>| ids(all@).contains(b) <==> all_reviewed(graph@.take(k as int)).contains(b),
        decreases graph@.len() - k,
    {
        let list = &graph[k].1;
        let ghost done = all_reviewed(graph@.take(k as int));
        assert(graph@.take(k + 1).drop_last() =~= graph@.take(k as int));
        let mut j: usize = 0;
        assert(done + ids(list@).take(0) =~= done);
        while j < list.len()
            invariant
                k < graph@.len(),
                j <= list@.len(),
                list == &graph@[k as int].1,
                done == all_reviewed(graph@.take(k as int)),
                all_reviewed(graph@.take(k + 1)) == done + ids(list@),
                sorted_ids(ids(all@)),
                forall|b: Seq<char>| ids(all@).contains(b) <==> (done + ids(list@).take(j as int)).contains(b),
            decreases list@.len() - j,
        {
            let b = &list[j];
            let ghost seen = done + ids(list@).take(j as int);
            let ghost now = done + ids(list@).take(j + 1);
            let ghost old_all = all@;
            assert(now =~= seen.push(b@));
            let ghost old_ids = ids(all@);
            insert_sorted(&mut all, b);
            proof {
                assert forall|x: Seq<char>| ids(all@).contains(x) <==> now.contains(x) by {
                    if seen.contains(x) {
                        let i = choose|i: int| 0 <= i < seen.len() && seen[i] == x;
                        assert(now[i] == x);
                    }
                    if now.contains(x) && x != b@ {
                        let i = choose|i: int| 0 <= i < now.len() && now[i] == x;
                        assert(seen[i] == x);
                    }
                    if x == b@ {
                        assert(now[now.len() - 1] == x);
                    }
                }
            }
            j = j + 1;
        }
        assert(done + ids(list@).take(j as int) =~= done + ids(list@));
        k = k + 1;
    }
    assert(graph@.take(graph@.len() as int) =~= graph@);
    all
}

/// Builds the presence matrix of an edge table: the columns are the reviewed
/// businesses in lexicographic order, there is one row per user in the
/// table's order, and an entry is 1 exactly when the user reviewed that
/// business at least once. A row sums to the number of distinct businesses
/// its user reviewed.
pub fn create_adjacency_matrix(graph: &Vec<(String, Vec<String>)>) -> (m: AdjacencyMatrix)
    requires
        keys(graph@).no_duplicates(),
    ensures
        m.wf(),
        sorted_ids(ids(m.businesses@)),
        forall|b: Seq<char>| ids(m.businesses@).contains(b) <==> all_reviewed(graph@).contains(b),
        m.rows@.len() == graph@.len(),
        forall|k: int|
            0 <= k < m.rows@.len() ==> (#[trigger] m.rows@[k]).0@ == graph@[k].0@,
        forall|k: int, c: int|
            0 <= k < m.rows@.len() && 0 <= c < m.businesses@.len() ==> #[trigger] m.rows@[k].1@[c]
                == presence(ids(graph@[k].1@), m.businesses@[c]@),
        forall|k: int|
            0 <= k < m.rows@.len() ==> row_sum(#[trigger] m.rows@[k].1@) == ids(
                graph@[k].1@,
            ).to_set().len(),
{
    let businesses = business_universe(graph);
    proof {
        lemma_sorted_distinct(ids(businesses@));
    }
    let width = businesses.len();
    let mut rows: Vec<(String, Vec<usize>)> = Vec::new();
    let mut k: usize = 0;
    while k < graph.len()
        invariant
            k <= graph@.len(),
            width == businesses@.len(),
            ids(businesses@).no_duplicates(),
            sorted_ids(ids(businesses@)),
            forall|b: Seq<char>| ids(businesses@).contains(b) <==> all_reviewed(graph@).contains(b),
            rows@.len() == k,
            forall|t: int| 0 <= t < k ==> (#[trigger] rows@[t]).0@ == graph@[t].0@,
            forall|t: int| 0 <= t < k ==> (#[trigger] rows@[t]).1@.len() == width,
            forall|t: int, c: int|
                0 <= t < k && 0 <= c < width ==> #[trigger] rows@[t].1@[c] == presence(
                    ids(graph@[t].1@),
                    businesses@[c]@,
                ),
            forall|t: int|
                0 <= t < k ==> row_sum(#[trigger] rows@[t].1@) == ids(graph@[t].1@).to_set().len(),
        decreases graph@.len() - k,
    {
        let list = &graph[k].1;
        let mut row: Vec<usize> = Vec::new();
        let mut c: usize = 0;
        while c < width
            invariant
                c <= width,
                row@.len() == c,
                forall|c2: int| 0 <= c2 < c ==> row@[c2] == 0,
            decreases width - c,
        {
            row.push(0);
            c = c + 1;
        }
        let mut j: usize = 0;
        assert(ids(list@).take(0) =~= Seq::<Seq<char>>::empty());
        while j < list.len()
            invariant
                k < graph@.len(),
                list == &graph@[k as int].1,
                j <= list@.len(),
                width == businesses@.len(),
                row@.len() == width,
                forall|b: Seq<char>| ids(businesses@).contains(b) <==> all_reviewed(graph@).contains(b),
                ids(businesses@).no_duplicates(),
                forall|c2: int|
                    0 <= c2 < width ==> row@[c2] == presence(
                        ids(list@).take(j as int),
                        businesses@[c2]@,
                    ),
            decreases list@.len() - j,
        {
            let ghost seen = ids(list@).take(j as int);
            let ghost now = ids(list@).take(j + 1);
            assert(now =~= seen.push(list@[j as int]@));
            proof {
                lemma_list_in_all_reviewed(graph@, k as int, j as int);
            }
            let col = find_id(&businesses, &list[j]);
            match col {
                Some(col) => {
                    row.set(col, 1);
                    proof {
                        assert forall|c2: int| 0 <= c2 < width implies row@[c2] == presence(
                            now,
                            businesses@[c2]@,
                        ) by {
                            if c2 == col {
                                assert(now[j as int] == businesses@[c2]@);
                            } else {
                                assert(ids(businesses@)[c2] != ids(businesses@)[col as int]);
                                if now.contains(businesses@[c2]@) {
                                    let i = choose|i: int| 0 <= i < now.len() && now[i] == businesses@[c2]@;
                                    assert(i != j);
                                    assert(seen[i] == businesses@[c2]@);
                                }
                                if seen.contains(businesses@[c2]@) {
                                    let i = choose|i: int| 0 <= i < seen.len() && seen[i] == businesses@[c2]@;
                                    assert(now[i] == businesses@[c2]@);
                                }
                            }
                        }
                    }
                },
                None => {
                    assert(false);
                },
            }
            j = j + 1;
        }
        proof {
            assert(ids(list@).take(j as int) =~= ids(list@));
            broadcast use vstd::seq_lib::seq_to_set_is_finite;
            assert forall|x: Seq<char>| ids(list@).to_set().contains(x) implies ids(businesses@).contains(x) by {
                let i = choose|i: int| 0 <= i < ids(list@).len() && ids(list@)[i] == x;
                lemma_list_in_all_reviewed(graph@, k as int, i);
            }
            lemma_row_sum_counts(ids(businesses@), ids(list@).to_set(), row@);
        }
        rows.push((graph[k].0.clone(), row));
        k = k + 1;
    }
    let m = AdjacencyMatrix { businesses, rows };
    assert(row_keys(m) =~= keys(graph@));
    m
}

} // verus!
