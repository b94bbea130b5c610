use vstd::prelude::*;

verus! {

/// Ratings are held in thousandths of a star: `4000` is four stars.
/// A rating at or above this value is a good one, below it a bad one.
pub const GOOD_THRESHOLD: i64 = 3500;

/// The views of a sequence of identifiers.
pub open spec fn ids(v: Seq<String>) -> Seq<Seq<char>> {
    v.map_values(|s: String| s@)
}

/// The user identifiers that key an edge table, in order.
pub open spec fn keys(edges: Seq<(String, Vec<String>)>) -> Seq<Seq<char>> {
    edges.map_values(|e: (String, Vec<String>)| e.0@)
}

/// Whether a rating passes the good (`good == true`) or the bad threshold.
pub open spec fn qualifies(stars: i64, good: bool) -> bool {
    if good {
        stars >= GOOD_THRESHOLD
    } else {
        stars < GOOD_THRESHOLD
    }
}

/// The businesses of the qualifying reviews written by `u`, in input order,
/// repeats kept.
pub open spec fn reviewed_by(reviews: Seq<(String, String, i64)>, good: bool, u: Seq<char>) -> Seq<
    Seq<char>,
>
    decreases reviews.len(),
{
    if reviews.len() == 0 {
        seq![]
    } else {
        let r = reviews.last();
        let prev = reviewed_by(reviews.drop_last(), good, u);
        if qualifies(r.2, good) && r.0@ == u {
            prev.push(r.1@)
        } else {
            prev
        }
    }
}

/// The number of reviews that pass the threshold.
pub open spec fn qualifying_count(reviews: Seq<(String, String, i64)>, good: bool) -> nat
    decreases reviews.len(),
{
    if reviews.len() == 0 {
        0
    } else {
        qualifying_count(reviews.drop_last(), good) + if qualifies(reviews.last().2, good) {
            1nat
        } else {
            0nat
        }
    }
}

/// The number of edges of an edge table: the sum of its list lengths.
pub open spec fn total_edges(edges: Seq<(String, Vec<String>)>) -> nat
    decreases edges.len(),
{
    if edges.len() == 0 {
        0
    } else {
        total_edges(edges.drop_last()) + edges.last().1@.len()
    }
}

/// The bipartite rating graph: users, businesses, and for each user the
/// businesses they reviewed (one entry per qualifying review).
pub struct Graph {
    pub users: Vec<String>,
    pub businesses: Vec<String>,
    pub edges: Vec<(String, Vec<String>)>,
}

impl Graph {
    /// Identifiers are unique in each of the three tables, the users are the
    /// keys of the edge table in the same order, and every reviewed business
    /// is one of the businesses.
    pub open spec fn wf(&self) -> bool {
        &&& ids(self.users@).no_duplicates()
        &&& ids(self.businesses@).no_duplicates()
        &&& ids(self.users@) == keys(self.edges@)
        &&& forall|k: int, j: int|
            0 <= k < self.edges@.len() && 0 <= j < self.edges@[k].1@.len() ==> ids(
                self.businesses@,
            ).contains(#[trigger] self.edges@[k].1@[j]@)
    }

    /// The edge table: each user with the businesses they reviewed.
    pub fn edges_iter(&self) -> (r: &Vec<(String, Vec<String>)>)
        ensures
            *r == self.edges,
    {
        &self.edges
    }
}

/// The index of `s` in `v`, if it is there.
pub fn find_id(v: &Vec<String>, s: &String) -> (r: Option<usize>)
    ensures
        match r {
            Some(k) => k < v@.len() && v@[k as int]@ == s@,
            None => !ids(v@).contains(s@),
        },
{
    let mut i: usize = 0;
    while i < v.len()
        invariant
            i <= v@.len(),
            forall|k: int| 0 <= k < i ==> v@[k]@ != s@,
        decreases v@.len() - i,
    {
        if v[i] == *s {
            return Some(i);
        }
        i = i + 1;
    }
    proof {
        assert forall|k: int| 0 <= k < ids(v@).len() implies ids(v@)[k] != s@ by {}
    }
    None
}

/// The index of the entry keyed by `s` in an edge table, if there is one.
pub fn find_key(edges: &Vec<(String, Vec<String>)>, s: &String) -> (r: Option<usize>)
    ensures
        match r {
            Some(k) => k < edges@.len() && edges@[k as int].0@ == s@,
            None => !keys(edges@).contains(s@),
        },
{
    let mut i: usize = 0;
    while i < edges.len()
        invariant
            i <= edges@.len(),
            forall|k: int| 0 <= k < i ==> edges@[k].0@ != s@,
        decreases edges@.len() - i,
    {
        if edges[i].0 == *s {
            return Some(i);
        }
        i = i + 1;
    }
    proof {
        assert forall|k: int| 0 <= k < keys(edges@).len() implies keys(edges@)[k] != s@ by {}
    }
    None
}


/// No qualifying review of `u` means no reviewed business for `u`.
proof fn lemma_reviewed_by_empty(reviews: Seq<(String, String, i64)>, good: bool, u: Seq<char>)
    requires
        forall|j: int|
            0 <= j < reviews.len() && qualifies(reviews[j].2, good) ==> reviews[j].0@ != u,
    ensures
        reviewed_by(reviews, good, u) == Seq::<Seq<char>>::empty(),
    decreases reviews.len(),
{
    if reviews.len() > 0 {
        lemma_reviewed_by_empty(reviews.drop_last(), good, u);
    }
}

/// Growing the list at `k` by one entry grows the edge count by one.
proof fn lemma_total_edges_update(
    edges: Seq<(String, Vec<String>)>,
    k: int,
    e: (String, Vec<String>),
)
    requires
        0 <= k < edges.len(),
        e.1@.len() == edges[k].1@.len() + 1,
    ensures
        total_edges(edges.update(k, e)) == total_edges(edges) + 1,
    decreases edges.len(),
{
    let n = edges.update(k, e);
    if k < edges.len() - 1 {
        assert(n.drop_last() =~= edges.drop_last().update(k, e));
        lemma_total_edges_update(edges.drop_last(), k, e);
    } else {
        assert(n.drop_last() =~= edges.drop_last());
    }
}

/// Builds the graph of the reviews that pass the good (`good == true`) or
/// the bad threshold. Repeated reviews of one business stay repeated.
pub fn make_graph(review: &Vec<(String, String, i64)>, good: bool) -> (g: Graph)
    ensures
        g.wf(),
        forall|k: int|
            0 <= k < g.edges@.len() ==> ids(#[trigger] g.edges@[k].1@) == reviewed_by(
                review@,
                good,
                g.edges@[k].0@,
            ),
        forall|u: Seq<char>|
            ids(g.users@).contains(u) <==> exists|j: int|
                0 <= j < review@.len() && qualifies(review@[j].2, good) && #[trigger] review@[j].0@
                    == u,
        forall|b: Seq<char>|
            ids(g.businesses@).contains(b) <==> exists|j: int|
                0 <= j < review@.len() && qualifies(review@[j].2, good) && #[trigger] review@[j].1@
                    == b,
        total_edges(g.edges@) == qualifying_count(review@, good),
{
    let mut users: Vec<String> = Vec::new();
    let mut businesses: Vec<String> = Vec::new();
    let mut edges: Vec<(String, Vec<String>)> = Vec::new();
    let mut i: usize = 0;
    assert(ids(users@) =~= Seq::<Seq<char>>::empty());
    assert(ids(businesses@) =~= Seq::<Seq<char>>::empty());
    assert(keys(edges@) =~= Seq::<Seq<char>>::empty());
    while i < review.len()
        invariant
            i <= review@.len(),
            (Graph { users, businesses, edges }).wf(),
            forall|k: int|
                0 <= k < edges@.len() ==> ids(#[trigger] edges@[k].1@) == reviewed_by(
                    review@.take(i as int),
                    good,
                    edges@[k].0@,
                ),
            forall|u: Seq<char>|
                ids(users@).contains(u) <==> exists|j: int|
                    0 <= j < i && qualifies(review@[j].2, good) && #[trigger] review@[j].0@ == u,
            forall|b: Seq<char>|
                ids(businesses@).contains(b) <==> exists|j: int|
                    0 <= j < i && qualifies(review@[j].2, good) && #[trigger] review@[j].1@ == b,
            total_edges(edges@) == qualifying_count(review@.take(i as int), good),
        decreases review@.len() - i,
    {
        let ghost pre = review@.take(i as int);
        let ghost next = review@.take(i + 1);
        assert(next.drop_last() =~= pre);
        assert(next.last() == review@[i as int]);
        let user = &review[i].0;
        let business = &review[i].1;
        let stars = review[i].2;
        let pass = if good {
            stars >= GOOD_THRESHOLD
        } else {
            stars < GOOD_THRESHOLD
        };
        if pass {
            let ghost old_edges = edges@;
            let ghost old_users = users@;
            let ghost old_businesses = businesses@;
            match find_id(&businesses, business) {
                Some(m) => {
                    assert(ids(businesses@)[m as int] == business@);
                },
                None => {
                    businesses.push(business.clone());
                    assert(ids(businesses@) =~= ids(old_businesses).push(business@));
                    assert(ids(businesses@)[ids(old_businesses).len() as int] == business@);
                },
            }
            assert(ids(businesses@).contains(business@));
            match find_key(&edges, user) {
                Some(k) => {
                    edges[k].1.push(business.clone());
                    proof {
                        lemma_total_edges_update(old_edges, k as int, edges@[k as int]);
                        assert(edges@ =~= old_edges.update(k as int, edges@[k as int]));
                        assert(keys(edges@) =~= keys(old_edges));
                        assert(keys(edges@)[k as int] == user@);
                        assert forall|k2: int| 0 <= k2 < edges@.len() implies ids(
                            #[trigger] edges@[k2].1@,
                        ) == reviewed_by(next, good, edges@[k2].0@) by {
                            if k2 != k {
                                assert(keys(edges@)[k2] != keys(edges@)[k as int]);
                            }
                        }
                        assert(ids(edges@[k as int].1@) =~= ids(old_edges[k as int].1@).push(
                            business@,
                        ));
                    }
                },
                None => {
                    let mut list: Vec<String> = Vec::new();
                    list.push(business.clone());
                    edges.push((user.clone(), list));
                    users.push(user.clone());
                    proof {
                        assert(ids(users@) =~= ids(old_users).push(user@));
                        assert(keys(edges@) =~= keys(old_edges).push(user@));
                        assert(keys(edges@)[old_edges.len() as int] == user@);
                        lemma_reviewed_by_empty(pre, good, user@);
                        assert(ids(list@) =~= seq![business@]);
                        assert(edges@.drop_last() =~= old_edges);
                        assert forall|k2: int| 0 <= k2 < edges@.len() implies ids(
                            #[trigger] edges@[k2].1@,
                        ) == reviewed_by(next, good, edges@[k2].0@) by {
                            if k2 < old_edges.len() {
                                assert(keys(old_edges)[k2] == edges@[k2].0@);
                                assert(edges@[k2] == old_edges[k2]);
                            }
                        }
                    }
                },
            }
            proof {
                assert forall|k: int, j: int|
                    0 <= k < edges@.len() && 0 <= j < edges@[k].1@.len() implies ids(
                    businesses@,
                ).contains(#[trigger] edges@[k].1@[j]@) by {
                    if edges@[k].1@[j]@ != business@ {
                        assert(k < old_edges.len() && j < old_edges[k].1@.len());
                        assert(ids(old_businesses).contains(old_edges[k].1@[j]@));
                        let m = choose|m: int|
                            0 <= m < ids(old_businesses).len() && ids(old_businesses)[m]
                                == old_edges[k].1@[j]@;
                        assert(ids(businesses@)[m] == ids(old_businesses)[m]);
                    }
                }
                assert forall|u: Seq<char>|
                    ids(users@).contains(u) <==> exists|j: int|
                        0 <= j < i + 1 && qualifies(review@[j].2, good) && #[trigger] review@[j].0@
                            == u by {
                    if ids(users@).contains(u) && u != user@ {
                        let m = choose|m: int| 0 <= m < ids(users@).len() && ids(users@)[m] == u;
                        assert(ids(old_users).contains(u)) by {
                            assert(ids(old_users)[m] == u);
                        }
                    }
                    if exists|j: int|
                        0 <= j < i + 1 && qualifies(review@[j].2, good) && #[trigger] review@[j].0@
                            == u {
                        let j = choose|j: int|
                            0 <= j < i + 1 && qualifies(review@[j].2, good) && #[trigger] review@[j].0@
                                == u;
                        if j < i {
                            assert(ids(old_users).contains(u));
                            let m = choose|m: int|
                                0 <= m < ids(old_users).len() && ids(old_users)[m] == u;
                            assert(ids(users@)[m] == u);
                        }
                    }
                }
                assert forall|b: Seq<char>|
                    ids(businesses@).contains(b) <==> exists|j: int|
                        0 <= j < i + 1 && qualifies(review@[j].2, good) && #[trigger] review@[j].1@
                            == b by {
                    if ids(businesses@).contains(b) && b != business@ {
                        let m = choose|m: int|
                            0 <= m < ids(businesses@).len() && ids(businesses@)[m] == b;
                        assert(ids(old_businesses).contains(b)) by {
                            assert(ids(old_businesses)[m] == b);
                        }
                    }
                    if exists|j: int|
                        0 <= j < i + 1 && qualifies(review@[j].2, good) && #[trigger] review@[j].1@
                            == b {
                        let j = choose|j: int|
                            0 <= j < i + 1 && qualifies(review@[j].2, good) && #[trigger] review@[j].1@
                                == b;
                        if j < i {
                            assert(ids(old_businesses).contains(b));
                            let m = choose|m: int|
                                0 <= m < ids(old_businesses).len() && ids(old_businesses)[m] == b;
                            assert(ids(businesses@)[m] == b);
                        }
                    }
                }
            }
        }
        i = i + 1;
    }
    assert(review@.take(review@.len() as int) =~= review@);
    Graph { users, businesses, edges }
}

/// The graph of the good reviews: those of at least three and a half stars.
pub fn good_make_graph(review: Vec<(String, String, i64)>) -> (g: Graph)
    ensures
        g.wf(),
        forall|k: int|
            0 <= k < g.edges@.len() ==> ids(#[trigger] g.edges@[k].1@) == reviewed_by(
                review@,
                true,
                g.edges@[k].0@,
            ),
        forall|u: Seq<char>|
            ids(g.users@).contains(u) <==> exists|j: int|
                0 <= j < review@.len() && review@[j].2 >= GOOD_THRESHOLD && #[trigger] review@[j].0@
                    == u,
        forall|b: Seq<char>|
            ids(g.businesses@).contains(b) <==> exists|j: int|
                0 <= j < review@.len() && review@[j].2 >= GOOD_THRESHOLD && #[trigger] review@[j].1@
                    == b,
        total_edges(g.edges@) == qualifying_count(review@, true),
{
    make_graph(&review, true)
}

/// The graph of the bad reviews: those under three and a half stars.
pub fn bad_make_graph(review: Vec<(String, String, i64)>) -> (g: Graph)
    ensures
        g.wf(),
        forall|k: int|
            0 <= k < g.edges@.len() ==> ids(#[trigger] g.edges@[k].1@) == reviewed_by(
                review@,
                false,
                g.edges@[k].0@,
            ),
        forall|u: Seq<char>|
            ids(g.users@).contains(u) <==> exists|j: int|
                0 <= j < review@.len() && review@[j].2 < GOOD_THRESHOLD && #[trigger] review@[j].0@
                    == u,
        forall|b: Seq<char>|
            ids(g.businesses@).contains(b) <==> exists|j: int|
                0 <= j < review@.len() && review@[j].2 < GOOD_THRESHOLD && #[trigger] review@[j].1@
                    == b,
        total_edges(g.edges@) == qualifying_count(review@, false),
{
    make_graph(&review, false)
}


/// Every review passes exactly one of the two thresholds, so the good and
/// the bad graph together hold one edge per review.
pub proof fn lemma_thresholds_partition(review: Seq<(String, String, i64)>)
    ensures
        qualifying_count(review, true) + qualifying_count(review, false) == review.len(),
    decreases review.len(),
{
    if review.len() > 0 {
        lemma_thresholds_partition(review.drop_last());
    }
}

} // verus!
