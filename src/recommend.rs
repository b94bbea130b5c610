use vstd::prelude::*;
use crate::graph::ids;
use crate::matrix::{row_keys, AdjacencyMatrix};
use crate::ranking::{as_ints, is_top, top_indices};
use crate::similarity::find_row;

verus! {

/// At most this many businesses are recommended.
pub const TOP_RECOMMENDATIONS: usize = 10;

/// Why no recommendation could be made.
#[derive(PartialEq, Eq, Structural, Debug, Clone, Copy)]
pub enum RecommendError {
    /// The target user has no row in the matrix.
    UnknownUser,
}

/// The other user of a similarity entry that involves `user`.
pub open spec fn neighbor_of(e: (String, String, u64), user: Seq<char>) -> Option<Seq<char>> {
    if e.0@ == user {
        Some(e.1@)
    } else if e.1@ == user {
        Some(e.0@)
    } else {
        None
    }
}

/// The row of `user` in a matrix whose rows have distinct users.
pub open spec fn row_of(m: AdjacencyMatrix, user: Seq<char>) -> int {
    choose|k: int| 0 <= k < m.rows@.len() && m.rows@[k].0@ == user
}

/// Entry `e` votes for column `c` on behalf of `user`, whose row is `u`:
/// the other user of the entry has a row, with a 1 in column `c`, and
/// `user` has not reviewed that business.
pub open spec fn votes_for(m: AdjacencyMatrix, e: (String, String, u64), u: int, user: Seq<char>, c: int) -> bool {
    match neighbor_of(e, user) {
        Some(v) => row_keys(m).contains(v) && m.rows@[row_of(m, v)].1@[c] == 1 && m.rows@[u].1@[c]
            != 1,
        None => false,
    }
}

/// The summed similarity of the entries that vote for column `c`.
pub open spec fn column_score(
    m: AdjacencyMatrix,
    sims: Seq<(String, String, u64)>,
    u: int,
    user: Seq<char>,
    c: int,
) -> nat
    decreases sims.len(),
{
    if sims.len() == 0 {
        0
    } else {
        column_score(m, sims.drop_last(), u, user, c) + if votes_for(m, sims.last(), u, user, c) {
            sims.last().2 as nat
        } else {
            0nat
        }
    }
}

/// Some entry votes for column `c`.
pub open spec fn voted(
    m: AdjacencyMatrix,
    sims: Seq<(String, String, u64)>,
    u: int,
    user: Seq<char>,
    c: int,
) -> bool
    decreases sims.len(),
{
    if sims.len() == 0 {
        false
    } else {
        voted(m, sims.drop_last(), u, user, c) || votes_for(m, sims.last(), u, user, c)
    }
}

/// The voted columns below `w`, in increasing order.
pub open spec fn candidates(
    m: AdjacencyMatrix,
    sims: Seq<(String, String, u64)>,
    u: int,
    user: Seq<char>,
    w: int,
) -> Seq<int>
    decreases w,
{
    if w <= 0 {
        seq![]
    } else if voted(m, sims, u, user, w - 1) {
        candidates(m, sims, u, user, w - 1).push(w - 1)
    } else {
        candidates(m, sims, u, user, w - 1)
    }
}

/// The scores of the candidate columns below `w`, in the same order.
pub open spec fn scores_upto(
    m: AdjacencyMatrix,
    sims: Seq<(String, String, u64)>,
    u: int,
    user: Seq<char>,
    w: int,
) -> Seq<u128> {
    candidates(m, sims, u, user, w).map_values(|c: int| column_score(m, sims, u, user, c) as u128)
}

/// The businesses of the candidate columns below `w`, in the same order.
pub open spec fn names_upto(
    m: AdjacencyMatrix,
    sims: Seq<(String, String, u64)>,
    u: int,
    user: Seq<char>,
    w: int,
) -> Seq<Seq<char>> {
    candidates(m, sims, u, user, w).map_values(|c: int| m.businesses@[c]@)
}

/// The scores of all candidate columns, in column order.
pub open spec fn candidate_scores(
    m: AdjacencyMatrix,
    sims: Seq<(String, String, u64)>,
    u: int,
    user: Seq<char>,
) -> Seq<u128> {
    scores_upto(m, sims, u, user, m.businesses@.len() as int)
}

proof fn lemma_row_of(m: AdjacencyMatrix, k: int)
    requires
        m.wf(),
        0 <= k < m.rows@.len(),
    ensures
        row_of(m, m.rows@[k].0@) == k,
{
    let user = m.rows@[k].0@;
    let j = row_of(m, user);
    assert(row_keys(m)[j] == row_keys(m)[k]);
}

proof fn lemma_candidates_below(
    m: AdjacencyMatrix,
    sims: Seq<(String, String, u64)>,
    u: int,
    user: Seq<char>,
    w: int,
)
    ensures
        forall|t: int|
            0 <= t < candidates(m, sims, u, user, w).len() ==> 0 <= #[trigger] candidates(
                m,
                sims,
                u,
                user,
                w,
            )[t] < w && voted(m, sims, u, user, candidates(m, sims, u, user, w)[t]),
    decreases w,
{
    if w > 0 {
        lemma_candidates_below(m, sims, u, user, w - 1);
        let prev = candidates(m, sims, u, user, w - 1);
        let cur = candidates(m, sims, u, user, w);
        assert forall|t: int| 0 <= t < cur.len() implies 0 <= #[trigger] cur[t] < w && voted(
            m,
            sims,
            u,
            user,
            cur[t],
        ) by {
            if t < prev.len() {
                assert(cur[t] == prev[t]);
            }
        }
    }
}

proof fn lemma_unvoted_without_neighbors(
    m: AdjacencyMatrix,
    sims: Seq<(String, String, u64)>,
    u: int,
    user: Seq<char>,
    c: int,
)
    requires
        forall|t: int| 0 <= t < sims.len() ==> neighbor_of(#[trigger] sims[t], user) is None,
    ensures
        !voted(m, sims, u, user, c),
    decreases sims.len(),
{
    if sims.len() > 0 {
        assert(neighbor_of(sims[sims.len() - 1], user) is None);
        lemma_unvoted_without_neighbors(m, sims.drop_last(), u, user, c);
    }
}

proof fn lemma_no_candidates(
    m: AdjacencyMatrix,
    sims: Seq<(String, String, u64)>,
    u: int,
    user: Seq<char>,
    w: int,
)
    requires
        forall|t: int| 0 <= t < sims.len() ==> neighbor_of(#[trigger] sims[t], user) is None,
    ensures
        candidates(m, sims, u, user, w).len() == 0,
    decreases w,
{
    if w > 0 {
        lemma_unvoted_without_neighbors(m, sims, u, user, w - 1);
        lemma_no_candidates(m, sims, u, user, w - 1);
    }
}

proof fn lemma_voted_unreviewed(
    m: AdjacencyMatrix,
    sims: Seq<(String, String, u64)>,
    u: int,
    user: Seq<char>,
    c: int,
)
    requires
        voted(m, sims, u, user, c),
    ensures
        m.rows@[u].1@[c] != 1,
    decreases sims.len(),
{
    if sims.len() > 0 && !votes_for(m, sims.last(), u, user, c) {
        lemma_voted_unreviewed(m, sims.drop_last(), u, user, c);
    }
}


/// `acc` and `hit` hold, column by column, the summed votes and whether
/// any entry voted.
pub open spec fn tallied(
    m: AdjacencyMatrix,
    sims: Seq<(String, String, u64)>,
    u: int,
    user: Seq<char>,
    acc: Seq<u128>,
    hit: Seq<bool>,
) -> bool {
    &&& acc.len() == m.businesses@.len()
    &&& hit.len() == m.businesses@.len()
    &&& forall|c: int|
        0 <= c < m.businesses@.len() ==> #[trigger] acc[c] as nat == column_score(m, sims, u, user, c)
            && hit[c] == voted(m, sims, u, user, c)
}

/// The summed votes and the voted flags of every column, over all entries.
fn tally_votes(
    m: &AdjacencyMatrix,
    sims: &Vec<(String, String, u64)>,
    u: usize,
    user: &String,
) -> (r: (Vec<u128>, Vec<bool>))
    requires
        m.wf(),
        u < m.rows@.len(),
        m.rows@[u as int].0@ == user@,
    ensures
        tallied(*m, sims@, u as int, user@, r.0@, r.1@),
{
    let width = m.businesses.len();
    let mut acc: Vec<u128> = Vec::new();
    let mut hit: Vec<bool> = Vec::new();
    let mut c: usize = 0;
    while c < width
        invariant
            c <= width == m.businesses@.len(),
            acc@.len() == c,
            hit@.len() == c,
            forall|c2: int| 0 <= c2 < c ==> acc@[c2] == 0 && !hit@[c2],
        decreases width - c,
    {
        acc.push(0);
        hit.push(false);
        c = c + 1;
    }
    let mut t: usize = 0;
    assert(sims@.take(0) =~= Seq::<(String, String, u64)>::empty());
    while t < sims.len()
        invariant
            m.wf(),
            u < m.rows@.len(),
            m.rows@[u as int].0@ == user@,
            t <= sims@.len(),
            width == m.businesses@.len(),
            acc@.len() == width,
            hit@.len() == width,
            forall|c2: int|
                0 <= c2 < width ==> #[trigger] acc@[c2] as nat == column_score(
                    *m,
                    sims@.take(t as int),
                    u as int,
                    user@,
                    c2,
                ) && hit@[c2] == voted(*m, sims@.take(t as int), u as int, user@, c2) && acc@[c2]
                    <= t * 0xffff_ffff_ffff_ffffu128,
        decreases sims@.len() - t,
    {
        let ghost pre = sims@.take(t as int);
        let ghost next = sims@.take(t + 1);
        assert(next.drop_last() =~= pre);
        assert(next.last() == sims@[t as int]);
        let e = &sims[t];
        let nb: Option<&String> = if e.0 == *user {
            Some(&e.1)
        } else if e.1 == *user {
            Some(&e.0)
        } else {
            None
        };
        let ghost nbv: Option<Seq<char>> = match nb {
            Some(v) => Some(v@),
            None => None,
        };
        assert(nbv == neighbor_of(sims@[t as int], user@));
        let w: Option<usize> = match nb {
            Some(v) => find_row(m, v),
            None => None,
        };
        assert(w is Some ==> nbv == Some(m.rows@[w->0 as int].0@));
        assert(w is None ==> (nbv is None || !row_keys(*m).contains(nbv->0)));
        proof {
            lemma_row_entries_len(*m, u as int);
            match w {
                Some(k) => {
                    lemma_row_of(*m, k as int);
                    assert(row_keys(*m)[k as int] == m.rows@[k as int].0@);
                    lemma_row_entries_len(*m, k as int);
                },
                None => {},
            }
        }
        assert(t + 1 <= 0xffff_ffff_ffff_ffffu128);
        assert((t as u128) * 0xffff_ffff_ffff_ffffu128 + 0xffff_ffff_ffff_ffffu128 == (t + 1)
            * 0xffff_ffff_ffff_ffffu128) by (nonlinear_arith);
        assert((t + 1) * 0xffff_ffff_ffff_ffffu128 <= 0xffff_ffff_ffff_ffff
            * 0xffff_ffff_ffff_ffffu128) by (nonlinear_arith)
            requires
                t + 1 <= 0xffff_ffff_ffff_ffffu128,
        ;
        let ghost acc0 = acc@;
        let ghost hit0 = hit@;
        if let Some(k) = w {
            let mut c: usize = 0;
            while c < width
                invariant
                    m.wf(),
                    u < m.rows@.len(),
                    k < m.rows@.len(),
                    m.rows@[u as int].1@.len() == width,
                    m.rows@[k as int].1@.len() == width,
                    c <= width == m.businesses@.len(),
                    acc@.len() == width,
                    hit@.len() == width,
                    acc0.len() == width,
                    hit0.len() == width,
                    forall|c2: int|
                        c <= c2 < width ==> acc@[c2] == acc0[c2] && hit@[c2] == hit0[c2],
                    forall|c2: int|
                        0 <= c2 < c ==> #[trigger] acc@[c2] == acc0[c2] + if m.rows@[k as int].1@[c2]
                            == 1 && m.rows@[u as int].1@[c2] != 1 {
                            e.2 as int
                        } else {
                            0int
                        },
                    forall|c2: int|
                        0 <= c2 < c ==> #[trigger] hit@[c2] == (hit0[c2] || (m.rows@[k as int].1@[c2]
                            == 1 && m.rows@[u as int].1@[c2] != 1)),
                    forall|c2: int| 0 <= c2 < width ==> acc0[c2] <= t * 0xffff_ffff_ffff_ffffu128,
                    (t + 1) * 0xffff_ffff_ffff_ffffu128 <= 0xffff_ffff_ffff_ffff
                        * 0xffff_ffff_ffff_ffffu128,
                    (t as u128) * 0xffff_ffff_ffff_ffffu128 + 0xffff_ffff_ffff_ffffu128 == (t + 1)
                        * 0xffff_ffff_ffff_ffffu128,
                decreases width - c,
            {
                if m.rows[k].1[c] == 1 && m.rows[u].1[c] != 1 {
                    let a = acc[c];
                    assert(a == acc0[c as int]);
                    assert(a <= t * 0xffff_ffff_ffff_ffffu128);
                    acc.set(c, a + e.2 as u128);
                    hit.set(c, true);
                }
                c = c + 1;
            }
            proof {
                assert forall|c2: int| 0 <= c2 < width implies #[trigger] acc@[c2] as nat
                    == column_score(*m, next, u as int, user@, c2) && hit@[c2] == voted(
                    *m,
                    next,
                    u as int,
                    user@,
                    c2,
                ) && acc@[c2] <= (t + 1) * 0xffff_ffff_ffff_ffffu128 by {
                    assert(acc0[c2] as nat == column_score(*m, pre, u as int, user@, c2));
                    assert(row_of(*m, m.rows@[k as int].0@) == k);
                    assert(votes_for(*m, sims@[t as int], u as int, user@, c2) == (m.rows@[k as int].1@[c2]
                        == 1 && m.rows@[u as int].1@[c2] != 1));
                }
            }
        } else {
            proof {
                assert forall|c2: int| 0 <= c2 < width implies #[trigger] acc@[c2] as nat
                    == column_score(*m, next, u as int, user@, c2) && hit@[c2] == voted(
                    *m,
                    next,
                    u as int,
                    user@,
                    c2,
                ) && acc@[c2] <= (t + 1) * 0xffff_ffff_ffff_ffffu128 by {
                    assert(acc0[c2] as nat == column_score(*m, pre, u as int, user@, c2));
                    assert(!votes_for(*m, sims@[t as int], u as int, user@, c2));
                }
            }
        }
        t = t + 1;
    }
    assert(sims@.take(t as int) =~= sims@);
    let r = (acc, hit);
    assert(tallied(*m, sims@, u as int, user@, r.0@, r.1@));
    r
}

proof fn lemma_row_entries_len(m: AdjacencyMatrix, k: int)
    requires
        m.wf(),
        0 <= k < m.rows@.len(),
    ensures
        m.rows@[k].1@.len() == m.businesses@.len(),
{
}


/// `v` names the best-scored candidate columns of `user`, at most
/// `TOP_RECOMMENDATIONS` of them, best first; equal scores in lexicographic
/// order of the business identifiers.
pub open spec fn is_recommendation(
    m: AdjacencyMatrix,
    sims: Seq<(String, String, u64)>,
    user: Seq<char>,
    v: Seq<String>,
) -> bool {
    let u = row_of(m, user);
    let cands = candidates(m, sims, u, user, m.businesses@.len() as int);
    exists|idx: Seq<int>|
        {
            &&& is_top(
                candidate_scores(m, sims, u, user),
                names_upto(m, sims, u, user, m.businesses@.len() as int),
                TOP_RECOMMENDATIONS as nat,
                idx,
            )
            &&& v.len() == idx.len()
            &&& forall|t: int|
                0 <= t < v.len() ==> (#[trigger] v[t])@ == m.businesses@[cands[idx[t]]]@
        }
}

/// Recommends businesses to `user_id`: every similarity entry that involves
/// the user adds its score to each business that the other user reviewed
/// and `user_id` did not; the businesses with the largest sums come first,
/// at most `TOP_RECOMMENDATIONS` of them, ties by business identifier. Fails when
/// the user has no row.
pub fn restaurant_recommender(
    user_id: &String,
    similarity_scores: &Vec<(String, String, u64)>,
    adjacency_matrix: &AdjacencyMatrix,
) -> (r: Result<Vec<String>, RecommendError>)
    requires
        adjacency_matrix.wf(),
    ensures
        r is Err <==> !row_keys(*adjacency_matrix).contains(user_id@),
        match r {
            Ok(v) => {
                &&& is_recommendation(*adjacency_matrix, similarity_scores@, user_id@, v@)
                &&& forall|t: int, c: int|
                    0 <= t < v@.len() && 0 <= c < adjacency_matrix.businesses@.len()
                        && adjacency_matrix.rows@[row_of(*adjacency_matrix, user_id@)].1@[c] == 1
                        ==> (#[trigger] v@[t])@ != (#[trigger] adjacency_matrix.businesses@[c])@
                &&& (forall|t: int|
                    0 <= t < similarity_scores@.len() ==> neighbor_of(
                        #[trigger] similarity_scores@[t],
                        user_id@,
                    ) is None) ==> v@.len() == 0
            },
            Err(e) => e == RecommendError::UnknownUser,
        },
{
    let m = adjacency_matrix;
    let sims = similarity_scores;
    let u = match find_row(m, user_id) {
        Some(u) => u,
        None => {
            return Err(RecommendError::UnknownUser);
        },
    };
    proof {
        lemma_row_of(*m, u as int);
        assert(row_keys(*m)[u as int] == user_id@);
    }
    let ghost gu = u as int;
    let (acc, hit) = tally_votes(m, sims, u, user_id);
    let width = m.businesses.len();
    let mut cands: Vec<usize> = Vec::new();
    let mut cs: Vec<u128> = Vec::new();
    let mut cn: Vec<String> = Vec::new();
    let mut c: usize = 0;
    while c < width
        invariant
            c <= width == m.businesses@.len(),
            acc@.len() == width,
            hit@.len() == width,
            forall|c2: int|
                0 <= c2 < width ==> #[trigger] acc@[c2] as nat == column_score(*m, sims@, gu, user_id@, c2)
                    && hit@[c2] == voted(*m, sims@, gu, user_id@, c2),
            as_ints(cands@) == candidates(*m, sims@, gu, user_id@, c as int),
            cs@ == scores_upto(*m, sims@, gu, user_id@, c as int),
            ids(cn@) == names_upto(*m, sims@, gu, user_id@, c as int),
        decreases width - c,
    {
        let ghost old_cands = cands@;
        let ghost old_cs = cs@;
        let ghost old_cn = ids(cn@);
        assert(acc@[c as int] as nat == column_score(*m, sims@, gu, user_id@, c as int));
        if hit[c] {
            cands.push(c);
            cs.push(acc[c]);
            cn.push(m.businesses[c].clone());
            assert(as_ints(cands@) =~= as_ints(old_cands).push(c as int));
        }
        proof {
            let prev = candidates(*m, sims@, gu, user_id@, c as int);
            let cur = candidates(*m, sims@, gu, user_id@, c + 1);
            let ps = scores_upto(*m, sims@, gu, user_id@, c as int);
            let cur_s = scores_upto(*m, sims@, gu, user_id@, c + 1);
            let pn = names_upto(*m, sims@, gu, user_id@, c as int);
            let cur_n = names_upto(*m, sims@, gu, user_id@, c + 1);
            assert(pn.len() == prev.len());
            assert(ps.len() == prev.len());
            if hit@[c as int] {
                assert(cur == prev.push(c as int));
                assert forall|t2: int| 0 <= t2 < cur_s.len() implies cur_s[t2] == cs@[t2] by {
                    if t2 < prev.len() {
                        assert(cur[t2] == prev[t2]);
                        assert(ps[t2] == old_cs[t2]);
                    }
                }
                assert(cs@ =~= cur_s);
                assert forall|t2: int| 0 <= t2 < cur_n.len() implies cur_n[t2] == ids(cn@)[t2] by {
                    if t2 < prev.len() {
                        assert(cur[t2] == prev[t2]);
                        assert(pn[t2] == old_cn[t2]);
                    }
                }
                assert(ids(cn@) =~= cur_n);
            } else {
                assert(cur == prev);
                assert(cs@ =~= cur_s);
                assert(ids(cn@) =~= cur_n);
            }
        }
        c = c + 1;
    }
    let top = top_indices(&cs, &cn, TOP_RECOMMENDATIONS);
    let ghost cands_spec = candidates(*m, sims@, gu, user_id@, width as int);
    let ghost idx = as_ints(top@);
    proof {
        lemma_candidates_below(*m, sims@, gu, user_id@, width as int);
    }
    let mut out: Vec<String> = Vec::new();
    let mut t: usize = 0;
    while t < top.len()
        invariant
            t <= top@.len(),
            idx == as_ints(top@),
            is_top(cs@, ids(cn@), TOP_RECOMMENDATIONS as nat, idx),
            ids(cn@) == names_upto(*m, sims@, gu, user_id@, width as int),
            cs@.len() == cands@.len(),
            as_ints(cands@) == cands_spec,
            width == m.businesses@.len(),
            forall|t2: int|
                0 <= t2 < cands_spec.len() ==> 0 <= #[trigger] cands_spec[t2] < width,
            out@.len() == t,
            forall|t2: int|
                0 <= t2 < t ==> (#[trigger] out@[t2])@ == m.businesses@[cands_spec[idx[t2]]]@,
        decreases top@.len() - t,
    {
        assert(idx[t as int] == top@[t as int] as int);
        let k = top[t];
        assert(as_ints(cands@)[k as int] == cands@[k as int] as int);
        let col = cands[k];
        out.push(m.businesses[col].clone());
        t = t + 1;
    }
    proof {
        assert(cs@ == candidate_scores(*m, sims@, gu, user_id@));
        assert(row_of(*m, user_id@) == gu);
        assert forall|t2: int, c2: int|
            0 <= t2 < out@.len() && 0 <= c2 < m.businesses@.len() && m.rows@[row_of(*m, user_id@)].1@[c2]
                == 1 implies (#[trigger] out@[t2])@ != (#[trigger] m.businesses@[c2])@ by {
            let cc = cands_spec[idx[t2]];
            lemma_voted_unreviewed(*m, sims@, gu, user_id@, cc);
            assert(ids(m.businesses@)[cc] != ids(m.businesses@)[c2]);
        }
        if forall|t2: int|
            0 <= t2 < sims@.len() ==> neighbor_of(#[trigger] sims@[t2], user_id@) is None {
            lemma_no_candidates(*m, sims@, gu, user_id@, width as int);
        }
    }
    Ok(out)
}

} // verus!
