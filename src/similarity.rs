use vstd::prelude::*;
use crate::matrix::{row_keys, row_sum, AdjacencyMatrix};

verus! {

/// Similarities are fixed-point numbers in millionths: `SCALE` stands for 1.
pub const SCALE: u64 = 1_000_000;

/// The dot product of two rows: for 0/1 rows, the number of shared columns.
pub open spec fn shared(r1: Seq<usize>, r2: Seq<usize>) -> nat
    decreases r1.len(),
{
    if r1.len() == 0 || r2.len() == 0 {
        0
    } else {
        shared(r1.drop_last(), r2.drop_last()) + (r1.last() * r2.last()) as nat
    }
}

/// `r` is the integer square root of `x / p`, rounded down.
pub open spec fn is_root(r: nat, x: nat, p: nat) -> bool {
    r * r * p <= x < (r + 1) * (r + 1) * p
}

/// `r` is the cosine `dot / sqrt(p)` in millionths, rounded down:
/// the largest `r` with `(r / SCALE)^2 * p <= dot^2`.
pub open spec fn is_scaled_root(r: nat, dot: nat, p: nat) -> bool {
    is_root(r, (SCALE * SCALE * dot * dot) as nat, p)
}

/// The cosine similarity, in millionths rounded down, of two rows with
/// dot product `dot` whose squared norms multiply to `p`; 0 when a norm is 0.
pub open spec fn scaled_cosine(dot: nat, p: nat) -> nat {
    if p == 0 {
        0
    } else {
        choose|r: nat| is_scaled_root(r, dot, p)
    }
}

/// The similarity of rows `i` and `j` of a matrix.
#[verifier::opaque]
pub open spec fn similarity_at(m: AdjacencyMatrix, i: int, j: int) -> nat {
    scaled_cosine(
        shared(m.rows@[i].1@, m.rows@[j].1@),
        row_sum(m.rows@[i].1@) * row_sum(m.rows@[j].1@),
    )
}

/// `norms` holds, row by row, each user with the squared norm of its row.
pub open spec fn norms_of(m: AdjacencyMatrix, norms: Seq<(String, usize)>) -> bool {
    &&& norms.len() == m.rows@.len()
    &&& forall|k: int|
        0 <= k < norms.len() ==> (#[trigger] norms[k]).0@ == m.rows@[k].0@ && norms[k].1 as nat
            == row_sum(m.rows@[k].1@)
}

proof fn lemma_root_unique(r: nat, s: nat, x: nat, p: nat)
    requires
        p > 0,
        r * r * p <= x < (r + 1) * (r + 1) * p,
        s * s * p <= x < (s + 1) * (s + 1) * p,
    ensures
        r == s,
{
    if r < s {
        assert((r + 1) * (r + 1) <= s * s) by (nonlinear_arith)
            requires
                r + 1 <= s,
        ;
        assert((r + 1) * (r + 1) * p <= s * s * p) by (nonlinear_arith)
            requires
                (r + 1) * (r + 1) <= s * s,
                p > 0,
        ;
    } else if s < r {
        assert((s + 1) * (s + 1) <= r * r) by (nonlinear_arith)
            requires
                s + 1 <= r,
        ;
        assert((s + 1) * (s + 1) * p <= r * r * p) by (nonlinear_arith)
            requires
                (s + 1) * (s + 1) <= r * r,
                p > 0,
        ;
    }
}

proof fn lemma_shared_symmetric(r1: Seq<usize>, r2: Seq<usize>)
    requires
        r1.len() == r2.len(),
    ensures
        shared(r1, r2) == shared(r2, r1),
    decreases r1.len(),
{
    if r1.len() > 0 {
        lemma_shared_symmetric(r1.drop_last(), r2.drop_last());
        assert(r1.last() * r2.last() == r2.last() * r1.last()) by (nonlinear_arith);
    }
}

proof fn lemma_shared_bounded(r1: Seq<usize>, r2: Seq<usize>)
    requires
        r1.len() == r2.len(),
        forall|c: int| 0 <= c < r1.len() ==> r1[c] <= 1,
        forall|c: int| 0 <= c < r2.len() ==> r2[c] <= 1,
    ensures
        shared(r1, r2) <= row_sum(r1),
        shared(r1, r2) <= row_sum(r2),
        row_sum(r1) <= r1.len(),
    decreases r1.len(),
{
    if r1.len() > 0 {
        lemma_shared_bounded(r1.drop_last(), r2.drop_last());
        let a = r1.last();
        let b = r2.last();
        assert(a * b <= a && a * b <= b) by (nonlinear_arith)
            requires
                a <= 1,
                b <= 1,
        ;
    }
}

/// The similarity of any two rows reads the same both ways round and lies
/// between 0 and 1 (`SCALE`).
pub proof fn lemma_similarity_symmetric(m: AdjacencyMatrix, i: int, j: int)
    requires
        m.wf(),
        0 <= i < m.rows@.len(),
        0 <= j < m.rows@.len(),
    ensures
        similarity_at(m, i, j) == similarity_at(m, j, i),
        similarity_at(m, i, j) <= SCALE,
{
    reveal(similarity_at);
    let r1 = m.rows@[i].1@;
    let r2 = m.rows@[j].1@;
    lemma_shared_symmetric(r1, r2);
    let n1 = row_sum(r1);
    let n2 = row_sum(r2);
    assert(n1 * n2 == n2 * n1) by (nonlinear_arith);
    assert forall|c: int| 0 <= c < r1.len() implies r1[c] <= 1 by {
        assert(m.rows@[i].1@[c] <= 1);
    }
    assert forall|c: int| 0 <= c < r2.len() implies r2[c] <= 1 by {
        assert(m.rows@[j].1@[c] <= 1);
    }
    lemma_shared_bounded(r1, r2);
    let d = shared(r1, r2);
    let p = n1 * n2;
    if p > 0 {
        let r = scaled_cosine(d, p);
        lemma_scaled_root_exists(d, n1, n2);
        assert(r * r * p <= SCALE * SCALE * d * d);
        assert(d * d <= p) by (nonlinear_arith)
            requires
                d <= n1,
                d <= n2,
                p == n1 * n2,
        ;
        assert(r <= SCALE) by (nonlinear_arith)
            requires
                r * r * p <= SCALE * SCALE * d * d,
                d * d <= p,
                p > 0,
        ;
    }
}

/// Some fixed-point root exists: the one that the search below finds.
proof fn lemma_scaled_root_exists(d: nat, n1: nat, n2: nat)
    requires
        d <= n1,
        d <= n2,
        n1 * n2 > 0,
    ensures
        exists|r: nat| #[trigger] is_scaled_root(r, d, n1 * n2),
    decreases SCALE + 1,
{
    let p = n1 * n2;
    let x: nat = (SCALE * SCALE * d * d) as nat;
    assert(d * d <= p) by (nonlinear_arith)
        requires
            d <= n1,
            d <= n2,
            p == n1 * n2,
    ;
    assert(x < (SCALE + 1) * (SCALE + 1) * p) by (nonlinear_arith)
        requires
            d * d <= p,
            p > 0,
            x == SCALE * SCALE * d * d,
    ;
    assert(0nat * 0nat * p == 0) by (nonlinear_arith);
    lemma_root_search(x, p, 0, SCALE as nat + 1);
    let r = choose|r: nat| is_root(r, x, p);
    assert(is_scaled_root(r, d, n1 * n2));
}

proof fn lemma_root_search(x: nat, p: nat, lo: nat, hi: nat)
    requires
        lo < hi,
        lo * lo * p <= x,
        x < hi * hi * p,
    ensures
        exists|r: nat| #[trigger] is_root(r, x, p),
    decreases hi - lo,
{
    if hi == lo + 1 {
        assert(is_root(lo, x, p));
    } else {
        let mid: nat = lo + ((hi - lo) / 2) as nat;
        if mid * mid * p <= x {
            lemma_root_search(x, p, mid, hi);
        } else {
            lemma_root_search(x, p, lo, mid);
        }
    }
}

/// The cosine `dot / sqrt(n1 * n2)` in millionths, rounded down; 0 when a
/// norm is 0.
fn scaled_cosine_of(dot: usize, n1: usize, n2: usize) -> (r: u64)
    requires
        dot <= n1,
        dot <= n2,
        n1 <= u32::MAX,
        n2 <= u32::MAX,
    ensures
        r == scaled_cosine(dot as nat, n1 as nat * n2 as nat),
        r <= SCALE,
{
    if n1 == 0 || n2 == 0 {
        assert(n1 as nat * n2 as nat == 0) by (nonlinear_arith)
            requires
                n1 == 0 || n2 == 0,
        ;
        return 0;
    }
    let ghost pn: nat = n1 as nat * n2 as nat;
    assert((n1 as u128) * (n2 as u128) <= 0xffff_ffff * 0xffff_ffffu128) by (nonlinear_arith)
        requires
            n1 <= 0xffff_ffff,
            n2 <= 0xffff_ffff,
    ;
    let p: u128 = (n1 as u128) * (n2 as u128);
    let d: u128 = dot as u128;
    let s: u128 = SCALE as u128;
    assert(d <= 0xffff_ffff);
    assert(p > 0) by (nonlinear_arith)
        requires
            p == n1 * n2,
            n1 > 0,
            n2 > 0,
    ;
    assert(d * d <= p) by (nonlinear_arith)
        requires
            d <= n1,
            d <= n2,
            p == n1 * n2,
    ;
    assert(p <= 0xffff_ffff * 0xffff_ffffu128) by (nonlinear_arith)
        requires
            p == n1 * n2,
            n1 <= 0xffff_ffff,
            n2 <= 0xffff_ffff,
    ;
    assert(s * s * d * d <= s * s * p) by (nonlinear_arith)
        requires
            d * d <= p,
    ;
    assert(s * s * d * d <= 1_000_000_000_000 * 0xffff_ffff * 0xffff_ffffu128) by (nonlinear_arith)
        requires
            s == 1_000_000,
            d <= 0xffff_ffff,
    ;
    assert(s * s * d <= 1_000_000_000_000 * 0xffff_ffffu128) by (nonlinear_arith)
        requires
            s == 1_000_000,
            d <= 0xffff_ffff,
    ;
    let x: u128 = s * s * d * d;
    let mut lo: u128 = 0;
    let mut hi: u128 = s + 1;
    assert(lo * lo * p == 0) by (nonlinear_arith)
        requires
            lo == 0,
    ;
    assert(x < hi * hi * p) by (nonlinear_arith)
        requires
            d * d <= p,
            p > 0,
            x == s * s * d * d,
            hi == s + 1,
    ;
    while hi - lo > 1
        invariant
            lo < hi <= s + 1,
            s == SCALE,
            p > 0,
            p <= 0xffff_ffff * 0xffff_ffffu128,
            lo * lo * p <= x,
            x < hi * hi * p,
        decreases hi - lo,
    {
        let mid = lo + (hi - lo) / 2;
        assert(mid * mid <= 1_000_001 * 1_000_001u128 && mid * mid * p <= 1_000_001 * 1_000_001
            * 0xffff_ffff * 0xffff_ffffu128) by (nonlinear_arith)
            requires
                mid <= s + 1,
                s == 1_000_000,
                p <= 0xffff_ffff * 0xffff_ffffu128,
        ;
        if mid * mid * p <= x {
            lo = mid;
        } else {
            hi = mid;
        }
    }
    assert(lo * lo * pn <= x < (lo + 1) * (lo + 1) * pn);
    proof {
        lemma_scaled_root_exists(dot as nat, n1 as nat, n2 as nat);
        let c = choose|r: nat| is_scaled_root(r, dot as nat, pn);
        lemma_root_unique(lo as nat, c, x as nat, pn);
    }
    lo as u64
}


proof fn lemma_row_entries(m: AdjacencyMatrix, k: int)
    requires
        m.wf(),
        0 <= k < m.rows@.len(),
    ensures
        forall|c: int| 0 <= c < m.rows@[k].1@.len() ==> m.rows@[k].1@[c] <= 1,
        m.rows@[k].1@.len() == m.businesses@.len(),
{
    assert forall|c: int| 0 <= c < m.rows@[k].1@.len() implies m.rows@[k].1@[c] <= 1 by {
        assert(m.rows@[k].1@[c] <= 1);
    }
}

/// The number of 1 entries of a 0/1 row: its squared norm.
fn count_present(row: &Vec<usize>) -> (r: usize)
    requires
        forall|c: int| 0 <= c < row@.len() ==> row@[c] <= 1,
    ensures
        r == row_sum(row@),
{
    let mut total: usize = 0;
    let mut c: usize = 0;
    assert(row@.take(0) =~= Seq::<usize>::empty());
    while c < row.len()
        invariant
            c <= row@.len(),
            forall|c2: int| 0 <= c2 < row@.len() ==> row@[c2] <= 1,
            total == row_sum(row@.take(c as int)),
            total <= c,
        decreases row@.len() - c,
    {
        assert(row@.take(c + 1).drop_last() =~= row@.take(c as int));
        total = total + row[c];
        c = c + 1;
    }
    assert(row@.take(c as int) =~= row@);
    total
}

/// The number of columns in which two 0/1 rows of one length both hold 1.
fn count_shared(r1: &Vec<usize>, r2: &Vec<usize>) -> (r: usize)
    requires
        r1@.len() == r2@.len(),
        forall|c: int| 0 <= c < r1@.len() ==> r1@[c] <= 1,
        forall|c: int| 0 <= c < r2@.len() ==> r2@[c] <= 1,
    ensures
        r == shared(r1@, r2@),
{
    let mut total: usize = 0;
    let mut c: usize = 0;
    while c < r1.len()
        invariant
            c <= r1@.len() == r2@.len(),
            forall|c2: int| 0 <= c2 < r1@.len() ==> r1@[c2] <= 1,
            forall|c2: int| 0 <= c2 < r2@.len() ==> r2@[c2] <= 1,
            total == shared(r1@.take(c as int), r2@.take(c as int)),
            total <= c,
        decreases r1@.len() - c,
    {
        assert(r1@.take(c + 1).drop_last() =~= r1@.take(c as int));
        assert(r2@.take(c + 1).drop_last() =~= r2@.take(c as int));
        let a = r1[c];
        let b = r2[c];
        assert(a * b <= 1) by (nonlinear_arith)
            requires
                a <= 1,
                b <= 1,
        ;
        total = total + a * b;
        c = c + 1;
    }
    assert(r1@.take(c as int) =~= r1@);
    assert(r2@.take(c as int) =~= r2@);
    total
}

/// Each user of the matrix with the squared Euclidean norm of its row,
/// which for a 0/1 row is the number of businesses the user reviewed.
pub fn precompute_norms(adjacency_matrix: &AdjacencyMatrix) -> (r: Vec<(String, usize)>)
    requires
        adjacency_matrix.wf(),
    ensures
        norms_of(*adjacency_matrix, r@),
{
    let rows = &adjacency_matrix.rows;
    let mut r: Vec<(String, usize)> = Vec::new();
    let mut k: usize = 0;
    while k < rows.len()
        invariant
            rows == &adjacency_matrix.rows,
            adjacency_matrix.wf(),
            k <= rows@.len(),
            r@.len() == k,
            forall|t: int|
                0 <= t < k ==> (#[trigger] r@[t]).0@ == rows@[t].0@ && r@[t].1 as nat == row_sum(
                    rows@[t].1@,
                ),
        decreases rows@.len() - k,
    {
        proof {
            lemma_row_entries(*adjacency_matrix, k as int);
        }
        let n = count_present(&rows[k].1);
        r.push((rows[k].0.clone(), n));
        k = k + 1;
    }
    r
}

/// The index of the row of `user`, if the matrix has one.
pub(crate) fn find_row(m: &AdjacencyMatrix, user: &String) -> (r: Option<usize>)
    ensures
        match r {
            Some(k) => k < m.rows@.len() && m.rows@[k as int].0@ == user@,
            None => !row_keys(*m).contains(user@),
        },
{
    let mut i: usize = 0;
    while i < m.rows.len()
        invariant
            i <= m.rows@.len(),
            forall|k: int| 0 <= k < i ==> m.rows@[k].0@ != user@,
        decreases m.rows@.len() - i,
    {
        if m.rows[i].0 == *user {
            return Some(i);
        }
        i = i + 1;
    }
    proof {
        assert forall|k: int| 0 <= k < row_keys(*m).len() implies row_keys(*m)[k] != user@ by {}
    }
    None
}

/// The similarity of rows `i` and `j`, given their squared norms.
fn similarity_of_rows(m: &AdjacencyMatrix, i: usize, j: usize, n1: usize, n2: usize) -> (r: u64)
    requires
        m.wf(),
        i < m.rows@.len(),
        j < m.rows@.len(),
        m.businesses@.len() <= u32::MAX,
        n1 == row_sum(m.rows@[i as int].1@),
        n2 == row_sum(m.rows@[j as int].1@),
    ensures
        r == similarity_at(*m, i as int, j as int),
        r <= SCALE,
{
    proof {
        reveal(similarity_at);
        lemma_row_entries(*m, i as int);
        lemma_row_entries(*m, j as int);
        lemma_shared_bounded(m.rows@[i as int].1@, m.rows@[j as int].1@);
        lemma_shared_bounded(m.rows@[j as int].1@, m.rows@[i as int].1@);
    }
    let d = count_shared(&m.rows[i].1, &m.rows[j].1);
    scaled_cosine_of(d, n1, n2)
}

/// The cosine similarity of two users' rows, in millionths rounded down:
/// the number of businesses both reviewed over the product of the norms;
/// 0 when either user reviewed nothing. The fixed-point arithmetic holds
/// for up to `u32::MAX` businesses.
pub fn cosine_similarity(
    user_id1: &String,
    user_id2: &String,
    adjacency_matrix: &AdjacencyMatrix,
    precomputed_norms: &Vec<(String, usize)>,
) -> (r: u64)
    requires
        adjacency_matrix.wf(),
        norms_of(*adjacency_matrix, precomputed_norms@),
        adjacency_matrix.businesses@.len() <= u32::MAX,
        row_keys(*adjacency_matrix).contains(user_id1@),
        row_keys(*adjacency_matrix).contains(user_id2@),
    ensures
        forall|i: int, j: int|
            0 <= i < adjacency_matrix.rows@.len() && 0 <= j < adjacency_matrix.rows@.len()
                && adjacency_matrix.rows@[i].0@ == user_id1@ && adjacency_matrix.rows@[j].0@
                == user_id2@ ==> r == #[trigger] similarity_at(*adjacency_matrix, i, j),
        r <= SCALE,
{
    let i = match find_row(adjacency_matrix, user_id1) {
        Some(i) => i,
        None => {
            assert(false);
            0
        },
    };
    let j = match find_row(adjacency_matrix, user_id2) {
        Some(j) => j,
        None => {
            assert(false);
            0
        },
    };
    assert(precomputed_norms@[i as int].0@ == adjacency_matrix.rows@[i as int].0@);
    assert(precomputed_norms@[j as int].0@ == adjacency_matrix.rows@[j as int].0@);
    let r = similarity_of_rows(
        adjacency_matrix,
        i,
        j,
        precomputed_norms[i].1,
        precomputed_norms[j].1,
    );
    proof {
        assert forall|i2: int, j2: int|
            0 <= i2 < adjacency_matrix.rows@.len() && 0 <= j2 < adjacency_matrix.rows@.len()
                && adjacency_matrix.rows@[i2].0@ == user_id1@ && adjacency_matrix.rows@[j2].0@
                == user_id2@ implies r == #[trigger] similarity_at(*adjacency_matrix, i2, j2) by {
            assert(row_keys(*adjacency_matrix)[i2] == row_keys(*adjacency_matrix)[i as int]);
            assert(row_keys(*adjacency_matrix)[j2] == row_keys(*adjacency_matrix)[j as int]);
        }
    }
    r
}


/// Rows `i` and `j` have a 1 in a common column: the two users reviewed a
/// business in common.
pub open spec fn rows_share(m: AdjacencyMatrix, i: int, j: int) -> bool {
    shared(m.rows@[i].1@, m.rows@[j].1@) > 0
}

/// `(a, b)` comes before `(c, d)` in row-major order.
pub open spec fn pair_before(x: (int, int), y: (int, int)) -> bool {
    x.0 < y.0 || (x.0 == y.0 && x.1 < y.1)
}

/// Entry `t` of a similarity table is the pair of rows `(i, j)` with its
/// similarity.
pub open spec fn entry_is(
    m: AdjacencyMatrix,
    scores: Seq<(String, String, u64)>,
    t: int,
    i: int,
    j: int,
) -> bool {
    &&& scores[t].0@ == m.rows@[i].0@
    &&& scores[t].1@ == m.rows@[j].0@
    &&& scores[t].2 as nat == similarity_at(m, i, j)
}

/// The first entries of a similarity table, positioned at the row pairs
/// `pos`, hold every pair before `(i, j)` whose similarity is above 0, in
/// row-major order.
#[verifier::opaque]
pub open spec fn table_upto(
    m: AdjacencyMatrix,
    scores: Seq<(String, String, u64)>,
    pos: Seq<(int, int)>,
    i: int,
    j: int,
) -> bool {
    &&& scores.len() == pos.len()
    &&& forall|t: int|
        0 <= t < pos.len() ==> 0 <= (#[trigger] pos[t]).0 < pos[t].1 < m.rows@.len()
            && pair_before(pos[t], (i, j)) && entry_is(m, scores, t, pos[t].0, pos[t].1)
            && rows_share(m, pos[t].0, pos[t].1)
    &&& forall|t1: int, t2: int|
        0 <= t1 < t2 < pos.len() ==> pair_before(#[trigger] pos[t1], #[trigger] pos[t2])
    &&& forall|a: int, b: int|
        0 <= a < b < m.rows@.len() && pair_before((a, b), (i, j)) && #[trigger] rows_share(
            m,
            a,
            b,
        ) ==> exists|t: int| 0 <= t < pos.len() && pos[t] == (a, b)
}

proof fn lemma_table_start(m: AdjacencyMatrix)
    ensures
        table_upto(m, seq![], seq![], 0, 1),
{
    reveal(table_upto);
}

proof fn lemma_table_skip(
    m: AdjacencyMatrix,
    scores: Seq<(String, String, u64)>,
    pos: Seq<(int, int)>,
    i: int,
    j: int,
)
    requires
        table_upto(m, scores, pos, i, j),
        0 <= i < j < m.rows@.len(),
        !rows_share(m, i, j),
    ensures
        table_upto(m, scores, pos, i, j + 1),
{
    reveal(table_upto);
}

proof fn lemma_table_push(
    m: AdjacencyMatrix,
    scores: Seq<(String, String, u64)>,
    pos: Seq<(int, int)>,
    i: int,
    j: int,
    e: (String, String, u64),
)
    requires
        table_upto(m, scores, pos, i, j),
        0 <= i < j < m.rows@.len(),
        e.0@ == m.rows@[i].0@,
        e.1@ == m.rows@[j].0@,
        e.2 as nat == similarity_at(m, i, j),
        rows_share(m, i, j),
    ensures
        table_upto(m, scores.push(e), pos.push((i, j)), i, j + 1),
{
    reveal(table_upto);
    let scores2 = scores.push(e);
    let pos2 = pos.push((i, j));
    assert forall|t: int| 0 <= t < pos2.len() implies 0 <= (#[trigger] pos2[t]).0 < pos2[t].1
        < m.rows@.len() && pair_before(pos2[t], (i, j + 1)) && entry_is(m, scores2, t, pos2[t].0, pos2[t].1)
        && rows_share(m, pos2[t].0, pos2[t].1) by {
        if t < pos.len() {
            assert(pos2[t] == pos[t]);
            assert(scores2[t] == scores[t]);
        }
    }
    assert forall|a: int, b: int|
        0 <= a < b < m.rows@.len() && pair_before((a, b), (i, j + 1)) && #[trigger] rows_share(
            m,
            a,
            b,
        ) implies exists|t: int| 0 <= t < pos2.len() && pos2[t] == (a, b) by {
        if pair_before((a, b), (i, j)) {
            let t = choose|t: int| 0 <= t < pos.len() && pos[t] == (a, b);
            assert(pos2[t] == (a, b));
        } else {
            assert(pos2[pos.len() as int] == (a, b));
        }
    }
}

proof fn lemma_table_next_row(
    m: AdjacencyMatrix,
    scores: Seq<(String, String, u64)>,
    pos: Seq<(int, int)>,
    i: int,
)
    requires
        table_upto(m, scores, pos, i, m.rows@.len() as int),
        0 <= i < m.rows@.len(),
    ensures
        table_upto(m, scores, pos, i + 1, i + 2),
{
    reveal(table_upto);
}

/// Entry `t` of a similarity table is some pair of rows that share a
/// column, the first before the second, with its similarity.
pub open spec fn is_pair_entry(m: AdjacencyMatrix, scores: Seq<(String, String, u64)>, t: int) -> bool {
    exists|i: int, j: int|
        0 <= i < j < m.rows@.len() && #[trigger] entry_is(m, scores, t, i, j) && rows_share(m, i, j)
}

/// No two entries of a similarity table are for the same pair of users,
/// in either order.
pub open spec fn pairs_unique(scores: Seq<(String, String, u64)>) -> bool {
    forall|t1: int, t2: int|
        0 <= t1 < scores.len() && 0 <= t2 < scores.len() && t1 != t2 ==> !(scores[t1].0@
            == scores[t2].0@ && scores[t1].1@ == scores[t2].1@) && !(#[trigger] scores[t1].0@
            == #[trigger] scores[t2].1@ && scores[t1].1@ == scores[t2].0@)
}

proof fn lemma_table_entries(m: AdjacencyMatrix, scores: Seq<(String, String, u64)>, pos: Seq<(int, int)>, n: int)
    requires
        table_upto(m, scores, pos, n, n + 1),
    ensures
        forall|t: int| 0 <= t < scores.len() ==> #[trigger] is_pair_entry(m, scores, t),
{
    reveal(table_upto);
    assert forall|t: int| 0 <= t < scores.len() implies #[trigger] is_pair_entry(m, scores, t) by {
        assert(entry_is(m, scores, t, pos[t].0, pos[t].1));
    }
}

proof fn lemma_table_complete(m: AdjacencyMatrix, scores: Seq<(String, String, u64)>, pos: Seq<(int, int)>)
    requires
        table_upto(m, scores, pos, m.rows@.len() as int, m.rows@.len() as int + 1),
    ensures
        forall|i: int, j: int|
            0 <= i < j < m.rows@.len() && #[trigger] rows_share(m, i, j) ==> exists|t: int|
                0 <= t < scores.len() && #[trigger] entry_is(m, scores, t, i, j),
{
    reveal(table_upto);
    assert forall|a: int, b: int|
        0 <= a < b < m.rows@.len() && #[trigger] rows_share(m, a, b) implies exists|t: int|
        0 <= t < scores.len() && #[trigger] entry_is(m, scores, t, a, b) by {
        assert(pair_before((a, b), (m.rows@.len() as int, m.rows@.len() as int + 1)));
        let t = choose|t: int| 0 <= t < pos.len() && pos[t] == (a, b);
        assert(entry_is(m, scores, t, a, b));
    }
}

proof fn lemma_table_unique(m: AdjacencyMatrix, scores: Seq<(String, String, u64)>, pos: Seq<(int, int)>, n: int)
    requires
        m.wf(),
        table_upto(m, scores, pos, n, n + 1),
    ensures
        pairs_unique(scores),
{
    reveal(table_upto);
    assert forall|t1: int, t2: int|
        0 <= t1 < scores.len() && 0 <= t2 < scores.len() && t1 != t2 implies !(scores[t1].0@
        == scores[t2].0@ && scores[t1].1@ == scores[t2].1@) && !(#[trigger] scores[t1].0@
        == #[trigger] scores[t2].1@ && scores[t1].1@ == scores[t2].0@) by {
        let pos1 = pos[t1];
        let pos2 = pos[t2];
        if t1 < t2 {
            assert(pair_before(pos1, pos2));
        } else {
            assert(pair_before(pos2, pos1));
        }
        if scores[t1].0@ == scores[t2].0@ && scores[t1].1@ == scores[t2].1@ {
            assert(row_keys(m)[pos1.0] == row_keys(m)[pos2.0]);
            assert(row_keys(m)[pos1.1] == row_keys(m)[pos2.1]);
        }
        if scores[t1].0@ == scores[t2].1@ && scores[t1].1@ == scores[t2].0@ {
            assert(row_keys(m)[pos1.0] == row_keys(m)[pos2.1]);
            assert(row_keys(m)[pos1.1] == row_keys(m)[pos2.0]);
        }
    }
}

/// The similarity table of all pairs of users who reviewed a business in
/// common: each pair `(a, b)`, with `a`'s row before `b`'s, appears once,
/// exactly when its similarity is above 0, with that similarity.
pub fn calculate_user_similarity(
    adjacency_matrix: &AdjacencyMatrix,
    precomputed_norms: &Vec<(String, usize)>,
) -> (r: Vec<(String, String, u64)>)
    requires
        adjacency_matrix.wf(),
        norms_of(*adjacency_matrix, precomputed_norms@),
        adjacency_matrix.businesses@.len() <= u32::MAX,
    ensures
        forall|t: int| 0 <= t < r@.len() ==> #[trigger] is_pair_entry(*adjacency_matrix, r@, t),
        forall|i: int, j: int|
            0 <= i < j < adjacency_matrix.rows@.len() && #[trigger] rows_share(
                *adjacency_matrix,
                i,
                j,
            ) ==> exists|t: int| 0 <= t < r@.len() && #[trigger] entry_is(*adjacency_matrix, r@, t, i, j),
        pairs_unique(r@),
{
    let m = adjacency_matrix;
    let n = m.rows.len();
    let mut scores: Vec<(String, String, u64)> = Vec::new();
    let ghost mut pos: Seq<(int, int)> = seq![];
    let mut i: usize = 0;
    proof {
        lemma_table_start(*m);
        assert(scores@ =~= seq![]);
    }
    while i < n
        invariant
            m.wf(),
            norms_of(*m, precomputed_norms@),
            m.businesses@.len() <= u32::MAX,
            n == m.rows@.len(),
            i <= n,
            table_upto(*m, scores@, pos, i as int, i + 1),
        decreases n - i,
    {
        let mut j: usize = i + 1;
        while j < n
            invariant
                m.wf(),
                norms_of(*m, precomputed_norms@),
                m.businesses@.len() <= u32::MAX,
                n == m.rows@.len(),
                i < n,
                i + 1 <= j <= n,
                table_upto(*m, scores@, pos, i as int, j as int),
            decreases n - j,
        {
            assert(precomputed_norms@[i as int].0@ == m.rows@[i as int].0@);
            assert(precomputed_norms@[j as int].0@ == m.rows@[j as int].0@);
            proof {
                lemma_row_entries(*m, i as int);
                lemma_row_entries(*m, j as int);
            }
            let d = count_shared(&m.rows[i].1, &m.rows[j].1);
            let ghost old_scores = scores@;
            if d > 0 {
                let sim = similarity_of_rows(
                    m,
                    i,
                    j,
                    precomputed_norms[i].1,
                    precomputed_norms[j].1,
                );
                let e = (m.rows[i].0.clone(), m.rows[j].0.clone(), sim);
                scores.push(e);
                proof {
                    lemma_table_push(*m, old_scores, pos, i as int, j as int, e);
                    pos = pos.push((i as int, j as int));
                }
            } else {
                proof {
                    lemma_table_skip(*m, scores@, pos, i as int, j as int);
                }
            }
            j = j + 1;
        }
        proof {
            lemma_table_next_row(*m, scores@, pos, i as int);
        }
        i = i + 1;
    }
    proof {
        lemma_table_entries(*m, scores@, pos, n as int);
        lemma_table_complete(*m, scores@, pos);
        lemma_table_unique(*m, scores@, pos, n as int);
    }
    scores
}

} // verus!
