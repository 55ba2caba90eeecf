//! Which kernels read and feed which channels.

use crate::field::flatten;
use vstd::prelude::*;

verus! {

use crate::field::{is_plane, lemma_row_major_at};

/// How many kernels lead from each channel to each channel.
#[verifier::external_body]
pub struct ConnectivityMatrix {
    counts: ndarray::Array2<i32>,
}

/// The rows of a matrix.
pub uninterp spec fn matrix_rows(m: ConnectivityMatrix) -> Seq<Seq<i32>>;

/// Calls `ndarray::Array2::from_shape_vec`, which takes as many numbers as the extent
/// has places, row by row. The extent is held to 32 bits, below the crate's own bound.
#[verifier::external_body]
fn array_from_rows(rows: usize, cols: usize, flat: Vec<i32>) -> (m: ConnectivityMatrix)
    requires
        rows <= 0x7fff_ffff,
        cols <= 0x7fff_ffff,
        rows * cols == flat@.len(),
    ensures
        matrix_rows(m) == Seq::new(
            rows as nat,
            |i: int| Seq::new(cols as nat, |j: int| flat@[i * cols + j]),
        ),
{
    ConnectivityMatrix {
        counts: ndarray::Array2::from_shape_vec((rows, cols), flat).unwrap(),
    }
}

/// Calls `ndarray::ArrayBase::nrows`, which gives the extent of the first axis.
#[verifier::external_body]
fn array_rows(m: &ConnectivityMatrix) -> (n: usize)
    ensures
        n == matrix_rows(*m).len(),
{
    m.counts.nrows()
}

/// Indexes an `ndarray::Array2` by row and column, which gives the number at a place
/// that exists.
#[verifier::external_body]
fn array_at(m: &ConnectivityMatrix, s: usize, t: usize) -> (n: i32)
    requires
        s < matrix_rows(*m).len(),
        t < matrix_rows(*m)[s as int].len(),
    ensures
        n == matrix_rows(*m)[s as int][t as int],
{
    m.counts[[s, t]]
}

impl ConnectivityMatrix {
    /// A matrix from its rows, all of one length.
    pub fn new(rows: &Vec<Vec<i32>>, cols: usize) -> (m: Self)
        requires
            is_plane(rows@, rows@.len() as int, cols as int),
            rows@.len() <= 0x7fff_ffff,
            cols <= 0x7fff_ffff,
        ensures
            matrix_rows(m).len() == rows@.len(),
            forall|i: int|
                0 <= i < rows@.len() ==> #[trigger] matrix_rows(m)[i] == rows@[i]@,
    {
        let flat: Vec<i32> = flatten(rows);
        proof {
            lemma_row_major_at(rows@, rows@.len() as int, cols as int, rows@.len());
        }
        let m = array_from_rows(rows.len(), cols, flat);
        assert forall|i: int| 0 <= i < rows@.len() implies #[trigger] matrix_rows(m)[i]
            == rows@[i]@ by {
            assert(matrix_rows(m)[i] =~= rows@[i]@);
        }
        m
    }
}

/// Whether a matrix has a row and a column for every channel and no negative count.
pub open spec fn is_connectivity(m: Seq<Seq<i32>>) -> bool {
    &&& forall|s: int| 0 <= s < m.len() ==> (#[trigger] m[s]).len() >= m.len()
    &&& forall|s: int, t: int| 0 <= s < m.len() && 0 <= t < m.len() ==> #[trigger] m[s][t] >= 0
}

/// The kernels of the first `p` pairs of channels, pairs taken row by row.
pub open spec fn kernels_before(m: Seq<Seq<i32>>, p: nat) -> int
    decreases p,
{
    if p == 0 {
        0
    } else {
        let q = p - 1;
        kernels_before(m, q as nat) + m[q / (m.len() as int)][q % (m.len() as int)]
    }
}

/// The source channel of each of those kernels.
pub open spec fn sources(m: Seq<Seq<i32>>, p: nat) -> Seq<usize>
    decreases p,
{
    if p == 0 {
        seq![]
    } else {
        let q = p - 1;
        let s = q / (m.len() as int);
        sources(m, q as nat) + Seq::new(
            m[s][q % (m.len() as int)] as nat,
            |i: int| s as usize,
        )
    }
}

/// Those of the kernels that feed channel `t`.
pub open spec fn feeders(m: Seq<Seq<i32>>, t: int, p: nat) -> Seq<usize>
    decreases p,
{
    if p == 0 {
        seq![]
    } else {
        let q = p - 1;
        let c = m.len() as int;
        let before = feeders(m, t, q as nat);
        if q % c == t {
            before + Seq::new(
                m[q / c][t] as nat,
                |i: int| (kernels_before(m, q as nat) + i) as usize,
            )
        } else {
            before
        }
    }
}

/// Fewer pairs have no more kernels.
proof fn lemma_kernels_monotone(m: Seq<Seq<i32>>, p: nat, q: nat)
    requires
        is_connectivity(m),
        p <= q <= m.len() * m.len(),
    ensures
        0 <= kernels_before(m, p) <= kernels_before(m, q),
    decreases q,
{
    if q > 0 {
        let r = q - 1;
        let c = m.len() as int;
        assert(c > 0) by (nonlinear_arith)
            requires
                q > 0,
                q <= c * c,
                c >= 0,
        ;
        assert(0 <= r / c < c && 0 <= r % c < c) by (nonlinear_arith)
            requires
                0 <= r < c * c,
                c > 0,
        ;
        assert(m[r / c][r % c] >= 0);
        if p < q {
            lemma_kernels_monotone(m, p, r as nat);
        } else {
            lemma_kernels_monotone(m, r as nat, r as nat);
        }
    }
}

/// Kernels, source by source and target by target: the source channel of each kernel, and
/// for each channel the kernels that feed it.
pub fn conn_from_matrix(mat: &ConnectivityMatrix) -> (conn: (Vec<usize>, Vec<Vec<usize>>))
    requires
        is_connectivity(matrix_rows(*mat)),
        matrix_rows(*mat).len() * matrix_rows(*mat).len() <= usize::MAX,
        kernels_before(
            matrix_rows(*mat),
            matrix_rows(*mat).len() * matrix_rows(*mat).len(),
        ) <= usize::MAX,
    ensures
        ({
            let m = matrix_rows(*mat);
            let all = m.len() * m.len();
            &&& conn.0@ == sources(m, all)
            &&& conn.1@.len() == m.len()
            &&& forall|t: int| 0 <= t < m.len() ==> #[trigger] conn.1@[t]@ == feeders(m, t, all)
        }),
{
    let ghost m = matrix_rows(*mat);
    let c: usize = array_rows(mat);
    let mut c0: Vec<usize> = Vec::new();
    let mut c1: Vec<Vec<usize>> = Vec::new();
    let mut t: usize = 0;
    while t < c
        invariant
            t <= c,
            c == m.len(),
            c1@.len() == t,
            forall|u: int| 0 <= u < t ==> #[trigger] c1@[u]@ == feeders(m, u, 0),
        decreases c - t,
    {
        c1.push(Vec::new());
        t = t + 1;
    }
    let mut i: usize = 0;
    let mut s: usize = 0;
    assert(0 * c == 0) by (nonlinear_arith);
    while s < c
        invariant
            s <= c,
            c == m.len(),
            m == matrix_rows(*mat),
            is_connectivity(m),
            c * c <= usize::MAX,
            kernels_before(m, (c * c) as nat) <= usize::MAX,
            i == kernels_before(m, (s * c) as nat),
            c0@ == sources(m, (s * c) as nat),
            c1@.len() == c,
            forall|u: int|
                0 <= u < c ==> #[trigger] c1@[u]@ == feeders(m, u, (s * c) as nat),
        decreases c - s,
    {
        let mut t: usize = 0;
        while t < c
            invariant
                s < c,
                t <= c,
                c == m.len(),
                m == matrix_rows(*mat),
                is_connectivity(m),
                c * c <= usize::MAX,
                kernels_before(m, (c * c) as nat) <= usize::MAX,
                i == kernels_before(m, (s * c + t) as nat),
                c0@ == sources(m, (s * c + t) as nat),
                c1@.len() == c,
                forall|u: int|
                    0 <= u < c ==> #[trigger] c1@[u]@ == feeders(m, u, (s * c + t) as nat),
            decreases c - t,
        {
            let ghost p = (s * c + t) as nat;
            proof {
                assert(p / (c as nat) == s && p % (c as nat) == t) by {
                    vstd::arithmetic::div_mod::lemma_fundamental_div_mod_converse(
                        p as int,
                        c as int,
                        s as int,
                        t as int,
                    );
                }
                assert(s * c + c <= c * c && 0 <= s * c) by (nonlinear_arith)
                    requires
                        s < c,
                ;
                lemma_kernels_monotone(m, p + 1, (c * c) as nat);
                assert(m[s as int].len() >= m.len());
                assert(m[s as int][t as int] >= 0);
            }
            let n: i32 = array_at(mat, s, t);
            let ghost c0_had = c0@;
            let ghost c1_had = c1@;
            let count: usize = n as usize;
            let mut k: usize = 0;
            let mut fed: Vec<usize> = Vec::new();
            while k < count
                invariant
                    k <= count,
                    i + count <= usize::MAX,
                    c0@ == c0_had + Seq::new(k as nat, |j: int| s),
                    fed@ == Seq::new(k as nat, |j: int| (i + j) as usize),
                decreases count - k,
            {
                c0.push(s);
                fed.push(i + k);
                assert(c0@ =~= c0_had + Seq::new((k + 1) as nat, |j: int| s));
                assert(fed@ =~= Seq::new((k + 1) as nat, |j: int| (i + j) as usize));
                k = k + 1;
            }
            proof {
                assert(c0@ =~= sources(m, p + 1));
            }
            let ghost listed = c1@[t as int]@;
            c1[t].append(&mut fed);
            proof {
                assert forall|u: int| 0 <= u < c implies #[trigger] c1@[u]@ == feeders(
                    m,
                    u,
                    p + 1,
                ) by {
                    if u == t {
                        assert(c1@[u]@ =~= feeders(m, u, p + 1));
                    } else {
                        assert(c1@[u] == c1_had[u]);
                    }
                }
            }
            i = i + count;
            t = t + 1;
        }
        assert((s + 1) * c == s * c + c) by (nonlinear_arith);
        s = s + 1;
    }
    (c0, c1)
}

/// Which kernels feed each channel, as flags.
pub fn conn_from_lists(c0: &[usize], c1: &[Vec<usize>], c: usize) -> (conn: (
    Vec<usize>,
    Vec<Vec<bool>>,
))
    requires
        c1@.len() >= c,
        forall|t: int, i: int|
            0 <= t < c && 0 <= i < c1@[t]@.len() ==> #[trigger] c1@[t]@[i] < c0@.len(),
    ensures
        conn.0@ == c0@,
        is_plane(conn.1@, c as int, c0@.len() as int),
        forall|t: int, k: int|
            0 <= t < c && 0 <= k < c0@.len() ==> (#[trigger] conn.1@[t]@[k] <==> c1@[t]@.contains(
                k as usize,
            )),
{
    let nb_k: usize = c0.len();
    let mut flags: Vec<Vec<bool>> = Vec::new();
    let mut t: usize = 0;
    while t < c
        invariant
            t <= c,
            nb_k == c0@.len(),
            c1@.len() >= c,
            forall|t: int, i: int|
                0 <= t < c && 0 <= i < c1@[t]@.len() ==> #[trigger] c1@[t]@[i] < c0@.len(),
            is_plane(flags@, t as int, nb_k as int),
            forall|u: int, k: int|
                0 <= u < t && 0 <= k < nb_k ==> (#[trigger] flags@[u]@[k] <==> c1@[u]@.contains(
                    k as usize,
                )),
        decreases c - t,
    {
        let mut row: Vec<bool> = Vec::new();
        let mut k: usize = 0;
        while k < nb_k
            invariant
                k <= nb_k,
                row@.len() == k,
                forall|l: int| 0 <= l < k ==> !#[trigger] row@[l],
            decreases nb_k - k,
        {
            row.push(false);
            k = k + 1;
        }
        let list = &c1[t];
        let mut i: usize = 0;
        while i < list.len()
            invariant
                i <= list@.len(),
                t < c,
                nb_k == c0@.len(),
                c1@.len() >= c,
                *list == c1@[t as int],
                forall|t: int, i: int|
                    0 <= t < c && 0 <= i < c1@[t]@.len() ==> #[trigger] c1@[t]@[i] < c0@.len(),
                row@.len() == nb_k,
                forall|k: int|
                    0 <= k < nb_k ==> (#[trigger] row@[k] <==> list@.take(i as int).contains(
                        k as usize,
                    )),
            decreases list@.len() - i,
        {
            assert(c1@[t as int]@[i as int] < c0@.len());
            let ghost had = row@;
            row.set(list[i], true);
            proof {
                let a = list@.take(i as int);
                let b = list@.take(i + 1);
                assert(b =~= a.push(list@[i as int]));
                assert forall|k: int| 0 <= k < nb_k implies (#[trigger] row@[k] <==> b.contains(
                    k as usize,
                )) by {
                    if k == list@[i as int] {
                        assert(b[i as int] == k as usize);
                    } else if had[k] {
                        assert(a.contains(k as usize));
                        let l = choose|l: int| 0 <= l < a.len() && a[l] == k as usize;
                        assert(b[l] == k as usize);
                    } else if b.contains(k as usize) {
                        let l = choose|l: int| 0 <= l < b.len() && b[l] == k as usize;
                        assert(a[l] == k as usize);
                    }
                }
            }
            i = i + 1;
        }
        assert(list@.take(i as int) =~= list@);
        let ghost had = flags@;
        flags.push(row);
        proof {
            assert forall|u: int, k: int| 0 <= u < t + 1 && 0 <= k < nb_k implies (
            #[trigger] flags@[u]@[k] <==> c1@[u]@.contains(k as usize)) by {
                if u < t {
                    assert(flags@[u] == had[u]);
                    assert(had[u]@[k] <==> c1@[u]@.contains(k as usize));
                }
            }
        }
        t = t + 1;
    }
    let mut sources: Vec<usize> = Vec::new();
    let mut k: usize = 0;
    while k < nb_k
        invariant
            k <= nb_k,
            nb_k == c0@.len(),
            sources@ == c0@.take(k as int),
        decreases nb_k - k,
    {
        sources.push(c0[k]);
        assert(sources@ =~= c0@.take(k + 1));
        k = k + 1;
    }
    assert(c0@.take(k as int) =~= c0@);
    (sources, flags)
}

/// The pairs below `p` have as many sources as kernels, and keep them among more pairs.
proof fn lemma_sources(m: Seq<Seq<i32>>, p: nat, q: nat)
    requires
        is_connectivity(m),
        p <= q <= m.len() * m.len(),
    ensures
        sources(m, q).len() == kernels_before(m, q),
        sources(m, p).len() == kernels_before(m, p),
        sources(m, p).is_prefix_of(sources(m, q)),
    decreases q,
{
    if q > 0 {
        let r = (q - 1) as nat;
        lemma_kernels_monotone(m, r, q);
        lemma_pair(m, r);
        if p < q {
            lemma_sources(m, p, r);
        } else {
            lemma_sources(m, r, r);
        }
    }
}

/// A pair number stands for a row and a column.
proof fn lemma_pair(m: Seq<Seq<i32>>, q: nat)
    requires
        is_connectivity(m),
        q < m.len() * m.len(),
    ensures
        0 <= q as int / m.len() as int,
        q as int / m.len() as int <= m.len() - 1,
        0 <= q as int % m.len() as int,
        q as int % m.len() as int <= m.len() - 1,
        m[q as int / m.len() as int][q as int % m.len() as int] >= 0,
{
    let c = m.len() as int;
    let r = q as int;
    assert(c > 0) by (nonlinear_arith)
        requires
            0 <= r < c * c,
            c >= 0,
    ;
    assert(0 <= r / c < c && 0 <= r % c < c) by (nonlinear_arith)
        requires
            0 <= r < c * c,
            c > 0,
    ;
    assert(m[r / c][r % c] >= 0);
}

/// A list of feeders stays a prefix as pairs are added.
proof fn lemma_feeders_prefix(m: Seq<Seq<i32>>, t: int, p: nat, q: nat)
    requires
        p <= q,
    ensures
        feeders(m, t, p).is_prefix_of(feeders(m, t, q)),
    decreases q,
{
    if p < q {
        lemma_feeders_prefix(m, t, p, (q - 1) as nat);
    }
}

/// The kernels counted for a pair of channels read the first and feed the second.
pub proof fn law_matrix_counts_kernels(m: Seq<Seq<i32>>, s: int, t: int, d: int)
    requires
        is_connectivity(m),
        0 <= s < m.len(),
        0 <= t < m.len(),
        0 <= d < m[s][t],
        m.len() <= usize::MAX,
        kernels_before(m, m.len() * m.len()) <= usize::MAX,
    ensures
        ({
            let all = m.len() * m.len();
            let k = kernels_before(m, (s * m.len() + t) as nat) + d;
            &&& 0 <= k < sources(m, all).len()
            &&& sources(m, all).len() == kernels_before(m, all)
            &&& sources(m, all)[k] == s
            &&& feeders(m, t, all).contains(k as usize)
        }),
{
    let c = m.len() as int;
    let all = m.len() * m.len();
    let p = (s * c + t) as nat;
    assert(p as int / c == s && p as int % c == t) by {
        vstd::arithmetic::div_mod::lemma_fundamental_div_mod_converse(p as int, c, s, t);
    }
    assert(0 <= s * c && s * c + c <= c * c) by (nonlinear_arith)
        requires
            0 <= s < c,
    ;
    let k = kernels_before(m, p) + d;
    lemma_kernels_monotone(m, p, p);
    lemma_kernels_monotone(m, p + 1, all);
    lemma_sources(m, p, p + 1);
    lemma_sources(m, p + 1, all);
    assert(sources(m, p + 1)[k] == s);
    lemma_feeders_prefix(m, t, p + 1, all);
    let f = feeders(m, t, p + 1);
    let at = feeders(m, t, p).len() + d;
    assert(f[at] == k as usize);
    assert(feeders(m, t, all)[at] == k as usize);
}

/// A feeder belongs to a pair whose second channel it feeds.
proof fn lemma_feeder_pair(m: Seq<Seq<i32>>, t: int, p: nat, i: int) -> (q: nat)
    requires
        is_connectivity(m),
        p <= m.len() * m.len(),
        kernels_before(m, m.len() * m.len()) <= usize::MAX,
        0 <= i < feeders(m, t, p).len(),
    ensures
        q < p,
        q as int % m.len() as int == t,
        kernels_before(m, q) <= feeders(m, t, p)[i] < kernels_before(m, q + 1),
    decreases p,
{
    let r = (p - 1) as nat;
    if i < feeders(m, t, r).len() {
        lemma_feeder_pair(m, t, r, i)
    } else {
        lemma_pair(m, r);
        lemma_kernels_monotone(m, r, r);
        lemma_kernels_monotone(m, p, m.len() * m.len());
        r
    }
}

/// No kernel feeds two channels.
pub proof fn law_one_target_each(m: Seq<Seq<i32>>, t: int, u: int, k: usize)
    requires
        is_connectivity(m),
        kernels_before(m, m.len() * m.len()) <= usize::MAX,
        feeders(m, t, m.len() * m.len()).contains(k),
        feeders(m, u, m.len() * m.len()).contains(k),
    ensures
        t == u,
{
    let all = m.len() * m.len();
    let i = choose|i: int| 0 <= i < feeders(m, t, all).len() && feeders(m, t, all)[i] == k;
    let j = choose|j: int| 0 <= j < feeders(m, u, all).len() && feeders(m, u, all)[j] == k;
    let p = lemma_feeder_pair(m, t, all, i);
    let q = lemma_feeder_pair(m, u, all, j);
    if p < q {
        lemma_kernels_monotone(m, p + 1, q);
    } else if q < p {
        lemma_kernels_monotone(m, q + 1, p);
    }
}

/// A kernel of a pair reads the pair's first channel.
proof fn lemma_source_of_pair(m: Seq<Seq<i32>>, q: nat, k: int)
    requires
        is_connectivity(m),
        m.len() <= usize::MAX,
        q < m.len() * m.len(),
        kernels_before(m, q) <= k < kernels_before(m, q + 1),
    ensures
        0 <= k < sources(m, m.len() * m.len()).len(),
        sources(m, m.len() * m.len())[k] == q as int / m.len() as int,
{
    let all = m.len() * m.len();
    lemma_pair(m, q);
    lemma_kernels_monotone(m, q, q);
    lemma_kernels_monotone(m, q + 1, all);
    lemma_sources(m, q, q + 1);
    lemma_sources(m, q + 1, all);
    assert(sources(m, q + 1)[k] == q as int / m.len() as int);
    assert(sources(m, all).subrange(0, sources(m, q + 1).len() as int)[k] == sources(m, q + 1)[k]);
}

/// A connectivity matrix says how many kernels lead from the channel of a row to the channel of a
/// column: the kernels that read channel `s` and feed channel `t` are as many as row `s` holds in
/// column `t`, and stand one behind the other. The lists of feeders and the flags agree on it.
pub proof fn law_as_many_kernels_as_counted(
    mat: &ConnectivityMatrix,
    conn: (Vec<usize>, Vec<Vec<usize>>),
    c0: &[usize],
    c1: &[Vec<usize>],
    flags: (Vec<usize>, Vec<Vec<bool>>),
    s: int,
    t: int,
)
    requires
        is_connectivity(matrix_rows(*mat)),
        matrix_rows(*mat).len() <= usize::MAX,
        kernels_before(
            matrix_rows(*mat),
            matrix_rows(*mat).len() * matrix_rows(*mat).len(),
        ) <= usize::MAX,
        call_ensures(conn_from_matrix, (mat,), conn),
        c0@ == conn.0@,
        c1@ == conn.1@,
        call_ensures(conn_from_lists, (c0, c1, matrix_rows(*mat).len() as usize), flags),
        0 <= s < matrix_rows(*mat).len(),
        0 <= t < matrix_rows(*mat).len(),
    ensures
        flags.0@ == conn.0@,
        exists|first: int| #[trigger]
            runs_from(conn, flags, s, t, first, matrix_rows(*mat)[s][t] as int),
{
    let m = matrix_rows(*mat);
    let c = m.len() as int;
    let all = m.len() * m.len();
    let p = (s * c + t) as nat;
    assert(p as int / c == s && p as int % c == t) by {
        vstd::arithmetic::div_mod::lemma_fundamental_div_mod_converse(p as int, c, s, t);
    }
    assert(0 <= s * c && s * c + c <= c * c) by (nonlinear_arith)
        requires
            0 <= s < c,
    ;
    let first = kernels_before(m, p);
    let n = m[s][t] as int;
    lemma_kernels_monotone(m, p, p);
    lemma_kernels_monotone(m, p + 1, all);
    lemma_sources(m, all, all);
    assert forall|k: int| 0 <= k < conn.0@.len() implies (#[trigger] conn.0@[k] == s
        && conn.1@[t]@.contains(k as usize) <==> first <= k < first + n) && (flags.1@[t]@[k]
        <==> conn.1@[t]@.contains(k as usize)) by {
        let f = feeders(m, t, all);
        assert(conn.1@[t]@ == f);
        assert(flags.1@[t]@[k] <==> c1@[t]@.contains(k as usize));
        if first <= k < first + n {
            law_matrix_counts_kernels(m, s, t, k - first);
        }
        if conn.0@[k] == s && f.contains(k as usize) {
            let i = choose|i: int| 0 <= i < f.len() && f[i] == k as usize;
            let q = lemma_feeder_pair(m, t, all, i);
            lemma_source_of_pair(m, q, k);
            lemma_pair(m, q);
            assert(q as int / c == s && q as int % c == t);
            assert(q == p) by {
                vstd::arithmetic::div_mod::lemma_fundamental_div_mod(q as int, c);
                assert(c * s == s * c) by (nonlinear_arith);
            }
        }
    }
    assert(runs_from(conn, flags, s, t, first, n));
}

/// Whether the kernels that read channel `s` and feed channel `t` are the `n` from `first` on.
pub open spec fn runs_from(
    conn: (Vec<usize>, Vec<Vec<usize>>),
    flags: (Vec<usize>, Vec<Vec<bool>>),
    s: int,
    t: int,
    first: int,
    n: int,
) -> bool {
    &&& 0 <= first
    &&& first + n <= conn.0@.len()
    &&& forall|k: int|
        0 <= k < conn.0@.len() ==> (#[trigger] conn.0@[k] == s && conn.1@[t]@.contains(k as usize)
            <==> first <= k < first + n) && (flags.1@[t]@[k] <==> conn.1@[t]@.contains(k as usize))
}

} // verus!
