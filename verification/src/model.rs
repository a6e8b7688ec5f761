//! Mathematical model of dense all-pairs shortest-path relaxation.
//!
//! A distance matrix is a square grid of `Option<int>`: `None` means "no path
//! known", `Some(w)` a path of total weight `w`.  The relaxation visits every
//! intermediate vertex `k` in increasing order and, for each ordered pair
//! `(i, j)`, replaces `d[i][j]` by `d[i][k] + d[k][j]` whenever that sum is an
//! improvement, updating the successor matrix in the same step.  The spec
//! functions here define that computation as a pure recursion; the executable
//! solver is proved to produce exactly these values.

use vstd::prelude::*;

verus! {

/// A stored weight, widened to a mathematical integer.
pub open spec fn opt_int(o: Option<i32>) -> Option<int> {
    match o {
        Some(w) => Some(w as int),
        None => None,
    }
}

/// Deep view of a concrete distance matrix.
pub open spec fn dist_rows(m: Seq<Vec<Option<i32>>>) -> Seq<Seq<Option<int>>> {
    Seq::new(m.len(), |i: int| Seq::new(m[i]@.len(), |j: int| opt_int(m[i]@[j])))
}

/// Deep view of a concrete successor matrix.
pub open spec fn next_rows(m: Seq<Vec<Option<usize>>>) -> Seq<Seq<Option<usize>>> {
    Seq::new(m.len(), |i: int| m[i]@)
}

/// `m` is a `v` by `v` grid.
pub open spec fn square<T>(m: Seq<Seq<T>>, v: nat) -> bool {
    m.len() == v && forall|i: int| 0 <= i < v ==> (#[trigger] m[i]).len() == v
}

/// `m` with the single entry `(i, j)` replaced by `x`.
pub open spec fn upd2<T>(m: Seq<Seq<T>>, i: int, j: int, x: T) -> Seq<Seq<T>> {
    m.update(i, m[i].update(j, x))
}

/// Distance and successor matrices, always updated together.
pub struct State {
    pub d: Seq<Seq<Option<int>>>,
    pub n: Seq<Seq<Option<usize>>>,
}

/// Routing `i -> k -> j` strictly improves on the current entry `d[i][j]`.
pub open spec fn do_update(d: Seq<Seq<Option<int>>>, k: int, i: int, j: int) -> bool {
    match (d[i][k], d[k][j]) {
        (Some(a), Some(b)) => match d[i][j] {
            Some(c) => a + b < c,
            None => true,
        },
        _ => false,
    }
}

/// The candidate sum at `(k, i, j)`, if formed at all, is representable in `i32`.
pub open spec fn sum_fits(d: Seq<Seq<Option<int>>>, k: int, i: int, j: int) -> bool {
    match (d[i][k], d[k][j]) {
        (Some(a), Some(b)) => i32::MIN <= a + b <= i32::MAX,
        _ => true,
    }
}

/// One relaxation step: distance and successor change together or not at all.
pub open spec fn step(s: State, k: int, i: int, j: int) -> State {
    if do_update(s.d, k, i, j) {
        let c = s.d[i][k]->0 + s.d[k][j]->0;
        State { d: upd2(s.d, i, j, Some(c)), n: upd2(s.n, i, j, s.n[i][k]) }
    } else {
        s
    }
}

/// Steps `(k, i, 0) .. (k, i, j)` of row `i` under intermediate vertex `k`.
pub open spec fn row_pass(s: State, k: int, i: int, j: nat) -> State
    decreases j,
{
    if j == 0 {
        s
    } else {
        step(row_pass(s, k, i, (j - 1) as nat), k, i, j - 1)
    }
}

/// The first `i` full rows of the pass under intermediate vertex `k`.
pub open spec fn grid_pass(s: State, v: nat, k: int, i: nat) -> State
    decreases i,
{
    if i == 0 {
        s
    } else {
        row_pass(grid_pass(s, v, k, (i - 1) as nat), k, i - 1, v)
    }
}

/// The first `k` full passes over a `v`-vertex state.
pub open spec fn relax_upto(s: State, v: nat, k: nat) -> State
    decreases k,
{
    if k == 0 {
        s
    } else {
        grid_pass(relax_upto(s, v, (k - 1) as nat), v, k - 1, v)
    }
}

/// The fully relaxed state: every intermediate vertex considered, in order.
pub open spec fn relax(s: State, v: nat) -> State {
    relax_upto(s, v, v)
}

/// The state just before step `(k, i, j)` of the iteration order.
pub open spec fn prefix_state(s: State, v: nat, k: int, i: int, j: int) -> State {
    row_pass(grid_pass(relax_upto(s, v, k as nat), v, k, i as nat), k, i, j as nat)
}

/// Every candidate sum formed anywhere during the relaxation fits in `i32`.
pub open spec fn all_sums_fit(s: State, v: nat) -> bool {
    forall|k: int, i: int, j: int|
        0 <= k < v && 0 <= i < v && 0 <= j < v ==> sum_fits(
            (#[trigger] prefix_state(s, v, k, i, j)).d,
            k,
            i,
            j,
        )
}

/// `(k2, i2, j2)` is visited strictly before `(k, i, j)`.
pub open spec fn earlier(k2: int, i2: int, j2: int, k: int, i: int, j: int) -> bool {
    k2 < k || (k2 == k && (i2 < i || (i2 == i && j2 < j)))
}

/// Every candidate sum formed strictly before step `(k, i, j)` fits in `i32`.
pub open spec fn sums_fit_before(s: State, v: nat, k: int, i: int, j: int) -> bool {
    forall|k2: int, i2: int, j2: int|
        0 <= k2 < v && 0 <= i2 < v && 0 <= j2 < v && earlier(k2, i2, j2, k, i, j) ==> sum_fits(
            (#[trigger] prefix_state(s, v, k2, i2, j2)).d,
            k2,
            i2,
            j2,
        )
}

/// Successor initialisation: `n[i][j]` becomes `Some(j)` for every off-diagonal
/// pair whose distance is known; every other entry keeps its prior value.
pub open spec fn init_next(
    d: Seq<Seq<Option<int>>>,
    n0: Seq<Seq<Option<usize>>>,
) -> Seq<Seq<Option<usize>>> {
    Seq::new(
        n0.len(),
        |i: int|
            Seq::new(
                n0[i].len(),
                |j: int|
                    if i != j && d[i][j] is Some {
                        Some(j as usize)
                    } else {
                        n0[i][j]
                    },
            ),
    )
}

/// A single in-place store into a concrete distance matrix changes its deep
/// view by `upd2` and nothing else.
pub proof fn lemma_dist_rows_update(
    m0: Seq<Vec<Option<i32>>>,
    m1: Seq<Vec<Option<i32>>>,
    i: int,
    j: int,
    x: Option<i32>,
)
    requires
        0 <= i < m0.len(),
        0 <= j < m0[i]@.len(),
        m1.len() == m0.len(),
        forall|r: int| 0 <= r < m0.len() && r != i ==> m1[r] == m0[r],
        m1[i]@ == m0[i]@.update(j, x),
    ensures
        dist_rows(m1) == upd2(dist_rows(m0), i, j, opt_int(x)),
{
    assert forall|r: int| 0 <= r < m1.len() implies dist_rows(m1)[r] =~= upd2(
        dist_rows(m0),
        i,
        j,
        opt_int(x),
    )[r] by {
        if r == i {
            assert(m1[i]@.len() == m0[i]@.len());
        }
    }
    assert(dist_rows(m1) =~= upd2(dist_rows(m0), i, j, opt_int(x)));
}

/// As [`lemma_dist_rows_update`], for a concrete successor matrix.
pub proof fn lemma_next_rows_update(
    m0: Seq<Vec<Option<usize>>>,
    m1: Seq<Vec<Option<usize>>>,
    i: int,
    j: int,
    x: Option<usize>,
)
    requires
        0 <= i < m0.len(),
        0 <= j < m0[i]@.len(),
        m1.len() == m0.len(),
        forall|r: int| 0 <= r < m0.len() && r != i ==> m1[r] == m0[r],
        m1[i]@ == m0[i]@.update(j, x),
    ensures
        next_rows(m1) == upd2(next_rows(m0), i, j, x),
{
    assert forall|r: int| 0 <= r < m1.len() implies next_rows(m1)[r] =~= upd2(
        next_rows(m0),
        i,
        j,
        x,
    )[r] by {}
    assert(next_rows(m1) =~= upd2(next_rows(m0), i, j, x));
}

/// Diagonal entry `i` is a known, strictly negative distance.
pub open spec fn neg_diag(d: Seq<Seq<Option<int>>>, i: int) -> bool {
    d[i][i] is Some && d[i][i]->0 < 0
}

/// Every successor entry points at a vertex below `v`.
pub open spec fn next_in_range(n: Seq<Seq<Option<usize>>>, v: nat) -> bool {
    forall|i: int, j: int|
        0 <= i < v && 0 <= j < v && (#[trigger] n[i][j]) is Some ==> n[i][j]->0 < v
}

/// No single relaxation step can improve any entry of `d`.
pub open spec fn stable(d: Seq<Seq<Option<int>>>, v: nat) -> bool {
    forall|k: int, i: int, j: int|
        0 <= k < v && 0 <= i < v && 0 <= j < v ==> !do_update(d, k, i, j)
}

/// `a` improves on `b`: wherever `b` is a known distance, `a` is one at most as large.
pub open spec fn le_opt(a: Option<int>, b: Option<int>) -> bool {
    match b {
        Some(bv) => a is Some && a->0 <= bv,
        None => true,
    }
}

/// `w` is a walk through the link matrix `d` on vertices below `v`: it
/// visits at least one vertex, and each consecutive pair is a known link.
pub open spec fn is_chain(d: Seq<Seq<Option<int>>>, w: Seq<int>, v: nat) -> bool {
    &&& w.len() >= 1
    &&& forall|t: int| 0 <= t < w.len() ==> 0 <= #[trigger] w[t] < v
    &&& forall|t: int| 0 <= t < w.len() - 1 ==> (#[trigger] d[w[t]][w[t + 1]]) is Some
}

/// The total weight of a walk: the sum of the links it crosses.
pub open spec fn chain_weight(d: Seq<Seq<Option<int>>>, w: Seq<int>) -> int
    decreases w.len(),
{
    if w.len() <= 1 {
        0
    } else {
        d[w[0]][w[1]]->0 + chain_weight(d, w.drop_first())
    }
}

/// The interior vertices of `w` (endpoints excluded) are pairwise distinct.
pub open spec fn interior_distinct(w: Seq<int>) -> bool {
    forall|t1: int, t2: int| 1 <= t1 < t2 < w.len() - 1 ==> w[t1] != w[t2]
}

/// Every interior vertex of `w` (endpoints excluded) is below `k`.
pub open spec fn interior_below(w: Seq<int>, k: int) -> bool {
    forall|t: int| 1 <= t < w.len() - 1 ==> #[trigger] w[t] < k
}

/// Every known entry of `d` is the weight of some walk through `d0` between
/// the same endpoints.
pub open spec fn entries_witnessed(
    d0: Seq<Seq<Option<int>>>,
    d: Seq<Seq<Option<int>>>,
    v: nat,
) -> bool {
    forall|a: int, b: int|
        0 <= a < v && 0 <= b < v && (#[trigger] d[a][b]) is Some ==> exists|w: Seq<int>|
            (#[trigger] is_chain(d0, w, v)) && w.len() >= 2 && w.first() == a && w.last() == b
                && chain_weight(d0, w) == d[a][b]->0
}

/// `d0` admits no closed walk of strictly negative total weight: the graph
/// has no negative cycle.
pub open spec fn no_negative_closed_chain(d0: Seq<Seq<Option<int>>>, v: nat) -> bool {
    forall|c: Seq<int>|
        #[trigger] is_chain(d0, c, v) && c.first() == c.last() ==> chain_weight(d0, c) >= 0
}

/// The vertices visited after `cur` when walking successor pointers towards
/// `v`, stopping at `v`, at a missing pointer, or when the fuel runs out.
pub open spec fn tail_walk(nm: Seq<Seq<Option<usize>>>, v: usize, cur: usize, fuel: nat) -> Seq<
    usize,
>
    decreases fuel,
{
    if fuel == 0 {
        Seq::empty()
    } else {
        match nm[cur as int][v as int] {
            Some(nv) => if cur == v {
                Seq::empty()
            } else {
                seq![nv] + tail_walk(nm, v, nv, (fuel - 1) as nat)
            },
            None => Seq::empty(),
        }
    }
}

} // verus!
