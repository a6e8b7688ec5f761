//! Proved laws of the relaxation model.
//!
//! These proof functions state, over the model in [`crate::model`], what the
//! relaxation does to every state it is run on: it keeps the matrices square,
//! keeps every successor pointer a vertex, never worsens a known distance,
//! and leaves a stable matrix exactly as it found it.

use crate::model::{
    State, chain_weight, do_update, entries_witnessed, grid_pass, interior_below,
    interior_distinct, is_chain, le_opt, neg_diag, next_in_range, no_negative_closed_chain, relax,
    relax_upto, row_pass, square, stable, step, upd2,
};
use vstd::prelude::*;

verus! {

/// Two walks that meet at a shared vertex concatenate to one walk whose
/// weight is the sum of theirs.
proof fn lemma_chain_concat(d0: Seq<Seq<Option<int>>>, w1: Seq<int>, w2: Seq<int>, v: nat)
    requires
        is_chain(d0, w1, v),
        is_chain(d0, w2, v),
        w1.last() == w2.first(),
    ensures
        is_chain(d0, w1 + w2.drop_first(), v),
        (w1 + w2.drop_first()).first() == w1.first(),
        (w1 + w2.drop_first()).last() == w2.last(),
        chain_weight(d0, w1 + w2.drop_first()) == chain_weight(d0, w1) + chain_weight(d0, w2),
    decreases w1.len(),
{
    let w = w1 + w2.drop_first();
    if w1.len() == 1 {
        assert(w =~= w2);
    } else {
        let w1t = w1.drop_first();
        assert(is_chain(d0, w1t, v)) by {
            assert forall|t: int| 0 <= t < w1t.len() implies 0 <= #[trigger] w1t[t] < v by {
                assert(w1t[t] == w1[t + 1]);
            }
            assert forall|t: int|
                0 <= t < w1t.len() - 1 implies (#[trigger] d0[w1t[t]][w1t[t + 1]]) is Some by {
                assert(w1t[t] == w1[t + 1]);
                assert(w1t[t + 1] == w1[t + 2]);
                assert(d0[w1[t + 1]][w1[t + 1 + 1]] is Some);
            }
        }
        assert(w1t.last() == w1.last());
        lemma_chain_concat(d0, w1t, w2, v);
        assert(w.drop_first() =~= w1t + w2.drop_first());
        assert(w[0] == w1[0] && w[1] == w1[1]);
        assert(chain_weight(d0, w1) == d0[w1[0]][w1[1]]->0 + chain_weight(d0, w1t));
        assert(chain_weight(d0, w) == d0[w[0]][w[1]]->0 + chain_weight(d0, w.drop_first()));
        assert(is_chain(d0, w, v)) by {
            assert forall|t: int| 0 <= t < w.len() implies 0 <= #[trigger] w[t] < v by {
                if t >= w1.len() {
                    assert(w[t] == w2.drop_first()[t - w1.len()]);
                    assert(w2.drop_first()[t - w1.len()] == w2[t - w1.len() + 1]);
                }
            }
            assert forall|t: int|
                0 <= t < w.len() - 1 implies (#[trigger] d0[w[t]][w[t + 1]]) is Some by {
                let wt = w.drop_first();
                if t == 0 {
                    assert(d0[w1[0]][w1[1]] is Some);
                } else {
                    assert(w[t] == wt[t - 1]);
                    assert(w[t + 1] == wt[t - 1 + 1]);
                    assert(d0[wt[t - 1]][wt[t - 1 + 1]] is Some);
                }
            }
        }
    }
}

/// Every known entry of a matrix is witnessed by the one-link walk it names.
proof fn lemma_witnessed_base(d: Seq<Seq<Option<int>>>, v: nat)
    ensures
        entries_witnessed(d, d, v),
{
    assert forall|a: int, b: int|
        0 <= a < v && 0 <= b < v && (#[trigger] d[a][b]) is Some implies exists|w: Seq<int>|
            (#[trigger] is_chain(d, w, v)) && w.len() >= 2 && w.first() == a && w.last() == b
                && chain_weight(d, w) == d[a][b]->0 by {
        let w = seq![a, b];
        assert(w.drop_first() =~= seq![b]);
        assert(chain_weight(d, seq![b]) == 0);
        assert(chain_weight(d, w) == d[a][b]->0);
        assert(is_chain(d, w, v));
        assert(w.first() == a && w.last() == b);
    }
}

/// One step keeps every entry witnessed: an improved entry is witnessed by
/// the concatenation of the two walks that witness its halves.
proof fn lemma_step_witnessed(d0: Seq<Seq<Option<int>>>, s: State, v: nat, k: int, i: int, j: int)
    requires
        entries_witnessed(d0, s.d, v),
        square(s.d, v),
        0 <= k < v,
        0 <= i < v,
        0 <= j < v,
    ensures
        entries_witnessed(d0, step(s, k, i, j).d, v),
{
    let t = step(s, k, i, j);
    if do_update(s.d, k, i, j) {
        assert forall|a: int, b: int|
            0 <= a < v && 0 <= b < v && (#[trigger] t.d[a][b]) is Some implies exists|w: Seq<int>|
                (#[trigger] is_chain(d0, w, v)) && w.len() >= 2 && w.first() == a && w.last() == b
                    && chain_weight(d0, w) == t.d[a][b]->0 by {
            if a == i && b == j {
                assert(s.d[i][k] is Some && s.d[k][j] is Some);
                assert(exists|w: Seq<int>|
                    (#[trigger] is_chain(d0, w, v)) && w.len() >= 2 && w.first() == i && w.last()
                        == k && chain_weight(d0, w) == s.d[i][k]->0);
                assert(exists|w: Seq<int>|
                    (#[trigger] is_chain(d0, w, v)) && w.len() >= 2 && w.first() == k && w.last()
                        == j && chain_weight(d0, w) == s.d[k][j]->0);
                let w1 = choose|w: Seq<int>|
                    (#[trigger] is_chain(d0, w, v)) && w.len() >= 2 && w.first() == i && w.last()
                        == k && chain_weight(d0, w) == s.d[i][k]->0;
                let w2 = choose|w: Seq<int>|
                    (#[trigger] is_chain(d0, w, v)) && w.len() >= 2 && w.first() == k && w.last()
                        == j && chain_weight(d0, w) == s.d[k][j]->0;
                lemma_chain_concat(d0, w1, w2, v);
                let w = w1 + w2.drop_first();
                assert(t.d[i][j] == Some(s.d[i][k]->0 + s.d[k][j]->0));
                assert(is_chain(d0, w, v) && w.len() >= 2 && w.first() == a && w.last() == b
                    && chain_weight(d0, w) == t.d[a][b]->0);
            } else {
                assert(t.d[a][b] == s.d[a][b]);
            }
        }
    }
}

/// As [`lemma_step_witnessed`], for a partial row pass.
proof fn lemma_row_pass_witnessed(
    d0: Seq<Seq<Option<int>>>,
    s: State,
    v: nat,
    k: int,
    i: int,
    j: nat,
)
    requires
        entries_witnessed(d0, s.d, v),
        square(s.d, v),
        0 <= k < v,
        0 <= i < v,
        j <= v,
    ensures
        entries_witnessed(d0, row_pass(s, k, i, j).d, v),
        square(row_pass(s, k, i, j).d, v),
    decreases j,
{
    if j != 0 {
        lemma_row_pass_witnessed(d0, s, v, k, i, (j - 1) as nat);
        let p = row_pass(s, k, i, (j - 1) as nat);
        if do_update(p.d, k, i, j - 1) {
            lemma_upd2_square(p.d, v, i, j - 1, Some(p.d[i][k]->0 + p.d[k][j - 1]->0));
        }
        lemma_step_witnessed(d0, p, v, k, i, j - 1);
    }
}

/// As [`lemma_step_witnessed`], for a partial grid pass.
proof fn lemma_grid_pass_witnessed(d0: Seq<Seq<Option<int>>>, s: State, v: nat, k: int, i: nat)
    requires
        entries_witnessed(d0, s.d, v),
        square(s.d, v),
        0 <= k < v,
        i <= v,
    ensures
        entries_witnessed(d0, grid_pass(s, v, k, i).d, v),
        square(grid_pass(s, v, k, i).d, v),
    decreases i,
{
    if i != 0 {
        lemma_grid_pass_witnessed(d0, s, v, k, (i - 1) as nat);
        lemma_row_pass_witnessed(d0, grid_pass(s, v, k, (i - 1) as nat), v, k, i - 1, v);
    }
}

/// As [`lemma_step_witnessed`], for the first `k` full passes.
proof fn lemma_relax_upto_witnessed(d0: Seq<Seq<Option<int>>>, s: State, v: nat, k: nat)
    requires
        entries_witnessed(d0, s.d, v),
        square(s.d, v),
        k <= v,
    ensures
        entries_witnessed(d0, relax_upto(s, v, k).d, v),
        square(relax_upto(s, v, k).d, v),
    decreases k,
{
    if k != 0 {
        lemma_relax_upto_witnessed(d0, s, v, (k - 1) as nat);
        lemma_grid_pass_witnessed(d0, relax_upto(s, v, (k - 1) as nat), v, k - 1, v);
    }
}

/// Soundness of the relaxation: every distance it reports is the weight of
/// an actual walk through the initial matrix between the same endpoints.
pub proof fn lemma_relax_sound(s: State, v: nat)
    requires
        square(s.d, v),
    ensures
        entries_witnessed(s.d, relax(s, v).d, v),
{
    lemma_witnessed_base(s.d, v);
    lemma_relax_upto_witnessed(s.d, s, v, v);
}

/// A negative diagonal entry after relaxation names a vertex that lies on a
/// closed walk of strictly negative total weight in the initial matrix.
pub proof fn lemma_negative_diagonal_names_negative_cycle(s: State, v: nat, i: int)
    requires
        square(s.d, v),
        0 <= i < v,
        neg_diag(relax(s, v).d, i),
    ensures
        exists|w: Seq<int>|
            (#[trigger] is_chain(s.d, w, v)) && w.first() == i && w.last() == i && chain_weight(
                s.d,
                w,
            ) < 0,
{
    lemma_relax_sound(s, v);
    let d = relax(s, v).d;
    assert(d[i][i] is Some);
    let w = choose|w: Seq<int>|
        (#[trigger] is_chain(s.d, w, v)) && w.len() >= 2 && w.first() == i && w.last() == i
            && chain_weight(s.d, w) == d[i][i]->0;
    assert(is_chain(s.d, w, v) && w.first() == i && w.last() == i && chain_weight(s.d, w) < 0);
}

/// On a matrix that admits no closed walk of negative total weight, the
/// relaxation leaves no negative diagonal entry: a solve of such a graph
/// never reports a negative cycle.
pub proof fn lemma_no_negative_cycle_solve_succeeds(s: State, v: nat)
    requires
        square(s.d, v),
        no_negative_closed_chain(s.d, v),
    ensures
        forall|i: int| 0 <= i < v ==> !neg_diag(relax(s, v).d, i),
{
    assert forall|i: int| 0 <= i < v implies !neg_diag(relax(s, v).d, i) by {
        if neg_diag(relax(s, v).d, i) {
            lemma_negative_diagonal_names_negative_cycle(s, v, i);
            let w = choose|w: Seq<int>|
                (#[trigger] is_chain(s.d, w, v)) && w.first() == i && w.last() == i
                    && chain_weight(s.d, w) < 0;
            assert(chain_weight(s.d, w) >= 0);
        }
    }
}

/// Replacing one in-range entry keeps a grid square.
proof fn lemma_upd2_square<T>(m: Seq<Seq<T>>, v: nat, i: int, j: int, x: T)
    requires
        square(m, v),
        0 <= i < v,
        0 <= j < v,
    ensures
        square(upd2(m, i, j, x), v),
{
    assert forall|r: int| 0 <= r < v implies (#[trigger] upd2(m, i, j, x)[r]).len() == v by {
        if r == i {
            assert(upd2(m, i, j, x)[r] == m[i].update(j, x));
        }
    }
}

/// One step keeps both matrices square, keeps successor entries in range,
/// and never worsens a distance entry.
proof fn lemma_step_preserves(s: State, v: nat, k: int, i: int, j: int)
    requires
        square(s.d, v),
        square(s.n, v),
        next_in_range(s.n, v),
        0 <= k < v,
        0 <= i < v,
        0 <= j < v,
    ensures
        square(step(s, k, i, j).d, v),
        square(step(s, k, i, j).n, v),
        next_in_range(step(s, k, i, j).n, v),
        forall|a: int, b: int|
            0 <= a < v && 0 <= b < v ==> le_opt(
                #[trigger] step(s, k, i, j).d[a][b],
                s.d[a][b],
            ),
{
    let t = step(s, k, i, j);
    if do_update(s.d, k, i, j) {
        lemma_upd2_square(s.d, v, i, j, Some(s.d[i][k]->0 + s.d[k][j]->0));
        lemma_upd2_square(s.n, v, i, j, s.n[i][k]);
        assert forall|a: int, b: int|
            0 <= a < v && 0 <= b < v && (#[trigger] t.n[a][b]) is Some implies t.n[a][b]->0
            < v by {
            if a == i && b == j {
                assert(t.n[a][b] == s.n[i][k]);
            } else {
                assert(t.n[a][b] == s.n[a][b]);
            }
        }
        assert forall|a: int, b: int|
            0 <= a < v && 0 <= b < v implies le_opt(#[trigger] t.d[a][b], s.d[a][b]) by {
            if a == i && b == j {
                assert(t.d[a][b] == Some(s.d[i][k]->0 + s.d[k][j]->0));
            } else {
                assert(t.d[a][b] == s.d[a][b]);
            }
        }
    }
}

/// `le_opt` is transitive.
proof fn lemma_le_opt_trans(a: Option<int>, b: Option<int>, c: Option<int>)
    requires
        le_opt(a, b),
        le_opt(b, c),
    ensures
        le_opt(a, c),
{
}

/// As [`lemma_step_preserves`], for a partial row pass.
proof fn lemma_row_pass_preserves(s: State, v: nat, k: int, i: int, j: nat)
    requires
        square(s.d, v),
        square(s.n, v),
        next_in_range(s.n, v),
        0 <= k < v,
        0 <= i < v,
        j <= v,
    ensures
        square(row_pass(s, k, i, j).d, v),
        square(row_pass(s, k, i, j).n, v),
        next_in_range(row_pass(s, k, i, j).n, v),
        forall|a: int, b: int|
            0 <= a < v && 0 <= b < v ==> le_opt(
                #[trigger] row_pass(s, k, i, j).d[a][b],
                s.d[a][b],
            ),
    decreases j,
{
    if j != 0 {
        lemma_row_pass_preserves(s, v, k, i, (j - 1) as nat);
        let p = row_pass(s, k, i, (j - 1) as nat);
        lemma_step_preserves(p, v, k, i, j - 1);
        assert forall|a: int, b: int|
            0 <= a < v && 0 <= b < v implies le_opt(
            #[trigger] row_pass(s, k, i, j).d[a][b],
            s.d[a][b],
        ) by {
            lemma_le_opt_trans(step(p, k, i, j - 1).d[a][b], p.d[a][b], s.d[a][b]);
        }
    }
}

/// As [`lemma_step_preserves`], for a partial grid pass.
proof fn lemma_grid_pass_preserves(s: State, v: nat, k: int, i: nat)
    requires
        square(s.d, v),
        square(s.n, v),
        next_in_range(s.n, v),
        0 <= k < v,
        i <= v,
    ensures
        square(grid_pass(s, v, k, i).d, v),
        square(grid_pass(s, v, k, i).n, v),
        next_in_range(grid_pass(s, v, k, i).n, v),
        forall|a: int, b: int|
            0 <= a < v && 0 <= b < v ==> le_opt(
                #[trigger] grid_pass(s, v, k, i).d[a][b],
                s.d[a][b],
            ),
    decreases i,
{
    if i != 0 {
        lemma_grid_pass_preserves(s, v, k, (i - 1) as nat);
        let p = grid_pass(s, v, k, (i - 1) as nat);
        lemma_row_pass_preserves(p, v, k, i - 1, v);
        assert forall|a: int, b: int|
            0 <= a < v && 0 <= b < v implies le_opt(
            #[trigger] grid_pass(s, v, k, i).d[a][b],
            s.d[a][b],
        ) by {
            lemma_le_opt_trans(row_pass(p, k, i - 1, v).d[a][b], p.d[a][b], s.d[a][b]);
        }
    }
}

/// As [`lemma_step_preserves`], for the first `k` full passes.
proof fn lemma_relax_upto_preserves(s: State, v: nat, k: nat)
    requires
        square(s.d, v),
        square(s.n, v),
        next_in_range(s.n, v),
        k <= v,
    ensures
        square(relax_upto(s, v, k).d, v),
        square(relax_upto(s, v, k).n, v),
        next_in_range(relax_upto(s, v, k).n, v),
        forall|a: int, b: int|
            0 <= a < v && 0 <= b < v ==> le_opt(
                #[trigger] relax_upto(s, v, k).d[a][b],
                s.d[a][b],
            ),
    decreases k,
{
    if k != 0 {
        lemma_relax_upto_preserves(s, v, (k - 1) as nat);
        let p = relax_upto(s, v, (k - 1) as nat);
        lemma_grid_pass_preserves(p, v, k - 1, v);
        assert forall|a: int, b: int|
            0 <= a < v && 0 <= b < v implies le_opt(
            #[trigger] relax_upto(s, v, k).d[a][b],
            s.d[a][b],
        ) by {
            lemma_le_opt_trans(grid_pass(p, v, k - 1, v).d[a][b], p.d[a][b], s.d[a][b]);
        }
    }
}

/// Relaxation never worsens a distance: wherever the initial matrix already
/// holds a known distance, the relaxed matrix holds one at most as large,
/// and no known distance is ever forgotten.
pub proof fn lemma_relax_monotone(s: State, v: nat)
    requires
        square(s.d, v),
        square(s.n, v),
        next_in_range(s.n, v),
    ensures
        forall|a: int, b: int|
            0 <= a < v && 0 <= b < v ==> le_opt(#[trigger] relax(s, v).d[a][b], s.d[a][b]),
{
    lemma_relax_upto_preserves(s, v, v);
}

/// A diagonal entry that starts at `0` and does not end negative ends at
/// exactly `0`: relaxation can only lower it, and a successful solve rules
/// out anything below zero.
pub proof fn lemma_diagonal_zero(s: State, v: nat, i: int)
    requires
        square(s.d, v),
        square(s.n, v),
        next_in_range(s.n, v),
        0 <= i < v,
        s.d[i][i] == Some(0int),
        !neg_diag(relax(s, v).d, i),
    ensures
        relax(s, v).d[i][i] == Some(0int),
{
    lemma_relax_monotone(s, v);
    assert(le_opt(relax(s, v).d[i][i], Some(0int)));
}

/// Later cells of one row pass only improve on earlier ones.
proof fn lemma_row_pass_mono_from(s: State, v: nat, k: int, i: int, j1: nat, j2: nat)
    requires
        square(s.d, v),
        square(s.n, v),
        next_in_range(s.n, v),
        0 <= k < v,
        0 <= i < v,
        j1 <= j2 <= v,
    ensures
        forall|a: int, b: int|
            0 <= a < v && 0 <= b < v ==> le_opt(
                #[trigger] row_pass(s, k, i, j2).d[a][b],
                row_pass(s, k, i, j1).d[a][b],
            ),
    decreases j2,
{
    if j2 > j1 {
        lemma_row_pass_mono_from(s, v, k, i, j1, (j2 - 1) as nat);
        let p = row_pass(s, k, i, (j2 - 1) as nat);
        lemma_row_pass_preserves(s, v, k, i, (j2 - 1) as nat);
        lemma_step_preserves(p, v, k, i, j2 - 1);
        assert forall|a: int, b: int|
            0 <= a < v && 0 <= b < v implies le_opt(
            #[trigger] row_pass(s, k, i, j2).d[a][b],
            row_pass(s, k, i, j1).d[a][b],
        ) by {
            lemma_le_opt_trans(
                step(p, k, i, j2 - 1).d[a][b],
                p.d[a][b],
                row_pass(s, k, i, j1).d[a][b],
            );
        }
    }
}

/// Later rows of one grid pass only improve on earlier ones.
proof fn lemma_grid_pass_mono_from(s: State, v: nat, k: int, i1: nat, i2: nat)
    requires
        square(s.d, v),
        square(s.n, v),
        next_in_range(s.n, v),
        0 <= k < v,
        i1 <= i2 <= v,
    ensures
        forall|a: int, b: int|
            0 <= a < v && 0 <= b < v ==> le_opt(
                #[trigger] grid_pass(s, v, k, i2).d[a][b],
                grid_pass(s, v, k, i1).d[a][b],
            ),
    decreases i2,
{
    if i2 > i1 {
        lemma_grid_pass_mono_from(s, v, k, i1, (i2 - 1) as nat);
        let p = grid_pass(s, v, k, (i2 - 1) as nat);
        lemma_grid_pass_preserves(s, v, k, (i2 - 1) as nat);
        lemma_row_pass_preserves(p, v, k, i2 - 1, v);
        assert forall|a: int, b: int|
            0 <= a < v && 0 <= b < v implies le_opt(
            #[trigger] grid_pass(s, v, k, i2).d[a][b],
            grid_pass(s, v, k, i1).d[a][b],
        ) by {
            lemma_le_opt_trans(
                row_pass(p, k, i2 - 1, v).d[a][b],
                p.d[a][b],
                grid_pass(s, v, k, i1).d[a][b],
            );
        }
    }
}

/// A contiguous piece of a walk is a walk.
proof fn lemma_subchain(d0: Seq<Seq<Option<int>>>, w: Seq<int>, v: nat, a: int, b: int)
    requires
        is_chain(d0, w, v),
        0 <= a < b <= w.len(),
    ensures
        is_chain(d0, w.subrange(a, b), v),
        w.subrange(a, b).first() == w[a],
        w.subrange(a, b).last() == w[b - 1],
{
    let ws = w.subrange(a, b);
    assert forall|t: int| 0 <= t < ws.len() implies 0 <= #[trigger] ws[t] < v by {
        assert(ws[t] == w[a + t]);
    }
    assert forall|t: int| 0 <= t < ws.len() - 1 implies (#[trigger] d0[ws[t]][ws[t + 1]])
        is Some by {
        assert(ws[t] == w[a + t]);
        assert(ws[t + 1] == w[a + t + 1]);
        assert(d0[w[a + t]][w[a + t + 1]] is Some);
    }
}

/// Optimality after `k` passes: any walk whose interior vertices are
/// pairwise distinct and all below `k` already bounds the matrix entry
/// between its endpoints from above.
proof fn lemma_upto_upper_bound(s: State, v: nat, k: nat, w: Seq<int>)
    requires
        square(s.d, v),
        square(s.n, v),
        next_in_range(s.n, v),
        k <= v,
        is_chain(s.d, w, v),
        w.len() >= 2,
        interior_distinct(w),
        interior_below(w, k as int),
    ensures
        relax_upto(s, v, k).d[w.first()][w.last()] is Some,
        relax_upto(s, v, k).d[w.first()][w.last()]->0 <= chain_weight(s.d, w),
    decreases k,
{
    let i = w.first();
    let j = w.last();
    if k == 0 {
        assert(w.len() == 2) by {
            if w.len() > 2 {
                assert(0 <= w[1] < v);
                assert(w[1] < 0);
            }
        }
        assert(chain_weight(s.d, w) == s.d[w[0]][w[1]]->0 + chain_weight(s.d, w.drop_first()));
        assert(w.drop_first().len() == 1);
        assert(s.d[i][j] is Some);
    } else {
        let kp = k - 1;
        let ru_prev = relax_upto(s, v, (kp) as nat);
        lemma_relax_upto_preserves(s, v, (kp) as nat);
        assert(relax_upto(s, v, k) == grid_pass(ru_prev, v, kp, v));
        if exists|t: int| 1 <= t < w.len() - 1 && #[trigger] w[t] == kp {
            let t = choose|t: int| 1 <= t < w.len() - 1 && #[trigger] w[t] == kp;
            let w1 = w.subrange(0, t + 1);
            let w2 = w.subrange(t, w.len() as int);
            lemma_subchain(s.d, w, v, 0, t + 1);
            lemma_subchain(s.d, w, v, t, w.len() as int);
            assert(interior_distinct(w1)) by {
                assert forall|t1: int, t2: int| 1 <= t1 < t2 < w1.len() - 1 implies w1[t1]
                    != w1[t2] by {
                    assert(w1[t1] == w[t1] && w1[t2] == w[t2]);
                }
            }
            assert(interior_below(w1, kp)) by {
                assert forall|u: int| 1 <= u < w1.len() - 1 implies #[trigger] w1[u] < kp by {
                    assert(w1[u] == w[u]);
                    assert(w[u] < k);
                    assert(w[u] != w[t]);
                }
            }
            assert(interior_distinct(w2)) by {
                assert forall|t1: int, t2: int| 1 <= t1 < t2 < w2.len() - 1 implies w2[t1]
                    != w2[t2] by {
                    assert(w2[t1] == w[t + t1] && w2[t2] == w[t + t2]);
                }
            }
            assert(interior_below(w2, kp)) by {
                assert forall|u: int| 1 <= u < w2.len() - 1 implies #[trigger] w2[u] < kp by {
                    assert(w2[u] == w[t + u]);
                    assert(w[t + u] < k);
                    assert(w[t + u] != w[t]);
                }
            }
            lemma_upto_upper_bound(s, v, (kp) as nat, w1);
            lemma_upto_upper_bound(s, v, (kp) as nat, w2);
            assert(w =~= w1 + w2.drop_first());
            lemma_chain_concat(s.d, w1, w2, v);
            assert(chain_weight(s.d, w) == chain_weight(s.d, w1) + chain_weight(s.d, w2));
            // Walk through pass `kp` up to step (kp, i, j).
            let gp_i = grid_pass(ru_prev, v, kp, i as nat);
            let p = row_pass(gp_i, kp, i, j as nat);
            lemma_grid_pass_preserves(ru_prev, v, kp, i as nat);
            lemma_row_pass_preserves(gp_i, v, kp, i, j as nat);
            lemma_le_opt_trans(p.d[i][kp], gp_i.d[i][kp], ru_prev.d[i][kp]);
            lemma_le_opt_trans(p.d[kp][j], gp_i.d[kp][j], ru_prev.d[kp][j]);
            assert(p.d[i][kp] is Some && p.d[i][kp]->0 <= chain_weight(s.d, w1));
            assert(p.d[kp][j] is Some && p.d[kp][j]->0 <= chain_weight(s.d, w2));
            let q = step(p, kp, i, j);
            assert(q.d[i][j] is Some && q.d[i][j]->0 <= chain_weight(s.d, w)) by {
                lemma_row_pass_preserves(gp_i, v, kp, i, j as nat);
                if do_update(p.d, kp, i, j) {
                    assert(q.d[i][j] == Some(p.d[i][kp]->0 + p.d[kp][j]->0));
                } else {
                    assert(q.d[i][j] == p.d[i][j]);
                }
            }
            // The rest of the pass only improves on `q`.
            assert(row_pass(gp_i, kp, i, (j + 1) as nat) == q);
            lemma_row_pass_mono_from(gp_i, v, kp, i, (j + 1) as nat, v);
            assert(grid_pass(ru_prev, v, kp, (i + 1) as nat) == row_pass(gp_i, kp, i, v));
            lemma_grid_pass_mono_from(ru_prev, v, kp, (i + 1) as nat, v);
            lemma_le_opt_trans(
                grid_pass(ru_prev, v, kp, v).d[i][j],
                grid_pass(ru_prev, v, kp, (i + 1) as nat).d[i][j],
                q.d[i][j],
            );
        } else {
            assert(interior_below(w, kp));
            lemma_upto_upper_bound(s, v, (kp) as nat, w);
            lemma_grid_pass_preserves(ru_prev, v, kp, v);
            assert(le_opt(grid_pass(ru_prev, v, kp, v).d[i][j], ru_prev.d[i][j]));
        }
    }
}

/// Optimality of the relaxation: the distance it reports between two
/// vertices is at most the weight of every walk between them whose interior
/// vertices are pairwise distinct — every simple path included.
pub proof fn lemma_relax_upper_bound(s: State, v: nat, w: Seq<int>)
    requires
        square(s.d, v),
        square(s.n, v),
        next_in_range(s.n, v),
        is_chain(s.d, w, v),
        w.len() >= 2,
        interior_distinct(w),
    ensures
        relax(s, v).d[w.first()][w.last()] is Some,
        relax(s, v).d[w.first()][w.last()]->0 <= chain_weight(s.d, w),
{
    assert(interior_below(w, v as int));
    lemma_upto_upper_bound(s, v, v, w);
}

/// A closed walk of strictly negative weight with pairwise-distinct
/// interior vertices — a negative cycle — drives the diagonal entry of its
/// start vertex negative, so a solve of such a graph always fails.
pub proof fn lemma_negative_cycle_forces_failure(s: State, v: nat, w: Seq<int>)
    requires
        square(s.d, v),
        square(s.n, v),
        next_in_range(s.n, v),
        is_chain(s.d, w, v),
        w.len() >= 2,
        w.first() == w.last(),
        interior_distinct(w),
        chain_weight(s.d, w) < 0,
    ensures
        neg_diag(relax(s, v).d, w.first()),
{
    lemma_relax_upper_bound(s, v, w);
}

/// In a matrix that admits no closed walk of negative weight, every walk
/// can be reduced, by cutting loops out of its interior, to a walk between
/// the same endpoints with pairwise-distinct interior vertices and no
/// greater weight.
pub proof fn lemma_chain_reduction(d0: Seq<Seq<Option<int>>>, v: nat, w: Seq<int>)
    requires
        is_chain(d0, w, v),
        w.len() >= 2,
        no_negative_closed_chain(d0, v),
    ensures
        exists|u: Seq<int>|
            (#[trigger] is_chain(d0, u, v)) && u.len() >= 2 && u.first() == w.first() && u.last()
                == w.last() && interior_distinct(u) && chain_weight(d0, u) <= chain_weight(d0, w),
    decreases w.len(),
{
    if interior_distinct(w) {
        assert(is_chain(d0, w, v) && w.len() >= 2 && w.first() == w.first() && w.last() == w.last()
            && interior_distinct(w) && chain_weight(d0, w) <= chain_weight(d0, w));
    } else {
        let (t1, t2) = choose|t1: int, t2: int|
            1 <= t1 < t2 < w.len() - 1 && #[trigger] w[t1] == #[trigger] w[t2];
        let wa = w.subrange(0, t1 + 1);
        let wb = w.subrange(t1, t2 + 1);
        let wc = w.subrange(t2, w.len() as int);
        lemma_subchain(d0, w, v, 0, t1 + 1);
        lemma_subchain(d0, w, v, t1, t2 + 1);
        lemma_subchain(d0, w, v, t2, w.len() as int);
        lemma_chain_concat(d0, wa, wb, v);
        assert(wa + wb.drop_first() =~= w.subrange(0, t2 + 1));
        lemma_subchain(d0, w, v, 0, t2 + 1);
        lemma_chain_concat(d0, w.subrange(0, t2 + 1), wc, v);
        assert(w.subrange(0, t2 + 1) + wc.drop_first() =~= w);
        assert(chain_weight(d0, w) == chain_weight(d0, wa) + chain_weight(d0, wb) + chain_weight(
            d0,
            wc,
        ));
        assert(chain_weight(d0, wb) >= 0) by {
            assert(is_chain(d0, wb, v) && wb.first() == wb.last());
        }
        lemma_chain_concat(d0, wa, wc, v);
        let ws = wa + wc.drop_first();
        assert(chain_weight(d0, ws) <= chain_weight(d0, w));
        assert(ws.len() < w.len());
        assert(ws.len() >= 2);
        lemma_chain_reduction(d0, v, ws);
        let u = choose|u: Seq<int>|
            (#[trigger] is_chain(d0, u, v)) && u.len() >= 2 && u.first() == ws.first() && u.last()
                == ws.last() && interior_distinct(u) && chain_weight(d0, u) <= chain_weight(
                d0,
                ws,
            );
        assert(is_chain(d0, u, v) && u.len() >= 2 && u.first() == w.first() && u.last() == w.last()
            && interior_distinct(u) && chain_weight(d0, u) <= chain_weight(d0, w));
    }
}

/// Exactness on graphs without negative cycles: wherever the initial matrix
/// admits no closed walk of negative weight, the relaxed entry between two
/// vertices is precisely the least weight of any walk between them — it is
/// attained by a walk with pairwise-distinct interior vertices, it bounds
/// every walk from below, and it is `None` exactly where no walk exists.
pub proof fn lemma_relax_exact(s: State, v: nat, a: int, b: int)
    requires
        square(s.d, v),
        square(s.n, v),
        next_in_range(s.n, v),
        0 <= a < v,
        0 <= b < v,
        no_negative_closed_chain(s.d, v),
    ensures
        relax(s, v).d[a][b] is Some ==> exists|u: Seq<int>|
            (#[trigger] is_chain(s.d, u, v)) && u.len() >= 2 && u.first() == a && u.last() == b
                && interior_distinct(u) && chain_weight(s.d, u) == relax(s, v).d[a][b]->0,
        forall|c: Seq<int>|
            #[trigger] is_chain(s.d, c, v) && c.len() >= 2 && c.first() == a && c.last() == b
                ==> relax(s, v).d[a][b] is Some && relax(s, v).d[a][b]->0 <= chain_weight(s.d, c),
{
    let d = relax(s, v).d;
    if d[a][b] is Some {
        lemma_relax_sound(s, v);
        let w = choose|w: Seq<int>|
            (#[trigger] is_chain(s.d, w, v)) && w.len() >= 2 && w.first() == a && w.last() == b
                && chain_weight(s.d, w) == d[a][b]->0;
        lemma_chain_reduction(s.d, v, w);
        let u = choose|u: Seq<int>|
            (#[trigger] is_chain(s.d, u, v)) && u.len() >= 2 && u.first() == w.first() && u.last()
                == w.last() && interior_distinct(u) && chain_weight(s.d, u) <= chain_weight(
                s.d,
                w,
            );
        lemma_relax_upper_bound(s, v, u);
        assert(chain_weight(s.d, u) == d[a][b]->0);
        assert(is_chain(s.d, u, v) && u.len() >= 2 && u.first() == a && u.last() == b
            && interior_distinct(u) && chain_weight(s.d, u) == d[a][b]->0);
    }
    assert forall|c: Seq<int>|
        #[trigger] is_chain(s.d, c, v) && c.len() >= 2 && c.first() == a && c.last() == b implies d[
        a
    ][b] is Some && d[a][b]->0 <= chain_weight(s.d, c) by {
        lemma_chain_reduction(s.d, v, c);
        let u = choose|u: Seq<int>|
            (#[trigger] is_chain(s.d, u, v)) && u.len() >= 2 && u.first() == c.first() && u.last()
                == c.last() && interior_distinct(u) && chain_weight(s.d, u) <= chain_weight(
                s.d,
                c,
            );
        lemma_relax_upper_bound(s, v, u);
    }
}

/// On a stable state a step changes nothing.
proof fn lemma_step_stable(s: State, v: nat, k: int, i: int, j: int)
    requires
        stable(s.d, v),
        0 <= k < v,
        0 <= i < v,
        0 <= j < v,
    ensures
        step(s, k, i, j) == s,
{
}

/// On a stable state a partial row pass changes nothing.
proof fn lemma_row_pass_stable(s: State, v: nat, k: int, i: int, j: nat)
    requires
        stable(s.d, v),
        0 <= k < v,
        0 <= i < v,
        j <= v,
    ensures
        row_pass(s, k, i, j) == s,
    decreases j,
{
    if j != 0 {
        lemma_row_pass_stable(s, v, k, i, (j - 1) as nat);
        lemma_step_stable(s, v, k, i, j - 1);
    }
}

/// On a stable state a partial grid pass changes nothing.
proof fn lemma_grid_pass_stable(s: State, v: nat, k: int, i: nat)
    requires
        stable(s.d, v),
        0 <= k < v,
        i <= v,
    ensures
        grid_pass(s, v, k, i) == s,
    decreases i,
{
    if i != 0 {
        lemma_grid_pass_stable(s, v, k, (i - 1) as nat);
        lemma_row_pass_stable(s, v, k, i - 1, v);
    }
}

/// On a stable state the first `k` passes change nothing.
proof fn lemma_relax_upto_stable(s: State, v: nat, k: nat)
    requires
        stable(s.d, v),
        k <= v,
    ensures
        relax_upto(s, v, k) == s,
    decreases k,
{
    if k != 0 {
        lemma_relax_upto_stable(s, v, (k - 1) as nat);
        lemma_grid_pass_stable(s, v, k - 1, v);
    }
}

/// Relaxation is idempotent at its fixed point: on a state whose distance
/// matrix no single step can improve, a full re-run of the relaxation
/// returns the state unchanged, successor pointers included.
pub proof fn lemma_relax_idempotent(s: State, v: nat)
    requires
        stable(s.d, v),
    ensures
        relax(s, v) == s,
{
    lemma_relax_upto_stable(s, v, v);
}

} // verus!
