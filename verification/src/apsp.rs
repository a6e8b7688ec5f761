//! The graph representation and the solver.

use crate::model::{
    State, all_sums_fit, dist_rows, do_update, earlier, grid_pass, init_next,
    lemma_dist_rows_update, lemma_next_rows_update, neg_diag, next_in_range, next_rows, opt_int,
    prefix_state, relax, relax_upto, row_pass, square, step, sum_fits, sums_fit_before, tail_walk,
    upd2,
};
use vstd::prelude::*;

verus! {

/// A dense weighted directed graph: a fixed vertex count and a square
/// adjacency matrix of optional signed edge weights.
#[derive(Clone, Debug)]
pub struct Graph {
    vertices: usize,
    edges: Vec<Vec<Option<i32>>>,
}

impl Graph {
    /// The number of vertices.
    pub closed spec fn verts(self) -> nat {
        self.vertices as nat
    }

    /// The adjacency matrix as a grid of optional integer weights.
    pub closed spec fn adj(self) -> Seq<Seq<Option<int>>> {
        dist_rows(self.edges@)
    }

    /// The adjacency matrix is square with side `verts()`.
    pub closed spec fn wf(self) -> bool {
        &&& self.edges@.len() == self.vertices
        &&& forall|i: int|
            0 <= i < self.vertices ==> (#[trigger] self.edges@[i])@.len() == self.vertices
    }

    /// Create a graph with the given number of vertices and no edges; every
    /// diagonal entry starts as the self-distance `0`.
    pub fn new(vertices: usize) -> (g: Graph)
        ensures
            g.wf(),
            g.verts() == vertices as nat,
            square(g.adj(), g.verts()),
            forall|i: int, j: int|
                0 <= i < vertices && 0 <= j < vertices ==> g.adj()[i][j] == (if i == j {
                    Some(0int)
                } else {
                    None::<int>
                }),
    {
        let mut edges: Vec<Vec<Option<i32>>> = Vec::new();
        let mut i: usize = 0;
        while i < vertices
            invariant
                i <= vertices,
                edges@.len() == i,
                forall|r: int| 0 <= r < i ==> (#[trigger] edges@[r])@.len() == vertices,
                forall|r: int, c: int|
                    0 <= r < i && 0 <= c < vertices ==> (#[trigger] edges@[r]@[c]) == (if r == c {
                        Some(0i32)
                    } else {
                        None::<i32>
                    }),
            decreases vertices - i,
        {
            let mut row: Vec<Option<i32>> = Vec::new();
            let mut j: usize = 0;
            while j < vertices
                invariant
                    j <= vertices,
                    row@.len() == j,
                    forall|c: int|
                        0 <= c < j ==> (#[trigger] row@[c]) == (if i == c {
                            Some(0i32)
                        } else {
                            None::<i32>
                        }),
                decreases vertices - j,
            {
                if j == i {
                    row.push(Some(0));
                } else {
                    row.push(None);
                }
                j += 1;
            }
            edges.push(row);
            i += 1;
        }
        Graph { vertices, edges }
    }

    /// Set the weight of the directed edge `u -> v`, overwriting any prior
    /// value (the diagonal default included).  An index at or above the
    /// vertex count makes the call a silent no-op; that permissive policy is
    /// part of the interface.
    pub fn add_edge(&mut self, u: usize, v: usize, weight: i32)
        requires
            old(self).wf(),
        ensures
            final(self).wf(),
            final(self).verts() == old(self).verts(),
            u < old(self).verts() && v < old(self).verts() ==> final(self).adj() == upd2(
                old(self).adj(),
                u as int,
                v as int,
                Some(weight as int),
            ),
            !(u < old(self).verts() && v < old(self).verts()) ==> *final(self) == *old(self),
    {
        if u < self.vertices && v < self.vertices {
            self.edges[u][v] = Some(weight);
            proof {
                let a0 = old(self).adj();
                let a1 = self.adj();
                let ui = u as int;
                let vi = v as int;
                assert forall|r: int, c: int|
                    0 <= r < self.vertices && 0 <= c < self.vertices implies a1[r][c] == upd2(
                    a0,
                    ui,
                    vi,
                    Some(weight as int),
                )[r][c] by {
                    if r == ui {
                        assert(self.edges@[r]@ == old(self).edges@[r]@.update(vi, Some(weight)));
                    }
                }
                assert forall|r: int| 0 <= r < self.vertices implies a1[r] =~= upd2(
                    a0,
                    ui,
                    vi,
                    Some(weight as int),
                )[r] by {
                    assert(a1[r].len() == self.edges@[r]@.len());
                }
                assert(a1 =~= upd2(a0, ui, vi, Some(weight as int)));
            }
        }
    }

    /// Add the edge with the same weight in both directions.
    pub fn add_undirected_edge(&mut self, u: usize, v: usize, weight: i32)
        requires
            old(self).wf(),
        ensures
            final(self).wf(),
            final(self).verts() == old(self).verts(),
            u < old(self).verts() && v < old(self).verts() ==> final(self).adj() == upd2(
                upd2(old(self).adj(), u as int, v as int, Some(weight as int)),
                v as int,
                u as int,
                Some(weight as int),
            ),
            !(u < old(self).verts() && v < old(self).verts()) ==> *final(self) == *old(self),
    {
        self.add_edge(u, v, weight);
        self.add_edge(v, u, weight);
    }

    /// The number of vertices.
    pub fn vertices(&self) -> (r: usize)
        ensures
            r as nat == self.verts(),
    {
        self.vertices
    }

    /// A read-only view of the adjacency matrix.
    pub fn get_adjacency_matrix(&self) -> (r: &Vec<Vec<Option<i32>>>)
        ensures
            dist_rows(r@) == self.adj(),
    {
        &self.edges
    }
}

/// Why a solve attempt was given up.
#[derive(Clone, Copy, Debug, PartialEq, Eq, Structural)]
pub enum SolveError {
    /// A diagonal distance went negative: a negative cycle runs through
    /// the named vertex, and no shortest distances exist.
    NegativeCycle { vertex: usize },
    /// A candidate distance sum left the range of `i32`.
    Overflow,
}

/// The solver: a private copy of the adjacency matrix relaxed in place,
/// together with successor pointers for path reconstruction.
pub struct FloydWarshall {
    graph: Graph,
    distance: Vec<Vec<Option<i32>>>,
    next: Vec<Vec<Option<usize>>>,
}

impl FloydWarshall {
    /// The number of vertices.
    pub closed spec fn n(self) -> nat {
        self.graph.verts()
    }

    /// The distance matrix as a grid of optional integer weights.
    pub closed spec fn dist(self) -> Seq<Seq<Option<int>>> {
        dist_rows(self.distance@)
    }

    /// The successor matrix.
    pub closed spec fn succ(self) -> Seq<Seq<Option<usize>>> {
        next_rows(self.next@)
    }

    /// Both matrices are square with side `n()`, and every successor entry
    /// names a vertex.
    pub closed spec fn wf(self) -> bool {
        &&& self.graph.wf()
        &&& self.distance@.len() == self.n()
        &&& forall|i: int|
            0 <= i < self.n() ==> (#[trigger] self.distance@[i])@.len() == self.n()
        &&& self.next@.len() == self.n()
        &&& forall|i: int| 0 <= i < self.n() ==> (#[trigger] self.next@[i])@.len() == self.n()
        &&& next_in_range(self.succ(), self.n())
    }

    /// Create a solver over a private copy of the graph's adjacency matrix;
    /// all successor pointers start unset.
    pub fn new(graph: Graph) -> (s: FloydWarshall)
        requires
            graph.wf(),
        ensures
            s.wf(),
            s.n() == graph.verts(),
            s.dist() == graph.adj(),
            forall|i: int, j: int|
                0 <= i < s.n() && 0 <= j < s.n() ==> s.succ()[i][j] is None,
    {
        let v = graph.vertices;
        let mut distance: Vec<Vec<Option<i32>>> = Vec::new();
        let mut next: Vec<Vec<Option<usize>>> = Vec::new();
        let mut i: usize = 0;
        while i < v
            invariant
                i <= v,
                graph.wf(),
                v == graph.vertices,
                distance@.len() == i,
                next@.len() == i,
                forall|r: int| 0 <= r < i ==> (#[trigger] distance@[r])@.len() == v,
                forall|r: int| 0 <= r < i ==> (#[trigger] next@[r])@.len() == v,
                forall|r: int, c: int|
                    0 <= r < i && 0 <= c < v ==> (#[trigger] distance@[r]@[c])
                        == graph.edges@[r]@[c],
                forall|r: int, c: int|
                    0 <= r < i && 0 <= c < v ==> (#[trigger] next@[r]@[c]) is None,
            decreases v - i,
        {
            let mut drow: Vec<Option<i32>> = Vec::new();
            let mut nrow: Vec<Option<usize>> = Vec::new();
            let mut j: usize = 0;
            while j < v
                invariant
                    j <= v,
                    i < v,
                    graph.wf(),
                    v == graph.vertices,
                    drow@.len() == j,
                    nrow@.len() == j,
                    forall|c: int|
                        0 <= c < j ==> (#[trigger] drow@[c]) == graph.edges@[i as int]@[c],
                    forall|c: int| 0 <= c < j ==> (#[trigger] nrow@[c]) is None,
                decreases v - j,
            {
                drow.push(graph.edges[i][j]);
                nrow.push(None);
                j += 1;
            }
            distance.push(drow);
            next.push(nrow);
            i += 1;
        }
        let s = FloydWarshall { graph, distance, next };
        proof {
            assert forall|r: int| 0 <= r < v implies s.dist()[r] =~= s.graph.adj()[r] by {}
            assert(s.dist() =~= s.graph.adj());
        }
        s
    }

    /// Run the relaxation over every intermediate vertex in increasing
    /// order — the order is the defining property of the algorithm — then
    /// scan the diagonal for a negative cycle.  Afterwards the distance and
    /// successor matrices hold exactly the relaxation of the matrices the
    /// solver held before the call.  A candidate sum that leaves the range
    /// of `i32` stops the call with [`SolveError::Overflow`] instead of
    /// wrapping or aborting.
    pub fn solve(&mut self) -> (r: Result<(), SolveError>)
        requires
            old(self).wf(),
        ensures
            final(self).wf(),
            final(self).n() == old(self).n(),
            ({
                let v = old(self).n();
                let s0 = (State {
                    d: old(self).dist(),
                    n: init_next(old(self).dist(), old(self).succ()),
                });
                let sf = relax(s0, v);
                &&& (r == Err::<(), SolveError>(SolveError::Overflow) <==> !all_sums_fit(s0, v))
                &&& (all_sums_fit(s0, v) ==> {
                    &&& final(self).dist() == sf.d
                    &&& final(self).succ() == sf.n
                    &&& (match r {
                        Ok(()) => forall|i: int| 0 <= i < v ==> !neg_diag(sf.d, i),
                        Err(SolveError::NegativeCycle { vertex }) => {
                            &&& vertex < v
                            &&& neg_diag(sf.d, vertex as int)
                            &&& forall|i: int| 0 <= i < vertex ==> !neg_diag(sf.d, i)
                        },
                        Err(SolveError::Overflow) => false,
                    })
                })
            }),
    {
        let v = self.graph.vertices;
        let ghost vn = self.n();
        let ghost d0 = self.dist();
        let ghost nx0 = self.succ();

        // Successor initialisation: point every off-diagonal pair with a
        // known distance straight at its destination.
        let mut i: usize = 0;
        while i < v
            invariant
                i <= v,
                v == self.graph.vertices,
                vn == v as nat,
                vn == old(self).n(),
                self.graph == old(self).graph,
                self.graph.wf(),
                self.distance@ == old(self).distance@,
                d0 == dist_rows(self.distance@),
                d0 == old(self).dist(),
                nx0 == old(self).succ(),
                square(d0, vn),
                square(nx0, vn),
                next_in_range(nx0, vn),
                self.distance@.len() == v,
                forall|r: int| 0 <= r < v ==> (#[trigger] self.distance@[r])@.len() == v,
                self.next@.len() == v,
                forall|r: int| 0 <= r < v ==> (#[trigger] self.next@[r])@.len() == v,
                forall|r: int, c: int|
                    0 <= r < v && 0 <= c < v ==> (#[trigger] self.next@[r]@[c]) == (if r < i && r
                        != c && d0[r][c] is Some {
                        Some(c as usize)
                    } else {
                        nx0[r][c]
                    }),
            decreases v - i,
        {
            let mut j: usize = 0;
            while j < v
                invariant
                    j <= v,
                    i < v,
                    v == self.graph.vertices,
                    vn == v as nat,
                    self.graph == old(self).graph,
                    self.distance@ == old(self).distance@,
                    d0 == dist_rows(self.distance@),
                    nx0 == old(self).succ(),
                    square(d0, vn),
                    square(nx0, vn),
                    self.distance@.len() == v,
                    forall|r: int| 0 <= r < v ==> (#[trigger] self.distance@[r])@.len() == v,
                    self.next@.len() == v,
                    forall|r: int| 0 <= r < v ==> (#[trigger] self.next@[r])@.len() == v,
                    forall|r: int, c: int|
                        0 <= r < v && 0 <= c < v ==> (#[trigger] self.next@[r]@[c]) == (if (r < i
                            || (r == i && c < j)) && r != c && d0[r][c] is Some {
                            Some(c as usize)
                        } else {
                            nx0[r][c]
                        }),
                decreases v - j,
            {
                if self.distance[i][j].is_some() && i != j {
                    self.next[i][j] = Some(j);
                }
                j += 1;
            }
            i += 1;
        }
        let ghost s0 = State { d: d0, n: init_next(d0, nx0) };
        proof {
            assert forall|r: int| 0 <= r < vn implies next_rows(self.next@)[r] =~= s0.n[r] by {
                assert(next_rows(self.next@)[r].len() == v);
                assert(s0.n[r].len() == nx0[r].len());
            }
            assert(next_rows(self.next@) =~= s0.n);
        }

        // Relaxation: k outermost, then i, then j.
        let mut k: usize = 0;
        while k < v
            invariant
                k <= v,
                v == self.graph.vertices,
                vn == v as nat,
                vn == old(self).n(),
                self.graph == old(self).graph,
                self.graph.wf(),
                s0 == (State {
                    d: old(self).dist(),
                    n: init_next(old(self).dist(), old(self).succ()),
                }),
                square(s0.d, vn),
                self.distance@.len() == v,
                forall|r: int| 0 <= r < v ==> (#[trigger] self.distance@[r])@.len() == v,
                self.next@.len() == v,
                forall|r: int| 0 <= r < v ==> (#[trigger] self.next@[r])@.len() == v,
                next_in_range(next_rows(self.next@), vn),
                dist_rows(self.distance@) == relax_upto(s0, vn, k as nat).d,
                next_rows(self.next@) == relax_upto(s0, vn, k as nat).n,
                sums_fit_before(s0, vn, k as int, 0, 0),
            decreases v - k,
        {
            let mut i: usize = 0;
            while i < v
                invariant
                    i <= v,
                    k < v,
                    v == self.graph.vertices,
                    vn == v as nat,
                    vn == old(self).n(),
                    self.graph == old(self).graph,
                    self.graph.wf(),
                    s0 == (State {
                        d: old(self).dist(),
                        n: init_next(old(self).dist(), old(self).succ()),
                    }),
                    square(s0.d, vn),
                    self.distance@.len() == v,
                    forall|r: int| 0 <= r < v ==> (#[trigger] self.distance@[r])@.len() == v,
                    self.next@.len() == v,
                    forall|r: int| 0 <= r < v ==> (#[trigger] self.next@[r])@.len() == v,
                    next_in_range(next_rows(self.next@), vn),
                    dist_rows(self.distance@) == grid_pass(
                        relax_upto(s0, vn, k as nat),
                        vn,
                        k as int,
                        i as nat,
                    ).d,
                    next_rows(self.next@) == grid_pass(
                        relax_upto(s0, vn, k as nat),
                        vn,
                        k as int,
                        i as nat,
                    ).n,
                    sums_fit_before(s0, vn, k as int, i as int, 0),
                decreases v - i,
            {
                let mut j: usize = 0;
                while j < v
                    invariant
                        j <= v,
                        i < v,
                        k < v,
                        v == self.graph.vertices,
                        vn == v as nat,
                        vn == old(self).n(),
                        self.graph == old(self).graph,
                        self.graph.wf(),
                        s0 == (State {
                            d: old(self).dist(),
                            n: init_next(old(self).dist(), old(self).succ()),
                        }),
                        square(s0.d, vn),
                        self.distance@.len() == v,
                        forall|r: int| 0 <= r < v ==> (#[trigger] self.distance@[r])@.len() == v,
                        self.next@.len() == v,
                        forall|r: int| 0 <= r < v ==> (#[trigger] self.next@[r])@.len() == v,
                        next_in_range(next_rows(self.next@), vn),
                        dist_rows(self.distance@) == prefix_state(
                            s0,
                            vn,
                            k as int,
                            i as int,
                            j as int,
                        ).d,
                        next_rows(self.next@) == prefix_state(
                            s0,
                            vn,
                            k as int,
                            i as int,
                            j as int,
                        ).n,
                        sums_fit_before(s0, vn, k as int, i as int, j as int),
                    decreases v - j,
                {
                    let ghost ps = prefix_state(s0, vn, k as int, i as int, j as int);
                    let ghost gp = grid_pass(relax_upto(s0, vn, k as nat), vn, k as int, i as nat);
                    proof {
                        assert(ps == row_pass(gp, k as int, i as int, j as nat));
                    }
                    let dik = self.distance[i][k];
                    let dkj = self.distance[k][j];
                    proof {
                        assert(ps.d[i as int][k as int] == opt_int(dik));
                        assert(ps.d[k as int][j as int] == opt_int(dkj));
                    }
                    if dik.is_some() && dkj.is_some() {
                        let a = dik.unwrap();
                        let b = dkj.unwrap();
                        match a.checked_add(b) {
                            Some(c) => {
                                let cur = self.distance[i][j];
                                proof {
                                    assert(ps.d[i as int][j as int] == opt_int(cur));
                                    assert(sum_fits(ps.d, k as int, i as int, j as int));
                                }
                                let improves = match cur {
                                    Some(cd) => c < cd,
                                    None => true,
                                };
                                if improves {
                                    let nik = self.next[i][k];
                                    let ghost pd = self.distance@;
                                    let ghost pn = self.next@;
                                    self.distance[i][j] = Some(c);
                                    self.next[i][j] = nik;
                                    proof {
                                        lemma_dist_rows_update(
                                            pd,
                                            self.distance@,
                                            i as int,
                                            j as int,
                                            Some(c),
                                        );
                                        lemma_next_rows_update(
                                            pn,
                                            self.next@,
                                            i as int,
                                            j as int,
                                            nik,
                                        );
                                        assert(ps.n[i as int][k as int] == nik);
                                        assert(do_update(ps.d, k as int, i as int, j as int));
                                        assert(dist_rows(self.distance@) == step(
                                            ps,
                                            k as int,
                                            i as int,
                                            j as int,
                                        ).d);
                                        assert(next_rows(self.next@) == step(
                                            ps,
                                            k as int,
                                            i as int,
                                            j as int,
                                        ).n);
                                    }
                                } else {
                                    proof {
                                        assert(!do_update(ps.d, k as int, i as int, j as int));
                                        assert(step(ps, k as int, i as int, j as int) == ps);
                                    }
                                }
                            },
                            None => {
                                proof {
                                    assert(!sum_fits(ps.d, k as int, i as int, j as int));
                                    assert(!all_sums_fit(s0, vn)) by {
                                        if all_sums_fit(s0, vn) {
                                            assert(sum_fits(
                                                (prefix_state(
                                                    s0,
                                                    vn,
                                                    k as int,
                                                    i as int,
                                                    j as int,
                                                )).d,
                                                k as int,
                                                i as int,
                                                j as int,
                                            ));
                                        }
                                    }
                                }
                                return Err(SolveError::Overflow);
                            },
                        }
                    } else {
                        proof {
                            assert(!do_update(ps.d, k as int, i as int, j as int));
                            assert(step(ps, k as int, i as int, j as int) == ps);
                            assert(sum_fits(ps.d, k as int, i as int, j as int));
                        }
                    }
                    proof {
                        assert(row_pass(gp, k as int, i as int, (j + 1) as nat) == step(
                            row_pass(gp, k as int, i as int, j as nat),
                            k as int,
                            i as int,
                            j as int,
                        ));
                        assert(prefix_state(s0, vn, k as int, i as int, j as int + 1) == step(
                            ps,
                            k as int,
                            i as int,
                            j as int,
                        ));
                        assert forall|k2: int, i2: int, j2: int|
                            0 <= k2 < vn && 0 <= i2 < vn && 0 <= j2 < vn && earlier(
                                k2,
                                i2,
                                j2,
                                k as int,
                                i as int,
                                j as int + 1,
                            ) implies sum_fits(
                            (#[trigger] prefix_state(s0, vn, k2, i2, j2)).d,
                            k2,
                            i2,
                            j2,
                        ) by {
                            if !earlier(k2, i2, j2, k as int, i as int, j as int) {
                                assert(k2 == k as int && i2 == i as int && j2 == j as int);
                            }
                        }
                    }
                    j += 1;
                }
                proof {
                    let ru = relax_upto(s0, vn, k as nat);
                    assert(grid_pass(ru, vn, k as int, (i + 1) as nat) == row_pass(
                        grid_pass(ru, vn, k as int, i as nat),
                        k as int,
                        i as int,
                        vn,
                    ));
                    assert forall|k2: int, i2: int, j2: int|
                        0 <= k2 < vn && 0 <= i2 < vn && 0 <= j2 < vn && earlier(
                            k2,
                            i2,
                            j2,
                            k as int,
                            i as int + 1,
                            0,
                        ) implies sum_fits(
                        (#[trigger] prefix_state(s0, vn, k2, i2, j2)).d,
                        k2,
                        i2,
                        j2,
                    ) by {
                        assert(earlier(k2, i2, j2, k as int, i as int, v as int));
                    }
                }
                i += 1;
            }
            proof {
                assert(relax_upto(s0, vn, (k + 1) as nat) == grid_pass(
                    relax_upto(s0, vn, k as nat),
                    vn,
                    k as int,
                    vn,
                ));
                assert forall|k2: int, i2: int, j2: int|
                    0 <= k2 < vn && 0 <= i2 < vn && 0 <= j2 < vn && earlier(
                        k2,
                        i2,
                        j2,
                        k as int + 1,
                        0,
                        0,
                    ) implies sum_fits(
                    (#[trigger] prefix_state(s0, vn, k2, i2, j2)).d,
                    k2,
                    i2,
                    j2,
                ) by {
                    assert(earlier(k2, i2, j2, k as int, v as int, 0));
                }
            }
            k += 1;
        }
        let ghost sf = relax(s0, vn);
        proof {
            assert(dist_rows(self.distance@) == sf.d);
            assert(next_rows(self.next@) == sf.n);
            assert(all_sums_fit(s0, vn)) by {
                assert forall|k2: int, i2: int, j2: int|
                    0 <= k2 < vn && 0 <= i2 < vn && 0 <= j2 < vn implies sum_fits(
                    (#[trigger] prefix_state(s0, vn, k2, i2, j2)).d,
                    k2,
                    i2,
                    j2,
                ) by {
                    assert(earlier(k2, i2, j2, v as int, 0, 0));
                }
            }
        }

        // Negative-cycle check: the first negative diagonal entry, if any.
        let mut i: usize = 0;
        while i < v
            invariant
                i <= v,
                v == self.graph.vertices,
                vn == v as nat,
                vn == old(self).n(),
                self.graph == old(self).graph,
                self.graph.wf(),
                s0 == (State {
                    d: old(self).dist(),
                    n: init_next(old(self).dist(), old(self).succ()),
                }),
                sf == relax(s0, vn),
                all_sums_fit(s0, vn),
                self.distance@.len() == v,
                forall|r: int| 0 <= r < v ==> (#[trigger] self.distance@[r])@.len() == v,
                self.next@.len() == v,
                forall|r: int| 0 <= r < v ==> (#[trigger] self.next@[r])@.len() == v,
                next_in_range(next_rows(self.next@), vn),
                dist_rows(self.distance@) == sf.d,
                next_rows(self.next@) == sf.n,
                forall|r: int| 0 <= r < i ==> !neg_diag(sf.d, r),
            decreases v - i,
        {
            match self.distance[i][i] {
                Some(d) => {
                    if d < 0 {
                        proof {
                            assert(neg_diag(sf.d, i as int));
                        }
                        return Err(SolveError::NegativeCycle { vertex: i });
                    }
                },
                None => {},
            }
            proof {
                assert(!neg_diag(sf.d, i as int));
            }
            i += 1;
        }
        Ok(())
    }

    /// The shortest known distance from `u` to `v`: the matrix entry for a
    /// pair of vertices, `None` for an out-of-range index.
    pub fn get_distance(&self, u: usize, v: usize) -> (r: Option<i32>)
        requires
            self.wf(),
        ensures
            u < self.n() && v < self.n() ==> opt_int(r) == self.dist()[u as int][v as int],
            !(u < self.n() && v < self.n()) ==> r is None,
    {
        if u < self.graph.vertices && v < self.graph.vertices {
            self.distance[u][v]
        } else {
            None
        }
    }

    /// The shortest path from `u` to `v` as the sequence of vertices
    /// visited, endpoints included: `None` for an out-of-range index or an
    /// unknown distance, otherwise the walk along the successor pointers
    /// from `u` towards `v`.  The walk stops at `v`, at a missing pointer,
    /// or after one step per vertex, so a malformed pointer chain cannot
    /// make it run forever.
    pub fn get_path(&self, u: usize, v: usize) -> (r: Option<Vec<usize>>)
        requires
            self.wf(),
        ensures
            u < self.n() && v < self.n() && self.dist()[u as int][v as int] is Some ==> (r matches
                Some(p) && p@ == seq![u] + tail_walk(self.succ(), v, u, self.n())),
            !(u < self.n() && v < self.n() && self.dist()[u as int][v as int] is Some) ==> r
                is None,
            r matches Some(p) ==> p@.len() >= 1 && p@[0] == u && (forall|t: int|
                0 <= t < p@.len() ==> p@[t] < self.n()),
            u < self.n() && v < self.n() && u == v && self.dist()[u as int][v as int] is Some
                ==> (r matches Some(p) && p@ == seq![u]),
    {
        let count = self.graph.vertices;
        if u >= count || v >= count {
            return None;
        }
        if self.distance[u][v].is_none() {
            return None;
        }
        let mut path: Vec<usize> = Vec::new();
        path.push(u);
        let mut current: usize = u;
        let mut fuel: usize = count;
        while fuel > 0 && current != v && self.next[current][v].is_some()
            invariant
                self.wf(),
                count == self.graph.vertices,
                u < count,
                v < count,
                current < count,
                fuel <= count,
                path@.len() >= 1,
                path@[0] == u,
                forall|t: int| 0 <= t < path@.len() ==> path@[t] < count,
                path@ + tail_walk(self.succ(), v, current, fuel as nat) == seq![u] + tail_walk(
                    self.succ(),
                    v,
                    u,
                    count as nat,
                ),
            decreases fuel,
        {
            let nv = self.next[current][v].unwrap();
            proof {
                assert(self.succ()[current as int][v as int] == Some(nv));
                assert(tail_walk(self.succ(), v, current, fuel as nat) == seq![nv] + tail_walk(
                    self.succ(),
                    v,
                    nv,
                    (fuel - 1) as nat,
                ));
                assert(path@.push(nv) + tail_walk(self.succ(), v, nv, (fuel - 1) as nat) =~= path@
                    + tail_walk(self.succ(), v, current, fuel as nat));
            }
            current = nv;
            path.push(current);
            fuel = fuel - 1;
        }
        proof {
            assert(tail_walk(self.succ(), v, current, fuel as nat) =~= Seq::<usize>::empty());
            assert(path@ =~= seq![u] + tail_walk(self.succ(), v, u, count as nat));
            if u == v {
                assert(tail_walk(self.succ(), v, u, count as nat) =~= Seq::<usize>::empty());
                assert(path@ =~= seq![u]);
            }
        }
        Some(path)
    }

    /// Whether some diagonal distance is known and strictly negative,
    /// which is how a negative cycle shows after relaxation.
    pub fn has_negative_cycle(&self) -> (r: bool)
        requires
            self.wf(),
        ensures
            r == exists|i: int| 0 <= i < self.n() && neg_diag(self.dist(), i),
    {
        let v = self.graph.vertices;
        let mut i: usize = 0;
        while i < v
            invariant
                i <= v,
                self.wf(),
                v == self.graph.vertices,
                forall|r: int| 0 <= r < i ==> !neg_diag(self.dist(), r),
            decreases v - i,
        {
            match self.distance[i][i] {
                Some(d) => {
                    if d < 0 {
                        assert(neg_diag(self.dist(), i as int));
                        return true;
                    }
                },
                None => {},
            }
            i += 1;
        }
        false
    }
}

} // verus!
