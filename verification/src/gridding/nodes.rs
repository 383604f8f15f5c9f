//! The node bookkeeping of the direct minimum-curvature solve: which lattice
//! nodes are hard anchors (a sample sits on them, several samples may share
//! one) and how the remaining free nodes are numbered, with the fast index
//! along the shorter lattice axis so that the operator's band stays narrow.
//!
//! Node `(i, j)` of an `nc × nr` lattice has the flat index `i + j·nc`.

use vstd::prelude::*;

verus! {

/// The flat index of node `(i, j)` on a lattice `nc` nodes wide.
pub open spec fn flat(nc: int, i: int, j: int) -> int {
    i + j * nc
}

/// Node `(i, j)` lies on an `nc × nr` lattice.
pub open spec fn in_lattice(nc: int, nr: int, i: int, j: int) -> bool {
    0 <= i < nc && 0 <= j < nr
}

/// Node `a` comes before node `b` in the numbering of free nodes: the fast
/// index runs along the shorter axis (along `i` when `nc <= nr`, else along
/// `j`).
pub open spec fn scan_before(nc: int, nr: int, a: (int, int), b: (int, int)) -> bool {
    if nc <= nr {
        a.1 < b.1 || (a.1 == b.1 && a.0 < b.0)
    } else {
        a.0 < b.0 || (a.0 == b.0 && a.1 < b.1)
    }
}

/// A node as a pair of integers.
pub open spec fn node(p: (usize, usize)) -> (int, int) {
    (p.0 as int, p.1 as int)
}

/// Flat indices of lattice nodes lie in `0 .. nc·nr`.
pub proof fn lemma_flat_bounds(nc: int, nr: int, i: int, j: int)
    requires
        in_lattice(nc, nr, i, j),
    ensures
        0 <= flat(nc, i, j) < nc * nr,
{
    assert(0 <= j * nc <= (nr - 1) * nc) by (nonlinear_arith)
        requires
            0 <= j < nr,
            0 < nc,
    ;
    assert((nr - 1) * nc == nr * nc - nc) by (nonlinear_arith);
    assert(nr * nc == nc * nr) by (nonlinear_arith);
}

/// Distinct lattice nodes have distinct flat indices.
pub proof fn lemma_flat_injective(nc: int, i1: int, j1: int, i2: int, j2: int)
    requires
        0 <= i1 < nc,
        0 <= i2 < nc,
        0 <= j1,
        0 <= j2,
        flat(nc, i1, j1) == flat(nc, i2, j2),
    ensures
        i1 == i2 && j1 == j2,
{
    if j1 < j2 {
        assert((j2 - j1) * nc >= nc) by (nonlinear_arith)
            requires
                j1 < j2,
                0 < nc,
        ;
        assert(j2 * nc == j1 * nc + (j2 - j1) * nc) by (nonlinear_arith);
    } else if j2 < j1 {
        assert((j1 - j2) * nc >= nc) by (nonlinear_arith)
            requires
                j2 < j1,
                0 < nc,
        ;
        assert(j1 * nc == j2 * nc + (j1 - j2) * nc) by (nonlinear_arith);
    }
}

/// The flat index of an in-lattice node, computed without overflow.
fn flat_index(nc: usize, nr: usize, i: usize, j: usize) -> (f: usize)
    requires
        in_lattice(nc as int, nr as int, i as int, j as int),
        nc * nr <= usize::MAX,
    ensures
        f == flat(nc as int, i as int, j as int),
        f < nc * nr,
{
    proof {
        lemma_flat_bounds(nc as int, nr as int, i as int, j as int);
    }
    i + j * nc
}

/// The anchor bookkeeping is consistent: `anchor_of` maps each flat index to
/// its anchor's position in `nodes` or to `-1`, and each anchor node maps
/// back to its own position.
pub open spec fn anchors_ok(
    nc: int,
    nr: int,
    anchor_of: Seq<i32>,
    nodes: Seq<(usize, usize)>,
    samples: Seq<Seq<u32>>,
) -> bool {
    &&& anchor_of.len() == nc * nr
    &&& nodes.len() == samples.len()
    &&& forall|k: int| 0 <= k < nodes.len() ==> {
        &&& in_lattice(nc, nr, (#[trigger] nodes[k]).0 as int, nodes[k].1 as int)
        &&& anchor_of[flat(nc, nodes[k].0 as int, nodes[k].1 as int)] == k
    }
    &&& forall|i: int, j: int| in_lattice(nc, nr, i, j) ==> {
        ||| #[trigger] anchor_of[flat(nc, i, j)] == -1
        ||| 0 <= anchor_of[flat(nc, i, j)] < nodes.len() && node(nodes[anchor_of[flat(nc, i, j)] as int]) == (i, j)
    }
}

/// The hard-anchor nodes of a lattice and the samples that sit on each.
pub struct Anchors {
    nc: usize,
    nr: usize,
    anchor_of: Vec<i32>,
    nodes: Vec<(usize, usize)>,
    samples: Vec<Vec<u32>>,
}

/// The views of a list of sample-id lists.
pub open spec fn id_lists(v: Seq<Vec<u32>>) -> Seq<Seq<u32>> {
    v.map_values(|s: Vec<u32>| s@)
}

impl Anchors {
    /// The bookkeeping is consistent, and every anchor position fits the
    /// `i32` index.
    pub closed spec fn wf(&self) -> bool {
        &&& self.nc * self.nr <= i32::MAX
        &&& anchors_ok(self.nc as int, self.nr as int, self.anchor_of@, self.nodes@, id_lists(self.samples@))
    }

    /// Lattice width.
    pub closed spec fn width(&self) -> int {
        self.nc as int
    }

    /// Lattice height.
    pub closed spec fn height(&self) -> int {
        self.nr as int
    }

    /// Per flat index: the anchor's position, or `-1` for a free node.
    pub closed spec fn anchor_index(&self) -> Seq<i32> {
        self.anchor_of@
    }

    /// The anchor nodes, in the order they were first met.
    pub closed spec fn anchor_nodes(&self) -> Seq<(usize, usize)> {
        self.nodes@
    }

    /// The ids of the samples on each anchor node, in the order they were met.
    pub closed spec fn anchor_samples(&self) -> Seq<Seq<u32>> {
        id_lists(self.samples@)
    }

    /// What a consistent value guarantees its callers.
    pub proof fn lemma_wf(&self)
        requires
            self.wf(),
        ensures
            self.width() * self.height() <= i32::MAX,
            anchors_ok(self.width(), self.height(), self.anchor_index(), self.anchor_nodes(), self.anchor_samples()),
    {
    }

    /// No anchors yet on an `nc × nr` lattice.
    pub fn new(nc: usize, nr: usize) -> (r: Anchors)
        requires
            nc * nr <= i32::MAX,
        ensures
            r.wf(),
            r.width() == nc,
            r.height() == nr,
            r.anchor_index() == Seq::new((nc * nr) as nat, |f: int| -1i32),
            r.anchor_nodes().len() == 0,
            r.anchor_samples().len() == 0,
    {
        let n = nc * nr;
        let mut anchor_of: Vec<i32> = Vec::new();
        let mut f: usize = 0;
        while f < n
            invariant
                f <= n,
                anchor_of@ == Seq::new(f as nat, |k: int| -1i32),
            decreases n - f,
        {
            anchor_of.push(-1);
            assert(anchor_of@ =~= Seq::new((f + 1) as nat, |k: int| -1i32));
            f = f + 1;
        }
        let samples: Vec<Vec<u32>> = Vec::new();
        assert(id_lists(samples@) =~= Seq::<Seq<u32>>::empty());
        proof {
            assert forall|i: int, j: int| in_lattice(nc as int, nr as int, i, j) implies
                #[trigger] anchor_of@[flat(nc as int, i, j)] == -1 by {
                lemma_flat_bounds(nc as int, nr as int, i, j);
            }
        }
        Anchors { nc, nr, anchor_of, nodes: Vec::new(), samples }
    }

    /// Record sample `s` on node `(i, j)`: the node becomes an anchor the
    /// first time a sample lands on it, and each later sample joins that
    /// anchor's list.
    pub fn add_sample(&mut self, i: usize, j: usize, s: u32)
        requires
            old(self).wf(),
            in_lattice(old(self).width(), old(self).height(), i as int, j as int),
        ensures
            final(self).wf(),
            final(self).width() == old(self).width(),
            final(self).height() == old(self).height(),
            ({
                let f = flat(old(self).width(), i as int, j as int);
                let a = old(self).anchor_index()[f];
                if a == -1 {
                    &&& final(self).anchor_nodes() == old(self).anchor_nodes().push((i, j))
                    &&& final(self).anchor_samples() == old(self).anchor_samples().push(seq![s])
                    &&& final(self).anchor_index() == old(self).anchor_index().update(f, old(self).anchor_nodes().len() as i32)
                } else {
                    &&& final(self).anchor_nodes() == old(self).anchor_nodes()
                    &&& final(self).anchor_samples() == old(self).anchor_samples().update(a as int, old(self).anchor_samples()[a as int].push(s))
                    &&& final(self).anchor_index() == old(self).anchor_index()
                }
            }),
    {
        proof {
            lemma_flat_bounds(self.nc as int, self.nr as int, i as int, j as int);
        }
        let nc = self.nc;
        let nr = self.nr;
        let f = flat_index(nc, nr, i, j);
        let a = self.anchor_of[f];
        let ghost g_nodes = self.nodes@;
        let ghost g_samples = id_lists(self.samples@);
        let ghost g_of = self.anchor_of@;
        if a == -1 {
            let k = self.nodes.len();
            proof {
                assert forall|q: int| 0 <= q < g_nodes.len() implies
                    flat(nc as int, g_nodes[q].0 as int, g_nodes[q].1 as int) != f by {
                    if flat(nc as int, g_nodes[q].0 as int, g_nodes[q].1 as int) == f {
                        assert(g_of[f as int] == q);
                    }
                }
                assert(k < nc * nr) by {
                    // each anchor owns a distinct flat index, and flat index f is still free
                    lemma_anchors_fewer_than_nodes(nc as int, nr as int, g_of, g_nodes, g_samples, f as int);
                }
            }
            let mut one: Vec<u32> = Vec::new();
            one.push(s);
            self.anchor_of.set(f, k as i32);
            self.nodes.push((i, j));
            let ghost sv = self.samples@;
            self.samples.push(one);
            proof {
                assert(id_lists(self.samples@) =~= id_lists(sv).push(seq![s]));
                let na = self.anchor_of@;
                let nn = self.nodes@;
                assert forall|q: int| 0 <= q < nn.len() implies {
                    &&& in_lattice(nc as int, nr as int, (#[trigger] nn[q]).0 as int, nn[q].1 as int)
                    &&& na[flat(nc as int, nn[q].0 as int, nn[q].1 as int)] == q
                } by {
                    if q < k {
                        assert(nn[q] == g_nodes[q]);
                        let fq = flat(nc as int, g_nodes[q].0 as int, g_nodes[q].1 as int);
                        lemma_flat_bounds(nc as int, nr as int, g_nodes[q].0 as int, g_nodes[q].1 as int);
                        assert(fq != f);
                        assert(na[fq] == g_of[fq]);
                    } else {
                        assert(nn[q] == (i, j));
                    }
                }
                assert forall|i2: int, j2: int| in_lattice(nc as int, nr as int, i2, j2) implies {
                    ||| #[trigger] na[flat(nc as int, i2, j2)] == -1
                    ||| 0 <= na[flat(nc as int, i2, j2)] < nn.len() && node(nn[na[flat(nc as int, i2, j2)] as int]) == (i2, j2)
                } by {
                    lemma_flat_bounds(nc as int, nr as int, i2, j2);
                    if flat(nc as int, i2, j2) == f {
                        lemma_flat_injective(nc as int, i2, j2, i as int, j as int);
                    } else {
                        assert(na[flat(nc as int, i2, j2)] == g_of[flat(nc as int, i2, j2)]);
                        assert(g_of[flat(nc as int, i2, j2)] == -1 || node(g_nodes[g_of[flat(nc as int, i2, j2)] as int]) == (i2, j2));
                    }
                }
            }
        } else {
            let au = a as usize;
            proof {
                assert(0 <= a < g_nodes.len());
            }
            let ghost sv = self.samples@;
            let mut list: Vec<u32> = Vec::new();
            std::mem::swap(&mut list, &mut self.samples[au]);
            list.push(s);
            let ghost lv = list@;
            self.samples.set(au, list);
            proof {
                assert(id_lists(self.samples@) =~= id_lists(sv).update(a as int, g_samples[a as int].push(s))) by {
                    assert(lv == g_samples[a as int].push(s));
                }
            }
        }
    }
}

/// Distinct indices below `n` that all avoid one index below `n` are
/// fewer than `n`.
proof fn lemma_distinct_below(xs: Seq<int>, n: int, f: int)
    requires
        xs.no_duplicates(),
        0 <= f < n,
        forall|k: int| 0 <= k < xs.len() ==> 0 <= #[trigger] xs[k] < n && xs[k] != f,
    ensures
        xs.len() < n,
{
    let idx = vstd::set_lib::set_int_range(0, n);
    let us = xs.to_set();
    xs.unique_seq_to_set();
    assert(us.subset_of(idx.remove(f))) by {
        assert forall|x: int| us.contains(x) implies idx.remove(f).contains(x) by {
            let k = choose|k: int| 0 <= k < xs.len() && xs[k] == x;
        }
    }
    vstd::set_lib::lemma_int_range(0, n);
    vstd::set_lib::lemma_len_subset(us, idx.remove(f));
}

/// While a flat index is still free, fewer anchors exist than lattice nodes.
proof fn lemma_anchors_fewer_than_nodes(
    nc: int,
    nr: int,
    anchor_of: Seq<i32>,
    nodes: Seq<(usize, usize)>,
    samples: Seq<Seq<u32>>,
    f: int,
)
    requires
        anchors_ok(nc, nr, anchor_of, nodes, samples),
        0 <= f < nc * nr,
        anchor_of[f] == -1,
    ensures
        nodes.len() < nc * nr,
{
    let used = nodes.map_values(|p: (usize, usize)| flat(nc, p.0 as int, p.1 as int));
    assert forall|k: int| 0 <= k < used.len() implies 0 <= #[trigger] used[k] < nc * nr && used[k] != f by {
        assert(nodes[k] == nodes[k]);
        lemma_flat_bounds(nc, nr, nodes[k].0 as int, nodes[k].1 as int);
        assert(anchor_of[used[k]] == k);
    }
    assert forall|p: int, q: int| 0 <= p < used.len() && 0 <= q < used.len() && p != q implies used[p] != used[q] by {
        assert(anchor_of[used[p]] == p);
        assert(anchor_of[used[q]] == q);
    }
    lemma_distinct_below(used, nc * nr, f);
}

/// The free numbering after every node before `cur` in scan order has been
/// visited: the free nodes met so far, in scan order, each numbered by its
/// position; anchors and unvisited nodes numbered `-1`.
pub open spec fn numbering_ok(
    nc: int,
    nr: int,
    anchor_of: Seq<i32>,
    free_of: Seq<i32>,
    free: Seq<(usize, usize)>,
    cur: (int, int),
) -> bool {
    &&& free_of.len() == nc * nr
    &&& forall|p: int| 0 <= p < free.len() ==> {
        &&& in_lattice(nc, nr, (#[trigger] free[p]).0 as int, free[p].1 as int)
        &&& anchor_of[flat(nc, free[p].0 as int, free[p].1 as int)] < 0
        &&& free_of[flat(nc, free[p].0 as int, free[p].1 as int)] == p
        &&& scan_before(nc, nr, node(free[p]), cur)
    }
    &&& forall|p: int, q: int| 0 <= p < q < free.len() ==> scan_before(nc, nr, node(#[trigger] free[p]), node(#[trigger] free[q]))
    &&& forall|i: int, j: int| #![trigger free_of[flat(nc, i, j)]] in_lattice(nc, nr, i, j) ==> {
        if anchor_of[flat(nc, i, j)] < 0 && scan_before(nc, nr, (i, j), cur) {
            0 <= free_of[flat(nc, i, j)] < free.len() && node(free[free_of[flat(nc, i, j)] as int]) == (i, j)
        } else {
            free_of[flat(nc, i, j)] == -1
        }
    }
}

/// The numbering of the free nodes of a lattice: `free` lists exactly the
/// nodes that are not anchors, in scan order, and `free_of` gives each free
/// node's position in that list and `-1` for each anchor.
pub open spec fn free_numbering(
    nc: int,
    nr: int,
    anchor_of: Seq<i32>,
    free_of: Seq<i32>,
    free: Seq<(usize, usize)>,
) -> bool {
    &&& free_of.len() == nc * nr
    &&& forall|p: int| 0 <= p < free.len() ==> {
        &&& in_lattice(nc, nr, (#[trigger] free[p]).0 as int, free[p].1 as int)
        &&& anchor_of[flat(nc, free[p].0 as int, free[p].1 as int)] < 0
        &&& free_of[flat(nc, free[p].0 as int, free[p].1 as int)] == p
    }
    &&& forall|p: int, q: int| 0 <= p < q < free.len() ==> scan_before(nc, nr, node(#[trigger] free[p]), node(#[trigger] free[q]))
    &&& forall|i: int, j: int| #![trigger free_of[flat(nc, i, j)]] in_lattice(nc, nr, i, j) ==> {
        if anchor_of[flat(nc, i, j)] < 0 {
            0 <= free_of[flat(nc, i, j)] < free.len() && node(free[free_of[flat(nc, i, j)] as int]) == (i, j)
        } else {
            free_of[flat(nc, i, j)] == -1
        }
    }
}

/// The node after `cur` along the fast axis.
pub open spec fn step(nc: int, nr: int, cur: (int, int)) -> (int, int) {
    if nc <= nr {
        (cur.0 + 1, cur.1)
    } else {
        (cur.0, cur.1 + 1)
    }
}

/// Visit node `(i, j)`: number it if it is free.
fn visit(
    nc: usize,
    nr: usize,
    anchor_of: &Vec<i32>,
    i: usize,
    j: usize,
    free_of: &mut Vec<i32>,
    free: &mut Vec<(usize, usize)>,
)
    requires
        nc * nr <= i32::MAX,
        anchor_of@.len() == nc * nr,
        in_lattice(nc as int, nr as int, i as int, j as int),
        numbering_ok(nc as int, nr as int, anchor_of@, old(free_of)@, old(free)@, (i as int, j as int)),
    ensures
        numbering_ok(nc as int, nr as int, anchor_of@, final(free_of)@, final(free)@,
            step(nc as int, nr as int, (i as int, j as int))),
{
    let ghost nci = nc as int;
    let ghost nri = nr as int;
    let ghost cur = (i as int, j as int);
    let ghost fo = free_of@;
    let ghost fr = free@;
    proof {
        lemma_flat_bounds(nci, nri, i as int, j as int);
    }
    let f = flat_index(nc, nr, i, j);
    if anchor_of[f] < 0 {
        let k = free.len();
        proof {
            let xs = fr.map_values(|p: (usize, usize)| flat(nci, p.0 as int, p.1 as int));
            assert forall|q: int| 0 <= q < xs.len() implies 0 <= #[trigger] xs[q] < nci * nri && xs[q] != f by {
                assert(fr[q] == fr[q]);
                lemma_flat_bounds(nci, nri, fr[q].0 as int, fr[q].1 as int);
                assert(fo[xs[q]] == q);
                assert(!scan_before(nci, nri, cur, cur));
                if xs[q] == f {
                    lemma_flat_injective(nci, fr[q].0 as int, fr[q].1 as int, i as int, j as int);
                }
            }
            assert forall|p: int, q: int| 0 <= p < xs.len() && 0 <= q < xs.len() && p != q implies xs[p] != xs[q] by {
                assert(fo[xs[p]] == p);
                assert(fo[xs[q]] == q);
            }
            lemma_distinct_below(xs, nci * nri, f as int);
        }
        free_of.set(f, k as i32);
        free.push((i, j));
        proof {
            let nfo = free_of@;
            let nfr = free@;
            let nxt = step(nci, nri, cur);
            assert forall|p: int| 0 <= p < nfr.len() implies {
                &&& in_lattice(nci, nri, (#[trigger] nfr[p]).0 as int, nfr[p].1 as int)
                &&& anchor_of@[flat(nci, nfr[p].0 as int, nfr[p].1 as int)] < 0
                &&& nfo[flat(nci, nfr[p].0 as int, nfr[p].1 as int)] == p
                &&& scan_before(nci, nri, node(nfr[p]), nxt)
            } by {
                if p < k {
                    assert(nfr[p] == fr[p]);
                    lemma_flat_bounds(nci, nri, fr[p].0 as int, fr[p].1 as int);
                    if flat(nci, fr[p].0 as int, fr[p].1 as int) == f {
                        lemma_flat_injective(nci, fr[p].0 as int, fr[p].1 as int, i as int, j as int);
                        assert(!scan_before(nci, nri, cur, cur));
                    }
                } else {
                    assert(nfr[p] == (i, j));
                }
            }
            assert forall|p: int, q: int| 0 <= p < q < nfr.len() implies
                scan_before(nci, nri, node(#[trigger] nfr[p]), node(#[trigger] nfr[q])) by {
                if q < k {
                    assert(nfr[p] == fr[p] && nfr[q] == fr[q]);
                } else {
                    assert(nfr[p] == fr[p]);
                    assert(nfr[q] == (i, j));
                }
            }
            assert forall|i2: int, j2: int| #![trigger nfo[flat(nci, i2, j2)]] in_lattice(nci, nri, i2, j2) implies {
                if anchor_of@[flat(nci, i2, j2)] < 0 && scan_before(nci, nri, (i2, j2), nxt) {
                    0 <= nfo[flat(nci, i2, j2)] < nfr.len() && node(nfr[nfo[flat(nci, i2, j2)] as int]) == (i2, j2)
                } else {
                    nfo[flat(nci, i2, j2)] == -1
                }
            } by {
                lemma_flat_bounds(nci, nri, i2, j2);
                if i2 == i && j2 == j {
                } else {
                    if flat(nci, i2, j2) == f {
                        lemma_flat_injective(nci, i2, j2, i as int, j as int);
                    }
                    assert(nfo[flat(nci, i2, j2)] == fo[flat(nci, i2, j2)]);
                    assert(fo[flat(nci, i2, j2)] == fo[flat(nci, i2, j2)]);
                    if fo[flat(nci, i2, j2)] >= 0 {
                        assert(nfr[fo[flat(nci, i2, j2)] as int] == fr[fo[flat(nci, i2, j2)] as int]);
                    }
                }
            }
        }
    } else {
        proof {
            let nxt = step(nci, nri, cur);
            assert forall|i2: int, j2: int| #![trigger fo[flat(nci, i2, j2)]] in_lattice(nci, nri, i2, j2) implies {
                if anchor_of@[flat(nci, i2, j2)] < 0 && scan_before(nci, nri, (i2, j2), nxt) {
                    0 <= fo[flat(nci, i2, j2)] < fr.len() && node(fr[fo[flat(nci, i2, j2)] as int]) == (i2, j2)
                } else {
                    fo[flat(nci, i2, j2)] == -1
                }
            } by {
                assert(fo[flat(nci, i2, j2)] == fo[flat(nci, i2, j2)]);
            }
        }
    }
}

/// Numbering at the end of a row-major line is numbering at the start of
/// the next line (and likewise for column-major order).
proof fn lemma_wrap(
    nc: int,
    nr: int,
    anchor_of: Seq<i32>,
    free_of: Seq<i32>,
    free: Seq<(usize, usize)>,
    from: (int, int),
    to: (int, int),
)
    requires
        numbering_ok(nc, nr, anchor_of, free_of, free, from),
        forall|i: int, j: int| in_lattice(nc, nr, i, j) ==>
            (scan_before(nc, nr, (i, j), from) <==> scan_before(nc, nr, (i, j), to)),
    ensures
        numbering_ok(nc, nr, anchor_of, free_of, free, to),
{
    assert forall|p: int| 0 <= p < free.len() implies scan_before(nc, nr, node(#[trigger] free[p]), to) by {
        assert(in_lattice(nc, nr, free[p].0 as int, free[p].1 as int));
        assert(scan_before(nc, nr, (free[p].0 as int, free[p].1 as int), from));
    }
    assert forall|i: int, j: int| #![trigger free_of[flat(nc, i, j)]] in_lattice(nc, nr, i, j) implies {
        if anchor_of[flat(nc, i, j)] < 0 && scan_before(nc, nr, (i, j), to) {
            0 <= free_of[flat(nc, i, j)] < free.len() && node(free[free_of[flat(nc, i, j)] as int]) == (i, j)
        } else {
            free_of[flat(nc, i, j)] == -1
        }
    } by {
        assert(scan_before(nc, nr, (i, j), from) == scan_before(nc, nr, (i, j), to));
    }
}

impl Anchors {
    /// Number the free nodes (those no sample sits on) with the fast index
    /// along the shorter lattice axis: per flat index the free node's
    /// position (`-1` for an anchor), and the free nodes in that order.
    pub fn number_free_nodes(&self) -> (r: (Vec<i32>, Vec<(usize, usize)>))
        requires
            self.wf(),
        ensures
            free_numbering(self.width(), self.height(), self.anchor_index(), r.0@, r.1@),
    {
        let nc = self.nc;
        let nr = self.nr;
        let ghost nci = nc as int;
        let ghost nri = nr as int;
        let anchor_of = &self.anchor_of;
        let n = nc * nr;
        let mut free_of: Vec<i32> = Vec::new();
        let mut f: usize = 0;
        while f < n
            invariant
                f <= n,
                free_of@ == Seq::new(f as nat, |k: int| -1i32),
            decreases n - f,
        {
            free_of.push(-1);
            assert(free_of@ =~= Seq::new((f + 1) as nat, |k: int| -1i32));
            f = f + 1;
        }
        let mut free: Vec<(usize, usize)> = Vec::new();
        proof {
            assert forall|i: int, j: int| #![trigger free_of@[flat(nci, i, j)]] in_lattice(nci, nri, i, j) implies {
                if anchor_of@[flat(nci, i, j)] < 0 && scan_before(nci, nri, (i, j), (0, 0)) {
                    0 <= free_of@[flat(nci, i, j)] < free@.len() && node(free@[free_of@[flat(nci, i, j)] as int]) == (i, j)
                } else {
                    free_of@[flat(nci, i, j)] == -1
                }
            } by {
                lemma_flat_bounds(nci, nri, i, j);
            }
        }
        if nc <= nr {
            let mut j: usize = 0;
            while j < nr
                invariant
                    nc <= nr,
                    nc * nr <= i32::MAX,
                    anchor_of@.len() == nc * nr,
                    j <= nr,
                    numbering_ok(nci, nri, anchor_of@, free_of@, free@, (0, j as int)),
                    nci == nc,
                    nri == nr,
                decreases nr - j,
            {
                let mut i: usize = 0;
                while i < nc
                    invariant
                        nc <= nr,
                        nc * nr <= i32::MAX,
                        anchor_of@.len() == nc * nr,
                        i <= nc,
                        j < nr,
                        numbering_ok(nci, nri, anchor_of@, free_of@, free@, (i as int, j as int)),
                        nci == nc,
                        nri == nr,
                    decreases nc - i,
                {
                    visit(nc, nr, anchor_of, i, j, &mut free_of, &mut free);
                    i = i + 1;
                }
                proof {
                    lemma_wrap(nci, nri, anchor_of@, free_of@, free@, (nc as int, j as int), (0, j + 1));
                }
                j = j + 1;
            }
        } else {
            let mut i: usize = 0;
            while i < nc
                invariant
                    nc > nr,
                    nc * nr <= i32::MAX,
                    anchor_of@.len() == nc * nr,
                    i <= nc,
                    numbering_ok(nci, nri, anchor_of@, free_of@, free@, (i as int, 0)),
                    nci == nc,
                    nri == nr,
                decreases nc - i,
            {
                let mut j: usize = 0;
                while j < nr
                    invariant
                        nc > nr,
                        nc * nr <= i32::MAX,
                        anchor_of@.len() == nc * nr,
                        j <= nr,
                        i < nc,
                        numbering_ok(nci, nri, anchor_of@, free_of@, free@, (i as int, j as int)),
                        nci == nc,
                        nri == nr,
                    decreases nr - j,
                {
                    visit(nc, nr, anchor_of, i, j, &mut free_of, &mut free);
                    j = j + 1;
                }
                proof {
                    lemma_wrap(nci, nri, anchor_of@, free_of@, free@, (i as int, nr as int), (i + 1, 0));
                }
                i = i + 1;
            }
        }
        proof {
            let end = if nc <= nr { (0int, nr as int) } else { (nc as int, 0int) };
            assert(numbering_ok(nci, nri, anchor_of@, free_of@, free@, end));
            assert forall|i: int, j: int| #![trigger free_of@[flat(nci, i, j)]] in_lattice(nci, nri, i, j) implies {
                if anchor_of@[flat(nci, i, j)] < 0 {
                    0 <= free_of@[flat(nci, i, j)] < free@.len() && node(free@[free_of@[flat(nci, i, j)] as int]) == (i, j)
                } else {
                    free_of@[flat(nci, i, j)] == -1
                }
            } by {
                assert(scan_before(nci, nri, (i, j), end));
            }
        }
        (free_of, free)
    }
}

impl Anchors {
    /// The bookkeeping as plain vectors: per flat index the anchor's
    /// position (`-1` for a free node), the anchor nodes, and the sample ids
    /// on each.
    pub fn into_parts(self) -> (r: (Vec<i32>, Vec<(usize, usize)>, Vec<Vec<u32>>))
        ensures
            r.0@ == self.anchor_index(),
            r.1@ == self.anchor_nodes(),
            id_lists(r.2@) == self.anchor_samples(),
    {
        (self.anchor_of, self.nodes, self.samples)
    }
}

/// Each anchor node is listed once.
pub proof fn law_anchor_nodes_distinct(
    nc: int,
    nr: int,
    anchor_of: Seq<i32>,
    nodes: Seq<(usize, usize)>,
    samples: Seq<Seq<u32>>,
)
    requires
        anchors_ok(nc, nr, anchor_of, nodes, samples),
    ensures
        nodes.no_duplicates(),
{
    assert forall|p: int, q: int| 0 <= p < nodes.len() && 0 <= q < nodes.len() && p != q implies nodes[p] != nodes[q] by {
        assert(anchor_of[flat(nc, nodes[p].0 as int, nodes[p].1 as int)] == p);
        assert(anchor_of[flat(nc, nodes[q].0 as int, nodes[q].1 as int)] == q);
    }
}

/// Anchors and free nodes partition the lattice: every node is an anchor
/// node or a free node, never both.
pub proof fn law_anchors_and_free_partition(
    nc: int,
    nr: int,
    anchor_of: Seq<i32>,
    nodes: Seq<(usize, usize)>,
    samples: Seq<Seq<u32>>,
    free_of: Seq<i32>,
    free: Seq<(usize, usize)>,
    i: int,
    j: int,
)
    requires
        anchors_ok(nc, nr, anchor_of, nodes, samples),
        free_numbering(nc, nr, anchor_of, free_of, free),
        in_lattice(nc, nr, i, j),
    ensures
        (exists|a: int| 0 <= a < nodes.len() && node(nodes[a]) == (i, j))
            != (exists|p: int| 0 <= p < free.len() && node(free[p]) == (i, j)),
{
    let f = flat(nc, i, j);
    assert(anchor_of[f] == anchor_of[f]);
    assert(free_of[f] == free_of[f]);
    if anchor_of[f] < 0 {
        let p = free_of[f] as int;
        assert(node(free[p]) == (i, j));
        if exists|a: int| 0 <= a < nodes.len() && node(nodes[a]) == (i, j) {
            let a = choose|a: int| 0 <= a < nodes.len() && node(nodes[a]) == (i, j);
            assert(anchor_of[flat(nc, nodes[a].0 as int, nodes[a].1 as int)] == a);
        }
    } else {
        let a = anchor_of[f] as int;
        assert(node(nodes[a]) == (i, j));
        if exists|p: int| 0 <= p < free.len() && node(free[p]) == (i, j) {
            let p = choose|p: int| 0 <= p < free.len() && node(free[p]) == (i, j);
            assert(anchor_of[flat(nc, free[p].0 as int, free[p].1 as int)] < 0);
        }
    }
}

} // verus!
