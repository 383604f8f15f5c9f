//! The visiting path of a sequential Gaussian simulation: every lattice node
//! that no datum fixes, listed row by row, then put in a seeded random order
//! (Fisher–Yates) so each is simulated exactly once.

use vstd::prelude::*;
use crate::gridding::nodes::{flat, in_lattice, node};
use rand::rngs::StdRng;
use rand::RngExt;

verus! {

broadcast use {
    vstd::seq_lib::to_multiset_update,
    vstd::seq_lib::to_multiset_contains,
    vstd::multiset::group_multiset_properties,
};

#[verifier::external_type_specification]
#[verifier::external_body]
pub struct ExStdRng(StdRng);

/// `rand::RngExt::random_range` over `0..=k`: some value in `0..=k` (which
/// one depends on the generator's state, which the draw advances).
#[verifier::external_body]
fn draw_at_most(rng: &mut StdRng, k: usize) -> (r: usize)
    ensures
        r <= k,
{
    rng.random_range(0..=k)
}

/// Node `a` comes before node `b` row by row (`i` fastest).
pub open spec fn row_major_before(a: (int, int), b: (int, int)) -> bool {
    a.1 < b.1 || (a.1 == b.1 && a.0 < b.0)
}

/// The nodes listed so far by a row-by-row scan that has reached `cur`.
pub open spec fn listed_upto(
    nc: int,
    nr: int,
    fixed: Seq<bool>,
    path: Seq<(usize, usize)>,
    cur: (int, int),
) -> bool {
    &&& forall|p: int| 0 <= p < path.len() ==> {
        &&& in_lattice(nc, nr, (#[trigger] path[p]).0 as int, path[p].1 as int)
        &&& !fixed[flat(nc, path[p].0 as int, path[p].1 as int)]
        &&& row_major_before(node(path[p]), cur)
    }
    &&& forall|p: int, q: int| 0 <= p < q < path.len() ==> row_major_before(node(#[trigger] path[p]), node(#[trigger] path[q]))
    &&& forall|i: int, j: int| #![trigger fixed[flat(nc, i, j)]]
        in_lattice(nc, nr, i, j) && !fixed[flat(nc, i, j)] && row_major_before((i, j), cur)
            ==> path.contains((i as usize, j as usize))
}

/// Replace `path` with the nodes of an `nc × nr` lattice whose flag in
/// `fixed` (by flat index) is unset, row by row.
pub fn unfixed_nodes(nc: usize, nr: usize, fixed: &[bool], path: &mut Vec<(usize, usize)>)
    requires
        fixed@.len() == nc * nr,
    ensures
        forall|p: int| 0 <= p < final(path)@.len() ==> {
            &&& in_lattice(nc as int, nr as int, (#[trigger] final(path)@[p]).0 as int, final(path)@[p].1 as int)
            &&& !fixed@[flat(nc as int, final(path)@[p].0 as int, final(path)@[p].1 as int)]
        },
        forall|p: int, q: int| 0 <= p < q < final(path)@.len()
            ==> row_major_before(node(#[trigger] final(path)@[p]), node(#[trigger] final(path)@[q])),
        forall|i: int, j: int| #![trigger fixed@[flat(nc as int, i, j)]]
            in_lattice(nc as int, nr as int, i, j) && !fixed@[flat(nc as int, i, j)]
                ==> final(path)@.contains((i as usize, j as usize)),
{
    path.clear();
    let total = fixed.len();
    let ghost nci = nc as int;
    let ghost nri = nr as int;
    let mut j: usize = 0;
    while j < nr
        invariant
            fixed@.len() == nc * nr,
            total == nc * nr,
            nci == nc,
            nri == nr,
            j <= nr,
            listed_upto(nci, nri, fixed@, path@, (0, j as int)),
        decreases nr - j,
    {
        let mut i: usize = 0;
        while i < nc
            invariant
                fixed@.len() == nc * nr,
                total == nc * nr,
                nci == nc,
                nri == nr,
                i <= nc,
                j < nr,
                listed_upto(nci, nri, fixed@, path@, (i as int, j as int)),
            decreases nc - i,
        {
            proof {
                crate::gridding::nodes::lemma_flat_bounds(nci, nri, i as int, j as int);
                assert(i + j * nc < nc * nr);
            }
            let f = i + j * nc;
            let ghost before = path@;
            if !fixed[f] {
                path.push((i, j));
                proof {
                    assert forall|i2: int, j2: int| #![trigger fixed@[flat(nci, i2, j2)]]
                        in_lattice(nci, nri, i2, j2) && !fixed@[flat(nci, i2, j2)]
                            && row_major_before((i2, j2), (i + 1, j as int))
                            implies path@.contains((i2 as usize, j2 as usize)) by {
                        if i2 == i && j2 == j {
                            assert(path@[path@.len() - 1] == (i, j));
                        } else {
                            assert(before.contains((i2 as usize, j2 as usize)));
                            let w = choose|w: int| 0 <= w < before.len() && before[w] == (i2 as usize, j2 as usize);
                            assert(path@[w] == before[w]);
                        }
                    }
                    assert forall|p: int, q: int| 0 <= p < q < path@.len() implies
                        row_major_before(node(#[trigger] path@[p]), node(#[trigger] path@[q])) by {
                        assert(path@[p] == before[p]);
                        if q < before.len() {
                            assert(path@[q] == before[q]);
                        }
                    }
                    assert forall|p: int| 0 <= p < path@.len() implies {
                        &&& in_lattice(nci, nri, (#[trigger] path@[p]).0 as int, path@[p].1 as int)
                        &&& !fixed@[flat(nci, path@[p].0 as int, path@[p].1 as int)]
                        &&& row_major_before(node(path@[p]), (i + 1, j as int))
                    } by {
                        if p < before.len() {
                            assert(path@[p] == before[p]);
                        }
                    }
                }
            } else {
                proof {
                    assert forall|i2: int, j2: int| #![trigger fixed@[flat(nci, i2, j2)]]
                        in_lattice(nci, nri, i2, j2) && !fixed@[flat(nci, i2, j2)]
                            && row_major_before((i2, j2), (i + 1, j as int))
                            implies path@.contains((i2 as usize, j2 as usize)) by {
                        if i2 == i && j2 == j {
                        } else {
                            assert(row_major_before((i2, j2), (i as int, j as int)));
                        }
                    }
                }
            }
            i = i + 1;
        }
        proof {
            assert forall|i2: int, j2: int| #![trigger fixed@[flat(nci, i2, j2)]]
                in_lattice(nci, nri, i2, j2) && !fixed@[flat(nci, i2, j2)]
                    && row_major_before((i2, j2), (0, j + 1))
                    implies path@.contains((i2 as usize, j2 as usize)) by {
                assert(row_major_before((i2, j2), (nc as int, j as int)));
            }
            assert forall|p: int| 0 <= p < path@.len() implies
                row_major_before(node(#[trigger] path@[p]), (0, j + 1)) by {
                assert(row_major_before(node(path@[p]), (nc as int, j as int)));
            }
        }
        j = j + 1;
    }
    proof {
        assert forall|i2: int, j2: int| #![trigger fixed@[flat(nci, i2, j2)]]
            in_lattice(nci, nri, i2, j2) && !fixed@[flat(nci, i2, j2)]
                implies path@.contains((i2 as usize, j2 as usize)) by {
            assert(row_major_before((i2, j2), (0, nr as int)));
        }
    }
}

/// `draws` can drive a Fisher–Yates pass over `n` entries: one draw per step,
/// step `m` (which places position `n - 1 - m`) drawing a position in
/// `0 ..= n - 1 - m`.
pub open spec fn valid_draws(n: int, draws: Seq<usize>) -> bool {
    &&& draws.len() == if n > 1 { n - 1 } else { 0 }
    &&& forall|m: int| 0 <= m < draws.len() ==> #[trigger] draws[m] <= n - 1 - m
}

/// `s` after the first `m` steps of a Fisher–Yates pass driven by `draws`:
/// step `m` swaps the entry at position `s.len() - 1 - m` with the one at
/// `draws[m]`.
pub open spec fn fisher_yates<T>(s: Seq<T>, draws: Seq<usize>, m: int) -> Seq<T>
    decreases m,
{
    if m <= 0 {
        s
    } else {
        let p = fisher_yates(s, draws, m - 1);
        let k = s.len() - m;
        let d = draws[m - 1] as int;
        p.update(k, p[d]).update(d, p[k])
    }
}

/// Apply a Fisher–Yates pass driven by `draws` to `path`: for `m = 0, 1, …`
/// swap the entry at `len - 1 - m` with the one at `draws[m]`.
pub fn permute_by_draws(path: &mut Vec<(usize, usize)>, draws: &[usize])
    requires
        valid_draws(old(path)@.len() as int, draws@),
    ensures
        final(path)@ == fisher_yates(old(path)@, draws@, draws@.len() as int),
        final(path)@.len() == old(path)@.len(),
        final(path)@.to_multiset() == old(path)@.to_multiset(),
{
    let n = path.len();
    let ghost start = path@;
    let mut m: usize = 0;
    while m < draws.len()
        invariant
            n == path@.len(),
            n == start.len(),
            valid_draws(n as int, draws@),
            m <= draws@.len(),
            path@ == fisher_yates(start, draws@, m as int),
            path@.to_multiset() == start.to_multiset(),
        decreases draws.len() - m,
    {
        let k = n - 1 - m;
        let s = draws[m];
        assert(s <= k);
        let a = path[k];
        let b = path[s];
        let ghost p0 = path@;
        path.set(k, b);
        let ghost p1 = path@;
        path.set(s, a);
        proof {
            assert(p1 == p0.update(k as int, b));
            assert(p1.to_multiset() == p0.to_multiset().insert(b).remove(a));
            assert(path@ == p1.update(s as int, a));
            assert(path@.to_multiset() == p1.to_multiset().insert(a).remove(p1[s as int]));
            assert(p0.to_multiset().count(a) > 0) by {
                assert(p0[k as int] == a);
                assert(p0.contains(a));
            }
            assert(p0.to_multiset().count(b) > 0) by {
                assert(p0[s as int] == b);
                assert(p0.contains(b));
            }
            assert(path@.to_multiset() =~= p0.to_multiset());
            assert(path@ == fisher_yates(start, draws@, m + 1));
        }
        m = m + 1;
    }
}

/// Put `path` in a random order (Fisher–Yates, drawing from `rng`): for
/// `k = len - 1` down to `1`, draw a position in `0 ..= k` and swap it with
/// position `k`. Which draws come is the generator's; whatever they are, the
/// result is the pass they drive, so the same nodes, each as often as before.
pub fn shuffle(path: &mut Vec<(usize, usize)>, rng: &mut StdRng)
    ensures
        final(path)@.len() == old(path)@.len(),
        final(path)@.to_multiset() == old(path)@.to_multiset(),
        exists|draws: Seq<usize>| valid_draws(old(path)@.len() as int, draws)
            && final(path)@ == fisher_yates(old(path)@, draws, draws.len() as int),
{
    let n = path.len();
    let steps: usize = if n > 1 { n - 1 } else { 0 };
    let mut draws: Vec<usize> = Vec::new();
    while draws.len() < steps
        invariant
            steps == if n > 1 { n - 1 } else { 0 },
            draws@.len() <= steps,
            forall|m: int| 0 <= m < draws@.len() ==> #[trigger] draws@[m] <= n - 1 - m,
        decreases steps - draws@.len(),
    {
        let k = n - 1 - draws.len();
        let d = draw_at_most(rng, k);
        draws.push(d);
    }
    permute_by_draws(path, draws.as_slice());
}

} // verus!
