//! The natural-dip boundary of the minimum-curvature operator: a stencil node
//! that overruns the lattice stands for the linear extrapolation of the two
//! nodes inward of it (`z[t] = 2·z[t+1] − z[t+2]`, resolved along `i` before
//! `j`), so it folds onto in-lattice nodes with integer weights. The weights
//! reproduce any plane, which is why a planar field is an exact fixed point.

use vstd::prelude::*;

verus! {

/// How far index `t` lies outside `0 .. n`.
pub open spec fn outside(n: int, t: int) -> nat {
    if t < 0 {
        (-t) as nat
    } else if t >= n {
        (t - n + 1) as nat
    } else {
        0
    }
}

/// Each weight of `s` multiplied by `c`.
pub open spec fn scaled(s: Seq<(int, int, int)>, c: int) -> Seq<(int, int, int)> {
    s.map_values(|x: (int, int, int)| (x.0, x.1, x.2 * c))
}

/// The in-lattice nodes, with weights, that node `(i, j)` of an `nc × nr`
/// lattice stands for.
pub open spec fn fold(nc: int, nr: int, i: int, j: int) -> Seq<(int, int, int)>
    decreases outside(nc, i) + outside(nr, j),
    when nc >= 2 && nr >= 2
{
    if i < 0 {
        scaled(fold(nc, nr, i + 1, j), 2) + scaled(fold(nc, nr, i + 2, j), -1)
    } else if i >= nc {
        scaled(fold(nc, nr, i - 1, j), 2) + scaled(fold(nc, nr, i - 2, j), -1)
    } else if j < 0 {
        scaled(fold(nc, nr, i, j + 1), 2) + scaled(fold(nc, nr, i, j + 2), -1)
    } else if j >= nr {
        scaled(fold(nc, nr, i, j - 1), 2) + scaled(fold(nc, nr, i, j - 2), -1)
    } else {
        seq![(i, j, 1)]
    }
}

/// The sum of the weights of `s`, and of the weights times each coordinate.
pub open spec fn moments(s: Seq<(int, int, int)>) -> (int, int, int)
    decreases s.len(),
{
    if s.len() == 0 {
        (0, 0, 0)
    } else {
        let m = moments(s.drop_last());
        let x = s.last();
        (m.0 + x.2, m.1 + x.2 * x.0, m.2 + x.2 * x.1)
    }
}

proof fn lemma_moments_concat(a: Seq<(int, int, int)>, b: Seq<(int, int, int)>)
    ensures
        moments(a + b) == ({
            let ma = moments(a);
            let mb = moments(b);
            (ma.0 + mb.0, ma.1 + mb.1, ma.2 + mb.2)
        }),
    decreases b.len(),
{
    if b.len() > 0 {
        lemma_moments_concat(a, b.drop_last());
        assert((a + b).drop_last() =~= a + b.drop_last());
    } else {
        assert(a + b =~= a);
    }
}

proof fn lemma_moments_scaled(s: Seq<(int, int, int)>, c: int)
    ensures
        moments(scaled(s, c)) == ({
            let m = moments(s);
            (m.0 * c, m.1 * c, m.2 * c)
        }),
    decreases s.len(),
{
    if s.len() > 0 {
        lemma_moments_scaled(s.drop_last(), c);
        let sc = scaled(s, c);
        assert(sc.drop_last() =~= scaled(s.drop_last(), c));
        let x = s.last();
        assert(sc.last() == (x.0, x.1, x.2 * c));
        let m = moments(s.drop_last());
        assert((m.0 + x.2) * c == m.0 * c + x.2 * c) by (nonlinear_arith);
        assert((m.1 + x.2 * x.0) * c == m.1 * c + (x.2 * c) * x.0) by (nonlinear_arith);
        assert((m.2 + x.2 * x.1) * c == m.2 * c + (x.2 * c) * x.1) by (nonlinear_arith);
        assert(moments(sc) == (moments(sc.drop_last()).0 + sc.last().2,
            moments(sc.drop_last()).1 + sc.last().2 * sc.last().0,
            moments(sc.drop_last()).2 + sc.last().2 * sc.last().1));
    } else {
        assert(scaled(s, c).len() == 0);
    }
}

/// The folded weights reproduce planes: they sum to one, and their
/// weighted coordinates give back the node's own (extrapolated) position.
/// So the fold of any affine field `a + b·i + c·j` is its value at `(i, j)`.
pub proof fn law_fold_reproduces_planes(nc: int, nr: int, i: int, j: int)
    requires
        nc >= 2,
        nr >= 2,
    ensures
        moments(fold(nc, nr, i, j)) == (1int, i, j),
    decreases outside(nc, i) + outside(nr, j),
{
    if i < 0 {
        law_fold_reproduces_planes(nc, nr, i + 1, j);
        law_fold_reproduces_planes(nc, nr, i + 2, j);
        lemma_moments_scaled(fold(nc, nr, i + 1, j), 2);
        lemma_moments_scaled(fold(nc, nr, i + 2, j), -1);
        lemma_moments_concat(scaled(fold(nc, nr, i + 1, j), 2), scaled(fold(nc, nr, i + 2, j), -1));
        assert(fold(nc, nr, i, j) == scaled(fold(nc, nr, i + 1, j), 2) + scaled(fold(nc, nr, i + 2, j), -1));
    } else if i >= nc {
        law_fold_reproduces_planes(nc, nr, i - 1, j);
        law_fold_reproduces_planes(nc, nr, i - 2, j);
        lemma_moments_scaled(fold(nc, nr, i - 1, j), 2);
        lemma_moments_scaled(fold(nc, nr, i - 2, j), -1);
        lemma_moments_concat(scaled(fold(nc, nr, i - 1, j), 2), scaled(fold(nc, nr, i - 2, j), -1));
        assert(fold(nc, nr, i, j) == scaled(fold(nc, nr, i - 1, j), 2) + scaled(fold(nc, nr, i - 2, j), -1));
    } else if j < 0 {
        law_fold_reproduces_planes(nc, nr, i, j + 1);
        law_fold_reproduces_planes(nc, nr, i, j + 2);
        lemma_moments_scaled(fold(nc, nr, i, j + 1), 2);
        lemma_moments_scaled(fold(nc, nr, i, j + 2), -1);
        lemma_moments_concat(scaled(fold(nc, nr, i, j + 1), 2), scaled(fold(nc, nr, i, j + 2), -1));
        assert(fold(nc, nr, i, j) == scaled(fold(nc, nr, i, j + 1), 2) + scaled(fold(nc, nr, i, j + 2), -1));
    } else if j >= nr {
        law_fold_reproduces_planes(nc, nr, i, j - 1);
        law_fold_reproduces_planes(nc, nr, i, j - 2);
        lemma_moments_scaled(fold(nc, nr, i, j - 1), 2);
        lemma_moments_scaled(fold(nc, nr, i, j - 2), -1);
        lemma_moments_concat(scaled(fold(nc, nr, i, j - 1), 2), scaled(fold(nc, nr, i, j - 2), -1));
        assert(fold(nc, nr, i, j) == scaled(fold(nc, nr, i, j - 1), 2) + scaled(fold(nc, nr, i, j - 2), -1));
    } else {
        let s = seq![(i, j, 1int)];
        assert(fold(nc, nr, i, j) == s);
        assert(s.drop_last() =~= Seq::<(int, int, int)>::empty());
        assert(moments(s.drop_last()) == (0int, 0int, 0int));
        assert(s.last() == (i, j, 1int));
        assert(moments(s) == (0 + 1int, 0 + 1 * i, 0 + 1 * j));
    }
}

/// Every node of a fold lies on the lattice, with a weight of magnitude at
/// most `2` to the power of how far the folded node lies outside.
pub proof fn lemma_fold_bounds(nc: int, nr: int, i: int, j: int)
    requires
        nc >= 2,
        nr >= 2,
    ensures
        forall|k: int| 0 <= k < fold(nc, nr, i, j).len() ==> {
            &&& 0 <= (#[trigger] fold(nc, nr, i, j)[k]).0 < nc
            &&& 0 <= fold(nc, nr, i, j)[k].1 < nr
            &&& -pow2(outside(nc, i) + outside(nr, j)) <= fold(nc, nr, i, j)[k].2 <= pow2(outside(nc, i) + outside(nr, j))
        },
    decreases outside(nc, i) + outside(nr, j),
{
    let o = outside(nc, i) + outside(nr, j);
    if i < 0 || i >= nc || j < 0 || j >= nr {
        let (a, b) = if i < 0 {
            ((i + 1, j), (i + 2, j))
        } else if i >= nc {
            ((i - 1, j), (i - 2, j))
        } else if j < 0 {
            ((i, j + 1), (i, j + 2))
        } else {
            ((i, j - 1), (i, j - 2))
        };
        lemma_fold_bounds(nc, nr, a.0, a.1);
        lemma_fold_bounds(nc, nr, b.0, b.1);
        let fa = fold(nc, nr, a.0, a.1);
        let fb = fold(nc, nr, b.0, b.1);
        let oa = outside(nc, a.0) + outside(nr, a.1);
        let ob = outside(nc, b.0) + outside(nr, b.1);
        assert(oa + 1 == o);
        assert(ob < o);
        lemma_pow2_step(oa);
        lemma_pow2_mono(ob, oa);
        let f = fold(nc, nr, i, j);
        assert(f == scaled(fa, 2) + scaled(fb, -1));
        assert forall|k: int| 0 <= k < f.len() implies {
            &&& 0 <= (#[trigger] f[k]).0 < nc
            &&& 0 <= f[k].1 < nr
            &&& -pow2(o) <= f[k].2 <= pow2(o)
        } by {
            if k < fa.len() {
                assert(f[k] == scaled(fa, 2)[k]);
                assert(fa[k] == fa[k]);
            } else {
                assert(f[k] == scaled(fb, -1)[k - fa.len()]);
                assert(fb[k - fa.len()] == fb[k - fa.len()]);
            }
        }
    }
}

/// `2^k`.
pub open spec fn pow2(k: nat) -> int
    decreases k,
{
    if k == 0 {
        1
    } else {
        2 * pow2((k - 1) as nat)
    }
}

proof fn lemma_pow2_step(k: nat)
    ensures
        pow2(k + 1) == 2 * pow2(k),
        pow2(k) >= 1,
    decreases k,
{
    if k > 0 {
        lemma_pow2_step((k - 1) as nat);
    }
}

proof fn lemma_pow2_mono(a: nat, b: nat)
    requires
        a <= b,
    ensures
        pow2(a) <= pow2(b),
    decreases b,
{
    if a < b {
        lemma_pow2_mono(a, (b - 1) as nat);
        lemma_pow2_step((b - 1) as nat);
    }
}

/// The weights as machine integers.
pub open spec fn fold_view(v: Seq<(usize, usize, i64)>) -> Seq<(int, int, int)> {
    v.map_values(|x: (usize, usize, i64)| (x.0 as int, x.1 as int, x.2 as int))
}

/// The in-lattice nodes and integer weights that stencil node `(i, j)` of an
/// `nc × nr` lattice stands for, in the order the boundary resolves them.
/// The stencil reaches at most two nodes past an edge.
pub fn fold_node(nc: usize, nr: usize, i: isize, j: isize) -> (r: Vec<(usize, usize, i64)>)
    requires
        2 <= nc <= isize::MAX - 2,
        2 <= nr <= isize::MAX - 2,
        -2 <= i < nc + 2,
        -2 <= j < nr + 2,
    ensures
        fold_view(r@) == fold(nc as int, nr as int, i as int, j as int),
    decreases outside(nc as int, i as int) + outside(nr as int, j as int),
{
    proof {
        lemma_fold_bounds(nc as int, nr as int, i as int, j as int);
    }
    let nci = nc as isize;
    let nri = nr as isize;
    if i < 0 || i >= nci || j < 0 || j >= nri {
        let (ai, aj, bi, bj) = if i < 0 {
            (i + 1, j, i + 2, j)
        } else if i >= nci {
            (i - 1, j, i - 2, j)
        } else if j < 0 {
            (i, j + 1, i, j + 2)
        } else {
            (i, j - 1, i, j - 2)
        };
        let a = fold_node(nc, nr, ai, aj);
        let b = fold_node(nc, nr, bi, bj);
        let mut out: Vec<(usize, usize, i64)> = Vec::new();
        let ghost fa = fold(nc as int, nr as int, ai as int, aj as int);
        let ghost fb = fold(nc as int, nr as int, bi as int, bj as int);
        proof {
            lemma_fold_bounds(nc as int, nr as int, ai as int, aj as int);
            lemma_fold_bounds(nc as int, nr as int, bi as int, bj as int);
            lemma_pow2_le_16(outside(nc as int, ai as int) + outside(nr as int, aj as int));
            lemma_pow2_le_16(outside(nc as int, bi as int) + outside(nr as int, bj as int));
        }
        let mut k: usize = 0;
        while k < a.len()
            invariant
                fold_view(a@) == fa,
                k <= a@.len(),
                fold_view(out@) == scaled(fa, 2).subrange(0, k as int),
                forall|q: int| 0 <= q < fa.len() ==> -16 <= (#[trigger] fa[q]).2 <= 16,
            decreases a.len() - k,
        {
            let (x, y, w) = a[k];
            proof {
                assert(fa[k as int] == (x as int, y as int, w as int));
            }
            let ghost before = fold_view(out@);
            out.push((x, y, 2 * w));
            proof {
                assert(fold_view(out@) =~= before.push((x as int, y as int, 2 * w)));
                assert(scaled(fa, 2)[k as int] == (x as int, y as int, (w as int) * 2));
                assert(scaled(fa, 2).subrange(0, k + 1) =~= scaled(fa, 2).subrange(0, k as int).push(scaled(fa, 2)[k as int]));
            }
            k = k + 1;
        }
        let mut k: usize = 0;
        while k < b.len()
            invariant
                fold_view(b@) == fb,
                k <= b@.len(),
                fold_view(out@) == scaled(fa, 2) + scaled(fb, -1).subrange(0, k as int),
                forall|q: int| 0 <= q < fb.len() ==> -16 <= (#[trigger] fb[q]).2 <= 16,
            decreases b.len() - k,
        {
            let (x, y, w) = b[k];
            proof {
                assert(fb[k as int] == (x as int, y as int, w as int));
            }
            let ghost before = fold_view(out@);
            out.push((x, y, -w));
            proof {
                assert(fold_view(out@) =~= before.push((x as int, y as int, -w)));
                assert(scaled(fb, -1)[k as int] == (x as int, y as int, (w as int) * -1));
                assert(scaled(fb, -1).subrange(0, k + 1) =~= scaled(fb, -1).subrange(0, k as int).push(scaled(fb, -1)[k as int]));
                assert(scaled(fa, 2) + scaled(fb, -1).subrange(0, k + 1) =~= (scaled(fa, 2) + scaled(fb, -1).subrange(0, k as int)).push(scaled(fb, -1)[k as int]));
            }
            k = k + 1;
        }
        assert(scaled(fa, 2).subrange(0, fa.len() as int) =~= scaled(fa, 2));
        assert(scaled(fb, -1).subrange(0, fb.len() as int) =~= scaled(fb, -1));
        out
    } else {
        let mut out: Vec<(usize, usize, i64)> = Vec::new();
        out.push((i as usize, j as usize, 1));
        assert(fold_view(out@) =~= seq![(i as int, j as int, 1int)]);
        out
    }
}

/// Nodes folded from the stencil's reach have small weights.
proof fn lemma_pow2_le_16(k: nat)
    requires
        k <= 4,
    ensures
        pow2(k) <= 16,
{
    reveal_with_fuel(pow2, 5);
}

} // verus!
