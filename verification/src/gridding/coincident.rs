//! Grouping coincident samples: samples at the same location (the same pair
//! of coordinate keys) form one group, the groups numbered in the order of
//! their first sample, with how many samples each holds. Kriging merges each
//! group into one datum so that its system stays non-singular.

use vstd::prelude::*;
use std::collections::HashMap;

verus! {

broadcast use vstd::std_specs::hash::group_hash_axioms;

/// A pair of 64-bit keys as one 128-bit map key.
pub open spec fn pair_key(k: (u64, u64)) -> int {
    k.0 * 0x1_0000_0000_0000_0000 + k.1
}

/// Distinct pairs have distinct map keys.
proof fn lemma_pair_key_injective(a: (u64, u64), b: (u64, u64))
    requires
        pair_key(a) == pair_key(b),
    ensures
        a == b,
{
    let m: int = 0x1_0000_0000_0000_0000;
    if a.0 < b.0 {
        assert((b.0 - a.0) * m >= m) by (nonlinear_arith)
            requires
                a.0 < b.0,
                m > 0,
        ;
        assert(b.0 * m == a.0 * m + (b.0 - a.0) * m) by (nonlinear_arith);
    } else if b.0 < a.0 {
        assert((a.0 - b.0) * m >= m) by (nonlinear_arith)
            requires
                b.0 < a.0,
                m > 0,
        ;
        assert(a.0 * m == b.0 * m + (a.0 - b.0) * m) by (nonlinear_arith);
    }
}

fn key_of(k: (u64, u64)) -> (r: u128)
    ensures
        r == pair_key(k),
{
    assert(k.0 * 0x1_0000_0000_0000_0000 <= 0xffff_ffff_ffff_ffff * 0x1_0000_0000_0000_0000) by (nonlinear_arith)
        requires
            k.0 <= 0xffff_ffff_ffff_ffff,
    ;
    (k.0 as u128) * 0x1_0000_0000_0000_0000u128 + (k.1 as u128)
}

/// How many entries of `s` are `g`.
pub open spec fn count_of(s: Seq<usize>, g: int) -> nat
    decreases s.len(),
{
    if s.len() == 0 {
        0
    } else {
        count_of(s.drop_last(), g) + if s.last() == g { 1nat } else { 0nat }
    }
}

proof fn lemma_count_push(s: Seq<usize>, x: usize, g: int)
    ensures
        count_of(s.push(x), g) == count_of(s, g) + if x == g { 1nat } else { 0nat },
{
    assert(s.push(x).drop_last() =~= s);
}

proof fn lemma_count_bound(s: Seq<usize>, g: int)
    ensures
        count_of(s, g) <= s.len(),
    decreases s.len(),
{
    if s.len() > 0 {
        lemma_count_bound(s.drop_last(), g);
    }
}

/// The grouping of the first `n` keys: `group[t]` is item `t`'s group, the
/// groups numbered by first appearance (`first[g]` is group `g`'s first
/// item), items share a group exactly when their keys are equal, and
/// `count[g]` items are in group `g`.
pub open spec fn grouping(
    keys: Seq<(u64, u64)>,
    n: int,
    group: Seq<usize>,
    first: Seq<usize>,
    count: Seq<usize>,
) -> bool {
    &&& group.len() == n
    &&& first.len() == count.len()
    &&& forall|t: int| 0 <= t < n ==> (#[trigger] group[t]) < first.len() && keys[first[group[t] as int] as int] == keys[t]
    &&& forall|g: int| 0 <= g < first.len() ==> {
        &&& (#[trigger] first[g]) < n
        &&& group[first[g] as int] == g
        &&& forall|t: int| 0 <= t < first[g] ==> #[trigger] keys[t] != keys[first[g] as int]
    }
    &&& forall|g1: int, g2: int| 0 <= g1 < g2 < first.len() ==> #[trigger] first[g1] < #[trigger] first[g2]
    &&& forall|g: int| 0 <= g < count.len() ==> #[trigger] count[g] == count_of(group, g)
}

/// Group the items by key: each item's group, each group's first item, and
/// each group's size.
pub fn group_coincident(keys: &[(u64, u64)]) -> (r: (Vec<usize>, Vec<usize>, Vec<usize>))
    ensures
        grouping(keys@, keys@.len() as int, r.0@, r.1@, r.2@),
{
    let mut index: HashMap<u128, usize> = HashMap::new();
    let mut group: Vec<usize> = Vec::new();
    let mut first: Vec<usize> = Vec::new();
    let mut count: Vec<usize> = Vec::new();
    let n = keys.len();
    let mut i: usize = 0;
    while i < n
        invariant
            n == keys@.len(),
            i <= n,
            grouping(keys@, i as int, group@, first@, count@),
            forall|k: u128| #[trigger] index@.contains_key(k)
                ==> index@[k] < first@.len() && pair_key(keys@[first@[index@[k] as int] as int]) == k,
            forall|t: int| 0 <= t < i ==> #[trigger] index@.contains_key(pair_key(keys@[t]) as u128),
        decreases n - i,
    {
        let k = key_of(keys[i]);
        let ghost g0 = group@;
        let ghost f0 = first@;
        let ghost c0 = count@;
        match index.get(&k) {
            Some(g) => {
                let g = *g;
                proof {
                    let ft = f0[g as int] as int;
                    lemma_pair_key_injective(keys@[ft], keys@[i as int]);
                    lemma_count_bound(g0, g as int);
                }
                group.push(g);
                let c = count[g];
                count.set(g, c + 1);
                proof {
                    let gn = group@;
                    assert forall|gg: int| 0 <= gg < count@.len() implies #[trigger] count@[gg] == count_of(gn, gg) by {
                        lemma_count_push(g0, g, gg);
                    }
                    assert forall|t: int| 0 <= t < i + 1 implies (#[trigger] gn[t]) < first@.len()
                        && keys@[first@[gn[t] as int] as int] == keys@[t] by {
                        if t < i {
                            assert(gn[t] == g0[t]);
                        }
                    }
                    assert forall|gg: int| 0 <= gg < first@.len() implies {
                        &&& (#[trigger] first@[gg]) < i + 1
                        &&& gn[first@[gg] as int] == gg
                        &&& forall|t: int| 0 <= t < first@[gg] ==> #[trigger] keys@[t] != keys@[first@[gg] as int]
                    } by {
                        assert(gn[f0[gg] as int] == g0[f0[gg] as int]);
                    }
                    assert forall|t: int| 0 <= t < i + 1 implies #[trigger] index@.contains_key(pair_key(keys@[t]) as u128) by {}
                }
            },
            None => {
                let g = first.len();
                proof {
                    assert forall|t: int| 0 <= t < i implies keys@[t] != keys@[i as int] by {
                        assert(index@.contains_key(pair_key(keys@[t]) as u128));
                    }
                    lemma_count_bound(g0, g as int);
                }
                index.insert(k, g);
                group.push(g);
                first.push(i);
                count.push(1);
                proof {
                    let gn = group@;
                    assert(count_of(g0, g as int) == 0) by {
                        assert forall|t: int| 0 <= t < g0.len() implies g0[t] != g by {}
                        lemma_count_absent(g0, g as int);
                    }
                    assert forall|gg: int| 0 <= gg < count@.len() implies #[trigger] count@[gg] == count_of(gn, gg) by {
                        lemma_count_push(g0, g, gg);
                    }
                    assert forall|t: int| 0 <= t < i + 1 implies (#[trigger] gn[t]) < first@.len()
                        && keys@[first@[gn[t] as int] as int] == keys@[t] by {
                        if t < i {
                            assert(gn[t] == g0[t]);
                        }
                    }
                    assert forall|gg: int| 0 <= gg < first@.len() implies {
                        &&& (#[trigger] first@[gg]) < i + 1
                        &&& gn[first@[gg] as int] == gg
                        &&& forall|t: int| 0 <= t < first@[gg] ==> #[trigger] keys@[t] != keys@[first@[gg] as int]
                    } by {
                        if gg < g {
                            assert(gn[f0[gg] as int] == g0[f0[gg] as int]);
                        }
                    }
                    assert forall|kk: u128| #[trigger] index@.contains_key(kk)
                        implies index@[kk] < first@.len() && pair_key(keys@[first@[index@[kk] as int] as int]) == kk by {
                        if kk != k {
                            assert(first@[index@[kk] as int] == f0[index@[kk] as int]);
                        }
                    }
                }
            },
        }
        i = i + 1;
    }
    (group, first, count)
}

proof fn lemma_count_absent(s: Seq<usize>, g: int)
    requires
        forall|t: int| 0 <= t < s.len() ==> s[t] != g,
    ensures
        count_of(s, g) == 0,
    decreases s.len(),
{
    if s.len() > 0 {
        assert forall|t: int| 0 <= t < s.drop_last().len() implies s.drop_last()[t] != g by {
            assert(s.drop_last()[t] == s[t]);
        }
        lemma_count_absent(s.drop_last(), g);
    }
}

/// Two items land in the same group exactly when their keys are equal.
pub proof fn law_same_group_iff_same_key(
    keys: Seq<(u64, u64)>,
    n: int,
    group: Seq<usize>,
    first: Seq<usize>,
    count: Seq<usize>,
    s: int,
    t: int,
)
    requires
        grouping(keys, n, group, first, count),
        0 <= s < n,
        0 <= t < n,
    ensures
        (group[s] == group[t]) <==> (keys[s] == keys[t]),
{
    let gs = group[s] as int;
    let gt = group[t] as int;
    if keys[s] == keys[t] && gs != gt {
        let fs = first[gs] as int;
        let ft = first[gt] as int;
        if gs < gt {
            assert(first[gs] < first[gt]);
            assert(keys[fs] != keys[ft]);
        } else {
            assert(first[gt] < first[gs]);
            assert(keys[ft] != keys[fs]);
        }
    }
}

} // verus!
