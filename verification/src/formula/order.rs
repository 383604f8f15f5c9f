//! Evaluation order of a block of assignments: duplicate outputs are refused,
//! and an order in which every assignment comes after the assignments whose
//! outputs it reads is found (Kahn's algorithm), or the block is reported
//! cyclic.

use vstd::prelude::*;
use vstd::set_lib::{lemma_int_range, lemma_len_subset, lemma_subset_equality, set_int_range};
use crate::error::AlgoError;
use crate::formula::ast::{mentions_var, vars_of};
use crate::formula::assignment::{Assignment, AssignmentView};
use crate::text::{chars_eq, chars_of, concat3, names, strictly_sorted};

verus! {

/// The views of a slice of assignments.
pub open spec fn views(v: Seq<Assignment>) -> Seq<AssignmentView> {
    v.map_values(|a: Assignment| a@)
}

/// The output names of a block, in source order.
pub open spec fn outputs(asg: Seq<AssignmentView>) -> Seq<Seq<char>> {
    asg.map_values(|a: AssignmentView| a.lhs)
}

/// Assignment `i` reads the output of assignment `d`.
pub open spec fn reads(asg: Seq<AssignmentView>, i: int, d: int) -> bool {
    0 <= d < asg.len() && mentions_var(asg[i].expr, asg[d].lhs)
}

/// `order` lists every assignment once, each after all the assignments whose
/// outputs it reads.
pub open spec fn is_evaluation_order(asg: Seq<AssignmentView>, order: Seq<int>) -> bool {
    &&& order.len() == asg.len()
    &&& order.no_duplicates()
    &&& forall|k: int| 0 <= k < order.len() ==> 0 <= #[trigger] order[k] < asg.len()
    &&& forall|k: int, j: int|
        0 <= k < order.len() && 0 <= j < order.len() && reads(asg, #[trigger] order[k], #[trigger] order[j])
            ==> j < k
}

/// Some evaluation order exists (the dependencies are acyclic).
pub open spec fn has_evaluation_order(asg: Seq<AssignmentView>) -> bool {
    exists|o: Seq<int>| is_evaluation_order(asg, o)
}

/// Name `j` repeats an earlier name.
pub open spec fn repeats_earlier(ns: Seq<Seq<char>>, j: int) -> bool {
    exists|i: int| 0 <= i < j && ns[i] == ns[j]
}

/// The first position, at or after `j`, whose name repeats an earlier one.
pub open spec fn first_repeat(ns: Seq<Seq<char>>, j: int) -> Option<int>
    decreases ns.len() - j,
{
    if j < 0 || j >= ns.len() {
        None
    } else if repeats_earlier(ns, j) {
        Some(j)
    } else {
        first_repeat(ns, j + 1)
    }
}

/// The number of entries of `dl` not yet marked in `done`.
pub open spec fn pending(dl: Seq<int>, done: Seq<bool>) -> nat
    decreases dl.len(),
{
    if dl.len() == 0 {
        0
    } else {
        pending(dl.drop_last(), done) + if done[dl.last()] { 0nat } else { 1nat }
    }
}

proof fn lemma_pending_zero(dl: Seq<int>, done: Seq<bool>)
    ensures
        pending(dl, done) == 0 <==> forall|k: int| 0 <= k < dl.len() ==> done[#[trigger] dl[k]],
    decreases dl.len(),
{
    if dl.len() > 0 {
        lemma_pending_zero(dl.drop_last(), done);
        if pending(dl, done) == 0 {
            assert forall|k: int| 0 <= k < dl.len() implies done[#[trigger] dl[k]] by {
                if k < dl.len() - 1 {
                    assert(dl.drop_last()[k] == dl[k]);
                }
            }
        } else if forall|k: int| 0 <= k < dl.len() ==> done[#[trigger] dl[k]] {
            assert forall|k: int| 0 <= k < dl.drop_last().len() implies done[#[trigger] dl.drop_last()[k]] by {
                assert(dl.drop_last()[k] == dl[k]);
            }
            assert(done[dl[dl.len() - 1]]);
        }
    }
}

proof fn lemma_pending_mark(dl: Seq<int>, done: Seq<bool>, x: int)
    requires
        dl.no_duplicates(),
        0 <= x < done.len(),
        !done[x],
        forall|k: int| 0 <= k < dl.len() ==> 0 <= #[trigger] dl[k] < done.len(),
    ensures
        pending(dl, done) == pending(dl, done.update(x, true)) + if dl.contains(x) { 1nat } else { 0nat },
    decreases dl.len(),
{
    if dl.len() > 0 {
        let rest = dl.drop_last();
        assert forall|k: int| 0 <= k < rest.len() implies 0 <= #[trigger] rest[k] < done.len() by {
            assert(rest[k] == dl[k]);
        }
        lemma_pending_mark(rest, done, x);
        let l = dl.last();
        if l == x {
            assert(!rest.contains(x)) by {
                if rest.contains(x) {
                    let k = choose|k: int| 0 <= k < rest.len() && rest[k] == x;
                    assert(dl[k] == dl[dl.len() - 1]);
                }
            }
            assert(dl.contains(x)) by {
                assert(dl[dl.len() - 1] == x);
            }
        } else {
            assert(rest.contains(x) == dl.contains(x)) by {
                if dl.contains(x) {
                    let k = choose|k: int| 0 <= k < dl.len() && dl[k] == x;
                    assert(k < dl.len() - 1);
                    assert(rest[k] == x);
                }
                if rest.contains(x) {
                    let k = choose|k: int| 0 <= k < rest.len() && rest[k] == x;
                    assert(dl[k] == x);
                }
            }
        }
    }
}

/// A no-repeat sequence of `n` positions in `[0, n)` covers every position.
proof fn lemma_covers(o: Seq<int>, n: int)
    requires
        o.no_duplicates(),
        o.len() == n,
        forall|k: int| 0 <= k < o.len() ==> 0 <= #[trigger] o[k] < n,
    ensures
        forall|i: int| 0 <= i < n ==> o.contains(i),
{
    o.unique_seq_to_set();
    lemma_int_range(0, n);
    assert(o.to_set().subset_of(set_int_range(0, n)));
    lemma_subset_equality(o.to_set(), set_int_range(0, n));
    assert forall|i: int| 0 <= i < n implies o.contains(i) by {
        assert(set_int_range(0, n).contains(i));
        assert(o.to_set().contains(i));
    }
}

/// A no-repeat sequence of fewer than `n` positions in `[0, n)` misses one.
proof fn lemma_misses(o: Seq<int>, n: int)
    requires
        o.no_duplicates(),
        o.len() < n,
        forall|k: int| 0 <= k < o.len() ==> 0 <= #[trigger] o[k] < n,
    ensures
        exists|i: int| 0 <= i < n && !o.contains(i),
{
    o.unique_seq_to_set();
    lemma_int_range(0, n);
    if forall|i: int| 0 <= i < n ==> o.contains(i) {
        assert(set_int_range(0, n).subset_of(o.to_set())) by {
            assert forall|i: int| set_int_range(0, n).contains(i) implies o.to_set().contains(i) by {
                assert(o.contains(i));
            }
        }
        lemma_len_subset(set_int_range(0, n), o.to_set());
    }
}

/// A no-repeat sequence of positions in `[0, n)` has at most `n` entries.
proof fn lemma_at_most(o: Seq<int>, n: int)
    requires
        o.no_duplicates(),
        0 <= n,
        forall|k: int| 0 <= k < o.len() ==> 0 <= #[trigger] o[k] < n,
    ensures
        o.len() <= n,
{
    o.unique_seq_to_set();
    lemma_int_range(0, n);
    assert(o.to_set().subset_of(set_int_range(0, n)));
    lemma_len_subset(o.to_set(), set_int_range(0, n));
}

/// Whether two names are equal.
fn same_name(a: &str, b: &str) -> (r: bool)
    ensures
        r == (a@ == b@),
{
    let ac = chars_of(a);
    let bc = chars_of(b);
    chars_eq(ac.as_slice(), bc.as_slice())
}

/// The first assignment whose output is `name`.
fn find_output(assignments: &[Assignment], name: &str) -> (r: Option<usize>)
    ensures
        match r {
            Some(d) => d < assignments@.len() && assignments@[d as int]@.lhs == name@
                && forall|k: int| 0 <= k < d ==> (#[trigger] assignments@[k])@.lhs != name@,
            None => forall|k: int| 0 <= k < assignments@.len() ==> (#[trigger] assignments@[k])@.lhs != name@,
        },
{
    let mut k: usize = 0;
    while k < assignments.len()
        invariant
            k <= assignments@.len(),
            forall|j: int| 0 <= j < k ==> (#[trigger] assignments@[j])@.lhs != name@,
        decreases assignments.len() - k,
    {
        if same_name(assignments[k].lhs(), name) {
            return Some(k);
        }
        k = k + 1;
    }
    None
}


proof fn lemma_no_repeat(ns: Seq<Seq<char>>, j: int)
    requires
        0 <= j,
        first_repeat(ns, j) is None,
    ensures
        forall|k: int| j <= k < ns.len() ==> !repeats_earlier(ns, k),
    decreases ns.len() - j,
{
    if j < ns.len() {
        lemma_no_repeat(ns, j + 1);
    }
}

/// The first assignment whose output repeats an earlier one.
fn first_repeated_output(assignments: &[Assignment]) -> (r: Option<usize>)
    ensures
        r matches Some(j) ==> j < assignments@.len(),
        first_repeat(outputs(views(assignments@)), 0) == match r {
            Some(j) => Some(j as int),
            None => None::<int>,
        },
{
    let ghost ns = outputs(views(assignments@));
    let n = assignments.len();
    let mut j: usize = 0;
    while j < n
        invariant
            n == assignments@.len(),
            ns == outputs(views(assignments@)),
            ns.len() == n,
            j <= n,
            first_repeat(ns, 0) == first_repeat(ns, j as int),
        decreases n - j,
    {
        let mut i: usize = 0;
        while i < j
            invariant
                i <= j < n,
                n == assignments@.len(),
                ns == outputs(views(assignments@)),
                ns.len() == n,
                first_repeat(ns, 0) == first_repeat(ns, j as int),
                forall|k: int| 0 <= k < i ==> ns[k] != ns[j as int],
            decreases j - i,
        {
            if same_name(assignments[i].lhs(), assignments[j].lhs()) {
                assert(ns[i as int] == assignments@[i as int]@.lhs);
                assert(ns[j as int] == assignments@[j as int]@.lhs);
                assert(repeats_earlier(ns, j as int));
                return Some(j);
            }
            assert(ns[i as int] == assignments@[i as int]@.lhs);
            assert(ns[j as int] == assignments@[j as int]@.lhs);
            i = i + 1;
        }
        assert(!repeats_earlier(ns, j as int));
        j = j + 1;
    }
    None
}

/// The lists `v` as sequences of positions.
pub open spec fn int_lists(v: Seq<Vec<usize>>) -> Seq<Seq<int>> {
    v.map_values(|l: Vec<usize>| l@.map_values(|x: usize| x as int))
}

/// The dependency graph of a block: `dl[i]` lists (once each) the assignments
/// that `i` reads; `dep[d]` lists (once each) the assignments that read `d`.
pub open spec fn graph_ok(asg: Seq<AssignmentView>, dl: Seq<Seq<int>>, dep: Seq<Seq<int>>) -> bool {
    &&& dl.len() == asg.len()
    &&& dep.len() == asg.len()
    &&& forall|i: int| 0 <= i < asg.len() ==> (#[trigger] dl[i]).no_duplicates()
    &&& forall|i: int, k: int| 0 <= i < asg.len() && 0 <= k < dl[i].len() ==> 0 <= #[trigger] dl[i][k] < asg.len()
    &&& forall|i: int, d: int| 0 <= i < asg.len() ==> (#[trigger] dl[i].contains(d) <==> reads(asg, i, d))
    &&& forall|d: int| 0 <= d < asg.len() ==> (#[trigger] dep[d]).no_duplicates()
    &&& forall|d: int, i: int| 0 <= d < asg.len() ==> (#[trigger] dep[d].contains(i) <==> (0 <= i < asg.len() && dl[i].contains(d)))
}

/// The entries of `s` strictly increase.
pub open spec fn increasing(s: Seq<int>) -> bool {
    forall|p: int, q: int| 0 <= p < q < s.len() ==> s[p] < s[q]
}

/// Some name among the first `k` of `vn` is output `d`.
pub open spec fn found_before(vn: Seq<Seq<char>>, ns: Seq<Seq<char>>, k: int, d: int) -> bool {
    exists|kk: int| 0 <= kk < k && vn[kk] == #[trigger] ns[d]
}

/// Build the dependency graph: in-degrees (how many block outputs each
/// assignment reads) and, for each assignment, the assignments that read it.
fn dependency_graph(assignments: &[Assignment]) -> (r: (Vec<usize>, Vec<Vec<usize>>, Ghost<Seq<Seq<int>>>))
    requires
        first_repeat(outputs(views(assignments@)), 0) is None,
    ensures
        r.0@.len() == assignments@.len(),
        graph_ok(views(assignments@), r.2@, int_lists(r.1@)),
        forall|i: int| 0 <= i < assignments@.len() ==> r.0@[i] == (#[trigger] r.2@[i]).len(),
        forall|d: int| 0 <= d < assignments@.len() ==> increasing(#[trigger] int_lists(r.1@)[d]),
{
    let ghost asg = views(assignments@);
    let ghost ns = outputs(asg);
    proof {
        lemma_no_repeat(ns, 0);
    }
    let n = assignments.len();
    let mut indegree: Vec<usize> = Vec::new();
    let mut dependents: Vec<Vec<usize>> = Vec::new();
    let mut t: usize = 0;
    while t < n
        invariant
            t <= n,
            indegree@.len() == t,
            dependents@.len() == t,
            forall|i: int| 0 <= i < t ==> indegree@[i] == 0,
            forall|i: int| 0 <= i < t ==> (#[trigger] dependents@[i])@.len() == 0,
        decreases n - t,
    {
        indegree.push(0);
        dependents.push(Vec::new());
        t = t + 1;
    }
    let ghost mut dl: Seq<Seq<int>> = Seq::empty();
    let mut idx: usize = 0;
    while idx < n
        invariant
            n == assignments@.len(),
            asg == views(assignments@),
            ns == outputs(asg),
            forall|k: int| 0 <= k < ns.len() ==> !repeats_earlier(ns, k),
            idx <= n,
            indegree@.len() == n,
            dependents@.len() == n,
            dl.len() == idx,
            forall|i: int| 0 <= i < idx ==> indegree@[i] == (#[trigger] dl[i]).len(),
            forall|i: int| idx <= i < n ==> indegree@[i] == 0,
            forall|i: int| 0 <= i < idx ==> (#[trigger] dl[i]).no_duplicates(),
            forall|i: int, k: int| 0 <= i < idx && 0 <= k < dl[i].len() ==> 0 <= #[trigger] dl[i][k] < n,
            forall|i: int, d: int| 0 <= i < idx ==> (#[trigger] dl[i].contains(d) <==> reads(asg, i, d)),
            forall|d: int| 0 <= d < n ==> (#[trigger] int_lists(dependents@)[d]).no_duplicates(),
            forall|d: int, i: int| 0 <= d < n ==> (#[trigger] int_lists(dependents@)[d].contains(i)
                <==> (0 <= i < idx && dl[i].contains(d))),
            forall|d: int| 0 <= d < n ==> increasing(#[trigger] int_lists(dependents@)[d]),
            forall|d: int, k: int| 0 <= d < n && 0 <= k < int_lists(dependents@)[d].len()
                ==> #[trigger] int_lists(dependents@)[d][k] < idx,
        decreases n - idx,
    {
        let vars = assignments[idx].variables();
        let ghost vn = names(vars@);
        let ghost mut cur: Seq<int> = Seq::empty();
        let mut k: usize = 0;
        while k < vars.len()
            invariant
                n == assignments@.len(),
                asg == views(assignments@),
                ns == outputs(asg),
                forall|j: int| 0 <= j < ns.len() ==> !repeats_earlier(ns, j),
                idx < n,
                k <= vars@.len(),
                vn == names(vars@),
                strictly_sorted(vn),
                indegree@.len() == n,
                dependents@.len() == n,
                dl.len() == idx,
                forall|i: int| 0 <= i < idx ==> indegree@[i] == (#[trigger] dl[i]).len(),
                forall|i: int| idx < i < n ==> indegree@[i] == 0,
                indegree@[idx as int] == cur.len(),
                cur.len() <= k,
                cur.no_duplicates(),
                forall|j: int| 0 <= j < cur.len() ==> 0 <= #[trigger] cur[j] < n,
                forall|d: int| #[trigger] cur.contains(d) <==> (0 <= d < n && found_before(vn, ns, k as int, d)),
                forall|d: int| 0 <= d < n ==> (#[trigger] int_lists(dependents@)[d]).no_duplicates(),
                forall|d: int, i: int| 0 <= d < n ==> (#[trigger] int_lists(dependents@)[d].contains(i)
                    <==> ((0 <= i < idx && dl[i].contains(d)) || (i == idx && cur.contains(d)))),
                forall|d: int| 0 <= d < n ==> increasing(#[trigger] int_lists(dependents@)[d]),
                forall|d: int, k: int| 0 <= d < n && 0 <= k < int_lists(dependents@)[d].len()
                    ==> #[trigger] int_lists(dependents@)[d][k] <= idx,
            decreases vars@.len() - k,
        {
            match find_output(assignments, vars[k].as_str()) {
                Some(d) => {
                    proof {
                        assert(ns[d as int] == vn[k as int]);
                        assert(!cur.contains(d as int)) by {
                            if cur.contains(d as int) {
                                let kk = choose|kk: int| 0 <= kk < k && vn[kk] == #[trigger] ns[d as int];
                                assert(found_before(vn, ns, k as int, d as int));
                                assert(crate::text::seq_lt(vn[kk], vn[k as int]));
                                crate::text::lemma_seq_lt_irreflexive(vn[kk]);
                            }
                        }
                    }
                    let ghost before = int_lists(dependents@);
                    let ghost old_cur = cur;
                    indegree.set(idx, indegree[idx] + 1);
                    dependents[d].push(idx);
                    proof {
                        let after = int_lists(dependents@);
                        assert(after[d as int] =~= before[d as int].push(idx as int));
                        assert forall|e: int| 0 <= e < n && e != d implies after[e] == before[e] by {}
                        assert(!before[d as int].contains(idx as int));
                        cur = cur.push(d as int);
                        assert forall|e: int| #[trigger] cur.contains(e) <==> (0 <= e < n && found_before(vn, ns, k + 1, e)) by {
                            if cur.contains(e) && e != d {
                                let j = choose|j: int| 0 <= j < cur.len() && cur[j] == e;
                                assert(old_cur[j] == e);
                                assert(old_cur.contains(e));
                            }
                            if e != d && 0 <= e < n && found_before(vn, ns, k + 1, e) {
                                let kk = choose|kk: int| 0 <= kk < k + 1 && vn[kk] == #[trigger] ns[e];
                                if kk < k { assert(found_before(vn, ns, k as int, e)); }
                                if kk == k {
                                    if e < d {
                                        assert(repeats_earlier(ns, d as int));
                                    } else {
                                        assert(repeats_earlier(ns, e));
                                    }
                                }
                                assert(old_cur.contains(e));
                                let j = choose|j: int| 0 <= j < old_cur.len() && old_cur[j] == e;
                                assert(cur[j] == e);
                            }
                            if e == d {
                                assert(cur[cur.len() - 1] == e);
                            }
                        }
                        assert forall|e: int, i: int| 0 <= e < n implies (#[trigger] after[e].contains(i)
                            <==> ((0 <= i < idx && dl[i].contains(e)) || (i == idx && cur.contains(e)))) by {
                            assert(before[e].contains(i) <==> ((0 <= i < idx && dl[i].contains(e)) || (i == idx && old_cur.contains(e))));
                            if e == d {
                                if after[e].contains(i) && i != idx {
                                    let j = choose|j: int| 0 <= j < after[e].len() && after[e][j] == i;
                                    assert(before[e][j] == i);
                                }
                                if before[e].contains(i) {
                                    let j = choose|j: int| 0 <= j < before[e].len() && before[e][j] == i;
                                    assert(after[e][j] == i);
                                }
                                if i == idx {
                                    assert(after[e][after[e].len() - 1] == i);
                                }
                            } else {
                                assert(cur.contains(e) == old_cur.contains(e)) by {
                                    if cur.contains(e) {
                                        let j = choose|j: int| 0 <= j < cur.len() && cur[j] == e;
                                        assert(old_cur[j] == e);
                                    }
                                    if old_cur.contains(e) {
                                        let j = choose|j: int| 0 <= j < old_cur.len() && old_cur[j] == e;
                                        assert(cur[j] == e);
                                    }
                                }
                            }
                        }
                        assert forall|e: int| 0 <= e < n implies (#[trigger] after[e]).no_duplicates() by {
                            if e == d {
                                assert(before[e].no_duplicates());
                            }
                        }
                        assert forall|q: int| 0 <= q < before[d as int].len() implies #[trigger] before[d as int][q] < idx by {
                            if before[d as int][q] == idx {
                                assert(before[d as int].contains(idx as int));
                            }
                        }
                        assert forall|e: int| 0 <= e < n implies increasing(#[trigger] after[e]) by {
                            if e == d {
                                assert forall|p: int, q: int| 0 <= p < q < after[e].len() implies after[e][p] < after[e][q] by {
                                    if q == after[e].len() - 1 {
                                        assert(after[e][p] == before[e][p]);
                                    } else {
                                        assert(after[e][p] == before[e][p] && after[e][q] == before[e][q]);
                                    }
                                }
                            }
                        }
                        assert forall|e: int, q: int| 0 <= e < n && 0 <= q < after[e].len() implies #[trigger] after[e][q] <= idx by {
                            if e == d && q < before[e].len() {
                                assert(after[e][q] == before[e][q]);
                            }
                        }
                    }
                }
                None => {
                    proof {
                        assert forall|e: int| #[trigger] cur.contains(e) <==> (0 <= e < n && found_before(vn, ns, k + 1, e)) by {
                            if 0 <= e < n && found_before(vn, ns, k + 1, e) {
                                let kk = choose|kk: int| 0 <= kk < k + 1 && vn[kk] == #[trigger] ns[e];
                                if kk < k { assert(found_before(vn, ns, k as int, e)); }
                                if kk == k {
                                    assert(assignments@[e]@.lhs == ns[e]);
                                    assert(vn[k as int] == vars@[k as int]@);
                                } else {
                                    assert(cur.contains(e));
                                }
                            }
                        }
                    }
                }
            }
            k = k + 1;
        }
        proof {
            assert forall|d: int| cur.contains(d) <==> reads(asg, idx as int, d) by {
                let vs = vars_of(asg[idx as int].expr);
                assert(vn.to_set() == vs);
                if 0 <= d < n {
                    if reads(asg, idx as int, d) {
                        assert(vs.contains(ns[d]));
                        assert(vn.to_set().contains(ns[d]));
                        let kk = choose|kk: int| 0 <= kk < vn.len() && vn[kk] == ns[d];
                        assert(vn[kk] == ns[d]);
                    }
                    if cur.contains(d) {
                        assert(found_before(vn, ns, vars@.len() as int, d));
                        let kk = choose|kk: int| 0 <= kk < vars@.len() && vn[kk] == #[trigger] ns[d];
                        assert(vn.to_set().contains(vn[kk]));
                    }
                }
            }
            dl = dl.push(cur);
            assert(dl[idx as int] == cur);
        }
        idx = idx + 1;
    }
    (indegree, dependents, Ghost(dl))
}


/// Positions as integers.
pub open spec fn ints(v: Seq<usize>) -> Seq<int> {
    v.map_values(|x: usize| x as int)
}

proof fn lemma_pending_none(dl: Seq<int>, done: Seq<bool>)
    requires
        forall|k: int| 0 <= k < dl.len() ==> !done[#[trigger] dl[k]],
    ensures
        pending(dl, done) == dl.len(),
    decreases dl.len(),
{
    if dl.len() > 0 {
        assert forall|k: int| 0 <= k < dl.drop_last().len() implies !done[#[trigger] dl.drop_last()[k]] by {
            assert(dl.drop_last()[k] == dl[k]);
        }
        lemma_pending_none(dl.drop_last(), done);
        assert(!done[dl[dl.len() - 1]]);
    }
}

/// Some of the first `k` entries of `r` is `d`.
pub open spec fn listed_before(r: Seq<int>, k: int, d: int) -> bool {
    exists|m: int| 0 <= m < k && r[m] == d
}

/// With every finished assignment (`done`) listed in `r`, every unfinished one
/// still waiting on an unfinished one, the first `k` entries of any evaluation
/// order are all finished.
proof fn lemma_order_prefix_finished(
    asg: Seq<AssignmentView>,
    dl: Seq<Seq<int>>,
    dep: Seq<Seq<int>>,
    r: Seq<int>,
    done: Seq<bool>,
    o: Seq<int>,
    k: int,
)
    requires
        graph_ok(asg, dl, dep),
        done.len() == asg.len(),
        forall|i: int| 0 <= i < asg.len() ==> (#[trigger] done[i] <==> r.contains(i)),
        forall|i: int| 0 <= i < asg.len() && !done[i] ==> pending(#[trigger] dl[i], done) > 0,
        is_evaluation_order(asg, o),
        forall|i: int| 0 <= i < asg.len() ==> o.contains(i),
        0 <= k <= o.len(),
    ensures
        forall|j: int| 0 <= j < k ==> done[#[trigger] o[j]],
    decreases k,
{
    if k > 0 {
        lemma_order_prefix_finished(asg, dl, dep, r, done, o, k - 1);
        let u = o[k - 1];
        if !done[u] {
            assert(pending(dl[u], done) > 0);
            lemma_pending_zero(dl[u], done);
            let m = choose|m: int| 0 <= m < dl[u].len() && !done[#[trigger] dl[u][m]];
            let d = dl[u][m];
            assert(dl[u].contains(d));
            assert(reads(asg, u, d));
            assert(o.contains(d));
            let j = choose|j: int| 0 <= j < o.len() && o[j] == d;
            assert(reads(asg, o[k - 1], o[j]));
            assert(j < k - 1);
        }
    }
}

/// When no unfinished assignment is ready, no evaluation order exists.
proof fn lemma_stuck_is_cyclic(
    asg: Seq<AssignmentView>,
    dl: Seq<Seq<int>>,
    dep: Seq<Seq<int>>,
    r: Seq<int>,
    done: Seq<bool>,
)
    requires
        graph_ok(asg, dl, dep),
        done.len() == asg.len(),
        r.no_duplicates(),
        r.len() < asg.len(),
        forall|k: int| 0 <= k < r.len() ==> 0 <= #[trigger] r[k] < asg.len(),
        forall|i: int| 0 <= i < asg.len() ==> (#[trigger] done[i] <==> r.contains(i)),
        forall|i: int| 0 <= i < asg.len() && !done[i] ==> pending(#[trigger] dl[i], done) > 0,
    ensures
        !has_evaluation_order(asg),
{
    if has_evaluation_order(asg) {
        let o = choose|o: Seq<int>| is_evaluation_order(asg, o);
        lemma_covers(o, asg.len() as int);
        lemma_order_prefix_finished(asg, dl, dep, r, done, o, o.len() as int);
        lemma_misses(r, asg.len() as int);
        let x = choose|x: int| 0 <= x < asg.len() && !r.contains(x);
        assert(o.contains(x));
        let j = choose|j: int| 0 <= j < o.len() && o[j] == x;
        assert(done[o[j]]);
    }
}

/// `o` is a partial evaluation order: distinct assignments, each after
/// every assignment it reads.
pub open spec fn is_partial_order(asg: Seq<AssignmentView>, o: Seq<int>) -> bool {
    &&& o.no_duplicates()
    &&& forall|k: int| 0 <= k < o.len() ==> 0 <= #[trigger] o[k] < asg.len()
    &&& forall|k: int, d: int| 0 <= k < o.len() && #[trigger] reads(asg, o[k], d)
        ==> exists|j: int| 0 <= j < k && #[trigger] o[j] == d
}

/// Assignment `i` can be evaluated: it depends on no cycle, so some partial
/// evaluation order reaches it.
pub open spec fn resolvable(asg: Seq<AssignmentView>, i: int) -> bool {
    exists|o: Seq<int>| is_partial_order(asg, o) && o.contains(i)
}

/// The outputs, among the first `n` assignments, of those that cannot be
/// evaluated (each depends on a cycle), in source order.
pub open spec fn unresolved_outputs(asg: Seq<AssignmentView>, n: int) -> Seq<Seq<char>>
    decreases n,
{
    if n <= 0 {
        Seq::empty()
    } else {
        unresolved_outputs(asg, n - 1) + if !resolvable(asg, n - 1) {
            seq![asg[n - 1].lhs]
        } else {
            Seq::empty()
        }
    }
}

/// Names joined with `", "`.
pub open spec fn joined(parts: Seq<Seq<char>>) -> Seq<char>
    decreases parts.len(),
{
    if parts.len() == 0 {
        Seq::empty()
    } else if parts.len() == 1 {
        parts[0]
    } else {
        joined(parts.drop_last()) + ", "@ + parts.last()
    }
}

/// The message a cyclic block is refused with: the outputs of the
/// assignments that depend on a cycle.
pub open spec fn cycle_message(asg: Seq<AssignmentView>) -> Seq<char> {
    "cyclic formula dependencies involving "@ + joined(unresolved_outputs(asg, asg.len() as int))
}

/// An unresolvable assignment among the first `n` puts its output in the
/// list of unresolved outputs.
proof fn lemma_unresolved_nonempty(asg: Seq<AssignmentView>, n: int, x: int)
    requires
        0 <= x < n,
        !resolvable(asg, x),
    ensures
        unresolved_outputs(asg, n).len() > 0,
    decreases n,
{
    if x < n - 1 {
        lemma_unresolved_nonempty(asg, n - 1, x);
    }
}

/// The cyclic-dependency error, naming the assignments left waiting (those
/// with a positive in-degree).
fn cycle_error(assignments: &[Assignment], indegree: &Vec<usize>) -> (r: AlgoError)
    requires
        indegree@.len() == assignments@.len(),
        forall|x: int| 0 <= x < assignments@.len()
            ==> (indegree@[x] > 0 <==> !resolvable(views(assignments@), x)),
    ensures
        r matches AlgoError::InvalidArgument(m) && m@ == cycle_message(views(assignments@)),
{
    let ghost asg = views(assignments@);
    let mut listed = String::from_str("");
    proof {
        reveal_strlit("");
    }
    let mut first = true;
    let mut i: usize = 0;
    while i < assignments.len()
        invariant
            asg == views(assignments@),
            indegree@.len() == assignments@.len(),
            forall|x: int| 0 <= x < assignments@.len() ==> (indegree@[x] > 0 <==> !resolvable(asg, x)),
            i <= assignments@.len(),
            listed@ == joined(unresolved_outputs(asg, i as int)),
            first == (unresolved_outputs(asg, i as int).len() == 0),
        decreases assignments.len() - i,
    {
        let ghost before = unresolved_outputs(asg, i as int);
        if indegree[i] > 0 {
            let ghost name = asg[i as int].lhs;
            assert(unresolved_outputs(asg, i + 1) == before.push(name)) by {
                assert(before + seq![name] =~= before.push(name));
            }
            assert(before.push(name).drop_last() =~= before);
            if !first {
                listed.append(", ");
            }
            listed.append(assignments[i].lhs());
            first = false;
        } else {
            assert(unresolved_outputs(asg, i + 1) =~= before);
        }
        i = i + 1;
    }
    proof {
        reveal_strlit("");
    }
    let m = concat3("cyclic formula dependencies involving ", listed.as_str(), "");
    assert(m@ =~= "cyclic formula dependencies involving "@ + listed@);
    AlgoError::InvalidArgument(m)
}

/// The assignments Kahn's algorithm has finished form a partial evaluation
/// order, so each of them is resolvable.
proof fn lemma_finished_resolvable(asg: Seq<AssignmentView>, dl: Seq<Seq<int>>, dep: Seq<Seq<int>>, r: Seq<int>, x: int)
    requires
        graph_ok(asg, dl, dep),
        r.no_duplicates(),
        forall|k: int| 0 <= k < r.len() ==> 0 <= #[trigger] r[k] < asg.len(),
        forall|k: int, d: int| 0 <= k < r.len() && #[trigger] dl[r[k]].contains(d) ==> listed_before(r, k, d),
        r.contains(x),
    ensures
        resolvable(asg, x),
{
    assert forall|k: int, d: int| 0 <= k < r.len() && #[trigger] reads(asg, r[k], d)
        implies exists|j: int| 0 <= j < k && #[trigger] r[j] == d by {
        assert(dl[r[k]].contains(d));
        assert(listed_before(r, k, d));
    }
    assert(is_partial_order(asg, r));
}

/// When every assignment whose reads are all finished is itself finished, no
/// partial evaluation order reaches an unfinished assignment.
proof fn lemma_unfinished_unresolvable(
    asg: Seq<AssignmentView>,
    dl: Seq<Seq<int>>,
    dep: Seq<Seq<int>>,
    done: Seq<bool>,
    o: Seq<int>,
    k: int,
)
    requires
        graph_ok(asg, dl, dep),
        done.len() == asg.len(),
        forall|i: int| 0 <= i < asg.len() && !done[i] ==> pending(#[trigger] dl[i], done) > 0,
        is_partial_order(asg, o),
        0 <= k <= o.len(),
    ensures
        forall|j: int| 0 <= j < k ==> done[#[trigger] o[j]],
    decreases k,
{
    if k > 0 {
        lemma_unfinished_unresolvable(asg, dl, dep, done, o, k - 1);
        let u = o[k - 1];
        if !done[u] {
            assert(pending(dl[u], done) > 0);
            lemma_pending_zero(dl[u], done);
            let m = choose|m: int| 0 <= m < dl[u].len() && !done[#[trigger] dl[u][m]];
            let d = dl[u][m];
            assert(dl[u].contains(d));
            assert(reads(asg, o[k - 1], d));
            let j = choose|j: int| 0 <= j < k - 1 && #[trigger] o[j] == d;
            assert(done[o[j]]);
        }
    }
}

/// The position, among the first `k` entries of `o`, of the last
/// assignment that assignment `v` reads; `-1` if it reads none of them.
pub open spec fn last_read(asg: Seq<AssignmentView>, o: Seq<int>, v: int, k: int) -> int
    decreases k,
{
    if k <= 0 {
        -1
    } else if reads(asg, v, o[k - 1]) {
        k - 1
    } else {
        last_read(asg, o, v, k - 1)
    }
}

/// `o` is in the order a first-in first-out queue releases it: each
/// assignment as soon as the last assignment it reads has been evaluated,
/// those released together in source order.
pub open spec fn queue_ordered(asg: Seq<AssignmentView>, o: Seq<int>) -> bool {
    forall|p: int, q: int| 0 <= p < q < o.len() ==> {
        ||| last_read(asg, o, #[trigger] o[p], o.len() as int) < last_read(asg, o, #[trigger] o[q], o.len() as int)
        ||| last_read(asg, o, o[p], o.len() as int) == last_read(asg, o, o[q], o.len() as int) && o[p] < o[q]
    }
}

proof fn lemma_last_read_prefix(asg: Seq<AssignmentView>, r: Seq<int>, x: int, v: int, k: int)
    requires
        k <= r.len(),
    ensures
        last_read(asg, r.push(v), x, k) == last_read(asg, r, x, k),
    decreases k,
{
    if k > 0 {
        assert(r.push(v)[k - 1] == r[k - 1]);
        lemma_last_read_prefix(asg, r, x, v, k - 1);
    }
}

proof fn lemma_last_read_skip(asg: Seq<AssignmentView>, r: Seq<int>, v: int, m: int, k: int)
    requires
        0 <= m <= k <= r.len(),
        forall|j: int| m <= j < k ==> !reads(asg, v, #[trigger] r[j]),
    ensures
        last_read(asg, r, v, k) == last_read(asg, r, v, m),
    decreases k - m,
{
    if k > m {
        lemma_last_read_skip(asg, r, v, m, k - 1);
    }
}

proof fn lemma_last_read_bound(asg: Seq<AssignmentView>, r: Seq<int>, v: int, k: int)
    ensures
        -1 <= last_read(asg, r, v, k) < if k > 0 { k } else { 0 },
    decreases k,
{
    if k > 0 {
        lemma_last_read_bound(asg, r, v, k - 1);
    }
}

/// The last-read position of an assignment whose reads all lie in the first
/// `head` entries, the last of them at `head - 1`.
proof fn lemma_last_read_at(asg: Seq<AssignmentView>, dl: Seq<Seq<int>>, dep: Seq<Seq<int>>, r: Seq<int>, v: int, head: int)
    requires
        graph_ok(asg, dl, dep),
        0 <= v < asg.len(),
        r.no_duplicates(),
        0 < head <= r.len(),
        forall|d: int| #[trigger] dl[v].contains(d) ==> listed_before(r, head, d),
        dl[v].contains(r[head - 1]),
    ensures
        last_read(asg, r, v, r.len() as int) == head - 1,
{
    assert forall|j: int| head <= j < r.len() implies !reads(asg, v, #[trigger] r[j]) by {
        if reads(asg, v, r[j]) {
            assert(dl[v].contains(r[j]));
            assert(listed_before(r, head, r[j]));
            let m = choose|m: int| 0 <= m < head && r[m] == r[j];
        }
    }
    lemma_last_read_skip(asg, r, v, head, r.len() as int);
    assert(reads(asg, v, r[head - 1]));
}

/// Appending an assignment released by the entry at `head - 1` keeps a
/// first-in first-out release order.
proof fn lemma_release_keeps_order(
    asg: Seq<AssignmentView>,
    dl: Seq<Seq<int>>,
    dep: Seq<Seq<int>>,
    r: Seq<int>,
    head: int,
    v: int,
    lv: Seq<int>,
    t: int,
)
    requires
        graph_ok(asg, dl, dep),
        0 <= v < asg.len(),
        forall|k: int| 0 <= k < r.len() ==> 0 <= #[trigger] r[k] < asg.len(),
        r.no_duplicates(),
        !r.contains(v),
        0 < head <= r.len(),
        forall|k: int, d: int| 0 <= k < head && #[trigger] dl[r[k]].contains(d) ==> listed_before(r, k, d),
        forall|k: int, d: int| head <= k < r.len() && #[trigger] dl[r[k]].contains(d) ==> listed_before(r, head, d),
        forall|d: int| #[trigger] dl[v].contains(d) ==> listed_before(r, head, d),
        dl[v].contains(r[head - 1]),
        queue_ordered(asg, r),
        forall|k: int| 0 <= k < r.len() ==> last_read(asg, r, #[trigger] r[k], r.len() as int) <= head - 1,
        forall|k: int, t2: int| 0 <= k < r.len() && last_read(asg, r, #[trigger] r[k], r.len() as int) == head - 1
            && t <= t2 < lv.len() ==> r[k] < #[trigger] lv[t2],
        increasing(lv),
        0 <= t < lv.len(),
        lv[t] == v,
    ensures
        queue_ordered(asg, r.push(v)),
        forall|k: int| 0 <= k < r.len() + 1 ==> last_read(asg, r.push(v), #[trigger] r.push(v)[k], (r.len() + 1) as int) <= head - 1,
        forall|k: int, t2: int| 0 <= k < r.len() + 1 && last_read(asg, r.push(v), #[trigger] r.push(v)[k], (r.len() + 1) as int) == head - 1
            && t + 1 <= t2 < lv.len() ==> r.push(v)[k] < #[trigger] lv[t2],
        forall|k: int, d: int| 0 <= k < head && #[trigger] dl[r.push(v)[k]].contains(d) ==> listed_before(r.push(v), k, d),
        forall|k: int, d: int| head <= k < r.len() + 1 && #[trigger] dl[r.push(v)[k]].contains(d) ==> listed_before(r.push(v), head, d),
{
    let r2 = r.push(v);
    let n2 = (r.len() + 1) as int;
    // Existing entries do not read `v`: all they read lies before `head`, and `v` does not.
    assert forall|k: int| 0 <= k < r.len() implies last_read(asg, r2, #[trigger] r[k], n2) == last_read(asg, r, r[k], r.len() as int) by {
        if reads(asg, r[k], v) {
            assert(dl[r[k]].contains(v));
            if k < head {
                assert(listed_before(r, k, v));
            } else {
                assert(listed_before(r, head, v));
            }
            let m = choose|m: int| 0 <= m < r.len() && r[m] == v;
            assert(r.contains(v));
        }
        assert(r2[r.len() as int] == v);
        lemma_last_read_prefix(asg, r, r[k], v, r.len() as int);
    }
    assert(r2.no_duplicates()) by {
        assert forall|p: int, q: int| 0 <= p < q < r2.len() implies r2[p] != r2[q] by {
            if q == r.len() {
                assert(r2[p] == r[p]);
                if r[p] == v {
                    assert(r.contains(v));
                }
            } else {
                assert(r2[p] == r[p] && r2[q] == r[q]);
            }
        }
    }
    assert forall|d: int| #[trigger] dl[v].contains(d) implies listed_before(r2, head, d) by {
        assert(listed_before(r, head, d));
        let m = choose|m: int| 0 <= m < head && r[m] == d;
        assert(r2[m] == d);
    }
    assert(r2[head - 1] == r[head - 1]);
    lemma_last_read_at(asg, dl, dep, r2, v, head);
    assert(last_read(asg, r2, r2[r.len() as int], n2) == head - 1);
    assert forall|p: int, q: int| 0 <= p < q < r2.len() implies {
        ||| last_read(asg, r2, #[trigger] r2[p], r2.len() as int) < last_read(asg, r2, #[trigger] r2[q], r2.len() as int)
        ||| last_read(asg, r2, r2[p], r2.len() as int) == last_read(asg, r2, r2[q], r2.len() as int) && r2[p] < r2[q]
    } by {
        assert(r2[p] == r[p]);
        assert(last_read(asg, r2, r[p], n2) == last_read(asg, r, r[p], r.len() as int));
        if q < r.len() {
            assert(r2[q] == r[q]);
            assert(last_read(asg, r2, r[q], n2) == last_read(asg, r, r[q], r.len() as int));
        } else {
            assert(r2[q] == v);
            if last_read(asg, r, r[p], r.len() as int) == head - 1 {
                assert(r[p] < lv[t]);
            }
        }
    }
    assert forall|k: int| 0 <= k < r.len() + 1 implies last_read(asg, r2, #[trigger] r2[k], (r.len() + 1) as int) <= head - 1 by {
        if k < r.len() {
            assert(r2[k] == r[k]);
        }
    }
    assert forall|k: int, t2: int| 0 <= k < r.len() + 1 && last_read(asg, r2, #[trigger] r2[k], (r.len() + 1) as int) == head - 1
        && t + 1 <= t2 < lv.len() implies r2[k] < #[trigger] lv[t2] by {
        if k < r.len() {
            assert(r2[k] == r[k]);
        } else {
            assert(lv[t] < lv[t2]);
        }
    }
    assert forall|k: int, d: int| 0 <= k < head && #[trigger] dl[r2[k]].contains(d) implies listed_before(r2, k, d) by {
        assert(r2[k] == r[k]);
        assert(listed_before(r, k, d));
        let m = choose|m: int| 0 <= m < k && r[m] == d;
        assert(r2[m] == d);
    }
    assert forall|k: int, d: int| head <= k < r.len() + 1 && #[trigger] dl[r2[k]].contains(d) implies listed_before(r2, head, d) by {
        if k < r.len() {
            assert(r2[k] == r[k]);
            assert(listed_before(r, head, d));
            let m = choose|m: int| 0 <= m < head && r[m] == d;
            assert(r2[m] == d);
        } else {
            assert(r2[k] == v);
        }
    }
}

/// An assignment none of whose reads is still pending has all of them
/// among the first `head` entries of `r`.
proof fn lemma_deps_listed(
    asg: Seq<AssignmentView>,
    dl: Seq<Seq<int>>,
    dep: Seq<Seq<int>>,
    r: Seq<int>,
    done: Seq<bool>,
    head: int,
    v: int,
)
    requires
        graph_ok(asg, dl, dep),
        0 <= v < asg.len(),
        0 <= head <= r.len(),
        done.len() == asg.len(),
        forall|x: int| 0 <= x < asg.len() ==> (#[trigger] done[x] <==> r.subrange(0, head).contains(x)),
        pending(dl[v], done) == 0,
    ensures
        forall|d: int| #[trigger] dl[v].contains(d) ==> listed_before(r, head, d),
{
    lemma_pending_zero(dl[v], done);
    assert forall|d: int| #[trigger] dl[v].contains(d) implies listed_before(r, head, d) by {
        let m = choose|m: int| 0 <= m < dl[v].len() && dl[v][m] == d;
        assert(done[dl[v][m]]);
        assert(r.subrange(0, head).contains(d));
        let q = choose|q: int| 0 <= q < head && r.subrange(0, head)[q] == d;
        assert(r[q] == d);
    }
}

/// Topologically order a set of parsed assignments: the positions of the
/// assignments in an order where each comes after the assignments whose
/// outputs it reads.
pub fn evaluation_order(assignments: &[Assignment]) -> (r: Result<Vec<usize>, AlgoError>)
    ensures
        match first_repeat(outputs(views(assignments@)), 0) {
            Some(j) => r matches Err(AlgoError::InvalidArgument(m))
                && m@ == "duplicate assignment lhs `"@ + outputs(views(assignments@))[j] + "`"@,
            None => if has_evaluation_order(views(assignments@)) {
                r matches Ok(o) && is_evaluation_order(views(assignments@), ints(o@))
                    && queue_ordered(views(assignments@), ints(o@))
            } else {
                r matches Err(AlgoError::InvalidArgument(m)) && m@ == cycle_message(views(assignments@))
                    && unresolved_outputs(views(assignments@), assignments@.len() as int).len() > 0
            },
        },
{
    match first_repeated_output(assignments) {
        Some(j) => {
            assert(outputs(views(assignments@))[j as int] == assignments@[j as int]@.lhs);
            return Err(AlgoError::InvalidArgument(concat3("duplicate assignment lhs `", assignments[j].lhs(), "`")));
        }
        None => {}
    }
    let (mut indegree, dependents, Ghost(dl)) = dependency_graph(assignments);
    let n = assignments.len();
    let ghost asg = views(assignments@);
    let ghost dep = int_lists(dependents@);
    let mut ready: Vec<usize> = Vec::new();
    let mut i: usize = 0;
    while i < n
        invariant
            n == assignments@.len(),
            indegree@.len() == n,
            i <= n,
            ints(ready@).no_duplicates(),
            forall|k: int| 0 <= k < ready@.len() ==> (#[trigger] ready@[k]) < i,
            increasing(ints(ready@)),
            forall|k: int| 0 <= k < ready@.len() ==> indegree@[#[trigger] ready@[k] as int] == 0,
            forall|j: int| 0 <= j < i && indegree@[j] == 0 ==> ints(ready@).contains(j),
        decreases n - i,
    {
        if indegree[i] == 0 {
            let ghost before = ints(ready@);
            ready.push(i);
            proof {
                assert(ints(ready@) =~= before.push(i as int));
                assert(!before.contains(i as int)) by {
                    if before.contains(i as int) {
                        let k = choose|k: int| 0 <= k < before.len() && before[k] == i;
                        assert(ready@[k] < i);
                    }
                }
                assert forall|j: int| 0 <= j < i + 1 && indegree@[j] == 0 implies ints(ready@).contains(j) by {
                    if j < i {
                        let k = choose|k: int| 0 <= k < before.len() && before[k] == j;
                        assert(ints(ready@)[k] == j);
                    } else {
                        assert(ints(ready@)[ready@.len() - 1] == j);
                    }
                }
            }
        } else {
            proof {
                assert forall|j: int| 0 <= j < i + 1 && indegree@[j] == 0 implies ints(ready@).contains(j) by {}
            }
        }
        i = i + 1;
    }
    let ghost mut done: Seq<bool> = Seq::new(n as nat, |x: int| false);
    proof {
        assert forall|x: int| 0 <= x < n implies indegree@[x] == pending(#[trigger] dl[x], done) by {
            lemma_pending_none(dl[x], done);
        }
    }
    proof {
        let r = ints(ready@);
        assert forall|k: int| 0 <= k < ready@.len() implies last_read(asg, r, #[trigger] r[k], ready@.len() as int) == -1 by {
            assert(r[k] == ready@[k] as int);
            assert forall|j: int| 0 <= j < ready@.len() implies !reads(asg, r[k], #[trigger] r[j]) by {
                if reads(asg, r[k], r[j]) {
                    assert(dl[r[k]].contains(r[j]));
                    assert(dl[r[k]].len() == 0);
                }
            }
            lemma_last_read_skip(asg, r, r[k], 0, ready@.len() as int);
        }
    }
    let mut order: Vec<usize> = Vec::new();
    let mut head: usize = 0;
    while head < ready.len()
        invariant
            n == assignments@.len(),
            asg == views(assignments@),
            dep == int_lists(dependents@),
            graph_ok(asg, dl, dep),
            indegree@.len() == n,
            done.len() == n,
            head <= ready@.len(),
            forall|x: int| 0 <= x < n ==> indegree@[x] == pending(#[trigger] dl[x], done),
            ints(order@) == ints(ready@).subrange(0, head as int),
            forall|x: int| 0 <= x < n ==> (#[trigger] done[x] <==> ints(ready@).subrange(0, head as int).contains(x)),
            ints(ready@).no_duplicates(),
            forall|k: int| 0 <= k < ready@.len() ==> (#[trigger] ready@[k]) < n,
            forall|k: int| 0 <= k < ready@.len() ==> indegree@[#[trigger] ready@[k] as int] == 0,
            forall|x: int| 0 <= x < n && indegree@[x] == 0 ==> ints(ready@).contains(x),
            forall|k: int, d: int| 0 <= k < head && #[trigger] dl[ready@[k] as int].contains(d)
                ==> listed_before(ints(ready@), k, d),
            queue_ordered(asg, ints(ready@)),
            forall|k: int| 0 <= k < ready@.len() ==> last_read(asg, ints(ready@), #[trigger] ints(ready@)[k], ready@.len() as int) < head,
            forall|d: int| 0 <= d < n ==> increasing(#[trigger] dep[d]),
        decreases n - head,
    {
        proof {
            lemma_at_most(ints(ready@), n as int);
        }
        let idx = ready[head];
        let ghost prefix = ints(ready@).subrange(0, head as int);
        proof {
            assert(!prefix.contains(idx as int)) by {
                if prefix.contains(idx as int) {
                    let m = choose|m: int| 0 <= m < prefix.len() && prefix[m] == idx;
                    assert(ints(ready@)[m] == ints(ready@)[head as int]);
                }
            }
            assert(!done[idx as int]);
            assert(pending(dl[idx as int], done) == 0);
            lemma_pending_zero(dl[idx as int], done);
            assert forall|d: int| #[trigger] dl[idx as int].contains(d) implies listed_before(ints(ready@), head as int, d) by {
                let m = choose|m: int| 0 <= m < dl[idx as int].len() && dl[idx as int][m] == d;
                assert(done[dl[idx as int][m]]);
                assert(prefix.contains(d));
                let q = choose|q: int| 0 <= q < prefix.len() && prefix[q] == d;
                assert(ints(ready@)[q] == d);
            }
        }
        head = head + 1;
        let ghost old_order = ints(order@);
        order.push(idx);
        let ghost lv = dep[idx as int];
        proof {
            assert(ints(order@) =~= ints(ready@).subrange(0, head as int));
            let old_done = done;
            done = done.update(idx as int, true);
            assert forall|k: int| 0 <= k < lv.len() implies 0 <= #[trigger] lv[k] < n by {
                assert(lv.contains(lv[k]));
            }
            assert(lv.subrange(0, lv.len() as int) =~= lv);
            assert forall|x: int| 0 <= x < n implies indegree@[x] == pending(#[trigger] dl[x], done)
                + if lv.subrange(0, lv.len() as int).contains(x) { 1nat } else { 0nat } by {
                assert(dl[x].no_duplicates());
                lemma_pending_mark(dl[x], old_done, idx as int);
                assert(dep[idx as int].contains(x) <==> dl[x].contains(idx as int));
            }
            assert forall|x: int| 0 <= x < n implies (#[trigger] done[x] <==> ints(ready@).subrange(0, head as int).contains(x)) by {
                let np = ints(ready@).subrange(0, head as int);
                assert(np =~= prefix.push(idx as int));
                if x == idx {
                    assert(np[head - 1] == x);
                } else {
                    assert(old_done[x] == done[x]);
                    if prefix.contains(x) {
                        let q = choose|q: int| 0 <= q < prefix.len() && prefix[q] == x;
                        assert(np[q] == x);
                    }
                    if np.contains(x) {
                        let q = choose|q: int| 0 <= q < np.len() && np[q] == x;
                        assert(prefix[q] == x);
                    }
                }
            }
        }
        let list = &dependents[idx];
        assert(ints(list@) == lv);
        proof {
            assert forall|k: int| 0 <= k < ready@.len() implies last_read(asg, ints(ready@), #[trigger] ints(ready@)[k], ready@.len() as int) < head - 1 by {}
        }
        let mut t: usize = 0;
        while t < list.len()
            invariant
                n == assignments@.len(),
                asg == views(assignments@),
                dep == int_lists(dependents@),
                graph_ok(asg, dl, dep),
                idx < n,
                ints(list@) == lv,
                lv == dep[idx as int],
                lv.no_duplicates(),
                forall|k: int| 0 <= k < lv.len() ==> 0 <= #[trigger] lv[k] < n,
                t <= list@.len(),
                indegree@.len() == n,
                done.len() == n,
                head <= ready@.len(),
                ints(order@) == ints(ready@).subrange(0, head as int),
                forall|x: int| 0 <= x < n ==> (#[trigger] done[x] <==> ints(ready@).subrange(0, head as int).contains(x)),
                forall|x: int| 0 <= x < n ==> indegree@[x] == pending(#[trigger] dl[x], done)
                    + if lv.subrange(t as int, lv.len() as int).contains(x) { 1nat } else { 0nat },
                ints(ready@).no_duplicates(),
                forall|k: int| 0 <= k < ready@.len() ==> (#[trigger] ready@[k]) < n,
                forall|k: int| 0 <= k < ready@.len() ==> indegree@[#[trigger] ready@[k] as int] == 0,
                forall|x: int| 0 <= x < n && indegree@[x] == 0 ==> ints(ready@).contains(x),
                forall|k: int, d: int| 0 <= k < head && #[trigger] dl[ready@[k] as int].contains(d)
                    ==> listed_before(ints(ready@), k, d),
                1 <= head,
                ready@[head - 1] == idx,
                increasing(lv),
                queue_ordered(asg, ints(ready@)),
                forall|k: int| 0 <= k < ready@.len() ==> last_read(asg, ints(ready@), #[trigger] ints(ready@)[k], ready@.len() as int) < head,
                forall|k: int, t2: int| 0 <= k < ready@.len()
                    && last_read(asg, ints(ready@), #[trigger] ints(ready@)[k], ready@.len() as int) == head - 1
                    && t <= t2 < lv.len() ==> ints(ready@)[k] < #[trigger] lv[t2],
            decreases list@.len() - t,
        {
            let next = list[t];
            let ghost rest = lv.subrange(t as int, lv.len() as int);
            let ghost rest2 = lv.subrange(t + 1, lv.len() as int);
            proof {
                assert(lv[t as int] == next);
                assert(rest[0] == next);
                assert(rest.contains(next as int));
                assert(!rest2.contains(next as int)) by {
                    if rest2.contains(next as int) {
                        let q = choose|q: int| 0 <= q < rest2.len() && rest2[q] == next;
                        assert(lv[t + 1 + q] == lv[t as int]);
                    }
                }
                assert forall|x: int| x != next implies (rest.contains(x) <==> #[trigger] rest2.contains(x)) by {
                    if rest.contains(x) {
                        let q = choose|q: int| 0 <= q < rest.len() && rest[q] == x;
                        assert(q != 0);
                        assert(rest2[q - 1] == x);
                    }
                    if rest2.contains(x) {
                        let q = choose|q: int| 0 <= q < rest2.len() && rest2[q] == x;
                        assert(rest[q + 1] == x);
                    }
                }
                assert(indegree@[next as int] == pending(dl[next as int], done) + 1);
                assert(!ints(ready@).contains(next as int)) by {
                    if ints(ready@).contains(next as int) {
                        let q = choose|q: int| 0 <= q < ints(ready@).len() && ints(ready@)[q] == next;
                        assert(indegree@[ready@[q] as int] == 0);
                    }
                }
            }
            let ghost before_ready = ints(ready@);
            proof {
                assert forall|k: int, d: int| head <= k < before_ready.len() && #[trigger] dl[before_ready[k]].contains(d)
                    implies listed_before(before_ready, head as int, d) by {
                    let x = before_ready[k];
                    assert(x == ready@[k] as int);
                    assert(indegree@[x] == 0);
                    lemma_deps_listed(asg, dl, dep, before_ready, done, head as int, x);
                }
            }
            indegree.set(next, indegree[next] - 1);
            if indegree[next] == 0 {
                proof {
                    let v = next as int;
                    assert(pending(dl[v], done) == 0);
                    lemma_deps_listed(asg, dl, dep, before_ready, done, head as int, v);
                    assert(before_ready[head - 1] == idx);
                    assert(dep[idx as int].contains(v));
                    assert(dl[v].contains(before_ready[head - 1]));
                    assert forall|k: int| 0 <= k < before_ready.len() implies 0 <= #[trigger] before_ready[k] < asg.len() by {
                        assert(before_ready[k] == ready@[k] as int);
                    }
                    assert forall|k: int, d: int| 0 <= k < head && #[trigger] dl[before_ready[k]].contains(d)
                        implies listed_before(before_ready, k, d) by {
                        assert(before_ready[k] == ready@[k] as int);
                    }
                    lemma_release_keeps_order(asg, dl, dep, before_ready, head as int, v, lv, t as int);
                }
                ready.push(next);
                proof {
                    assert(ints(ready@) =~= before_ready.push(next as int));
                    assert(ints(ready@).subrange(0, head as int) =~= before_ready.subrange(0, head as int));
                }
            }
            proof {
                assert forall|x: int| 0 <= x < n && indegree@[x] == 0 implies ints(ready@).contains(x) by {
                    if x != next {
                        let q = choose|q: int| 0 <= q < before_ready.len() && before_ready[q] == x;
                        assert(ints(ready@)[q] == x);
                    } else {
                        assert(ints(ready@)[ready@.len() - 1] == x);
                    }
                }
                assert forall|k: int, d: int| 0 <= k < head && #[trigger] dl[ready@[k] as int].contains(d)
                    implies listed_before(ints(ready@), k, d) by {
                    assert(ready@[k] == before_ready[k]);
                    assert(listed_before(before_ready, k, d));
                    let m = choose|m: int| 0 <= m < k && before_ready[m] == d;
                    assert(ints(ready@)[m] == d);
                }
            }
            t = t + 1;
        }
        proof {
            assert(lv.subrange(t as int, lv.len() as int) =~= Seq::<int>::empty());
        }
    }
    proof {
        lemma_at_most(ints(ready@), n as int);
        assert(ints(ready@).subrange(0, head as int) =~= ints(ready@));
    }
    if order.len() != n {
        proof {
            assert forall|x: int| 0 <= x < n && !done[x] implies pending(#[trigger] dl[x], done) > 0 by {
                if pending(dl[x], done) == 0 {
                    assert(indegree@[x] == 0);
                }
            }
            lemma_stuck_is_cyclic(asg, dl, dep, ints(ready@), done);
            assert forall|x: int| 0 <= x < n implies (indegree@[x] > 0 <==> !resolvable(asg, x)) by {
                if indegree@[x] > 0 {
                    assert(!done[x]) by {
                        if done[x] {
                            lemma_pending_zero(dl[x], done);
                            assert(ints(ready@).contains(x));
                            let q = choose|q: int| 0 <= q < ints(ready@).len() && ints(ready@)[q] == x;
                            assert(indegree@[ready@[q] as int] == 0);
                        }
                    }
                    if resolvable(asg, x) {
                        let o = choose|o: Seq<int>| is_partial_order(asg, o) && o.contains(x);
                        lemma_unfinished_unresolvable(asg, dl, dep, done, o, o.len() as int);
                        let j = choose|j: int| 0 <= j < o.len() && o[j] == x;
                        assert(done[o[j]]);
                    }
                } else {
                    assert(ints(ready@).contains(x));
                    lemma_finished_resolvable(asg, dl, dep, ints(ready@), x);
                }
            }
        }
        proof {
            lemma_misses(ints(ready@), n as int);
            let x = choose|x: int| 0 <= x < n && !ints(ready@).contains(x);
            assert(!done[x]);
            if indegree@[x] == 0 {
                assert(ints(ready@).contains(x));
            }
            lemma_unresolved_nonempty(asg, n as int, x);
        }
        return Err(cycle_error(assignments, &indegree));
    }
    proof {
        let o = ints(order@);
        assert forall|k: int, j: int| 0 <= k < o.len() && 0 <= j < o.len() && reads(asg, #[trigger] o[k], #[trigger] o[j])
            implies j < k by {
            assert(dl[o[k]].contains(o[j]));
            assert(o[k] == ready@[k] as int);
            assert(listed_before(ints(ready@), k, o[j]));
            let m = choose|m: int| 0 <= m < k && ints(ready@)[m] == o[j];
            assert(ints(ready@)[m] == ints(ready@)[j]);
        }
        assert(is_evaluation_order(asg, o));
        assert(o =~= ints(ready@));
    }
    Ok(order)
}

} // verus!
