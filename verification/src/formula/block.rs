//! A parsed block of formula assignments with its evaluation order.

use vstd::prelude::*;
use crate::error::AlgoError;
use crate::formula::ast::{params_of, vars_of};
use crate::formula::assignment::{Assignment, AssignmentView, assignment_spec, parse_error_matches};
use crate::formula::order::{cycle_message, evaluation_order, first_repeat, has_evaluation_order, ints, is_evaluation_order, outputs, queue_ordered, views};
use crate::text::{chars_eq, chars_of, insert_name, names, strictly_sorted};

verus! {

/// The texts of a list of lines.
pub open spec fn texts(lines: Seq<&str>) -> Seq<Seq<char>> {
    lines.map_values(|l: &str| l@)
}

/// The first line, at or after `i`, that is not a valid assignment.
pub open spec fn first_unparsed(ls: Seq<Seq<char>>, i: int) -> Option<int>
    decreases ls.len() - i,
{
    if i < 0 || i >= ls.len() {
        None
    } else if assignment_spec(ls[i]) is Err {
        Some(i)
    } else {
        first_unparsed(ls, i + 1)
    }
}

/// The assignments the lines parse to (meaningful when all of them parse).
pub open spec fn parsed_lines(ls: Seq<Seq<char>>) -> Seq<AssignmentView> {
    Seq::new(ls.len(), |i: int| assignment_spec(ls[i])->Ok_0)
}

/// The parameters read anywhere in a block.
pub open spec fn block_params(asg: Seq<AssignmentView>) -> Set<Seq<char>> {
    Set::new(|n: Seq<char>| exists|i: int| 0 <= i < asg.len() && #[trigger] params_of(asg[i].expr).contains(n))
}

/// The bare variables read in a block that no assignment of the block writes:
/// the external properties it depends on.
pub open spec fn block_properties(asg: Seq<AssignmentView>) -> Set<Seq<char>> {
    Set::new(|n: Seq<char>| (exists|i: int| 0 <= i < asg.len() && #[trigger] vars_of(asg[i].expr).contains(n))
        && !outputs(asg).contains(n))
}

/// The bare variables read by the first `i` assignments.
pub open spec fn read_in_prefix(asg: Seq<AssignmentView>, i: int) -> Set<Seq<char>> {
    Set::new(|n: Seq<char>| exists|j: int| 0 <= j < i && #[trigger] vars_of(asg[j].expr).contains(n))
}

proof fn lemma_push_to_set(s: Seq<Seq<char>>, x: Seq<char>)
    ensures
        s.push(x).to_set() == s.to_set().insert(x),
{
    assert forall|y: Seq<char>| s.push(x).to_set().contains(y) <==> s.to_set().insert(x).contains(y) by {
        if s.push(x).contains(y) && y != x {
            let k = choose|k: int| 0 <= k < s.push(x).len() && s.push(x)[k] == y;
            assert(s[k] == y);
        }
        if s.contains(y) {
            let k = choose|k: int| 0 <= k < s.len() && s[k] == y;
            assert(s.push(x)[k] == y);
        }
        if y == x {
            assert(s.push(x)[s.len() as int] == y);
        }
    }
    assert(s.push(x).to_set() =~= s.to_set().insert(x));
}

/// Parsed formula block with duplicate outputs and cycles already refused.
pub struct FormulaBlock {
    assignments: Vec<Assignment>,
    order: Vec<usize>,
}

impl FormulaBlock {
    /// The parsed assignments, as views.
    pub closed spec fn assignments_view(&self) -> Seq<AssignmentView> {
        views(self.assignments@)
    }

    /// The evaluation order, as positions of assignments.
    pub closed spec fn order_view(&self) -> Seq<int> {
        ints(self.order@)
    }

    #[verifier::type_invariant]
    spec fn ordered(&self) -> bool {
        &&& is_evaluation_order(views(self.assignments@), ints(self.order@))
        &&& queue_ordered(views(self.assignments@), ints(self.order@))
    }

    /// Parse and validate a block of assignment strings.
    pub fn parse(lines: &[&str]) -> (r: Result<FormulaBlock, AlgoError>)
        ensures
            match first_unparsed(texts(lines@), 0) {
                Some(i) => r matches Err(e) && parse_error_matches(e, assignment_spec(texts(lines@)[i])->Err_0),
                None => match first_repeat(outputs(parsed_lines(texts(lines@))), 0) {
                    Some(j) => r matches Err(AlgoError::InvalidArgument(m))
                        && m@ == "duplicate assignment lhs `"@ + outputs(parsed_lines(texts(lines@)))[j] + "`"@,
                    None => if has_evaluation_order(parsed_lines(texts(lines@))) {
                        r matches Ok(b) && b.assignments_view() == parsed_lines(texts(lines@))
                            && is_evaluation_order(b.assignments_view(), b.order_view())
                            && queue_ordered(b.assignments_view(), b.order_view())
                    } else {
                        r matches Err(AlgoError::InvalidArgument(m))
                            && m@ == cycle_message(parsed_lines(texts(lines@)))
                    },
                },
            },
    {
        let ghost ls = texts(lines@);
        let mut assignments: Vec<Assignment> = Vec::new();
        let mut i: usize = 0;
        while i < lines.len()
            invariant
                ls == texts(lines@),
                i <= lines@.len(),
                first_unparsed(ls, 0) == first_unparsed(ls, i as int),
                views(assignments@) == parsed_lines(ls).subrange(0, i as int),
            decreases lines.len() - i,
        {
            assert(ls[i as int] == lines@[i as int]@);
            match Assignment::parse(lines[i]) {
                Ok(a) => {
                    let ghost av = a@;
                    assert(av == parsed_lines(ls)[i as int]);
                    let ghost prev = views(assignments@);
                    assignments.push(a);
                    assert(views(assignments@) =~= prev.push(av));
                    assert(views(assignments@) =~= parsed_lines(ls).subrange(0, i + 1));
                }
                Err(e) => {
                    return Err(e);
                }
            }
            i = i + 1;
        }
        assert(views(assignments@) =~= parsed_lines(ls));
        match evaluation_order(assignments.as_slice()) {
            Ok(order) => Ok(FormulaBlock { assignments, order }),
            Err(e) => Err(e),
        }
    }

    /// The parsed assignments in source order.
    pub fn assignments(&self) -> (r: &[Assignment])
        ensures
            views(r@) == self.assignments_view(),
    {
        self.assignments.as_slice()
    }

    /// Assignment output names in source order.
    pub fn outputs(&self) -> (r: Vec<String>)
        ensures
            names(r@) == outputs(self.assignments_view()),
    {
        let mut out: Vec<String> = Vec::new();
        let mut i: usize = 0;
        while i < self.assignments.len()
            invariant
                i <= self.assignments@.len(),
                names(out@) == outputs(views(self.assignments@)).subrange(0, i as int),
            decreases self.assignments.len() - i,
        {
            let ghost prev = names(out@);
            let x = self.assignments[i].lhs_string();
            let ghost xv = x@;
            out.push(x);
            assert(names(out@) =~= prev.push(xv));
            assert(names(out@) =~= outputs(views(self.assignments@)).subrange(0, i + 1));
            i = i + 1;
        }
        assert(names(out@) =~= outputs(views(self.assignments@)));
        out
    }

    /// Assignment output names in evaluation order.
    pub fn evaluation_order(&self) -> (r: Vec<String>)
        ensures
            names(r@) == self.order_view().map_values(|k: int| self.assignments_view()[k].lhs),
            is_evaluation_order(self.assignments_view(), self.order_view()),
            queue_ordered(self.assignments_view(), self.order_view()),
    {
        proof {
            use_type_invariant(self);
        }
        let ghost want = self.order_view().map_values(|k: int| self.assignments_view()[k].lhs);
        let mut out: Vec<String> = Vec::new();
        let mut i: usize = 0;
        while i < self.order.len()
            invariant
                i <= self.order@.len(),
                is_evaluation_order(views(self.assignments@), ints(self.order@)),
                queue_ordered(views(self.assignments@), ints(self.order@)),
                want == self.order_view().map_values(|k: int| self.assignments_view()[k].lhs),
                names(out@) == want.subrange(0, i as int),
            decreases self.order.len() - i,
        {
            let k = self.order[i];
            assert(ints(self.order@)[i as int] == k);
            let ghost prev = names(out@);
            let x = self.assignments[k].lhs_string();
            let ghost xv = x@;
            out.push(x);
            assert(names(out@) =~= prev.push(xv));
            assert(names(out@) =~= want.subrange(0, i + 1));
            i = i + 1;
        }
        assert(names(out@) =~= want);
        out
    }

    /// Scalar runtime parameters referenced by the block, without `$`, sorted
    /// and without repeats.
    pub fn params(&self) -> (r: Vec<String>)
        ensures
            strictly_sorted(names(r@)),
            names(r@).to_set() == block_params(self.assignments_view()),
    {
        let ghost asg = self.assignments_view();
        let mut out: Vec<String> = Vec::new();
        assert(names(out@).to_set() =~= Set::empty());
        let mut i: usize = 0;
        while i < self.assignments.len()
            invariant
                asg == views(self.assignments@),
                i <= self.assignments@.len(),
                strictly_sorted(names(out@)),
                names(out@).to_set() == block_params(asg.subrange(0, i as int)),
            decreases self.assignments.len() - i,
        {
            let ps = self.assignments[i].params();
            let ghost before = names(out@).to_set();
            let mut k: usize = 0;
            while k < ps.len()
                invariant
                    k <= ps@.len(),
                    strictly_sorted(names(out@)),
                    names(out@).to_set() == before.union(names(ps@).subrange(0, k as int).to_set()),
                decreases ps.len() - k,
            {
                insert_name(&mut out, ps[k].as_str());
                proof {
                    assert(names(ps@).subrange(0, k + 1) =~= names(ps@).subrange(0, k as int).push(ps@[k as int]@));
                    lemma_push_to_set(names(ps@).subrange(0, k as int), ps@[k as int]@);
                }
                assert(before.union(names(ps@).subrange(0, k as int).to_set()).insert(ps@[k as int]@)
                    =~= before.union(names(ps@).subrange(0, k + 1).to_set()));
                k = k + 1;
            }
            proof {
                assert(names(ps@).subrange(0, ps@.len() as int) =~= names(ps@));
                let a = asg.subrange(0, i as int);
                let b = asg.subrange(0, i + 1);
                assert(asg[i as int] == self.assignments@[i as int]@);
                assert(block_params(b) =~= block_params(a).union(params_of(asg[i as int].expr))) by {
                    assert forall|n: Seq<char>| block_params(b).contains(n) implies block_params(a).union(params_of(asg[i as int].expr)).contains(n) by {
                        let j = choose|j: int| 0 <= j < b.len() && #[trigger] params_of(b[j].expr).contains(n);
                        if j < i {
                            assert(a[j] == b[j]);
                        }
                    }
                    assert forall|n: Seq<char>| block_params(a).union(params_of(asg[i as int].expr)).contains(n) implies block_params(b).contains(n) by {
                        if block_params(a).contains(n) {
                            let j = choose|j: int| 0 <= j < a.len() && #[trigger] params_of(a[j].expr).contains(n);
                            assert(b[j] == a[j]);
                        } else {
                            assert(b[i as int] == asg[i as int]);
                        }
                    }
                }
            }
            i = i + 1;
        }
        assert(asg.subrange(0, asg.len() as int) =~= asg);
        out
    }

    /// External bare property variables referenced by the block (names that
    /// the block assigns itself are dependencies, not properties), sorted and
    /// without repeats.
    pub fn property_dependencies(&self) -> (r: Vec<String>)
        ensures
            strictly_sorted(names(r@)),
            names(r@).to_set() == block_properties(self.assignments_view()),
    {
        let ghost asg = self.assignments_view();
        let outs = self.outputs();
        let mut out: Vec<String> = Vec::new();
        assert(names(out@).to_set() =~= Set::empty());
        assert(read_in_prefix(asg, 0).intersect(Set::new(|n: Seq<char>| !outputs(asg).contains(n))) =~= Set::empty());
        let mut i: usize = 0;
        while i < self.assignments.len()
            invariant
                asg == views(self.assignments@),
                names(outs@) == outputs(asg),
                i <= self.assignments@.len(),
                strictly_sorted(names(out@)),
                names(out@).to_set() == read_in_prefix(asg, i as int).intersect(
                    Set::new(|n: Seq<char>| !outputs(asg).contains(n))),
            decreases self.assignments.len() - i,
        {
            let vs = self.assignments[i].variables();
            let ghost before = names(out@).to_set();
            let ghost keep = Set::new(|n: Seq<char>| !outputs(asg).contains(n));
            let mut k: usize = 0;
            while k < vs.len()
                invariant
                    names(outs@) == outputs(asg),
                    keep == Set::new(|n: Seq<char>| !outputs(asg).contains(n)),
                    k <= vs@.len(),
                    strictly_sorted(names(out@)),
                    names(out@).to_set() == before.union(names(vs@).subrange(0, k as int).to_set().intersect(keep)),
                decreases vs.len() - k,
            {
                let v = vs[k].as_str();
                let assigned = contains_name(&outs, v);
                let ghost prev = names(vs@).subrange(0, k as int);
                let ghost next = names(vs@).subrange(0, k + 1);
                assert(next =~= prev.push(vs@[k as int]@));
                proof {
                    lemma_push_to_set(prev, vs@[k as int]@);
                }
                if !assigned {
                    insert_name(&mut out, v);
                    assert(before.union(prev.to_set().intersect(keep)).insert(v@)
                        =~= before.union(next.to_set().intersect(keep)));
                } else {
                    assert(before.union(prev.to_set().intersect(keep))
                        =~= before.union(next.to_set().intersect(keep)));
                }
                k = k + 1;
            }
            proof {
                assert(names(vs@).subrange(0, vs@.len() as int) =~= names(vs@));
                let a = asg.subrange(0, i as int);
                let b = asg.subrange(0, i + 1);
                assert(asg[i as int] == self.assignments@[i as int]@);
                let pa = read_in_prefix(asg, i as int);
                let pb = read_in_prefix(asg, i + 1);
                assert(pb =~= pa.union(vars_of(asg[i as int].expr)));
                assert(pb.intersect(keep) =~= pa.intersect(keep).union(vars_of(asg[i as int].expr).intersect(keep)));
            }
            i = i + 1;
        }
        assert(read_in_prefix(asg, asg.len() as int).intersect(Set::new(|n: Seq<char>| !outputs(asg).contains(n))) =~= block_properties(asg));
        out
    }
}

/// Whether `name` is one of `list`.
fn contains_name(list: &Vec<String>, name: &str) -> (r: bool)
    ensures
        r == names(list@).contains(name@),
{
    let nc = chars_of(name);
    let mut i: usize = 0;
    while i < list.len()
        invariant
            i <= list@.len(),
            nc@ == name@,
            forall|k: int| 0 <= k < i ==> names(list@)[k] != name@,
        decreases list.len() - i,
    {
        let c = chars_of(list[i].as_str());
        if chars_eq(c.as_slice(), nc.as_slice()) {
            assert(names(list@)[i as int] == name@);
            return true;
        }
        i = i + 1;
    }
    false
}

} // verus!
