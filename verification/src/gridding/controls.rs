//! Where the controls of an incremental re-grid are held. The sample rows
//! start with the initial scatter; each controlled node owns one row after
//! it. Re-controlling a node rewrites its row (the latest value wins), so the
//! rows never outgrow the set of distinct controlled nodes.

use vstd::prelude::*;
use std::collections::HashMap;

verus! {

broadcast use vstd::std_specs::hash::group_hash_axioms;

/// The map key of node `(ip, jp)`: `ip` in the high 64 bits, `jp` in the low.
pub open spec fn node_key(ip: int, jp: int) -> int {
    ip * 0x1_0000_0000_0000_0000 + jp
}

/// Nodes have distinct keys.
pub proof fn lemma_node_key_injective(ip1: int, jp1: int, ip2: int, jp2: int)
    requires
        0 <= jp1 < 0x1_0000_0000_0000_0000,
        0 <= jp2 < 0x1_0000_0000_0000_0000,
        node_key(ip1, jp1) == node_key(ip2, jp2),
    ensures
        ip1 == ip2 && jp1 == jp2,
{
    let b: int = 0x1_0000_0000_0000_0000;
    if ip1 < ip2 {
        assert((ip2 - ip1) * b >= b) by (nonlinear_arith)
            requires
                ip1 < ip2,
                b > 0,
        ;
        assert(ip2 * b == ip1 * b + (ip2 - ip1) * b) by (nonlinear_arith);
    } else if ip2 < ip1 {
        assert((ip1 - ip2) * b >= b) by (nonlinear_arith)
            requires
                ip2 < ip1,
                b > 0,
        ;
        assert(ip1 * b == ip2 * b + (ip1 - ip2) * b) by (nonlinear_arith);
    }
}

fn key_of(ip: usize, jp: usize) -> (k: u128)
    ensures
        k == node_key(ip as int, jp as int),
{
    assert(ip <= 0xffff_ffff_ffff_ffff && jp <= 0xffff_ffff_ffff_ffff);
    assert((ip as int) * 0x1_0000_0000_0000_0000 <= 0xffff_ffff_ffff_ffff * 0x1_0000_0000_0000_0000) by (nonlinear_arith)
        requires
            ip <= 0xffff_ffff_ffff_ffff,
    ;
    (ip as u128) * 0x1_0000_0000_0000_0000u128 + (jp as u128)
}

/// The rows held by controlled nodes.
pub struct ControlRows {
    base: usize,
    next: usize,
    rows: HashMap<u128, usize>,
}

impl ControlRows {
    /// The number of rows before the first control (the initial scatter).
    pub closed spec fn base(&self) -> int {
        self.base as int
    }

    /// The row the next new control is appended at.
    pub closed spec fn next_row(&self) -> int {
        self.next as int
    }

    /// Per node key, the row that node's control is held in.
    pub closed spec fn rows(&self) -> Map<u128, usize> {
        self.rows@
    }

    /// Each controlled node owns its own row after the base rows, and the
    /// rows are exactly the base rows plus one per controlled node.
    pub closed spec fn wf(&self) -> bool {
        &&& self.rows@.dom().finite()
        &&& self.next == self.base + self.rows@.dom().len()
        &&& forall|k: u128| #[trigger] self.rows@.contains_key(k) ==> self.base <= self.rows@[k] < self.next
        &&& forall|k1: u128, k2: u128| #[trigger] self.rows@.contains_key(k1) && #[trigger] self.rows@.contains_key(k2)
            && k1 != k2 ==> self.rows@[k1] != self.rows@[k2]
    }

    /// What a consistent value guarantees: rows of distinct controlled
    /// nodes differ, lie after the base rows, and number one per node.
    pub proof fn lemma_wf(&self)
        requires
            self.wf(),
        ensures
            self.rows().dom().finite(),
            self.next_row() == self.base() + self.rows().dom().len(),
            forall|k: u128| #[trigger] self.rows().contains_key(k) ==> self.base() <= self.rows()[k] < self.next_row(),
            forall|k1: u128, k2: u128| #[trigger] self.rows().contains_key(k1) && #[trigger] self.rows().contains_key(k2)
                && k1 != k2 ==> self.rows()[k1] != self.rows()[k2],
    {
    }

    /// No controls yet, after `base` rows of scatter.
    pub fn new(base: usize) -> (r: ControlRows)
        ensures
            r.wf(),
            r.base() == base,
            r.next_row() == base,
            r.rows() == Map::<u128, usize>::empty(),
    {
        let rows: HashMap<u128, usize> = HashMap::new();
        assert(rows@.dom() =~= Set::<u128>::empty());
        ControlRows { base, next: base, rows }
    }

    /// The row a control at node `(ip, jp)` is written to, and whether it is
    /// a new row appended at the end: a node controlled before keeps its row.
    pub fn place(&mut self, ip: usize, jp: usize) -> (r: (usize, bool))
        requires
            old(self).wf(),
            old(self).next_row() < usize::MAX,
        ensures
            final(self).wf(),
            final(self).base() == old(self).base(),
            ({
                let k = node_key(ip as int, jp as int) as u128;
                if old(self).rows().contains_key(k) {
                    &&& r == (old(self).rows()[k], false)
                    &&& final(self).rows() == old(self).rows()
                    &&& final(self).next_row() == old(self).next_row()
                } else {
                    &&& r == (old(self).next_row() as usize, true)
                    &&& final(self).rows() == old(self).rows().insert(k, old(self).next_row() as usize)
                    &&& final(self).next_row() == old(self).next_row() + 1
                }
            }),
    {
        let k = key_of(ip, jp);
        match self.rows.get(&k) {
            Some(row) => {
                let row = *row;
                (row, false)
            },
            None => {
                let row = self.next;
                let ghost before = self.rows@;
                self.rows.insert(k, row);
                self.next = row + 1;
                proof {
                    assert(self.rows@.dom() =~= before.dom().insert(k));
                }
                (row, true)
            },
        }
    }
}

/// Distinct controlled nodes hold distinct rows, so re-controlling one node
/// never overwrites another node's control.
pub proof fn law_distinct_nodes_distinct_rows(c: ControlRows, ip1: usize, jp1: usize, ip2: usize, jp2: usize)
    requires
        c.wf(),
        (ip1, jp1) != (ip2, jp2),
        c.rows().contains_key(node_key(ip1 as int, jp1 as int) as u128),
        c.rows().contains_key(node_key(ip2 as int, jp2 as int) as u128),
    ensures
        c.rows()[node_key(ip1 as int, jp1 as int) as u128] != c.rows()[node_key(ip2 as int, jp2 as int) as u128],
{
    assert(node_key(ip1 as int, jp1 as int) <= u128::MAX && node_key(ip2 as int, jp2 as int) <= u128::MAX) by {
        assert(ip1 * 0x1_0000_0000_0000_0000 <= 0xffff_ffff_ffff_ffff * 0x1_0000_0000_0000_0000) by (nonlinear_arith)
            requires
                ip1 <= 0xffff_ffff_ffff_ffff,
        ;
        assert(ip2 * 0x1_0000_0000_0000_0000 <= 0xffff_ffff_ffff_ffff * 0x1_0000_0000_0000_0000) by (nonlinear_arith)
            requires
                ip2 <= 0xffff_ffff_ffff_ffff,
        ;
    }
    if node_key(ip1 as int, jp1 as int) == node_key(ip2 as int, jp2 as int) {
        lemma_node_key_injective(ip1 as int, jp1 as int, ip2 as int, jp2 as int);
    }
    c.lemma_wf();
}

} // verus!
