//! Circuit-side plumbing shared by the gates: the configuration that fixes
//! wire budgets, row-local wire addresses, the write-once witness store that
//! generators read from, and the buffer they write into.

use crate::field::Felt;
use vstd::prelude::*;

verus! {

/// Wire budgets of the surrounding circuit: how many witness columns a row
/// has in total and how many of them participate in circuit-wide routing.
#[derive(Clone, Copy, Debug, PartialEq, Eq, Structural)]
pub struct CircuitConfig {
    pub num_wires: usize,
    pub num_routed_wires: usize,
}

/// A row-local witness slot: row index (`gate`) and column index (`input`).
#[derive(Clone, Copy, Debug, PartialEq, Eq, Structural)]
pub struct Wire {
    pub gate: usize,
    pub input: usize,
}

/// A write-once store of witness values, one slot per wire, shared by all
/// generators of one circuit instance.
pub struct PartitionWitness {
    pub num_columns: usize,
    pub values: Vec<Option<Felt>>,
}

impl PartitionWitness {
    /// The flat index of a wire in the store.
    pub open spec fn wire_index(self, w: Wire) -> int {
        w.gate * self.num_columns + w.input
    }

    pub open spec fn in_bounds(self, w: Wire) -> bool {
        w.input < self.num_columns && 0 <= self.wire_index(w) < self.values@.len()
    }

    pub open spec fn is_set(self, w: Wire) -> bool {
        self.in_bounds(w) && self.values@[self.wire_index(w)] is Some
    }

    /// The value stored for a set wire.
    pub open spec fn wire_value(self, w: Wire) -> int {
        self.values@[self.wire_index(w)].unwrap()@
    }

    pub open spec fn wf(self) -> bool {
        forall|k: int|
            0 <= k < self.values@.len() && self.values@[k] is Some
                ==> (#[trigger] self.values@[k]).unwrap().wf()
    }

    /// An empty store for `num_rows` rows of `num_columns` wires each.
    pub fn new(num_rows: usize, num_columns: usize) -> (r: PartitionWitness)
        requires
            num_rows * num_columns <= usize::MAX,
        ensures
            r.wf(),
            r.num_columns == num_columns,
            r.values@.len() == num_rows * num_columns,
            forall|w: Wire| !r.is_set(w),
    {
        proof {
            assert(num_rows * num_columns >= 0) by (nonlinear_arith);
        }
        let n = num_rows * num_columns;
        let mut values: Vec<Option<Felt>> = Vec::new();
        let mut k: usize = 0;
        while k < n
            invariant
                k <= n,
                values@.len() == k,
                forall|m: int| 0 <= m < k ==> (#[trigger] values@[m]) is None,
            decreases n - k,
        {
            values.push(None);
            k += 1;
        }
        PartitionWitness { num_columns, values }
    }

    pub fn get_wire(&self, w: Wire) -> (r: Felt)
        requires
            self.wf(),
            self.is_set(w),
        ensures
            r.wf(),
            r@ == self.wire_value(w),
    {
        let n = self.values.len();
        proof {
            assert(w.gate as int * self.num_columns as int >= 0) by (nonlinear_arith);
            assert(w.gate as int * self.num_columns as int + w.input <= n);
        }
        let idx = w.gate * self.num_columns + w.input;
        self.values[idx].unwrap()
    }

    /// Writes a wire that has not been written before.
    pub fn set_wire(&mut self, w: Wire, value: Felt)
        requires
            old(self).wf(),
            old(self).in_bounds(w),
            !old(self).is_set(w),
            value.wf(),
        ensures
            final(self).wf(),
            final(self).num_columns == old(self).num_columns,
            final(self).values@.len() == old(self).values@.len(),
            final(self).is_set(w),
            final(self).wire_value(w) == value@,
            forall|u: Wire|
                old(self).in_bounds(u) && u != w ==> (#[trigger] final(self).is_set(u)
                    == old(self).is_set(u)) && (old(self).is_set(u) ==> final(self).wire_value(u)
                    == old(self).wire_value(u)),
    {
        let n = self.values.len();
        proof {
            assert(w.gate as int * self.num_columns as int >= 0) by (nonlinear_arith);
            assert(w.gate as int * self.num_columns as int + w.input <= n);
        }
        let idx = w.gate * self.num_columns + w.input;
        self.values.set(idx, Some(value));
        proof {
            assert forall|u: Wire| self.in_bounds(u) && u != w implies self.wire_index(u) != old(
                self,
            ).wire_index(w) by {
                if u.gate == w.gate {
                    assert(u.input != w.input);
                } else {
                    lemma_distinct_rows(u.gate as int, w.gate as int, u.input as int,
                        w.input as int, self.num_columns as int);
                }
            }
        }
    }
}

/// Distinct rows give distinct flat wire indices when the column indices are
/// within a row's width.
proof fn lemma_distinct_rows(g1: int, g2: int, i1: int, i2: int, cols: int)
    requires
        g1 != g2,
        0 <= i1 < cols,
        0 <= i2 < cols,
        0 <= g1,
        0 <= g2,
    ensures
        g1 * cols + i1 != g2 * cols + i2,
{
    assert(g1 * cols + i1 != g2 * cols + i2) by (nonlinear_arith)
        requires
            g1 != g2,
            0 <= i1 < cols,
            0 <= i2 < cols,
    ;
}

/// The buffer a generator writes into: wire/value pairs that the driver later
/// commits to the shared store.
pub struct GeneratedValues {
    pub target_values: Vec<(Wire, Felt)>,
}

impl GeneratedValues {
    pub open spec fn wf(self) -> bool {
        forall|k: int|
            0 <= k < self.target_values@.len() ==> (#[trigger] self.target_values@[k]).1.wf()
    }

    pub fn new() -> (r: GeneratedValues)
        ensures
            r.wf(),
            r.target_values@.len() == 0,
    {
        GeneratedValues { target_values: Vec::new() }
    }

    pub fn set_wire(&mut self, w: Wire, value: Felt)
        requires
            old(self).wf(),
            value.wf(),
        ensures
            final(self).wf(),
            final(self).target_values@ == old(self).target_values@.push((w, value)),
    {
        self.target_values.push((w, value));
    }
}

} // verus!
