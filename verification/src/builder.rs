//! A minimal model of the recursion circuit that the symbolic constraint
//! evaluators build into.
//!
//! Every extension target carries the value it evaluates to under the row's
//! wire assignment, together with a bound on the formal degree of the
//! expression that produced it (wires are degree 1, constants degree 0,
//! products add degrees). The gates' symbolic evaluators are proved to emit
//! targets whose values equal the direct evaluators' outputs and whose
//! degrees stay at or below what `degree()` returns.

use crate::extension::{ext_add, ext_embed, ext_mul, ext_quotient, ext_sub, ext_zero, Ext4, ExtElem};
use crate::field::Felt;
use vstd::prelude::*;

verus! {

/// A handle to one extension value of the recursion circuit.
#[derive(Clone, Copy, Debug, PartialEq, Eq, Structural)]
pub struct ExtensionTarget {
    pub index: usize,
}

/// One allocated target: its value under the fixed wire assignment and a
/// bound on the formal degree of the expression behind it.
#[derive(Clone, Copy, Debug, PartialEq, Eq, Structural)]
pub struct TargetNode {
    pub value: ExtElem,
    pub degree: u64,
}

/// Degree of a product, saturating at the machine bound.
pub open spec fn deg_sum(a: int, b: int) -> int {
    if a + b <= u64::MAX {
        a + b
    } else {
        u64::MAX as int
    }
}

/// Degree of a sum.
pub open spec fn deg_max(a: int, b: int) -> int {
    if a < b {
        b
    } else {
        a
    }
}

/// The target arithmetic of a recursion circuit.
pub struct CircuitBuilder {
    pub nodes: Vec<TargetNode>,
}

impl CircuitBuilder {
    pub open spec fn wf(self) -> bool {
        forall|k: int| 0 <= k < self.nodes@.len() ==> (#[trigger] self.nodes@[k]).value.wf()
    }

    pub open spec fn len_spec(self) -> int {
        self.nodes@.len() as int
    }

    pub open spec fn valid_target(self, t: ExtensionTarget) -> bool {
        t.index < self.nodes@.len()
    }

    /// The value a target evaluates to under the wire assignment.
    pub open spec fn value_spec(self, t: ExtensionTarget) -> Ext4 {
        self.nodes@[t.index as int].value@
    }

    /// The degree bound recorded for a target.
    pub open spec fn degree_spec(self, t: ExtensionTarget) -> int {
        self.nodes@[t.index as int].degree as int
    }

    /// Appending nodes never disturbs existing targets.
    pub open spec fn extends(self, prev: CircuitBuilder) -> bool {
        &&& prev.nodes@.len() <= self.nodes@.len()
        &&& forall|k: int|
            0 <= k < prev.nodes@.len() ==> #[trigger] self.nodes@[k] == prev.nodes@[k]
    }

    pub fn new() -> (r: CircuitBuilder)
        ensures
            r.wf(),
            r.len_spec() == 0,
    {
        CircuitBuilder { nodes: Vec::new() }
    }

    pub fn num_targets(&self) -> (r: usize)
        ensures
            r == self.len_spec(),
    {
        self.nodes.len()
    }

    /// Reads a target's value back; the prover-side mirror of looking a wire
    /// up in the witness.
    pub fn value_of(&self, t: ExtensionTarget) -> (r: ExtElem)
        requires
            self.wf(),
            self.valid_target(t),
        ensures
            r.wf(),
            r@ == self.value_spec(t),
    {
        self.nodes[t.index].value
    }

    /// The recorded degree bound of a target.
    pub fn degree_of(&self, t: ExtensionTarget) -> (r: u64)
        requires
            self.valid_target(t),
        ensures
            r as int == self.degree_spec(t),
    {
        self.nodes[t.index].degree
    }

    fn push_node(&mut self, value: ExtElem, degree: u64) -> (r: ExtensionTarget)
        requires
            old(self).wf(),
            value.wf(),
        ensures
            final(self).wf(),
            final(self).extends(*old(self)),
            final(self).len_spec() == old(self).len_spec() + 1,
            r.index == old(self).len_spec(),
            final(self).value_spec(r) == value@,
            final(self).degree_spec(r) == degree as int,
    {
        let index = self.nodes.len();
        self.nodes.push(TargetNode { value, degree });
        ExtensionTarget { index }
    }

    /// Allocates a wire target holding the assignment value `x`; wires have
    /// formal degree 1.
    pub fn add_extension_wire(&mut self, x: ExtElem) -> (r: ExtensionTarget)
        requires
            old(self).wf(),
            x.wf(),
        ensures
            final(self).wf(),
            final(self).extends(*old(self)),
            final(self).len_spec() == old(self).len_spec() + 1,
            r.index == old(self).len_spec(),
            final(self).value_spec(r) == x@,
            final(self).degree_spec(r) == 1,
    {
        self.push_node(x, 1)
    }

    /// A constant of the recursion circuit; constants have formal degree 0.
    pub fn constant_extension(&mut self, x: ExtElem) -> (r: ExtensionTarget)
        requires
            old(self).wf(),
            x.wf(),
        ensures
            final(self).wf(),
            final(self).extends(*old(self)),
            final(self).len_spec() == old(self).len_spec() + 1,
            r.index == old(self).len_spec(),
            final(self).value_spec(r) == x@,
            final(self).degree_spec(r) == 0,
    {
        self.push_node(x, 0)
    }

    pub fn zero_extension(&mut self) -> (r: ExtensionTarget)
        requires
            old(self).wf(),
        ensures
            final(self).wf(),
            final(self).extends(*old(self)),
            final(self).len_spec() == old(self).len_spec() + 1,
            r.index == old(self).len_spec(),
            final(self).value_spec(r) == ext_zero(),
            final(self).degree_spec(r) == 0,
    {
        self.push_node(ExtElem::zero(), 0)
    }

    pub fn one_extension(&mut self) -> (r: ExtensionTarget)
        requires
            old(self).wf(),
        ensures
            final(self).wf(),
            final(self).extends(*old(self)),
            final(self).len_spec() == old(self).len_spec() + 1,
            r.index == old(self).len_spec(),
            final(self).value_spec(r) == crate::extension::ext_one(),
            final(self).degree_spec(r) == 0,
    {
        self.push_node(ExtElem::one(), 0)
    }

    pub fn add_extension(&mut self, a: ExtensionTarget, b: ExtensionTarget) -> (r: ExtensionTarget)
        requires
            old(self).wf(),
            old(self).valid_target(a),
            old(self).valid_target(b),
        ensures
            final(self).wf(),
            final(self).extends(*old(self)),
            final(self).len_spec() == old(self).len_spec() + 1,
            r.index == old(self).len_spec(),
            final(self).value_spec(r) == ext_add(old(self).value_spec(a), old(self).value_spec(b)),
            final(self).degree_spec(r) == deg_max(old(self).degree_spec(a), old(self).degree_spec(
                b)),
    {
        let va = self.nodes[a.index].value;
        let vb = self.nodes[b.index].value;
        let da = self.nodes[a.index].degree;
        let db = self.nodes[b.index].degree;
        let d = if da < db {
            db
        } else {
            da
        };
        self.push_node(va.add(vb), d)
    }

    pub fn sub_extension(&mut self, a: ExtensionTarget, b: ExtensionTarget) -> (r: ExtensionTarget)
        requires
            old(self).wf(),
            old(self).valid_target(a),
            old(self).valid_target(b),
        ensures
            final(self).wf(),
            final(self).extends(*old(self)),
            final(self).len_spec() == old(self).len_spec() + 1,
            r.index == old(self).len_spec(),
            final(self).value_spec(r) == ext_sub(old(self).value_spec(a), old(self).value_spec(b)),
            final(self).degree_spec(r) == deg_max(old(self).degree_spec(a), old(self).degree_spec(
                b)),
    {
        let va = self.nodes[a.index].value;
        let vb = self.nodes[b.index].value;
        let da = self.nodes[a.index].degree;
        let db = self.nodes[b.index].degree;
        let d = if da < db {
            db
        } else {
            da
        };
        self.push_node(va.sub(vb), d)
    }

    pub fn mul_extension(&mut self, a: ExtensionTarget, b: ExtensionTarget) -> (r: ExtensionTarget)
        requires
            old(self).wf(),
            old(self).valid_target(a),
            old(self).valid_target(b),
        ensures
            final(self).wf(),
            final(self).extends(*old(self)),
            final(self).len_spec() == old(self).len_spec() + 1,
            r.index == old(self).len_spec(),
            final(self).value_spec(r) == ext_mul(old(self).value_spec(a), old(self).value_spec(b)),
            final(self).degree_spec(r) == deg_sum(old(self).degree_spec(a), old(self).degree_spec(
                b)),
    {
        let va = self.nodes[a.index].value;
        let vb = self.nodes[b.index].value;
        let da = self.nodes[a.index].degree;
        let db = self.nodes[b.index].degree;
        let d = if da <= u64::MAX - db {
            da + db
        } else {
            u64::MAX
        };
        self.push_node(va.mul(vb), d)
    }

    /// `a * b + c` as one target.
    pub fn mul_add_extension(
        &mut self,
        a: ExtensionTarget,
        b: ExtensionTarget,
        c: ExtensionTarget,
    ) -> (r: ExtensionTarget)
        requires
            old(self).wf(),
            old(self).valid_target(a),
            old(self).valid_target(b),
            old(self).valid_target(c),
        ensures
            final(self).wf(),
            final(self).extends(*old(self)),
            final(self).len_spec() == old(self).len_spec() + 1,
            r.index == old(self).len_spec(),
            final(self).value_spec(r) == ext_add(
                ext_mul(old(self).value_spec(a), old(self).value_spec(b)),
                old(self).value_spec(c),
            ),
            final(self).degree_spec(r) == deg_max(
                deg_sum(old(self).degree_spec(a), old(self).degree_spec(b)),
                old(self).degree_spec(c),
            ),
    {
        let va = self.nodes[a.index].value;
        let vb = self.nodes[b.index].value;
        let vc = self.nodes[c.index].value;
        let da = self.nodes[a.index].degree;
        let db = self.nodes[b.index].degree;
        let dc = self.nodes[c.index].degree;
        let dab = if da <= u64::MAX - db {
            da + db
        } else {
            u64::MAX
        };
        let d = if dab < dc {
            dc
        } else {
            dab
        };
        self.push_node(va.mul(vb).add(vc), d)
    }

    /// `c0 * x * y + c1 * z` for base-field constants `c0`, `c1`.
    pub fn arithmetic_extension(
        &mut self,
        c0: Felt,
        c1: Felt,
        x: ExtensionTarget,
        y: ExtensionTarget,
        z: ExtensionTarget,
    ) -> (r: ExtensionTarget)
        requires
            old(self).wf(),
            c0.wf(),
            c1.wf(),
            old(self).valid_target(x),
            old(self).valid_target(y),
            old(self).valid_target(z),
        ensures
            final(self).wf(),
            final(self).extends(*old(self)),
            final(self).len_spec() == old(self).len_spec() + 1,
            r.index == old(self).len_spec(),
            final(self).value_spec(r) == ext_add(
                ext_mul(ext_embed(c0@), ext_mul(old(self).value_spec(x), old(self).value_spec(y))),
                ext_mul(ext_embed(c1@), old(self).value_spec(z)),
            ),
            final(self).degree_spec(r) == deg_max(
                deg_sum(old(self).degree_spec(x), old(self).degree_spec(y)),
                old(self).degree_spec(z),
            ),
    {
        let vx = self.nodes[x.index].value;
        let vy = self.nodes[y.index].value;
        let vz = self.nodes[z.index].value;
        let dx = self.nodes[x.index].degree;
        let dy = self.nodes[y.index].degree;
        let dz = self.nodes[z.index].degree;
        let dxy = if dx <= u64::MAX - dy {
            dx + dy
        } else {
            u64::MAX
        };
        let d = if dxy < dz {
            dz
        } else {
            dxy
        };
        let value = ExtElem::from_base(c0).mul(vx.mul(vy)).add(ExtElem::from_base(c1).mul(vz));
        self.push_node(value, d)
    }

    /// Division of targets. The new target's value is pinned to the confirmed
    /// quotient `ext_quotient(a, b)`: the dividend times the divisor's
    /// candidate inverse whenever both run-time confirmations succeed — which
    /// they do for every nonzero divisor of the true field — and zero
    /// otherwise.
    pub fn div_extension(&mut self, a: ExtensionTarget, b: ExtensionTarget) -> (r: ExtensionTarget)
        requires
            old(self).wf(),
            old(self).valid_target(a),
            old(self).valid_target(b),
        ensures
            final(self).wf(),
            final(self).extends(*old(self)),
            final(self).len_spec() == old(self).len_spec() + 1,
            r.index == old(self).len_spec(),
            final(self).value_spec(r) == ext_quotient(old(self).value_spec(a), old(
                self,
            ).value_spec(b)),
            ext_mul(final(self).value_spec(r), old(self).value_spec(b)) == old(self).value_spec(a)
                || final(self).value_spec(r) == ext_zero(),
            final(self).degree_spec(r) == deg_sum(old(self).degree_spec(a), old(self).degree_spec(
                b)),
    {
        let va = self.nodes[a.index].value;
        let vb = self.nodes[b.index].value;
        let da = self.nodes[a.index].degree;
        let db = self.nodes[b.index].degree;
        let d = if da <= u64::MAX - db {
            da + db
        } else {
            u64::MAX
        };
        let value = match vb.try_inverse() {
            None => ExtElem::zero(),
            Some(binv) => {
                let q = va.mul(binv);
                let check = q.mul(vb);
                if check.c0.v == va.c0.v && check.c1.v == va.c1.v && check.c2.v == va.c2.v
                    && check.c3.v == va.c3.v {
                    proof {
                        assert(check@ == va@);
                    }
                    q
                } else {
                    proof {
                        assert(check@ != va@);
                    }
                    ExtElem::zero()
                }
            },
        };
        self.push_node(value, d)
    }
}

/// The values a sequence of targets takes in a given builder state.
pub open spec fn target_vals(b: CircuitBuilder, ts: Seq<ExtensionTarget>) -> Seq<Ext4> {
    Seq::new(ts.len(), |k: int| b.value_spec(ts[k]))
}

/// All of `ts` are valid in `b`, take the values `vals`, and have degree at
/// most `maxdeg`.
pub open spec fn targets_hold(
    b: CircuitBuilder,
    ts: Seq<ExtensionTarget>,
    vals: Seq<Ext4>,
    maxdeg: int,
) -> bool {
    &&& ts.len() == vals.len()
    &&& forall|k: int|
        0 <= k < ts.len() ==> b.valid_target(#[trigger] ts[k]) && b.value_spec(ts[k]) == vals[k]
            && b.degree_spec(ts[k]) <= maxdeg
}

/// Extending a builder preserves every valid target's value and degree.
pub proof fn lemma_extends_target(b2: CircuitBuilder, b1: CircuitBuilder, t: ExtensionTarget)
    requires
        b2.extends(b1),
        b1.valid_target(t),
    ensures
        b2.valid_target(t),
        b2.value_spec(t) == b1.value_spec(t),
        b2.degree_spec(t) == b1.degree_spec(t),
{
}

/// `extends` is transitive.
pub proof fn lemma_extends_trans(b3: CircuitBuilder, b2: CircuitBuilder, b1: CircuitBuilder)
    requires
        b3.extends(b2),
        b2.extends(b1),
    ensures
        b3.extends(b1),
{
}

/// Extending a builder preserves `targets_hold`.
pub proof fn lemma_targets_hold_extends(
    b2: CircuitBuilder,
    b1: CircuitBuilder,
    ts: Seq<ExtensionTarget>,
    vals: Seq<Ext4>,
    maxdeg: int,
)
    requires
        b2.extends(b1),
        targets_hold(b1, ts, vals, maxdeg),
    ensures
        targets_hold(b2, ts, vals, maxdeg),
{
    assert forall|k: int| 0 <= k < ts.len() implies b2.valid_target(#[trigger] ts[k])
        && b2.value_spec(ts[k]) == vals[k] && b2.degree_spec(ts[k]) <= maxdeg by {
        lemma_extends_target(b2, b1, ts[k]);
    }
}

} // verus!
