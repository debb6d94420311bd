//! Composition of components into one dispatch surface.
//!
//! A component owns a set of named operations; composing an ordered
//! list of components yields a dispatcher that routes a call to the
//! unique position owning its operation identity and prices the call
//! with that operation's cost model. Overlapping operation identities
//! are rejected when the dispatcher is assembled, never at dispatch
//! time.

use vstd::prelude::*;

use crate::DispatchError;
use crate::validate::Validator;
use crate::weight::{CostModel, DbCostModel, Weight};

verus! {

/// One callable operation a component owns: its identity (unique over
/// the whole composition) and its cost model.
#[derive(Clone, Debug)]
pub struct OperationDesc {
    pub name: u64,
    pub cost: CostModel,
}

/// An independently authored unit owning a disjoint set of operations,
/// with an optional two-phase validation capability. Immutable once
/// composed.
#[derive(Clone, Debug)]
pub struct Component {
    pub name: u64,
    pub ops: Vec<OperationDesc>,
    pub validation: Option<Validator>,
}

/// A decoded, routable call: the operation identity it addresses plus
/// its declared size-like parameters.
#[derive(Clone, Debug)]
pub struct Call {
    pub op: u64,
    pub params: Vec<u64>,
}

/// Position `(i, j)` — operation `j` of component `i` — carries the
/// operation identity `name`.
pub open spec fn resolves(cs: Seq<Component>, name: u64, i: int, j: int) -> bool {
    &&& 0 <= i < cs.len()
    &&& 0 <= j < cs[i].ops@.len()
    &&& cs[i].ops@[j].name == name
}

/// The components' operation namespaces are pairwise disjoint: no two
/// positions carry the same operation identity.
pub open spec fn ops_disjoint(cs: Seq<Component>) -> bool {
    forall|i1: int, j1: int, i2: int, j2: int|
        0 <= i1 < cs.len() && 0 <= j1 < cs[i1].ops@.len() && 0 <= i2 < cs.len() && 0 <= j2
            < cs[i2].ops@.len() && (i1 != i2 || j1 != j2) ==> #[trigger] cs[i1].ops@[j1].name
            != #[trigger] cs[i2].ops@[j2].name
}

/// Some position carries the operation identity `name`.
pub open spec fn owns_op(cs: Seq<Component>, name: u64) -> bool {
    exists|i: int, j: int| resolves(cs, name, i, j)
}

/// The position that carries `name` (unique when `ops_disjoint` holds).
pub open spec fn route_of(cs: Seq<Component>, name: u64) -> (int, int) {
    choose|i: int, j: int| resolves(cs, name, i, j)
}

/// The operation at position `(i, j)` differs from every later position.
pub open spec fn distinct_after(cs: Seq<Component>, i: int, j: int) -> bool {
    &&& forall|l: int|
        j < l < cs[i].ops@.len() ==> cs[i].ops@[j].name != (#[trigger] cs[i].ops@[l]).name
    &&& forall|k: int, l: int|
        i < k < cs.len() && 0 <= l < cs[k].ops@.len() ==> cs[i].ops@[j].name
            != (#[trigger] cs[k].ops@[l]).name
}

/// If every position differs from all later positions, the namespaces
/// are pairwise disjoint.
proof fn lemma_distinct_after_disjoint(cs: Seq<Component>)
    requires
        forall|i: int, j: int|
            0 <= i < cs.len() && 0 <= j < cs[i].ops@.len() ==> #[trigger] distinct_after(cs, i, j),
    ensures
        ops_disjoint(cs),
{
    assert forall|i1: int, j1: int, i2: int, j2: int|
        0 <= i1 < cs.len() && 0 <= j1 < cs[i1].ops@.len() && 0 <= i2 < cs.len() && 0 <= j2
            < cs[i2].ops@.len() && (i1 != i2 || j1 != j2) implies #[trigger] cs[i1].ops@[j1].name
        != #[trigger] cs[i2].ops@[j2].name by {
        if i1 < i2 {
            assert(distinct_after(cs, i1, j1));
        } else if i2 < i1 {
            assert(distinct_after(cs, i2, j2));
        } else if j1 < j2 {
            assert(distinct_after(cs, i1, j1));
        } else {
            assert(distinct_after(cs, i2, j2));
        }
    }
}

/// Routing law: over a disjointly composed list, routing is total and
/// injective. Totality: every owned operation identity resolves (see
/// `owns_op` and `Dispatcher::try_route`). Injectivity: two resolutions
/// land on the same (component, operation) position exactly when they
/// resolve the same identity — every call variant is owned by exactly
/// one position, and distinct variants by distinct positions.
pub proof fn lemma_route_injective(
    cs: Seq<Component>,
    n1: u64,
    i1: int,
    j1: int,
    n2: u64,
    i2: int,
    j2: int,
)
    requires
        ops_disjoint(cs),
        resolves(cs, n1, i1, j1),
        resolves(cs, n2, i2, j2),
    ensures
        (i1 == i2 && j1 == j2) <==> n1 == n2,
{
}

/// Routing law, totality half: every owned operation identity resolves —
/// the routed position exists and carries it.
pub proof fn lemma_route_total(cs: Seq<Component>, name: u64)
    requires
        owns_op(cs, name),
    ensures
        resolves(cs, name, route_of(cs, name).0, route_of(cs, name).1),
{
    let (i, j) = choose|i: int, j: int| resolves(cs, name, i, j);
    assert(resolves(cs, name, i, j));
}

/// The composed dispatch surface: an ordered list of components whose
/// operation namespaces were checked to be disjoint at assembly time.
#[derive(Clone, Debug)]
pub struct Dispatcher {
    pub components: Vec<Component>,
}

/// Find the operation named `name` inside one component.
fn find_op(c: &Component, name: u64) -> (r: Option<usize>)
    ensures
        match r {
            Some(j) => j < c.ops@.len() && c.ops@[j as int].name == name,
            None => forall|j: int| 0 <= j < c.ops@.len() ==> (#[trigger] c.ops@[j]).name != name,
        },
{
    let mut j: usize = 0;
    while j < c.ops.len()
        invariant
            j <= c.ops@.len(),
            forall|l: int| 0 <= l < j ==> (#[trigger] c.ops@[l]).name != name,
        decreases c.ops@.len() - j,
    {
        if c.ops[j].name == name {
            return Some(j);
        }
        j = j + 1;
    }
    None
}

impl Dispatcher {
    /// Assembly succeeded with pairwise-disjoint namespaces.
    pub open spec fn wf(self) -> bool {
        ops_disjoint(self.components@)
    }

    /// Some component of this dispatcher owns the operation `name`.
    pub open spec fn owns(self, name: u64) -> bool {
        owns_op(self.components@, name)
    }

    /// The call addresses an owned operation and carries one value per
    /// declared parameter of that operation.
    pub open spec fn call_wf(self, c: Call) -> bool {
        exists|i: int, j: int|
            resolves(self.components@, c.op, i, j) && c.params@.len()
                == self.components@[i].ops@[j].cost.terms@.len()
    }

    /// The weight assigned to a call: the estimate of the cost model of
    /// the operation the call routes to.
    pub open spec fn spec_weight(self, db: DbCostModel, c: Call) -> int {
        let (i, j) = route_of(self.components@, c.op);
        self.components@[i].ops@[j].cost.spec_estimate(db, c.params@)
    }

    /// Compose an ordered list of components into one dispatcher.
    ///
    /// Succeeds, preserving the list order, exactly when the components'
    /// operation namespaces are pairwise disjoint; otherwise fails at
    /// assembly time with `AssemblyConflict`.
    pub fn compose(components: Vec<Component>) -> (r: Result<Dispatcher, DispatchError>)
        ensures
            match r {
                Ok(d) => d.components@ == components@ && ops_disjoint(components@),
                Err(e) => e == DispatchError::AssemblyConflict && !ops_disjoint(components@),
            },
{
        let ghost cs = components@;
        let n = components.len();
        let mut i: usize = 0;
        while i < n
            invariant
                i <= n,
                n == cs.len(),
                cs == components@,
                forall|a: int, b: int|
                    0 <= a < i && 0 <= b < cs[a].ops@.len() ==> #[trigger] distinct_after(cs, a, b),
            decreases n - i,
        {
            let ops_len = components[i].ops.len();
            let mut j: usize = 0;
            while j < ops_len
                invariant
                    i < n,
                    j <= ops_len,
                    n == cs.len(),
                    cs == components@,
                    ops_len == cs[i as int].ops@.len(),
                    forall|a: int, b: int|
                        0 <= a < i && 0 <= b < cs[a].ops@.len() ==> #[trigger] distinct_after(
                            cs,
                            a,
                            b,
                        ),
                    forall|b: int| 0 <= b < j ==> #[trigger] distinct_after(cs, i as int, b),
                decreases ops_len - j,
            {
                let name = components[i].ops[j].name;
                let mut l: usize = j + 1;
                while l < ops_len
                    invariant
                        i < n,
                        j < ops_len,
                        j < l,
                        n == cs.len(),
                        cs == components@,
                        ops_len == cs[i as int].ops@.len(),
                        name == cs[i as int].ops@[j as int].name,
                        forall|b: int|
                            j < b < l ==> name != (#[trigger] cs[i as int].ops@[b]).name,
                    decreases ops_len - l,
                {
                    if components[i].ops[l].name == name {
                        proof {
                            if ops_disjoint(cs) {
                                assert(cs[i as int].ops@[j as int].name != cs[i as int].ops@[
                                    l as int].name);
                                assert(false);
                            }
                        }
                        return Err(DispatchError::AssemblyConflict);
                    }
                    l = l + 1;
                }
                let mut k: usize = i + 1;
                while k < n
                    invariant
                        i < k,
                        i < n,
                        j < ops_len,
                        k <= n,
                        n == cs.len(),
                        cs == components@,
                        ops_len == cs[i as int].ops@.len(),
                        name == cs[i as int].ops@[j as int].name,
                        forall|a: int, b: int|
                            i < a < k && 0 <= b < cs[a].ops@.len() ==> name
                                != (#[trigger] cs[a].ops@[b]).name,
                    decreases n - k,
                {
                    if let Some(l2) = find_op(&components[k], name) {
                        proof {
                            if ops_disjoint(cs) {
                                assert(cs[i as int].ops@[j as int].name != cs[k as int].ops@[
                                    l2 as int].name);
                                assert(false);
                            }
                        }
                        return Err(DispatchError::AssemblyConflict);
                    }
                    k = k + 1;
                }
                proof {
                    assert(forall|b: int|
                        j < b < cs[i as int].ops@.len() ==> name
                            != (#[trigger] cs[i as int].ops@[b]).name);
                    assert(distinct_after(cs, i as int, j as int));
                }
                j = j + 1;
            }
            i = i + 1;
        }
        proof {
            lemma_distinct_after_disjoint(cs);
        }
        Ok(Dispatcher { components })
    }

    /// Route a call to the position owning its operation identity:
    /// `Some` exactly when some component owns it.
    pub fn try_route(&self, call: &Call) -> (r: Option<(usize, usize)>)
        ensures
            match r {
                Some(p) => resolves(self.components@, call.op, p.0 as int, p.1 as int),
                None => !self.owns(call.op),
            },
    {
        let ghost cs = self.components@;
        let mut i: usize = 0;
        while i < self.components.len()
            invariant
                i <= cs.len(),
                cs == self.components@,
                forall|a: int, b: int|
                    0 <= a < i && 0 <= b < cs[a].ops@.len() ==> (#[trigger] cs[a].ops@[b]).name
                        != call.op,
            decreases cs.len() - i,
        {
            if let Some(j) = find_op(&self.components[i], call.op) {
                return Some((i, j));
            }
            i = i + 1;
        }
        proof {
            if owns_op(cs, call.op) {
                let (wi, wj) = choose|wi: int, wj: int| resolves(cs, call.op, wi, wj);
                assert(resolves(cs, call.op, wi, wj));
                assert((cs[wi].ops@[wj]).name != call.op);
                assert(false);
            }
        }
        None
    }

    /// Route a call known to address an owned operation; resolves to the
    /// unique owning position.
    pub fn route(&self, call: &Call) -> (r: (usize, usize))
        requires
            self.wf(),
            self.owns(call.op),
        ensures
            resolves(self.components@, call.op, r.0 as int, r.1 as int),
            (r.0 as int, r.1 as int) == route_of(self.components@, call.op),
    {
        let r = self.try_route(call);
        match r {
            Some(p) => {
                proof {
                    let (wi, wj) = route_of(self.components@, call.op);
                    assert(resolves(self.components@, call.op, wi, wj));
                    lemma_route_injective(
                        self.components@,
                        call.op,
                        p.0 as int,
                        p.1 as int,
                        call.op,
                        wi,
                        wj,
                    );
                }
                p
            },
            None => {
                proof {
                    assert(false);
                }
                (0, 0)
            },
        }
    }

    /// The aggregate weight function of the composition: price a call by
    /// the cost model of the operation it routes to, without executing
    /// it.
    pub fn call_weight(&self, db: &DbCostModel, call: &Call) -> (w: Weight)
        requires
            self.wf(),
            self.call_wf(*call),
        ensures
            w == self.spec_weight(*db, *call),
    {
        proof {
            let (wi, wj) = choose|wi: int, wj: int|
                resolves(self.components@, call.op, wi, wj) && call.params@.len()
                    == self.components@[wi].ops@[wj].cost.terms@.len();
            assert(resolves(self.components@, call.op, wi, wj));
        }
        let (i, j) = self.route(call);
        proof {
            let (wi, wj) = choose|wi: int, wj: int|
                resolves(self.components@, call.op, wi, wj) && call.params@.len()
                    == self.components@[wi].ops@[wj].cost.terms@.len();
            assert(resolves(self.components@, call.op, wi, wj));
            lemma_route_injective(
                self.components@,
                call.op,
                wi,
                wj,
                call.op,
                i as int,
                j as int,
            );
        }
        self.components[i].ops[j].cost.estimate(db, &call.params)
    }
}

} // verus!
