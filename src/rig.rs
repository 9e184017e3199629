//! The rig's structural configuration: its joints in tree order, the active
//! joints that span the Jacobian's columns, and the effectors whose outputs span
//! its rows. It is rebuilt wholesale whenever the effectors or the solver method
//! change.

use vstd::prelude::*;
use crate::tree::{
    ancestor, depth_order, lemma_ancestor_gone, lists_each_once, parents_first, tree_order, well_formed,
};

verus! {

/// How a tick turns the Jacobian and the pose error into a joint-angle update.
#[derive(Clone, Copy, Debug, PartialEq, Eq)]
pub enum Method {
    /// A step along the transposed Jacobian, scaled by the gain.
    Gradient,
    /// A damped least-squares solve.
    Solve,
    /// A primary goal, with a secondary goal blended in its null space.
    Secondary,
    /// Position and orientation of the main effector, by damped least squares.
    Orientation,
}

/// One joint of the kinematic tree.
#[derive(Clone, Copy, Debug, PartialEq, Eq)]
pub struct Joint {
    /// Index of the bone in the host skeleton.
    pub id: usize,
    /// Index of the parent bone, `None` for a root.
    pub parent: Option<usize>,
    /// The joint's output is driven toward a target.
    pub effector: bool,
    /// The joint's output includes an orientation.
    pub orientation: bool,
    /// The joint takes part in the solve.
    pub active: bool,
}

/// An effector and the number of Jacobian rows its output takes.
#[derive(Clone, Copy, Debug, PartialEq, Eq)]
pub struct EffectorSpec {
    pub joint: usize,
    pub dim: usize,
}

/// Why a rebuild was refused; the rig then keeps its previous configuration.
#[derive(Clone, Copy, Debug, PartialEq, Eq)]
pub enum RebuildError {
    /// The main effector names no bone of the skeleton.
    MainEffectorNotFound,
    /// A bone's parent chain has a cycle or an out-of-range parent.
    MalformedHierarchy,
}

/// The structural configuration of a rig.
pub struct Rig {
    parents: Vec<Option<usize>>,
    joints: Vec<Joint>,
    active: Vec<usize>,
    effectors: Vec<EffectorSpec>,
    joint_count: usize,
    method: Method,
}

/// The mathematical model of a `Rig`.
pub struct RigModel {
    pub parents: Seq<Option<usize>>,
    pub joints: Seq<Joint>,
    pub active: Seq<usize>,
    pub effectors: Seq<EffectorSpec>,
    pub joint_count: nat,
    pub method: Method,
}

impl View for Rig {
    type V = RigModel;

    closed spec fn view(&self) -> RigModel {
        RigModel {
            parents: self.parents@,
            joints: self.joints@,
            active: self.active@,
            effectors: self.effectors@,
            joint_count: self.joint_count as nat,
            method: self.method,
        }
    }
}

/// The bones that the host reports enabled, below index `k`, in index order.
pub open spec fn enabled_prefix(enabled: Seq<bool>, k: nat) -> Seq<usize>
    decreases k,
{
    if k == 0 {
        Seq::empty()
    } else {
        let s = enabled_prefix(enabled, (k - 1) as nat);
        if enabled[k - 1] {
            s.push((k - 1) as usize)
        } else {
            s
        }
    }
}

/// The bone indices of `joints`, in order.
pub open spec fn joint_ids(joints: Seq<Joint>) -> Seq<usize> {
    joints.map_values(|j: Joint| j.id)
}

/// The active joint set: every enabled bone, in index order.
pub open spec fn active_joints(enabled: Seq<bool>) -> Seq<usize> {
    enabled_prefix(enabled, enabled.len())
}

/// Number of output components of a joint that is an effector.
pub open spec fn output_dim(j: Joint) -> nat {
    if j.orientation {
        6
    } else {
        3
    }
}

/// The effectors among the first `k` joints, in order.
pub open spec fn effectors_prefix(joints: Seq<Joint>, k: nat) -> Seq<EffectorSpec>
    decreases k,
{
    if k == 0 {
        Seq::empty()
    } else {
        let s = effectors_prefix(joints, (k - 1) as nat);
        if joints[k - 1].effector {
            s.push(EffectorSpec { joint: joints[k - 1].id, dim: output_dim(joints[k - 1]) as usize })
        } else {
            s
        }
    }
}

/// The effector list of a tree: its effector joints in tree order.
pub open spec fn effectors_of(joints: Seq<Joint>) -> Seq<EffectorSpec> {
    effectors_prefix(joints, joints.len())
}

/// Number of Jacobian rows: the sum of the effectors' output dimensions.
pub open spec fn output_rows(effectors: Seq<EffectorSpec>) -> nat
    decreases effectors.len(),
{
    if effectors.len() == 0 {
        0
    } else {
        (output_rows(effectors.drop_last()) + effectors.last().dim) as nat
    }
}

/// The main effector names a bone of a skeleton of `n` bones.
pub open spec fn main_found(n: nat, main: Option<usize>) -> bool {
    main matches Some(m) && m < n
}

/// Bone `i` is an effector: it is the main effector, or the secondary one in
/// `Secondary` mode.
pub open spec fn is_effector(i: usize, main: Option<usize>, secondary: Option<usize>, method: Method) -> bool {
    main == Some(i) || (method == Method::Secondary && secondary == Some(i))
}

/// The joint that a rebuild makes of bone `i`.
pub open spec fn joint_of(
    parents: Seq<Option<usize>>,
    enabled: Seq<bool>,
    i: usize,
    main: Option<usize>,
    secondary: Option<usize>,
    method: Method,
) -> Joint {
    Joint {
        id: i,
        parent: parents[i as int],
        effector: is_effector(i, main, secondary, method),
        orientation: method == Method::Orientation,
        active: enabled[i as int],
    }
}

/// The joints of a rebuilt tree, in tree order.
pub open spec fn built_joints(
    parents: Seq<Option<usize>>,
    enabled: Seq<bool>,
    main: Option<usize>,
    secondary: Option<usize>,
    method: Method,
) -> Seq<Joint> {
    tree_order(parents).map_values(|i: usize| joint_of(parents, enabled, i, main, secondary, method))
}

/// The configuration after a rebuild from `prior`: a fresh one when the main
/// effector is found and the hierarchy is well formed, `prior` otherwise.
pub open spec fn rebuilt(
    prior: RigModel,
    parents: Seq<Option<usize>>,
    enabled: Seq<bool>,
    main: Option<usize>,
    secondary: Option<usize>,
    method: Method,
) -> RigModel {
    if main_found(parents.len(), main) && well_formed(parents) {
        let joints = built_joints(parents, enabled, main, secondary, method);
        RigModel {
            parents,
            joints,
            active: active_joints(enabled),
            effectors: effectors_of(joints),
            joint_count: parents.len(),
            method,
        }
    } else {
        prior
    }
}

impl Rig {
    /// The rig's configuration is self-consistent.
    pub open spec fn wf(&self) -> bool {
        &&& self@.joints.len() == self@.joint_count
        &&& self@.parents.len() == self@.joint_count
        &&& lists_each_once(self@.joint_count, joint_ids(self@.joints))
        &&& parents_first(self@.parents, joint_ids(self@.joints))
        &&& self@.effectors == effectors_of(self@.joints)
        &&& self@.effectors.len() <= 2
        &&& forall|e: int|
            0 <= e < self@.effectors.len() ==> #[trigger] self@.effectors[e].dim == 3
                || self@.effectors[e].dim == 6
        &&& forall|k: int| 0 <= k < self@.active.len() ==> self@.active[k] < self@.joint_count
    }

    /// An empty rig: no joints, in `Gradient` mode.
    pub fn new() -> (r: Rig)
        ensures
            r.wf(),
            r@.joints.len() == 0,
            r@.parents.len() == 0,
            r@.active.len() == 0,
            r@.effectors.len() == 0,
            r@.joint_count == 0,
            r@.method == Method::Gradient,
    {
        Rig { parents: Vec::new(), joints: Vec::new(), active: Vec::new(), effectors: Vec::new(), joint_count: 0, method: Method::Gradient }
    }

    /// Rebuilds the configuration from the host skeleton: `parents[i]` is the
    /// parent of bone `i`, `enabled[i]` whether the host enables it, and `main` /
    /// `secondary` the bones that the effector names resolve to (`None` when a name
    /// resolves to no bone). Joint angles start over at zero, one per bone, so
    /// the number of angles is the new `joint_count`.
    ///
    /// An unresolved main effector or a malformed hierarchy is refused and the
    /// previous configuration kept; an unresolved secondary effector is not an
    /// error, it only leaves the secondary goal without an effector.
    pub fn rebuild(
        &mut self,
        parents: &Vec<Option<usize>>,
        enabled: &Vec<bool>,
        main: Option<usize>,
        secondary: Option<usize>,
        method: Method,
    ) -> (r: Result<(), RebuildError>)
        requires
            old(self).wf(),
            enabled.len() == parents.len(),
        ensures
            final(self).wf(),
            final(self)@ == rebuilt(old(self)@, parents@, enabled@, main, secondary, method),
            r is Ok <==> main_found(parents@.len(), main) && well_formed(parents@),
            r == Err::<(), RebuildError>(RebuildError::MainEffectorNotFound) <==> !main_found(
                parents@.len(),
                main,
            ),
            r == Err::<(), RebuildError>(RebuildError::MalformedHierarchy) <==> main_found(
                parents@.len(),
                main,
            ) && !well_formed(parents@),
    {
        let n = parents.len();
        let m: usize = match main {
            Some(m) => m,
            None => {
                return Err(RebuildError::MainEffectorNotFound);
            },
        };
        if m >= n {
            return Err(RebuildError::MainEffectorNotFound);
        }
        let order = match depth_order(parents) {
            Some(o) => o,
            None => {
                return Err(RebuildError::MalformedHierarchy);
            },
        };
        let ghost js = built_joints(parents@, enabled@, main, secondary, method);
        let orient = matches!(method, Method::Orientation);
        let second = matches!(method, Method::Secondary);
        let mut joints: Vec<Joint> = Vec::new();
        let mut effectors: Vec<EffectorSpec> = Vec::new();
        let mut k: usize = 0;
        while k < n
            invariant
                n == parents.len(),
                enabled.len() == n,
                order@ == tree_order(parents@),
                lists_each_once(n as nat, order@),
                js == built_joints(parents@, enabled@, main, secondary, method),
                js.len() == n,
                k <= n,
                orient == (method == Method::Orientation),
                second == (method == Method::Secondary),
                main == Some(m),
                joints@ == js.take(k as int),
                effectors@ == effectors_prefix(js, k as nat),
                effectors@.len() <= 2,
                forall|e: int|
                    #![trigger effectors@[e]]
                    0 <= e < effectors@.len() ==> (effectors@[e].joint == m || secondary == Some(
                        effectors@[e].joint,
                    )) && exists|q: int| 0 <= q < k && order@[q] == effectors@[e].joint,
                effectors@.len() == 2 ==> effectors@[0].joint != effectors@[1].joint,
                forall|e: int|
                    0 <= e < effectors@.len() ==> #[trigger] effectors@[e].dim == 3 || effectors@[e].dim
                        == 6,
            decreases n - k,
        {
            let i = order[k];
            let is_secondary = match secondary {
                Some(s) => s == i,
                None => false,
            };
            let effector = i == m || (second && is_secondary);
            let joint = Joint { id: i, parent: parents[i], effector, orientation: orient, active: enabled[i] };
            assert(js[k as int] == joint);
            let ghost before = effectors@;
            if effector {
                let dim: usize = if orient {
                    6
                } else {
                    3
                };
                proof {
                    if before.len() == 2 {
                        let q0 = choose|q: int| 0 <= q < k && order@[q] == before[0].joint;
                        let q1 = choose|q: int| 0 <= q < k && order@[q] == before[1].joint;
                        assert(order@[q0] != order@[k as int]);
                        assert(order@[q1] != order@[k as int]);
                    }
                    if before.len() == 1 {
                        let q0 = choose|q: int| 0 <= q < k && order@[q] == before[0].joint;
                        assert(order@[q0] != order@[k as int]);
                    }
                }
                effectors.push(EffectorSpec { joint: i, dim });
            }
            joints.push(joint);
            proof {
                assert(joints@ =~= js.take(k + 1));
                assert forall|e: int|
                    #![trigger effectors@[e]]
                    0 <= e < effectors@.len() implies exists|q: int|
                        0 <= q < k + 1 && order@[q] == effectors@[e].joint by {
                    if e < before.len() {
                        assert(effectors@[e] == before[e]);
                        let q = choose|q: int| 0 <= q < k && order@[q] == before[e].joint;
                        assert(0 <= q < k + 1 && order@[q] == effectors@[e].joint);
                    } else {
                        assert(order@[k as int] == effectors@[e].joint);
                    }
                }
            }
            k = k + 1;
        }
        let mut active: Vec<usize> = Vec::new();
        let mut i: usize = 0;
        while i < n
            invariant
                n == parents.len(),
                enabled.len() == n,
                i <= n,
                active@ == enabled_prefix(enabled@, i as nat),
                forall|a: int| 0 <= a < active@.len() ==> active@[a] < n,
            decreases n - i,
        {
            if enabled[i] {
                active.push(i);
            }
            i = i + 1;
        }
        let mut snapshot: Vec<Option<usize>> = Vec::new();
        let mut i: usize = 0;
        while i < n
            invariant
                n == parents.len(),
                i <= n,
                snapshot@ == parents@.take(i as int),
            decreases n - i,
        {
            snapshot.push(parents[i]);
            proof {
                assert(snapshot@ =~= parents@.take(i + 1));
            }
            i = i + 1;
        }
        proof {
            assert(joints@ =~= js);
            assert(snapshot@ =~= parents@);
            assert(joint_ids(js) =~= order@);
        }
        self.parents = snapshot;
        self.joints = joints;
        self.active = active;
        self.effectors = effectors;
        self.joint_count = n;
        self.method = method;
        Ok(())
    }

    /// The joints in tree order.
    pub fn joints(&self) -> (r: &Vec<Joint>)
        ensures
            r@ == self@.joints,
    {
        &self.joints
    }

    /// The active joint set: column `c` of the Jacobian belongs to bone `active()[c]`.
    pub fn active(&self) -> (r: &Vec<usize>)
        ensures
            r@ == self@.active,
    {
        &self.active
    }

    /// The effectors in tree order.
    pub fn effectors(&self) -> (r: &Vec<EffectorSpec>)
        ensures
            r@ == self@.effectors,
    {
        &self.effectors
    }

    /// The number of bones, and so of joint angles.
    pub fn joint_count(&self) -> (r: usize)
        ensures
            r == self@.joint_count,
    {
        self.joint_count
    }

    /// The method the configuration was built for.
    pub fn method(&self) -> (r: Method)
        ensures
            r == self@.method,
    {
        self.method
    }

    /// Whether turning the joint of column `c` moves effector `k`: it does exactly
    /// when that joint is the effector or one of its ancestors. Every other entry of
    /// the column is zero, and the forward kinematics of that effector need not be
    /// evaluated again for the column.
    pub fn affects(&self, c: usize, k: usize) -> (r: bool)
        requires
            self.wf(),
            c < self@.active.len(),
            k < self@.effectors.len(),
        ensures
            r == ancestor_or_self(self@.parents, self@.active[c as int], self@.effectors[k as int].joint),
    {
        let a = self.active[c];
        let b = self.effectors[k].joint;
        assert(a == self@.active[c as int] && b == self@.effectors[k as int].joint);
        let n = self.parents.len();
        let ghost parents = self@.parents;
        if b >= n {
            proof {
                assert forall|d: nat| d < parents.len() implies ancestor(parents, b as int, d) != Some(a as int) by {
                    lemma_ancestor_gone(parents, b as int, 0, d);
                }
            }
            return false;
        }
        let mut cur: usize = b;
        let mut d: usize = 0;
        while d < n
            invariant
                parents == self.parents@,
                parents == self@.parents,
                c < self@.active.len(),
                k < self@.effectors.len(),
                a == self@.active[c as int],
                b == self@.effectors[k as int].joint,
                n == parents.len(),
                cur < n,
                d <= n,
                ancestor(parents, b as int, d as nat) == Some(cur as int),
                forall|e: nat| e < d ==> ancestor(parents, b as int, e) != Some(a as int),
            decreases n - d,
        {
            if cur == a {
                proof {
                    assert(ancestor(parents, b as int, d as nat) == Some(a as int));
                }
                return true;
            }
            match self.parents[cur] {
                None => {
                    proof {
                        assert(ancestor(parents, b as int, (d + 1) as nat) is None);
                        assert forall|e: nat| e < n implies ancestor(parents, b as int, e) != Some(a as int) by {
                            if e > d {
                                lemma_ancestor_gone(parents, b as int, (d + 1) as nat, e);
                            }
                        }
                    }
                    return false;
                },
                Some(p) => {
                    if p >= n {
                        proof {
                            assert(ancestor(parents, b as int, (d + 1) as nat) is None);
                            assert forall|e: nat| e < n implies ancestor(parents, b as int, e) != Some(a as int) by {
                                if e > d {
                                    lemma_ancestor_gone(parents, b as int, (d + 1) as nat, e);
                                }
                            }
                        }
                        return false;
                    }
                    cur = p;
                    d = d + 1;
                },
            }
        }
        false
    }

    /// The first Jacobian row of effector `k` and the row after its last: its
    /// rows follow those of the effectors before it.
    pub fn effector_rows(&self, k: usize) -> (r: (usize, usize))
        requires
            self.wf(),
            k < self@.effectors.len(),
        ensures
            r.0 == output_rows(self@.effectors.take(k as int)),
            r.1 == r.0 + self@.effectors[k as int].dim,
    {
        let start = self.rows_before(k);
        (start, start + self.effectors[k].dim)
    }

    /// The shape of the Jacobian, rows then columns: a row for each output
    /// component of each effector, a column for each active joint.
    pub fn shape(&self) -> (r: (usize, usize))
        requires
            self.wf(),
        ensures
            r.0 == output_rows(self@.effectors),
            r.1 == self@.active.len(),
    {
        let rows = self.rows_before(self.effectors.len());
        proof {
            assert(self@.effectors.take(self@.effectors.len() as int) =~= self@.effectors);
        }
        (rows, self.active.len())
    }

    fn rows_before(&self, k: usize) -> (r: usize)
        requires
            self.wf(),
            k <= self@.effectors.len(),
        ensures
            r == output_rows(self@.effectors.take(k as int)),
            r <= 6 * k,
    {
        let mut rows: usize = 0;
        let mut e: usize = 0;
        while e < k
            invariant
                self.wf(),
                k <= self@.effectors.len(),
                e <= k,
                rows == output_rows(self@.effectors.take(e as int)),
                rows <= 6 * e,
            decreases k - e,
        {
            proof {
                assert(self@.effectors.take(e + 1).drop_last() =~= self@.effectors.take(e as int));
                assert(self.effectors@[e as int] == self@.effectors[e as int]);
            }
            rows = rows + self.effectors[e].dim;
            e = e + 1;
        }
        rows
    }
}

/// Bone `a` is bone `b` or one of its ancestors, fewer than `n` steps up.
pub open spec fn ancestor_or_self(parents: Seq<Option<usize>>, a: usize, b: usize) -> bool {
    exists|d: nat| d < parents.len() && ancestor(parents, b as int, d) == Some(a as int)
}

/// Rebuilding twice with the same inputs leaves the configuration that one
/// rebuild leaves: the same joints, active joint set and effector list, and the
/// same number of (zeroed) joint angles.
pub proof fn lemma_rebuild_idempotent(
    prior: RigModel,
    parents: Seq<Option<usize>>,
    enabled: Seq<bool>,
    main: Option<usize>,
    secondary: Option<usize>,
    method: Method,
)
    ensures
        rebuilt(rebuilt(prior, parents, enabled, main, secondary, method), parents, enabled, main, secondary, method)
            == rebuilt(prior, parents, enabled, main, secondary, method),
{
}

/// A rebuild that succeeds keeps nothing of the previous configuration, and sizes
/// the joint-angle state to every bone of the skeleton.
pub proof fn lemma_rebuild_forgets_prior(
    a: RigModel,
    b: RigModel,
    parents: Seq<Option<usize>>,
    enabled: Seq<bool>,
    main: Option<usize>,
    secondary: Option<usize>,
    method: Method,
)
    requires
        main_found(parents.len(), main),
        well_formed(parents),
    ensures
        rebuilt(a, parents, enabled, main, secondary, method) == rebuilt(b, parents, enabled, main, secondary, method),
        rebuilt(a, parents, enabled, main, secondary, method).joint_count == parents.len(),
{
}

} // verus!
