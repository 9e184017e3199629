//! What one tick does: which strategy runs on which rows of the Jacobian, which
//! target an error is measured against, and when a tick is skipped.

use vstd::prelude::*;
use crate::rig::{Method, Rig};

verus! {

/// Which target an error is measured against.
#[derive(Clone, Copy, Debug, PartialEq, Eq)]
pub enum TargetChoice {
    /// The configured target: it lies within the distance threshold.
    Measured,
    /// The default target: the configured one lies beyond the threshold.
    Fallback,
    /// The configured target although it lies beyond the threshold, as no default
    /// target is set; the host is warned.
    MeasuredWithoutFallback,
}

/// Picks the target of an error: the default target replaces the configured one
/// when the error to the configured one exceeds the distance threshold and a
/// default is set.
pub fn choose_target(beyond_threshold: bool, has_fallback: bool) -> (r: TargetChoice)
    ensures
        r == (if !beyond_threshold {
            TargetChoice::Measured
        } else if has_fallback {
            TargetChoice::Fallback
        } else {
            TargetChoice::MeasuredWithoutFallback
        }),
{
    if !beyond_threshold {
        TargetChoice::Measured
    } else if has_fallback {
        TargetChoice::Fallback
    } else {
        TargetChoice::MeasuredWithoutFallback
    }
}

/// How the secondary-goal strategy pairs effector outputs with Jacobian rows.
/// The primary goal is measured at the second effector output and solved on that
/// output's rows; the secondary goal at the first output, on the first rows.
#[derive(Clone, Copy, Debug, PartialEq, Eq)]
pub struct SecondaryBlocks {
    /// Index of the effector output the primary error is measured at.
    pub primary_output: usize,
    /// First row of the primary block, and the row after its last.
    pub primary_rows: (usize, usize),
    /// Index of the effector output the secondary error is measured at.
    pub secondary_output: usize,
    /// First row of the secondary block, and the row after its last.
    pub secondary_rows: (usize, usize),
}

/// What a tick does.
#[derive(Clone, Copy, Debug, PartialEq, Eq)]
pub enum TickPlan {
    /// Nothing: no main target is set, or the rig has no effector.
    Idle,
    /// A gradient step on the main effector's position.
    Gradient,
    /// A damped least-squares step on the main effector's position.
    Solve,
    /// A primary step with a secondary goal blended in its null space.
    Secondary(SecondaryBlocks),
    /// A damped least-squares step on the main effector's position and
    /// orientation.
    Orientation,
    /// Skipped with a warning: the secondary target is not set.
    NoSecondaryTarget,
    /// Skipped with a warning: the secondary effector resolved to no bone.
    NoSecondaryEffector,
    /// Skipped with an error: no orientation reference is attached.
    NoOrientationReference,
}

/// The plan of a tick on a rig, given which of the host's optional inputs are set.
pub open spec fn tick_plan(
    method: Method,
    effector_dims: Seq<usize>,
    has_main_target: bool,
    has_secondary_target: bool,
    has_orientation_reference: bool,
) -> TickPlan {
    if !has_main_target || effector_dims.len() == 0 {
        TickPlan::Idle
    } else {
        match method {
            Method::Gradient => TickPlan::Gradient,
            Method::Solve => TickPlan::Solve,
            Method::Orientation => if has_orientation_reference {
                TickPlan::Orientation
            } else {
                TickPlan::NoOrientationReference
            },
            Method::Secondary => if !has_secondary_target {
                TickPlan::NoSecondaryTarget
            } else if effector_dims.len() < 2 {
                TickPlan::NoSecondaryEffector
            } else {
                TickPlan::Secondary(
                    SecondaryBlocks {
                        primary_output: 1,
                        primary_rows: (effector_dims[0], (effector_dims[0] + effector_dims[1]) as usize),
                        secondary_output: 0,
                        secondary_rows: (0, effector_dims[0]),
                    },
                )
            },
        }
    }
}

impl Rig {
    /// Plans one tick of the solver.
    pub fn plan_tick(
        &self,
        has_main_target: bool,
        has_secondary_target: bool,
        has_orientation_reference: bool,
    ) -> (r: TickPlan)
        requires
            self.wf(),
        ensures
            r == tick_plan(
                self@.method,
                self@.effectors.map_values(|e: crate::rig::EffectorSpec| e.dim),
                has_main_target,
                has_secondary_target,
                has_orientation_reference,
            ),
    {
        let effectors = self.effectors();
        let ghost dims = self@.effectors.map_values(|e: crate::rig::EffectorSpec| e.dim);
        if !has_main_target || effectors.len() == 0 {
            return TickPlan::Idle;
        }
        match self.method() {
            Method::Gradient => TickPlan::Gradient,
            Method::Solve => TickPlan::Solve,
            Method::Orientation => if has_orientation_reference {
                TickPlan::Orientation
            } else {
                TickPlan::NoOrientationReference
            },
            Method::Secondary => if !has_secondary_target {
                TickPlan::NoSecondaryTarget
            } else if effectors.len() < 2 {
                TickPlan::NoSecondaryEffector
            } else {
                let first = effectors[0].dim;
                let second = effectors[1].dim;
                assert(dims[0] == first && dims[1] == second);
                TickPlan::Secondary(
                    SecondaryBlocks {
                        primary_output: 1,
                        primary_rows: (first, first + second),
                        secondary_output: 0,
                        secondary_rows: (0, first),
                    },
                )
            },
        }
    }
}

} // verus!
