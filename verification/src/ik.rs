//! The two inverse-kinematics solvers, each as a step function.
//!
//! A solve is a conversation with the host. The solver's state says what the
//! host has to evaluate next: the errors of the chain against the target, a
//! step for all joints, the positions around one joint, or an angle. The host
//! hands the result back as an event, and the solver answers with its next
//! state, moving the joints of the chain where the event calls for it.

use vstd::prelude::*;
use crate::chain::{
    build_chain, indices, invalidated_from, same_but_angles, series_tree, Chain, Joint, JointSpec,
};
use crate::math_utils::{
    angle_to, cosine_term, cross_product, dot, floor_sqrt, in_range, length, normalize,
    normalized, project_onto_plane, projection, scaled_cross, sine_term, trunc_div, within,
    AngleTerms, Pose, SpecVec3, Vec3, COORD_MAX, DIRECTION_MAX, UNIT, WIDE_MAX,
};
use crate::math_utils::Quat;
use crate::node::JointKind;

verus! {

/// How a solve ended.
#[derive(Clone, Copy, Debug, PartialEq, Eq, Structural)]
pub struct SolveReport {
    /// Both errors were below their thresholds.
    pub converged: bool,
    /// The Jacobian solver counts the steps it applied, the cyclic solver the
    /// sweeps it made.
    pub iterations_used: usize,
    /// The distance from the end-effector to the target, as last measured.
    pub final_position_error: i64,
    /// The angle from the end-effector's orientation to the target's, as
    /// last measured.
    pub final_orientation_error: i64,
}

/// Why an event was not taken. The chain and the state are then as before.
#[derive(Clone, Copy, Debug, PartialEq, Eq, Structural)]
pub enum SolveError {
    /// The event does not answer what the state asks for.
    UnexpectedEvent,
    /// A measured error is below zero.
    NegativeError,
    /// A step does not hold one value for each joint of the chain.
    WrongStepLength,
    /// A position or an axis lies beyond what the geometry can take.
    OutOfRange,
    /// The axis of a joint is the zero vector.
    DegenerateAxis,
}

/// Where a solve of the Jacobian solver stands.
#[derive(Clone, Copy, Debug, PartialEq, Eq, Structural)]
pub enum SolverState {
    /// No solve is under way.
    Idle,
    /// `iterations` steps were applied; the host is to measure the errors of
    /// the chain as it is now.
    Measuring { iterations: usize },
    /// The errors were too large; the host is to compute the next step.
    Stepping { iterations: usize },
    /// The solve ended with both errors below their thresholds.
    Converged { report: SolveReport },
    /// The solve ended at the iteration cap. The joints keep the values of
    /// the last step.
    MaxIterationsReached { report: SolveReport },
}

/// What the host tells the Jacobian solver.
#[derive(Clone, Debug, PartialEq, Eq)]
pub enum SolveEvent {
    /// A new solve starts, whatever stood before.
    Begin,
    /// The errors of the chain against the target.
    Measured { position_error: i64, orientation_error: i64 },
    /// The damped least-squares step: one change of angle for each joint, and
    /// the nudge toward the pole target if the host found that target.
    Stepped { deltas: Vec<i64>, pole_nudge: Option<i64> },
}

/// Where a solve of the cyclic solver stands.
#[derive(Clone, Copy, Debug, PartialEq, Eq, Structural)]
pub enum SweepState {
    /// No solve is under way.
    Idle,
    /// `iterations` sweeps are done; the host is to say where `joint`, its
    /// axis, the end-effector and the target are.
    Posing { iterations: usize, joint: usize },
    /// The host is to take the `atan2` of `terms`: the angle by which `joint`
    /// turns.
    Turning { iterations: usize, joint: usize, terms: AngleTerms },
    /// `iterations` sweeps are done; the host is to measure the errors of the
    /// chain as it is now.
    Measuring { iterations: usize },
    /// The solve ended with both errors below their thresholds.
    Converged { report: SolveReport },
    /// The solve ended at the iteration cap. The joints keep their values.
    MaxIterationsReached { report: SolveReport },
}

/// What the host tells the cyclic solver.
#[derive(Clone, Copy, Debug, PartialEq, Eq, Structural)]
pub enum SweepEvent {
    /// A new solve starts, whatever stood before.
    Begin,
    /// Where things are, in world space, for the joint that is to turn.
    Posed { joint_position: Vec3, joint_axis: Vec3, effector_position: Vec3, target_position: Vec3 },
    /// The angle that the terms of the state give.
    Angle { angle: i64 },
    /// The errors of the chain against the target.
    Measured { position_error: i64, orientation_error: i64 },
}

/// Largest magnitude of a component of a position that the solvers take:
/// the difference of two such positions is within [`COORD_MAX`].
pub const POSITION_MAX: i64 = 549_755_813_888;

/// The default distance below which a target counts as reached.
pub const DEFAULT_TARGET_DISTANCE: i64 = 1_000;

/// The default angle below which a target's orientation counts as reached.
pub const DEFAULT_TARGET_ANGLE: i64 = 5_000;

/// The default cap on the steps of one solve.
pub const DEFAULT_MAX_ITERATIONS: usize = 10;

/// The default damping of the least-squares step.
pub const DEFAULT_DAMPING: i64 = 10_000;

/// The default limit on the change of one angle in one step.
pub const DEFAULT_MAX_STEP: i64 = 500_000;

/// The joint of the reference arm that a pole target bends: its elbow.
pub const ELBOW_JOINT: usize = 4;

/// `x`, or the end of the range of an angle that `x` lies beyond.
pub open spec fn saturate(x: int) -> int {
    if x > i64::MAX {
        i64::MAX as int
    } else if x < i64::MIN {
        i64::MIN as int
    } else {
        x
    }
}

/// `delta` held within `max_step` of zero. A `max_step` that is not positive
/// lets nothing through.
pub open spec fn clamp_step(delta: int, max_step: int) -> int {
    if max_step <= 0 {
        0
    } else if delta > max_step {
        max_step
    } else if delta < -max_step {
        -max_step
    } else {
        delta
    }
}

/// `count` plus one, as far as the type goes.
pub open spec fn next_count(count: usize) -> usize {
    if count < usize::MAX {
        (count + 1) as usize
    } else {
        count
    }
}

/// The nudge that joint `i` gets: `pole_nudge` at the joint that the pole
/// target bends, where both are there, and nothing elsewhere.
pub open spec fn nudge_at(pole_joint: Option<usize>, pole_nudge: Option<i64>, i: int) -> int {
    match (pole_joint, pole_nudge) {
        (Some(j), Some(nudge)) => if j == i {
            nudge as int
        } else {
            0
        },
        _ => 0,
    }
}

/// A joint after a step: a rotational joint turns by `delta` and by `nudge`,
/// each held within `max_step`; a fixed joint stays.
pub open spec fn stepped_joint(joint: Joint, delta: int, nudge: int, max_step: int) -> Joint {
    match joint.kind {
        JointKind::Fixed => joint,
        JointKind::Rotational { .. } => Joint {
            joint_value: saturate(
                joint.joint_value + clamp_step(delta, max_step) + clamp_step(nudge, max_step),
            ) as i64,
            ..joint
        },
    }
}

/// The joints of a chain after a step.
pub open spec fn stepped(
    joints: Seq<Joint>,
    deltas: Seq<i64>,
    pole_joint: Option<usize>,
    pole_nudge: Option<i64>,
    max_step: int,
) -> Seq<Joint> {
    Seq::new(
        joints.len(),
        |i: int|
            stepped_joint(joints[i], deltas[i] as int, nudge_at(pole_joint, pole_nudge, i), max_step),
    )
}

/// The joints of a chain after joint `index` has turned by `angle`.
pub open spec fn turned(joints: Seq<Joint>, index: int, angle: int) -> Seq<Joint> {
    joints.update(
        index,
        Joint { joint_value: saturate(joints[index].joint_value + angle) as i64, ..joints[index] },
    )
}

/// The first rotational joint at or after `from`, or the number of joints if
/// there is none.
pub open spec fn first_rotational_from(joints: Seq<Joint>, from: int) -> int
    decreases joints.len() - from,
{
    if from >= joints.len() {
        joints.len() as int
    } else if from >= 0 && joints[from].kind is Rotational {
        from
    } else {
        first_rotational_from(joints, from + 1)
    }
}

/// The first rotational joint at or after `from` is not before `from`.
proof fn lemma_first_rotational_from(joints: Seq<Joint>, from: int)
    requires
        0 <= from <= joints.len(),
    ensures
        from <= first_rotational_from(joints, from) <= joints.len(),
    decreases joints.len() - from,
{
    if from < joints.len() && !(joints[from].kind is Rotational) {
        lemma_first_rotational_from(joints, from + 1);
    }
}

/// The last rotational joint before `below`, if there is one.
pub open spec fn last_rotational_below(joints: Seq<Joint>, below: int) -> Option<usize>
    decreases below,
{
    if below <= 0 {
        None
    } else if below <= joints.len() && joints[below - 1].kind is Rotational {
        Some((below - 1) as usize)
    } else {
        last_rotational_below(joints, below - 1)
    }
}

/// Every joint is fixed.
pub open spec fn all_fixed(joints: Seq<Joint>) -> bool {
    forall|i: int| 0 <= i < joints.len() ==> (#[trigger] joints[i]).kind is Fixed
}

/// Both errors are below their thresholds.
pub open spec fn within_thresholds(
    allowable_target_distance: i64,
    allowable_target_angle: i64,
    position_error: i64,
    orientation_error: i64,
) -> bool {
    position_error < allowable_target_distance && orientation_error < allowable_target_angle
}

/// The state that follows a measurement: the solve ends where the errors are
/// below the thresholds or the cap is reached, and goes on otherwise.
pub open spec fn after_measurement(
    allowable_target_distance: i64,
    allowable_target_angle: i64,
    max_iterations: usize,
    iterations: usize,
    position_error: i64,
    orientation_error: i64,
) -> Option<SolveReport> {
    if within_thresholds(
        allowable_target_distance,
        allowable_target_angle,
        position_error,
        orientation_error,
    ) {
        Some(
            SolveReport {
                converged: true,
                iterations_used: iterations,
                final_position_error: position_error,
                final_orientation_error: orientation_error,
            },
        )
    } else if iterations >= max_iterations {
        Some(
            SolveReport {
                converged: false,
                iterations_used: iterations,
                final_position_error: position_error,
                final_orientation_error: orientation_error,
            },
        )
    } else {
        None
    }
}

/// Whether a solve ends after a measurement, and with what report.
fn judge(
    allowable_target_distance: i64,
    allowable_target_angle: i64,
    max_iterations: usize,
    iterations: usize,
    position_error: i64,
    orientation_error: i64,
) -> (verdict: Option<SolveReport>)
    ensures
        verdict == after_measurement(
            allowable_target_distance,
            allowable_target_angle,
            max_iterations,
            iterations,
            position_error,
            orientation_error,
        ),
{
    let converged = position_error < allowable_target_distance && orientation_error
        < allowable_target_angle;
    if converged || iterations >= max_iterations {
        Some(
            SolveReport {
                converged,
                iterations_used: iterations,
                final_position_error: position_error,
                final_orientation_error: orientation_error,
            },
        )
    } else {
        None
    }
}

/// `delta` held within `max_step` of zero.
fn clamp_to_step(delta: i64, max_step: i64) -> (clamped: i64)
    ensures
        clamped == clamp_step(delta as int, max_step as int),
{
    if max_step <= 0 {
        0
    } else if delta > max_step {
        max_step
    } else if delta < -max_step {
        -max_step
    } else {
        delta
    }
}

/// `x` as an angle, held at the ends of the range.
fn saturate_to_angle(x: i128) -> (angle: i64)
    ensures
        angle == saturate(x as int),
{
    if x > i64::MAX as i128 {
        i64::MAX
    } else if x < i64::MIN as i128 {
        i64::MIN
    } else {
        x as i64
    }
}

/// `count` plus one, as far as the type goes.
fn count_up(count: usize) -> (next: usize)
    ensures
        next == next_count(count),
{
    if count < usize::MAX {
        count + 1
    } else {
        count
    }
}

/// The last rotational joint of `chain` before `below`, if there is one.
fn find_rotational_below(chain: &Chain, below: usize) -> (found: Option<usize>)
    requires
        chain.wf(),
    ensures
        found == last_rotational_below(chain@, below as int),
{
    let mut i = below;
    while i > 0
        invariant
            chain.wf(),
            i <= below,
            last_rotational_below(chain@, below as int) == last_rotational_below(chain@, i as int),
        decreases i,
    {
        match chain.joint(i - 1) {
            Some(joint) => match joint.kind {
                JointKind::Rotational { .. } => {
                    return Some(i - 1);
                },
                JointKind::Fixed => {},
            },
            None => {},
        }
        i -= 1;
    }
    None
}

/// Turns every rotational joint of `chain` by its part of `deltas`, and the
/// joint `pole_joint` by `pole_nudge` besides, each held within `max_step`.
/// The world poses from the first rotational joint on are forgotten.
///
/// `deltas` must hold one value for each joint: if it does not, nothing
/// changes and the result is `false`.
pub fn apply_step(
    chain: &mut Chain,
    deltas: &Vec<i64>,
    pole_joint: Option<usize>,
    pole_nudge: Option<i64>,
    max_step: i64,
) -> (applied: bool)
    requires
        old(chain).wf(),
    ensures
        final(chain).wf(),
        final(chain).path() == old(chain).path(),
        final(chain).root() == old(chain).root(),
        same_but_angles(old(chain).tree(), final(chain).tree()),
        applied <==> deltas@.len() == old(chain)@.len(),
        applied ==> final(chain)@ == stepped(
            old(chain)@,
            deltas@,
            pole_joint,
            pole_nudge,
            max_step as int,
        ) && final(chain).world() == invalidated_from(
            old(chain).world(),
            first_rotational_from(old(chain)@, 0),
        ),
        !applied ==> final(chain)@ == old(chain)@ && final(chain).world() == old(chain).world(),
{
    let n = chain.len();
    if deltas.len() != n {
        return false;
    }
    let ghost joints = chain@;
    let ghost world = chain.world();
    let ghost goal = stepped(joints, deltas@, pole_joint, pole_nudge, max_step as int);
    proof {
        chain.lemma_wf();
        assert(chain.world() =~= invalidated_from(world, n as int));
    }
    let mut i = n;
    while i > 0
        invariant
            i <= n,
            n == joints.len(),
            deltas@.len() == n,
            chain.wf(),
            chain.path() == old(chain).path(),
            chain.root() == old(chain).root(),
            same_but_angles(old(chain).tree(), chain.tree()),
            chain@.len() == n,
            world.len() == n,
            goal == stepped(joints, deltas@, pole_joint, pole_nudge, max_step as int),
            forall|j: int| 0 <= j < i ==> chain@[j] == joints[j],
            forall|j: int| i <= j < n ==> chain@[j] == goal[j],
            chain.world() == invalidated_from(world, first_rotational_from(joints, i as int)),
        decreases i,
    {
        let index = i - 1;
        let ghost before = chain.world();
        match chain.joint(index) {
            Some(joint) => match joint.kind {
                JointKind::Rotational { .. } => {
                    let nudge = match (pole_joint, pole_nudge) {
                        (Some(j), Some(nudge)) => if j == index {
                            nudge
                        } else {
                            0
                        },
                        _ => 0,
                    };
                    let value = saturate_to_angle(
                        (joint.joint_value as i128) + (clamp_to_step(deltas[index], max_step) as i128)
                            + (clamp_to_step(nudge, max_step) as i128),
                    );
                    chain.set_joint_value(index, value);
                    proof {
                        lemma_first_rotational_from(joints, i as int);
                        assert(chain.world() =~= invalidated_from(world, index as int));
                    }
                },
                JointKind::Fixed => {},
            },
            None => {},
        }
        i -= 1;
    }
    proof {
        assert(chain@ =~= goal);
    }
    true
}

/// The Jacobian solver: it asks the host for a damped least-squares step and
/// applies it, until the errors are below the thresholds or the cap on the
/// number of steps is reached.
#[derive(Clone, Copy, Debug, PartialEq, Eq, Structural)]
pub struct JacobianIkSolver {
    /// The distance below which the target counts as reached.
    pub allowable_target_distance: i64,
    /// The angle below which the target's orientation counts as reached.
    pub allowable_target_angle: i64,
    /// The largest number of steps in one solve.
    pub max_iterations: usize,
    /// The damping of the least-squares step, which the host reads.
    pub damping: i64,
    /// The largest change of one angle in one step.
    pub max_step: i64,
}

/// The state of the Jacobian solver after `event`, or why the event is not
/// taken.
pub open spec fn jacobian_next(
    solver: JacobianIkSolver,
    state: SolverState,
    event: SolveEvent,
    joint_count: nat,
) -> Result<SolverState, SolveError> {
    match event {
        SolveEvent::Begin => Ok(SolverState::Measuring { iterations: 0 }),
        SolveEvent::Measured { position_error, orientation_error } => match state {
            SolverState::Measuring { iterations } => if position_error < 0 || orientation_error
                < 0 {
                Err(SolveError::NegativeError)
            } else {
                match after_measurement(
                    solver.allowable_target_distance,
                    solver.allowable_target_angle,
                    solver.max_iterations,
                    iterations,
                    position_error,
                    orientation_error,
                ) {
                    Some(report) => if report.converged {
                        Ok(SolverState::Converged { report })
                    } else {
                        Ok(SolverState::MaxIterationsReached { report })
                    },
                    None => Ok(SolverState::Stepping { iterations }),
                }
            },
            _ => Err(SolveError::UnexpectedEvent),
        },
        SolveEvent::Stepped { deltas, pole_nudge } => match state {
            SolverState::Stepping { iterations } => if deltas@.len() != joint_count {
                Err(SolveError::WrongStepLength)
            } else {
                Ok(SolverState::Measuring { iterations: next_count(iterations) })
            },
            _ => Err(SolveError::UnexpectedEvent),
        },
    }
}

/// The joints of the chain after the Jacobian solver has taken `event`: they
/// move when a step of the right length comes while the solver waits for one,
/// and at no other time.
pub open spec fn jacobian_joints(
    solver: JacobianIkSolver,
    state: SolverState,
    event: SolveEvent,
    pole_joint: Option<usize>,
    joints: Seq<Joint>,
) -> Seq<Joint> {
    match (state, event) {
        (SolverState::Stepping { .. }, SolveEvent::Stepped { deltas, pole_nudge }) => if deltas@.len()
            == joints.len() {
            stepped(joints, deltas@, pole_joint, pole_nudge, solver.max_step as int)
        } else {
            joints
        },
        _ => joints,
    }
}

/// The cached world poses after the Jacobian solver has taken `event`: a step
/// makes the poses from the first rotational joint on invalid.
pub open spec fn jacobian_world(
    state: SolverState,
    event: SolveEvent,
    joints: Seq<Joint>,
    world: Seq<Option<Pose>>,
) -> Seq<Option<Pose>> {
    match (state, event) {
        (SolverState::Stepping { .. }, SolveEvent::Stepped { deltas, pole_nudge }) => if deltas@.len()
            == joints.len() {
            invalidated_from(world, first_rotational_from(joints, 0))
        } else {
            world
        },
        _ => world,
    }
}

impl JacobianIkSolver {
    /// A solver with the given thresholds and cap, all of which must be
    /// positive, and with the default damping and step limit.
    pub fn new(
        allowable_target_distance: i64,
        allowable_target_angle: i64,
        max_iterations: usize,
    ) -> (solver: Option<JacobianIkSolver>)
        ensures
            solver == (if allowable_target_distance > 0 && allowable_target_angle > 0
                && max_iterations > 0 {
                Some(
                    JacobianIkSolver {
                        allowable_target_distance,
                        allowable_target_angle,
                        max_iterations,
                        damping: DEFAULT_DAMPING,
                        max_step: DEFAULT_MAX_STEP,
                    },
                )
            } else {
                None
            }),
    {
        if allowable_target_distance > 0 && allowable_target_angle > 0 && max_iterations > 0 {
            Some(
                JacobianIkSolver {
                    allowable_target_distance,
                    allowable_target_angle,
                    max_iterations,
                    damping: DEFAULT_DAMPING,
                    max_step: DEFAULT_MAX_STEP,
                },
            )
        } else {
            None
        }
    }

    /// Takes `event` in `state` and returns the state that follows.
    ///
    /// A solve starts with `Begin`. While the state is `Measuring`, the host
    /// measures the errors and sends `Measured`; while it is `Stepping`, the
    /// host computes a step and sends `Stepped`. The solve is over when the
    /// state is `Converged` or `MaxIterationsReached`.
    ///
    /// `pole_joint` is the joint that a pole target bends, if one is set.
    pub fn advance(
        &self,
        chain: &mut Chain,
        pole_joint: Option<usize>,
        state: SolverState,
        event: &SolveEvent,
    ) -> (r: Result<SolverState, SolveError>)
        requires
            old(chain).wf(),
        ensures
            final(chain).wf(),
            final(chain).path() == old(chain).path(),
            final(chain).root() == old(chain).root(),
            same_but_angles(old(chain).tree(), final(chain).tree()),
            r == jacobian_next(*self, state, *event, old(chain)@.len()),
            final(chain)@ == jacobian_joints(*self, state, *event, pole_joint, old(chain)@),
            final(chain).world() == jacobian_world(
                state,
                *event,
                old(chain)@,
                old(chain).world(),
            ),
            r is Err ==> final(chain)@ == old(chain)@ && final(chain).world() == old(
                chain,
            ).world(),
    {
        match event {
            SolveEvent::Begin => Ok(SolverState::Measuring { iterations: 0 }),
            SolveEvent::Measured { position_error, orientation_error } => match state {
                SolverState::Measuring { iterations } => {
                    if *position_error < 0 || *orientation_error < 0 {
                        return Err(SolveError::NegativeError);
                    }
                    match judge(
                        self.allowable_target_distance,
                        self.allowable_target_angle,
                        self.max_iterations,
                        iterations,
                        *position_error,
                        *orientation_error,
                    ) {
                        Some(report) => if report.converged {
                            Ok(SolverState::Converged { report })
                        } else {
                            Ok(SolverState::MaxIterationsReached { report })
                        },
                        None => Ok(SolverState::Stepping { iterations }),
                    }
                },
                _ => Err(SolveError::UnexpectedEvent),
            },
            SolveEvent::Stepped { deltas, pole_nudge } => match state {
                SolverState::Stepping { iterations } => {
                    if apply_step(chain, deltas, pole_joint, *pole_nudge, self.max_step) {
                        Ok(SolverState::Measuring { iterations: count_up(iterations) })
                    } else {
                        Err(SolveError::WrongStepLength)
                    }
                },
                _ => Err(SolveError::UnexpectedEvent),
            },
        }
    }
}

impl Default for JacobianIkSolver {
    /// The solver with the default thresholds, cap, damping and step limit.
    fn default() -> (solver: JacobianIkSolver)
        ensures
            solver == (JacobianIkSolver {
                allowable_target_distance: DEFAULT_TARGET_DISTANCE,
                allowable_target_angle: DEFAULT_TARGET_ANGLE,
                max_iterations: DEFAULT_MAX_ITERATIONS,
                damping: DEFAULT_DAMPING,
                max_step: DEFAULT_MAX_STEP,
            }),
    {
        JacobianIkSolver {
            allowable_target_distance: DEFAULT_TARGET_DISTANCE,
            allowable_target_angle: DEFAULT_TARGET_ANGLE,
            max_iterations: DEFAULT_MAX_ITERATIONS,
            damping: DEFAULT_DAMPING,
            max_step: DEFAULT_MAX_STEP,
        }
    }
}

/// The cyclic solver: in each sweep it turns one joint after the other, from
/// the end-effector to the root, by the angle that brings the end-effector
/// nearest to the target, and after each sweep it has the errors measured.
/// A joint turns by the whole angle: nothing damps it.
#[derive(Clone, Copy, Debug, PartialEq, Eq, Structural)]
pub struct CyclicIKSolver {
    /// The distance below which the target counts as reached.
    pub allowable_target_distance: i64,
    /// The angle below which the target's orientation counts as reached.
    pub allowable_target_angle: i64,
    /// The largest number of sweeps in one solve.
    pub max_iterations: usize,
}

/// The difference of two vectors.
pub open spec fn minus(a: SpecVec3, b: SpecVec3) -> SpecVec3 {
    SpecVec3 { x: a.x - b.x, y: a.y - b.y, z: a.z - b.z }
}

/// The state in which a sweep goes on after the joints from `below` on have
/// had their turn: the next rotational joint toward the root is posed, or,
/// if there is none, the sweep is over and the errors are measured.
pub open spec fn sweep_from(joints: Seq<Joint>, iterations: usize, below: int) -> SweepState {
    match last_rotational_below(joints, below) {
        Some(joint) => SweepState::Posing { iterations, joint },
        None => SweepState::Measuring { iterations: next_count(iterations) },
    }
}

/// `joint` names a rotational joint.
pub open spec fn turns(joints: Seq<Joint>, joint: usize) -> bool {
    joint < joints.len() && joints[joint as int].kind is Rotational
}

/// The terms of the angle by which a joint at `joint_position` turns about
/// `joint_axis` to bring the end-effector nearest to the target: the vectors
/// from the joint to the end-effector and to the target are projected onto
/// the plane at right angles to the axis, and the angle is taken from the
/// first projection to the second.
pub open spec fn posed_terms(
    joint_position: SpecVec3,
    joint_axis: SpecVec3,
    effector_position: SpecVec3,
    target_position: SpecVec3,
) -> AngleTerms {
    AngleTerms {
        sine: sine_term(
            projection(minus(effector_position, joint_position), joint_axis),
            projection(minus(target_position, joint_position), joint_axis),
            joint_axis,
        ) as i128,
        cosine: cosine_term(
            projection(minus(effector_position, joint_position), joint_axis),
            projection(minus(target_position, joint_position), joint_axis),
        ) as i128,
    }
}

/// The state of the cyclic solver after `event`, or why the event is not
/// taken.
pub open spec fn cyclic_next(
    solver: CyclicIKSolver,
    state: SweepState,
    event: SweepEvent,
    joints: Seq<Joint>,
) -> Result<SweepState, SolveError> {
    match event {
        SweepEvent::Begin => Ok(sweep_from(joints, 0, joints.len() as int)),
        SweepEvent::Posed { joint_position, joint_axis, effector_position, target_position } => match state {
            SweepState::Posing { iterations, joint } => if !turns(joints, joint) {
                Err(SolveError::UnexpectedEvent)
            } else if !within(joint_position@, POSITION_MAX as int) || !within(
                effector_position@,
                POSITION_MAX as int,
            ) || !within(target_position@, POSITION_MAX as int) || !within(
                joint_axis@,
                DIRECTION_MAX as int,
            ) {
                Err(SolveError::OutOfRange)
            } else if dot(joint_axis@, joint_axis@) == 0 {
                Err(SolveError::DegenerateAxis)
            } else {
                Ok(
                    SweepState::Turning {
                        iterations,
                        joint,
                        terms: posed_terms(
                            joint_position@,
                            joint_axis@,
                            effector_position@,
                            target_position@,
                        ),
                    },
                )
            },
            _ => Err(SolveError::UnexpectedEvent),
        },
        SweepEvent::Angle { angle } => match state {
            SweepState::Turning { iterations, joint, terms } => if !turns(joints, joint) {
                Err(SolveError::UnexpectedEvent)
            } else {
                Ok(sweep_from(joints, iterations, joint as int))
            },
            _ => Err(SolveError::UnexpectedEvent),
        },
        SweepEvent::Measured { position_error, orientation_error } => match state {
            SweepState::Measuring { iterations } => if position_error < 0 || orientation_error
                < 0 {
                Err(SolveError::NegativeError)
            } else {
                match after_measurement(
                    solver.allowable_target_distance,
                    solver.allowable_target_angle,
                    solver.max_iterations,
                    iterations,
                    position_error,
                    orientation_error,
                ) {
                    Some(report) => if report.converged {
                        Ok(SweepState::Converged { report })
                    } else {
                        Ok(SweepState::MaxIterationsReached { report })
                    },
                    None => Ok(sweep_from(joints, iterations, joints.len() as int)),
                }
            },
            _ => Err(SolveError::UnexpectedEvent),
        },
    }
}

/// The joints of the chain after the cyclic solver has taken `event`: the
/// joint whose turn it is turns when its angle comes, and nothing else moves.
pub open spec fn cyclic_joints(state: SweepState, event: SweepEvent, joints: Seq<Joint>) -> Seq<
    Joint,
> {
    match (state, event) {
        (SweepState::Turning { iterations, joint, terms }, SweepEvent::Angle { angle }) => if turns(
            joints,
            joint,
        ) {
            turned(joints, joint as int, angle as int)
        } else {
            joints
        },
        _ => joints,
    }
}

/// The cached world poses after the cyclic solver has taken `event`: when a
/// joint turns, its pose and those of the joints after it become invalid.
pub open spec fn cyclic_world(
    state: SweepState,
    event: SweepEvent,
    joints: Seq<Joint>,
    world: Seq<Option<Pose>>,
) -> Seq<Option<Pose>> {
    match (state, event) {
        (SweepState::Turning { iterations, joint, terms }, SweepEvent::Angle { angle }) => if turns(
            joints,
            joint,
        ) {
            invalidated_from(world, joint as int)
        } else {
            world
        },
        _ => world,
    }
}

/// The vector from `from` to `to`.
fn difference(to: &Vec3, from: &Vec3) -> (d: Vec3)
    requires
        within(to@, POSITION_MAX as int),
        within(from@, POSITION_MAX as int),
    ensures
        d@ == minus(to@, from@),
        within(d@, COORD_MAX as int),
{
    Vec3 { x: to.x - from.x, y: to.y - from.y, z: to.z - from.z }
}

/// The distance from the end-effector to the target, rounded down: the
/// position error of a solve. There is none where a position lies beyond
/// [`POSITION_MAX`].
pub fn position_error(effector_position: &Vec3, target_position: &Vec3) -> (error: Option<i64>)
    ensures
        error == (if within(effector_position@, POSITION_MAX as int) && within(
            target_position@,
            POSITION_MAX as int,
        ) {
            Some(
                floor_sqrt(
                    dot(
                        minus(target_position@, effector_position@),
                        minus(target_position@, effector_position@),
                    ),
                ) as i64,
            )
        } else {
            None
        }),
{
    if in_range(effector_position, POSITION_MAX) && in_range(target_position, POSITION_MAX) {
        Some(length(&difference(target_position, effector_position)))
    } else {
        None
    }
}

/// The joint of the reference arm from which its elbow swings: its shoulder.
pub const SHOULDER_JOINT: usize = 1;

/// The part of the swing toward the pole target that one step takes: one in
/// so many.
pub const POLE_NUDGE_DIVISOR: i64 = 10;

/// The terms of the angle by which the elbow swings toward the pole target:
/// the angle, about the line from the shoulder to the end-effector, from
/// where the elbow is to where the pole target is, both seen from the
/// shoulder and projected onto the plane at right angles to that line.
pub open spec fn swing_terms(
    shoulder: SpecVec3,
    elbow: SpecVec3,
    effector: SpecVec3,
    pole: SpecVec3,
) -> AngleTerms {
    AngleTerms {
        sine: sine_term(
            projection(minus(elbow, shoulder), normalized(minus(effector, shoulder))),
            projection(minus(pole, shoulder), normalized(minus(effector, shoulder))),
            normalized(minus(effector, shoulder)),
        ) as i128,
        cosine: cosine_term(
            projection(minus(elbow, shoulder), normalized(minus(effector, shoulder))),
            projection(minus(pole, shoulder), normalized(minus(effector, shoulder))),
        ) as i128,
    }
}

/// The terms of the angle by which the elbow swings toward the pole target,
/// from the world positions of the shoulder, the elbow, the end-effector and
/// the pole target.
///
/// There are none where a position lies beyond [`POSITION_MAX`] or the
/// end-effector is where the shoulder is, so that there is no line to swing
/// about.
pub fn pole_swing_terms(shoulder: &Vec3, elbow: &Vec3, effector: &Vec3, pole: &Vec3) -> (terms:
    Option<AngleTerms>)
    ensures
        terms == (if within(shoulder@, POSITION_MAX as int) && within(elbow@, POSITION_MAX as int)
            && within(effector@, POSITION_MAX as int) && within(pole@, POSITION_MAX as int)
            && effector@ != shoulder@ {
            Some(swing_terms(shoulder@, elbow@, effector@, pole@))
        } else {
            None
        }),
{
    if !in_range(shoulder, POSITION_MAX) || !in_range(elbow, POSITION_MAX) || !in_range(
        effector,
        POSITION_MAX,
    ) || !in_range(pole, POSITION_MAX) {
        return None;
    }
    if effector.x == shoulder.x && effector.y == shoulder.y && effector.z == shoulder.z {
        return None;
    }
    let line = difference(effector, shoulder);
    proof {
        assert(dot(line@, line@) > 0) by (nonlinear_arith)
            requires
                dot(line@, line@) == line.x * line.x + line.y * line.y + line.z * line.z,
                line.x != 0 || line.y != 0 || line.z != 0,
        ;
    }
    let axis = normalize(&line);
    proof {
        assert(axis.x * axis.x <= UNIT * UNIT + 2 * UNIT && axis.y * axis.y <= UNIT * UNIT + 2
            * UNIT && axis.z * axis.z <= UNIT * UNIT + 2 * UNIT) by (nonlinear_arith)
            requires
                axis.x * axis.x + axis.y * axis.y + axis.z * axis.z <= UNIT * UNIT + 2 * UNIT,
        ;
        assert(within(axis@, UNIT + 1)) by (nonlinear_arith)
            requires
                axis.x * axis.x <= UNIT * UNIT + 2 * UNIT,
                axis.y * axis.y <= UNIT * UNIT + 2 * UNIT,
                axis.z * axis.z <= UNIT * UNIT + 2 * UNIT,
                axis@.x == axis.x && axis@.y == axis.y && axis@.z == axis.z,
        ;
        assert(UNIT * UNIT - 9 * UNIT > 0) by (nonlinear_arith);
    }
    let to_elbow = difference(elbow, shoulder);
    let to_pole = difference(pole, shoulder);
    let elbow_in_plane = project_onto_plane(&to_elbow, &axis);
    let pole_in_plane = project_onto_plane(&to_pole, &axis);
    Some(angle_to(&elbow_in_plane, &pole_in_plane, &axis))
}

/// The nudge that one step gives the elbow where the whole swing toward the
/// pole target is `angle`: one part in [`POLE_NUDGE_DIVISOR`], rounded
/// toward zero.
pub fn pole_nudge(angle: i64) -> (nudge: i64)
    ensures
        nudge == trunc_div(angle as int, POLE_NUDGE_DIVISOR as int),
{
    let wide = angle as i128;
    if wide >= 0 {
        (wide / (POLE_NUDGE_DIVISOR as i128)) as i64
    } else {
        (-((-wide) / (POLE_NUDGE_DIVISOR as i128))) as i64
    }
}

/// Where a joint is in world space, and the axis about which it turns there.
#[derive(Clone, Copy, Debug, PartialEq, Eq, Structural)]
pub struct JointFrame {
    pub position: Vec3,
    pub axis: Vec3,
}

/// The column of the Jacobian that belongs to one joint: how fast the
/// end-effector moves, and how fast it turns, as the joint turns.
#[derive(Clone, Copy, Debug, PartialEq, Eq, Structural)]
pub struct JacobianColumn {
    pub linear: Vec3,
    pub angular: Vec3,
}

/// The linear part of a joint's column: for a rotational joint the vector
/// product of its axis and the lever arm from the joint to the end-effector,
/// for a fixed joint zero.
pub open spec fn column_linear(kind: JointKind, frame: JointFrame, effector: SpecVec3) -> SpecVec3 {
    match kind {
        JointKind::Fixed => SpecVec3 { x: 0, y: 0, z: 0 },
        JointKind::Rotational { .. } => scaled_cross(frame.axis@, minus(effector, frame.position@)),
    }
}

/// The angular part of a joint's column: for a rotational joint its axis, for
/// a fixed joint zero.
pub open spec fn column_angular(kind: JointKind, frame: JointFrame) -> SpecVec3 {
    match kind {
        JointKind::Fixed => SpecVec3 { x: 0, y: 0, z: 0 },
        JointKind::Rotational { .. } => frame.axis@,
    }
}

/// Every position is within [`POSITION_MAX`] and every axis within
/// [`DIRECTION_MAX`].
pub open spec fn frames_in_range(frames: Seq<JointFrame>, effector: SpecVec3) -> bool {
    &&& within(effector, POSITION_MAX as int)
    &&& forall|i: int|
        0 <= i < frames.len() ==> within((#[trigger] frames[i]).position@, POSITION_MAX as int)
            && within(frames[i].axis@, DIRECTION_MAX as int)
}

/// The Jacobian of the chain, one column for each joint, from the world
/// frames of the joints and the position of the end-effector.
///
/// There is none where `frames` does not hold one frame for each joint, or a
/// position or an axis is out of range.
pub fn jacobian(chain: &Chain, frames: &Vec<JointFrame>, effector_position: &Vec3) -> (columns:
    Option<Vec<JacobianColumn>>)
    requires
        chain.wf(),
    ensures
        columns is Some <==> frames@.len() == chain@.len() && frames_in_range(
            frames@,
            effector_position@,
        ),
        columns matches Some(found) ==> found@.len() == chain@.len() && forall|i: int|
            0 <= i < found@.len() ==> (#[trigger] found@[i]).linear@ == column_linear(
                chain@[i].kind,
                frames@[i],
                effector_position@,
            ) && found@[i].angular@ == column_angular(chain@[i].kind, frames@[i]),
{
    let n = chain.len();
    if frames.len() != n || !in_range(effector_position, POSITION_MAX) {
        return None;
    }
    let mut columns: Vec<JacobianColumn> = Vec::new();
    let mut i: usize = 0;
    while i < n
        invariant
            i <= n,
            chain.wf(),
            n == chain@.len(),
            frames@.len() == n,
            within(effector_position@, POSITION_MAX as int),
            columns@.len() == i,
            forall|j: int|
                0 <= j < i ==> within((#[trigger] frames@[j]).position@, POSITION_MAX as int)
                    && within(frames@[j].axis@, DIRECTION_MAX as int),
            forall|j: int|
                0 <= j < i ==> (#[trigger] columns@[j]).linear@ == column_linear(
                    chain@[j].kind,
                    frames@[j],
                    effector_position@,
                ) && columns@[j].angular@ == column_angular(chain@[j].kind, frames@[j]),
        decreases n - i,
    {
        let frame = frames[i];
        if !in_range(&frame.position, POSITION_MAX) || !in_range(&frame.axis, DIRECTION_MAX) {
            return None;
        }
        let zero = Vec3 { x: 0, y: 0, z: 0 };
        let column = match chain.joint(i) {
            Some(joint) => match joint.kind {
                JointKind::Rotational { .. } => {
                    let lever = difference(effector_position, &frame.position);
                    JacobianColumn {
                        linear: cross_product(&frame.axis, &lever),
                        angular: frame.axis,
                    }
                },
                JointKind::Fixed => JacobianColumn { linear: zero, angular: zero },
            },
            None => JacobianColumn { linear: zero, angular: zero },
        };
        columns.push(column);
        i += 1;
    }
    Some(columns)
}

/// Whether `joint` names a rotational joint of `chain`.
fn is_rotational(chain: &Chain, joint: usize) -> (rotational: bool)
    requires
        chain.wf(),
    ensures
        rotational == turns(chain@, joint),
{
    match chain.joint(joint) {
        Some(found) => match found.kind {
            JointKind::Rotational { .. } => true,
            JointKind::Fixed => false,
        },
        None => false,
    }
}

/// The state in which a sweep goes on below `below`.
fn continue_sweep(chain: &Chain, iterations: usize, below: usize) -> (state: SweepState)
    requires
        chain.wf(),
    ensures
        state == sweep_from(chain@, iterations, below as int),
{
    match find_rotational_below(chain, below) {
        Some(joint) => SweepState::Posing { iterations, joint },
        None => SweepState::Measuring { iterations: count_up(iterations) },
    }
}

impl CyclicIKSolver {
    /// A solver with the given thresholds and cap, all of which must be
    /// positive.
    pub fn new(
        allowable_target_distance: i64,
        allowable_target_angle: i64,
        max_iterations: usize,
    ) -> (solver: Option<CyclicIKSolver>)
        ensures
            solver == (if allowable_target_distance > 0 && allowable_target_angle > 0
                && max_iterations > 0 {
                Some(
                    CyclicIKSolver {
                        allowable_target_distance,
                        allowable_target_angle,
                        max_iterations,
                    },
                )
            } else {
                None
            }),
    {
        if allowable_target_distance > 0 && allowable_target_angle > 0 && max_iterations > 0 {
            Some(CyclicIKSolver { allowable_target_distance, allowable_target_angle, max_iterations })
        } else {
            None
        }
    }

    /// Takes `event` in `state` and returns the state that follows.
    ///
    /// A solve starts with `Begin`. While the state is `Posing`, the host
    /// sends `Posed` for the joint that the state names; while it is
    /// `Turning`, the host sends the `Angle` that the state's terms give;
    /// while it is `Measuring`, the host sends `Measured`. The solve is over
    /// when the state is `Converged` or `MaxIterationsReached`.
    pub fn advance(&self, chain: &mut Chain, state: SweepState, event: SweepEvent) -> (r: Result<
        SweepState,
        SolveError,
    >)
        requires
            old(chain).wf(),
        ensures
            final(chain).wf(),
            final(chain).path() == old(chain).path(),
            final(chain).root() == old(chain).root(),
            same_but_angles(old(chain).tree(), final(chain).tree()),
            r == cyclic_next(*self, state, event, old(chain)@),
            final(chain)@ == cyclic_joints(state, event, old(chain)@),
            final(chain).world() == cyclic_world(state, event, old(chain)@, old(chain).world()),
            r is Err ==> final(chain)@ == old(chain)@ && final(chain).world() == old(
                chain,
            ).world(),
    {
        let n = chain.len();
        match event {
            SweepEvent::Begin => Ok(continue_sweep(chain, 0, n)),
            SweepEvent::Posed { joint_position, joint_axis, effector_position, target_position } => match state {
                SweepState::Posing { iterations, joint } => {
                    if !is_rotational(chain, joint) {
                        return Err(SolveError::UnexpectedEvent);
                    }
                    if !in_range(&joint_position, POSITION_MAX) || !in_range(
                        &effector_position,
                        POSITION_MAX,
                    ) || !in_range(&target_position, POSITION_MAX) || !in_range(&joint_axis, DIRECTION_MAX) {
                        return Err(SolveError::OutOfRange);
                    }
                    if joint_axis.x == 0 && joint_axis.y == 0 && joint_axis.z == 0 {
                        return Err(SolveError::DegenerateAxis);
                    }
                    proof {
                        assert(dot(joint_axis@, joint_axis@) > 0) by (nonlinear_arith)
                            requires
                                dot(joint_axis@, joint_axis@) == joint_axis.x * joint_axis.x
                                    + joint_axis.y * joint_axis.y + joint_axis.z * joint_axis.z,
                                joint_axis.x != 0 || joint_axis.y != 0 || joint_axis.z != 0,
                        ;
                    }
                    let to_effector = difference(&effector_position, &joint_position);
                    let to_target = difference(&target_position, &joint_position);
                    let effector_in_plane = project_onto_plane(&to_effector, &joint_axis);
                    let target_in_plane = project_onto_plane(&to_target, &joint_axis);
                    let terms = angle_to(&effector_in_plane, &target_in_plane, &joint_axis);
                    Ok(SweepState::Turning { iterations, joint, terms })
                },
                _ => Err(SolveError::UnexpectedEvent),
            },
            SweepEvent::Angle { angle } => match state {
                SweepState::Turning { iterations, joint, terms } => {
                    match chain.joint(joint) {
                        Some(found) => match found.kind {
                            JointKind::Rotational { .. } => {
                                let next = continue_sweep(chain, iterations, joint);
                                let value = saturate_to_angle(
                                    (found.joint_value as i128) + (angle as i128),
                                );
                                chain.set_joint_value(joint, value);
                                Ok(next)
                            },
                            JointKind::Fixed => Err(SolveError::UnexpectedEvent),
                        },
                        None => Err(SolveError::UnexpectedEvent),
                    }
                },
                _ => Err(SolveError::UnexpectedEvent),
            },
            SweepEvent::Measured { position_error, orientation_error } => match state {
                SweepState::Measuring { iterations } => {
                    if position_error < 0 || orientation_error < 0 {
                        return Err(SolveError::NegativeError);
                    }
                    match judge(
                        self.allowable_target_distance,
                        self.allowable_target_angle,
                        self.max_iterations,
                        iterations,
                        position_error,
                        orientation_error,
                    ) {
                        Some(report) => if report.converged {
                            Ok(SweepState::Converged { report })
                        } else {
                            Ok(SweepState::MaxIterationsReached { report })
                        },
                        None => Ok(continue_sweep(chain, iterations, n)),
                    }
                },
                _ => Err(SolveError::UnexpectedEvent),
            },
        }
    }
}

/// Neither solver changes what a joint is or where it sits: an event leaves
/// the number of joints, and the kind and the offset of each, as they are.
/// Angles are all that a solve moves.
pub proof fn lemma_solvers_move_angles_only(
    solver: JacobianIkSolver,
    state: SolverState,
    event: SolveEvent,
    pole_joint: Option<usize>,
    sweep_state: SweepState,
    sweep_event: SweepEvent,
    joints: Seq<Joint>,
    i: int,
)
    requires
        0 <= i < joints.len(),
    ensures
        jacobian_joints(solver, state, event, pole_joint, joints).len() == joints.len(),
        jacobian_joints(solver, state, event, pole_joint, joints)[i].kind == joints[i].kind,
        jacobian_joints(solver, state, event, pole_joint, joints)[i].local_offset
            == joints[i].local_offset,
        cyclic_joints(sweep_state, sweep_event, joints).len() == joints.len(),
        cyclic_joints(sweep_state, sweep_event, joints)[i].kind == joints[i].kind,
        cyclic_joints(sweep_state, sweep_event, joints)[i].local_offset == joints[i].local_offset,
{
}

/// A step leaves a chain of fixed joints as it is.
pub proof fn lemma_step_keeps_fixed(
    joints: Seq<Joint>,
    deltas: Seq<i64>,
    pole_joint: Option<usize>,
    pole_nudge: Option<i64>,
    max_step: int,
)
    requires
        all_fixed(joints),
    ensures
        stepped(joints, deltas, pole_joint, pole_nudge, max_step) == joints,
{
    assert(stepped(joints, deltas, pole_joint, pole_nudge, max_step) =~= joints);
}

/// On a chain whose joints are all fixed, no event moves a joint, whatever
/// the state of the Jacobian solver; and a measurement ends the solve as
/// converged exactly where both errors are below their thresholds.
pub proof fn lemma_jacobian_on_fixed_chain(
    solver: JacobianIkSolver,
    state: SolverState,
    event: SolveEvent,
    pole_joint: Option<usize>,
    joints: Seq<Joint>,
)
    requires
        all_fixed(joints),
    ensures
        jacobian_joints(solver, state, event, pole_joint, joints) == joints,
        state is Measuring ==> (event matches SolveEvent::Measured {
            position_error,
            orientation_error,
        } ==> position_error >= 0 && orientation_error >= 0 ==> (jacobian_next(
            solver,
            state,
            event,
            joints.len(),
        ) matches Ok(next) && next is Converged <==> within_thresholds(
            solver.allowable_target_distance,
            solver.allowable_target_angle,
            position_error,
            orientation_error,
        ))),
{
    match event {
        SolveEvent::Stepped { deltas, pole_nudge } => {
            lemma_step_keeps_fixed(joints, deltas@, pole_joint, pole_nudge, solver.max_step as int);
        },
        _ => {},
    }
}

/// On a chain whose joints are all fixed, no event moves a joint, whatever
/// the state of the cyclic solver; and a measurement ends the solve as
/// converged exactly where both errors are below their thresholds.
pub proof fn lemma_cyclic_on_fixed_chain(
    solver: CyclicIKSolver,
    state: SweepState,
    event: SweepEvent,
    joints: Seq<Joint>,
)
    requires
        all_fixed(joints),
    ensures
        cyclic_joints(state, event, joints) == joints,
        state is Measuring ==> (event matches SweepEvent::Measured {
            position_error,
            orientation_error,
        } ==> position_error >= 0 && orientation_error >= 0 ==> (cyclic_next(
            solver,
            state,
            event,
            joints,
        ) matches Ok(next) && next is Converged <==> within_thresholds(
            solver.allowable_target_distance,
            solver.allowable_target_angle,
            position_error,
            orientation_error,
        ))),
{
    lemma_no_rotational_below(joints, joints.len() as int);
}

/// A chain of fixed joints has no rotational joint.
proof fn lemma_no_rotational_below(joints: Seq<Joint>, below: int)
    requires
        all_fixed(joints),
    ensures
        last_rotational_below(joints, below) is None,
    decreases below,
{
    if below > 0 {
        lemma_no_rotational_below(joints, below - 1);
    }
}

/// What the end of a solve tells, for both solvers: a measurement moves no
/// joint; where it ends the solve as converged, the report carries the
/// measured errors and both are below their thresholds; where it ends the
/// solve at the cap, the report carries the measured errors, one of which
/// is not below its threshold, and says that the solve did not converge.
pub proof fn lemma_report_carries_the_measurement(
    solver: JacobianIkSolver,
    sweeper: CyclicIKSolver,
    iterations: usize,
    position_error: i64,
    orientation_error: i64,
    pole_joint: Option<usize>,
    joints: Seq<Joint>,
)
    requires
        position_error >= 0,
        orientation_error >= 0,
    ensures
        jacobian_joints(
            solver,
            SolverState::Measuring { iterations },
            SolveEvent::Measured { position_error, orientation_error },
            pole_joint,
            joints,
        ) == joints,
        cyclic_joints(
            SweepState::Measuring { iterations },
            SweepEvent::Measured { position_error, orientation_error },
            joints,
        ) == joints,
        jacobian_next(
            solver,
            SolverState::Measuring { iterations },
            SolveEvent::Measured { position_error, orientation_error },
            joints.len(),
        ) matches Ok(next) && match next {
            SolverState::Converged { report } => report == (SolveReport {
                converged: true,
                iterations_used: iterations,
                final_position_error: position_error,
                final_orientation_error: orientation_error,
            }) && position_error < solver.allowable_target_distance && orientation_error
                < solver.allowable_target_angle,
            SolverState::MaxIterationsReached { report } => report == (SolveReport {
                converged: false,
                iterations_used: iterations,
                final_position_error: position_error,
                final_orientation_error: orientation_error,
            }) && iterations >= solver.max_iterations && !within_thresholds(
                solver.allowable_target_distance,
                solver.allowable_target_angle,
                position_error,
                orientation_error,
            ),
            SolverState::Stepping { iterations: kept } => kept == iterations && iterations
                < solver.max_iterations,
            _ => false,
        },
        cyclic_next(
            sweeper,
            SweepState::Measuring { iterations },
            SweepEvent::Measured { position_error, orientation_error },
            joints,
        ) matches Ok(next) && match next {
            SweepState::Converged { report } => report == (SolveReport {
                converged: true,
                iterations_used: iterations,
                final_position_error: position_error,
                final_orientation_error: orientation_error,
            }) && position_error < sweeper.allowable_target_distance && orientation_error
                < sweeper.allowable_target_angle,
            SweepState::MaxIterationsReached { report } => report == (SolveReport {
                converged: false,
                iterations_used: iterations,
                final_position_error: position_error,
                final_orientation_error: orientation_error,
            }) && iterations >= sweeper.max_iterations && !within_thresholds(
                sweeper.allowable_target_distance,
                sweeper.allowable_target_angle,
                position_error,
                orientation_error,
            ),
            SweepState::Posing { .. } | SweepState::Measuring { .. } => iterations
                < sweeper.max_iterations,
            _ => false,
        },
{
}

/// A solve of the Jacobian solver that finds both errors below their
/// thresholds at its first measurement ends there: it reports convergence
/// after no step, and every joint has the value it had. So a solve that is
/// repeated on a chain that has converged changes nothing.
pub proof fn lemma_converged_stays(
    solver: JacobianIkSolver,
    state: SolverState,
    position_error: i64,
    orientation_error: i64,
    pole_joint: Option<usize>,
    joints: Seq<Joint>,
)
    requires
        0 <= position_error < solver.allowable_target_distance,
        0 <= orientation_error < solver.allowable_target_angle,
    ensures
        jacobian_next(solver, state, SolveEvent::Begin, joints.len()) == Ok::<
            SolverState,
            SolveError,
        >(SolverState::Measuring { iterations: 0 }),
        jacobian_joints(solver, state, SolveEvent::Begin, pole_joint, joints) == joints,
        jacobian_next(
            solver,
            SolverState::Measuring { iterations: 0 },
            SolveEvent::Measured { position_error, orientation_error },
            joints.len(),
        ) == Ok::<SolverState, SolveError>(
            SolverState::Converged {
                report: SolveReport {
                    converged: true,
                    iterations_used: 0,
                    final_position_error: position_error,
                    final_orientation_error: orientation_error,
                },
            },
        ),
        jacobian_joints(
            solver,
            SolverState::Measuring { iterations: 0 },
            SolveEvent::Measured { position_error, orientation_error },
            pole_joint,
            joints,
        ) == joints,
{
}

/// The handle by which a host registers the arm's systems. It holds nothing.
#[derive(Clone, Copy, Debug, PartialEq, Eq, Structural)]
pub struct IKPlugin;

/// A joint that turns about `axis` and sits where its parent does.
pub open spec fn rotational(axis: Vec3) -> JointSpec {
    JointSpec { kind: JointKind::Rotational { axis }, local_offset: Vec3 { x: 0, y: 0, z: 0 } }
}

/// The joints of the reference arm: a fixed base, then a shoulder that turns
/// about the second, the first and the third axis, an elbow about the second,
/// and a wrist about the third, the second and the first.
pub open spec fn reference_joint_specs() -> Seq<JointSpec> {
    seq![
        JointSpec { kind: JointKind::Fixed, local_offset: Vec3 { x: 0, y: 0, z: 0 } },
        rotational(Vec3 { x: 0, y: UNIT, z: 0 }),
        rotational(Vec3 { x: UNIT, y: 0, z: 0 }),
        rotational(Vec3 { x: 0, y: 0, z: UNIT }),
        rotational(Vec3 { x: 0, y: UNIT, z: 0 }),
        rotational(Vec3 { x: 0, y: 0, z: UNIT }),
        rotational(Vec3 { x: 0, y: UNIT, z: 0 }),
        rotational(Vec3 { x: UNIT, y: 0, z: 0 }),
    ]
}

/// The pose that changes nothing.
pub open spec fn identity_pose() -> Pose {
    Pose {
        translation: Vec3 { x: 0, y: 0, z: 0 },
        rotation: Quat { x: 0, y: 0, z: 0, w: UNIT },
    }
}

/// A joint that turns about `axis` and sits where its parent does.
fn rotational_joint(axis: Vec3) -> (spec: JointSpec)
    ensures
        spec == rotational(axis),
{
    JointSpec { kind: JointKind::Rotational { axis }, local_offset: Vec3 { x: 0, y: 0, z: 0 } }
}

/// An arm with its chain, the solver that moves it, and what it reaches for.
#[derive(Debug)]
pub struct JacobianIKArm {
    /// The joints of the arm.
    pub chain: Chain,
    /// The solver that moves the joints.
    pub ik_solver: JacobianIkSolver,
    /// Where the end-effector is to go, if anywhere.
    pub target_pos: Option<Vec3>,
    /// The host's name for what the elbow is to point at, if anything.
    pub elbow_ik_pole: Option<u64>,
    /// Where the solve that is under way stands.
    pub state: SolverState,
}

impl JacobianIKArm {
    /// The joint that the pole target bends: the elbow where a pole target is
    /// set, none where it is not.
    pub open spec fn pole_joint(&self) -> Option<usize> {
        if self.elbow_ik_pole is Some {
            Some(ELBOW_JOINT)
        } else {
            None
        }
    }

    /// Takes `event` in the arm's state, moves the arm's joints where the
    /// event calls for it, and returns the state that follows, which the arm
    /// keeps. An event that is not taken leaves the arm as it is.
    pub fn solve(&mut self, event: &SolveEvent) -> (r: Result<SolverState, SolveError>)
        requires
            old(self).chain.wf(),
        ensures
            final(self).chain.wf(),
            final(self).chain.path() == old(self).chain.path(),
            final(self).chain.root() == old(self).chain.root(),
            same_but_angles(old(self).chain.tree(), final(self).chain.tree()),
            final(self).ik_solver == old(self).ik_solver,
            final(self).target_pos == old(self).target_pos,
            final(self).elbow_ik_pole == old(self).elbow_ik_pole,
            r == jacobian_next(old(self).ik_solver, old(self).state, *event, old(self).chain@.len()),
            final(self).state == (match r {
                Ok(next) => next,
                Err(_) => old(self).state,
            }),
            final(self).chain@ == jacobian_joints(
                old(self).ik_solver,
                old(self).state,
                *event,
                old(self).pole_joint(),
                old(self).chain@,
            ),
            final(self).chain.world() == jacobian_world(
                old(self).state,
                *event,
                old(self).chain@,
                old(self).chain.world(),
            ),
    {
        let solver = self.ik_solver;
        let pole_joint = if self.elbow_ik_pole.is_some() {
            Some(ELBOW_JOINT)
        } else {
            None
        };
        let r = solver.advance(&mut self.chain, pole_joint, self.state, event);
        match r {
            Ok(next) => {
                self.state = next;
            },
            Err(_) => {},
        }
        r
    }
}

impl Default for JacobianIKArm {
    /// The reference arm at rest: every angle is zero, every joint sits at
    /// the origin, so every world pose is the identity; the solver has its
    /// default settings, and there is neither a target nor a pole target.
    fn default() -> (arm: JacobianIKArm)
        ensures
            arm.chain.wf(),
            arm.chain.tree() == series_tree(reference_joint_specs()),
            arm.chain.path() == indices(8),
            arm.chain.root() == 0,
            arm.chain@ == reference_joint_specs().map_values(
                |spec: JointSpec|
                    Joint { kind: spec.kind, local_offset: spec.local_offset, joint_value: 0 },
            ),
            arm.chain.world() == Seq::new(8, |i: int| Some(identity_pose())),
            arm.ik_solver == (JacobianIkSolver {
                allowable_target_distance: DEFAULT_TARGET_DISTANCE,
                allowable_target_angle: DEFAULT_TARGET_ANGLE,
                max_iterations: DEFAULT_MAX_ITERATIONS,
                damping: DEFAULT_DAMPING,
                max_step: DEFAULT_MAX_STEP,
            }),
            arm.target_pos is None,
            arm.elbow_ik_pole is None,
            arm.state is Idle,
    {
        let origin = Vec3 { x: 0, y: 0, z: 0 };
        let mut joint_specs: Vec<JointSpec> = Vec::new();
        joint_specs.push(JointSpec { kind: JointKind::Fixed, local_offset: origin });
        joint_specs.push(rotational_joint(Vec3 { x: 0, y: UNIT, z: 0 }));
        joint_specs.push(rotational_joint(Vec3 { x: UNIT, y: 0, z: 0 }));
        joint_specs.push(rotational_joint(Vec3 { x: 0, y: 0, z: UNIT }));
        joint_specs.push(rotational_joint(Vec3 { x: 0, y: UNIT, z: 0 }));
        joint_specs.push(rotational_joint(Vec3 { x: 0, y: 0, z: UNIT }));
        joint_specs.push(rotational_joint(Vec3 { x: 0, y: UNIT, z: 0 }));
        joint_specs.push(rotational_joint(Vec3 { x: UNIT, y: 0, z: 0 }));
        proof {
            assert(joint_specs@ =~= reference_joint_specs());
        }
        let identity = Pose { translation: origin, rotation: Quat { x: 0, y: 0, z: 0, w: UNIT } };
        let mut poses: Vec<Pose> = Vec::new();
        let mut i: usize = 0;
        while i < 8
            invariant
                i <= 8,
                poses@.len() == i,
                identity == identity_pose(),
                forall|j: int| 0 <= j < i ==> poses@[j] == identity_pose(),
            decreases 8 - i,
        {
            poses.push(identity);
            i += 1;
        }
        match build_chain(&joint_specs) {
            Ok(mut chain) => {
                let taken = chain.update_world_transforms(&poses);
                proof {
                    assert(chain.world() =~= Seq::new(8, |i: int| Some(identity_pose())));
                }
                JacobianIKArm {
                    chain,
                    ik_solver: JacobianIkSolver::default(),
                    target_pos: None,
                    elbow_ik_pole: None,
                    state: SolverState::Idle,
                }
            },
            Err(_) => vstd::pervasive::unreached(),
        }
    }
}

/// An arm together with the host's names for the bodies that carry its
/// joints.
#[derive(Debug)]
pub struct JacobianIKArmBundle {
    /// The bodies that carry the joints, root first.
    pub entity_chain: Vec<u64>,
    /// The arm.
    pub ik_arm: JacobianIKArm,
}

impl JacobianIKArmBundle {
    /// The reference arm at rest, carried by `arm_chain` and with its elbow
    /// pointed at `elbow_ik_pole`.
    pub fn new(arm_chain: Vec<u64>, elbow_ik_pole: Option<u64>) -> (bundle: JacobianIKArmBundle)
        ensures
            bundle.entity_chain == arm_chain,
            bundle.ik_arm.elbow_ik_pole == elbow_ik_pole,
            bundle.ik_arm.chain.wf(),
            bundle.ik_arm.chain.tree() == series_tree(reference_joint_specs()),
            bundle.ik_arm.chain.path() == indices(8),
            bundle.ik_arm.chain.root() == 0,
            bundle.ik_arm.chain@ == reference_joint_specs().map_values(
                |spec: JointSpec|
                    Joint { kind: spec.kind, local_offset: spec.local_offset, joint_value: 0 },
            ),
            bundle.ik_arm.chain.world() == Seq::new(8, |i: int| Some(identity_pose())),
            bundle.ik_arm.ik_solver == (JacobianIkSolver {
                allowable_target_distance: DEFAULT_TARGET_DISTANCE,
                allowable_target_angle: DEFAULT_TARGET_ANGLE,
                max_iterations: DEFAULT_MAX_ITERATIONS,
                damping: DEFAULT_DAMPING,
                max_step: DEFAULT_MAX_STEP,
            }),
            bundle.ik_arm.target_pos is None,
            bundle.ik_arm.state is Idle,
    {
        let mut ik_arm = JacobianIKArm::default();
        ik_arm.elbow_ik_pole = elbow_ik_pole;
        JacobianIKArmBundle { entity_chain: arm_chain, ik_arm }
    }
}

impl Default for JacobianIKArmBundle {
    /// The reference arm at rest, carried by nothing and pointed at nothing.
    fn default() -> (bundle: JacobianIKArmBundle)
        ensures
            bundle.entity_chain@.len() == 0,
            bundle.ik_arm.elbow_ik_pole is None,
            bundle.ik_arm.chain.wf(),
            bundle.ik_arm.chain.tree() == series_tree(reference_joint_specs()),
            bundle.ik_arm.chain.path() == indices(8),
            bundle.ik_arm.chain.root() == 0,
            bundle.ik_arm.chain@ == reference_joint_specs().map_values(
                |spec: JointSpec|
                    Joint { kind: spec.kind, local_offset: spec.local_offset, joint_value: 0 },
            ),
            bundle.ik_arm.chain.world() == Seq::new(8, |i: int| Some(identity_pose())),
            bundle.ik_arm.ik_solver == (JacobianIkSolver {
                allowable_target_distance: DEFAULT_TARGET_DISTANCE,
                allowable_target_angle: DEFAULT_TARGET_ANGLE,
                max_iterations: DEFAULT_MAX_ITERATIONS,
                damping: DEFAULT_DAMPING,
                max_step: DEFAULT_MAX_STEP,
            }),
            bundle.ik_arm.target_pos is None,
            bundle.ik_arm.state is Idle,
    {
        JacobianIKArmBundle { entity_chain: Vec::new(), ik_arm: JacobianIKArm::default() }
    }
}

} // verus!
