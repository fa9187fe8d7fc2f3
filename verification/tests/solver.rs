use arm_ik::chain::{build_chain, Chain, Joint, JointSpec};
use arm_ik::ik::{
    apply_step, jacobian, pole_nudge, pole_swing_terms, CyclicIKSolver, JacobianColumn, JointFrame, IKPlugin, JacobianIKArm, JacobianIkSolver, SolveError, SolveEvent,
    SolveReport, SolverState, SweepEvent, SweepState, DEFAULT_DAMPING, DEFAULT_MAX_ITERATIONS,
    DEFAULT_MAX_STEP, DEFAULT_TARGET_ANGLE, DEFAULT_TARGET_DISTANCE, ELBOW_JOINT, POSITION_MAX,
};
use arm_ik::math_utils::{AngleTerms, Pose, Quat, Vec3, DIRECTION_MAX, UNIT};
use arm_ik::node::JointKind;

fn origin() -> Vec3 {
    Vec3 { x: 0, y: 0, z: 0 }
}

fn about(x: i64, y: i64, z: i64) -> JointSpec {
    JointSpec { kind: JointKind::Rotational { axis: Vec3 { x, y, z } }, local_offset: origin() }
}

fn fixed() -> JointSpec {
    JointSpec { kind: JointKind::Fixed, local_offset: origin() }
}

fn identity() -> Pose {
    Pose { translation: origin(), rotation: Quat { x: 0, y: 0, z: 0, w: UNIT } }
}

/// Fixed, rotational, fixed, rotational.
fn mixed_chain() -> Chain {
    build_chain(&vec![fixed(), about(0, UNIT, 0), fixed(), about(UNIT, 0, 0)]).unwrap()
}

fn fixed_chain() -> Chain {
    build_chain(&vec![fixed(), fixed(), fixed()]).unwrap()
}

fn values(chain: &Chain) -> Vec<i64> {
    (0..chain.len()).map(|i| chain.joint(i).unwrap().joint_value).collect()
}

fn solver() -> JacobianIkSolver {
    JacobianIkSolver {
        allowable_target_distance: 100,
        allowable_target_angle: 50,
        max_iterations: 3,
        damping: 10,
        max_step: 1_000,
    }
}

fn sweeper() -> CyclicIKSolver {
    CyclicIKSolver { allowable_target_distance: 100, allowable_target_angle: 50, max_iterations: 2 }
}

fn report(converged: bool, iterations_used: usize, p: i64, o: i64) -> SolveReport {
    SolveReport {
        converged,
        iterations_used,
        final_position_error: p,
        final_orientation_error: o,
    }
}

fn measured(p: i64, o: i64) -> SolveEvent {
    SolveEvent::Measured { position_error: p, orientation_error: o }
}

fn stepped(deltas: Vec<i64>) -> SolveEvent {
    SolveEvent::Stepped { deltas, pole_nudge: None }
}

#[test]
fn plugin_is_a_plain_value() {
    assert_eq!(IKPlugin, IKPlugin);
}

#[test]
fn jacobian_solver_wants_positive_settings() {
    assert_eq!(
        JacobianIkSolver::new(5, 7, 9),
        Some(JacobianIkSolver {
            allowable_target_distance: 5,
            allowable_target_angle: 7,
            max_iterations: 9,
            damping: DEFAULT_DAMPING,
            max_step: DEFAULT_MAX_STEP,
        })
    );
    assert_eq!(JacobianIkSolver::new(0, 7, 9), None);
    assert_eq!(JacobianIkSolver::new(5, 0, 9), None);
    assert_eq!(JacobianIkSolver::new(5, 7, 0), None);
    assert_eq!(JacobianIkSolver::new(-1, 7, 9), None);
    assert_eq!(JacobianIkSolver::new(5, -1, 9), None);
}

#[test]
fn jacobian_solver_defaults() {
    let solver = JacobianIkSolver::default();
    assert_eq!(solver.allowable_target_distance, DEFAULT_TARGET_DISTANCE);
    assert_eq!(solver.allowable_target_angle, DEFAULT_TARGET_ANGLE);
    assert_eq!(solver.max_iterations, DEFAULT_MAX_ITERATIONS);
    assert_eq!(solver.damping, DEFAULT_DAMPING);
    assert_eq!(solver.max_step, DEFAULT_MAX_STEP);
    assert_eq!(
        (DEFAULT_TARGET_DISTANCE, DEFAULT_TARGET_ANGLE, DEFAULT_MAX_ITERATIONS),
        (1_000, 5_000, 10)
    );
}

#[test]
fn cyclic_solver_wants_positive_settings() {
    assert_eq!(
        CyclicIKSolver::new(5, 7, 9),
        Some(CyclicIKSolver {
            allowable_target_distance: 5,
            allowable_target_angle: 7,
            max_iterations: 9
        })
    );
    assert_eq!(CyclicIKSolver::new(0, 7, 9), None);
    assert_eq!(CyclicIKSolver::new(5, 0, 9), None);
    assert_eq!(CyclicIKSolver::new(5, 7, 0), None);
}

#[test]
fn jacobian_begin_starts_afresh_from_any_state() {
    let mut chain = mixed_chain();
    let states = [
        SolverState::Idle,
        SolverState::Measuring { iterations: 2 },
        SolverState::Stepping { iterations: 1 },
        SolverState::Converged { report: report(true, 1, 0, 0) },
        SolverState::MaxIterationsReached { report: report(false, 3, 500, 0) },
    ];
    for state in states {
        let next = solver().advance(&mut chain, None, state, &SolveEvent::Begin);
        assert_eq!(next, Ok(SolverState::Measuring { iterations: 0 }));
    }
    assert_eq!(values(&chain), vec![0, 0, 0, 0]);
}

#[test]
fn jacobian_converges_when_both_errors_are_below_the_thresholds() {
    let mut chain = mixed_chain();
    let state = SolverState::Measuring { iterations: 1 };
    assert_eq!(
        solver().advance(&mut chain, None, state, &measured(99, 49)),
        Ok(SolverState::Converged { report: report(true, 1, 99, 49) })
    );
    assert_eq!(
        solver().advance(&mut chain, None, state, &measured(0, 0)),
        Ok(SolverState::Converged { report: report(true, 1, 0, 0) })
    );
    // An error that equals its threshold is not below it.
    assert_eq!(
        solver().advance(&mut chain, None, state, &measured(100, 49)),
        Ok(SolverState::Stepping { iterations: 1 })
    );
    assert_eq!(
        solver().advance(&mut chain, None, state, &measured(99, 50)),
        Ok(SolverState::Stepping { iterations: 1 })
    );
}

#[test]
fn jacobian_stops_at_the_cap() {
    let mut chain = mixed_chain();
    assert_eq!(
        solver().advance(
            &mut chain,
            None,
            SolverState::Measuring { iterations: 2 },
            &measured(500, 0)
        ),
        Ok(SolverState::Stepping { iterations: 2 })
    );
    assert_eq!(
        solver().advance(
            &mut chain,
            None,
            SolverState::Measuring { iterations: 3 },
            &measured(500, 7)
        ),
        Ok(SolverState::MaxIterationsReached { report: report(false, 3, 500, 7) })
    );
    // Convergence at the cap still counts.
    assert_eq!(
        solver().advance(&mut chain, None, SolverState::Measuring { iterations: 3 }, &measured(5, 7)),
        Ok(SolverState::Converged { report: report(true, 3, 5, 7) })
    );
}

#[test]
fn jacobian_refuses_negative_errors() {
    let mut chain = mixed_chain();
    let state = SolverState::Measuring { iterations: 0 };
    assert_eq!(
        solver().advance(&mut chain, None, state, &measured(-1, 0)),
        Err(SolveError::NegativeError)
    );
    assert_eq!(
        solver().advance(&mut chain, None, state, &measured(0, -1)),
        Err(SolveError::NegativeError)
    );
}

#[test]
fn jacobian_refuses_events_out_of_turn() {
    let mut chain = mixed_chain();
    let done = SolverState::Converged { report: report(true, 0, 0, 0) };
    let capped = SolverState::MaxIterationsReached { report: report(false, 3, 500, 0) };
    for state in [SolverState::Idle, SolverState::Stepping { iterations: 0 }, done, capped] {
        assert_eq!(
            solver().advance(&mut chain, None, state, &measured(0, 0)),
            Err(SolveError::UnexpectedEvent)
        );
    }
    for state in [SolverState::Idle, SolverState::Measuring { iterations: 0 }, done, capped] {
        assert_eq!(
            solver().advance(&mut chain, None, state, &stepped(vec![1, 1, 1, 1])),
            Err(SolveError::UnexpectedEvent)
        );
    }
    assert_eq!(values(&chain), vec![0, 0, 0, 0]);
}

#[test]
fn jacobian_step_moves_rotational_joints_within_the_limit() {
    let mut chain = mixed_chain();
    let next = solver().advance(
        &mut chain,
        None,
        SolverState::Stepping { iterations: 1 },
        &stepped(vec![11, 2_000, 33, -700]),
    );
    assert_eq!(next, Ok(SolverState::Measuring { iterations: 2 }));
    assert_eq!(values(&chain), vec![0, 1_000, 0, -700]);
    let next = solver().advance(
        &mut chain,
        None,
        SolverState::Stepping { iterations: 2 },
        &stepped(vec![0, -5_000, 0, -700]),
    );
    assert_eq!(next, Ok(SolverState::Measuring { iterations: 3 }));
    assert_eq!(values(&chain), vec![0, 0, 0, -1_400]);
}

#[test]
fn jacobian_step_of_the_wrong_length_changes_nothing() {
    let mut chain = mixed_chain();
    assert!(chain.update_world_transforms(&vec![identity(); 4]));
    for deltas in [vec![], vec![1, 2, 3], vec![1, 2, 3, 4, 5]] {
        let next = solver().advance(
            &mut chain,
            None,
            SolverState::Stepping { iterations: 0 },
            &stepped(deltas),
        );
        assert_eq!(next, Err(SolveError::WrongStepLength));
    }
    assert_eq!(values(&chain), vec![0, 0, 0, 0]);
    assert_eq!(chain.valid_world_transforms(), 4);
}

#[test]
fn jacobian_step_makes_poses_invalid_from_the_first_rotational_joint() {
    let mut chain = mixed_chain();
    assert!(chain.update_world_transforms(&vec![identity(); 4]));
    let next = solver().advance(
        &mut chain,
        None,
        SolverState::Stepping { iterations: 0 },
        &stepped(vec![0, 0, 0, 0]),
    );
    assert_eq!(next, Ok(SolverState::Measuring { iterations: 1 }));
    assert_eq!(chain.valid_world_transforms(), 1);
    assert_eq!(chain.world_transform(0), Some(identity()));
    assert_eq!(chain.world_transform(1), None);
}

#[test]
fn jacobian_iteration_count_stops_at_the_end_of_its_range() {
    let mut chain = mixed_chain();
    let next = solver().advance(
        &mut chain,
        None,
        SolverState::Stepping { iterations: usize::MAX },
        &stepped(vec![0, 1, 0, 1]),
    );
    assert_eq!(next, Ok(SolverState::Measuring { iterations: usize::MAX }));
}

#[test]
fn step_nudges_the_pole_joint_only() {
    let mut chain = mixed_chain();
    assert!(apply_step(&mut chain, &vec![10, 10, 10, 10], Some(3), Some(5), 1_000));
    assert_eq!(values(&chain), vec![0, 10, 0, 15]);
    // No pole target found: no nudge.
    assert!(apply_step(&mut chain, &vec![10, 10, 10, 10], Some(3), None, 1_000));
    assert_eq!(values(&chain), vec![0, 20, 0, 25]);
    // No pole joint: no nudge.
    assert!(apply_step(&mut chain, &vec![10, 10, 10, 10], None, Some(5), 1_000));
    assert_eq!(values(&chain), vec![0, 30, 0, 35]);
    // A fixed joint or no joint at all is not nudged.
    assert!(apply_step(&mut chain, &vec![0, 0, 0, 0], Some(2), Some(5), 1_000));
    assert!(apply_step(&mut chain, &vec![0, 0, 0, 0], Some(4), Some(5), 1_000));
    assert_eq!(values(&chain), vec![0, 30, 0, 35]);
}

#[test]
fn step_holds_the_nudge_within_the_limit_too() {
    let mut chain = mixed_chain();
    assert!(apply_step(&mut chain, &vec![0, 5_000, 0, 0], Some(1), Some(-9_000), 1_000));
    assert_eq!(values(&chain), vec![0, 0, 0, 0]);
    assert!(apply_step(&mut chain, &vec![0, 5_000, 0, 0], Some(1), Some(9_000), 1_000));
    assert_eq!(values(&chain), vec![0, 2_000, 0, 0]);
}

#[test]
fn step_with_no_room_lets_nothing_through() {
    let mut chain = mixed_chain();
    assert!(apply_step(&mut chain, &vec![5, 5, 5, 5], Some(1), Some(5), 0));
    assert!(apply_step(&mut chain, &vec![5, 5, 5, 5], Some(1), Some(5), -3));
    assert_eq!(values(&chain), vec![0, 0, 0, 0]);
}

#[test]
fn step_stays_within_the_range_of_an_angle() {
    let mut chain = mixed_chain();
    assert!(chain.set_joint_value(1, i64::MAX - 3));
    assert!(chain.set_joint_value(3, i64::MIN + 3));
    assert!(apply_step(&mut chain, &vec![0, 10, 0, -10], None, None, 1_000));
    assert_eq!(values(&chain), vec![0, i64::MAX, 0, i64::MIN]);
    assert!(apply_step(&mut chain, &vec![0, i64::MIN, 0, i64::MAX], None, None, i64::MAX));
    assert_eq!(values(&chain), vec![0, 0, 0, -1]);
}

#[test]
fn step_of_the_wrong_length_is_not_applied() {
    let mut chain = mixed_chain();
    assert!(!apply_step(&mut chain, &vec![1, 2, 3], None, None, 1_000));
    assert_eq!(values(&chain), vec![0, 0, 0, 0]);
}

#[test]
fn fixed_chain_is_never_moved_by_the_jacobian_solver() {
    let mut chain = fixed_chain();
    let events = [
        SolveEvent::Begin,
        measured(500, 500),
        measured(0, 0),
        stepped(vec![100, 200, 300]),
        SolveEvent::Stepped { deltas: vec![100, 200, 300], pole_nudge: Some(50) },
    ];
    let states = [
        SolverState::Idle,
        SolverState::Measuring { iterations: 0 },
        SolverState::Stepping { iterations: 0 },
    ];
    for state in states {
        for event in events.iter() {
            let _ = solver().advance(&mut chain, Some(1), state, event);
            assert_eq!(values(&chain), vec![0, 0, 0]);
        }
    }
}

#[test]
fn fixed_chain_converges_exactly_when_it_is_at_the_target() {
    let mut chain = fixed_chain();
    let state = SolverState::Measuring { iterations: 0 };
    for (p, o) in [(0, 0), (99, 49), (100, 0), (0, 50), (1_000, 1_000)] {
        let next = solver().advance(&mut chain, None, state, &measured(p, o)).unwrap();
        let converged = matches!(next, SolverState::Converged { .. });
        assert_eq!(converged, p < 100 && o < 50);
        let swept = sweeper()
            .advance(
                &mut chain,
                SweepState::Measuring { iterations: 1 },
                SweepEvent::Measured { position_error: p, orientation_error: o },
            )
            .unwrap();
        let converged = matches!(swept, SweepState::Converged { .. });
        assert_eq!(converged, p < 100 && o < 50);
    }
}

#[test]
fn repeated_solve_after_convergence_changes_nothing() {
    let mut arm = JacobianIKArm::default();
    assert!(arm.chain.set_joint_value(1, 250_000));
    assert!(arm.chain.set_joint_value(4, -125_000));
    let before = values(&arm.chain);
    for _ in 0..3 {
        assert_eq!(arm.solve(&SolveEvent::Begin), Ok(SolverState::Measuring { iterations: 0 }));
        assert_eq!(
            arm.solve(&measured(999, 4_999)),
            Ok(SolverState::Converged { report: report(true, 0, 999, 4_999) })
        );
        assert_eq!(values(&arm.chain), before);
    }
}

#[test]
fn default_arm_is_the_reference_arm_at_rest() {
    let arm = JacobianIKArm::default();
    let y = Vec3 { x: 0, y: UNIT, z: 0 };
    let x = Vec3 { x: UNIT, y: 0, z: 0 };
    let z = Vec3 { x: 0, y: 0, z: UNIT };
    assert_eq!(arm.chain.len(), 8);
    assert_eq!(
        arm.chain.joint(0),
        Some(Joint { kind: JointKind::Fixed, local_offset: origin(), joint_value: 0 })
    );
    for (i, axis) in [y, x, z, y, z, y, x].iter().enumerate() {
        assert_eq!(
            arm.chain.joint(i + 1),
            Some(Joint {
                kind: JointKind::Rotational { axis: *axis },
                local_offset: origin(),
                joint_value: 0
            })
        );
    }
    for i in 0..8 {
        assert_eq!(arm.chain.world_transform(i), Some(identity()));
    }
    assert_eq!(arm.ik_solver, JacobianIkSolver::default());
    assert_eq!(arm.target_pos, None);
    assert_eq!(arm.elbow_ik_pole, None);
    assert_eq!(arm.state, SolverState::Idle);
    assert_eq!(ELBOW_JOINT, 4);
}

#[test]
fn arm_keeps_the_state_of_its_solve() {
    let mut arm = JacobianIKArm::default();
    assert_eq!(arm.solve(&measured(0, 0)), Err(SolveError::UnexpectedEvent));
    assert_eq!(arm.state, SolverState::Idle);
    assert_eq!(arm.solve(&SolveEvent::Begin), Ok(SolverState::Measuring { iterations: 0 }));
    assert_eq!(arm.state, SolverState::Measuring { iterations: 0 });
    assert_eq!(arm.solve(&measured(5_000, 0)), Ok(SolverState::Stepping { iterations: 0 }));
    assert_eq!(arm.solve(&stepped(vec![1, 2, 3])), Err(SolveError::WrongStepLength));
    assert_eq!(arm.state, SolverState::Stepping { iterations: 0 });
    assert_eq!(
        arm.solve(&stepped(vec![9, 1, 2, 3, 4, 5, 6, 7])),
        Ok(SolverState::Measuring { iterations: 1 })
    );
    assert_eq!(values(&arm.chain), vec![0, 1, 2, 3, 4, 5, 6, 7]);
    assert_eq!(arm.chain.valid_world_transforms(), 1);
}

#[test]
fn arm_bends_its_elbow_toward_a_pole_target_that_is_there() {
    let step = SolveEvent::Stepped { deltas: vec![0; 8], pole_nudge: Some(40) };
    let mut arm = JacobianIKArm::default();
    arm.state = SolverState::Stepping { iterations: 0 };
    assert_eq!(arm.solve(&step), Ok(SolverState::Measuring { iterations: 1 }));
    assert_eq!(values(&arm.chain), vec![0; 8]);

    arm.elbow_ik_pole = Some(77);
    arm.state = SolverState::Stepping { iterations: 0 };
    assert_eq!(arm.solve(&step), Ok(SolverState::Measuring { iterations: 1 }));
    assert_eq!(values(&arm.chain), vec![0, 0, 0, 0, 40, 0, 0, 0]);

    // The pole target is set but was not found: the step goes on without it.
    arm.state = SolverState::Stepping { iterations: 1 };
    assert_eq!(
        arm.solve(&SolveEvent::Stepped { deltas: vec![1; 8], pole_nudge: None }),
        Ok(SolverState::Measuring { iterations: 2 })
    );
    assert_eq!(values(&arm.chain), vec![0, 1, 1, 1, 41, 1, 1, 1]);
}

#[test]
fn cyclic_begin_poses_the_last_rotational_joint() {
    let mut chain = mixed_chain();
    assert_eq!(
        sweeper().advance(&mut chain, SweepState::Idle, SweepEvent::Begin),
        Ok(SweepState::Posing { iterations: 0, joint: 3 })
    );
    let mut tail_fixed = build_chain(&vec![about(0, UNIT, 0), fixed(), fixed()]).unwrap();
    assert_eq!(
        sweeper().advance(
            &mut tail_fixed,
            SweepState::Measuring { iterations: 2 },
            SweepEvent::Begin
        ),
        Ok(SweepState::Posing { iterations: 0, joint: 0 })
    );
}

#[test]
fn cyclic_sweep_of_a_fixed_chain_is_over_at_once() {
    let mut chain = fixed_chain();
    assert_eq!(
        sweeper().advance(&mut chain, SweepState::Idle, SweepEvent::Begin),
        Ok(SweepState::Measuring { iterations: 1 })
    );
    assert_eq!(
        sweeper().advance(
            &mut chain,
            SweepState::Measuring { iterations: 1 },
            SweepEvent::Measured { position_error: 500, orientation_error: 0 }
        ),
        Ok(SweepState::Measuring { iterations: 2 })
    );
    assert_eq!(
        sweeper().advance(
            &mut chain,
            SweepState::Measuring { iterations: 2 },
            SweepEvent::Measured { position_error: 500, orientation_error: 0 }
        ),
        Ok(SweepState::MaxIterationsReached { report: report(false, 2, 500, 0) })
    );
    assert_eq!(values(&chain), vec![0, 0, 0]);
}

fn posed(p: Vec3, axis: Vec3, e: Vec3, t: Vec3) -> SweepEvent {
    SweepEvent::Posed { joint_position: p, joint_axis: axis, effector_position: e, target_position: t }
}

#[test]
fn cyclic_posed_gives_the_terms_of_the_angle() {
    let mut chain = mixed_chain();
    let state = SweepState::Posing { iterations: 0, joint: 3 };
    let event = posed(
        Vec3 { x: 10, y: 20, z: 30 },
        Vec3 { x: 0, y: 0, z: UNIT },
        Vec3 { x: 13, y: 20, z: 35 },
        Vec3 { x: 10, y: 24, z: 29 },
    );
    // From the joint: effector at (3, 0, 5), target at (0, 4, -1); in the
    // plane: (3, 0, 0) and (0, 4, 0); cross = (0, 0, 12), along the axis 12.
    assert_eq!(
        sweeper().advance(&mut chain, state, event),
        Ok(SweepState::Turning {
            iterations: 0,
            joint: 3,
            terms: AngleTerms { sine: 12, cosine: 0 }
        })
    );
    // The same seen from the other side of the plane.
    let event = posed(
        Vec3 { x: 10, y: 20, z: 30 },
        Vec3 { x: 0, y: 0, z: -UNIT },
        Vec3 { x: 13, y: 20, z: 35 },
        Vec3 { x: 14, y: 24, z: 29 },
    );
    assert_eq!(
        sweeper().advance(&mut chain, state, event),
        Ok(SweepState::Turning {
            iterations: 0,
            joint: 3,
            terms: AngleTerms { sine: -12, cosine: 12 }
        })
    );
    assert_eq!(values(&chain), vec![0, 0, 0, 0]);
}

#[test]
fn cyclic_posed_at_the_target_gives_no_turn() {
    let mut chain = mixed_chain();
    let state = SweepState::Posing { iterations: 1, joint: 1 };
    let at = Vec3 { x: UNIT, y: 5, z: 0 };
    let event = posed(origin(), Vec3 { x: 0, y: UNIT, z: 0 }, at, at);
    assert_eq!(
        sweeper().advance(&mut chain, state, event),
        Ok(SweepState::Turning {
            iterations: 1,
            joint: 1,
            terms: AngleTerms { sine: 0, cosine: (UNIT as i128) * (UNIT as i128) }
        })
    );
}

#[test]
fn cyclic_posed_is_checked() {
    let mut chain = mixed_chain();
    let state = SweepState::Posing { iterations: 0, joint: 3 };
    let axis = Vec3 { x: 0, y: 0, z: UNIT };
    let near = Vec3 { x: POSITION_MAX, y: -POSITION_MAX, z: 0 };
    let far = Vec3 { x: POSITION_MAX + 1, y: 0, z: 0 };
    assert!(sweeper().advance(&mut chain, state, posed(near, axis, near, near)).is_ok());
    assert_eq!(
        sweeper().advance(&mut chain, state, posed(far, axis, near, near)),
        Err(SolveError::OutOfRange)
    );
    assert_eq!(
        sweeper().advance(&mut chain, state, posed(near, axis, far, near)),
        Err(SolveError::OutOfRange)
    );
    assert_eq!(
        sweeper().advance(&mut chain, state, posed(near, axis, near, far)),
        Err(SolveError::OutOfRange)
    );
    assert_eq!(
        sweeper().advance(
            &mut chain,
            state,
            posed(near, Vec3 { x: 0, y: DIRECTION_MAX + 1, z: 0 }, near, near)
        ),
        Err(SolveError::OutOfRange)
    );
    assert!(sweeper()
        .advance(&mut chain, state, posed(near, Vec3 { x: 0, y: -DIRECTION_MAX, z: 0 }, near, near))
        .is_ok());
    assert_eq!(
        sweeper().advance(&mut chain, state, posed(near, origin(), near, near)),
        Err(SolveError::DegenerateAxis)
    );
}

#[test]
fn cyclic_refuses_events_out_of_turn() {
    let mut chain = mixed_chain();
    let axis = Vec3 { x: 0, y: 0, z: UNIT };
    let pose = posed(origin(), axis, origin(), origin());
    let angle = SweepEvent::Angle { angle: 5 };
    let errors = SweepEvent::Measured { position_error: 0, orientation_error: 0 };
    let posing = SweepState::Posing { iterations: 0, joint: 3 };
    let turning =
        SweepState::Turning { iterations: 0, joint: 3, terms: AngleTerms { sine: 0, cosine: 1 } };
    let measuring = SweepState::Measuring { iterations: 1 };
    let done = SweepState::Converged { report: report(true, 1, 0, 0) };
    for state in [SweepState::Idle, turning, measuring, done] {
        assert_eq!(sweeper().advance(&mut chain, state, pose), Err(SolveError::UnexpectedEvent));
    }
    for state in [SweepState::Idle, posing, measuring, done] {
        assert_eq!(sweeper().advance(&mut chain, state, angle), Err(SolveError::UnexpectedEvent));
    }
    for state in [SweepState::Idle, posing, turning, done] {
        assert_eq!(sweeper().advance(&mut chain, state, errors), Err(SolveError::UnexpectedEvent));
    }
    // A state that names a fixed joint, or none, takes neither pose nor angle.
    for joint in [0, 2, 4] {
        let posing = SweepState::Posing { iterations: 0, joint };
        let turning = SweepState::Turning {
            iterations: 0,
            joint,
            terms: AngleTerms { sine: 0, cosine: 1 },
        };
        assert_eq!(sweeper().advance(&mut chain, posing, pose), Err(SolveError::UnexpectedEvent));
        assert_eq!(sweeper().advance(&mut chain, turning, angle), Err(SolveError::UnexpectedEvent));
    }
    assert_eq!(values(&chain), vec![0, 0, 0, 0]);
}

#[test]
fn cyclic_angle_turns_the_joint_and_moves_on_toward_the_root() {
    let mut chain = mixed_chain();
    assert!(chain.update_world_transforms(&vec![identity(); 4]));
    let terms = AngleTerms { sine: 1, cosine: 1 };
    let next = sweeper().advance(
        &mut chain,
        SweepState::Turning { iterations: 0, joint: 3, terms },
        SweepEvent::Angle { angle: 785_398 },
    );
    assert_eq!(next, Ok(SweepState::Posing { iterations: 0, joint: 1 }));
    assert_eq!(values(&chain), vec![0, 0, 0, 785_398]);
    assert_eq!(chain.valid_world_transforms(), 3);
    let next = sweeper().advance(
        &mut chain,
        SweepState::Turning { iterations: 0, joint: 1, terms },
        SweepEvent::Angle { angle: -100 },
    );
    assert_eq!(next, Ok(SweepState::Measuring { iterations: 1 }));
    assert_eq!(values(&chain), vec![0, -100, 0, 785_398]);
    assert_eq!(chain.valid_world_transforms(), 1);
}

#[test]
fn cyclic_angle_stays_within_the_range_of_an_angle() {
    let mut chain = mixed_chain();
    assert!(chain.set_joint_value(3, i64::MAX - 1));
    let terms = AngleTerms { sine: 1, cosine: 1 };
    let _ = sweeper().advance(
        &mut chain,
        SweepState::Turning { iterations: 0, joint: 3, terms },
        SweepEvent::Angle { angle: 5 },
    );
    assert_eq!(values(&chain), vec![0, 0, 0, i64::MAX]);
}

#[test]
fn cyclic_measurement_ends_or_starts_the_next_sweep() {
    let mut chain = mixed_chain();
    let errors = |p, o| SweepEvent::Measured { position_error: p, orientation_error: o };
    assert_eq!(
        sweeper().advance(&mut chain, SweepState::Measuring { iterations: 1 }, errors(99, 49)),
        Ok(SweepState::Converged { report: report(true, 1, 99, 49) })
    );
    assert_eq!(
        sweeper().advance(&mut chain, SweepState::Measuring { iterations: 1 }, errors(100, 49)),
        Ok(SweepState::Posing { iterations: 1, joint: 3 })
    );
    assert_eq!(
        sweeper().advance(&mut chain, SweepState::Measuring { iterations: 2 }, errors(100, 49)),
        Ok(SweepState::MaxIterationsReached { report: report(false, 2, 100, 49) })
    );
    assert_eq!(
        sweeper().advance(&mut chain, SweepState::Measuring { iterations: 1 }, errors(-1, 0)),
        Err(SolveError::NegativeError)
    );
    assert_eq!(
        sweeper().advance(&mut chain, SweepState::Measuring { iterations: 1 }, errors(0, -1)),
        Err(SolveError::NegativeError)
    );
}

#[test]
fn fixed_chain_is_never_moved_by_the_cyclic_solver() {
    let mut chain = fixed_chain();
    let axis = Vec3 { x: 0, y: 0, z: UNIT };
    let events = [
        SweepEvent::Begin,
        posed(origin(), axis, axis, origin()),
        SweepEvent::Angle { angle: 500 },
        SweepEvent::Measured { position_error: 500, orientation_error: 0 },
    ];
    let states = [
        SweepState::Idle,
        SweepState::Posing { iterations: 0, joint: 1 },
        SweepState::Turning { iterations: 0, joint: 1, terms: AngleTerms { sine: 1, cosine: 0 } },
        SweepState::Measuring { iterations: 1 },
    ];
    for state in states {
        for event in events {
            let _ = sweeper().advance(&mut chain, state, event);
            assert_eq!(values(&chain), vec![0, 0, 0]);
        }
    }
}

#[test]
fn bundle_carries_the_reference_arm() {
    let bundle = arm_ik::ik::JacobianIKArmBundle::new(vec![3, 1, 4], Some(15));
    assert_eq!(bundle.entity_chain, vec![3, 1, 4]);
    assert_eq!(bundle.ik_arm.elbow_ik_pole, Some(15));
    assert_eq!(bundle.ik_arm.chain.len(), 8);
    assert_eq!(bundle.ik_arm.target_pos, None);
    assert_eq!(bundle.ik_arm.state, SolverState::Idle);
    assert_eq!(bundle.ik_arm.ik_solver, JacobianIkSolver::default());

    let plain = arm_ik::ik::JacobianIKArmBundle::default();
    assert!(plain.entity_chain.is_empty());
    assert_eq!(plain.ik_arm.elbow_ik_pole, None);
    assert_eq!(values(&plain.ik_arm.chain), vec![0; 8]);
}

#[test]
fn toggle_keeps_what_it_is_made_of() {
    let toggle = arm_ik::physics::ToggleContactsWith::new(42, true);
    assert_eq!(toggle.entity, 42);
    assert!(toggle.contacts_enabled);
    let off = arm_ik::physics::ToggleContactsWith::new(7, false);
    assert_eq!(off, arm_ik::physics::ToggleContactsWith { entity: 7, contacts_enabled: false });
}

#[test]
fn solvers_change_angles_only() {
    let mut chain = mixed_chain();
    let before: Vec<Joint> = (0..4).map(|i| chain.joint(i).unwrap()).collect();
    let _ = solver().advance(
        &mut chain,
        Some(1),
        SolverState::Stepping { iterations: 0 },
        &SolveEvent::Stepped { deltas: vec![5, 6, 7, 8], pole_nudge: Some(9) },
    );
    let _ = sweeper().advance(
        &mut chain,
        SweepState::Turning { iterations: 0, joint: 3, terms: AngleTerms { sine: 1, cosine: 1 } },
        SweepEvent::Angle { angle: 11 },
    );
    assert_eq!(chain.len(), 4);
    for (i, joint) in before.iter().enumerate() {
        let after = chain.joint(i).unwrap();
        assert_eq!(after.kind, joint.kind);
        assert_eq!(after.local_offset, joint.local_offset);
    }
    assert_eq!(values(&chain), vec![0, 15, 0, 19]);
}

#[test]
fn position_error_is_the_distance_rounded_down() {
    let at = |x, y, z| Vec3 { x, y, z };
    assert_eq!(arm_ik::ik::position_error(&at(1, 2, 3), &at(1, 2, 3)), Some(0));
    assert_eq!(arm_ik::ik::position_error(&at(1, 2, 3), &at(4, 6, 3)), Some(5));
    assert_eq!(arm_ik::ik::position_error(&at(4, 6, 3), &at(1, 2, 3)), Some(5));
    assert_eq!(arm_ik::ik::position_error(&at(0, 0, 0), &at(UNIT, UNIT, UNIT)), Some(1_732_050));
    let far = at(POSITION_MAX, -POSITION_MAX, POSITION_MAX);
    let opposite = at(-POSITION_MAX, POSITION_MAX, -POSITION_MAX);
    assert_eq!(arm_ik::ik::position_error(&far, &opposite), Some(1904410002820));
    assert_eq!(arm_ik::ik::position_error(&at(POSITION_MAX + 1, 0, 0), &far), None);
    assert_eq!(arm_ik::ik::position_error(&far, &at(0, -POSITION_MAX - 1, 0)), None);
}

fn frame(position: Vec3, axis: Vec3) -> JointFrame {
    JointFrame { position, axis }
}

#[test]
fn jacobian_has_a_column_for_each_joint() {
    let chain = mixed_chain();
    let zero = origin();
    let frames = vec![
        frame(zero, zero),
        frame(zero, Vec3 { x: 0, y: 0, z: UNIT }),
        frame(Vec3 { x: UNIT, y: 0, z: 0 }, Vec3 { x: 0, y: 0, z: UNIT }),
        frame(Vec3 { x: UNIT, y: 0, z: 0 }, Vec3 { x: 0, y: UNIT, z: 0 }),
    ];
    let effector = Vec3 { x: 2 * UNIT, y: 0, z: 0 };
    let columns = jacobian(&chain, &frames, &effector).unwrap();
    assert_eq!(
        columns,
        vec![
            JacobianColumn { linear: zero, angular: zero },
            JacobianColumn {
                linear: Vec3 { x: 0, y: 2 * UNIT, z: 0 },
                angular: Vec3 { x: 0, y: 0, z: UNIT }
            },
            // A fixed joint has a zero column, whatever its frame says.
            JacobianColumn { linear: zero, angular: zero },
            JacobianColumn {
                linear: Vec3 { x: 0, y: 0, z: -UNIT },
                angular: Vec3 { x: 0, y: UNIT, z: 0 }
            },
        ]
    );
}

#[test]
fn jacobian_of_a_joint_at_the_end_effector_has_no_lever() {
    let chain = build_chain(&vec![about(UNIT, 0, 0)]).unwrap();
    let at = Vec3 { x: 5, y: 6, z: 7 };
    let axis = Vec3 { x: 600_000, y: 0, z: 800_000 };
    assert_eq!(
        jacobian(&chain, &vec![frame(at, axis)], &at),
        Some(vec![JacobianColumn { linear: origin(), angular: axis }])
    );
}

#[test]
fn jacobian_wants_a_frame_for_each_joint_and_all_in_range() {
    let chain = mixed_chain();
    let axis = Vec3 { x: 0, y: 0, z: UNIT };
    let near = Vec3 { x: POSITION_MAX, y: 0, z: -POSITION_MAX };
    let far = Vec3 { x: 0, y: POSITION_MAX + 1, z: 0 };
    let good = vec![frame(near, axis); 4];
    assert!(jacobian(&chain, &good, &near).is_some());
    assert_eq!(jacobian(&chain, &good[..3].to_vec(), &near), None);
    assert_eq!(jacobian(&chain, &vec![frame(near, axis); 5], &near), None);
    assert_eq!(jacobian(&chain, &good, &far), None);
    for at in 0..4 {
        let mut frames = good.clone();
        frames[at] = frame(far, axis);
        assert_eq!(jacobian(&chain, &frames, &near), None);
        frames[at] = frame(near, Vec3 { x: DIRECTION_MAX + 1, y: 0, z: 0 });
        assert_eq!(jacobian(&chain, &frames, &near), None);
        frames[at] = frame(near, Vec3 { x: -DIRECTION_MAX, y: DIRECTION_MAX, z: 0 });
        assert!(jacobian(&chain, &frames, &near).is_some());
    }
}

#[test]
fn pole_nudge_is_a_tenth_of_the_swing() {
    assert_eq!(pole_nudge(0), 0);
    assert_eq!(pole_nudge(100), 10);
    assert_eq!(pole_nudge(109), 10);
    assert_eq!(pole_nudge(-109), -10);
    assert_eq!(pole_nudge(9), 0);
    assert_eq!(pole_nudge(-9), 0);
    assert_eq!(pole_nudge(i64::MAX), 922_337_203_685_477_580);
    assert_eq!(pole_nudge(i64::MIN), -922_337_203_685_477_580);
}

#[test]
fn pole_swing_is_measured_about_the_line_to_the_end_effector() {
    let at = |x, y, z| Vec3 { x, y, z };
    // The arm hangs down the second axis; the elbow sticks out along the
    // first, the pole target lies along the third.
    let shoulder = at(0, 0, 0);
    let effector = at(0, -2 * UNIT, 0);
    let elbow = at(UNIT, -UNIT, 0);
    let pole = at(0, -UNIT, 3 * UNIT);
    let terms = pole_swing_terms(&shoulder, &elbow, &effector, &pole).unwrap();
    // In the plane: (UNIT, 0, 0) and (0, 0, 3 UNIT); their cross product is
    // (0, -3 UNIT^2, 0), along the line (0, -UNIT, 0).
    let unit_sq = (UNIT as i128) * (UNIT as i128);
    assert_eq!(terms, AngleTerms { sine: 3 * unit_sq, cosine: 0 });
    let angle = (terms.sine as f64).atan2(terms.cosine as f64);
    assert!((angle - std::f64::consts::FRAC_PI_2).abs() < 1e-9);

    // An elbow that points at the pole target already has no swing left.
    let there = pole_swing_terms(&shoulder, &at(0, -UNIT, UNIT), &effector, &pole).unwrap();
    assert_eq!(there, AngleTerms { sine: 0, cosine: 3 * unit_sq });
    // Positions may lie anywhere: only what is seen from the shoulder counts.
    let shift = at(5 * UNIT, -7 * UNIT, 11 * UNIT);
    let moved = |p: Vec3| at(p.x + shift.x, p.y + shift.y, p.z + shift.z);
    assert_eq!(
        pole_swing_terms(&moved(shoulder), &moved(elbow), &moved(effector), &moved(pole)),
        Some(terms)
    );
}

#[test]
fn pole_swing_needs_a_line_and_positions_in_range() {
    let at = |x, y, z| Vec3 { x, y, z };
    let near = at(POSITION_MAX, 0, -POSITION_MAX);
    let other = at(0, POSITION_MAX, 0);
    let far = at(POSITION_MAX + 1, 0, 0);
    assert!(pole_swing_terms(&near, &other, &other, &near).is_some());
    assert_eq!(pole_swing_terms(&near, &other, &near, &other), None);
    assert_eq!(pole_swing_terms(&far, &other, &near, &other), None);
    assert_eq!(pole_swing_terms(&near, &far, &other, &other), None);
    assert_eq!(pole_swing_terms(&near, &other, &far, &other), None);
    assert_eq!(pole_swing_terms(&near, &other, &other, &far), None);
}

#[test]
fn solvers_leave_the_links_alone() {
    let mut arm = JacobianIKArm::default();
    arm.state = SolverState::Stepping { iterations: 0 };
    let _ = arm.solve(&stepped(vec![9, 1, 2, 3, 4, 5, 6, 7]));
    assert_eq!(arm.chain.len(), 8);
    assert_eq!(values(&arm.chain), vec![0, 1, 2, 3, 4, 5, 6, 7]);
    let fresh = JacobianIKArm::default();
    for i in 0..8 {
        assert_eq!(arm.chain.joint(i).unwrap().kind, fresh.chain.joint(i).unwrap().kind);
        assert_eq!(
            arm.chain.joint(i).unwrap().local_offset,
            fresh.chain.joint(i).unwrap().local_offset
        );
    }
}
