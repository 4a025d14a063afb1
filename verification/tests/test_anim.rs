use krecviz::anim::{
    actuator_scalar_path, actuator_scalar_updates, angle_deg_to_rad,
    build_actuator_to_urdf_joint_map, build_joint_name_to_joint_info, resolve_actuator_transform,
    ActuatorSample, ActuatorSkip, ScalarKind,
};
use krecviz::diag::u32_to_decimal;
use krecviz::bfs::build_link_bfs_map;
use krecviz::graph::{Joint, Link, Robot};
use krecviz::mat::{
    build_z_rotation_3x3, decompose_4x4_to_translation_and_mat3x3,
    make_4x4_from_rotation_and_translation, mat3x3_mul,
};

fn bits3(a: [f32; 3]) -> [u32; 3] {
    [a[0].to_bits(), a[1].to_bits(), a[2].to_bits()]
}

fn link(name: &str) -> Link {
    Link {
        name: name.to_string(),
    }
}

fn joint(name: &str, parent: &str, child: &str, xyz: [f32; 3], rpy: [f32; 3]) -> Joint {
    Joint {
        name: name.to_string(),
        parent_link: parent.to_string(),
        child_link: child.to_string(),
        origin_xyz: bits3(xyz),
        origin_rpy: bits3(rpy),
    }
}

fn sample(id: u32, pos: Option<f32>, vel: Option<f32>, tor: Option<f32>) -> ActuatorSample {
    ActuatorSample {
        actuator_id: id,
        position: pos.map(|p| p.to_bits()),
        velocity: vel.map(|v| v.to_bits()),
        torque: tor.map(|t| t.to_bits()),
    }
}

/// The robot whose joint "Revolute_3" drives the scenario below.
fn demo_robot() -> Robot {
    Robot {
        links: vec![link("base"), link("hand")],
        joints: vec![joint(
            "Revolute_3",
            "base",
            "hand",
            [0.1, 0.2, 0.3],
            [0.25, -0.5, 0.75],
        )],
    }
}

/// The fixed table maps twenty actuators; spot-check a few.
#[test]
fn test_actuator_map_contents() {
    let map = build_actuator_to_urdf_joint_map();
    assert_eq!(map.entries.len(), 20);
    assert_eq!(map.get(22), Some(&"Revolute_3".to_string()));
    assert_eq!(map.get(11), Some(&"Revolute_2".to_string()));
    assert_eq!(map.get(45), Some(&"R_ankle_y".to_string()));
    assert_eq!(map.get(99), None);
}

/// An unmapped actuator is skipped with the mapping reason.
#[test]
fn test_resolve_missing_mapping() {
    let robot = demo_robot();
    let (placements, _) = build_link_bfs_map(&robot).unwrap();
    let infos = build_joint_name_to_joint_info(&robot, &placements);
    let map = build_actuator_to_urdf_joint_map();
    let s = sample(99, Some(10.0), None, None);
    assert_eq!(
        resolve_actuator_transform(&map, &infos, &s).err(),
        Some(ActuatorSkip::NoJointMapping)
    );
}

/// A mapped actuator whose joint is unknown to the robot is skipped with
/// the joint-info reason.
#[test]
fn test_resolve_missing_info() {
    let robot = demo_robot();
    let (placements, _) = build_link_bfs_map(&robot).unwrap();
    let infos = build_joint_name_to_joint_info(&robot, &placements);
    let map = build_actuator_to_urdf_joint_map();
    // Actuator 11 maps to "Revolute_2", which this robot does not have.
    let s = sample(11, Some(10.0), None, None);
    assert_eq!(
        resolve_actuator_transform(&map, &infos, &s).err(),
        Some(ActuatorSkip::NoJointInfo)
    );
}

/// Animation skip semantics: a sample without a position yields no
/// transform, but its scalar telemetry still goes out.
#[test]
fn test_resolve_missing_position_keeps_telemetry() {
    let robot = demo_robot();
    let (placements, _) = build_link_bfs_map(&robot).unwrap();
    let infos = build_joint_name_to_joint_info(&robot, &placements);
    let map = build_actuator_to_urdf_joint_map();
    let s = sample(22, None, Some(1.5), Some(-2.5));
    assert_eq!(
        resolve_actuator_transform(&map, &infos, &s).err(),
        Some(ActuatorSkip::NoPosition)
    );
    let scalars = actuator_scalar_updates(&s);
    assert_eq!(
        scalars,
        vec![
            (ScalarKind::Velocity, 1.5f32.to_bits()),
            (ScalarKind::Torque, (-2.5f32).to_bits()),
        ]
    );
}

/// All three channels present give three scalar updates in channel order.
#[test]
fn test_scalar_updates_all_present() {
    let s = sample(22, Some(3.0), Some(4.0), Some(5.0));
    let scalars = actuator_scalar_updates(&s);
    assert_eq!(
        scalars,
        vec![
            (ScalarKind::Position, 3.0f32.to_bits()),
            (ScalarKind::Velocity, 4.0f32.to_bits()),
            (ScalarKind::Torque, 5.0f32.to_bits()),
        ]
    );
}

/// Scenario: actuator 22 maps to joint "Revolute_3"; a frame reports
/// position 90 degrees.  The emitted transform sits at the joint's child
/// entity path, keeps the rest translation, and its rotation equals the
/// rest rotation composed with a Z rotation by pi/2.
#[test]
fn test_resolve_actuator_90deg() {
    let robot = demo_robot();
    let (placements, _) = build_link_bfs_map(&robot).unwrap();
    let infos = build_joint_name_to_joint_info(&robot, &placements);
    let map = build_actuator_to_urdf_joint_map();
    let s = sample(22, Some(90.0), None, None);

    let update = resolve_actuator_transform(&map, &infos, &s).expect("sample should resolve");
    assert_eq!(update.entity_path, "base/hand");
    assert_eq!(update.translation, bits3([0.1, 0.2, 0.3]));

    // Recompute the expectation through the same public operations:
    // compose(base_rotation, rotate_z(angle of 90 degrees)).
    let info = infos.get("Revolute_3").expect("joint info exists");
    let angle = angle_deg_to_rad(90.0f32.to_bits());
    let expected_rot = mat3x3_mul(info.base_rotation, build_z_rotation_3x3(angle));
    let expected_tf = make_4x4_from_rotation_and_translation(expected_rot, info.origin_translation);
    let (expected_t, expected_m) = decompose_4x4_to_translation_and_mat3x3(expected_tf);
    assert_eq!(update.translation, expected_t);
    assert_eq!(update.mat3x3, expected_m);

    // And numerically: the angle really is pi/2, so the composed column
    // entries match compose(base, rotate_z(pi/2)) within float tolerance.
    let half_pi = (std::f64::consts::FRAC_PI_2 as f32).to_bits();
    let direct = mat3x3_mul(info.base_rotation, build_z_rotation_3x3(half_pi));
    for i in 0..9 {
        let a = f32::from_bits(expected_rot[i]);
        let b = f32::from_bits(direct[i]);
        assert!((a - b).abs() < 1e-5, "entry {}: {} vs {}", i, a, b);
    }
}


/// Decimal rendering used in actuator entity paths.
#[test]
fn test_u32_to_decimal() {
    assert_eq!(u32_to_decimal(0), "0");
    assert_eq!(u32_to_decimal(7), "7");
    assert_eq!(u32_to_decimal(10), "10");
    assert_eq!(u32_to_decimal(4203), "4203");
    assert_eq!(u32_to_decimal(u32::MAX), "4294967295");
}

/// The scalar entity paths name the actuator and the channel.
#[test]
fn test_actuator_scalar_paths() {
    assert_eq!(
        actuator_scalar_path(22, ScalarKind::Position),
        "actuators/actuator_22/state/position"
    );
    assert_eq!(
        actuator_scalar_path(7, ScalarKind::Velocity),
        "actuators/actuator_7/state/velocity"
    );
    assert_eq!(
        actuator_scalar_path(45, ScalarKind::Torque),
        "actuators/actuator_45/state/torque"
    );
}
