use krecviz::mat::{
    build_4x4_from_xyz_rpy, build_z_rotation_3x3, decompose_4x4_to_translation_and_mat3x3,
    identity_4x4, make_4x4_from_rotation_and_translation, mat3x3_mul, mat4x4_mul,
    rotation_from_euler_xyz,
};
use std::f64::consts::{FRAC_PI_2, FRAC_PI_6}; // 90°, 30°

const EPSILON: f32 = 1e-6;

fn bits(x: f32) -> u32 {
    x.to_bits()
}

fn bits3(a: [f32; 3]) -> [u32; 3] {
    [a[0].to_bits(), a[1].to_bits(), a[2].to_bits()]
}

fn bits9(a: [f32; 9]) -> [u32; 9] {
    let mut out = [0u32; 9];
    for i in 0..9 {
        out[i] = a[i].to_bits();
    }
    out
}

fn bits16(a: [f32; 16]) -> [u32; 16] {
    let mut out = [0u32; 16];
    for i in 0..16 {
        out[i] = a[i].to_bits();
    }
    out
}

fn floats(a: &[u32]) -> Vec<f32> {
    a.iter().map(|&v| f32::from_bits(v)).collect()
}

// Asserts that two f32 values (`a` and `b`) are approximately equal.
fn assert_f32_eq(a: f32, b: f32, message: &str) {
    assert!(
        (a - b).abs() < EPSILON,
        "{} - Expected: {}, Got: {}. Diff: {}",
        message,
        b,
        a,
        (a - b).abs()
    );
}

// Asserts that two slices of f32 values are approximately equal, element by element.
fn assert_arr_eq(a: &[f32], b: &[f32], message: &str) {
    assert_eq!(
        a.len(),
        b.len(),
        "{}: Array length mismatch. Expected: {}, Got: {}",
        message,
        b.len(),
        a.len()
    );
    for i in 0..a.len() {
        assert_f32_eq(a[i], b[i], &format!("{}: Index {}", message, i));
    }
}

/// Test multiplying a 3x3 matrix by the identity matrix.
#[test]
fn test_mat3x3_mul_identity() {
    let id_3x3 = [1.0, 0.0, 0.0, 0.0, 1.0, 0.0, 0.0, 0.0, 1.0];
    let a_3x3 = [1.0, 2.0, 3.0, 4.0, 5.0, 6.0, 7.0, 8.0, 9.0];

    let result = mat3x3_mul(bits9(a_3x3), bits9(id_3x3));
    assert_arr_eq(&floats(&result), &a_3x3, "mat3x3_mul with identity");
}

/// Test multiplying two arbitrary 3x3 matrices (hand-computed).
#[test]
fn test_mat3x3_mul_arbitrary() {
    let a = [1.0, 2.0, 3.0, 4.0, 5.0, 6.0, 7.0, 8.0, 9.0];
    let b = [9.0, 8.0, 7.0, 6.0, 5.0, 4.0, 3.0, 2.0, 1.0];
    let expected = [30.0, 24.0, 18.0, 84.0, 69.0, 54.0, 138.0, 114.0, 90.0];

    let result = mat3x3_mul(bits9(a), bits9(b));
    assert_arr_eq(&floats(&result), &expected, "mat3x3_mul_arbitrary");
}

/// Test multiplying a 4x4 matrix by the 4x4 identity matrix.
#[test]
fn test_mat4x4_mul_identity() {
    let id_4x4 = identity_4x4();
    let a_4x4 = [
        1.0, 2.0, 3.0, 4.0, 5.0, 6.0, 7.0, 8.0, 9.0, 10.0, 11.0, 12.0, 13.0, 14.0, 15.0, 16.0,
    ];

    let result = mat4x4_mul(bits16(a_4x4), id_4x4);
    assert_arr_eq(&floats(&result), &a_4x4, "mat4x4_mul with identity");

    // Also testing the identity_4x4() function itself
    let expected_id = [
        1.0, 0.0, 0.0, 0.0,
        0.0, 1.0, 0.0, 0.0,
        0.0, 0.0, 1.0, 0.0,
        0.0, 0.0, 0.0, 1.0,
    ];
    assert_arr_eq(&floats(&id_4x4), &expected_id, "identity_4x4 function output");
}

/// Test multiplying two 4x4 matrices with a known result.
#[test]
fn test_mat4x4_mul_arbitrary() {
    let a = [
        1.0, 2.0, 3.0, 4.0, 5.0, 6.0, 7.0, 8.0, 9.0, 10.0, 11.0, 12.0, 13.0, 14.0, 15.0, 16.0,
    ];
    let b = [
        16.0, 15.0, 14.0, 13.0, 12.0, 11.0, 10.0, 9.0, 8.0, 7.0, 6.0, 5.0, 4.0, 3.0, 2.0, 1.0,
    ];
    let expected = [
        80.0, 70.0, 60.0, 50.0, 240.0, 214.0, 188.0, 162.0, 400.0, 358.0, 316.0, 274.0, 560.0,
        502.0, 444.0, 386.0,
    ];

    let result = mat4x4_mul(bits16(a), bits16(b));
    assert_arr_eq(&floats(&result), &expected, "mat4x4_mul_arbitrary");
}

/// Test building a rotation matrix for a 90° turn around Z only.
#[test]
fn test_build_z_rotation_3x3() {
    let angle_rad = FRAC_PI_2;
    let rot_90 = build_z_rotation_3x3(bits(angle_rad as f32));

    // In row-major order, a 90° rotation around Z is:
    //   [0, -1, 0,
    //    1,  0, 0,
    //    0,  0, 1]
    let expected = [0.0, -1.0, 0.0, 1.0, 0.0, 0.0, 0.0, 0.0, 1.0];
    assert_arr_eq(&floats(&rot_90), &expected, "build_z_rotation_3x3 (90deg Z)");
}

/// Test rotation_from_euler_xyz for a simple 90° rotation around X only.
#[test]
fn test_rotation_from_euler_xyz_90deg_x() {
    let rx = FRAC_PI_2;
    let ry = 0.0;
    let rz = 0.0;
    let rot = rotation_from_euler_xyz(bits(rx as f32), bits(ry as f32), bits(rz as f32));

    // A 90° rotation around X in row-major =>
    //   [1,  0,   0,
    //    0,  0,  -1,
    //    0,  1,   0]
    let expected = [1.0, 0.0, 0.0, 0.0, 0.0, -1.0, 0.0, 1.0, 0.0];
    assert_arr_eq(&floats(&rot), &expected, "rotation_from_euler_xyz (90deg X)");
}

/// Test build_4x4_from_xyz_rpy for a known translation & rotation.
#[test]
fn test_build_4x4_from_xyz_rpy_30deg() {
    // Move by (1.0, 2.0, 3.0), then do a 30° turn about Z.
    let xyz_arr = [1.0, 2.0, 3.0];
    let rpy_arr = [0.0, 0.0, FRAC_PI_6 as f32]; // 30° about Z
    let tf = build_4x4_from_xyz_rpy(bits3(xyz_arr), bits3(rpy_arr));

    // cos(30°) ≈ 0.8660254, sin(30°) = 0.5
    let c = (FRAC_PI_6.cos()) as f32;
    let s = (FRAC_PI_6.sin()) as f32;

    let expected_tf = [
        c,   -s,  0.0, 1.0,
        s,    c,  0.0, 2.0,
        0.0,  0.0, 1.0, 3.0,
        0.0,  0.0, 0.0, 1.0,
    ];
    assert_arr_eq(&floats(&tf), &expected_tf, "build_4x4_from_xyz_rpy (30deg Z rot, trans)");
}

/// Test decompose_4x4_to_translation_and_mat3x3 on a known 4x4 transform.
#[test]
fn test_decompose_4x4_to_translation_and_mat3x3() {
    let xyz = [2.0, -3.0, 5.0];
    let rpy = [FRAC_PI_2 as f32, 0.0, 0.0]; // 90° about X
    let full_tf_row_major = build_4x4_from_xyz_rpy(bits3(xyz), bits3(rpy));

    let (translation_arr, mat3x3_col_major) =
        decompose_4x4_to_translation_and_mat3x3(full_tf_row_major);

    let expected_translation = [2.0, -3.0, 5.0];
    assert_arr_eq(&floats(&translation_arr), &expected_translation, "decompose translation");

    // 90° about X (roll) => row-major [1 0 0; 0 0 -1; 0 1 0];
    // flat column-major: [1, 0, 0,  0, 0, 1,  0, -1, 0]
    let expected_3x3_col_major = [1.0, 0.0, 0.0, 0.0, 0.0, 1.0, 0.0, -1.0, 0.0];
    assert_arr_eq(
        &floats(&mat3x3_col_major),
        &expected_3x3_col_major,
        "decompose mat3x3 (col-major)",
    );
}

/// Test make_4x4_from_rotation_and_translation to confirm it reassembles a known transform.
#[test]
fn test_make_4x4_from_rotation_and_translation() {
    // A small 3x3 rotation => 30° about Z
    let c = (FRAC_PI_6.cos()) as f32;
    let s = (FRAC_PI_6.sin()) as f32;
    let rotation_3x3_row_major = [c, -s, 0.0, s, c, 0.0, 0.0, 0.0, 1.0];
    let translation_3_arr = [1.0_f32, -2.0_f32, 3.0_f32];

    let final_tf_row_major = make_4x4_from_rotation_and_translation(
        bits9(rotation_3x3_row_major),
        bits3(translation_3_arr),
    );

    let expected_tf = [
        c,   -s,  0.0,  1.0,
        s,    c,  0.0, -2.0,
        0.0, 0.0,  1.0,  3.0,
        0.0, 0.0,  0.0,  1.0,
    ];
    assert_arr_eq(
        &floats(&final_tf_row_major),
        &expected_tf,
        "make_4x4_from_rotation_and_translation",
    );
}

/// The 4x4 Z rotation embeds the 3x3 one with a zero translation.
#[test]
fn test_build_z_rotation_4x4_embeds() {
    let angle = (FRAC_PI_2 as f32).to_bits();
    let r4 = krecviz::mat::build_z_rotation_4x4(angle);
    let expected = [
        0.0, -1.0, 0.0, 0.0,
        1.0, 0.0, 0.0, 0.0,
        0.0, 0.0, 1.0, 0.0,
        0.0, 0.0, 0.0, 1.0,
    ];
    assert_arr_eq(&floats(&r4), &expected, "build_z_rotation_4x4 (90deg Z)");
}

/// Assembling the Euler rotation from externally computed sines and
/// cosines matches computing it from the angles directly.
#[test]
fn test_rotation_from_sin_cos_matches_euler() {
    let (rx, ry, rz) = (0.3f32, -1.2f32, 2.4f32);
    let from_angles = rotation_from_euler_xyz(rx.to_bits(), ry.to_bits(), rz.to_bits());
    let from_sincos = krecviz::mat::rotation_from_sin_cos(
        rx.sin().to_bits(),
        rx.cos().to_bits(),
        ry.sin().to_bits(),
        ry.cos().to_bits(),
        rz.sin().to_bits(),
        rz.cos().to_bits(),
    );
    assert_eq!(from_angles, from_sincos);
}
