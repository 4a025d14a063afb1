//! Row-major matrix algebra on IEEE-754 single-precision bit patterns.
//!
//! A 3x3 matrix is nine bit patterns in row-major order, a 4x4 transform
//! sixteen.  The contracts pin down, entry by entry, which scalar
//! operations are combined in which order, so the one convention of the
//! crate — row-major layout, translation in the last column, rotations
//! composed `Rz * Ry * Rx` — is checked rather than re-derived by reading.

use vstd::prelude::*;

use crate::scalar::{add_scalar, mul_scalar, neg_scalar, sin_scalar, cos_scalar};
use crate::scalar::{sum_bits, prod_bits, neg_bits};

verus! {

/// Bit pattern of single-precision 1.0.
pub const ONE_BITS: u32 = 0x3F80_0000;

/// Bit pattern of single-precision +0.0.
pub const ZERO_BITS: u32 = 0;

/// The row-major 4x4 identity matrix.
pub open spec fn identity4_spec() -> Seq<u32> {
    seq![
        ONE_BITS, ZERO_BITS, ZERO_BITS, ZERO_BITS,
        ZERO_BITS, ONE_BITS, ZERO_BITS, ZERO_BITS,
        ZERO_BITS, ZERO_BITS, ONE_BITS, ZERO_BITS,
        ZERO_BITS, ZERO_BITS, ZERO_BITS, ONE_BITS,
    ]
}

/// The zero translation vector.
pub open spec fn zero3_spec() -> Seq<u32> {
    seq![ZERO_BITS, ZERO_BITS, ZERO_BITS]
}

/// Inner product of row `row` of `a` with column `col` of `b`, both 3x3
/// row-major, with the products summed left to right.
pub open spec fn dot3_spec(a: Seq<u32>, b: Seq<u32>, row: int, col: int) -> u32 {
    sum_bits(
        sum_bits(
            prod_bits(a[row * 3], b[col]),
            prod_bits(a[row * 3 + 1], b[3 + col]),
        ),
        prod_bits(a[row * 3 + 2], b[6 + col]),
    )
}

/// Row-major 3x3 matrix product `a * b`.
pub open spec fn mat3_mul_spec(a: Seq<u32>, b: Seq<u32>) -> Seq<u32> {
    Seq::new(9, |i: int| dot3_spec(a, b, i / 3, i % 3))
}

/// Inner product of row `row` of `a` with column `col` of `b`, both 4x4
/// row-major, accumulated onto +0.0 from left to right.
pub open spec fn dot4_spec(a: Seq<u32>, b: Seq<u32>, row: int, col: int) -> u32 {
    sum_bits(
        sum_bits(
            sum_bits(
                sum_bits(ZERO_BITS, prod_bits(a[row * 4], b[col])),
                prod_bits(a[row * 4 + 1], b[4 + col]),
            ),
            prod_bits(a[row * 4 + 2], b[8 + col]),
        ),
        prod_bits(a[row * 4 + 3], b[12 + col]),
    )
}

/// Row-major 4x4 matrix product `a * b`.
pub open spec fn mat4_mul_spec(a: Seq<u32>, b: Seq<u32>) -> Seq<u32> {
    Seq::new(16, |i: int| dot4_spec(a, b, i / 4, i % 4))
}

/// The homogeneous transform that embeds a row-major 3x3 rotation and a
/// translation: rotation in the upper-left block, translation in the last
/// column, bottom row `0 0 0 1`.
pub open spec fn embed4_spec(rot: Seq<u32>, t: Seq<u32>) -> Seq<u32> {
    seq![
        rot[0], rot[1], rot[2], t[0],
        rot[3], rot[4], rot[5], t[1],
        rot[6], rot[7], rot[8], t[2],
        ZERO_BITS, ZERO_BITS, ZERO_BITS, ONE_BITS,
    ]
}

/// The translation column of a row-major 4x4 transform.
pub open spec fn decompose_trans_spec(m: Seq<u32>) -> Seq<u32> {
    seq![m[3], m[7], m[11]]
}

/// The upper-left 3x3 block of a row-major 4x4 transform, flattened in
/// column-major order (the layout the scene backend takes).
pub open spec fn decompose_rot_spec(m: Seq<u32>) -> Seq<u32> {
    seq![m[0], m[4], m[8], m[1], m[5], m[9], m[2], m[6], m[10]]
}

/// The transpose of a row-major 3x3 matrix; equally, the same entries
/// reread in column-major order.
pub open spec fn transpose3_spec(r: Seq<u32>) -> Seq<u32> {
    seq![r[0], r[3], r[6], r[1], r[4], r[7], r[2], r[5], r[8]]
}

/// Rotation about X by an angle with sine `s` and cosine `c`.
pub open spec fn x_rot3_spec(s: u32, c: u32) -> Seq<u32> {
    seq![
        ONE_BITS, ZERO_BITS, ZERO_BITS,
        ZERO_BITS, c, neg_bits(s),
        ZERO_BITS, s, c,
    ]
}

/// Rotation about Y by an angle with sine `s` and cosine `c`.
pub open spec fn y_rot3_spec(s: u32, c: u32) -> Seq<u32> {
    seq![
        c, ZERO_BITS, s,
        ZERO_BITS, ONE_BITS, ZERO_BITS,
        neg_bits(s), ZERO_BITS, c,
    ]
}

/// Rotation about Z by an angle with sine `s` and cosine `c`.
pub open spec fn z_rot3_spec(s: u32, c: u32) -> Seq<u32> {
    seq![
        c, neg_bits(s), ZERO_BITS,
        s, c, ZERO_BITS,
        ZERO_BITS, ZERO_BITS, ONE_BITS,
    ]
}

/// The intrinsic X-then-Y-then-Z Euler rotation, composed as
/// `Rz * (Ry * Rx)`: X is applied first, then Y, then Z.
pub open spec fn euler_xyz_spec(sx: u32, cx: u32, sy: u32, cy: u32, sz: u32, cz: u32) -> Seq<u32> {
    mat3_mul_spec(z_rot3_spec(sz, cz), mat3_mul_spec(y_rot3_spec(sy, cy), x_rot3_spec(sx, cx)))
}

/// Holds when `m` embeds some intrinsic X-then-Y-then-Z Euler rotation
/// together with the translation `xyz`.  The sines and cosines themselves
/// are whatever the platform's `sin` and `cos` returned.
pub open spec fn is_euler_transform_of(m: Seq<u32>, xyz: Seq<u32>) -> bool {
    exists|sx: u32, cx: u32, sy: u32, cy: u32, sz: u32, cz: u32|
        m == #[trigger] embed4_spec(euler_xyz_spec(sx, cx, sy, cy, sz, cz), xyz)
}

/// Returns the 4x4 identity transform.
pub fn identity_4x4() -> (r: [u32; 16])
    ensures
        r@ == identity4_spec(),
{
    let r: [u32; 16] = [
        ONE_BITS, ZERO_BITS, ZERO_BITS, ZERO_BITS,
        ZERO_BITS, ONE_BITS, ZERO_BITS, ZERO_BITS,
        ZERO_BITS, ZERO_BITS, ONE_BITS, ZERO_BITS,
        ZERO_BITS, ZERO_BITS, ZERO_BITS, ONE_BITS,
    ];
    proof {
        assert(r@ =~= identity4_spec());
    }
    r
}

/// One entry of a 3x3 product: row `row` of `a` against column `col` of `b`.
fn dot3(a: &[u32; 9], b: &[u32; 9], row: usize, col: usize) -> (r: u32)
    requires
        row < 3,
        col < 3,
    ensures
        r == dot3_spec(a@, b@, row as int, col as int),
{
    let p0 = mul_scalar(a[row * 3], b[col]);
    let p1 = mul_scalar(a[row * 3 + 1], b[3 + col]);
    let p2 = mul_scalar(a[row * 3 + 2], b[6 + col]);
    add_scalar(add_scalar(p0, p1), p2)
}

/// Multiplies two 3x3 matrices, both row-major.
pub fn mat3x3_mul(a: [u32; 9], b: [u32; 9]) -> (r: [u32; 9])
    ensures
        r@ == mat3_mul_spec(a@, b@),
{
    let r: [u32; 9] = [
        dot3(&a, &b, 0, 0), dot3(&a, &b, 0, 1), dot3(&a, &b, 0, 2),
        dot3(&a, &b, 1, 0), dot3(&a, &b, 1, 1), dot3(&a, &b, 1, 2),
        dot3(&a, &b, 2, 0), dot3(&a, &b, 2, 1), dot3(&a, &b, 2, 2),
    ];
    proof {
        assert(r@ =~= mat3_mul_spec(a@, b@));
    }
    r
}

/// One entry of a 4x4 product: row `row` of `a` against column `col` of `b`.
fn dot4(a: &[u32; 16], b: &[u32; 16], row: usize, col: usize) -> (r: u32)
    requires
        row < 4,
        col < 4,
    ensures
        r == dot4_spec(a@, b@, row as int, col as int),
{
    let mut v = ZERO_BITS;
    v = add_scalar(v, mul_scalar(a[row * 4], b[col]));
    v = add_scalar(v, mul_scalar(a[row * 4 + 1], b[4 + col]));
    v = add_scalar(v, mul_scalar(a[row * 4 + 2], b[8 + col]));
    v = add_scalar(v, mul_scalar(a[row * 4 + 3], b[12 + col]));
    v
}

/// Multiplies two 4x4 transforms, both row-major.  The product `a * b`
/// applies `b` first and `a` second when points are column vectors.
pub fn mat4x4_mul(a: [u32; 16], b: [u32; 16]) -> (r: [u32; 16])
    ensures
        r@ == mat4_mul_spec(a@, b@),
{
    let r: [u32; 16] = [
        dot4(&a, &b, 0, 0), dot4(&a, &b, 0, 1), dot4(&a, &b, 0, 2), dot4(&a, &b, 0, 3),
        dot4(&a, &b, 1, 0), dot4(&a, &b, 1, 1), dot4(&a, &b, 1, 2), dot4(&a, &b, 1, 3),
        dot4(&a, &b, 2, 0), dot4(&a, &b, 2, 1), dot4(&a, &b, 2, 2), dot4(&a, &b, 2, 3),
        dot4(&a, &b, 3, 0), dot4(&a, &b, 3, 1), dot4(&a, &b, 3, 2), dot4(&a, &b, 3, 3),
    ];
    proof {
        assert(r@ =~= mat4_mul_spec(a@, b@));
    }
    r
}

/// Assembles the rotation for intrinsic X-then-Y-then-Z Euler angles from
/// the six sines and cosines, composing `Rz * (Ry * Rx)`.
pub fn rotation_from_sin_cos(sx: u32, cx: u32, sy: u32, cy: u32, sz: u32, cz: u32) -> (r: [u32; 9])
    ensures
        r@ == euler_xyz_spec(sx, cx, sy, cy, sz, cz),
{
    let nsx = neg_scalar(sx);
    let nsy = neg_scalar(sy);
    let nsz = neg_scalar(sz);
    let r_x: [u32; 9] = [
        ONE_BITS, ZERO_BITS, ZERO_BITS,
        ZERO_BITS, cx, nsx,
        ZERO_BITS, sx, cx,
    ];
    let r_y: [u32; 9] = [
        cy, ZERO_BITS, sy,
        ZERO_BITS, ONE_BITS, ZERO_BITS,
        nsy, ZERO_BITS, cy,
    ];
    let r_z: [u32; 9] = [
        cz, nsz, ZERO_BITS,
        sz, cz, ZERO_BITS,
        ZERO_BITS, ZERO_BITS, ONE_BITS,
    ];
    proof {
        assert(r_x@ =~= x_rot3_spec(sx, cx));
        assert(r_y@ =~= y_rot3_spec(sy, cy));
        assert(r_z@ =~= z_rot3_spec(sz, cz));
    }
    let ryx = mat3x3_mul(r_y, r_x);
    mat3x3_mul(r_z, ryx)
}

/// Computes the rotation for intrinsic X-then-Y-then-Z Euler angles, given
/// as single-precision bit patterns in radians.  The matrix has the
/// `Rz * Ry * Rx` shape for the sines and cosines the platform returned.
pub fn rotation_from_euler_xyz(rx: u32, ry: u32, rz: u32) -> (r: [u32; 9])
    ensures
        exists|sx: u32, cx: u32, sy: u32, cy: u32, sz: u32, cz: u32|
            r@ == #[trigger] euler_xyz_spec(sx, cx, sy, cy, sz, cz),
{
    let sx = sin_scalar(rx);
    let cx = cos_scalar(rx);
    let sy = sin_scalar(ry);
    let cy = cos_scalar(ry);
    let sz = sin_scalar(rz);
    let cz = cos_scalar(rz);
    let r = rotation_from_sin_cos(sx, cx, sy, cy, sz, cz);
    proof {
        assert(r@ == euler_xyz_spec(sx, cx, sy, cy, sz, cz));
    }
    r
}

/// Embeds a row-major 3x3 rotation and a translation into a 4x4 transform:
/// rotation upper left, translation in the last column, bottom row `0 0 0 1`.
pub fn make_4x4_from_rotation_and_translation(rotation: [u32; 9], translation: [u32; 3]) -> (r: [u32; 16])
    ensures
        r@ == embed4_spec(rotation@, translation@),
{
    let r: [u32; 16] = [
        rotation[0], rotation[1], rotation[2], translation[0],
        rotation[3], rotation[4], rotation[5], translation[1],
        rotation[6], rotation[7], rotation[8], translation[2],
        ZERO_BITS, ZERO_BITS, ZERO_BITS, ONE_BITS,
    ];
    proof {
        assert(r@ =~= embed4_spec(rotation@, translation@));
    }
    r
}

/// Builds the local joint transform from a translation and roll-pitch-yaw
/// Euler angles, all single-precision bit patterns.  The translation lands
/// in the last column exactly as given; the rotation block is the intrinsic
/// X-then-Y-then-Z Euler rotation for the angles.
pub fn build_4x4_from_xyz_rpy(xyz: [u32; 3], rpy: [u32; 3]) -> (r: [u32; 16])
    ensures
        is_euler_transform_of(r@, xyz@),
        r@.len() == 16,
        r@[3] == xyz@[0],
        r@[7] == xyz@[1],
        r@[11] == xyz@[2],
        r@[12] == ZERO_BITS && r@[13] == ZERO_BITS && r@[14] == ZERO_BITS && r@[15] == ONE_BITS,
{
    let rot = rotation_from_euler_xyz(rpy[0], rpy[1], rpy[2]);
    let r = make_4x4_from_rotation_and_translation(rot, xyz);
    proof {
        let (sx, cx, sy, cy, sz, cz) = choose|sx: u32, cx: u32, sy: u32, cy: u32, sz: u32, cz: u32|
            rot@ == #[trigger] euler_xyz_spec(sx, cx, sy, cy, sz, cz);
        assert(r@ == embed4_spec(euler_xyz_spec(sx, cx, sy, cy, sz, cz), xyz@));
    }
    r
}

/// Builds the 3x3 rotation about Z for an angle in radians (single-precision
/// bit pattern), laid out `[c, -s, 0, s, c, 0, 0, 0, 1]` row-major for the
/// sine and cosine the platform returned.
pub fn build_z_rotation_3x3(angle_rad: u32) -> (r: [u32; 9])
    ensures
        exists|s: u32, c: u32| r@ == #[trigger] z_rot3_spec(s, c),
{
    let s = sin_scalar(angle_rad);
    let c = cos_scalar(angle_rad);
    let ns = neg_scalar(s);
    let r: [u32; 9] = [
        c, ns, ZERO_BITS,
        s, c, ZERO_BITS,
        ZERO_BITS, ZERO_BITS, ONE_BITS,
    ];
    proof {
        assert(r@ =~= z_rot3_spec(s, c));
    }
    r
}

/// Builds the 4x4 rotation about Z for an angle in radians: the 3x3 Z
/// rotation embedded with a zero translation.
pub fn build_z_rotation_4x4(angle_rad: u32) -> (r: [u32; 16])
    ensures
        exists|s: u32, c: u32| r@ == embed4_spec(#[trigger] z_rot3_spec(s, c), zero3_spec()),
{
    let s = sin_scalar(angle_rad);
    let c = cos_scalar(angle_rad);
    let ns = neg_scalar(s);
    let r: [u32; 16] = [
        c, ns, ZERO_BITS, ZERO_BITS,
        s, c, ZERO_BITS, ZERO_BITS,
        ZERO_BITS, ZERO_BITS, ONE_BITS, ZERO_BITS,
        ZERO_BITS, ZERO_BITS, ZERO_BITS, ONE_BITS,
    ];
    proof {
        assert(r@ =~= embed4_spec(z_rot3_spec(s, c), zero3_spec()));
    }
    r
}

/// Splits a row-major 4x4 transform into its translation column and its
/// 3x3 linear block, the block flattened column-major for the backend.
pub fn decompose_4x4_to_translation_and_mat3x3(tf: [u32; 16]) -> (r: ([u32; 3], [u32; 9]))
    ensures
        r.0@ == decompose_trans_spec(tf@),
        r.1@ == decompose_rot_spec(tf@),
{
    let translation: [u32; 3] = [tf[3], tf[7], tf[11]];
    let mat3x3: [u32; 9] = [
        tf[0], tf[4], tf[8],
        tf[1], tf[5], tf[9],
        tf[2], tf[6], tf[10],
    ];
    proof {
        assert(translation@ =~= decompose_trans_spec(tf@));
        assert(mat3x3@ =~= decompose_rot_spec(tf@));
    }
    (translation, mat3x3)
}

/// Decomposing an embedded transform gives back exactly what was embedded:
/// the translation unchanged, and the rotation entries reread column-major,
/// which is the transpose rearrangement; rereading twice is the identity.
/// So `decompose` inverts `make_4x4_from_rotation_and_translation` up to
/// the documented row-major/column-major change of layout.
pub proof fn lemma_decompose_recovers_embedding(rot: Seq<u32>, t: Seq<u32>)
    requires
        rot.len() == 9,
        t.len() == 3,
    ensures
        decompose_trans_spec(embed4_spec(rot, t)) == t,
        decompose_rot_spec(embed4_spec(rot, t)) == transpose3_spec(rot),
        transpose3_spec(transpose3_spec(rot)) == rot,
{
    assert(decompose_trans_spec(embed4_spec(rot, t)) =~= t);
    assert(decompose_rot_spec(embed4_spec(rot, t)) =~= transpose3_spec(rot));
    assert(transpose3_spec(transpose3_spec(rot)) =~= rot);
}

} // verus!
