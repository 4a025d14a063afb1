//! Re-deriving per-joint transforms from live actuator telemetry.
//!
//! A fixed table maps actuator identifiers to joint names.  Each joint
//! keeps its baked rest pose: the entity path of its child link, its
//! fixed translation, and its fixed rotation.  For one telemetry sample,
//! the live angle becomes a rotation about the joint's local Z axis,
//! composed on top of the rest rotation; the result is re-emitted at the
//! child link's entity path.  A missing mapping, missing joint info, or
//! missing position each skip only that sample, never the frame.

use vstd::prelude::*;
use vstd::string::StringExecFns;

use crate::bfs::LinkMap;
use crate::graph::{Joint, Robot};
use crate::lexorder::str_eq;
use crate::mat::{
    build_z_rotation_3x3, decompose_4x4_to_translation_and_mat3x3, decompose_rot_spec,
    embed4_spec, mat3_mul_spec, mat3x3_mul,
    make_4x4_from_rotation_and_translation, rotation_from_euler_xyz, euler_xyz_spec, z_rot3_spec,
};
use crate::scalar::{mul_scalar, prod_bits};

verus! {

/// Bit pattern of the single-precision value of pi divided by 180: the
/// factor that turns degrees into radians.
pub const RAD_PER_DEG_BITS: u32 = 0x3C8E_FA35;

/// Converts an angle in degrees (single-precision bit pattern) to
/// radians, multiplying by the single-precision value of pi over 180.
pub fn angle_deg_to_rad(deg: u32) -> (r: u32)
    ensures
        r == prod_bits(deg, RAD_PER_DEG_BITS),
{
    mul_scalar(deg, RAD_PER_DEG_BITS)
}

/// A joint's baked rest pose: where its child link lives in the scene,
/// and the fixed offset the live angle is composed against.
#[derive(Clone)]
pub struct JointInfo {
    /// Entity path of the joint's child link.
    pub entity_path: String,
    /// The joint's fixed translation.
    pub origin_translation: [u32; 3],
    /// The joint's fixed rotation, row-major.
    pub base_rotation: [u32; 9],
}

/// Whether `m` is the intrinsic X-then-Y-then-Z Euler rotation for some
/// sines and cosines.
pub open spec fn is_some_euler_rotation(m: Seq<u32>) -> bool {
    exists|sx: u32, cx: u32, sy: u32, cy: u32, sz: u32, cz: u32|
        m == #[trigger] euler_xyz_spec(sx, cx, sy, cy, sz, cz)
}

/// Rest poses keyed by joint name.  Keys never repeat.
pub struct JointInfoMap {
    pub entries: Vec<(String, JointInfo)>,
}

impl JointInfoMap {
    /// The joint name of each entry.
    pub open spec fn key_seq(self) -> Seq<Seq<char>> {
        self.entries@.map_values(|e: (String, JointInfo)| e.0@)
    }

    /// Keys never repeat.
    pub open spec fn wf(self) -> bool {
        forall|i: int, j: int|
            0 <= i < j < self.key_seq().len() ==> self.key_seq()[i] != self.key_seq()[j]
    }

    /// Whether a joint has a rest pose.
    pub open spec fn has(self, k: Seq<char>) -> bool {
        exists|i: int| 0 <= i < self.key_seq().len() && #[trigger] self.key_seq()[i] == k
    }

    /// The entry position of a joint's rest pose.
    pub open spec fn index_of(self, k: Seq<char>) -> int {
        choose|i: int| 0 <= i < self.key_seq().len() && #[trigger] self.key_seq()[i] == k
    }

    /// A joint's rest pose.
    pub open spec fn at(self, k: Seq<char>) -> JointInfo {
        self.entries@[self.index_of(k)].1
    }

    /// Looks up the rest pose of the joint called `name`.
    pub fn get(&self, name: &str) -> (r: Option<&JointInfo>)
        requires
            self.wf(),
        ensures
            match r {
                Option::Some(info) => self.has(name@) && *info == self.at(name@),
                Option::None => !self.has(name@),
            },
    {
        let n = self.entries.len();
        let mut i: usize = 0;
        while i < n
            invariant
                i <= n,
                n == self.entries@.len(),
                self.wf(),
                forall|j: int| 0 <= j < i ==> self.key_seq()[j] != name@,
            decreases n - i,
        {
            if str_eq(self.entries[i].0.as_str(), name) {
                proof {
                    assert(self.key_seq()[i as int] == name@);
                    assert(self.index_of(name@) == i as int);
                }
                return Some(&self.entries[i].1);
            }
            i = i + 1;
        }
        None
    }
}

/// The rest pose recorded for a joint comes from a joint of that name
/// whose child link is placed: the entity path is the child's, the
/// translation is the joint's own origin, and the rotation is the Euler
/// rotation the joint's angles produced.
pub open spec fn joint_info_via(
    joints: Seq<Joint>,
    placements: LinkMap,
    name: Seq<char>,
    info: JointInfo,
    ji: int,
) -> bool {
    &&& 0 <= ji < joints.len()
    &&& joints[ji].name@ == name
    &&& placements.has(joints[ji].child_link@)
    &&& info.entity_path@ == placements.at(joints[ji].child_link@).link_only_path@
    &&& info.origin_translation@ == joints[ji].origin_xyz@
    &&& is_some_euler_rotation(info.base_rotation@)
}

/// The entry's rest pose comes from some joint of the entry's name.
pub open spec fn entry_has_source(
    joints: Seq<Joint>,
    placements: LinkMap,
    e: (String, JointInfo),
) -> bool {
    exists|ji: int| #[trigger] joint_info_via(joints, placements, e.0@, e.1, ji)
}

/// Builds the rest-pose table from the joint list and the placement map.
/// Every joint whose child link is placed gets an entry under its name;
/// when several joints share one name, the first one wins.
pub fn build_joint_name_to_joint_info(robot: &Robot, placements: &LinkMap) -> (r: JointInfoMap)
    requires
        placements.wf(),
    ensures
        r.wf(),
        forall|i: int|
            0 <= i < r.entries@.len() ==> entry_has_source(
                robot.joints@,
                *placements,
                #[trigger] r.entries@[i],
            ),
        forall|ji: int|
            0 <= ji < robot.joints@.len() && placements.has(
                #[trigger] robot.joints@[ji].child_link@,
            ) ==> r.has(robot.joints@[ji].name@),
{
    let ghost jointsv = robot.joints@;
    let n = robot.joints.len();
    let mut out = JointInfoMap { entries: Vec::new() };
    let mut i: usize = 0;
    while i < n
        invariant
            i <= n,
            n == jointsv.len(),
            jointsv == robot.joints@,
            placements.wf(),
            out.wf(),
            forall|t: int|
                0 <= t < out.entries@.len() ==> entry_has_source(
                    jointsv,
                    *placements,
                    #[trigger] out.entries@[t],
                ),
            forall|ji: int|
                0 <= ji < i && placements.has(#[trigger] jointsv[ji].child_link@) ==> out.has(
                    jointsv[ji].name@,
                ),
        decreases n - i,
    {
        let already = out.get(robot.joints[i].name.as_str()).is_some();
        if !already {
            match placements.get(robot.joints[i].child_link.as_str()) {
                Some(child_data) => {
                    let base_rotation = rotation_from_euler_xyz(
                        robot.joints[i].origin_rpy[0],
                        robot.joints[i].origin_rpy[1],
                        robot.joints[i].origin_rpy[2],
                    );
                    let info = JointInfo {
                        entity_path: child_data.link_only_path.clone(),
                        origin_translation: robot.joints[i].origin_xyz,
                        base_rotation,
                    };
                    let name = robot.joints[i].name.clone();
                    let ghost old_out = out;
                    proof {
                        assert(info.origin_translation@ =~= jointsv[i as int].origin_xyz@);
                        assert(joint_info_via(jointsv, *placements, name@, info, i as int));
                    }
                    out.entries.push((name, info));
                    proof {
                        assert(out.key_seq() =~= old_out.key_seq().push(
                            jointsv[i as int].name@,
                        ));
                        assert(out.wf()) by {
                            assert forall|a: int, b: int|
                                0 <= a < b < out.key_seq().len() implies out.key_seq()[a]
                                != out.key_seq()[b] by {
                                if b == out.key_seq().len() - 1 {
                                    assert(out.key_seq()[a] == old_out.key_seq()[a]);
                                    if old_out.key_seq()[a] == jointsv[i as int].name@ {
                                        assert(old_out.has(jointsv[i as int].name@));
                                    }
                                }
                            }
                        }
                        assert forall|ji: int|
                            0 <= ji < i + 1 && placements.has(
                                #[trigger] jointsv[ji].child_link@,
                            ) implies out.has(jointsv[ji].name@) by {
                            if ji < i {
                                assert(old_out.has(jointsv[ji].name@));
                                let w = old_out.index_of(jointsv[ji].name@);
                                assert(out.key_seq()[w] == jointsv[ji].name@);
                            } else {
                                assert(out.key_seq()[out.key_seq().len() - 1] == jointsv[
                                    i as int].name@);
                            }
                        }
                        assert forall|t: int| 0 <= t < out.entries@.len() implies entry_has_source(
                            jointsv,
                            *placements,
                            #[trigger] out.entries@[t],
                        ) by {
                            if t < old_out.entries@.len() {
                                assert(out.entries@[t] == old_out.entries@[t]);
                                assert(entry_has_source(jointsv, *placements, old_out.entries@[t]));
                            } else {
                                assert(out.entries@[t] == (name, info));
                                assert(joint_info_via(
                                    jointsv,
                                    *placements,
                                    out.entries@[t].0@,
                                    out.entries@[t].1,
                                    i as int,
                                ));
                            }
                        }
                    }
                },
                None => {},
            }
        }
        i = i + 1;
    }
    out
}

/// The fixed actuator-to-joint table, keyed by actuator identifier.
/// Keys never repeat.
pub struct ActuatorJointMap {
    pub entries: Vec<(u32, String)>,
}

impl ActuatorJointMap {
    /// The actuator identifier of each entry.
    pub open spec fn key_seq(self) -> Seq<u32> {
        self.entries@.map_values(|e: (u32, String)| e.0)
    }

    /// Keys never repeat.
    pub open spec fn wf(self) -> bool {
        forall|i: int, j: int|
            0 <= i < j < self.key_seq().len() ==> self.key_seq()[i] != self.key_seq()[j]
    }

    /// Whether an actuator is mapped to a joint.
    pub open spec fn has(self, id: u32) -> bool {
        exists|i: int| 0 <= i < self.key_seq().len() && #[trigger] self.key_seq()[i] == id
    }

    /// The entry position of an actuator's mapping.
    pub open spec fn index_of(self, id: u32) -> int {
        choose|i: int| 0 <= i < self.key_seq().len() && #[trigger] self.key_seq()[i] == id
    }

    /// The joint name an actuator is mapped to.
    pub open spec fn at(self, id: u32) -> Seq<char> {
        self.entries@[self.index_of(id)].1@
    }

    /// Looks up the joint name for an actuator.
    pub fn get(&self, id: u32) -> (r: Option<&String>)
        requires
            self.wf(),
        ensures
            match r {
                Option::Some(name) => self.has(id) && name@ == self.at(id),
                Option::None => !self.has(id),
            },
    {
        let n = self.entries.len();
        let mut i: usize = 0;
        while i < n
            invariant
                i <= n,
                n == self.entries@.len(),
                self.wf(),
                forall|j: int| 0 <= j < i ==> self.key_seq()[j] != id,
            decreases n - i,
        {
            if self.entries[i].0 == id {
                proof {
                    assert(self.key_seq()[i as int] == id);
                    assert(self.index_of(id) == i as int);
                }
                return Some(&self.entries[i].1);
            }
            i = i + 1;
        }
        None
    }

    /// Adds one mapping under a fresh identifier.
    pub fn insert(&mut self, id: u32, name: &str)
        requires
            old(self).wf(),
            !old(self).has(id),
        ensures
            final(self).wf(),
            final(self).entries@.len() == old(self).entries@.len() + 1,
            final(self).has(id),
            final(self).at(id) == name@,
            forall|other: u32| #[trigger] final(self).has(other) == (old(self).has(other) || other == id),
            forall|other: u32|
                old(self).has(other) ==> #[trigger] final(self).at(other) == old(self).at(other),
    {
        let ghost olds = *self;
        let owned: String = name.to_owned();
        self.entries.push((id, owned));
        proof {
            assert(self.entries@ =~= olds.entries@.push((id, owned)));
            let n = olds.key_seq().len() as int;
            assert(self.key_seq() =~= olds.key_seq().push(id));
            assert(self.wf()) by {
                assert forall|a: int, b: int|
                    0 <= a < b < self.key_seq().len() implies self.key_seq()[a]
                    != self.key_seq()[b] by {
                    if b == n {
                        assert(self.key_seq()[a] == olds.key_seq()[a]);
                        if olds.key_seq()[a] == id {
                            assert(olds.has(id));
                        }
                    }
                }
            }
            assert(self.key_seq()[n] == id);
            assert(self.index_of(id) == n) by {
                let t = self.index_of(id);
                if t < n {
                    assert(olds.key_seq()[t] == id);
                    assert(olds.has(id));
                }
            }
            assert forall|other: u32| #[trigger] self.has(other) == (olds.has(other) || other
                == id) by {
                if self.has(other) {
                    let t = self.index_of(other);
                    assert(self.key_seq()[t] == other);
                    if t < n {
                        assert(olds.key_seq()[t] == other);
                    }
                } else {
                    if olds.has(other) {
                        let t = olds.index_of(other);
                        assert(olds.key_seq()[t] == other);
                        assert(self.key_seq()[t] == other);
                    }
                }
            }
            assert forall|other: u32| olds.has(other) implies #[trigger] self.at(other) == olds.at(
                other,
            ) by {
                let t = olds.index_of(other);
                assert(olds.key_seq()[t] == other);
                assert(self.key_seq()[t] == other);
                let t2 = self.index_of(other);
                assert(self.key_seq()[t2] == other);
                if t2 != t {
                    if t2 == n {
                        assert(other == id);
                        assert(olds.has(id));
                    }
                }
            }
        }
    }
}

/// One frame's reading for one actuator: optional position in degrees,
/// optional velocity, optional torque, each a single-precision bit
/// pattern.
#[derive(Clone)]
pub struct ActuatorSample {
    pub actuator_id: u32,
    pub position: Option<u32>,
    pub velocity: Option<u32>,
    pub torque: Option<u32>,
}

/// Why one sample produced no transform.  Each reason skips only that
/// sample; the rest of the frame goes on.
#[derive(Clone, Debug, PartialEq, Eq)]
pub enum ActuatorSkip {
    /// The actuator has no entry in the actuator-to-joint table.
    NoJointMapping,
    /// The mapped joint has no recorded rest pose.
    NoJointInfo,
    /// The sample carries no position reading.
    NoPosition,
}

/// A transform ready for emission: the entity path of the joint's child
/// link, the unchanged rest translation, and the rotation, flattened
/// column-major.
#[derive(Clone)]
pub struct TransformUpdate {
    pub entity_path: String,
    pub translation: [u32; 3],
    pub mat3x3: [u32; 9],
}

/// Resolves one actuator sample into the transform to emit, or says
/// exactly why it is skipped.  On success the emitted translation is the
/// joint's rest translation, untouched, and the emitted rotation is the
/// rest rotation composed with a rotation about local Z — the live angle
/// applied in the joint's rotated frame.
pub fn resolve_actuator_transform(
    actuator_map: &ActuatorJointMap,
    joint_info_map: &JointInfoMap,
    sample: &ActuatorSample,
) -> (r: Result<TransformUpdate, ActuatorSkip>)
    requires
        actuator_map.wf(),
        joint_info_map.wf(),
    ensures
        r == Result::<TransformUpdate, ActuatorSkip>::Err(ActuatorSkip::NoJointMapping)
            <==> !actuator_map.has(sample.actuator_id),
        r == Result::<TransformUpdate, ActuatorSkip>::Err(ActuatorSkip::NoJointInfo) <==> (
        actuator_map.has(sample.actuator_id) && !joint_info_map.has(
            actuator_map.at(sample.actuator_id),
        )),
        r == Result::<TransformUpdate, ActuatorSkip>::Err(ActuatorSkip::NoPosition) <==> (
        actuator_map.has(sample.actuator_id) && joint_info_map.has(
            actuator_map.at(sample.actuator_id),
        ) && sample.position is None),
        r is Ok <==> (actuator_map.has(sample.actuator_id) && joint_info_map.has(
            actuator_map.at(sample.actuator_id),
        ) && sample.position is Some),
        r is Ok ==> ({
            let info = joint_info_map.at(actuator_map.at(sample.actuator_id));
            let u = r->Ok_0;
            &&& u.entity_path@ == info.entity_path@
            &&& u.translation@ == info.origin_translation@
            &&& exists|s: u32, c: u32|
                u.mat3x3@ == decompose_rot_spec(
                    embed4_spec(
                        mat3_mul_spec(info.base_rotation@, #[trigger] z_rot3_spec(s, c)),
                        info.origin_translation@,
                    ),
                )
        }),
{
    let joint_name = match actuator_map.get(sample.actuator_id) {
        Some(name) => name,
        None => {
            return Err(ActuatorSkip::NoJointMapping);
        },
    };
    let info = match joint_info_map.get(joint_name.as_str()) {
        Some(info) => info,
        None => {
            return Err(ActuatorSkip::NoJointInfo);
        },
    };
    let pos_deg = match sample.position {
        Some(p) => p,
        None => {
            return Err(ActuatorSkip::NoPosition);
        },
    };
    let angle_rad = angle_deg_to_rad(pos_deg);
    let new_rotation = build_z_rotation_3x3(angle_rad);
    let final_rotation = mat3x3_mul(info.base_rotation, new_rotation);
    let tf4x4 = make_4x4_from_rotation_and_translation(final_rotation, info.origin_translation);
    let (translation, mat3x3) = decompose_4x4_to_translation_and_mat3x3(tf4x4);
    proof {
        let (s, c) = choose|s: u32, c: u32| new_rotation@ == #[trigger] z_rot3_spec(s, c);
        assert(mat3x3@ == decompose_rot_spec(
            embed4_spec(
                mat3_mul_spec(info.base_rotation@, z_rot3_spec(s, c)),
                info.origin_translation@,
            ),
        ));
        assert(translation@ =~= info.origin_translation@);
    }
    Ok(TransformUpdate { entity_path: info.entity_path.clone(), translation, mat3x3 })
}

/// Which scalar channel a telemetry value belongs to.
#[derive(Clone, Copy, Debug, PartialEq, Eq)]
pub enum ScalarKind {
    Position,
    Velocity,
    Torque,
}

/// The scalar telemetry a sample yields, in channel order.
pub open spec fn scalar_updates_spec(s: ActuatorSample) -> Seq<(ScalarKind, u32)> {
    (if s.position is Some {
        seq![(ScalarKind::Position, s.position->0)]
    } else {
        Seq::empty()
    }) + (if s.velocity is Some {
        seq![(ScalarKind::Velocity, s.velocity->0)]
    } else {
        Seq::empty()
    }) + (if s.torque is Some {
        seq![(ScalarKind::Torque, s.torque->0)]
    } else {
        Seq::empty()
    })
}

/// Lists the scalar telemetry present in a sample: one entry per present
/// channel, independent of whether a transform was computed for the
/// sample.
pub fn actuator_scalar_updates(sample: &ActuatorSample) -> (r: Vec<(ScalarKind, u32)>)
    ensures
        r@ == scalar_updates_spec(*sample),
{
    let mut out: Vec<(ScalarKind, u32)> = Vec::new();
    if let Some(p) = sample.position {
        out.push((ScalarKind::Position, p));
    }
    if let Some(v) = sample.velocity {
        out.push((ScalarKind::Velocity, v));
    }
    if let Some(tq) = sample.torque {
        out.push((ScalarKind::Torque, tq));
    }
    proof {
        assert(out@ =~= scalar_updates_spec(*sample));
    }
    out
}


/// The sink channel name of a scalar kind.
pub open spec fn channel_name(kind: ScalarKind) -> Seq<char> {
    match kind {
        ScalarKind::Position => "position"@,
        ScalarKind::Velocity => "velocity"@,
        ScalarKind::Torque => "torque"@,
    }
}

/// The entity path at which one scalar channel of an actuator is
/// emitted: `actuators/actuator_<id>/state/<channel>`.
pub open spec fn scalar_path_spec(id: u32, kind: ScalarKind) -> Seq<char> {
    "actuators/actuator_"@ + crate::diag::dec_rep(id as int) + "/state/"@ + channel_name(kind)
}

/// Builds the entity path for one scalar channel of an actuator.
pub fn actuator_scalar_path(id: u32, kind: ScalarKind) -> (r: String)
    ensures
        r@ == scalar_path_spec(id, kind),
{
    let mut s: String = "actuators/actuator_".to_owned();
    let digits = crate::diag::u32_to_decimal(id);
    s.append(digits.as_str());
    s.append("/state/");
    match kind {
        ScalarKind::Position => s.append("position"),
        ScalarKind::Velocity => s.append("velocity"),
        ScalarKind::Torque => s.append("torque"),
    }
    s
}

/// The fixed actuator-to-joint table of this robot family: five
/// actuators per limb, matching the joint names of its description.
pub fn build_actuator_to_urdf_joint_map() -> (r: ActuatorJointMap)
    ensures
        r.wf(),
        // Left arm
        r.has(11) && r.at(11) == "Revolute_2"@,
        r.has(12) && r.at(12) == "Revolute_4"@,
        r.has(13) && r.at(13) == "Revolute_5"@,
        r.has(14) && r.at(14) == "Revolute_8"@,
        r.has(15) && r.at(15) == "Revolute_16"@,
        // Right arm
        r.has(21) && r.at(21) == "Revolute_1"@,
        r.has(22) && r.at(22) == "Revolute_3"@,
        r.has(23) && r.at(23) == "Revolute_6"@,
        r.has(24) && r.at(24) == "Revolute_7"@,
        r.has(25) && r.at(25) == "Revolute_15"@,
        // Left leg
        r.has(31) && r.at(31) == "L_hip_y"@,
        r.has(32) && r.at(32) == "L_hip_x"@,
        r.has(33) && r.at(33) == "L_hip_z"@,
        r.has(34) && r.at(34) == "L_knee"@,
        r.has(35) && r.at(35) == "L_ankle_y"@,
        // Right leg
        r.has(41) && r.at(41) == "R_hip_y"@,
        r.has(42) && r.at(42) == "R_hip_x"@,
        r.has(43) && r.at(43) == "R_hip_z"@,
        r.has(44) && r.at(44) == "R_knee"@,
        r.has(45) && r.at(45) == "R_ankle_y"@,
        r.entries@.len() == 20,
{
    let mut map = ActuatorJointMap { entries: Vec::new() };
    map.insert(11, "Revolute_2");
    map.insert(12, "Revolute_4");
    map.insert(13, "Revolute_5");
    map.insert(14, "Revolute_8");
    map.insert(15, "Revolute_16");
    map.insert(21, "Revolute_1");
    map.insert(22, "Revolute_3");
    map.insert(23, "Revolute_6");
    map.insert(24, "Revolute_7");
    map.insert(25, "Revolute_15");
    map.insert(31, "L_hip_y");
    map.insert(32, "L_hip_x");
    map.insert(33, "L_hip_z");
    map.insert(34, "L_knee");
    map.insert(35, "L_ankle_y");
    map.insert(41, "R_hip_y");
    map.insert(42, "R_hip_x");
    map.insert(43, "R_hip_z");
    map.insert(44, "R_knee");
    map.insert(45, "R_ankle_y");
    map
}

} // verus!
