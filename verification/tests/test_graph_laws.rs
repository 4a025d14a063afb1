use krecviz::bfs::build_link_bfs_map;
use krecviz::diag::debug_print_stl_load;
use krecviz::graph::{find_root_link_name, GraphError, Joint, Link, Robot};
use krecviz::mat::{
    build_4x4_from_xyz_rpy, decompose_4x4_to_translation_and_mat3x3,
    make_4x4_from_rotation_and_translation, rotation_from_euler_xyz,
};

fn bits3(a: [f32; 3]) -> [u32; 3] {
    [a[0].to_bits(), a[1].to_bits(), a[2].to_bits()]
}

fn link(name: &str) -> Link {
    Link {
        name: name.to_string(),
    }
}

fn joint(name: &str, parent: &str, child: &str, xyz: [f32; 3], rpy: [f32; 3]) -> Joint {
    Joint {
        name: name.to_string(),
        parent_link: parent.to_string(),
        child_link: child.to_string(),
        origin_xyz: bits3(xyz),
        origin_rpy: bits3(rpy),
    }
}

/// Root uniqueness, positive side: the one link with no incoming joint
/// is found.
#[test]
fn test_find_root_unique() {
    let links = vec![link("a"), link("b"), link("c")];
    let joints = vec![
        joint("j1", "a", "b", [0.0; 3], [0.0; 3]),
        joint("j2", "b", "c", [0.0; 3], [0.0; 3]),
    ];
    assert_eq!(find_root_link_name(&links, &joints), Some("a".to_string()));
}

/// Root uniqueness, negative side: every link a child means no root.
#[test]
fn test_find_root_none_when_no_candidate() {
    let links = vec![link("a"), link("b")];
    let joints = vec![
        joint("j1", "a", "b", [0.0; 3], [0.0; 3]),
        joint("j2", "b", "a", [0.0; 3], [0.0; 3]),
    ];
    assert_eq!(find_root_link_name(&links, &joints), None);
}

/// Root uniqueness, negative side: two parentless links are ambiguous.
#[test]
fn test_find_root_none_when_two_candidates() {
    let links = vec![link("a"), link("b"), link("c")];
    let joints = vec![joint("j1", "a", "c", [0.0; 3], [0.0; 3])];
    assert_eq!(find_root_link_name(&links, &joints), None);
}

/// A build on a rootless graph reports the defect, it does not default.
#[test]
fn test_build_bfs_no_root_error() {
    let links = vec![link("a"), link("b")];
    let joints = vec![
        joint("j1", "a", "b", [0.0; 3], [0.0; 3]),
        joint("j2", "b", "a", [0.0; 3], [0.0; 3]),
    ];
    let robot = Robot { links, joints };
    assert_eq!(build_link_bfs_map(&robot).err(), Some(GraphError::NoRoot));
}

/// A build with two root candidates names both of them.
#[test]
fn test_build_bfs_multiple_roots_error() {
    let links = vec![link("a"), link("b"), link("c")];
    let joints = vec![joint("j1", "a", "c", [0.0; 3], [0.0; 3])];
    let robot = Robot { links, joints };
    assert_eq!(
        build_link_bfs_map(&robot).err(),
        Some(GraphError::MultipleRoots("a".to_string(), "b".to_string()))
    );
}

/// Four-link chain base->A->B->C, each joint offset (0,0,1) with zero
/// rotation: C accumulates a global translation of (0,0,3).
#[test]
fn test_four_link_chain_global_translation() {
    let links = vec![link("base"), link("A"), link("B"), link("C")];
    let up = [0.0, 0.0, 1.0];
    let joints = vec![
        joint("j1", "base", "A", up, [0.0; 3]),
        joint("j2", "A", "B", up, [0.0; 3]),
        joint("j3", "B", "C", up, [0.0; 3]),
    ];
    let robot = Robot { links, joints };
    let (map, order) = build_link_bfs_map(&robot).expect("chain should build");
    assert_eq!(order, vec!["base", "A", "B", "C"]);
    assert_eq!(map.len(), 4);

    let c = map.get("C").expect("C should be placed");
    let tx = f32::from_bits(c.global_transform[3]);
    let ty = f32::from_bits(c.global_transform[7]);
    let tz = f32::from_bits(c.global_transform[11]);
    assert!((tx - 0.0).abs() < 1e-6, "C global X should be 0, got {}", tx);
    assert!((ty - 0.0).abs() < 1e-6, "C global Y should be 0, got {}", ty);
    assert!((tz - 3.0).abs() < 1e-6, "C global Z should be 3, got {}", tz);
    assert_eq!(c.link_only_path, "base/A/B/C");
}

/// Transform identity at root: both root transforms are exactly the
/// identity matrix, bit for bit.
#[test]
fn test_root_transforms_identity() {
    let links = vec![link("base"), link("arm")];
    let joints = vec![joint("j1", "base", "arm", [0.5, 0.0, 0.0], [0.1, 0.2, 0.3])];
    let robot = Robot { links, joints };
    let (map, _order) = build_link_bfs_map(&robot).expect("should build");
    let root = map.get("base").expect("root placed");
    let id: Vec<f32> = vec![
        1.0, 0.0, 0.0, 0.0,
        0.0, 1.0, 0.0, 0.0,
        0.0, 0.0, 1.0, 0.0,
        0.0, 0.0, 0.0, 1.0,
    ];
    let local: Vec<f32> = root.local_transform.iter().map(|&v| f32::from_bits(v)).collect();
    let global: Vec<f32> = root.global_transform.iter().map(|&v| f32::from_bits(v)).collect();
    assert_eq!(local, id, "root local_transform must be the identity");
    assert_eq!(global, id, "root global_transform must be the identity");
    assert_eq!(root.link_only_path, "base");
}

/// Determinism: supplying the joints in another order changes neither
/// the visit order nor any path, because children expand by name.
#[test]
fn test_bfs_shuffled_joints_same_result() {
    let links = vec![link("base"), link("m"), link("z"), link("a"), link("k")];
    let j1 = vec![
        joint("jm", "base", "m", [0.1, 0.0, 0.0], [0.0; 3]),
        joint("jz", "base", "z", [0.2, 0.0, 0.0], [0.0; 3]),
        joint("ja", "base", "a", [0.3, 0.0, 0.0], [0.0; 3]),
        joint("jk", "a", "k", [0.4, 0.0, 0.0], [0.0; 3]),
    ];
    let mut j2 = j1.clone();
    j2.reverse();
    let r1 = Robot { links: links.clone(), joints: j1 };
    let r2 = Robot { links, joints: j2 };
    let (m1, o1) = build_link_bfs_map(&r1).expect("first build");
    let (m2, o2) = build_link_bfs_map(&r2).expect("second build");
    assert_eq!(o1, vec!["base", "a", "m", "z", "k"]);
    assert_eq!(o1, o2, "visit order must not depend on joint order");
    for name in &o1 {
        let d1 = m1.get(name).expect("placed in first run");
        let d2 = m2.get(name).expect("placed in second run");
        assert_eq!(d1.link_only_path, d2.link_only_path);
        assert_eq!(d1.link_full_path, d2.link_full_path);
        assert_eq!(d1.global_transform, d2.global_transform);
    }
}

/// A link disconnected from the root is never placed; looking it up
/// reports "unreachable" by absence, not a defaulted transform.
#[test]
fn test_unreachable_link_absent() {
    let links = vec![link("base"), link("arm"), link("lost"), link("lost_child")];
    let joints = vec![
        joint("j1", "base", "arm", [0.0; 3], [0.0; 3]),
        joint("j2", "lost", "lost_child", [0.0; 3], [0.0; 3]),
    ];
    // "lost" has no incoming joint either, so the root is ambiguous;
    // connect it as its own island below a second joint to keep one root.
    // Here instead: base -> arm, and lost -> lost_child forms an island;
    // find_root sees two candidates, so the build reports the ambiguity.
    let robot = Robot { links, joints };
    assert_eq!(
        build_link_bfs_map(&robot).err(),
        Some(GraphError::MultipleRoots("base".to_string(), "lost".to_string()))
    );

    // With the island pointed at by a cycle, only "base" qualifies as
    // root, and the island stays out of the placement map.
    let links = vec![link("base"), link("arm"), link("lost"), link("lost_child")];
    let joints = vec![
        joint("j1", "base", "arm", [0.0; 3], [0.0; 3]),
        joint("j2", "lost", "lost_child", [0.0; 3], [0.0; 3]),
        joint("j3", "lost_child", "lost", [0.0; 3], [0.0; 3]),
    ];
    let robot = Robot { links, joints };
    let (map, order) = build_link_bfs_map(&robot).expect("base is the unique root");
    assert_eq!(order, vec!["base", "arm"]);
    assert!(map.get("lost").is_none(), "unreachable link must have no placement");
    assert!(map.get("lost_child").is_none(), "unreachable link must have no placement");
}

/// Round trip: decomposing a built transform recovers the translation
/// exactly and the rotation entries in column-major order.
#[test]
fn test_round_trip_build_decompose() {
    let xyz = bits3([2.5, -3.25, 5.125]);
    let rpy = bits3([0.4, -1.1, 2.2]);
    let rot = rotation_from_euler_xyz(rpy[0], rpy[1], rpy[2]);
    let tf = build_4x4_from_xyz_rpy(xyz, rpy);
    let (t, _m) = decompose_4x4_to_translation_and_mat3x3(tf);
    assert_eq!(t, xyz, "translation must come back bit for bit");

    // The same rotation embedded through make_4x4 comes back transposed
    // (row-major reread column-major), exactly.
    let tf2 = make_4x4_from_rotation_and_translation(rot, xyz);
    let (t2, m2) = decompose_4x4_to_translation_and_mat3x3(tf2);
    assert_eq!(t2, xyz);
    let transposed = [
        rot[0], rot[3], rot[6],
        rot[1], rot[4], rot[7],
        rot[2], rot[5], rot[8],
    ];
    assert_eq!(m2, transposed, "rotation must come back as its transpose layout");
}

/// Path correctness: a link at depth d lists d+1 link names, the root
/// first and itself last.
#[test]
fn test_path_depth() {
    let links = vec![link("root"), link("mid"), link("leaf")];
    let joints = vec![
        joint("j1", "root", "mid", [0.0; 3], [0.0; 3]),
        joint("j2", "mid", "leaf", [0.0; 3], [0.0; 3]),
    ];
    let robot = Robot { links, joints };
    let (map, _order) = build_link_bfs_map(&robot).expect("should build");
    let leaf = map.get("leaf").expect("leaf placed");
    // depth 2 => 3 names
    let parts: Vec<&str> = leaf.link_only_path.split('/').collect();
    assert_eq!(parts, vec!["root", "mid", "leaf"]);
    let full: Vec<&str> = leaf.link_full_path.split('/').collect();
    assert_eq!(full, vec!["root", "j1", "mid", "j2", "leaf"]);
}

/// The STL diagnostic line carries the path it was given.
#[test]
fn test_debug_print_stl_load_message() {
    let line = debug_print_stl_load("meshes/base.stl");
    assert_eq!(line, "Loading STL file: meshes/base.stl");
}
