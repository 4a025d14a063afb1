//! Breadth-first placement of every link reachable from the root.
//!
//! Starting at the root link, the traversal assigns each link a
//! deterministic visit position, a slash-separated entity path, and an
//! accumulated transform: the root gets the identity, and every child
//! gets `parent's global transform * its own local joint transform`.
//! Children of one link are expanded in lexicographic order of their
//! names, so the outcome does not depend on the order of the joint list.

use vstd::prelude::*;
use vstd::string::StringExecFns;

use crate::graph::{Adjacency, Joint, Link, Robot, GraphError, is_child_name, is_edge, root_candidates,
    edge_indices_of, build_adjacency, lemma_edge_indices_sound, lemma_root_candidates_step};
use crate::lexorder::{lex_leq, str_le, str_eq, lemma_lex_leq_total, lemma_lex_leq_transitive};
use crate::mat::{identity_4x4, identity4_spec, mat4x4_mul, mat4_mul_spec, build_4x4_from_xyz_rpy,
    is_euler_transform_of, ZERO_BITS};

verus! {

broadcast use vstd::seq_lib::group_to_multiset_ensures;

/// Everything the traversal assigns to one link: its name, its entity
/// paths, the offset from its parent, and its transforms.  The `chain`
/// holds, for the proof, the link names from the root down to this link;
/// `link_only_path` is exactly that chain joined with slashes.
#[derive(Clone)]
pub struct LinkBfsData {
    /// The name of this link (also the lookup key).
    pub link_name: String,
    /// Slash-separated path of link names only, e.g. `base/arm/hand`.
    pub link_only_path: String,
    /// Slash-separated path alternating link and joint names, for
    /// diagnostics.
    pub link_full_path: String,
    /// Roll-pitch-yaw of the incoming joint; +0.0 for the root.
    pub local_rpy: [u32; 3],
    /// Translation of the incoming joint; +0.0 for the root.
    pub local_translation: [u32; 3],
    /// Transform from the parent link; identity for the root.
    pub local_transform: [u32; 16],
    /// Accumulated transform from the root; identity for the root.
    pub global_transform: [u32; 16],
    /// The link names from the root to this link, for specification.
    pub chain: Ghost<Seq<Seq<char>>>,
}

/// The placement map, keyed by link name.  Entries are kept in visit
/// order and names never repeat.
pub struct LinkMap {
    pub entries: Vec<LinkBfsData>,
}

impl LinkMap {
    /// The key (link name) of each entry, in insertion order.
    pub open spec fn key_seq(self) -> Seq<Seq<char>> {
        self.entries@.map_values(|d: LinkBfsData| d.link_name@)
    }

    /// Keys never repeat.
    pub open spec fn wf(self) -> bool {
        forall|i: int, j: int|
            0 <= i < j < self.key_seq().len() ==> self.key_seq()[i] != self.key_seq()[j]
    }

    /// Whether a link has a placement.
    pub open spec fn has(self, k: Seq<char>) -> bool {
        exists|i: int| 0 <= i < self.key_seq().len() && #[trigger] self.key_seq()[i] == k
    }

    /// The entry position of a link's placement.
    pub open spec fn index_of(self, k: Seq<char>) -> int {
        choose|i: int| 0 <= i < self.key_seq().len() && #[trigger] self.key_seq()[i] == k
    }

    /// A link's placement.
    pub open spec fn at(self, k: Seq<char>) -> LinkBfsData {
        self.entries@[self.index_of(k)]
    }

    /// Appending a placement under a fresh name keeps the map well formed,
    /// keeps every present placement, and makes the new one retrievable.
    pub proof fn lemma_push(self, m2: LinkMap, d: LinkBfsData)
        requires
            self.wf(),
            !self.has(d.link_name@),
            m2.entries@ == self.entries@.push(d),
        ensures
            m2.wf(),
            m2.has(d.link_name@),
            m2.at(d.link_name@) == d,
            forall|k: Seq<char>| self.has(k) ==> #[trigger] m2.has(k) && m2.at(k) == self.at(k),
            forall|k: Seq<char>| #[trigger] m2.has(k) == (self.has(k) || k == d.link_name@),
    {
        assert(m2.key_seq() =~= self.key_seq().push(d.link_name@));
        let n = self.key_seq().len() as int;
        assert(m2.key_seq()[n] == d.link_name@);
        assert(m2.wf()) by {
            assert forall|i: int, j: int|
                0 <= i < j < m2.key_seq().len() implies m2.key_seq()[i] != m2.key_seq()[j] by {
                if j < n {
                    assert(m2.key_seq()[i] == self.key_seq()[i]);
                    assert(m2.key_seq()[j] == self.key_seq()[j]);
                } else {
                    assert(m2.key_seq()[i] == self.key_seq()[i]);
                    if self.key_seq()[i] == d.link_name@ {
                        assert(self.has(d.link_name@));
                    }
                }
            }
        }
        assert(m2.index_of(d.link_name@) == n) by {
            let t = m2.index_of(d.link_name@);
            if t < n {
                assert(m2.key_seq()[t] == self.key_seq()[t]);
                assert(self.has(d.link_name@));
            }
        }
        assert forall|k: Seq<char>| self.has(k) implies #[trigger] m2.has(k) && m2.at(k) == self.at(
            k,
        ) by {
            let i = self.index_of(k);
            assert(self.key_seq()[i] == k);
            assert(m2.key_seq()[i] == k);
            let t = m2.index_of(k);
            assert(m2.key_seq()[t] == k);
            if t != i {
                assert(t < n || i < n);
                if t == n {
                    assert(k == d.link_name@);
                    assert(self.has(d.link_name@));
                }
            }
        }
        assert forall|k: Seq<char>| #[trigger] m2.has(k) == (self.has(k) || k == d.link_name@) by {
            if m2.has(k) {
                let t = m2.index_of(k);
                assert(m2.key_seq()[t] == k);
                if t < n {
                    assert(self.key_seq()[t] == k);
                }
            } else {
                if self.has(k) {
                    let i = self.index_of(k);
                    assert(self.key_seq()[i] == k);
                    assert(m2.key_seq()[i] == k);
                }
            }
        }
    }

    /// Looks up the placement of the link called `name`.
    pub fn get(&self, name: &str) -> (r: Option<&LinkBfsData>)
        requires
            self.wf(),
        ensures
            match r {
                Option::Some(d) => self.has(name@) && *d == self.at(name@),
                Option::None => !self.has(name@),
            },
    {
        let n = self.entries.len();
        let mut i: usize = 0;
        while i < n
            invariant
                i <= n,
                n == self.entries@.len(),
                self.wf(),
                forall|j: int| 0 <= j < i ==> self.key_seq()[j] != name@,
            decreases n - i,
        {
            if str_eq(self.entries[i].link_name.as_str(), name) {
                proof {
                    assert(self.key_seq()[i as int] == name@);
                    assert(self.index_of(name@) == i as int);
                }
                return Some(&self.entries[i]);
            }
            i = i + 1;
        }
        None
    }

    /// The number of placed links.
    pub fn len(&self) -> (r: usize)
        ensures
            r == self.entries@.len(),
    {
        self.entries.len()
    }
}

/// `base`, a slash, then `leaf`.
pub fn path_join(base: &str, leaf: &str) -> (r: String)
    ensures
        r@ == base@ + seq!['/'] + leaf@,
{
    let mut s: String = base.to_owned();
    s.append("/");
    s.append(leaf);
    proof {
        reveal_strlit("/");
        assert("/"@ =~= seq!['/']);
        assert(s@ =~= base@ + seq!['/'] + leaf@);
    }
    s
}

/// What the root's placement looks like: paths equal to the bare root
/// name, zero offsets, identity transforms, and the one-link chain.
pub open spec fn root_entry_ok(root: Seq<char>, d: LinkBfsData) -> bool {
    &&& d.link_name@ == root
    &&& d.link_only_path@ == root
    &&& d.link_full_path@ == root
    &&& d.chain@ == seq![root]
    &&& d.local_rpy@ == seq![ZERO_BITS, ZERO_BITS, ZERO_BITS]
    &&& d.local_translation@ == seq![ZERO_BITS, ZERO_BITS, ZERO_BITS]
    &&& d.local_transform@ == identity4_spec()
    &&& d.global_transform@ == identity4_spec()
}

/// What a non-root placement looks like, through the joint at position
/// `ji`: the joint points at this link, its parent is placed, the paths
/// and the chain extend the parent's by one step, the local offset is the
/// joint's origin, the local transform embeds that offset, and the global
/// transform composes the parent's global with the local one.
pub open spec fn child_entry_via(joints: Seq<Joint>, m: LinkMap, d: LinkBfsData, ji: int) -> bool {
    &&& 0 <= ji < joints.len()
    &&& joints[ji].child_link@ == d.link_name@
    &&& m.has(joints[ji].parent_link@)
    &&& {
        let p = m.at(joints[ji].parent_link@);
        &&& d.chain@ == p.chain@.push(d.link_name@)
        &&& d.link_only_path@ == p.link_only_path@ + seq!['/'] + d.link_name@
        &&& d.link_full_path@ == p.link_full_path@ + seq!['/'] + joints[ji].name@ + seq!['/']
            + d.link_name@
        &&& d.local_translation@ == joints[ji].origin_xyz@
        &&& d.local_rpy@ == joints[ji].origin_rpy@
        &&& is_euler_transform_of(d.local_transform@, joints[ji].origin_xyz@)
        &&& d.global_transform@ == mat4_mul_spec(p.global_transform@, d.local_transform@)
    }
}

/// A non-root placement is reached through some joint.
pub open spec fn child_entry_ok(joints: Seq<Joint>, m: LinkMap, d: LinkBfsData) -> bool {
    exists|ji: int| #[trigger] child_entry_via(joints, m, d, ji)
}

/// Every placement is a well-formed root or child placement.
pub open spec fn map_entries_ok(root: Seq<char>, joints: Seq<Joint>, m: LinkMap) -> bool {
    forall|i: int|
        0 <= i < m.entries@.len() ==> {
            let d = #[trigger] m.entries@[i];
            if d.link_name@ == root {
                root_entry_ok(root, d)
            } else {
                child_entry_ok(joints, m, d)
            }
        }
}

/// Growing the map by a fresh placement keeps every placement well
/// formed, because present placements only mention parents already in
/// the map, which the growth preserves.
#[verifier::rlimit(50)]
proof fn lemma_entries_ok_push(root: Seq<char>, joints: Seq<Joint>, m: LinkMap, m2: LinkMap, d: LinkBfsData)
    requires
        m.wf(),
        !m.has(d.link_name@),
        m2.entries@ == m.entries@.push(d),
        map_entries_ok(root, joints, m),
        if d.link_name@ == root {
            root_entry_ok(root, d)
        } else {
            child_entry_ok(joints, m, d)
        },
    ensures
        map_entries_ok(root, joints, m2),
{
    m.lemma_push(m2, d);
    assert forall|i: int| 0 <= i < m2.entries@.len() implies {
        let e = #[trigger] m2.entries@[i];
        if e.link_name@ == root {
            root_entry_ok(root, e)
        } else {
            child_entry_ok(joints, m2, e)
        }
    } by {
        let e = m2.entries@[i];
        if i < m.entries@.len() {
            assert(e == m.entries@[i]);
            if e.link_name@ != root {
                assert(child_entry_ok(joints, m, e));
                let ji = choose|ji: int| #[trigger] child_entry_via(joints, m, e, ji);
                assert(m.has(joints[ji].parent_link@));
                assert(m2.has(joints[ji].parent_link@));
                assert(m2.at(joints[ji].parent_link@) == m.at(joints[ji].parent_link@));
                assert(child_entry_via(joints, m2, e, ji));
            }
        } else {
            assert(e == d);
            if e.link_name@ != root {
                assert(child_entry_ok(joints, m, e));
                let ji = choose|ji: int| #[trigger] child_entry_via(joints, m, e, ji);
                assert(m.has(joints[ji].parent_link@));
                assert(m2.has(joints[ji].parent_link@));
                assert(m2.at(joints[ji].parent_link@) == m.at(joints[ji].parent_link@));
                assert(child_entry_via(joints, m2, e, ji));
            }
        }
    }
}

/// The names every placement key can come from: the root, or the child
/// of some joint.  Since keys never repeat, the map can never hold more
/// than one placement per joint plus the root.
proof fn lemma_map_len_bound(root: Seq<char>, joints: Seq<Joint>, m: LinkMap)
    requires
        m.wf(),
        map_entries_ok(root, joints, m),
    ensures
        m.entries@.len() <= 1 + joints.len(),
{
    let keys = m.key_seq();
    let child_names = joints.map_values(|j: Joint| j.child_link@);
    assert(keys.no_duplicates());
    keys.unique_seq_to_set();
    child_names.lemma_cardinality_of_set();
    let allowed = child_names.to_set().insert(root);
    assert(keys.to_set().subset_of(allowed)) by {
        assert forall|k: Seq<char>| keys.to_set().contains(k) implies allowed.contains(k) by {
            let i = choose|i: int| 0 <= i < keys.len() && keys[i] == k;
            assert(m.entries@[i].link_name@ == k);
            if k != root {
                let ji = choose|ji: int| #[trigger] child_entry_via(joints, m, m.entries@[i], ji);
                assert(child_names[ji] == k);
                assert(child_names.to_set().contains(k));
            }
        }
    }
    assert(allowed.finite() && allowed.len() <= child_names.len() + 1) by {
        assert(child_names.to_set().finite());
    }
    vstd::set_lib::lemma_len_subset(keys.to_set(), allowed);
    assert(keys.len() == keys.to_set().len());
    assert(child_names.len() == joints.len());
}

/// Reorders joint positions so that the child names they point at come
/// lexicographically, keeping exactly the same positions.
fn sort_edge_indices(joints: &Vec<Joint>, idxs: &Vec<usize>) -> (r: Vec<usize>)
    requires
        forall|t: int| 0 <= t < idxs@.len() ==> #[trigger] idxs@[t] < joints@.len(),
    ensures
        r@.to_multiset() == idxs@.to_multiset(),
        r@.len() == idxs@.len(),
        forall|x: usize| #[trigger] r@.contains(x) == idxs@.contains(x),
        forall|t: int| 0 <= t < r@.len() ==> #[trigger] r@[t] < joints@.len(),
        forall|a: int, b: int|
            0 <= a < b < r@.len() ==> lex_leq(
                joints@[#[trigger] r@[a] as int].child_link@,
                joints@[#[trigger] r@[b] as int].child_link@,
            ),
{
    let n = idxs.len();
    let mut out: Vec<usize> = Vec::new();
    let mut i: usize = 0;
    proof {
        assert(idxs@.take(0) =~= Seq::<usize>::empty());
        assert(out@.to_multiset() =~= idxs@.take(0).to_multiset());
    }
    while i < n
        invariant
            i <= n,
            n == idxs@.len(),
            forall|t: int| 0 <= t < idxs@.len() ==> #[trigger] idxs@[t] < joints@.len(),
            out@.to_multiset() == idxs@.take(i as int).to_multiset(),
            out@.len() == i,
            forall|t: int| 0 <= t < out@.len() ==> #[trigger] out@[t] < joints@.len(),
            forall|a: int, b: int|
                0 <= a < b < out@.len() ==> lex_leq(
                    joints@[#[trigger] out@[a] as int].child_link@,
                    joints@[#[trigger] out@[b] as int].child_link@,
                ),
        decreases n - i,
    {
        let x = idxs[i];
        let mut pos: usize = 0;
        while pos < out.len() && str_le(joints[out[pos]].child_link.as_str(), joints[x].child_link.as_str())
            invariant
                pos <= out@.len(),
                x < joints@.len(),
                x == idxs@[i as int],
                i < idxs@.len(),
                forall|t: int| 0 <= t < out@.len() ==> #[trigger] out@[t] < joints@.len(),
                forall|t: int|
                    0 <= t < pos ==> lex_leq(
                        joints@[#[trigger] out@[t] as int].child_link@,
                        joints@[x as int].child_link@,
                    ),
            decreases out@.len() - pos,
        {
            pos = pos + 1;
        }
        let ghost xname = joints@[x as int].child_link@;
        proof {
            if (pos as int) < out@.len() {
                assert(!lex_leq(joints@[out@[pos as int] as int].child_link@, xname));
                lemma_lex_leq_total(joints@[out@[pos as int] as int].child_link@, xname);
                assert(lex_leq(xname, joints@[out@[pos as int] as int].child_link@));
            }
        }
        let ghost old_out = out@;
        out.insert(pos, x);
        proof {
            assert(out@ =~= old_out.take(pos as int).push(x) + old_out.skip(pos as int));
            // multiset bookkeeping
            assert(old_out =~= old_out.take(pos as int) + old_out.skip(pos as int));
            vstd::seq_lib::lemma_multiset_commutative(old_out.take(pos as int), old_out.skip(pos as int));
            vstd::seq_lib::lemma_multiset_commutative(
                old_out.take(pos as int).push(x),
                old_out.skip(pos as int),
            );
            assert(old_out.take(pos as int).push(x).to_multiset() =~= old_out.take(
                pos as int,
            ).to_multiset().insert(x));
            assert(idxs@.take(i + 1).drop_last() =~= idxs@.take(i as int));
            assert(idxs@.take(i + 1) =~= idxs@.take(i as int).push(x));
            assert(out@.to_multiset() =~= idxs@.take(i + 1).to_multiset());
            // sortedness bookkeeping
            let p = pos as int;
            assert forall|a: int, b: int|
                0 <= a < b < out@.len() implies lex_leq(
                joints@[#[trigger] out@[a] as int].child_link@,
                joints@[#[trigger] out@[b] as int].child_link@,
            ) by {
                if b < p {
                    assert(out@[a] == old_out[a]);
                    assert(out@[b] == old_out[b]);
                } else if a < p && b == p {
                    assert(out@[a] == old_out[a]);
                    assert(out@[b] == x);
                } else if a < p && b > p {
                    assert(out@[a] == old_out[a]);
                    assert(out@[b] == old_out[b - 1]);
                    if b - 1 == a {
                        assert(lex_leq(
                            joints@[old_out[a] as int].child_link@,
                            joints@[x as int].child_link@,
                        ));
                        lemma_lex_leq_total(
                            joints@[old_out[a] as int].child_link@,
                            joints@[old_out[b - 1] as int].child_link@,
                        );
                    }
                } else if a == p && b > p {
                    assert(out@[a] == x);
                    assert(out@[b] == old_out[b - 1]);
                    assert(p < old_out.len());
                    if b - 1 == p {
                        assert(lex_leq(xname, joints@[old_out[p] as int].child_link@));
                    } else {
                        lemma_lex_leq_transitive(
                            xname,
                            joints@[old_out[p] as int].child_link@,
                            joints@[old_out[b - 1] as int].child_link@,
                        );
                    }
                } else {
                    assert(a > p && b > p);
                    assert(out@[a] == old_out[a - 1]);
                    assert(out@[b] == old_out[b - 1]);
                }
            }
        }
        i = i + 1;
    }
    proof {
        assert(idxs@.take(n as int) =~= idxs@);
        out@.to_multiset_ensures();
        idxs@.to_multiset_ensures();
        assert forall|x: usize| #[trigger] out@.contains(x) == idxs@.contains(x) by {
            assert(out@.contains(x) == (out@.to_multiset().count(x) > 0));
            assert(idxs@.contains(x) == (idxs@.to_multiset().count(x) > 0));
        }
    }
    out
}


/// The character sequences of a list of strings.
pub open spec fn order_names(order: Seq<String>) -> Seq<Seq<char>> {
    order.map_values(|s: String| s@)
}

/// A placement run's outcome: keys are exactly the visit order, the
/// first visited link is the root, every placement is well formed, and
/// every edge out of a placed link leads to a placed link.
pub open spec fn bfs_post(joints: Seq<Joint>, root: Seq<char>, m: LinkMap, order: Seq<Seq<char>>) -> bool {
    &&& m.wf()
    &&& map_entries_ok(root, joints, m)
    &&& m.key_seq() == order
    &&& order.len() >= 1
    &&& order[0] == root
    &&& m.has(root)
    &&& forall|ji: int|
        0 <= ji < joints.len() && m.has(#[trigger] joints[ji].parent_link@) ==> m.has(
            joints[ji].child_link@,
        )
}

/// The candidates of a prefix of the link list open the full candidate
/// list.
pub proof fn lemma_root_candidates_prefix(links: Seq<Link>, joints: Seq<Joint>, i: int, j: int)
    requires
        0 <= i <= j <= links.len(),
    ensures
        root_candidates(links.take(i), joints).is_prefix_of(root_candidates(links.take(j), joints)),
    decreases j - i,
{
    let ci = root_candidates(links.take(i), joints);
    let cj = root_candidates(links.take(j), joints);
    if i == j {
        assert(ci =~= cj.take(ci.len() as int));
    } else {
        lemma_root_candidates_step(links, joints, i);
        lemma_root_candidates_prefix(links, joints, i + 1, j);
        let c1 = root_candidates(links.take(i + 1), joints);
        assert(c1 =~= cj.take(c1.len() as int));
        assert(ci =~= cj.take(ci.len() as int));
    }
}

/// Builds the breadth-first placement map and the visit order for a
/// robot description.  Fails, naming the defect, when the root is not
/// unique.  A link unreachable from the root gets no placement: a
/// missing lookup afterwards means "unreachable", never a default.
/// The state invariants the traversal maintains between expansions.
pub open spec fn bfs_state_ok(
    joints: Seq<Joint>,
    root: Seq<char>,
    m: LinkMap,
    order: Seq<String>,
) -> bool {
    &&& m.wf()
    &&& map_entries_ok(root, joints, m)
    &&& m.key_seq() == order_names(order)
    &&& order.len() >= 1
    &&& order_names(order)[0] == root
    &&& m.has(root)
    &&& order.len() <= 1 + joints.len()
}

/// Expands one visited link: places each of its children, in
/// lexicographic order of their names, that has no placement yet.
#[verifier::rlimit(100)]
fn expand_parent(
    joints: &Vec<Joint>,
    adjacency: &Adjacency,
    map: &mut LinkMap,
    order: &mut Vec<String>,
    parent_name: &str,
    Ghost(rootv): Ghost<Seq<char>>,
)
    requires
        bfs_state_ok(joints@, rootv, *old(map), old(order)@),
        adjacency.wf(),
        forall|k: Seq<char>| #[trigger] adjacency.edges(k) == edge_indices_of(joints@, k),
        forall|k: Seq<char>|
            #[trigger] adjacency.has_key(k) == (edge_indices_of(joints@, k).len() > 0),
        old(map).has(parent_name@),
    ensures
        bfs_state_ok(joints@, rootv, *final(map), final(order)@),
        forall|k: Seq<char>|
            old(map).has(k) ==> #[trigger] final(map).has(k) && final(map).at(k) == old(map).at(k),
        parent_processed(joints@, *final(map), parent_name@),
        final(order)@.len() >= old(order)@.len(),
        forall|i: int| 0 <= i < old(order)@.len() ==> #[trigger] final(order)@[i] == old(order)@[i],
{
    let ghost jointsv = joints@;
    let ghost parentv = parent_name@;
    let ghost order0 = order@;
    let ghost map0 = *map;
    let (p_only, p_full, p_global, p_chain) = match map.get(parent_name) {
        Some(d) => {
            let ghost c: Seq<Seq<char>> = d.chain@;
            (d.link_only_path.clone(), d.link_full_path.clone(), d.global_transform, Ghost(c))
        },
        None => {
            proof {
                assert(false);
            }
            let ghost c: Seq<Seq<char>> = Seq::empty();
            (String::new(), String::new(), identity_4x4(), Ghost(c))
        },
    };
    match adjacency.get(parent_name) {
        Some(child_idxs) => {
            proof {
                lemma_edge_indices_sound(jointsv, parentv);
                assert forall|t: int|
                    0 <= t < child_idxs@.len() implies #[trigger] child_idxs@[t]
                    < jointsv.len() by {
                    assert(child_idxs@.map_values(|u: usize| u as int)[t] == edge_indices_of(
                        jointsv,
                        parentv,
                    )[t]);
                }
            }
            let sorted = sort_edge_indices(joints, child_idxs);
            let ghost sortedv = sorted@;
            let ghost idxsv = child_idxs@;
            proof {
                assert forall|tt: int|
                    0 <= tt < sortedv.len() implies jointsv[#[trigger] sortedv[tt] as int].parent_link@
                    == parentv by {
                    assert(sortedv.contains(sortedv[tt]));
                    assert(idxsv.contains(sortedv[tt]));
                    let w = choose|w: int| 0 <= w < idxsv.len() && idxsv[w] == sortedv[tt];
                    assert(idxsv.map_values(|u: usize| u as int)[w] == edge_indices_of(
                        jointsv,
                        parentv,
                    )[w]);
                }
            }
            let ns = sorted.len();
            let mut t: usize = 0;
            while t < ns
                invariant
                    t <= ns,
                    ns == sortedv.len(),
                    sorted@ == sortedv,
                    jointsv == joints@,
                    forall|tt: int| 0 <= tt < sortedv.len() ==> #[trigger] sortedv[tt] < jointsv.len(),
                    forall|tt: int|
                        0 <= tt < sortedv.len() ==> jointsv[#[trigger] sortedv[tt] as int].parent_link@
                            == parentv,
                    bfs_state_ok(jointsv, rootv, *map, order@),
                    map.has(parentv),
                    p_only@ == map.at(parentv).link_only_path@,
                    p_full@ == map.at(parentv).link_full_path@,
                    p_global@ == map.at(parentv).global_transform@,
                    p_chain@ == map.at(parentv).chain@,
                    forall|k: Seq<char>|
                        map0.has(k) ==> #[trigger] map.has(k) && map.at(k) == map0.at(k),
                    order@.len() >= order0.len(),
                    forall|i: int| 0 <= i < order0.len() ==> #[trigger] order@[i] == order0[i],
                    forall|tt: int|
                        0 <= tt < t ==> map.has(jointsv[#[trigger] sortedv[tt] as int].child_link@),
                decreases ns - t,
            {
                let ghost m_pre = *map;
                let ghost ord_pre = order@;
                let ji = sorted[t];
                place_child(joints, map, order, ji, &p_only, &p_full, p_global, p_chain,
                    Ghost(rootv), Ghost(parentv));
                proof {
                    assert(map.has(parentv));
                    assert(map.at(parentv) == m_pre.at(parentv));
                    assert forall|k: Seq<char>|
                        map0.has(k) implies #[trigger] map.has(k) && map.at(k) == map0.at(k) by {
                        assert(m_pre.has(k));
                        assert(map.has(k));
                    }
                    assert forall|i: int| 0 <= i < order0.len() implies #[trigger] order@[i]
                        == order0[i] by {
                        assert(ord_pre[i] == order0[i]);
                    }
                    assert forall|tt: int| 0 <= tt < t + 1 implies map.has(
                        jointsv[#[trigger] sortedv[tt] as int].child_link@,
                    ) by {
                        if tt < t {
                            assert(m_pre.has(jointsv[sortedv[tt] as int].child_link@));
                            assert(map.has(jointsv[sortedv[tt] as int].child_link@));
                        } else {
                            assert(sortedv[tt] == ji);
                        }
                    }
                }
                t = t + 1;
            }
            proof {
                assert(parent_processed(jointsv, *map, parentv)) by {
                    assert forall|ji2: int|
                        0 <= ji2 < jointsv.len() && jointsv[ji2].parent_link@
                            == parentv implies map.has(#[trigger] jointsv[ji2].child_link@) by {
                        assert(edge_indices_of(jointsv, parentv).contains(ji2));
                        let w = choose|w: int|
                            0 <= w < edge_indices_of(jointsv, parentv).len() && edge_indices_of(
                                jointsv,
                                parentv,
                            )[w] == ji2;
                        assert(idxsv.map_values(|u: usize| u as int)[w] == ji2);
                        assert(idxsv[w] as int == ji2);
                        assert(idxsv[w] == ji2 as usize);
                        assert(idxsv.contains(ji2 as usize));
                        assert(sortedv.contains(ji2 as usize));
                        let tt = choose|tt: int|
                            0 <= tt < sortedv.len() && sortedv[tt] == ji2 as usize;
                        assert(map.has(jointsv[sortedv[tt] as int].child_link@));
                    }
                }
            }
        },
        None => {
            proof {
                assert(edge_indices_of(jointsv, parentv).len() == 0);
                lemma_edge_indices_sound(jointsv, parentv);
                assert(parent_processed(jointsv, *map, parentv)) by {
                    assert forall|ji2: int|
                        0 <= ji2 < jointsv.len() && jointsv[ji2].parent_link@
                            == parentv implies map.has(#[trigger] jointsv[ji2].child_link@) by {
                        assert(edge_indices_of(jointsv, parentv).contains(ji2));
                    }
                }
            }
        },
    }
}

/// Places the child of the joint at position `ji` under its parent's
/// placement, unless that child is already placed.
#[verifier::rlimit(100)]
fn place_child(
    joints: &Vec<Joint>,
    map: &mut LinkMap,
    order: &mut Vec<String>,
    ji: usize,
    p_only: &String,
    p_full: &String,
    p_global: [u32; 16],
    p_chain: Ghost<Seq<Seq<char>>>,
    Ghost(rootv): Ghost<Seq<char>>,
    Ghost(parentv): Ghost<Seq<char>>,
)
    requires
        bfs_state_ok(joints@, rootv, *old(map), old(order)@),
        ji < joints@.len(),
        joints@[ji as int].parent_link@ == parentv,
        old(map).has(parentv),
        p_only@ == old(map).at(parentv).link_only_path@,
        p_full@ == old(map).at(parentv).link_full_path@,
        p_global@ == old(map).at(parentv).global_transform@,
        p_chain@ == old(map).at(parentv).chain@,
    ensures
        bfs_state_ok(joints@, rootv, *final(map), final(order)@),
        forall|k: Seq<char>|
            old(map).has(k) ==> #[trigger] final(map).has(k) && final(map).at(k) == old(map).at(k),
        final(map).has(joints@[ji as int].child_link@),
        final(order)@.len() >= old(order)@.len(),
        forall|i: int| 0 <= i < old(order)@.len() ==> #[trigger] final(order)@[i] == old(order)@[i],
{
    let ghost jointsv = joints@;
    let absent = map.get(joints[ji].child_link.as_str()).is_none();
    if absent {
        let local_tf = build_4x4_from_xyz_rpy(joints[ji].origin_xyz, joints[ji].origin_rpy);
        let global_tf = mat4x4_mul(p_global, local_tf);
        let child_only = path_join(p_only.as_str(), joints[ji].child_link.as_str());
        let with_joint = path_join(p_full.as_str(), joints[ji].name.as_str());
        let child_full = path_join(with_joint.as_str(), joints[ji].child_link.as_str());
        let ghost child_chain: Seq<Seq<char>> = p_chain@.push(joints@[ji as int].child_link@);
        let data = LinkBfsData {
            link_name: joints[ji].child_link.clone(),
            link_only_path: child_only,
            link_full_path: child_full,
            local_rpy: joints[ji].origin_rpy,
            local_translation: joints[ji].origin_xyz,
            local_transform: local_tf,
            global_transform: global_tf,
            chain: Ghost(child_chain),
        };
        let ghost old_map = *map;
        let ghost old_order = order@;
        proof {
            let jiv = ji as int;
            assert(data.local_rpy@ =~= jointsv[jiv].origin_rpy@);
            assert(data.local_translation@ =~= jointsv[jiv].origin_xyz@);
            assert(data.link_full_path@ =~= old_map.at(parentv).link_full_path@ + seq!['/']
                + jointsv[jiv].name@ + seq!['/'] + data.link_name@);
            assert(child_entry_via(jointsv, old_map, data, jiv));
            assert(child_entry_ok(jointsv, old_map, data));
        }
        map.entries.push(data);
        order.push(joints[ji].child_link.clone());
        proof {
            old_map.lemma_push(*map, data);
            lemma_entries_ok_push(rootv, jointsv, old_map, *map, data);
            assert(map.key_seq() =~= old_map.key_seq().push(data.link_name@));
            assert(order_names(order@) =~= order_names(old_order).push(data.link_name@));
            assert(map.key_seq() =~= order_names(order@));
            assert(order_names(order@)[0] == rootv);
            assert(map.has(rootv));
            lemma_map_len_bound(rootv, jointsv, *map);
        }
    }
}

#[verifier::rlimit(100)]
pub fn build_link_bfs_map(robot: &Robot) -> (r: Result<(LinkMap, Vec<String>), GraphError>)
    ensures
        match r {
            Result::Ok(res) => {
                &&& root_candidates(robot.links@, robot.joints@).len() == 1
                &&& bfs_post(
                    robot.joints@,
                    root_candidates(robot.links@, robot.joints@)[0],
                    res.0,
                    order_names(res.1@),
                )
            },
            Result::Err(GraphError::NoRoot) => root_candidates(robot.links@, robot.joints@).len()
                == 0,
            Result::Err(GraphError::MultipleRoots(a, b)) => {
                &&& root_candidates(robot.links@, robot.joints@).len() >= 2
                &&& a@ == root_candidates(robot.links@, robot.joints@)[0]
                &&& b@ == root_candidates(robot.links@, robot.joints@)[1]
            },
        },
{
    let ghost linksv = robot.links@;
    let ghost jointsv = robot.joints@;
    // 1) Identify the root, reporting zero or several candidates.
    let nl = robot.links.len();
    let mut first: Option<String> = None;
    let mut i: usize = 0;
    while i < nl
        invariant
            i <= nl,
            nl == linksv.len(),
            linksv == robot.links@,
            jointsv == robot.joints@,
            match first {
                Option::Some(name) => root_candidates(linksv.take(i as int), jointsv) == seq![
                    name@,
                ],
                Option::None => root_candidates(linksv.take(i as int), jointsv).len() == 0,
            },
        decreases nl - i,
    {
        proof {
            lemma_root_candidates_step(linksv, jointsv, i as int);
        }
        if !crate::graph::has_incoming_joint(&robot.joints, robot.links[i].name.as_str()) {
            match first {
                Option::None => {
                    first = Some(robot.links[i].name.clone());
                    proof {
                        assert(root_candidates(linksv.take(i + 1), jointsv) =~= seq![
                            linksv[i as int].name@,
                        ]);
                    }
                },
                Option::Some(a) => {
                    let b = robot.links[i].name.clone();
                    proof {
                        assert(root_candidates(linksv.take(i + 1), jointsv) =~= seq![a@, b@]);
                        lemma_root_candidates_prefix(linksv, jointsv, i + 1, linksv.len() as int);
                        assert(linksv.take(linksv.len() as int) =~= linksv);
                        assert(root_candidates(linksv, jointsv)[0] == a@);
                        assert(root_candidates(linksv, jointsv)[1] == b@);
                    }
                    return Err(GraphError::MultipleRoots(a, b));
                },
            }
        }
        i = i + 1;
    }
    proof {
        assert(linksv.take(nl as int) =~= linksv);
    }
    let root = match first {
        Some(name) => name,
        None => {
            return Err(GraphError::NoRoot);
        },
    };
    let ghost rootv = root@;

    // 2) Group the joints by parent.
    let adjacency = build_adjacency(&robot.joints);

    // 3) Walk the tree from the root, assigning placements in visit order.
    let mut map = LinkMap { entries: Vec::new() };
    let mut order: Vec<String> = Vec::new();
    let ghost root_chain: Seq<Seq<char>> = seq![root@];
    let root_data = LinkBfsData {
        link_name: root.clone(),
        link_only_path: root.clone(),
        link_full_path: root.clone(),
        local_rpy: [ZERO_BITS, ZERO_BITS, ZERO_BITS],
        local_translation: [ZERO_BITS, ZERO_BITS, ZERO_BITS],
        local_transform: identity_4x4(),
        global_transform: identity_4x4(),
        chain: Ghost(root_chain),
    };
    proof {
        assert(root_data.local_rpy@ =~= seq![ZERO_BITS, ZERO_BITS, ZERO_BITS]);
        assert(root_data.local_translation@ =~= seq![ZERO_BITS, ZERO_BITS, ZERO_BITS]);
        assert(root_entry_ok(rootv, root_data));
    }
    let ghost empty_map = map;
    map.entries.push(root_data);
    order.push(root);
    proof {
        empty_map.lemma_push(map, root_data);
        lemma_entries_ok_push(rootv, jointsv, empty_map, map, root_data);
        assert(map.key_seq() =~= order_names(order@));
        assert(order_names(order@)[0] == rootv);
        lemma_map_len_bound(rootv, jointsv, map);
    }
    let mut head: usize = 0;
    while head < order.len()
        invariant
            bfs_state_ok(jointsv, rootv, map, order@),
            head <= order@.len(),
            jointsv == robot.joints@,
            adjacency.wf(),
            forall|k: Seq<char>| #[trigger] adjacency.edges(k) == edge_indices_of(jointsv, k),
            forall|k: Seq<char>|
                #[trigger] adjacency.has_key(k) == (edge_indices_of(jointsv, k).len() > 0),
            forall|hi: int|
                0 <= hi < head ==> parent_processed(jointsv, map, #[trigger] order_names(order@)[hi]),
        decreases 1 + jointsv.len() - head,
    {
        let parent_name = order[head].clone();
        let ghost parentv = parent_name@;
        let ghost old_map = map;
        let ghost old_order = order@;
        proof {
            assert(order_names(order@)[head as int] == parentv);
            assert(map.key_seq()[head as int] == parentv);
            assert(map.has(parentv));
        }
        head = head + 1;
        expand_parent(&robot.joints, &adjacency, &mut map, &mut order, parent_name.as_str(),
            Ghost(rootv));
        proof {
            lemma_processed_prefix_step(
                jointsv,
                old_map,
                map,
                old_order,
                order@,
                head as int,
                parentv,
            );
        }
    }
    proof {
        lemma_closure_from_processed(jointsv, map, order_names(order@));
        assert(bfs_post(jointsv, rootv, map, order_names(order@)));
        assert(root_candidates(linksv, jointsv)[0] == rootv);
    }
    Ok((map, order))
}

/// When every visited link's edges were expanded, every edge out of a
/// placed link leads to a placed link.
proof fn lemma_closure_from_processed(joints: Seq<Joint>, m: LinkMap, order: Seq<Seq<char>>)
    requires
        m.key_seq() == order,
        forall|hi: int| 0 <= hi < order.len() ==> parent_processed(joints, m, #[trigger] order[hi]),
    ensures
        forall|ji: int|
            0 <= ji < joints.len() && m.has(#[trigger] joints[ji].parent_link@) ==> m.has(
                joints[ji].child_link@,
            ),
{
    assert forall|ji: int|
        0 <= ji < joints.len() && m.has(#[trigger] joints[ji].parent_link@) implies m.has(
        joints[ji].child_link@,
    ) by {
        let k = joints[ji].parent_link@;
        let w = m.index_of(k);
        assert(m.key_seq()[w] == k);
        assert(order[w] == k);
        assert(parent_processed(joints, m, k));
    }
}

/// After one more link's edges are expanded, every visited link up to
/// and including it stays fully expanded.
proof fn lemma_processed_prefix_step(
    joints: Seq<Joint>,
    m_old: LinkMap,
    m_new: LinkMap,
    order_old: Seq<String>,
    order_new: Seq<String>,
    head: int,
    parentv: Seq<char>,
)
    requires
        1 <= head,
        head - 1 < order_old.len(),
        order_old.len() <= order_new.len(),
        forall|i: int| 0 <= i < order_old.len() ==> #[trigger] order_new[i] == order_old[i],
        forall|hi: int|
            0 <= hi < head - 1 ==> parent_processed(
                joints,
                m_old,
                #[trigger] order_names(order_old)[hi],
            ),
        forall|k: Seq<char>|
            m_old.has(k) ==> #[trigger] m_new.has(k) && m_new.at(k) == m_old.at(k),
        parent_processed(joints, m_new, parentv),
        order_names(order_old)[head - 1] == parentv,
    ensures
        forall|hi: int|
            0 <= hi < head ==> parent_processed(joints, m_new, #[trigger] order_names(order_new)[hi]),
{
    assert forall|hi: int| 0 <= hi < head implies parent_processed(
        joints,
        m_new,
        #[trigger] order_names(order_new)[hi],
    ) by {
        assert(order_new[hi] == order_old[hi]);
        assert(order_names(order_new)[hi] == order_names(order_old)[hi]);
        if hi < head - 1 {
            let p = order_names(order_old)[hi];
            assert(parent_processed(joints, m_old, p));
            assert forall|ji2: int|
                0 <= ji2 < joints.len() && joints[ji2].parent_link@ == p implies m_new.has(
                #[trigger] joints[ji2].child_link@,
            ) by {
                assert(m_old.has(joints[ji2].child_link@));
            }
        }
    }
}

/// Every joint leaving a placed link leads to a placed link.
pub open spec fn parent_processed(joints: Seq<Joint>, m: LinkMap, p: Seq<char>) -> bool {
    forall|ji: int|
        0 <= ji < joints.len() && joints[ji].parent_link@ == p ==> m.has(
            #[trigger] joints[ji].child_link@,
        )
}


/// A chain of links where consecutive links are joined by an edge.
pub open spec fn is_link_chain(joints: Seq<Joint>, chain: Seq<Seq<char>>) -> bool {
    &&& chain.len() >= 1
    &&& forall|t: int|
        0 <= t < chain.len() - 1 ==> is_edge(joints, chain[t], #[trigger] chain[t + 1])
}

/// Whether `x` can be reached from `root` along joints.
pub open spec fn reachable(joints: Seq<Joint>, root: Seq<char>, x: Seq<char>) -> bool {
    exists|chain: Seq<Seq<char>>|
        #[trigger] is_link_chain(joints, chain) && chain.first() == root && chain.last() == x
}

/// The names of a chain joined with slashes.
pub open spec fn joined_names(chain: Seq<Seq<char>>) -> Seq<char>
    decreases chain.len(),
{
    if chain.len() == 0 {
        Seq::empty()
    } else if chain.len() == 1 {
        chain[0]
    } else {
        joined_names(chain.drop_last()) + seq!['/'] + chain.last()
    }
}

/// Whatever the root reaches along a chain is placed: the root is
/// placed, and placement is closed under edges.
pub proof fn lemma_chain_end_placed(
    joints: Seq<Joint>,
    root: Seq<char>,
    m: LinkMap,
    order: Seq<Seq<char>>,
    chain: Seq<Seq<char>>,
)
    requires
        bfs_post(joints, root, m, order),
        is_link_chain(joints, chain),
        chain.first() == root,
    ensures
        m.has(chain.last()),
    decreases chain.len(),
{
    if chain.len() == 1 {
        assert(chain.last() == root);
    } else {
        let shorter = chain.drop_last();
        assert(is_link_chain(joints, shorter)) by {
            assert forall|t: int|
                0 <= t < shorter.len() - 1 implies is_edge(
                joints,
                shorter[t],
                #[trigger] shorter[t + 1],
            ) by {
                assert(shorter[t] == chain[t]);
                assert(shorter[t + 1] == chain[t + 1]);
            }
        }
        assert(shorter.first() == chain.first());
        lemma_chain_end_placed(joints, root, m, order, shorter);
        let prev = chain[chain.len() - 2];
        assert(shorter.last() == prev);
        assert(is_edge(joints, chain[chain.len() - 2], chain[chain.len() - 2 + 1]));
        assert(is_edge(joints, prev, chain[chain.len() - 1]));
        let ji = choose|ji: int|
            0 <= ji < joints.len() && joints[ji].parent_link@ == prev
                && #[trigger] joints[ji].child_link@ == chain[chain.len() - 1];
        assert(m.has(joints[ji].parent_link@));
        assert(m.has(joints[ji].child_link@));
    }
}

/// Breadth-first completeness: when the description is a connected tree
/// — link names distinct, the root and every joint's child among the
/// links, every link reachable from the root — then every link is placed
/// and visited exactly once: the placement count and the visit count both
/// equal the link count, and no link is visited twice.
pub proof fn lemma_bfs_complete(
    links: Seq<Link>,
    joints: Seq<Joint>,
    root: Seq<char>,
    m: LinkMap,
    order: Seq<Seq<char>>,
)
    requires
        bfs_post(joints, root, m, order),
        forall|i: int, j: int|
            0 <= i < j < links.len() ==> #[trigger] links[i].name@ != #[trigger] links[j].name@,
        exists|li: int| 0 <= li < links.len() && #[trigger] links[li].name@ == root,
        forall|ji: int|
            0 <= ji < joints.len() ==> exists|li: int|
                0 <= li < links.len() && #[trigger] links[li].name@ == #[trigger] joints[ji].child_link@,
        forall|li: int|
            0 <= li < links.len() ==> reachable(joints, root, #[trigger] links[li].name@),
    ensures
        m.entries@.len() == links.len(),
        order.len() == links.len(),
        order.no_duplicates(),
        forall|li: int| 0 <= li < links.len() ==> m.has(#[trigger] links[li].name@),
{
    let keys = m.key_seq();
    let names = links.map_values(|l: Link| l.name@);
    // Every link is placed, along its chain from the root.
    assert forall|li: int| 0 <= li < links.len() implies m.has(#[trigger] links[li].name@) by {
        assert(reachable(joints, root, links[li].name@));
        let chain = choose|chain: Seq<Seq<char>>|
            #[trigger] is_link_chain(joints, chain) && chain.first() == root && chain.last()
                == links[li].name@;
        lemma_chain_end_placed(joints, root, m, order, chain);
    }
    // Every placement key is a link name.
    assert forall|w: int| 0 <= w < keys.len() implies names.contains(#[trigger] keys[w]) by {
        let d = m.entries@[w];
        assert(keys[w] == d.link_name@);
        if d.link_name@ == root {
            let li = choose|li: int| 0 <= li < links.len() && #[trigger] links[li].name@ == root;
            assert(names[li] == keys[w]);
        } else {
            assert(child_entry_ok(joints, m, d));
            let ji = choose|ji: int| #[trigger] child_entry_via(joints, m, d, ji);
            let li = choose|li: int|
                0 <= li < links.len() && #[trigger] links[li].name@ == joints[ji].child_link@;
            assert(names[li] == keys[w]);
        }
    }
    // Distinct sequences covering the same names have the same length.
    assert(keys.no_duplicates());
    assert(names.no_duplicates());
    keys.unique_seq_to_set();
    names.unique_seq_to_set();
    assert(keys.to_set() =~= names.to_set()) by {
        assert forall|k: Seq<char>| keys.to_set().contains(k) implies names.to_set().contains(
            k,
        ) by {
            let w = choose|w: int| 0 <= w < keys.len() && keys[w] == k;
            assert(names.contains(keys[w]));
        }
        assert forall|k: Seq<char>| names.to_set().contains(k) implies keys.to_set().contains(
            k,
        ) by {
            let li = choose|li: int| 0 <= li < names.len() && names[li] == k;
            assert(links[li].name@ == k);
            assert(m.has(k));
            let w = m.index_of(k);
            assert(keys[w] == k);
        }
    }
    assert(keys.len() == names.len());
    assert(order.no_duplicates()) by {
        assert(order =~= keys);
    }
}

/// In a tree — at most one joint into any link, none into the root —
/// there is at most one chain from the root to any link.
pub proof fn lemma_chain_unique(
    joints: Seq<Joint>,
    root: Seq<char>,
    c1: Seq<Seq<char>>,
    c2: Seq<Seq<char>>,
)
    requires
        forall|a: int, b: int|
            0 <= a < joints.len() && 0 <= b < joints.len() && #[trigger] joints[a].child_link@
                == #[trigger] joints[b].child_link@ ==> joints[a].parent_link@
                == joints[b].parent_link@,
        !is_child_name(joints, root),
        is_link_chain(joints, c1),
        is_link_chain(joints, c2),
        c1.first() == root,
        c2.first() == root,
        c1.last() == c2.last(),
    ensures
        c1 == c2,
    decreases c1.len() + c2.len(),
{
    let x = c1.last();
    if x == root {
        assert(c1.len() == 1) by {
            if c1.len() > 1 {
                assert(is_edge(joints, c1[c1.len() - 2], c1[c1.len() - 2 + 1]));
                assert(is_child_name(joints, root));
            }
        }
        assert(c2.len() == 1) by {
            if c2.len() > 1 {
                assert(is_edge(joints, c2[c2.len() - 2], c2[c2.len() - 2 + 1]));
                assert(is_child_name(joints, root));
            }
        }
        assert(c1 =~= c2);
    } else {
        assert(c1.len() >= 2) by {
            if c1.len() == 1 {
                assert(c1.first() == c1.last());
            }
        }
        assert(c2.len() >= 2) by {
            if c2.len() == 1 {
                assert(c2.first() == c2.last());
            }
        }
        let p1 = c1[c1.len() - 2];
        let p2 = c2[c2.len() - 2];
        assert(is_edge(joints, p1, c1[c1.len() - 2 + 1]));
        assert(is_edge(joints, p2, c2[c2.len() - 2 + 1]));
        assert(p1 == p2) by {
            let a = choose|a: int|
                0 <= a < joints.len() && joints[a].parent_link@ == p1
                    && #[trigger] joints[a].child_link@ == x;
            let b = choose|b: int|
                0 <= b < joints.len() && joints[b].parent_link@ == p2
                    && #[trigger] joints[b].child_link@ == x;
            assert(joints[a].child_link@ == joints[b].child_link@);
        }
        let s1 = c1.drop_last();
        let s2 = c2.drop_last();
        assert(is_link_chain(joints, s1)) by {
            assert forall|t: int|
                0 <= t < s1.len() - 1 implies is_edge(joints, s1[t], #[trigger] s1[t + 1]) by {
                assert(s1[t] == c1[t]);
                assert(s1[t + 1] == c1[t + 1]);
            }
        }
        assert(is_link_chain(joints, s2)) by {
            assert forall|t: int|
                0 <= t < s2.len() - 1 implies is_edge(joints, s2[t], #[trigger] s2[t + 1]) by {
                assert(s2[t] == c2[t]);
                assert(s2[t + 1] == c2[t + 1]);
            }
        }
        assert(s1.last() == p1 && s2.last() == p2);
        assert(s1.first() == root && s2.first() == root);
        lemma_chain_unique(joints, root, s1, s2);
        assert(c1 =~= c2) by {
            assert(c1.len() == c2.len());
            assert forall|t: int| 0 <= t < c1.len() implies c1[t] == c2[t] by {
                if t < c1.len() - 1 {
                    assert(s1[t] == s2[t]);
                }
            }
        }
    }
}

/// Each placement records its own chain from the root, and its entity
/// path is that chain joined with slashes.
pub proof fn lemma_placed_chain(
    joints: Seq<Joint>,
    root: Seq<char>,
    m: LinkMap,
    order: Seq<Seq<char>>,
    k: Seq<char>,
    n: int,
)
    requires
        bfs_post(joints, root, m, order),
        m.has(k),
        m.at(k).chain@.len() == n,
    ensures
        ({
            let c = m.at(k).chain@;
            &&& c.len() >= 1
            &&& is_link_chain(joints, c)
            &&& c.first() == root
            &&& c.last() == k
            &&& m.at(k).link_only_path@ == joined_names(c)
        }),
    decreases n,
{
    let w = m.index_of(k);
    assert(m.key_seq()[w] == k);
    let d = m.entries@[w];
    assert(d.link_name@ == k);
    let c = d.chain@;
    if k == root {
        assert(root_entry_ok(root, d));
        assert(c =~= seq![root]);
        assert(is_link_chain(joints, c));
        assert(joined_names(c) == c[0]);
    } else {
        assert(child_entry_ok(joints, m, d));
        let ji = choose|ji: int| #[trigger] child_entry_via(joints, m, d, ji);
        let parent = joints[ji].parent_link@;
        let p = m.at(parent);
        assert(c == p.chain@.push(k));
        assert(p.chain@.len() == n - 1);
        lemma_placed_chain(joints, root, m, order, parent, n - 1);
        let pc = p.chain@;
        assert(pc.last() == parent);
        assert(is_link_chain(joints, c)) by {
            assert forall|t: int|
                0 <= t < c.len() - 1 implies is_edge(joints, c[t], #[trigger] c[t + 1]) by {
                if t < pc.len() - 1 {
                    assert(c[t] == pc[t]);
                    assert(c[t + 1] == pc[t + 1]);
                } else {
                    assert(c[t] == pc.last());
                    assert(c[t + 1] == k);
                    assert(is_edge(joints, parent, k)) by {
                        assert(joints[ji].parent_link@ == parent);
                        assert(joints[ji].child_link@ == k);
                    }
                }
            }
        }
        assert(c.first() == pc.first());
        assert(c.last() == k);
        assert(joined_names(c) == d.link_only_path@) by {
            assert(c.len() >= 2);
            assert(c.drop_last() =~= pc);
            assert(c.last() == k);
            assert(joined_names(c) == joined_names(pc) + seq!['/'] + k);
            assert(d.link_only_path@ == p.link_only_path@ + seq!['/'] + k);
        }
    }
}

/// Path correctness: in a tree, the entity path of a placed link joins
/// exactly the links of the one chain from the root to it — a link at
/// depth `d` lists `d + 1` link names, the root's first and its own
/// last.  Any root chain to a placed link is the placement's chain.
pub proof fn lemma_path_correctness(
    joints: Seq<Joint>,
    root: Seq<char>,
    m: LinkMap,
    order: Seq<Seq<char>>,
    k: Seq<char>,
    chain: Seq<Seq<char>>,
)
    requires
        bfs_post(joints, root, m, order),
        forall|a: int, b: int|
            0 <= a < joints.len() && 0 <= b < joints.len() && #[trigger] joints[a].child_link@
                == #[trigger] joints[b].child_link@ ==> joints[a].parent_link@
                == joints[b].parent_link@,
        !is_child_name(joints, root),
        m.has(k),
        is_link_chain(joints, chain),
        chain.first() == root,
        chain.last() == k,
    ensures
        m.at(k).chain@ == chain,
        m.at(k).link_only_path@ == joined_names(chain),
        chain[0] == root,
        chain[chain.len() - 1] == k,
{
    lemma_placed_chain(joints, root, m, order, k, m.at(k).chain@.len() as int);
    lemma_chain_unique(joints, root, m.at(k).chain@, chain);
}

/// Transform identity at the root: the root link's placement carries the
/// identity for both its local and its global transform, a zero local
/// offset, and its own name for both paths.
pub proof fn lemma_root_placement_identity(
    joints: Seq<Joint>,
    root: Seq<char>,
    m: LinkMap,
    order: Seq<Seq<char>>,
)
    requires
        bfs_post(joints, root, m, order),
    ensures
        m.at(root).local_transform@ == identity4_spec(),
        m.at(root).global_transform@ == identity4_spec(),
        m.at(root).link_only_path@ == root,
        m.at(root).link_full_path@ == root,
        m.at(root).local_rpy@ == seq![ZERO_BITS, ZERO_BITS, ZERO_BITS],
        m.at(root).local_translation@ == seq![ZERO_BITS, ZERO_BITS, ZERO_BITS],
{
    let w = m.index_of(root);
    assert(m.key_seq()[w] == root);
    assert(m.entries@[w].link_name@ == root);
    assert(root_entry_ok(root, m.entries@[w]));
}


/// An edge exists in one joint list exactly when it exists in any
/// rearrangement of it.
pub proof fn lemma_is_edge_permuted(j1: Seq<Joint>, j2: Seq<Joint>, p: Seq<char>, c: Seq<char>)
    requires
        j1.to_multiset() == j2.to_multiset(),
    ensures
        is_edge(j1, p, c) == is_edge(j2, p, c),
{
    j1.to_multiset_ensures();
    j2.to_multiset_ensures();
    if is_edge(j1, p, c) {
        let a = choose|a: int|
            0 <= a < j1.len() && j1[a].parent_link@ == p && #[trigger] j1[a].child_link@ == c;
        assert(j1.contains(j1[a]));
        assert(j1.to_multiset().count(j1[a]) > 0);
        assert(j2.to_multiset().count(j1[a]) > 0);
        assert(j2.contains(j1[a]));
        let b = choose|b: int| 0 <= b < j2.len() && j2[b] == j1[a];
        assert(j2[b].parent_link@ == p && j2[b].child_link@ == c);
    }
    if is_edge(j2, p, c) {
        let a = choose|a: int|
            0 <= a < j2.len() && j2[a].parent_link@ == p && #[trigger] j2[a].child_link@ == c;
        assert(j2.contains(j2[a]));
        assert(j2.to_multiset().count(j2[a]) > 0);
        assert(j1.to_multiset().count(j2[a]) > 0);
        assert(j1.contains(j2[a]));
        let b = choose|b: int| 0 <= b < j1.len() && j1[b] == j2[a];
        assert(j1[b].parent_link@ == p && j1[b].child_link@ == c);
    }
}

/// Determinism of placement: two traversals of the same description,
/// even with the joints supplied in different orders, give any link they
/// both place the same chain and the same entity path.  The chain from
/// the root is unique in a tree, and each run records exactly that
/// chain.
pub proof fn lemma_paths_deterministic(
    j1: Seq<Joint>,
    j2: Seq<Joint>,
    root: Seq<char>,
    m1: LinkMap,
    o1: Seq<Seq<char>>,
    m2: LinkMap,
    o2: Seq<Seq<char>>,
    k: Seq<char>,
)
    requires
        j1.to_multiset() == j2.to_multiset(),
        forall|a: int, b: int|
            0 <= a < j1.len() && 0 <= b < j1.len() && #[trigger] j1[a].child_link@
                == #[trigger] j1[b].child_link@ ==> j1[a].parent_link@ == j1[b].parent_link@,
        !is_child_name(j1, root),
        bfs_post(j1, root, m1, o1),
        bfs_post(j2, root, m2, o2),
        m1.has(k),
        m2.has(k),
    ensures
        m1.at(k).chain@ == m2.at(k).chain@,
        m1.at(k).link_only_path@ == m2.at(k).link_only_path@,
{
    lemma_placed_chain(j1, root, m1, o1, k, m1.at(k).chain@.len() as int);
    lemma_placed_chain(j2, root, m2, o2, k, m2.at(k).chain@.len() as int);
    let c2 = m2.at(k).chain@;
    assert(is_link_chain(j1, c2)) by {
        assert forall|t: int| 0 <= t < c2.len() - 1 implies is_edge(j1, c2[t], #[trigger] c2[t + 1]) by {
            lemma_is_edge_permuted(j1, j2, c2[t], c2[t + 1]);
        }
    }
    lemma_chain_unique(j1, root, m1.at(k).chain@, c2);
}

} // verus!
