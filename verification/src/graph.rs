//! The kinematic graph: named links joined by offset-bearing edges.
//!
//! A robot is a flat list of links and joints.  The joints induce a
//! parent-to-children adjacency, and the root is the one link that is no
//! joint's child.  Zero or several such links is a structural error that
//! callers must surface, never default away.

use vstd::prelude::*;

use crate::lexorder::str_eq;

verus! {

/// A named rigid body.  Its pose is entirely determined by the chain of
/// joints from the root, so it carries no transform of its own.
#[derive(Clone, Debug)]
pub struct Link {
    pub name: String,
}

/// A directed edge from a parent link to a child link, with the fixed
/// local offset of the child: a translation and roll-pitch-yaw Euler
/// angles, all IEEE-754 single-precision bit patterns (radians for the
/// angles).
#[derive(Clone, Debug)]
pub struct Joint {
    pub name: String,
    pub parent_link: String,
    pub child_link: String,
    pub origin_xyz: [u32; 3],
    pub origin_rpy: [u32; 3],
}

/// A robot description: the flat link and joint lists, as parsed from an
/// external description document.
#[derive(Clone, Debug)]
pub struct Robot {
    pub links: Vec<Link>,
    pub joints: Vec<Joint>,
}

/// A structural defect of the kinematic graph, fatal for the load.
#[derive(Clone, Debug, PartialEq, Eq)]
pub enum GraphError {
    /// Every link is some joint's child: no root exists.
    NoRoot,
    /// At least these two links have no incoming joint.
    MultipleRoots(String, String),
}

/// Whether `n` is the child of some joint.
pub open spec fn is_child_name(joints: Seq<Joint>, n: Seq<char>) -> bool {
    exists|i: int| 0 <= i < joints.len() && joints[i].child_link@ == n
}

/// Whether there is a joint from parent `p` to child `c`.
pub open spec fn is_edge(joints: Seq<Joint>, p: Seq<char>, c: Seq<char>) -> bool {
    exists|i: int|
        0 <= i < joints.len() && joints[i].parent_link@ == p && #[trigger] joints[i].child_link@
            == c
}

/// The names of the links that no joint points at, in link-list order.
pub open spec fn root_candidates(links: Seq<Link>, joints: Seq<Joint>) -> Seq<Seq<char>>
    decreases links.len(),
{
    if links.len() == 0 {
        Seq::empty()
    } else {
        let rest = root_candidates(links.drop_last(), joints);
        if !is_child_name(joints, links.last().name@) {
            rest.push(links.last().name@)
        } else {
            rest
        }
    }
}

/// The positions, in ascending order, of the joints whose parent is `k`.
pub open spec fn edge_indices_of(joints: Seq<Joint>, k: Seq<char>) -> Seq<int>
    decreases joints.len(),
{
    if joints.len() == 0 {
        Seq::empty()
    } else {
        let rest = edge_indices_of(joints.drop_last(), k);
        if joints.last().parent_link@ == k {
            rest.push(joints.len() - 1)
        } else {
            rest
        }
    }
}

/// Extending the link list by one link extends its candidate list by that
/// link's name exactly when no joint points at it.
pub proof fn lemma_root_candidates_step(links: Seq<Link>, joints: Seq<Joint>, i: int)
    requires
        0 <= i < links.len(),
    ensures
        root_candidates(links.take(i + 1), joints) == if !is_child_name(joints, links[i].name@) {
            root_candidates(links.take(i), joints).push(links[i].name@)
        } else {
            root_candidates(links.take(i), joints)
        },
{
    assert(links.take(i + 1).drop_last() =~= links.take(i));
    assert(links.take(i + 1).last() == links[i]);
}

/// The candidates of a longer prefix are at least as many.
pub proof fn lemma_root_candidates_monotone(links: Seq<Link>, joints: Seq<Joint>, i: int, j: int)
    requires
        0 <= i <= j <= links.len(),
    ensures
        root_candidates(links.take(i), joints).len() <= root_candidates(
            links.take(j),
            joints,
        ).len(),
    decreases j - i,
{
    if i < j {
        lemma_root_candidates_step(links, joints, i);
        lemma_root_candidates_monotone(links, joints, i + 1, j);
    }
}

/// Extending the joint list by one joint appends its position to the edge
/// index list of its parent and leaves every other parent's list as it was.
pub proof fn lemma_edge_indices_step(joints: Seq<Joint>, k: Seq<char>, i: int)
    requires
        0 <= i < joints.len(),
    ensures
        edge_indices_of(joints.take(i + 1), k) == if joints[i].parent_link@ == k {
            edge_indices_of(joints.take(i), k).push(i)
        } else {
            edge_indices_of(joints.take(i), k)
        },
{
    assert(joints.take(i + 1).drop_last() =~= joints.take(i));
    assert(joints.take(i + 1).last() == joints[i]);
}

/// Every recorded index points at a joint of the given parent, and every
/// joint of the parent is recorded.
pub proof fn lemma_edge_indices_sound(joints: Seq<Joint>, k: Seq<char>)
    ensures
        forall|t: int|
            0 <= t < edge_indices_of(joints, k).len() ==> 0 <= #[trigger] edge_indices_of(
                joints,
                k,
            )[t] < joints.len(),
        forall|t: int|
            0 <= t < edge_indices_of(joints, k).len() ==> joints[#[trigger] edge_indices_of(
                joints,
                k,
            )[t]].parent_link@ == k,
        forall|ji: int|
            0 <= ji < joints.len() && joints[ji].parent_link@ == k ==> #[trigger] edge_indices_of(
                joints,
                k,
            ).contains(ji),
    decreases joints.len(),
{
    if joints.len() > 0 {
        lemma_edge_indices_sound(joints.drop_last(), k);
        let rest = edge_indices_of(joints.drop_last(), k);
        let full = edge_indices_of(joints, k);
        assert(joints.drop_last().len() == joints.len() - 1);
        assert(forall|t: int|
            0 <= t < joints.len() - 1 ==> #[trigger] joints.drop_last()[t] == joints[t]);
        assert forall|t: int| 0 <= t < full.len() implies 0 <= #[trigger] full[t] < joints.len()
            && joints[full[t]].parent_link@ == k by {
            if t < rest.len() {
                assert(full[t] == rest[t]);
                assert(joints.drop_last()[rest[t]] == joints[rest[t]]);
            } else {
                assert(full[t] == joints.len() - 1);
                assert(joints.last() == joints[joints.len() - 1]);
            }
        }
        assert forall|ji: int|
            0 <= ji < joints.len() && joints[ji].parent_link@ == k implies #[trigger] full.contains(
            ji,
        ) by {
            if ji == joints.len() - 1 {
                assert(joints.last().parent_link@ == k);
                assert(full[full.len() - 1] == ji);
            } else {
                assert(joints.drop_last()[ji].parent_link@ == k);
                assert(rest.contains(ji));
                let t = choose|t: int| 0 <= t < rest.len() && rest[t] == ji;
                assert(full[t] == ji);
            }
        }
    }
}

/// Decides whether some joint has `name` as its child link.
pub(crate) fn has_incoming_joint(joints: &Vec<Joint>, name: &str) -> (r: bool)
    ensures
        r == is_child_name(joints@, name@),
{
    let n = joints.len();
    let mut i: usize = 0;
    while i < n
        invariant
            i <= n,
            n == joints@.len(),
            forall|j: int| 0 <= j < i ==> joints@[j].child_link@ != name@,
        decreases n - i,
    {
        if str_eq(joints[i].child_link.as_str(), name) {
            return true;
        }
        i = i + 1;
    }
    false
}

/// Finds the root link: the unique link that is no joint's child.
/// Returns `None` when zero or several links qualify, which the caller
/// must treat as a malformed description.
pub fn find_root_link_name(links: &Vec<Link>, joints: &Vec<Joint>) -> (r: Option<String>)
    ensures
        match r {
            Option::Some(name) => root_candidates(links@, joints@) == seq![name@],
            Option::None => root_candidates(links@, joints@).len() != 1,
        },
{
    let n = links.len();
    let mut found: Option<String> = None;
    let mut i: usize = 0;
    while i < n
        invariant
            i <= n,
            n == links@.len(),
            match found {
                Option::Some(name) => root_candidates(links@.take(i as int), joints@) == seq![
                    name@,
                ],
                Option::None => root_candidates(links@.take(i as int), joints@).len() == 0,
            },
        decreases n - i,
    {
        proof {
            lemma_root_candidates_step(links@, joints@, i as int);
        }
        if !has_incoming_joint(joints, links[i].name.as_str()) {
            match found {
                Option::None => {
                    found = Some(links[i].name.clone());
                    proof {
                        assert(root_candidates(links@.take(i + 1), joints@) =~= seq![
                            links@[i as int].name@,
                        ]);
                    }
                },
                Option::Some(_) => {
                    proof {
                        lemma_root_candidates_monotone(links@, joints@, i + 1, links@.len() as int);
                        assert(links@.take(links@.len() as int) =~= links@);
                    }
                    return None;
                },
            }
        }
        i = i + 1;
    }
    proof {
        assert(links@.take(n as int) =~= links@);
    }
    found
}

/// Adjacency from parent link name to the positions, in the joint list,
/// of the joints leaving it.  Keys are distinct; each key's positions are
/// exactly `edge_indices_of` for that key.
pub struct Adjacency {
    pub entries: Vec<(String, Vec<usize>)>,
}

impl Adjacency {
    /// The key of each entry.
    pub open spec fn key_seq(self) -> Seq<Seq<char>> {
        self.entries@.map_values(|e: (String, Vec<usize>)| e.0@)
    }

    /// Keys are distinct.
    pub open spec fn wf(self) -> bool {
        forall|i: int, j: int|
            0 <= i < j < self.key_seq().len() ==> self.key_seq()[i] != self.key_seq()[j]
    }

    /// Whether a parent name has an entry.
    pub open spec fn has_key(self, k: Seq<char>) -> bool {
        exists|i: int| 0 <= i < self.key_seq().len() && #[trigger] self.key_seq()[i] == k
    }

    /// The index of a key's entry.
    pub open spec fn key_index(self, k: Seq<char>) -> int {
        choose|i: int| 0 <= i < self.key_seq().len() && #[trigger] self.key_seq()[i] == k
    }

    /// The joint positions recorded under a parent name, as mathematical
    /// integers; empty when the parent has no entry.
    pub open spec fn edges(self, k: Seq<char>) -> Seq<int> {
        if self.has_key(k) {
            self.entries@[self.key_index(k)].1@.map_values(|u: usize| u as int)
        } else {
            Seq::<int>::empty()
        }
    }

    /// Looks up the joint positions under the link called `name`.
    pub fn get(&self, name: &str) -> (r: Option<&Vec<usize>>)
        requires
            self.wf(),
        ensures
            match r {
                Option::Some(v) => self.has_key(name@) && v@.map_values(|u: usize| u as int)
                    == self.edges(name@),
                Option::None => !self.has_key(name@),
            },
    {
        let n = self.entries.len();
        let mut i: usize = 0;
        while i < n
            invariant
                i <= n,
                n == self.entries@.len(),
                self.wf(),
                forall|j: int| 0 <= j < i ==> self.key_seq()[j] != name@,
            decreases n - i,
        {
            if str_eq(self.entries[i].0.as_str(), name) {
                proof {
                    assert(self.key_seq()[i as int] == name@);
                    assert(self.key_index(name@) == i as int);
                }
                return Some(&self.entries[i].1);
            }
            i = i + 1;
        }
        None
    }
}

/// Groups the joints by parent link name, keeping, under each parent, the
/// order in which the joints were supplied.
pub fn build_adjacency(joints: &Vec<Joint>) -> (adj: Adjacency)
    ensures
        adj.wf(),
        forall|k: Seq<char>| #[trigger] adj.edges(k) == edge_indices_of(joints@, k),
        forall|k: Seq<char>| #[trigger] adj.has_key(k) == (edge_indices_of(joints@, k).len() > 0),
{
    let n = joints.len();
    let mut adj = Adjacency { entries: Vec::new() };
    let mut i: usize = 0;
    proof {
        assert forall|k: Seq<char>| true implies #[trigger] edge_indices_of(joints@.take(0), k)
            =~= Seq::<int>::empty() by {
            assert(joints@.take(0).len() == 0);
        }
    }
    while i < n
        invariant
            i <= n,
            n == joints@.len(),
            adj.wf(),
            forall|k: Seq<char>| #[trigger] adj.edges(k) == edge_indices_of(joints@.take(i as int), k),
            forall|k: Seq<char>|
                #[trigger] adj.has_key(k) == (edge_indices_of(joints@.take(i as int), k).len() > 0),
        decreases n - i,
    {
        let ghost old_adj = adj;
        let ghost pk = joints@[i as int].parent_link@;
        proof {
            lemma_edge_indices_step(joints@, pk, i as int);
            assert forall|k: Seq<char>| k != pk implies #[trigger] edge_indices_of(
                joints@.take(i + 1),
                k,
            ) == edge_indices_of(joints@.take(i as int), k) by {
                lemma_edge_indices_step(joints@, k, i as int);
            }
        }
        // Find this joint's parent among the existing entries.
        let m = adj.entries.len();
        let mut e: usize = 0;
        let mut entry_at: Option<usize> = None;
        while e < m
            invariant
                e <= m,
                m == adj.entries@.len(),
                adj == old_adj,
                i < n,
                n == joints@.len(),
                pk == joints@[i as int].parent_link@,
                match entry_at {
                    Option::Some(idx) => idx < e && adj.key_seq()[idx as int] == pk,
                    Option::None => forall|t: int| 0 <= t < e ==> adj.key_seq()[t] != pk,
                },
            decreases m - e,
        {
            if entry_at.is_none() && str_eq(adj.entries[e].0.as_str(), joints[i].parent_link.as_str()) {
                entry_at = Some(e);
            }
            e = e + 1;
        }
        match entry_at {
            Option::Some(idx) => {
                proof {
                    assert(adj.has_key(pk));
                    assert(adj.key_index(pk) == idx as int);
                }
                adj.entries[idx].1.push(i);
                proof {
                    assert(adj.key_seq() =~= old_adj.key_seq());
                    assert forall|k: Seq<char>| old_adj.has_key(k) == adj.has_key(k) && (
                    old_adj.has_key(k) ==> old_adj.key_index(k) == adj.key_index(k)) by {}
                    assert forall|k: Seq<char>| true implies #[trigger] adj.edges(k)
                        == edge_indices_of(joints@.take(i + 1), k) by {
                        if adj.has_key(k) {
                            let ki = adj.key_index(k);
                            assert(adj.key_seq()[ki] == k);
                            if ki == idx as int {
                                assert(k == pk);
                                assert(adj.entries@[ki].1@ =~= old_adj.entries@[ki].1@.push(
                                    i as usize,
                                ));
                                assert(adj.edges(k) =~= old_adj.edges(k).push(i as int));
                            } else {
                                assert(adj.entries@[ki] == old_adj.entries@[ki]);
                                assert(adj.edges(k) =~= old_adj.edges(k));
                                assert(k != pk);
                            }
                        } else {
                            assert(k != pk);
                        }
                    }
                    assert forall|k: Seq<char>| true implies #[trigger] adj.has_key(k) == (
                    edge_indices_of(joints@.take(i + 1), k).len() > 0) by {
                        if k == pk {
                            assert(adj.has_key(k));
                        }
                    }
                }
            },
            Option::None => {
                let mut one: Vec<usize> = Vec::new();
                one.push(i);
                let name = joints[i].parent_link.clone();
                adj.entries.push((name, one));
                proof {
                    assert(adj.key_seq() =~= old_adj.key_seq().push(pk));
                    assert(!old_adj.has_key(pk));
                    assert forall|k: Seq<char>| true implies (#[trigger] adj.has_key(k) == (k == pk
                        || old_adj.has_key(k))) by {
                        if adj.has_key(k) {
                            let t = choose|t: int|
                                0 <= t < adj.key_seq().len() && #[trigger] adj.key_seq()[t] == k;
                            if t < old_adj.key_seq().len() {
                                assert(old_adj.key_seq()[t] == k);
                            } else {
                                assert(k == pk);
                            }
                        } else {
                            assert(adj.key_seq()[old_adj.key_seq().len() as int] == pk);
                            assert(k != pk);
                            assert forall|t: int|
                                0 <= t < old_adj.key_seq().len() implies #[trigger] old_adj.key_seq()[t]
                                != k by {
                                assert(adj.key_seq()[t] == old_adj.key_seq()[t]);
                            }
                        }
                    }
                    assert(adj.wf()) by {
                        assert forall|a: int, b: int|
                            0 <= a < b < adj.key_seq().len() implies adj.key_seq()[a]
                            != adj.key_seq()[b] by {
                            if b == adj.key_seq().len() - 1 {
                                assert(adj.key_seq()[a] == old_adj.key_seq()[a]);
                                if old_adj.key_seq()[a] == pk {
                                    assert(old_adj.has_key(pk));
                                }
                            }
                        }
                    }
                    assert forall|k: Seq<char>| true implies #[trigger] adj.edges(k)
                        == edge_indices_of(joints@.take(i + 1), k) by {
                        if k == pk {
                            assert(adj.key_seq()[old_adj.key_seq().len() as int] == pk);
                            let ki = adj.key_index(k);
                            assert(adj.key_seq()[ki] == k);
                            if ki < old_adj.key_seq().len() {
                                assert(old_adj.key_seq()[ki] == pk);
                                assert(old_adj.has_key(pk));
                            }
                            assert(ki == old_adj.key_seq().len());
                            assert(adj.entries@[ki].1@ =~= seq![i as usize]);
                            assert(old_adj.edges(k) =~= Seq::<int>::empty());
                            assert(adj.edges(k) =~= edge_indices_of(joints@.take(i as int),
                                k).push(i as int));
                        } else {
                            if adj.has_key(k) {
                                let ki = adj.key_index(k);
                                assert(adj.key_seq()[ki] == k);
                                assert(ki < old_adj.key_seq().len());
                                assert(old_adj.has_key(k));
                                assert(old_adj.key_index(k) == ki);
                                assert(adj.entries@[ki] == old_adj.entries@[ki]);
                                assert(adj.edges(k) =~= old_adj.edges(k));
                            } else {
                                assert(!old_adj.has_key(k));
                            }
                        }
                    }
                }
            },
        }
        i = i + 1;
    }
    proof {
        assert(joints@.take(n as int) =~= joints@);
    }
    adj
}

} // verus!
