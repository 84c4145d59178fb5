//! The spatial index: a k-d tree over photon positions.
//!
//! The tree is stored as an arena of nodes addressed by index, children
//! before parents, so parent/child links are index pairs and traversal
//! needs no deep ownership.  The index is built once from a flat record
//! sequence and is immutable afterwards; queries are read-only.

use vstd::multiset::Multiset;
use vstd::prelude::*;
use vstd::seq_lib::group_to_multiset_ensures;
use vstd::seq_lib::lemma_multiset_commutative;

use crate::vector4::Vector4;
use crate::vector4::box_dist_sq;
use crate::vector4::dist_sq;
use crate::vector4::in_box;
use crate::vector4::lanes_le;

verus! {

/// A photon: a position, which the index partitions on, and a direction,
/// which is opaque payload handed back with query results.
#[derive(Clone, Copy, Debug, PartialEq, Eq, Structural)]
pub struct Photon {
    pub position: Vector4,
    pub direction: Vector4,
}

/// One node of the k-d tree: one photon, the axis its subtree was
/// partitioned on, the arena indices of its children, and the number of
/// photons in its subtree.
#[derive(Clone, Copy, Debug)]
pub struct KDTreeNode {
    pub photon: Photon,
    pub split_axis: u32,
    pub left: Option<usize>,
    pub right: Option<usize>,
    pub size: usize,
}

/// The multiset of photons in the subtree rooted at arena index `i`.
/// Child links that do not point strictly below their parent contribute
/// nothing, which makes the recursion well-founded on the index itself;
/// a well-formed tree never has such links.
pub open spec fn subtree_ms(nodes: Seq<KDTreeNode>, i: int) -> Multiset<Photon>
    decreases i,
{
    if 0 <= i < nodes.len() {
        let lm = match nodes[i].left {
            Some(j) => if (j as int) < i {
                subtree_ms(nodes, j as int)
            } else {
                Multiset::empty()
            },
            None => Multiset::empty(),
        };
        let rm = match nodes[i].right {
            Some(j) => if (j as int) < i {
                subtree_ms(nodes, j as int)
            } else {
                Multiset::empty()
            },
            None => Multiset::empty(),
        };
        lm.add(rm).insert(nodes[i].photon)
    } else {
        Multiset::empty()
    }
}

/// Well-formedness of the subtree rooted at arena index `i`: children sit
/// strictly below their parent in the arena, the split axis selects a
/// lane, the stored size is the subtree's photon count, and the k-d
/// ordering holds — every photon of the left subtree is strictly below
/// the node's own coordinate on the split axis, every photon of the right
/// subtree at or above it.
pub open spec fn subtree_wf(nodes: Seq<KDTreeNode>, i: int) -> bool
    decreases i,
{
    &&& 0 <= i < nodes.len()
    &&& nodes[i].split_axis < 4
    &&& nodes[i].size == subtree_ms(nodes, i).len()
    &&& match nodes[i].left {
        Some(j) => {
            &&& (j as int) < i
            &&& subtree_wf(nodes, j as int)
            &&& forall|p: Photon|
                #[trigger] subtree_ms(nodes, j as int).count(p) > 0 ==> p.position.lane(
                    nodes[i].split_axis as int,
                ) < nodes[i].photon.position.lane(nodes[i].split_axis as int)
        },
        None => true,
    }
    &&& match nodes[i].right {
        Some(j) => {
            &&& (j as int) < i
            &&& subtree_wf(nodes, j as int)
            &&& forall|p: Photon|
                #[trigger] subtree_ms(nodes, j as int).count(p) > 0 ==> p.position.lane(
                    nodes[i].split_axis as int,
                ) >= nodes[i].photon.position.lane(nodes[i].split_axis as int)
        },
        None => true,
    }
}

/// A subtree reads only arena slots at or below its root, so extending
/// the arena above the root changes neither its contents nor its
/// well-formedness.
proof fn lemma_subtree_prefix(nodes1: Seq<KDTreeNode>, nodes2: Seq<KDTreeNode>, i: int)
    requires
        nodes1.len() <= nodes2.len(),
        forall|j: int| 0 <= j < nodes1.len() ==> nodes2[j] == nodes1[j],
        0 <= i < nodes1.len(),
    ensures
        subtree_ms(nodes2, i) == subtree_ms(nodes1, i),
        subtree_wf(nodes1, i) ==> subtree_wf(nodes2, i),
    decreases i,
{
    match nodes1[i].left {
        Some(j) => {
            if (j as int) < i {
                lemma_subtree_prefix(nodes1, nodes2, j as int);
            }
        },
        None => {},
    }
    match nodes1[i].right {
        Some(j) => {
            if (j as int) < i {
                lemma_subtree_prefix(nodes1, nodes2, j as int);
            }
        },
        None => {},
    }
    assert(subtree_ms(nodes2, i) =~= subtree_ms(nodes1, i));
}

/// The lane of `v` selected by `axis`.
fn get_lane(v: Vector4, axis: usize) -> (r: i32)
    requires
        axis < 4,
    ensures
        r as int == v.lane(axis as int),
{
    if axis == 0 {
        v.x
    } else if axis == 1 {
        v.y
    } else if axis == 2 {
        v.z
    } else {
        v.t
    }
}

/// The photons of `v` in positions `start..end`, in order.
fn subvec(v: &Vec<Photon>, start: usize, end: usize) -> (r: Vec<Photon>)
    requires
        start <= end <= v@.len(),
    ensures
        r@ == v@.subrange(start as int, end as int),
{
    let mut r: Vec<Photon> = Vec::new();
    let mut i: usize = start;
    while i < end
        invariant
            start <= i <= end <= v@.len(),
            r@ == v@.subrange(start as int, i as int),
        decreases end - i,
    {
        r.push(v[i]);
        proof {
            assert(r@ =~= v@.subrange(start as int, i + 1));
        }
        i = i + 1;
    }
    r
}

/// Sorts the photons in ascending order of their coordinate on `axis`,
/// by insertion behind any equal coordinates, so the order of records
/// with equal coordinates is kept.
fn sort_by_axis(records: &Vec<Photon>, axis: usize) -> (r: Vec<Photon>)
    requires
        axis < 4,
    ensures
        r@.len() == records@.len(),
        r@.to_multiset() == records@.to_multiset(),
        forall|a: int, b: int|
            0 <= a <= b < r@.len() ==> r@[a].position.lane(axis as int) <= r@[b].position.lane(
                axis as int,
            ),
{
    proof {
        broadcast use group_to_multiset_ensures;

    }
    let mut out: Vec<Photon> = Vec::new();
    let mut i: usize = 0;
    while i < records.len()
        invariant
            axis < 4,
            i <= records@.len(),
            out@.len() == i,
            out@.to_multiset() == records@.subrange(0, i as int).to_multiset(),
            forall|a: int, b: int|
                0 <= a <= b < out@.len() ==> out@[a].position.lane(axis as int)
                    <= out@[b].position.lane(axis as int),
        decreases records@.len() - i,
    {
        let rec = records[i];
        let key = get_lane(rec.position, axis);
        let mut p: usize = 0;
        while p < out.len() && get_lane(out[p].position, axis) <= key
            invariant
                axis < 4,
                p <= out@.len(),
                forall|a: int| 0 <= a < p ==> out@[a].position.lane(axis as int) <= key as int,
            decreases out@.len() - p,
        {
            p = p + 1;
        }
        let ghost old_out = out@;
        out.insert(p, rec);
        proof {
            broadcast use group_to_multiset_ensures;

            assert(out@ == old_out.insert(p as int, rec));
            assert(out@.to_multiset() == old_out.to_multiset().insert(rec));
            assert(records@.subrange(0, i + 1) =~= records@.subrange(0, i as int).push(rec));
            assert(records@.subrange(0, i + 1).to_multiset() == records@.subrange(
                0,
                i as int,
            ).to_multiset().insert(rec));
            assert forall|a: int, b: int| 0 <= a <= b < out@.len() implies out@[a].position.lane(
                axis as int,
            ) <= out@[b].position.lane(axis as int) by {
                if b < p {
                } else if a > p {
                    assert(out@[a] == old_out[a - 1]);
                    assert(out@[b] == old_out[b - 1]);
                } else if a < p && b == p {
                    assert(out@[a] == old_out[a]);
                } else if a == p && b > p {
                    assert(out@[b] == old_out[b - 1]);
                } else if a < p && b > p {
                    assert(out@[a] == old_out[a]);
                    assert(out@[b] == old_out[b - 1]);
                }
            }
        }
        i = i + 1;
    }
    proof {
        assert(records@.subrange(0, records@.len() as int) =~= records@);
    }
    out
}

/// The multiset of a one-photon sequence.
proof fn lemma_singleton_ms(p: Photon)
    ensures
        seq![p].to_multiset() == Multiset::empty().insert(p),
{
    broadcast use group_to_multiset_ensures;

    let e = Seq::<Photon>::empty();
    vstd::multiset::lemma_multiset_empty_len(e.to_multiset());
    assert(seq![p] =~= e.push(p));
    assert(seq![p].to_multiset() =~= Multiset::empty().insert(p));
}

/// Builds the subtree for `records`, splitting on `axis`, and appends its
/// nodes to the arena, children before parent.  The records are sorted
/// along the axis; the first record holding the median coordinate becomes
/// the node, the strictly smaller records form the left subtree and the
/// rest the right one, so ties on the axis always go right and the sizes
/// of the two subtrees differ by at most the number of median-valued
/// records.  The split axis cycles through the four lanes level by level.
#[verifier::loop_isolation(false)]
#[verifier::rlimit(100)]
fn build_node(nodes: &mut Vec<KDTreeNode>, records: &Vec<Photon>, axis: usize) -> (root: usize)
    requires
        records@.len() >= 1,
        axis < 4,
    ensures
        final(nodes)@.len() == old(nodes)@.len() + records@.len(),
        root as int == final(nodes)@.len() - 1,
        forall|j: int| 0 <= j < old(nodes)@.len() ==> final(nodes)@[j] == old(nodes)@[j],
        subtree_wf(final(nodes)@, root as int),
        subtree_ms(final(nodes)@, root as int) == records@.to_multiset(),
    decreases records@.len(),
{
    proof {
        broadcast use group_to_multiset_ensures;

    }
    let len = records.len();
    let sorted = sort_by_axis(records, axis);
    let mid = len / 2;
    let med = get_lane(sorted[mid].position, axis);
    let mut m = mid;
    while m > 0 && get_lane(sorted[m - 1].position, axis) == med
        invariant
            m <= mid,
            sorted@[m as int].position.lane(axis as int) == med as int,
        decreases m,
    {
        m = m - 1;
    }
    proof {
        assert forall|idx: int| 0 <= idx < m implies sorted@[idx].position.lane(axis as int)
            < med as int by {
            assert(sorted@[idx].position.lane(axis as int) <= sorted@[m - 1].position.lane(
                axis as int,
            ));
            assert(sorted@[m - 1].position.lane(axis as int) <= sorted@[mid as int].position.lane(
                axis as int,
            ));
        }
        assert forall|idx: int| m < idx < len implies sorted@[idx].position.lane(axis as int)
            >= med as int by {
            assert(sorted@[m as int].position.lane(axis as int) <= sorted@[idx].position.lane(
                axis as int,
            ));
        }
    }
    let photon = sorted[m];
    let left_sub = subvec(&sorted, 0, m);
    let right_sub = subvec(&sorted, m + 1, len);
    let next_axis: usize = if axis == 3 {
        0
    } else {
        axis + 1
    };
    let ghost nodes0 = nodes@;
    let left_idx: Option<usize> = if m > 0 {
        Some(build_node(nodes, &left_sub, next_axis))
    } else {
        None
    };
    let ghost nodes1 = nodes@;
    let right_idx: Option<usize> = if len - m - 1 > 0 {
        Some(build_node(nodes, &right_sub, next_axis))
    } else {
        None
    };
    let ghost nodes2 = nodes@;
    proof {
        if left_idx is Some {
            lemma_subtree_prefix(nodes1, nodes2, left_idx->0 as int);
        }
    }
    nodes.push(
        KDTreeNode { photon, split_axis: axis as u32, left: left_idx, right: right_idx, size: len },
    );
    let root = nodes.len() - 1;
    proof {
        broadcast use group_to_multiset_ensures;

        let nodes3 = nodes@;
        let r = root as int;
        assert(nodes3[r].left == left_idx && nodes3[r].right == right_idx);
        if left_idx is Some {
            lemma_subtree_prefix(nodes2, nodes3, left_idx->0 as int);
        }
        if right_idx is Some {
            lemma_subtree_prefix(nodes2, nodes3, right_idx->0 as int);
        }
        let lm = match nodes3[r].left {
            Some(j) => subtree_ms(nodes3, j as int),
            None => Multiset::<Photon>::empty(),
        };
        let rm = match nodes3[r].right {
            Some(j) => subtree_ms(nodes3, j as int),
            None => Multiset::<Photon>::empty(),
        };
        if left_idx is None {
            vstd::multiset::lemma_multiset_empty_len(left_sub@.to_multiset());
        }
        if right_idx is None {
            vstd::multiset::lemma_multiset_empty_len(right_sub@.to_multiset());
        }
        assert(lm == left_sub@.to_multiset());
        assert(rm == right_sub@.to_multiset());
        assert(subtree_ms(nodes3, r) =~= lm.add(rm).insert(photon));
        // The sorted sequence decomposes around the median record.
        assert(sorted@ =~= left_sub@ + (seq![photon] + right_sub@));
        lemma_multiset_commutative(left_sub@, seq![photon] + right_sub@);
        lemma_multiset_commutative(seq![photon], right_sub@);
        lemma_singleton_ms(photon);
        assert(sorted@.to_multiset() == left_sub@.to_multiset().add(
            Multiset::empty().insert(photon).add(right_sub@.to_multiset()),
        ));
        assert(subtree_ms(nodes3, r) =~= sorted@.to_multiset());
        assert(subtree_ms(nodes3, r) == records@.to_multiset());
        // Well-formedness: size, and the k-d ordering on each side.
        assert(nodes3[r].size == subtree_ms(nodes3, r).len());
        match nodes3[r].left {
            Some(j) => {
                assert forall|p: Photon| #[trigger] subtree_ms(nodes3, j as int).count(p)
                    > 0 implies p.position.lane(axis as int) < photon.position.lane(
                    axis as int,
                ) by {
                    assert(left_sub@.to_multiset().count(p) > 0);
                    assert(left_sub@.contains(p));
                    let idx = choose|idx: int|
                        0 <= idx < left_sub@.len() && left_sub@[idx] == p;
                    assert(sorted@[idx] == p);
                }
            },
            None => {},
        }
        match nodes3[r].right {
            Some(j) => {
                assert forall|p: Photon| #[trigger] subtree_ms(nodes3, j as int).count(p)
                    > 0 implies p.position.lane(axis as int) >= photon.position.lane(
                    axis as int,
                ) by {
                    assert(right_sub@.to_multiset().count(p) > 0);
                    assert(right_sub@.contains(p));
                    let idx = choose|idx: int|
                        0 <= idx < right_sub@.len() && right_sub@[idx] == p;
                    assert(sorted@[m + 1 + idx] == p);
                }
            },
            None => {},
        }
        assert(subtree_wf(nodes3, r));
    }
    root
}

/// `v` with the lane selected by `axis` replaced by `value`.
fn with_lane(v: Vector4, axis: usize, value: i32) -> (r: Vector4)
    requires
        axis < 4,
    ensures
        r.x == (if axis == 0 { value } else { v.x }),
        r.y == (if axis == 1 { value } else { v.y }),
        r.z == (if axis == 2 { value } else { v.z }),
        r.t == (if axis == 3 { value } else { v.t }),
{
    if axis == 0 {
        Vector4 { x: value, ..v }
    } else if axis == 1 {
        Vector4 { y: value, ..v }
    } else if axis == 2 {
        Vector4 { z: value, ..v }
    } else {
        Vector4 { t: value, ..v }
    }
}

/// One search frontier entry: a node of the tree (by arena index), the
/// exact bounding box of its subtree's positions, the admissible lower
/// bound on the squared distance from the query point to that box, and
/// the size of the subtree.  Frontier entries live only inside one query.
pub struct NodeWithKnownBoundsAndMinDistance {
    pub mins: Vector4,
    pub maxs: Vector4,
    pub node: usize,
    pub min_distance: i128,
    pub tree_size: usize,
}

impl NodeWithKnownBoundsAndMinDistance {
    /// Builds a frontier entry.  The bound must not be negative, the
    /// subtree cannot be empty, and the box corners must be in
    /// elementwise order; violating any of these is a caller error.
    pub fn new(
        mins: Vector4,
        maxs: Vector4,
        node: usize,
        min_distance: i128,
        tree_size: usize,
    ) -> (e: NodeWithKnownBoundsAndMinDistance)
        requires
            min_distance >= 0,
            tree_size >= 1,
            lanes_le(mins, maxs),
        ensures
            e == (NodeWithKnownBoundsAndMinDistance { mins, maxs, node, min_distance, tree_size }),
    {
        NodeWithKnownBoundsAndMinDistance { mins, maxs, node, min_distance, tree_size }
    }
}

/// The frontier entry invariant during a query: the entry's node roots a
/// well-formed subtree, the box corners are ordered, every photon of the
/// subtree lies within the box, the bound is exactly the squared distance
/// from the query point to the box, and the recorded size is the
/// subtree's photon count.
pub open spec fn entry_inv(
    nodes: Seq<KDTreeNode>,
    query: Vector4,
    e: NodeWithKnownBoundsAndMinDistance,
) -> bool {
    &&& subtree_wf(nodes, e.node as int)
    &&& lanes_le(e.mins, e.maxs)
    &&& forall|p: Photon|
        #[trigger] subtree_ms(nodes, e.node as int).count(p) > 0 ==> in_box(
            p.position,
            e.mins,
            e.maxs,
        )
    &&& e.min_distance as int == box_dist_sq(query, e.mins, e.maxs)
    &&& e.tree_size == subtree_ms(nodes, e.node as int).len()
}

/// The multiset of photons covered by a frontier: the union of the
/// subtrees of its entries.
pub open spec fn cover(
    entries: Seq<NodeWithKnownBoundsAndMinDistance>,
    nodes: Seq<KDTreeNode>,
) -> Multiset<Photon>
    decreases entries.len(),
{
    if entries.len() == 0 {
        Multiset::empty()
    } else {
        cover(entries.drop_last(), nodes).add(subtree_ms(nodes, entries.last().node as int))
    }
}

/// Pushing an entry adds its subtree to the frontier's coverage.
proof fn lemma_cover_push(
    entries: Seq<NodeWithKnownBoundsAndMinDistance>,
    nodes: Seq<KDTreeNode>,
    e: NodeWithKnownBoundsAndMinDistance,
)
    ensures
        cover(entries.push(e), nodes) == cover(entries, nodes).add(
            subtree_ms(nodes, e.node as int),
        ),
{
    assert(entries.push(e).drop_last() =~= entries);
}

/// Removing an entry takes exactly its subtree out of the frontier's
/// coverage.
proof fn lemma_cover_remove(
    entries: Seq<NodeWithKnownBoundsAndMinDistance>,
    nodes: Seq<KDTreeNode>,
    i: int,
)
    requires
        0 <= i < entries.len(),
    ensures
        cover(entries, nodes) == cover(entries.remove(i), nodes).add(
            subtree_ms(nodes, entries[i].node as int),
        ),
    decreases entries.len(),
{
    if i == entries.len() - 1 {
        assert(entries.remove(i) =~= entries.drop_last());
    } else {
        lemma_cover_remove(entries.drop_last(), nodes, i);
        assert(entries.remove(i).drop_last() =~= entries.drop_last().remove(i));
        assert(entries.remove(i).last() == entries.last());
        assert(cover(entries.remove(i), nodes).add(subtree_ms(nodes, entries[i].node as int))
            =~= cover(entries, nodes));
    }
}

/// A photon covered by a frontier is covered by one of its entries.
proof fn lemma_cover_member(
    entries: Seq<NodeWithKnownBoundsAndMinDistance>,
    nodes: Seq<KDTreeNode>,
    p: Photon,
)
    requires
        cover(entries, nodes).count(p) > 0,
    ensures
        exists|j: int|
            0 <= j < entries.len() && subtree_ms(nodes, #[trigger] entries[j].node as int).count(p)
                > 0,
    decreases entries.len(),
{
    if entries.len() > 0 {
        if subtree_ms(nodes, entries.last().node as int).count(p) > 0 {
            assert(subtree_ms(nodes, entries[entries.len() - 1].node as int).count(p) > 0);
        } else {
            lemma_cover_member(entries.drop_last(), nodes, p);
            let j = choose|j: int|
                0 <= j < entries.drop_last().len() && subtree_ms(
                    nodes,
                    #[trigger] entries.drop_last()[j].node as int,
                ).count(p) > 0;
            assert(subtree_ms(nodes, entries[j].node as int).count(p) > 0);
        }
    }
}

/// Every photon inside an entry's subtree lies at least the entry's
/// bound away from the query point: the bound is admissible.
proof fn lemma_entry_lower_bound(
    nodes: Seq<KDTreeNode>,
    query: Vector4,
    e: NodeWithKnownBoundsAndMinDistance,
    p: Photon,
)
    requires
        entry_inv(nodes, query, e),
        subtree_ms(nodes, e.node as int).count(p) > 0,
    ensures
        dist_sq(query, p.position) >= e.min_distance,
{
    crate::vector4::lemma_box_dist_sq_admissible(query, p.position, e.mins, e.maxs);
}

/// Takes the entry with the smallest bound out of the frontier.
#[verifier::loop_isolation(false)]
fn pop_min(frontier: &mut Vec<NodeWithKnownBoundsAndMinDistance>) -> (e:
    NodeWithKnownBoundsAndMinDistance)
    requires
        old(frontier)@.len() >= 1,
    ensures
        final(frontier)@.len() == old(frontier)@.len() - 1,
        exists|i: int|
            0 <= i < old(frontier)@.len() && e == old(frontier)@[i] && final(frontier)@ == old(
                frontier,
            )@.remove(i),
        forall|j: int|
            0 <= j < final(frontier)@.len() ==> (#[trigger] final(frontier)@[j]).min_distance
                >= e.min_distance,
{
    let mut best: usize = 0;
    let mut i: usize = 1;
    while i < frontier.len()
        invariant
            best < i <= frontier@.len(),
            forall|j: int|
                0 <= j < i ==> (#[trigger] frontier@[j]).min_distance
                    >= frontier@[best as int].min_distance,
        decreases frontier@.len() - i,
    {
        if frontier[i].min_distance < frontier[best].min_distance {
            best = i;
        }
        i = i + 1;
    }
    let e = frontier.remove(best);
    proof {
        assert(final(frontier)@ == old(frontier)@.remove(best as int));
        assert forall|j: int| 0 <= j < frontier@.len() implies (#[trigger] frontier@[j]).min_distance
            >= e.min_distance by {
            if j < best {
                assert(frontier@[j] == old(frontier)@[j]);
            } else {
                assert(frontier@[j] == old(frontier)@[j + 1]);
            }
        }
    }
    e
}

/// The positions' photons of a result sequence, in order.
pub open spec fn result_photons(s: Seq<(Photon, i128)>) -> Seq<Photon> {
    s.map_values(|e: (Photon, i128)| e.0)
}

/// The result sequence is sorted in ascending order of distance.
pub open spec fn sorted_by_dist(s: Seq<(Photon, i128)>) -> bool {
    forall|a: int, b: int| 0 <= a <= b < s.len() ==> s[a].1 <= s[b].1
}

/// Offers a candidate to the bounded result set: keep the `k` smallest
/// distances seen so far, in ascending order, evicting the current worst
/// when the set would overflow.
#[verifier::loop_isolation(false)]
fn offer(results: &mut Vec<(Photon, i128)>, photon: Photon, d: i128, k: usize)
    requires
        k >= 1,
        old(results)@.len() <= k,
        sorted_by_dist(old(results)@),
    ensures
        sorted_by_dist(final(results)@),
        final(results)@.len() == (if old(results)@.len() < k {
            old(results)@.len() as int + 1
        } else {
            k as int
        }),
        (if old(results)@.len() < k {
            &&& result_photons(final(results)@).to_multiset() == result_photons(
                old(results)@,
            ).to_multiset().insert(photon)
            &&& final(results)@.to_multiset() == old(results)@.to_multiset().insert((photon, d))
        } else if d >= old(results)@.last().1 {
            final(results)@ == old(results)@
        } else {
            &&& result_photons(final(results)@).to_multiset().insert(old(results)@.last().0)
                == result_photons(old(results)@).to_multiset().insert(photon)
            &&& final(results)@.to_multiset().insert(old(results)@.last()) == old(
                results,
            )@.to_multiset().insert((photon, d))
            &&& final(results)@.last().1 <= old(results)@.last().1
        }),
{
    proof {
        broadcast use group_to_multiset_ensures;

    }
    let ghost old_r = results@;
    let mut pos: usize = 0;
    while pos < results.len() && results[pos].1 <= d
        invariant
            pos <= results@.len(),
            forall|a: int| 0 <= a < pos ==> results@[a].1 <= d,
        decreases results@.len() - pos,
    {
        pos = pos + 1;
    }
    if pos == results.len() && results.len() >= k {
        // The candidate is no better than the current worst of a full
        // set: leave the set unchanged.
        return ;
    }
    results.insert(pos, (photon, d));
    proof {
        broadcast use group_to_multiset_ensures;

        assert(result_photons(results@) =~= result_photons(old_r).insert(pos as int, photon));
        assert(result_photons(results@).to_multiset() == result_photons(
            old_r,
        ).to_multiset().insert(photon));
        assert(results@ == old_r.insert(pos as int, (photon, d)));
        assert(results@.to_multiset() == old_r.to_multiset().insert((photon, d)));
        assert forall|a: int, b: int| 0 <= a <= b < results@.len() implies results@[a].1
            <= results@[b].1 by {
            if b < pos {
            } else if a > pos {
                assert(results@[a] == old_r[a - 1]);
                assert(results@[b] == old_r[b - 1]);
            } else if a < pos && b == pos {
                assert(results@[a] == old_r[a]);
            } else if a == pos && b > pos {
                assert(results@[b] == old_r[b - 1]);
            } else if a < pos && b > pos {
                assert(results@[a] == old_r[a]);
                assert(results@[b] == old_r[b - 1]);
            }
        }
    }
    if results.len() > k {
        let ghost mid_r = results@;
        let evicted = results.pop().unwrap();
        proof {
            broadcast use group_to_multiset_ensures;

            assert(evicted == old_r.last());
            assert(mid_r == results@.push(evicted));
            assert(result_photons(mid_r) =~= result_photons(results@).push(evicted.0));
            assert(result_photons(mid_r).to_multiset() == result_photons(
                results@,
            ).to_multiset().insert(evicted.0));
            assert(mid_r.to_multiset() == results@.to_multiset().insert(evicted));
            assert(results@.to_multiset().insert(old_r.last()) == old_r.to_multiset().insert(
                (photon, d),
            ));
            assert(results@.last() == mid_r[results@.len() - 1]);
            assert(sorted_by_dist(mid_r));
            assert(results@.last().1 <= old_r.last().1);
        }
    }
}

/// The photons of `records` whose squared distance from `query` is at
/// most `max_distance_squared`: the candidates a query must choose from.
pub open spec fn qualifying(
    records: Multiset<Photon>,
    query: Vector4,
    max_distance_squared: int,
) -> Multiset<Photon> {
    records.filter(|p: Photon| dist_sq(query, p.position) <= max_distance_squared)
}

/// Inserting a photon grows the qualifying set exactly when the photon
/// qualifies.
proof fn lemma_qual_insert(m: Multiset<Photon>, query: Vector4, maxd: int, ph: Photon)
    ensures
        qualifying(m.insert(ph), query, maxd) == (if dist_sq(query, ph.position) <= maxd {
            qualifying(m, query, maxd).insert(ph)
        } else {
            qualifying(m, query, maxd)
        }),
{
    if dist_sq(query, ph.position) <= maxd {
        assert(qualifying(m.insert(ph), query, maxd) =~= qualifying(m, query, maxd).insert(ph));
    } else {
        assert(qualifying(m.insert(ph), query, maxd) =~= qualifying(m, query, maxd));
    }
}

/// The qualifying set distributes over multiset union.
proof fn lemma_qual_add(a: Multiset<Photon>, b: Multiset<Photon>, query: Vector4, maxd: int)
    ensures
        qualifying(a.add(b), query, maxd) == qualifying(a, query, maxd).add(
            qualifying(b, query, maxd),
        ),
{
    assert(qualifying(a.add(b), query, maxd) =~= qualifying(a, query, maxd).add(
        qualifying(b, query, maxd),
    ));
}

/// A subtree always holds at least its own node's photon.
proof fn lemma_subtree_nonempty(nodes: Seq<KDTreeNode>, i: int)
    requires
        0 <= i < nodes.len(),
    ensures
        subtree_ms(nodes, i).count(nodes[i].photon) > 0,
        subtree_ms(nodes, i).len() >= 1,
{
    assert(subtree_ms(nodes, i).count(nodes[i].photon) > 0);
}

/// An empty result sequence returns no photons.
proof fn lemma_empty_result_ms()
    ensures
        result_photons(Seq::<(Photon, i128)>::empty()).to_multiset() == Multiset::<
            Photon,
        >::empty(),
{
    broadcast use group_to_multiset_ensures;

    vstd::multiset::lemma_multiset_empty_len(
        result_photons(Seq::<(Photon, i128)>::empty()).to_multiset(),
    );
}

/// What `nearest_k` promises: the result is sorted in ascending order of
/// distance; each entry carries its photon's exact squared distance from
/// the query point, within the distance cap; the returned photons are
/// qualifying records; the result holds `k` of them, or every one of
/// them when fewer than `k` qualify; and any qualifying record left out
/// is no closer than the farthest returned one — the result is exactly
/// a set of `k` qualifying records with minimal distances.
pub open spec fn valid_result(
    records: Multiset<Photon>,
    query: Vector4,
    k: int,
    max_distance_squared: int,
    results: Seq<(Photon, i128)>,
) -> bool {
    let q = qualifying(records, query, max_distance_squared);
    let r = result_photons(results).to_multiset();
    &&& sorted_by_dist(results)
    &&& forall|i: int|
        0 <= i < results.len() ==> (#[trigger] results[i]).1 == dist_sq(
            query,
            results[i].0.position,
        ) && results[i].1 <= max_distance_squared
    &&& r.subset_of(q)
    &&& results.len() == (if k <= q.len() {
        k
    } else {
        q.len() as int
    })
    &&& forall|p: Photon|
        #[trigger] q.count(p) > r.count(p) ==> results.len() == k && (results.len() > 0
            ==> dist_sq(query, p.position) >= results[results.len() - 1].1)
}

/// With a distance cap of zero, a record qualifies exactly when it sits
/// at the query point itself, at squared distance zero.
pub proof fn lemma_zero_cap_keeps_exact_matches(
    records: Multiset<Photon>,
    query: Vector4,
    p: Photon,
)
    ensures
        qualifying(records, query, 0).count(p) > 0 <==> records.count(p) > 0 && p.position
            == query,
{
    crate::vector4::lemma_dist_sq_zero_iff_eq(query, p.position);
}

/// The distances of a result sequence, in order.
pub open spec fn result_distances(s: Seq<(Photon, i128)>) -> Seq<i128> {
    s.map_values(|e: (Photon, i128)| e.1)
}

/// A multiset is no larger than one it is contained in.
proof fn lemma_subset_len(a: Multiset<Photon>, b: Multiset<Photon>)
    requires
        a.subset_of(b),
    ensures
        a.len() <= b.len(),
{
    assert(b.sub(a).len() == b.len() - a.len());
}

/// In a valid result, at least `i + 1` records qualify within the
/// distance returned at position `i`: the first `i + 1` returned records
/// themselves.
proof fn lemma_valid_result_le_count_lower(
    records: Multiset<Photon>,
    query: Vector4,
    k: int,
    maxd: int,
    r: Seq<(Photon, i128)>,
    i: int,
)
    requires
        valid_result(records, query, k, maxd, r),
        0 <= i < r.len(),
    ensures
        qualifying(records, query, r[i].1 as int).len() >= i + 1,
{
    broadcast use group_to_multiset_ensures;

    let d = r[i].1 as int;
    let q = qualifying(records, query, maxd);
    let qd = qualifying(records, query, d);
    let photons = result_photons(r);
    let pre = photons.take(i + 1);
    assert(photons =~= pre + photons.skip(i + 1));
    lemma_multiset_commutative(pre, photons.skip(i + 1));
    assert forall|p: Photon| pre.to_multiset().count(p) <= qd.count(p) by {
        if pre.to_multiset().count(p) > 0 {
            assert(pre.contains(p));
            let j = choose|j: int| 0 <= j < pre.len() && pre[j] == p;
            assert(photons[j] == r[j].0);
            assert(r[j].1 <= r[i].1);
            assert(dist_sq(query, p.position) <= d);
            assert(photons.to_multiset().count(p) == pre.to_multiset().count(p) + photons.skip(
                i + 1,
            ).to_multiset().count(p));
            assert(q.count(p) <= records.count(p));
            assert(qd.count(p) == records.count(p));
        }
    }
    assert(pre.to_multiset().subset_of(qd));
    lemma_subset_len(pre.to_multiset(), qd);
    assert(pre.to_multiset().len() == pre.len());
}

/// In a valid result, at most `i` records qualify within any distance
/// strictly below the distance returned at position `i`: such records
/// are all returned, and they sit among the first `i` positions.
proof fn lemma_valid_result_le_count_upper(
    records: Multiset<Photon>,
    query: Vector4,
    k: int,
    maxd: int,
    r: Seq<(Photon, i128)>,
    i: int,
    d: int,
)
    requires
        valid_result(records, query, k, maxd, r),
        0 <= i < r.len(),
        d < r[i].1 as int,
        d <= maxd,
    ensures
        qualifying(records, query, d).len() <= i,
{
    broadcast use group_to_multiset_ensures;

    let q = qualifying(records, query, maxd);
    let qd = qualifying(records, query, d);
    let photons = result_photons(r);
    let rms = photons.to_multiset();
    let pre = photons.take(i);
    assert(photons =~= pre + photons.skip(i));
    lemma_multiset_commutative(pre, photons.skip(i));
    assert forall|p: Photon| qd.count(p) <= pre.to_multiset().count(p) by {
        if qd.count(p) > 0 {
            assert(dist_sq(query, p.position) <= d);
            assert(qd.count(p) == records.count(p));
            assert(q.count(p) == records.count(p));
            // Every such record is returned: leaving one out would put
            // it at or beyond the worst returned distance, which already
            // exceeds `d`.
            assert(r[r.len() - 1].1 >= r[i].1);
            assert(q.count(p) <= rms.count(p));
            // And none of its copies sits at position `i` or later.
            assert(photons.skip(i).to_multiset().count(p) == 0) by {
                if photons.skip(i).to_multiset().count(p) > 0 {
                    assert(photons.skip(i).contains(p));
                    let j = choose|j: int|
                        0 <= j < photons.skip(i).len() && photons.skip(i)[j] == p;
                    assert(photons[i + j] == r[i + j].0);
                    assert(r[i].1 <= r[i + j].1);
                    assert(dist_sq(query, p.position) == r[i + j].1 as int);
                }
            }
            assert(rms.count(p) == pre.to_multiset().count(p));
        }
    }
    assert(qd.subset_of(pre.to_multiset()));
    lemma_subset_len(qd, pre.to_multiset());
    assert(pre.to_multiset().len() == pre.len());
}

/// The query contract is deterministic in the distances: any two valid
/// results for the same index contents and the same query parameters
/// return exactly the same distances in the same order.  Repeated
/// queries with identical arguments against the same immutable index
/// therefore agree with each other — and with an exhaustive scan that
/// keeps the `k` smallest qualifying distances — on every distance
/// returned; only the choice among records at exactly equal distance is
/// left open.
pub proof fn lemma_valid_result_distances_unique(
    records: Multiset<Photon>,
    query: Vector4,
    k: int,
    maxd: int,
    r1: Seq<(Photon, i128)>,
    r2: Seq<(Photon, i128)>,
)
    requires
        valid_result(records, query, k, maxd, r1),
        valid_result(records, query, k, maxd, r2),
    ensures
        result_distances(r1) == result_distances(r2),
{
    assert(r1.len() == r2.len());
    assert forall|i: int| 0 <= i < r1.len() implies r1[i].1 == r2[i].1 by {
        if (r1[i].1 as int) < (r2[i].1 as int) {
            lemma_valid_result_le_count_lower(records, query, k, maxd, r1, i);
            lemma_valid_result_le_count_upper(records, query, k, maxd, r2, i, r1[i].1 as int);
        } else if (r2[i].1 as int) < (r1[i].1 as int) {
            lemma_valid_result_le_count_lower(records, query, k, maxd, r2, i);
            lemma_valid_result_le_count_upper(records, query, k, maxd, r1, i, r2[i].1 as int);
        }
    }
    assert(result_distances(r1) =~= result_distances(r2));
}

/// The spatial index: the arena of tree nodes, the arena index of the
/// root (absent exactly when the index is empty), the overall bounding
/// box of every indexed position, and the total record count.
pub struct PhotonMap {
    count: usize,
    mins: Vector4,
    maxs: Vector4,
    nodes: Vec<KDTreeNode>,
    root: Option<usize>,
}

impl PhotonMap {
    /// The multiset of photons held by the index.
    pub closed spec fn records(self) -> Multiset<Photon> {
        match self.root {
            Some(r) => subtree_ms(self.nodes@, r as int),
            None => Multiset::empty(),
        }
    }

    /// The index is well formed: the tree is a well-formed k-d tree, the
    /// stored count is the number of records, the bounding box corners
    /// are in elementwise order and every indexed position lies within
    /// them.
    pub closed spec fn wf(self) -> bool {
        &&& match self.root {
            Some(r) => (r as int) < self.nodes@.len() && subtree_wf(self.nodes@, r as int),
            None => true,
        }
        &&& self.count == self.records().len()
        &&& lanes_le(self.mins, self.maxs)
        &&& forall|p: Photon|
            #[trigger] self.records().count(p) > 0 ==> in_box(p.position, self.mins, self.maxs)
    }

    /// The number of records held by the index.
    pub fn count(&self) -> (r: usize)
        requires
            self.wf(),
        ensures
            r == self.records().len(),
    {
        self.count
    }

    /// Builds the index from a record sequence, taking ownership of it.
    /// An empty sequence yields a valid empty index.  The index holds
    /// exactly the given records.
    #[verifier::loop_isolation(false)]
    pub fn build(records: Vec<Photon>) -> (map: PhotonMap)
        ensures
            map.wf(),
            map.records() == records@.to_multiset(),
            map.records().len() == records@.len(),
    {
        proof {
            broadcast use group_to_multiset_ensures;

        }
        if records.len() == 0 {
            let zero = Vector4 { x: 0, y: 0, z: 0, t: 0 };
            proof {
                vstd::multiset::lemma_multiset_empty_len(records@.to_multiset());
            }
            return PhotonMap { count: 0, mins: zero, maxs: zero, nodes: Vec::new(), root: None };
        }
        let mut mins = records[0].position;
        let mut maxs = records[0].position;
        let mut i: usize = 1;
        while i < records.len()
            invariant
                1 <= i <= records@.len(),
                lanes_le(mins, maxs),
                forall|j: int| 0 <= j < i ==> in_box(records@[j].position, mins, maxs),
            decreases records@.len() - i,
        {
            mins = mins.min(records[i].position);
            maxs = maxs.max(records[i].position);
            i = i + 1;
        }
        let mut nodes: Vec<KDTreeNode> = Vec::new();
        let root = build_node(&mut nodes, &records, 0);
        let map = PhotonMap {
            count: records.len(),
            mins,
            maxs,
            nodes,
            root: Some(root),
        };
        proof {
            broadcast use group_to_multiset_ensures;

            assert(map.records() == records@.to_multiset());
            assert forall|p: Photon| #[trigger] map.records().count(p) > 0 implies in_box(
                p.position,
                map.mins,
                map.maxs,
            ) by {
                assert(records@.contains(p));
                let idx = choose|idx: int| 0 <= idx < records@.len() && records@[idx] == p;
                assert(in_box(records@[idx].position, mins, maxs));
            }
        }
        map
    }

    /// Returns up to `k` records nearest to `query_point`, in ascending
    /// order of squared distance, each with its exact squared distance,
    /// keeping only records within `max_distance_squared`.  If fewer than
    /// `k` records qualify, all of them are returned.  The search is a
    /// best-first branch-and-bound walk of the tree: a priority queue of
    /// frontier entries ordered by ascending admissible lower bound, with
    /// whole subtrees pruned as soon as the smallest remaining bound
    /// cannot beat the current k-th best candidate.  The query never
    /// changes the index.
    #[verifier::loop_isolation(false)]
    #[verifier::rlimit(100)]
    pub fn nearest_k(&self, query_point: Vector4, k: usize, max_distance_squared: i128) -> (results:
        Vec<(Photon, i128)>)
        requires
            self.wf(),
        ensures
            valid_result(
                self.records(),
                query_point,
                k as int,
                max_distance_squared as int,
                results@,
            ),
    {
        let query = query_point;
        let ghost all = self.records();
        let ghost maxd = max_distance_squared as int;
        let ghost qall = qualifying(all, query, maxd);
        let ghost nodes_seq = self.nodes@;
        let mut results: Vec<(Photon, i128)> = Vec::new();
        proof {
            lemma_empty_result_ms();
        }
        if k == 0 {
            return results;
        }
        let root_idx: usize;
        match self.root {
            None => {
                proof {
                    vstd::multiset::lemma_multiset_empty_len(qall);
                    assert(qall =~= Multiset::<Photon>::empty());
                }
                return results;
            },
            Some(r) => {
                root_idx = r;
            },
        }
        let mut frontier: Vec<NodeWithKnownBoundsAndMinDistance> = Vec::new();
        let root_min = query.distance_squared_to_bounding_box(self.mins, self.maxs);
        proof {
            lemma_subtree_nonempty(nodes_seq, root_idx as int);
        }
        let root_entry = NodeWithKnownBoundsAndMinDistance::new(
            self.mins,
            self.maxs,
            root_idx,
            root_min,
            self.count,
        );
        proof {
            lemma_cover_push(frontier@, nodes_seq, root_entry);
        }
        frontier.push(root_entry);
        let ghost mut evaluated: Multiset<Photon> = Multiset::empty();
        proof {
            assert(evaluated.add(cover(frontier@, nodes_seq)) =~= all);
            assert(entry_inv(nodes_seq, query, root_entry));
            vstd::multiset::lemma_multiset_empty_len(qualifying(evaluated, query, maxd));
            assert(qualifying(evaluated, query, maxd) =~= Multiset::<Photon>::empty());
        }
        while frontier.len() > 0
            invariant
                sorted_by_dist(results@),
                results@.len() <= k,
                forall|i: int|
                    0 <= i < results@.len() ==> (#[trigger] results@[i]).1 == dist_sq(
                        query,
                        results@[i].0.position,
                    ) && results@[i].1 <= maxd,
                result_photons(results@).to_multiset().subset_of(
                    qualifying(evaluated, query, maxd),
                ),
                results@.len() <= qualifying(evaluated, query, maxd).len(),
                results@.len() < k ==> results@.len() == qualifying(evaluated, query, maxd).len(),
                evaluated.add(cover(frontier@, nodes_seq)) == all,
                forall|j: int|
                    0 <= j < frontier@.len() ==> entry_inv(nodes_seq, query, #[trigger] frontier@[j]),
                forall|p: Photon|
                    #[trigger] qualifying(evaluated, query, maxd).count(p) > result_photons(
                        results@,
                    ).to_multiset().count(p) ==> results@.len() == k && dist_sq(query, p.position)
                        >= results@[results@.len() - 1].1,
            decreases 2 * cover(frontier@, nodes_seq).len() + frontier@.len(),
        {
            let ghost pre_frontier = frontier@;
            let entry = pop_min(&mut frontier);
            let ghost ni = entry.node as int;
            let ghost e_ms = subtree_ms(nodes_seq, ni);
            proof {
                let i = choose|i: int|
                    0 <= i < pre_frontier.len() && entry == pre_frontier[i] && frontier@
                        == pre_frontier.remove(i);
                lemma_cover_remove(pre_frontier, nodes_seq, i);
                assert(entry_inv(nodes_seq, query, entry));
                assert(evaluated.add(cover(frontier@, nodes_seq).add(e_ms)) =~= all);
            }
            if results.len() == k && entry.min_distance > results[k - 1].1 {
                // Prune: the result set is full and even the nearest
                // remaining frontier entry cannot beat the current worst
                // candidate; every other entry's bound is at least this
                // one's, so the whole rest of the search is discarded.
                proof {
                    let qe = qualifying(evaluated, query, maxd);
                    let rest = cover(frontier@, nodes_seq).add(e_ms);
                    let rm = result_photons(results@).to_multiset();
                    lemma_qual_add(evaluated, rest, query, maxd);
                    assert(all == evaluated.add(rest));
                    assert(qall == qe.add(qualifying(rest, query, maxd)));
                    assert forall|p: Photon| #[trigger] qall.count(p) > rm.count(p) implies results@.len()
                        == k && (results@.len() > 0 ==> dist_sq(query, p.position)
                        >= results@[results@.len() - 1].1) by {
                        if qe.count(p) > rm.count(p) {
                        } else {
                            assert(qualifying(rest, query, maxd).count(p) > 0);
                            assert(rest.count(p) > 0);
                            if cover(frontier@, nodes_seq).count(p) > 0 {
                                lemma_cover_member(frontier@, nodes_seq, p);
                                let j = choose|j: int|
                                    0 <= j < frontier@.len() && subtree_ms(
                                        nodes_seq,
                                        #[trigger] frontier@[j].node as int,
                                    ).count(p) > 0;
                                lemma_entry_lower_bound(nodes_seq, query, frontier@[j], p);
                                assert(frontier@[j].min_distance >= entry.min_distance);
                            } else {
                                assert(e_ms.count(p) > 0);
                                lemma_entry_lower_bound(nodes_seq, query, entry, p);
                            }
                        }
                    }
                    assert(qall.len() >= qe.len());
                }
                return results;
            }
            let node = self.nodes[entry.node];
            let d = query.distance_squared(node.photon.position);
            let ghost pre_eval = evaluated;
            let ghost pre_results = results@;
            let ghost qe0 = qualifying(pre_eval, query, maxd);
            if d <= max_distance_squared {
                offer(&mut results, node.photon, d, k);
            }
            proof {
                evaluated = pre_eval.insert(node.photon);
                lemma_qual_insert(pre_eval, query, maxd, node.photon);
                let ph = node.photon;
                let qe1 = qualifying(evaluated, query, maxd);
                let r0 = result_photons(pre_results).to_multiset();
                let r1 = result_photons(results@).to_multiset();
                broadcast use group_to_multiset_ensures;

                if d as int > maxd {
                    assert(qe1 == qe0);
                    assert(results@ == pre_results);
                } else {
                    assert(qe1 == qe0.insert(ph));
                    vstd::multiset::lemma_insert_len(qe0, ph);
                    if pre_results.len() < k {
                        assert(r1 == r0.insert(ph));
                        assert(results@.to_multiset() == pre_results.to_multiset().insert(
                            (ph, d),
                        ));
                        assert forall|i: int| 0 <= i < results@.len() implies (
                        #[trigger] results@[i]).1 == dist_sq(query, results@[i].0.position)
                            && results@[i].1 <= maxd by {
                            assert(results@.to_multiset().count(results@[i]) > 0);
                            if results@[i] != (ph, d) {
                                assert(pre_results.to_multiset().count(results@[i]) > 0);
                                assert(pre_results.contains(results@[i]));
                                let j = choose|j: int|
                                    0 <= j < pre_results.len() && pre_results[j] == results@[i];
                                assert(result_photons(pre_results)[j] == results@[i].0);
                            }
                        }
                        assert(r1.subset_of(qe1)) by {
                            assert forall|p: Photon| r1.count(p) <= qe1.count(p) by {
                                assert(r0.count(p) <= qe0.count(p));
                            }
                        }
                        assert forall|p: Photon| #[trigger] qe1.count(p) > r1.count(p) implies results@.len()
                            == k && dist_sq(query, p.position)
                            >= results@[results@.len() - 1].1 by {
                            assert(qe0.count(p) > r0.count(p));
                        }
                    } else {
                        assert(pre_results.len() == k);
                        let worst = pre_results[k - 1];
                        assert(worst == pre_results.last());
                        assert(worst.1 == dist_sq(query, worst.0.position));
                        if d >= worst.1 {
                            assert(results@ == pre_results);
                            assert forall|p: Photon| #[trigger] qe1.count(p) > r1.count(
                                p,
                            ) implies results@.len() == k && dist_sq(query, p.position)
                                >= results@[results@.len() - 1].1 by {
                                if p == ph && qe0.count(p) <= r0.count(p) {
                                    assert(dist_sq(query, ph.position) == d as int);
                                } else {
                                    assert(qe0.count(p) > r0.count(p));
                                }
                            }
                        } else {
                            // A closer candidate evicted the worst one.
                            let w = worst.0;
                            assert(r1.insert(w) == r0.insert(ph));
                            assert(results@.to_multiset().insert(worst) == pre_results.to_multiset().insert(
                                (ph, d),
                            ));
                            assert forall|i: int| 0 <= i < results@.len() implies (
                            #[trigger] results@[i]).1 == dist_sq(query, results@[i].0.position)
                                && results@[i].1 <= maxd by {
                                assert(results@.to_multiset().count(results@[i]) > 0);
                                assert(results@.to_multiset().insert(worst).count(results@[i])
                                    > 0);
                                if results@[i] != (ph, d) {
                                    assert(pre_results.to_multiset().count(results@[i]) > 0);
                                    assert(pre_results.contains(results@[i]));
                                    let j = choose|j: int|
                                        0 <= j < pre_results.len() && pre_results[j]
                                            == results@[i];
                                    assert(result_photons(pre_results)[j] == results@[i].0);
                                }
                            }
                            assert(r1.subset_of(qe1)) by {
                                assert forall|p: Photon| r1.count(p) <= qe1.count(p) by {
                                    assert(r1.insert(w).count(p) == r0.insert(ph).count(p));
                                    if p == w {
                                        assert(r1.count(p) + 1 == r0.insert(ph).count(p));
                                    } else {
                                        assert(r1.count(p) == r0.insert(ph).count(p));
                                    }
                                }
                            }
                            assert forall|p: Photon| #[trigger] qe1.count(p) > r1.count(
                                p,
                            ) implies results@.len() == k && dist_sq(query, p.position)
                                >= results@[results@.len() - 1].1 by {
                                assert(r1.insert(w).count(p) == r0.insert(ph).count(p));
                                if p == w {
                                    assert(dist_sq(query, w.position) == worst.1);
                                    assert(results@[results@.len() - 1].1 <= worst.1);
                                } else if p == ph {
                                    // The candidate itself cannot be
                                    // missing: it was strictly closer
                                    // than the worst.
                                    assert(r1.count(ph) + 1 == r0.count(ph) + 1 + (
                                    if w == ph {
                                        1int
                                    } else {
                                        0int
                                    }));
                                    assert(qe0.count(ph) > r0.count(ph));
                                    assert(dist_sq(query, ph.position) >= worst.1);
                                    assert(false);
                                } else {
                                    assert(r1.count(p) == r0.count(p));
                                    assert(qe0.count(p) > r0.count(p));
                                    assert(results@[results@.len() - 1].1 <= worst.1);
                                }
                            }
                        }
                    }
                }
            }
            // Expand the children: clip the entry's box at the node's
            // split axis with the node's own coordinate, compute each
            // child's admissible bound, and push a frontier entry for
            // each existing child.
            let axis = node.split_axis as usize;
            let split_val = get_lane(node.photon.position, axis);
            let ghost lm = match node.left {
                Some(j) => subtree_ms(nodes_seq, j as int),
                None => Multiset::<Photon>::empty(),
            };
            let ghost rm = match node.right {
                Some(j) => subtree_ms(nodes_seq, j as int),
                None => Multiset::<Photon>::empty(),
            };
            proof {
                assert(subtree_wf(nodes_seq, ni));
                assert(e_ms == lm.add(rm).insert(node.photon));
                vstd::multiset::lemma_insert_len(lm.add(rm), node.photon);
                lemma_subtree_nonempty(nodes_seq, ni);
                assert(in_box(node.photon.position, entry.mins, entry.maxs));
            }
            let ghost frontier_mid = frontier@;
            match node.left {
                Some(li) => {
                    let child_maxs = with_lane(entry.maxs, axis, split_val);
                    proof {
                        assert(subtree_wf(nodes_seq, li as int));
                        lemma_subtree_nonempty(nodes_seq, li as int);
                        assert(nodes_seq[li as int].size == subtree_ms(nodes_seq, li as int).len());
                        assert(lanes_le(entry.mins, child_maxs));
                        assert forall|p: Photon| #[trigger] lm.count(p) > 0 implies in_box(
                            p.position,
                            entry.mins,
                            child_maxs,
                        ) by {
                            assert(e_ms.count(p) > 0);
                            assert(in_box(p.position, entry.mins, entry.maxs));
                            assert(p.position.lane(axis as int) < node.photon.position.lane(
                                axis as int,
                            ));
                        }
                    }
                    let child_min = query.distance_squared_to_bounding_box(
                        entry.mins,
                        child_maxs,
                    );
                    let child_size = self.nodes[li].size;
                    let child_entry = NodeWithKnownBoundsAndMinDistance::new(
                        entry.mins,
                        child_maxs,
                        li,
                        child_min,
                        child_size,
                    );
                    proof {
                        lemma_cover_push(frontier@, nodes_seq, child_entry);
                    }
                    frontier.push(child_entry);
                    proof {
                        assert(entry_inv(nodes_seq, query, child_entry));
                    }
                },
                None => {},
            }
            let ghost frontier_mid2 = frontier@;
            match node.right {
                Some(ri) => {
                    let child_mins = with_lane(entry.mins, axis, split_val);
                    proof {
                        assert(subtree_wf(nodes_seq, ri as int));
                        lemma_subtree_nonempty(nodes_seq, ri as int);
                        assert(nodes_seq[ri as int].size == subtree_ms(nodes_seq, ri as int).len());
                        assert(lanes_le(child_mins, entry.maxs));
                        assert forall|p: Photon| #[trigger] rm.count(p) > 0 implies in_box(
                            p.position,
                            child_mins,
                            entry.maxs,
                        ) by {
                            assert(e_ms.count(p) > 0);
                            assert(in_box(p.position, entry.mins, entry.maxs));
                            assert(p.position.lane(axis as int) >= node.photon.position.lane(
                                axis as int,
                            ));
                        }
                    }
                    let child_min = query.distance_squared_to_bounding_box(
                        child_mins,
                        entry.maxs,
                    );
                    let child_size = self.nodes[ri].size;
                    let child_entry = NodeWithKnownBoundsAndMinDistance::new(
                        child_mins,
                        entry.maxs,
                        ri,
                        child_min,
                        child_size,
                    );
                    proof {
                        lemma_cover_push(frontier@, nodes_seq, child_entry);
                    }
                    frontier.push(child_entry);
                    proof {
                        assert(entry_inv(nodes_seq, query, child_entry));
                    }
                },
                None => {},
            }
            proof {
                assert(evaluated.add(cover(frontier@, nodes_seq)) =~= all);
            }
        }
        proof {
            let qe = qualifying(evaluated, query, maxd);
            assert(cover(frontier@, nodes_seq) =~= Multiset::<Photon>::empty());
            assert(evaluated =~= all);
            assert(qe == qall);
            if results@.len() < k {
                assert(results@.len() == qall.len());
            }
        }
        results
    }
}

} // verus!
