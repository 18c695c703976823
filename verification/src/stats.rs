//! The statistics of an origin as mathematical functions of a graph.
//!
//! Totals summarise the whole history reachable from the latest snapshot,
//! while the latest commit date looks only at the head revisions: the
//! revisions at most two arcs away from the snapshot, the second arc being
//! allowed only out of a release.

use crate::accessor::{
    lemma_nodes_finite, lemma_reachable_step, lemma_root_reachable, GraphModel, NodeId, NodeType,
};
use vstd::prelude::*;

verus! {

/// Node `id` exists and is of kind `kind`.
pub open spec fn is_kind(m: GraphModel, id: NodeId, kind: NodeType) -> bool {
    m.has_node(id) && m.node_types[id as int] == kind
}

/// Node `id` exists and is a revision.
pub open spec fn is_revision(m: GraphModel, id: NodeId) -> bool {
    is_kind(m, id, NodeType::Revision)
}

/// The latest snapshot of `id` with its generation number: none unless `id`
/// is an origin for which the graph resolves one.
pub open spec fn latest_snapshot(m: GraphModel, id: NodeId) -> Option<(NodeId, u64)> {
    if is_kind(m, id, NodeType::Origin) {
        m.latest_snapshots[id as int]
    } else {
        None
    }
}

/// The URL of `id`: the message of an origin, where it is valid UTF-8.
pub open spec fn origin_url(m: GraphModel, id: NodeId) -> Option<Seq<char>> {
    if is_kind(m, id, NodeType::Origin) {
        match m.messages[id as int] {
            Some(bytes) => if vstd::utf8::valid_utf8(bytes) {
                Some(vstd::utf8::decode_utf8(bytes))
            } else {
                None
            },
            None => None,
        }
    } else {
        None
    }
}

/// The revisions among `nodes`, in order.
pub open spec fn revisions_among(m: GraphModel, nodes: Seq<NodeId>) -> Seq<NodeId> {
    nodes.filter(|v: NodeId| is_revision(m, v))
}

/// The head revisions that one successor of a snapshot contributes: itself
/// if it is a revision, the revisions among its own successors if it is a
/// release, nothing otherwise.
pub open spec fn heads_through(m: GraphModel, successor: NodeId) -> Seq<NodeId> {
    if is_revision(m, successor) {
        seq![successor]
    } else if is_kind(m, successor, NodeType::Release) {
        revisions_among(m, m.successors[successor as int])
    } else {
        Seq::empty()
    }
}

/// The head revisions contributed by `successors`, one after the other.
pub open spec fn heads_among(m: GraphModel, successors: Seq<NodeId>) -> Seq<NodeId>
    decreases successors.len(),
{
    if successors.len() == 0 {
        Seq::empty()
    } else {
        heads_among(m, successors.drop_last()) + heads_through(m, successors.last())
    }
}

/// The head revisions of origin `id`: those its latest snapshot leads to in
/// at most two arcs. Empty without a latest snapshot.
pub open spec fn head_revisions(m: GraphModel, id: NodeId) -> Seq<NodeId> {
    match latest_snapshot(m, id) {
        Some(found) => if m.has_node(found.0) {
            heads_among(m, m.successors[found.0 as int])
        } else {
            Seq::empty()
        },
        None => Seq::empty(),
    }
}

/// The revisions in the transitive closure of `snapshot`.
pub open spec fn reachable_revisions(m: GraphModel, snapshot: NodeId) -> Set<NodeId> {
    Set::new(|v: NodeId| m.reachable(seq![snapshot], v) && is_revision(m, v))
}

/// The committers of the revisions in the transitive closure of `snapshot`.
pub open spec fn reachable_committers(m: GraphModel, snapshot: NodeId) -> Set<u64> {
    Set::new(
        |committer: u64|
            exists|v: NodeId|
                reachable_revisions(m, snapshot).contains(v) && #[trigger] m.committer_ids[v as int]
                    == Some(committer),
    )
}

/// The number of revisions in the whole history of origin `id`; none without
/// a latest snapshot.
pub open spec fn commit_count(m: GraphModel, id: NodeId) -> Option<nat> {
    match latest_snapshot(m, id) {
        Some(found) => Some(reachable_revisions(m, found.0).len()),
        None => None,
    }
}

/// The number of distinct committers in the whole history of origin `id`;
/// none without a latest snapshot.
pub open spec fn committer_count(m: GraphModel, id: NodeId) -> Option<nat> {
    match latest_snapshot(m, id) {
        Some(found) => Some(reachable_committers(m, found.0).len()),
        None => None,
    }
}

/// The committer timestamp of `revision` as a date of a record: none where
/// the graph has none, or has one that is negative or too large for the
/// machine.
pub open spec fn commit_date(m: GraphModel, revision: NodeId) -> Option<nat> {
    if m.has_node(revision) {
        match m.committer_timestamps[revision as int] {
            Some(seconds) => if 0 <= seconds <= usize::MAX {
                Some(seconds as nat)
            } else {
                None
            },
            None => None,
        }
    } else {
        None
    }
}

/// The later of two optional dates.
pub open spec fn later_date(a: Option<nat>, b: Option<nat>) -> Option<nat> {
    match (a, b) {
        (Some(x), Some(y)) => if y > x {
            Some(y)
        } else {
            Some(x)
        },
        (Some(x), None) => Some(x),
        (None, _) => b,
    }
}

/// The latest commit date among `revisions`; none where none of them has a
/// date.
pub open spec fn latest_date_among(m: GraphModel, revisions: Seq<NodeId>) -> Option<nat>
    decreases revisions.len(),
{
    if revisions.len() == 0 {
        None
    } else {
        later_date(
            latest_date_among(m, revisions.drop_last()),
            commit_date(m, revisions.last()),
        )
    }
}

/// The latest commit date among the head revisions of origin `id`.
pub open spec fn latest_commit_date(m: GraphModel, id: NodeId) -> Option<nat> {
    latest_date_among(m, head_revisions(m, id))
}

/// A memoized field: what was cached stays, what was absent is computed.
pub open spec fn memoized<T>(cached: Option<T>, computed: Option<T>) -> Option<T> {
    if cached is Some {
        cached
    } else {
        computed
    }
}

/// Every element of `revisions_among` is a revision taken from `nodes`.
pub proof fn lemma_revisions_among_members(m: GraphModel, nodes: Seq<NodeId>, v: NodeId)
    requires
        revisions_among(m, nodes).contains(v),
    ensures
        nodes.contains(v),
        is_revision(m, v),
{
    let pred = |v: NodeId| is_revision(m, v);
    let kept = nodes.filter(pred);
    let k = choose|k: int| 0 <= k < kept.len() && kept[k] == v;
    nodes.lemma_filter_pred(pred, k);
    lemma_filter_came_from(nodes, pred, k);
}

/// An element of a filtered sequence is an element of the sequence.
proof fn lemma_filter_came_from(nodes: Seq<NodeId>, pred: spec_fn(NodeId) -> bool, k: int)
    requires
        0 <= k < nodes.filter(pred).len(),
    ensures
        nodes.contains(nodes.filter(pred)[k]),
    decreases nodes.len(),
{
    reveal(Seq::filter);
    if nodes.len() > 0 {
        let front = nodes.drop_last();
        if k < front.filter(pred).len() {
            lemma_filter_came_from(front, pred, k);
            let at = choose|at: int| 0 <= at < front.len() && front[at] == front.filter(pred)[k];
            assert(nodes[at] == front[at]);
        } else {
            assert(nodes[nodes.len() - 1] == nodes.last());
        }
    }
}

/// Every head revision contributed by `successors` is a revision, and is
/// one of `successors` or a successor of a release among them.
pub proof fn lemma_heads_among_members(m: GraphModel, successors: Seq<NodeId>, v: NodeId)
    requires
        heads_among(m, successors).contains(v),
    ensures
        is_revision(m, v),
        successors.contains(v) || exists|release: NodeId|
            successors.contains(release) && is_kind(m, release, NodeType::Release)
                && #[trigger] m.has_arc(release, v),
    decreases successors.len(),
{
    if successors.len() > 0 {
        let front = successors.drop_last();
        let last = successors.last();
        let heads = heads_among(m, successors);
        let k = choose|k: int| 0 <= k < heads.len() && heads[k] == v;
        assert(successors[successors.len() - 1] == last);
        if k < heads_among(m, front).len() {
            assert(heads_among(m, front)[k] == v);
            lemma_heads_among_members(m, front, v);
            if front.contains(v) {
                let at = choose|at: int| 0 <= at < front.len() && front[at] == v;
                assert(successors[at] == v);
            } else {
                let release = choose|release: NodeId|
                    front.contains(release) && is_kind(m, release, NodeType::Release)
                        && #[trigger] m.has_arc(release, v);
                let at = choose|at: int| 0 <= at < front.len() && front[at] == release;
                assert(successors[at] == release);
            }
        } else {
            let through = heads_through(m, last);
            assert(through[k - heads_among(m, front).len()] == v);
            if is_revision(m, last) {
            } else {
                assert(is_kind(m, last, NodeType::Release));
                lemma_revisions_among_members(m, m.successors[last as int], v);
                assert(m.has_arc(last, v));
            }
        }
    }
}

/// Every head revision of an origin is a revision in the transitive closure
/// of its latest snapshot.
pub proof fn lemma_heads_are_reachable(m: GraphModel, id: NodeId, v: NodeId)
    requires
        head_revisions(m, id).contains(v),
    ensures
        latest_snapshot(m, id) matches Some(found) && reachable_revisions(m, found.0).contains(v),
{
    let found = latest_snapshot(m, id).unwrap();
    let snapshot = found.0;
    let roots = seq![snapshot];
    let successors = m.successors[snapshot as int];
    lemma_heads_among_members(m, successors, v);
    assert(roots[0] == snapshot);
    lemma_root_reachable(m, roots, snapshot);
    if successors.contains(v) {
        assert(m.has_arc(snapshot, v));
        lemma_reachable_step(m, roots, snapshot, v);
    } else {
        let release = choose|release: NodeId|
            successors.contains(release) && is_kind(m, release, NodeType::Release)
                && #[trigger] m.has_arc(release, v);
        assert(m.has_arc(snapshot, release));
        lemma_reachable_step(m, roots, snapshot, release);
        lemma_reachable_step(m, roots, release, v);
    }
}

/// The revisions reachable from a snapshot, and their committers, are
/// finitely many: revisions are nodes, so there are no more of them than the
/// graph has nodes, and no more committers than revisions.
pub proof fn lemma_history_finite(m: GraphModel, snapshot: NodeId)
    ensures
        reachable_revisions(m, snapshot).finite(),
        reachable_revisions(m, snapshot).len() <= m.node_count(),
        reachable_committers(m, snapshot).finite(),
        reachable_committers(m, snapshot).len() <= reachable_revisions(m, snapshot).len(),
{
    let nodes = Set::new(|v: NodeId| v < m.node_count());
    let revisions = reachable_revisions(m, snapshot);
    lemma_nodes_finite(m.node_count());
    assert(revisions.subset_of(nodes)) by {
        assert forall|v: NodeId| revisions.contains(v) implies nodes.contains(v) by {
            assert(m.has_node(v));
        }
    }
    vstd::set_lib::lemma_len_subset(revisions, nodes);
    lemma_committers_bounded(m, revisions, reachable_committers(m, snapshot));
}

/// The committers of finitely many revisions are no more than the revisions.
proof fn lemma_committers_bounded(m: GraphModel, revisions: Set<NodeId>, committers: Set<u64>)
    requires
        revisions.finite(),
        committers == Set::new(
            |committer: u64|
                exists|v: NodeId|
                    revisions.contains(v) && #[trigger] m.committer_ids[v as int] == Some(
                        committer,
                    ),
        ),
    ensures
        committers.finite(),
        committers.len() <= revisions.len(),
{
    let known = |v: NodeId| m.committer_ids[v as int] is Some;
    let who = |v: NodeId| m.committer_ids[v as int].unwrap();
    let signed = revisions.filter(known);
    revisions.lemma_len_filter(known);
    assert(signed.subset_of(revisions));
    vstd::set_lib::lemma_len_subset(signed, revisions);
    assert(committers =~= signed.map(who)) by {
        assert forall|committer: u64| committers.contains(committer) implies signed.map(
            who,
        ).contains(committer) by {
            let v = choose|v: NodeId|
                revisions.contains(v) && #[trigger] m.committer_ids[v as int] == Some(committer);
            assert(signed.contains(v) && who(v) == committer);
        }
        assert forall|committer: u64| signed.map(who).contains(committer) implies
            committers.contains(committer) by {
            let v = choose|v: NodeId| signed.contains(v) && who(v) == committer;
            assert(revisions.contains(v) && m.committer_ids[v as int] == Some(committer));
        }
    }
    vstd::set_lib::lemma_map_size_bound(signed, committers, who);
}

} // verus!
