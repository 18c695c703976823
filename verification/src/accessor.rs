//! The read-only capability surface of a provenance graph.
//!
//! Everything the statistics engine knows about a graph it learns through
//! [`GraphAccessor`]. The view of an accessor is a [`GraphModel`], and every
//! query is specified as a reading of that model, so that a graph is, to the
//! prover, a fixed mathematical object: asking the same question twice gives
//! the same answer.

use vstd::prelude::*;

verus! {

/// Identifier of a node, assigned by the graph engine.
pub type NodeId = usize;

/// The kind of entity a node stands for.
#[derive(Clone, Copy, Debug, PartialEq, Eq, Structural)]
pub enum NodeType {
    Content,
    Directory,
    Origin,
    Release,
    Revision,
    Snapshot,
}

/// A graph as a mathematical object: one entry per node in each sequence.
pub struct GraphModel {
    /// Kind of each node; its length is the number of nodes.
    pub node_types: Seq<NodeType>,
    /// Direct out-neighbours of each node, in the engine's order.
    pub successors: Seq<Seq<NodeId>>,
    /// Message attached to each node; for an origin, its URL.
    pub messages: Seq<Option<Seq<u8>>>,
    /// Committer of each revision.
    pub committer_ids: Seq<Option<u64>>,
    /// Committer timestamp of each revision, in seconds relative to the epoch.
    pub committer_timestamps: Seq<Option<i64>>,
    /// Stable external identifier of each node.
    pub swhids: Seq<Seq<char>>,
    /// The snapshot the engine selects as the latest of each origin, with its
    /// generation number.
    pub latest_snapshots: Seq<Option<(NodeId, u64)>>,
    /// Number of arcs.
    pub arc_count: nat,
}

impl GraphModel {
    /// Number of nodes.
    pub open spec fn node_count(self) -> nat {
        self.node_types.len()
    }

    /// `id` names a node.
    pub open spec fn has_node(self, id: NodeId) -> bool {
        id < self.node_count()
    }

    /// There is an arc from `from` to `to`.
    pub open spec fn has_arc(self, from: NodeId, to: NodeId) -> bool {
        self.has_node(from) && self.successors[from as int].contains(to)
    }

    /// Every sequence has one entry per node, every arc and every latest
    /// snapshot is a node, and the number of arcs is that of all successors.
    pub open spec fn wf(self) -> bool {
        &&& self.arc_count == total_len(self.successors)
        &&& self.successors.len() == self.node_count()
        &&& self.messages.len() == self.node_count()
        &&& self.committer_ids.len() == self.node_count()
        &&& self.committer_timestamps.len() == self.node_count()
        &&& self.swhids.len() == self.node_count()
        &&& self.latest_snapshots.len() == self.node_count()
        &&& forall|from: NodeId, to: NodeId| #[trigger]
            self.has_arc(from, to) ==> self.has_node(to)
        &&& forall|id: NodeId| #[trigger]
            self.has_node(id) ==> (self.latest_snapshots[id as int] matches Some(pair)
                ==> self.has_node(pair.0))
    }

    /// `to` is one of `roots`, or lies at the end of a path of at most
    /// `steps` arcs that starts at one of them.
    pub open spec fn reachable_within(self, roots: Seq<NodeId>, to: NodeId, steps: nat) -> bool
        decreases steps,
    {
        if steps == 0 {
            roots.contains(to)
        } else {
            self.reachable_within(roots, to, (steps - 1) as nat) || exists|via: NodeId|
                self.reachable_within(roots, via, (steps - 1) as nat) && #[trigger] self.has_arc(
                    via,
                    to,
                )
        }
    }

    /// `to` belongs to the transitive closure of `roots`.
    pub open spec fn reachable(self, roots: Seq<NodeId>, to: NodeId) -> bool {
        exists|steps: nat| self.reachable_within(roots, to, steps)
    }

    /// The transitive closure of `roots`.
    pub open spec fn closure(self, roots: Seq<NodeId>) -> Set<NodeId> {
        Set::new(|to: NodeId| self.reachable(roots, to))
    }
}

/// The lengths of `rows`, added up.
pub open spec fn total_len(rows: Seq<Seq<NodeId>>) -> nat
    decreases rows.len(),
{
    if rows.len() == 0 {
        0
    } else {
        total_len(rows.drop_last()) + rows.last().len()
    }
}

/// One more row adds its length to the total.
pub proof fn lemma_total_len_push(rows: Seq<Seq<NodeId>>, row: Seq<NodeId>)
    ensures
        total_len(rows.push(row)) == total_len(rows) + row.len(),
{
    assert(rows.push(row).drop_last() =~= rows);
}

/// Replacing a row changes the total by the difference of the lengths.
pub proof fn lemma_total_len_update(rows: Seq<Seq<NodeId>>, at: int, row: Seq<NodeId>)
    requires
        0 <= at < rows.len(),
    ensures
        total_len(rows.update(at, row)) + rows[at].len() == total_len(rows) + row.len(),
    decreases rows.len(),
{
    let updated = rows.update(at, row);
    if at == rows.len() - 1 {
        assert(updated.drop_last() =~= rows.drop_last());
    } else {
        lemma_total_len_update(rows.drop_last(), at, row);
        assert(updated.drop_last() =~= rows.drop_last().update(at, row));
    }
}

/// Read-only access to an immutable provenance graph.
///
/// The view of an accessor is the graph it reads. Node identifiers are the
/// integers below `node_count()`. Queries about a node demand an identifier
/// in that range; the statistics engine checks the range itself before it
/// asks.
pub trait GraphAccessor: View<V = GraphModel> + Sized {
    fn node_count(&self) -> (count: usize)
        ensures
            count == self@.node_count(),
    ;

    fn arc_count(&self) -> (count: usize)
        ensures
            count == self@.arc_count,
    ;

    fn node_type(&self, id: NodeId) -> (kind: NodeType)
        requires
            self@.has_node(id),
        ensures
            kind == self@.node_types[id as int],
    ;

    fn successors(&self, id: NodeId) -> (out: Vec<NodeId>)
        requires
            self@.has_node(id),
        ensures
            out@ == self@.successors[id as int],
            forall|k: int| 0 <= k < out@.len() ==> self@.has_node(#[trigger] out@[k]),
    ;

    fn message(&self, id: NodeId) -> (bytes: Option<Vec<u8>>)
        requires
            self@.has_node(id),
        ensures
            option_bytes_view(bytes) == self@.messages[id as int],
    ;

    fn committer_id(&self, id: NodeId) -> (committer: Option<u64>)
        requires
            self@.has_node(id),
        ensures
            committer == self@.committer_ids[id as int],
    ;

    fn committer_timestamp(&self, id: NodeId) -> (seconds: Option<i64>)
        requires
            self@.has_node(id),
        ensures
            seconds == self@.committer_timestamps[id as int],
    ;

    fn swhid(&self, id: NodeId) -> (text: String)
        requires
            self@.has_node(id),
        ensures
            text@ == self@.swhids[id as int],
    ;

    fn find_latest_snapshot(&self, id: NodeId) -> (found: Option<(NodeId, u64)>)
        requires
            self@.has_node(id),
        ensures
            found == self@.latest_snapshots[id as int],
            found matches Some(pair) ==> self@.has_node(pair.0),
    ;

    /// Every node that can be reached from `roots`, each exactly once.
    fn reachable_from(&self, roots: &Vec<NodeId>) -> (out: Vec<NodeId>)
        requires
            forall|k: int| 0 <= k < roots@.len() ==> self@.has_node(#[trigger] roots@[k]),
        ensures
            out@.no_duplicates(),
            out@.to_set() == self@.closure(roots@),
            forall|k: int| 0 <= k < out@.len() ==> self@.has_node(#[trigger] out@[k]),
    ;
}

/// The view of an optional byte string.
pub open spec fn option_bytes_view(bytes: Option<Vec<u8>>) -> Option<Seq<u8>> {
    match bytes {
        Some(b) => Some(b@),
        None => None,
    }
}

/// A root is reachable.
pub proof fn lemma_root_reachable(m: GraphModel, roots: Seq<NodeId>, root: NodeId)
    requires
        roots.contains(root),
    ensures
        m.reachable(roots, root),
{
    assert(m.reachable_within(roots, root, 0));
}

/// Reachability extends along an arc.
pub proof fn lemma_reachable_step(m: GraphModel, roots: Seq<NodeId>, via: NodeId, to: NodeId)
    requires
        m.reachable(roots, via),
        m.has_arc(via, to),
    ensures
        m.reachable(roots, to),
{
    let steps = choose|steps: nat| m.reachable_within(roots, via, steps);
    assert(m.reachable_within(roots, to, steps + 1));
}

/// A set of nodes that holds the roots and is closed under arcs holds every
/// reachable node.
pub proof fn lemma_closed_set_holds_reachable(
    m: GraphModel,
    roots: Seq<NodeId>,
    closed: Set<NodeId>,
    to: NodeId,
)
    requires
        forall|k: int| 0 <= k < roots.len() ==> closed.contains(#[trigger] roots[k]),
        forall|from: NodeId, next: NodeId|
            closed.contains(from) && #[trigger] m.has_arc(from, next) ==> closed.contains(next),
        m.reachable(roots, to),
    ensures
        closed.contains(to),
{
    let steps = choose|steps: nat| m.reachable_within(roots, to, steps);
    lemma_closed_set_holds_within(m, roots, closed, to, steps);
}

proof fn lemma_closed_set_holds_within(
    m: GraphModel,
    roots: Seq<NodeId>,
    closed: Set<NodeId>,
    to: NodeId,
    steps: nat,
)
    requires
        forall|k: int| 0 <= k < roots.len() ==> closed.contains(#[trigger] roots[k]),
        forall|from: NodeId, next: NodeId|
            closed.contains(from) && #[trigger] m.has_arc(from, next) ==> closed.contains(next),
        m.reachable_within(roots, to, steps),
    ensures
        closed.contains(to),
    decreases steps,
{
    if steps == 0 {
    } else if m.reachable_within(roots, to, (steps - 1) as nat) {
        lemma_closed_set_holds_within(m, roots, closed, to, (steps - 1) as nat);
    } else {
        let via = choose|via: NodeId|
            m.reachable_within(roots, via, (steps - 1) as nat) && #[trigger] m.has_arc(via, to);
        lemma_closed_set_holds_within(m, roots, closed, via, (steps - 1) as nat);
    }
}

/// The identifiers below `count` form a finite set of `count` elements, as
/// far as identifiers go.
pub proof fn lemma_nodes_finite(count: nat)
    ensures
        Set::new(|v: NodeId| v < count).finite(),
        Set::new(|v: NodeId| v < count).len() <= count,
    decreases count,
{
    let below = Set::new(|v: NodeId| v < count);
    if count == 0 {
        assert(below =~= Set::empty());
    } else {
        let fewer = Set::new(|v: NodeId| v < (count - 1) as nat);
        lemma_nodes_finite((count - 1) as nat);
        if count - 1 <= usize::MAX {
            let top = (count - 1) as usize;
            assert(below =~= fewer.insert(top));
        } else {
            assert(below =~= fewer);
        }
    }
}

} // verus!
