//! A graph held in memory, built node by node and arc by arc.

use crate::accessor::{
    lemma_total_len_push, lemma_total_len_update, option_bytes_view, GraphAccessor, GraphModel,
    NodeId, NodeType,
};
use vstd::prelude::*;

verus! {

/// One node of a [`MemoryGraph`].
struct MemoryNode {
    kind: NodeType,
    successors: Vec<NodeId>,
    message: Option<Vec<u8>>,
    committer_id: Option<u64>,
    committer_timestamp: Option<i64>,
    swhid: String,
    latest_snapshot: Option<(NodeId, u64)>,
}

/// A provenance graph stored in plain vectors.
///
/// Nodes are numbered in the order in which they are added. Arcs and latest
/// snapshots can only name nodes that exist, so the graph is well formed at
/// every moment.
pub struct MemoryGraph {
    nodes: Vec<MemoryNode>,
    arc_count: usize,
}

/// The graph that a vector of nodes stands for.
spec fn model_of(nodes: Seq<MemoryNode>, arc_count: usize) -> GraphModel {
    GraphModel {
        node_types: Seq::new(nodes.len(), |i: int| nodes[i].kind),
        successors: Seq::new(nodes.len(), |i: int| nodes[i].successors@),
        messages: Seq::new(nodes.len(), |i: int| option_bytes_view(nodes[i].message)),
        committer_ids: Seq::new(nodes.len(), |i: int| nodes[i].committer_id),
        committer_timestamps: Seq::new(nodes.len(), |i: int| nodes[i].committer_timestamp),
        swhids: Seq::new(nodes.len(), |i: int| nodes[i].swhid@),
        latest_snapshots: Seq::new(nodes.len(), |i: int| nodes[i].latest_snapshot),
        arc_count: arc_count as nat,
    }
}

/// Appending a node without arcs or latest snapshot keeps a graph well
/// formed and appends one entry to each sequence of its model.
proof fn lemma_push_node(nodes: Seq<MemoryNode>, arc_count: usize, node: MemoryNode)
    requires
        model_of(nodes, arc_count).wf(),
        node.successors@.len() == 0,
        node.latest_snapshot is None,
    ensures
        model_of(nodes.push(node), arc_count).wf(),
        model_of(nodes.push(node), arc_count).node_types == model_of(
            nodes,
            arc_count,
        ).node_types.push(node.kind),
        model_of(nodes.push(node), arc_count).successors == model_of(
            nodes,
            arc_count,
        ).successors.push(node.successors@),
        model_of(nodes.push(node), arc_count).messages == model_of(
            nodes,
            arc_count,
        ).messages.push(option_bytes_view(node.message)),
        model_of(nodes.push(node), arc_count).committer_ids == model_of(
            nodes,
            arc_count,
        ).committer_ids.push(node.committer_id),
        model_of(nodes.push(node), arc_count).committer_timestamps == model_of(
            nodes,
            arc_count,
        ).committer_timestamps.push(node.committer_timestamp),
        model_of(nodes.push(node), arc_count).swhids == model_of(nodes, arc_count).swhids.push(
            node.swhid@,
        ),
        model_of(nodes.push(node), arc_count).latest_snapshots == model_of(
            nodes,
            arc_count,
        ).latest_snapshots.push(node.latest_snapshot),
{
    let before = model_of(nodes, arc_count);
    let after = model_of(nodes.push(node), arc_count);
    lemma_total_len_push(before.successors, node.successors@);
    assert(after.node_types =~= before.node_types.push(node.kind));
    assert(after.successors =~= before.successors.push(node.successors@));
    assert(after.messages =~= before.messages.push(option_bytes_view(node.message)));
    assert(after.committer_ids =~= before.committer_ids.push(node.committer_id));
    assert(after.committer_timestamps =~= before.committer_timestamps.push(
        node.committer_timestamp,
    ));
    assert(after.swhids =~= before.swhids.push(node.swhid@));
    assert(after.latest_snapshots =~= before.latest_snapshots.push(node.latest_snapshot));
    assert forall|from: NodeId, to: NodeId| #[trigger]
        after.has_arc(from, to) implies after.has_node(to) by {
        if from < before.node_count() {
            assert(before.has_arc(from, to));
        }
    }
    assert forall|n: NodeId| #[trigger] after.has_node(n) implies (after.latest_snapshots[n as int]
        matches Some(pair) ==> after.has_node(pair.0)) by {
        if n < before.node_count() {
            assert(before.has_node(n));
        }
    }
}

/// Replacing a node by one whose arcs and latest snapshot name nodes of the
/// graph keeps the graph well formed and updates one entry of each sequence
/// of its model.
proof fn lemma_update_node(
    nodes: Seq<MemoryNode>,
    arc_count: usize,
    new_arc_count: usize,
    at: int,
    node: MemoryNode,
)
    requires
        model_of(nodes, arc_count).wf(),
        0 <= at < nodes.len(),
        forall|k: int|
            0 <= k < node.successors@.len() ==> #[trigger] node.successors@[k] < nodes.len(),
        node.latest_snapshot matches Some(pair) ==> pair.0 < nodes.len(),
        new_arc_count + nodes[at].successors@.len() == arc_count + node.successors@.len(),
    ensures
        model_of(nodes.update(at, node), new_arc_count).wf(),
        model_of(nodes.update(at, node), new_arc_count).node_types == model_of(
            nodes,
            arc_count,
        ).node_types.update(at, node.kind),
        model_of(nodes.update(at, node), new_arc_count).successors == model_of(
            nodes,
            arc_count,
        ).successors.update(at, node.successors@),
        model_of(nodes.update(at, node), new_arc_count).messages == model_of(
            nodes,
            arc_count,
        ).messages.update(at, option_bytes_view(node.message)),
        model_of(nodes.update(at, node), new_arc_count).committer_ids == model_of(
            nodes,
            arc_count,
        ).committer_ids.update(at, node.committer_id),
        model_of(nodes.update(at, node), new_arc_count).committer_timestamps == model_of(
            nodes,
            arc_count,
        ).committer_timestamps.update(at, node.committer_timestamp),
        model_of(nodes.update(at, node), new_arc_count).swhids == model_of(
            nodes,
            arc_count,
        ).swhids.update(at, node.swhid@),
        model_of(nodes.update(at, node), new_arc_count).latest_snapshots == model_of(
            nodes,
            arc_count,
        ).latest_snapshots.update(at, node.latest_snapshot),
        model_of(nodes.update(at, node), new_arc_count).arc_count == new_arc_count,
{
    let before = model_of(nodes, arc_count);
    let after = model_of(nodes.update(at, node), new_arc_count);
    lemma_total_len_update(before.successors, at, node.successors@);
    assert(after.node_types =~= before.node_types.update(at, node.kind));
    assert(after.successors =~= before.successors.update(at, node.successors@));
    assert(after.messages =~= before.messages.update(at, option_bytes_view(node.message)));
    assert(after.committer_ids =~= before.committer_ids.update(at, node.committer_id));
    assert(after.committer_timestamps =~= before.committer_timestamps.update(
        at,
        node.committer_timestamp,
    ));
    assert(after.swhids =~= before.swhids.update(at, node.swhid@));
    assert(after.latest_snapshots =~= before.latest_snapshots.update(at, node.latest_snapshot));
    assert forall|from: NodeId, to: NodeId| #[trigger]
        after.has_arc(from, to) implies after.has_node(to) by {
        if from != at {
            assert(before.has_arc(from, to));
        }
    }
    assert forall|n: NodeId| #[trigger] after.has_node(n) implies (after.latest_snapshots[n as int]
        matches Some(pair) ==> after.has_node(pair.0)) by {
        if n != at {
            assert(before.has_node(n));
        }
    }
}

/// Replacing a node by one with the same arcs, whose latest snapshot names a
/// node of the graph, keeps the graph well formed and updates one entry of
/// each sequence of its model.
proof fn lemma_edit_node(nodes: Seq<MemoryNode>, arc_count: usize, id: NodeId, node: MemoryNode)
    requires
        model_of(nodes, arc_count).wf(),
        id < nodes.len(),
        node.successors@ == nodes[id as int].successors@,
        node.latest_snapshot matches Some(pair) ==> pair.0 < nodes.len(),
    ensures
        model_of(nodes.update(id as int, node), arc_count).wf(),
        model_of(nodes.update(id as int, node), arc_count) == (GraphModel {
            node_types: model_of(nodes, arc_count).node_types.update(id as int, node.kind),
            messages: model_of(nodes, arc_count).messages.update(
                id as int,
                option_bytes_view(node.message),
            ),
            committer_ids: model_of(nodes, arc_count).committer_ids.update(
                id as int,
                node.committer_id,
            ),
            committer_timestamps: model_of(nodes, arc_count).committer_timestamps.update(
                id as int,
                node.committer_timestamp,
            ),
            swhids: model_of(nodes, arc_count).swhids.update(id as int, node.swhid@),
            latest_snapshots: model_of(nodes, arc_count).latest_snapshots.update(
                id as int,
                node.latest_snapshot,
            ),
            ..model_of(nodes, arc_count)
        }),
{
    let model = model_of(nodes, arc_count);
    assert forall|k: int| 0 <= k < node.successors@.len() implies #[trigger] node.successors@[k]
        < nodes.len() by {
        assert(model.has_arc(id, nodes[id as int].successors@[k]));
        assert(model.has_node(nodes[id as int].successors@[k]));
    }
    lemma_update_node(nodes, arc_count, arc_count, id as int, node);
    assert(model_of(nodes.update(id as int, node), arc_count).successors =~= model.successors);
}

impl View for MemoryGraph {
    type V = GraphModel;

    closed spec fn view(&self) -> GraphModel {
        model_of(self.nodes@, self.arc_count)
    }
}

impl MemoryGraph {
    #[verifier::type_invariant]
    spec fn inv(self) -> bool {
        self@.wf()
    }

    /// A graph without nodes.
    pub fn new() -> (graph: MemoryGraph)
        ensures
            graph@.wf(),
            graph@.node_count() == 0,
            graph@.arc_count == 0,
    {
        MemoryGraph { nodes: Vec::new(), arc_count: 0 }
    }

    /// Adds a node of the given kind, without arcs or properties, and
    /// returns its identifier.
    pub fn add_node(&mut self, kind: NodeType) -> (id: NodeId)
        ensures
            final(self)@.wf(),
            id == old(self)@.node_count(),
            final(self)@.node_types == old(self)@.node_types.push(kind),
            final(self)@.successors == old(self)@.successors.push(Seq::empty()),
            final(self)@.messages == old(self)@.messages.push(None),
            final(self)@.committer_ids == old(self)@.committer_ids.push(None),
            final(self)@.committer_timestamps == old(self)@.committer_timestamps.push(None),
            final(self)@.swhids == old(self)@.swhids.push(Seq::empty()),
            final(self)@.latest_snapshots == old(self)@.latest_snapshots.push(None),
            final(self)@.arc_count == old(self)@.arc_count,
    {
        proof {
            use_type_invariant(&*self);
        }
        let id = self.nodes.len();
        let node = MemoryNode {
            kind,
            successors: Vec::new(),
            message: None,
            committer_id: None,
            committer_timestamp: None,
            swhid: String::new(),
            latest_snapshot: None,
        };
        let mut taken = MemoryGraph::new();
        std::mem::swap(self, &mut taken);
        let arc_count = taken.arc_count;
        let mut nodes = taken.nodes;
        proof {
            lemma_push_node(nodes@, arc_count, node);
        }
        nodes.push(node);
        *self = MemoryGraph { nodes, arc_count };
        id
    }

    /// Adds an arc from `from` to `to`. Nothing changes, and the answer is
    /// `false`, when one of them is not a node or the arc counter is full.
    pub fn add_arc(&mut self, from: NodeId, to: NodeId) -> (added: bool)
        ensures
            final(self)@.wf(),
            added == (old(self)@.has_node(from) && old(self)@.has_node(to) && old(self)@.arc_count
                < usize::MAX),
            added ==> final(self)@ == (GraphModel {
                successors: old(self)@.successors.update(
                    from as int,
                    old(self)@.successors[from as int].push(to),
                ),
                arc_count: old(self)@.arc_count + 1,
                ..old(self)@
            }),
            !added ==> final(self)@ == old(self)@,
    {
        proof {
            use_type_invariant(&*self);
        }
        if from >= self.nodes.len() || to >= self.nodes.len() || self.arc_count == usize::MAX {
            return false;
        }
        let mut taken = MemoryGraph::new();
        std::mem::swap(self, &mut taken);
        let ghost old_count = taken.arc_count;
        let arc_count = taken.arc_count + 1;
        let mut nodes = taken.nodes;
        let ghost before = nodes@;
        let node = &mut nodes[from];
        node.successors.push(to);
        proof {
            let model = model_of(before, old_count);
            let edited = nodes@[from as int];
            assert(nodes@ =~= before.update(from as int, edited));
            assert forall|k: int| 0 <= k < edited.successors@.len() implies
                #[trigger] edited.successors@[k] < before.len() by {
                if k < before[from as int].successors@.len() {
                    assert(model.has_arc(from, before[from as int].successors@[k]));
                    assert(model.has_node(before[from as int].successors@[k]));
                }
            }
            assert(model.has_node(from));
            lemma_update_node(before, old_count, arc_count, from as int, edited);
            let after = model_of(nodes@, arc_count);
            assert(after.node_types =~= model.node_types);
            assert(after.messages =~= model.messages);
            assert(after.committer_ids =~= model.committer_ids);
            assert(after.committer_timestamps =~= model.committer_timestamps);
            assert(after.swhids =~= model.swhids);
            assert(after.latest_snapshots =~= model.latest_snapshots);
        }
        *self = MemoryGraph { nodes, arc_count };
        true
    }

    /// Attaches a message to node `id`. Nothing changes, and the answer is
    /// `false`, when `id` is not a node.
    pub fn set_message(&mut self, id: NodeId, bytes: Vec<u8>) -> (done: bool)
        ensures
            final(self)@.wf(),
            done == old(self)@.has_node(id),
            done ==> final(self)@ == (GraphModel {
                messages: old(self)@.messages.update(id as int, Some(bytes@)),
                ..old(self)@
            }),
            !done ==> final(self)@ == old(self)@,
    {
        proof {
            use_type_invariant(&*self);
        }
        if id >= self.nodes.len() {
            return false;
        }
        let mut taken = MemoryGraph::new();
        std::mem::swap(self, &mut taken);
        let arc_count = taken.arc_count;
        let mut nodes = taken.nodes;
        let ghost before = nodes@;
        let node = &mut nodes[id];
        node.message = Some(bytes);
        proof {
            let model = model_of(before, arc_count);
            let edited = nodes@[id as int];
            assert(nodes@ =~= before.update(id as int, edited));
            assert(model.has_node(id));
            lemma_edit_node(before, arc_count, id, edited);
            let after = model_of(nodes@, arc_count);
            assert(after.node_types =~= model.node_types);
            assert(after.committer_ids =~= model.committer_ids);
            assert(after.committer_timestamps =~= model.committer_timestamps);
            assert(after.swhids =~= model.swhids);
            assert(after.latest_snapshots =~= model.latest_snapshots);
        }
        *self = MemoryGraph { nodes, arc_count };
        true
    }

    /// Records the committer of node `id`. Nothing changes, and the answer
    /// is `false`, when `id` is not a node.
    pub fn set_committer_id(&mut self, id: NodeId, committer: u64) -> (done: bool)
        ensures
            final(self)@.wf(),
            done == old(self)@.has_node(id),
            done ==> final(self)@ == (GraphModel {
                committer_ids: old(self)@.committer_ids.update(id as int, Some(committer)),
                ..old(self)@
            }),
            !done ==> final(self)@ == old(self)@,
    {
        proof {
            use_type_invariant(&*self);
        }
        if id >= self.nodes.len() {
            return false;
        }
        let mut taken = MemoryGraph::new();
        std::mem::swap(self, &mut taken);
        let arc_count = taken.arc_count;
        let mut nodes = taken.nodes;
        let ghost before = nodes@;
        let node = &mut nodes[id];
        node.committer_id = Some(committer);
        proof {
            let model = model_of(before, arc_count);
            let edited = nodes@[id as int];
            assert(nodes@ =~= before.update(id as int, edited));
            assert(model.has_node(id));
            lemma_edit_node(before, arc_count, id, edited);
            let after = model_of(nodes@, arc_count);
            assert(after.node_types =~= model.node_types);
            assert(after.messages =~= model.messages);
            assert(after.committer_timestamps =~= model.committer_timestamps);
            assert(after.swhids =~= model.swhids);
            assert(after.latest_snapshots =~= model.latest_snapshots);
        }
        *self = MemoryGraph { nodes, arc_count };
        true
    }

    /// Records the committer timestamp of node `id`. Nothing changes, and
    /// the answer is `false`, when `id` is not a node.
    pub fn set_committer_timestamp(&mut self, id: NodeId, seconds: i64) -> (done: bool)
        ensures
            final(self)@.wf(),
            done == old(self)@.has_node(id),
            done ==> final(self)@ == (GraphModel {
                committer_timestamps: old(self)@.committer_timestamps.update(
                    id as int,
                    Some(seconds),
                ),
                ..old(self)@
            }),
            !done ==> final(self)@ == old(self)@,
    {
        proof {
            use_type_invariant(&*self);
        }
        if id >= self.nodes.len() {
            return false;
        }
        let mut taken = MemoryGraph::new();
        std::mem::swap(self, &mut taken);
        let arc_count = taken.arc_count;
        let mut nodes = taken.nodes;
        let ghost before = nodes@;
        let node = &mut nodes[id];
        node.committer_timestamp = Some(seconds);
        proof {
            let model = model_of(before, arc_count);
            let edited = nodes@[id as int];
            assert(nodes@ =~= before.update(id as int, edited));
            assert(model.has_node(id));
            lemma_edit_node(before, arc_count, id, edited);
            let after = model_of(nodes@, arc_count);
            assert(after.node_types =~= model.node_types);
            assert(after.messages =~= model.messages);
            assert(after.committer_ids =~= model.committer_ids);
            assert(after.swhids =~= model.swhids);
            assert(after.latest_snapshots =~= model.latest_snapshots);
        }
        *self = MemoryGraph { nodes, arc_count };
        true
    }

    /// Gives node `id` its external identifier. Nothing changes, and the
    /// answer is `false`, when `id` is not a node.
    pub fn set_swhid(&mut self, id: NodeId, text: String) -> (done: bool)
        ensures
            final(self)@.wf(),
            done == old(self)@.has_node(id),
            done ==> final(self)@ == (GraphModel {
                swhids: old(self)@.swhids.update(id as int, text@),
                ..old(self)@
            }),
            !done ==> final(self)@ == old(self)@,
    {
        proof {
            use_type_invariant(&*self);
        }
        if id >= self.nodes.len() {
            return false;
        }
        let mut taken = MemoryGraph::new();
        std::mem::swap(self, &mut taken);
        let arc_count = taken.arc_count;
        let mut nodes = taken.nodes;
        let ghost before = nodes@;
        let node = &mut nodes[id];
        node.swhid = text;
        proof {
            let model = model_of(before, arc_count);
            let edited = nodes@[id as int];
            assert(nodes@ =~= before.update(id as int, edited));
            assert(model.has_node(id));
            lemma_edit_node(before, arc_count, id, edited);
            let after = model_of(nodes@, arc_count);
            assert(after.node_types =~= model.node_types);
            assert(after.messages =~= model.messages);
            assert(after.committer_ids =~= model.committer_ids);
            assert(after.committer_timestamps =~= model.committer_timestamps);
            assert(after.latest_snapshots =~= model.latest_snapshots);
        }
        *self = MemoryGraph { nodes, arc_count };
        true
    }

    /// Selects `snapshot`, with its generation number, as the latest
    /// snapshot of node `origin`. Nothing changes, and the answer is `false`,
    /// when one of the two is not a node.
    pub fn set_latest_snapshot(
        &mut self,
        origin: NodeId,
        snapshot: NodeId,
        generation: u64,
    ) -> (done: bool)
        ensures
            final(self)@.wf(),
            done == (old(self)@.has_node(origin) && old(self)@.has_node(snapshot)),
            done ==> final(self)@ == (GraphModel {
                latest_snapshots: old(self)@.latest_snapshots.update(
                    origin as int,
                    Some((snapshot, generation)),
                ),
                ..old(self)@
            }),
            !done ==> final(self)@ == old(self)@,
    {
        proof {
            use_type_invariant(&*self);
        }
        if origin >= self.nodes.len() || snapshot >= self.nodes.len() {
            return false;
        }
        let mut taken = MemoryGraph::new();
        std::mem::swap(self, &mut taken);
        let arc_count = taken.arc_count;
        let mut nodes = taken.nodes;
        let ghost before = nodes@;
        let node = &mut nodes[origin];
        node.latest_snapshot = Some((snapshot, generation));
        proof {
            let model = model_of(before, arc_count);
            let edited = nodes@[origin as int];
            assert(nodes@ =~= before.update(origin as int, edited));
            assert(model.has_node(origin));
            lemma_edit_node(before, arc_count, origin, edited);
            let after = model_of(nodes@, arc_count);
            assert(after.node_types =~= model.node_types);
            assert(after.messages =~= model.messages);
            assert(after.committer_ids =~= model.committer_ids);
            assert(after.committer_timestamps =~= model.committer_timestamps);
            assert(after.swhids =~= model.swhids);
        }
        *self = MemoryGraph { nodes, arc_count };
        true
    }
}

/// What a traversal has established so far: `order` lists the visited nodes
/// without repetition, `seen` marks them, all of them are reachable from
/// `roots`, and every visited node that is neither waiting on `stack` nor
/// the node `current` under examination has all its successors visited.
spec fn traversal_state(
    m: GraphModel,
    roots: Seq<NodeId>,
    seen: Seq<bool>,
    order: Seq<NodeId>,
    stack: Seq<NodeId>,
    current: Option<NodeId>,
) -> bool {
    &&& seen.len() == m.node_count()
    &&& order.no_duplicates()
    &&& forall|k: int| 0 <= k < order.len() ==> m.has_node(#[trigger] order[k])
    &&& forall|k: int| 0 <= k < order.len() ==> m.reachable(roots, #[trigger] order[k])
    &&& forall|v: NodeId| m.has_node(v) ==> (#[trigger] seen[v as int] <==> order.contains(v))
    &&& forall|k: int| 0 <= k < stack.len() ==> order.contains(#[trigger] stack[k])
    &&& forall|from: NodeId, to: NodeId|
        order.contains(from) && !stack.contains(from) && Some(from) != current
            && #[trigger] m.has_arc(from, to) ==> order.contains(to)
}

/// A sequence of distinct nodes of a graph is no longer than the graph has
/// nodes.
proof fn lemma_distinct_nodes_bounded(m: GraphModel, order: Seq<NodeId>)
    requires
        order.no_duplicates(),
        forall|k: int| 0 <= k < order.len() ==> m.has_node(#[trigger] order[k]),
    ensures
        order.len() <= m.node_count(),
{
    let inside = Set::new(|v: NodeId| v < m.node_count());
    crate::accessor::lemma_nodes_finite(m.node_count());
    order.unique_seq_to_set();
    assert(order.to_set().subset_of(inside)) by {
        assert forall|v: NodeId| order.to_set().contains(v) implies inside.contains(v) by {
            let k = choose|k: int| 0 <= k < order.len() && order[k] == v;
            assert(m.has_node(order[k]));
        }
    }
    vstd::set_lib::lemma_len_subset(order.to_set(), inside);
}

impl MemoryGraph {
    /// Marks `node` as visited, unless it already is: appends it to `order`
    /// and puts it on `stack`.
    fn visit(
        &self,
        node: NodeId,
        seen: &mut Vec<bool>,
        order: &mut Vec<NodeId>,
        stack: &mut Vec<NodeId>,
        Ghost(roots): Ghost<Seq<NodeId>>,
        Ghost(current): Ghost<Option<NodeId>>,
    )
        requires
            traversal_state(self@, roots, old(seen)@, old(order)@, old(stack)@, current),
            self@.has_node(node),
            self@.reachable(roots, node),
        ensures
            traversal_state(self@, roots, final(seen)@, final(order)@, final(stack)@, current),
            final(order)@.contains(node),
            old(order)@.contains(node) ==> final(order)@ == old(order)@,
            old(order)@.contains(node) ==> final(stack)@ == old(stack)@,
            !old(order)@.contains(node) ==> final(order)@ == old(order)@.push(node),
            !old(order)@.contains(node) ==> final(stack)@ == old(stack)@.push(node),
    {
        if !seen[node] {
            seen.set(node, true);
            order.push(node);
            stack.push(node);
            proof {
                let m = self@;
                let before = old(order)@;
                let after = order@;
                assert(!before.contains(node));
                assert forall|k: int| 0 <= k < after.len() implies m.has_node(
                    #[trigger] after[k],
                ) && m.reachable(roots, after[k]) by {
                    if k < before.len() {
                        assert(after[k] == before[k]);
                    }
                }
                assert forall|v: NodeId| after.contains(v) <==> (before.contains(v) || v
                    == node) by {
                    if after.contains(v) {
                        let k = choose|k: int| 0 <= k < after.len() && after[k] == v;
                        if k < before.len() {
                            assert(before[k] == v);
                        }
                    }
                    if before.contains(v) {
                        let k = choose|k: int| 0 <= k < before.len() && before[k] == v;
                        assert(after[k] == v);
                    }
                    if v == node {
                        assert(after[before.len() as int] == v);
                    }
                }
                assert forall|k: int| 0 <= k < stack@.len() implies after.contains(
                    #[trigger] stack@[k],
                ) by {
                    if k < old(stack)@.len() {
                        assert(stack@[k] == old(stack)@[k]);
                    }
                }
                assert forall|from: NodeId, to: NodeId|
                    after.contains(from) && !stack@.contains(from) && Some(from) != current
                        && #[trigger] m.has_arc(from, to) implies after.contains(to) by {
                    if from == node {
                        assert(stack@[old(stack)@.len() as int] == node);
                    } else {
                        if old(stack)@.contains(from) {
                            let k = choose|k: int|
                                0 <= k < old(stack)@.len() && old(stack)@[k] == from;
                            assert(stack@[k] == from);
                        }
                    }
                }
            }
        } else {
            proof {
                assert(old(order)@.contains(node));
            }
        }
    }
}

impl GraphAccessor for MemoryGraph {
    fn node_count(&self) -> (count: usize) {
        self.nodes.len()
    }

    fn arc_count(&self) -> (count: usize) {
        self.arc_count
    }

    fn node_type(&self, id: NodeId) -> (kind: NodeType) {
        self.nodes[id].kind
    }

    fn successors(&self, id: NodeId) -> (out: Vec<NodeId>) {
        proof {
            use_type_invariant(self);
        }
        let out = self.nodes[id].successors.clone();
        proof {
            assert(out@ =~= self.nodes@[id as int].successors@);
            assert forall|k: int| 0 <= k < out@.len() implies self@.has_node(
                #[trigger] out@[k],
            ) by {
                assert(self@.has_arc(id, out@[k]));
            }
        }
        out
    }

    fn message(&self, id: NodeId) -> (bytes: Option<Vec<u8>>) {
        match &self.nodes[id].message {
            Some(stored) => {
                let copy = stored.clone();
                proof {
                    assert(copy@ =~= stored@);
                }
                Some(copy)
            },
            None => None,
        }
    }

    fn committer_id(&self, id: NodeId) -> (committer: Option<u64>) {
        self.nodes[id].committer_id
    }

    fn committer_timestamp(&self, id: NodeId) -> (seconds: Option<i64>) {
        self.nodes[id].committer_timestamp
    }

    fn swhid(&self, id: NodeId) -> (text: String) {
        self.nodes[id].swhid.clone()
    }

    fn find_latest_snapshot(&self, id: NodeId) -> (found: Option<(NodeId, u64)>) {
        proof {
            use_type_invariant(self);
            assert(self@.has_node(id));
        }
        self.nodes[id].latest_snapshot
    }

    fn reachable_from(&self, roots: &Vec<NodeId>) -> (out: Vec<NodeId>) {
        proof {
            use_type_invariant(self);
        }
        let count = self.nodes.len();
        let mut seen: Vec<bool> = Vec::new();
        while seen.len() < count
            invariant
                seen.len() <= count,
                forall|v: int| 0 <= v < seen.len() ==> !seen@[v],
            decreases count - seen.len(),
        {
            seen.push(false);
        }
        let mut order: Vec<NodeId> = Vec::new();
        let mut stack: Vec<NodeId> = Vec::new();
        let mut next: usize = 0;
        while next < roots.len()
            invariant
                next <= roots.len(),
                self@.wf(),
                traversal_state(self@, roots@, seen@, order@, stack@, None),
                forall|k: int| 0 <= k < roots@.len() ==> self@.has_node(#[trigger] roots@[k]),
                forall|k: int| 0 <= k < next ==> order@.contains(#[trigger] roots@[k]),
            decreases roots.len() - next,
        {
            let root = roots[next];
            proof {
                crate::accessor::lemma_root_reachable(self@, roots@, root);
            }
            let ghost before = order@;
            self.visit(root, &mut seen, &mut order, &mut stack, Ghost(roots@), Ghost(None));
            proof {
                assert forall|k: int| 0 <= k < next implies order@.contains(
                    #[trigger] roots@[k],
                ) by {
                    let at = choose|at: int| 0 <= at < before.len() && before[at] == roots@[k];
                    assert(order@[at] == roots@[k]);
                }
            }
            next += 1;
        }
        while stack.len() > 0
            invariant
                self@.wf(),
                count == self@.node_count(),
                traversal_state(self@, roots@, seen@, order@, stack@, None),
                forall|k: int| 0 <= k < roots@.len() ==> order@.contains(#[trigger] roots@[k]),
            decreases 2 * (count - order@.len()) + stack@.len(),
        {
            proof {
                lemma_distinct_nodes_bounded(self@, order@);
            }
            let ghost budget = 2 * (count - order@.len()) + stack@.len();
            let ghost waiting = stack@;
            let node = stack.pop().unwrap();
            proof {
                assert(waiting[waiting.len() - 1] == node);
                assert(order@.contains(node));
                let at = choose|at: int| 0 <= at < order@.len() && order@[at] == node;
                assert(self@.has_node(order@[at]));
                assert(self@.reachable(roots@, order@[at]));
                assert forall|from: NodeId, to: NodeId|
                    order@.contains(from) && !stack@.contains(from) && Some(from) != Some(node)
                        && #[trigger] self@.has_arc(from, to) implies order@.contains(to) by {
                    if waiting.contains(from) {
                        let k = choose|k: int| 0 <= k < waiting.len() && waiting[k] == from;
                        if k < stack@.len() {
                            assert(stack@[k] == from);
                        }
                    }
                }
                assert forall|k: int| 0 <= k < stack@.len() implies order@.contains(
                    #[trigger] stack@[k],
                ) by {
                    assert(stack@[k] == waiting[k]);
                }
            }
            let mut arc: usize = 0;
            let arcs = self.nodes[node].successors.len();
            while arc < arcs
                invariant
                    self@.wf(),
                    count == self@.node_count(),
                    self@.has_node(node),
                    self@.reachable(roots@, node),
                    arcs == self@.successors[node as int].len(),
                    arc <= arcs,
                    traversal_state(self@, roots@, seen@, order@, stack@, Some(node)),
                    order@.contains(node),
                    forall|k: int| 0 <= k < roots@.len() ==> order@.contains(#[trigger] roots@[k]),
                    forall|k: int|
                        0 <= k < arc ==> order@.contains(
                            #[trigger] self@.successors[node as int][k],
                        ),
                    order@.len() <= count,
                    2 * (count - order@.len()) + stack@.len() < budget,
                decreases arcs - arc,
            {
                let target = self.nodes[node].successors[arc];
                proof {
                    assert(self@.successors[node as int][arc as int] == target);
                    assert(self@.has_arc(node, target));
                    assert(self@.has_node(target));
                    crate::accessor::lemma_reachable_step(self@, roots@, node, target);
                }
                let ghost before = order@;
                self.visit(
                    target,
                    &mut seen,
                    &mut order,
                    &mut stack,
                    Ghost(roots@),
                    Ghost(Some(node)),
                );
                proof {
                    lemma_distinct_nodes_bounded(self@, order@);
                    assert forall|v: NodeId| before.contains(v) implies order@.contains(v) by {
                        let at = choose|at: int| 0 <= at < before.len() && before[at] == v;
                        assert(order@[at] == v);
                    }
                }
                arc += 1;
            }
            proof {
                assert forall|from: NodeId, to: NodeId|
                    order@.contains(from) && !stack@.contains(from) && #[trigger] self@.has_arc(
                        from,
                        to,
                    ) implies order@.contains(to) by {
                    if from == node {
                        let row = self@.successors[node as int];
                        let k = choose|k: int| 0 <= k < row.len() && row[k] == to;
                        assert(order@.contains(row[k]));
                    }
                }
            }
        }
        proof {
            let m = self@;
            let visited = order@.to_set();
            assert forall|v: NodeId| visited.contains(v) <==> m.reachable(roots@, v) by {
                if visited.contains(v) {
                    let k = choose|k: int| 0 <= k < order@.len() && order@[k] == v;
                    assert(m.reachable(roots@, order@[k]));
                }
                if m.reachable(roots@, v) {
                    assert forall|from: NodeId, next: NodeId|
                        visited.contains(from) && #[trigger] m.has_arc(
                            from,
                            next,
                        ) implies visited.contains(next) by {
                        assert(!stack@.contains(from));
                    }
                    crate::accessor::lemma_closed_set_holds_reachable(m, roots@, visited, v);
                }
            }
            assert(visited =~= m.closure(roots@));
        }
        order
    }
}

} // verus!
