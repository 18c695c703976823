//! One origin of the graph and its memoized statistics.
//!
//! Every statistic is read-or-compute-then-cache: a field that holds a value
//! is returned as it is, without looking at the graph; a field that holds
//! none is computed from the graph and, if there is a value, stored. Asking
//! therefore changes the record, which is why the operations take `&mut`.

use crate::accessor::{GraphAccessor, GraphModel, NodeId, NodeType};
use crate::stats::{
    commit_count, committer_count, head_revisions, heads_among, is_kind, is_revision,
    latest_commit_date, latest_date_among, latest_snapshot, memoized, origin_url,
    reachable_committers, reachable_revisions, revisions_among,
};
use std::collections::HashSet;
use std::sync::Arc;
use vstd::prelude::*;

verus! {

/// The persisted fields of one origin: what a cache file holds of it.
#[derive(Clone, Debug, PartialEq, Eq)]
pub struct OriginData {
    pub id: usize,
    pub url: Option<String>,
    pub latest_commit_date: Option<usize>,
    pub number_of_commits: Option<usize>,
    pub number_of_commiters: Option<usize>,
}

/// An origin as a mathematical value: its identifier and its four optional
/// fields.
pub struct OriginView {
    pub id: NodeId,
    pub url: Option<Seq<char>>,
    pub latest_commit_date: Option<nat>,
    pub number_of_commits: Option<nat>,
    pub number_of_commiters: Option<nat>,
}

/// The view of an optional string.
pub open spec fn text_view(text: Option<String>) -> Option<Seq<char>> {
    match text {
        Some(s) => Some(s@),
        None => None,
    }
}

/// The view of an optional count.
pub open spec fn count_view(count: Option<usize>) -> Option<nat> {
    match count {
        Some(n) => Some(n as nat),
        None => None,
    }
}

impl View for OriginData {
    type V = OriginView;

    open spec fn view(&self) -> OriginView {
        OriginView {
            id: self.id,
            url: text_view(self.url),
            latest_commit_date: count_view(self.latest_commit_date),
            number_of_commits: count_view(self.number_of_commits),
            number_of_commiters: count_view(self.number_of_commiters),
        }
    }
}

impl OriginView {
    /// A record for `id` with nothing computed yet.
    pub open spec fn fresh(id: NodeId) -> OriginView {
        OriginView {
            id,
            url: None,
            latest_commit_date: None,
            number_of_commits: None,
            number_of_commiters: None,
        }
    }

    /// The record after its URL was asked for.
    pub open spec fn with_url(self, m: GraphModel) -> OriginView {
        OriginView { url: memoized(self.url, origin_url(m, self.id)), ..self }
    }

    /// What is answered when the URL of the record is asked for: the URL it
    /// holds, but none where its node is not an origin of the graph.
    pub open spec fn url_answer(self, m: GraphModel) -> Option<Seq<char>> {
        if is_kind(m, self.id, NodeType::Origin) {
            self.url
        } else {
            None
        }
    }

    /// The record after its latest commit date was asked for.
    pub open spec fn with_latest_commit_date(self, m: GraphModel) -> OriginView {
        OriginView {
            latest_commit_date: memoized(self.latest_commit_date, latest_commit_date(m, self.id)),
            ..self
        }
    }

    /// The record after its number of commits was asked for.
    pub open spec fn with_commit_count(self, m: GraphModel) -> OriginView {
        OriginView {
            number_of_commits: memoized(self.number_of_commits, commit_count(m, self.id)),
            ..self
        }
    }

    /// The record after its number of committers was asked for.
    pub open spec fn with_committer_count(self, m: GraphModel) -> OriginView {
        OriginView {
            number_of_commiters: memoized(self.number_of_commiters, committer_count(m, self.id)),
            ..self
        }
    }

    /// The record after all its statistics were computed: the latest commit
    /// date, then the number of commits, then the number of committers.
    pub open spec fn computed(self, m: GraphModel) -> OriginView {
        self.with_latest_commit_date(m).with_commit_count(m).with_committer_count(m)
    }

    /// The record counts for the listing of origins with history: it has at
    /// least one commit and a latest commit date, cached or computable.
    pub open spec fn has_history(self, m: GraphModel) -> bool {
        &&& memoized(self.number_of_commits, commit_count(m, self.id)) matches Some(n) && n > 0
        &&& memoized(self.latest_commit_date, latest_commit_date(m, self.id)) is Some
    }
}

/// One origin of a graph, with a shared handle to the graph and the
/// statistics computed of it so far.
pub struct Origin<G> {
    /// Node identifier of the origin.
    pub id: usize,
    /// Shared handle to the graph the origin belongs to.
    pub graph: Arc<G>,
    pub url: Option<String>,
    pub latest_commit_date: Option<usize>,
    pub number_of_commits: Option<usize>,
    pub number_of_commiters: Option<usize>,
}

impl<G> View for Origin<G> {
    type V = OriginView;

    open spec fn view(&self) -> OriginView {
        OriginView {
            id: self.id,
            url: text_view(self.url),
            latest_commit_date: count_view(self.latest_commit_date),
            number_of_commits: count_view(self.number_of_commits),
            number_of_commiters: count_view(self.number_of_commiters),
        }
    }
}

/// `Arc::clone` of std: another handle to the same value. The contract
/// claims that the new handle points to what the given one points to.
#[verifier::external_body]
pub(crate) fn share<G>(graph: &Arc<G>) -> (handle: Arc<G>)
    ensures
        handle == *graph,
{
    Arc::clone(graph)
}

/// `String::from_utf8` of std: the text that `bytes` encode. The contract
/// claims that there is a text exactly when the bytes are valid UTF-8, and
/// that it then holds the characters they decode to.
#[verifier::external_body]
pub(crate) fn utf8_text(bytes: Vec<u8>) -> (text: Option<String>)
    ensures
        text is Some <==> vstd::utf8::valid_utf8(bytes@),
        text matches Some(s) ==> s@ == vstd::utf8::decode_utf8(bytes@),
{
    match String::from_utf8(bytes) {
        Ok(s) => Some(s),
        Err(_) => None,
    }
}

/// A copy of an optional string.
pub(crate) fn copy_text(text: &Option<String>) -> (copy: Option<String>)
    ensures
        text_view(copy) == text_view(*text),
{
    match text {
        Some(s) => Some(s.clone()),
        None => None,
    }
}

/// The revisions among `nodes` are appended to `revisions`.
fn push_revisions_among<G: GraphAccessor>(
    graph: &G,
    nodes: &Vec<NodeId>,
    revisions: &mut Vec<NodeId>,
)
    requires
        forall|k: int| 0 <= k < nodes@.len() ==> graph@.has_node(#[trigger] nodes@[k]),
    ensures
        final(revisions)@ == old(revisions)@ + revisions_among(graph@, nodes@),
{
    let ghost is_rev = |v: NodeId| is_revision(graph@, v);
    let mut at: usize = 0;
    proof {
        reveal(Seq::filter);
        assert(nodes@.take(0).filter(is_rev) =~= Seq::<NodeId>::empty());
        assert(revisions@ =~= old(revisions)@ + Seq::<NodeId>::empty());
    }
    while at < nodes.len()
        invariant
            at <= nodes.len(),
            is_rev == (|v: NodeId| is_revision(graph@, v)),
            forall|k: int| 0 <= k < nodes@.len() ==> graph@.has_node(#[trigger] nodes@[k]),
            revisions@ == old(revisions)@ + nodes@.take(at as int).filter(is_rev),
        decreases nodes.len() - at,
    {
        let node = nodes[at];
        let kind = graph.node_type(node);
        proof {
            assert(nodes@.take(at + 1) =~= nodes@.take(at as int).push(node));
            nodes@.take(at as int).lemma_filter_push(node, is_rev);
        }
        if kind == NodeType::Revision {
            revisions.push(node);
            proof {
                assert(revisions@ =~= old(revisions)@ + nodes@.take(at + 1).filter(is_rev));
            }
        }
        at += 1;
    }
    proof {
        assert(nodes@.take(nodes@.len() as int) =~= nodes@);
    }
}

/// The latest commit date among `revisions`.
fn latest_date_of<G: GraphAccessor>(graph: &G, revisions: &Vec<NodeId>) -> (latest: Option<usize>)
    requires
        forall|k: int| 0 <= k < revisions@.len() ==> graph@.has_node(#[trigger] revisions@[k]),
    ensures
        count_view(latest) == latest_date_among(graph@, revisions@),
{
    let mut latest: Option<usize> = None;
    let mut at: usize = 0;
    proof {
        assert(revisions@.take(0) =~= Seq::<NodeId>::empty());
    }
    while at < revisions.len()
        invariant
            at <= revisions.len(),
            forall|k: int| 0 <= k < revisions@.len() ==> graph@.has_node(#[trigger] revisions@[k]),
            count_view(latest) == latest_date_among(graph@, revisions@.take(at as int)),
        decreases revisions.len() - at,
    {
        let revision = revisions[at];
        proof {
            assert(revisions@.take(at + 1).drop_last() =~= revisions@.take(at as int));
            assert(revisions@.take(at + 1).last() == revision);
        }
        match graph.committer_timestamp(revision) {
            Some(seconds) => {
                if 0 <= seconds && seconds as u128 <= usize::MAX as u128 {
                    let date = seconds as usize;
                    match latest {
                        Some(best) => {
                            if date > best {
                                latest = Some(date);
                            }
                        },
                        None => {
                            latest = Some(date);
                        },
                    }
                }
            },
            None => {},
        }
        at += 1;
    }
    proof {
        assert(revisions@.take(revisions@.len() as int) =~= revisions@);
    }
    latest
}

/// The number of revisions in the transitive closure of `snapshot`.
fn count_reachable_revisions<G: GraphAccessor>(graph: &G, snapshot: NodeId) -> (count: usize)
    requires
        graph@.has_node(snapshot),
    ensures
        count == reachable_revisions(graph@, snapshot).len(),
        reachable_revisions(graph@, snapshot).finite(),
{
    let mut roots: Vec<NodeId> = Vec::new();
    roots.push(snapshot);
    proof {
        assert(roots@ =~= seq![snapshot]);
    }
    let reached = graph.reachable_from(&roots);
    let ghost m = graph@;
    let ghost mut counted: Set<NodeId> = Set::empty();
    let mut count: usize = 0;
    let mut at: usize = 0;
    while at < reached.len()
        invariant
            at <= reached.len(),
            count <= at,
            m == graph@,
            reached@.no_duplicates(),
            forall|k: int| 0 <= k < reached@.len() ==> m.has_node(#[trigger] reached@[k]),
            counted.finite(),
            count == counted.len(),
            forall|v: NodeId|
                counted.contains(v) <==> is_revision(m, v) && exists|k: int|
                    0 <= k < at && #[trigger] reached@[k] == v,
        decreases reached.len() - at,
    {
        let node = reached[at];
        if graph.node_type(node) == NodeType::Revision {
            proof {
                assert(!counted.contains(node));
                counted = counted.insert(node);
            }
            count += 1;
        }
        at += 1;
    }
    proof {
        assert forall|v: NodeId| counted.contains(v) <==> reachable_revisions(
            m,
            snapshot,
        ).contains(v) by {
            if counted.contains(v) {
                let k = choose|k: int| 0 <= k < at && #[trigger] reached@[k] == v;
                assert(reached@.to_set().contains(reached@[k]));
            }
            if reachable_revisions(m, snapshot).contains(v) {
                assert(m.closure(roots@).contains(v));
                assert(reached@.to_set().contains(v));
            }
        }
        assert(counted =~= reachable_revisions(m, snapshot));
    }
    count
}

/// The number of distinct committers of the revisions in the transitive
/// closure of `snapshot`.
fn count_reachable_committers<G: GraphAccessor>(graph: &G, snapshot: NodeId) -> (count: usize)
    requires
        graph@.has_node(snapshot),
    ensures
        count == reachable_committers(graph@, snapshot).len(),
        reachable_committers(graph@, snapshot).finite(),
{
    broadcast use vstd::std_specs::hash::group_hash_axioms;

    let mut roots: Vec<NodeId> = Vec::new();
    roots.push(snapshot);
    proof {
        assert(roots@ =~= seq![snapshot]);
    }
    let reached = graph.reachable_from(&roots);
    let ghost m = graph@;
    let mut committers: HashSet<u64> = HashSet::new();
    let mut at: usize = 0;
    while at < reached.len()
        invariant
            at <= reached.len(),
            m == graph@,
            forall|k: int| 0 <= k < reached@.len() ==> m.has_node(#[trigger] reached@[k]),
            committers@.finite(),
            forall|committer: u64|
                committers@.contains(committer) <==> exists|k: int|
                    0 <= k < at && is_revision(m, #[trigger] reached@[k])
                        && m.committer_ids[reached@[k] as int] == Some(committer),
        decreases reached.len() - at,
    {
        let node = reached[at];
        if graph.node_type(node) == NodeType::Revision {
            match graph.committer_id(node) {
                Some(committer) => {
                    committers.insert(committer);
                },
                None => {},
            }
        }
        at += 1;
    }
    proof {
        let all = reachable_committers(m, snapshot);
        assert forall|committer: u64| committers@.contains(committer) <==> all.contains(
            committer,
        ) by {
            if committers@.contains(committer) {
                let k = choose|k: int|
                    0 <= k < at && is_revision(m, #[trigger] reached@[k])
                        && m.committer_ids[reached@[k] as int] == Some(committer);
                assert(reached@.to_set().contains(reached@[k]));
                assert(m.closure(roots@).contains(reached@[k]));
                assert(reachable_revisions(m, snapshot).contains(reached@[k]));
            }
            if all.contains(committer) {
                let v = choose|v: NodeId|
                    reachable_revisions(m, snapshot).contains(v)
                        && #[trigger] m.committer_ids[v as int] == Some(committer);
                assert(m.closure(roots@).contains(v));
                assert(reached@.to_set().contains(v));
                let k = choose|k: int| 0 <= k < reached@.len() && reached@[k] == v;
                assert(is_revision(m, reached@[k]));
            }
        }
        assert(committers@ =~= all);
    }
    committers.len()
}

impl<G: GraphAccessor> Origin<G> {
    /// A record for node `id` of `graph`, with nothing computed yet.
    pub fn new(id: usize, graph: Arc<G>) -> (origin: Self)
        ensures
            origin@ == OriginView::fresh(id),
            origin.graph == graph,
    {
        Origin {
            id,
            graph,
            latest_commit_date: None,
            number_of_commits: None,
            number_of_commiters: None,
            url: None,
        }
    }

    /// Attaches the record to `graph`; its fields stay.
    pub fn set_graph(&mut self, graph: Arc<G>)
        ensures
            final(self)@ == old(self)@,
            final(self).graph == graph,
    {
        self.graph = graph;
    }

    /// Another handle to the graph of the record.
    pub fn get_graph(&self) -> (graph: Arc<G>)
        ensures
            graph == self.graph,
    {
        share(&self.graph)
    }

    /// The persisted fields of the record.
    pub fn to_data(&self) -> (data: OriginData)
        ensures
            data@ == self@,
    {
        OriginData {
            id: self.id,
            latest_commit_date: self.latest_commit_date,
            number_of_commits: self.number_of_commits,
            number_of_commiters: self.number_of_commiters,
            url: copy_text(&self.url),
        }
    }

    /// The record that `data` describes, attached to `graph`.
    pub fn from_data(data: OriginData, graph: Arc<G>) -> (origin: Self)
        ensures
            origin@ == data@,
            origin.graph == graph,
    {
        Origin {
            id: data.id,
            graph,
            latest_commit_date: data.latest_commit_date,
            number_of_commits: data.number_of_commits,
            number_of_commiters: data.number_of_commiters,
            url: data.url,
        }
    }

    /// The node identifier of the origin.
    pub fn id(&self) -> (id: usize)
        ensures
            id == self.id,
    {
        self.id
    }

    /// The external identifier of the origin.
    pub fn swhid(&self) -> (text: String)
        requires
            self.graph@.has_node(self.id),
        ensures
            text@ == self.graph@.swhids[self.id as int],
    {
        self.graph.swhid(self.id)
    }

    /// The URL of the origin. A node that is not an origin has none, and the
    /// record stays as it is. For an origin it is the cached one if there is
    /// one, else the one the graph gives, which is then cached.
    pub fn get_url(&mut self) -> (url: Option<String>)
        ensures
            final(self).graph == old(self).graph,
            final(self)@ == old(self)@.with_url(old(self).graph@),
            text_view(url) == final(self)@.url_answer(old(self).graph@),
    {
        if self.id >= self.graph.node_count() {
            return None;
        }
        if self.graph.node_type(self.id) != NodeType::Origin {
            return None;
        }
        if self.url.is_none() {
            self.url =
            match self.graph.message(self.id) {
                Some(bytes) => utf8_text(bytes),
                None => None,
            };
        }
        copy_text(&self.url)
    }

    /// The latest snapshot of the origin, with its generation number.
    pub fn get_latest_snapshot(&self) -> (found: Option<(NodeId, u64)>)
        ensures
            found == latest_snapshot(self.graph@, self.id),
            found matches Some(pair) ==> self.graph@.has_node(pair.0),
    {
        if self.id >= self.graph.node_count() {
            return None;
        }
        if self.graph.node_type(self.id) != NodeType::Origin {
            return None;
        }
        self.graph.find_latest_snapshot(self.id)
    }

    /// The head revisions of the origin.
    pub fn get_all_latest_snapshots_revisions(&self) -> (revisions: Vec<NodeId>)
        ensures
            revisions@ == head_revisions(self.graph@, self.id),
            forall|k: int| 0 <= k < revisions@.len() ==> is_revision(
                self.graph@,
                #[trigger] revisions@[k],
            ),
    {
        let mut revisions: Vec<NodeId> = Vec::new();
        let snapshot = match self.get_latest_snapshot() {
            Some(found) => found.0,
            None => {
                return revisions;
            },
        };
        let successors = self.graph.successors(snapshot);
        let ghost m = self.graph@;
        let mut at: usize = 0;
        proof {
            assert(successors@.take(0) =~= Seq::<NodeId>::empty());
        }
        while at < successors.len()
            invariant
                at <= successors.len(),
                m == self.graph@,
                forall|k: int| 0 <= k < successors@.len() ==> m.has_node(#[trigger] successors@[k]),
                revisions@ == heads_among(m, successors@.take(at as int)),
            decreases successors.len() - at,
        {
            let successor = successors[at];
            let kind = self.graph.node_type(successor);
            proof {
                assert(successors@.take(at + 1).drop_last() =~= successors@.take(at as int));
                assert(successors@.take(at + 1).last() == successor);
            }
            if kind == NodeType::Revision {
                revisions.push(successor);
                proof {
                    assert(revisions@ =~= heads_among(m, successors@.take(at as int)) + seq![
                        successor,
                    ]);
                }
            } else if kind == NodeType::Release {
                let targets = self.graph.successors(successor);
                push_revisions_among(&*self.graph, &targets, &mut revisions);
            } else {
                proof {
                    assert(revisions@ =~= heads_among(m, successors@.take(at as int))
                        + Seq::<NodeId>::empty());
                }
            }
            at += 1;
        }
        proof {
            assert(successors@.take(successors@.len() as int) =~= successors@);
            assert forall|k: int| 0 <= k < revisions@.len() implies is_revision(
                m,
                #[trigger] revisions@[k],
            ) by {
                assert(revisions@.contains(revisions@[k]));
                crate::stats::lemma_heads_among_members(m, successors@, revisions@[k]);
            }
        }
        revisions
    }

    /// The latest commit date among the head revisions, computed without
    /// caching it.
    pub fn get_latest_commit_date_read_only(&self) -> (date: Option<usize>)
        ensures
            count_view(date) == memoized(
                self@.latest_commit_date,
                latest_commit_date(self.graph@, self.id),
            ),
    {
        if self.latest_commit_date.is_none() {
            let revisions = self.get_all_latest_snapshots_revisions();
            return latest_date_of(&*self.graph, &revisions);
        }
        self.latest_commit_date
    }

    /// The latest commit date among the head revisions: the cached one if
    /// there is one, else the one computed from the graph, which is then
    /// cached.
    pub fn get_latest_commit_date(&mut self) -> (date: Option<usize>)
        ensures
            final(self).graph == old(self).graph,
            final(self)@ == old(self)@.with_latest_commit_date(old(self).graph@),
            count_view(date) == final(self)@.latest_commit_date,
    {
        if self.latest_commit_date.is_none() {
            let revisions = self.get_all_latest_snapshots_revisions();
            self.latest_commit_date = latest_date_of(&*self.graph, &revisions);
        }
        self.latest_commit_date
    }

    /// The number of revisions in the whole history of the latest snapshot,
    /// computed without caching it.
    pub fn total_commit_latest_snp_read_only(&self) -> (count: Option<usize>)
        ensures
            count_view(count) == memoized(
                self@.number_of_commits,
                commit_count(self.graph@, self.id),
            ),
    {
        if self.number_of_commits.is_none() {
            return match self.get_latest_snapshot() {
                Some(found) => Some(count_reachable_revisions(&*self.graph, found.0)),
                None => None,
            };
        }
        self.number_of_commits
    }

    /// The number of revisions in the whole history of the latest snapshot:
    /// the cached one if there is one, else the one computed from the graph,
    /// which is then cached. Without a latest snapshot nothing changes.
    pub fn total_commit_latest_snp(&mut self) -> (count: Option<usize>)
        ensures
            final(self).graph == old(self).graph,
            final(self)@ == old(self)@.with_commit_count(old(self).graph@),
            count_view(count) == final(self)@.number_of_commits,
    {
        if self.number_of_commits.is_none() {
            match self.get_latest_snapshot() {
                Some(found) => {
                    self.number_of_commits =
                    Some(count_reachable_revisions(&*self.graph, found.0));
                },
                None => {
                    return None;
                },
            }
        }
        self.number_of_commits
    }

    /// The number of distinct committers in the whole history of the latest
    /// snapshot: the cached one if there is one, else the one computed from
    /// the graph, which is then cached. Without a latest snapshot nothing
    /// changes.
    pub fn total_commiter_latest_snp(&mut self) -> (count: Option<usize>)
        ensures
            final(self).graph == old(self).graph,
            final(self)@ == old(self)@.with_committer_count(old(self).graph@),
            count_view(count) == final(self)@.number_of_commiters,
    {
        if self.number_of_commiters.is_none() {
            match self.get_latest_snapshot() {
                Some(found) => {
                    self.number_of_commiters =
                    Some(count_reachable_committers(&*self.graph, found.0));
                },
                None => {
                    return None;
                },
            }
        }
        self.number_of_commiters
    }

    /// Computes what is not cached yet: the latest commit date, then the
    /// number of commits, then the number of committers.
    pub fn compute_data(&mut self)
        ensures
            final(self).graph == old(self).graph,
            final(self)@ == old(self)@.computed(old(self).graph@),
    {
        self.get_latest_commit_date();
        self.total_commit_latest_snp();
        self.total_commiter_latest_snp();
    }
}

} // verus!
