//! The store of origin records of one graph.
//!
//! The store owns the records in the order of the scan that found them, a
//! shared handle to the graph, and the choice of cache encoding. It never
//! touches a file: loading takes what the caller found where the cache file
//! should be and answers with what has to be done about that file; saving
//! hands back the file name and the records to encode.

use crate::accessor::{GraphAccessor, GraphModel, NodeId, NodeType};
use crate::origin::{share, Origin, OriginData, OriginView};
use crate::stats::latest_snapshot;
use crate::text::{decimal, push_decimal};
use crate::utils::{filter_by_node_type, nodes_of_kind};
use std::sync::Arc;
use vstd::prelude::*;
use vstd::string::StringExecFns;

verus! {

/// The encoding of the cache file. It decides the bytes on disk and the
/// name of the file, and nothing in memory.
#[derive(Clone, Copy, Debug, PartialEq, Eq, Structural)]
pub enum SerializationFormat {
    Json,
    Bincode,
}

/// What the caller found where the cache file should be.
pub enum CacheRead {
    /// There is no cache file.
    Missing,
    /// There is a file, but it could not be read or decoded.
    Unreadable,
    /// The records the file holds.
    Decoded(Vec<OriginData>),
}

/// What has to be done about the cache file after a load.
#[derive(Clone, Copy, Debug, PartialEq, Eq, Structural)]
pub enum CacheAction {
    /// Nothing: the file is as it should be.
    Keep,
    /// Write the records of the store to the file.
    Write,
    /// Delete the file, then write the records of the store to it.
    Replace,
}

/// Why the records of a store cannot be handed out.
#[derive(Clone, Copy, Debug, PartialEq, Eq, Structural)]
pub enum StoreError {
    /// The records were neither loaded nor computed yet.
    NotLoaded,
}

/// A file to write: its name inside the data directory and, where the store
/// is loaded, the records to encode into it. Without records the file is
/// created empty.
#[derive(Clone, Debug, PartialEq, Eq)]
pub struct CacheFile {
    pub file_name: String,
    pub records: Option<Vec<OriginData>>,
}

/// The views of `origins`, in order.
pub open spec fn record_views<G>(origins: Seq<Origin<G>>) -> Seq<OriginView> {
    Seq::new(origins.len(), |i: int| origins[i]@)
}

/// The views of `data`, in order.
pub open spec fn data_views(data: Seq<OriginData>) -> Seq<OriginView> {
    Seq::new(data.len(), |i: int| data[i]@)
}

/// Records with nothing computed yet, one for each of `ids`, in order.
pub open spec fn fresh_views(ids: Seq<NodeId>) -> Seq<OriginView> {
    Seq::new(ids.len(), |i: int| OriginView::fresh(ids[i]))
}

/// Every one of `origins` holds the handle `graph`.
pub open spec fn all_attached<G>(origins: Seq<Origin<G>>, graph: Arc<G>) -> bool {
    forall|i: int| 0 <= i < origins.len() ==> (#[trigger] origins[i]).graph == graph
}

/// The origins a scan of the graph keeps, in ascending order: all of them,
/// or, unless `keep_unresolved`, those with a latest snapshot.
pub open spec fn scanned_origins(m: GraphModel, keep_unresolved: bool) -> Seq<NodeId> {
    nodes_of_kind(m, NodeType::Origin).filter(
        |v: NodeId| keep_unresolved || latest_snapshot(m, v) is Some,
    )
}

/// The name of the cache file of a format.
pub open spec fn cache_name(format: SerializationFormat) -> Seq<char> {
    match format {
        SerializationFormat::Json => "origins.json"@,
        SerializationFormat::Bincode => "origins.bin"@,
    }
}

/// The name of the file that holds a random sample asked for with `n`.
pub open spec fn sample_name(format: SerializationFormat, n: nat) -> Seq<char> {
    "origins_random_"@ + decimal(n) + match format {
        SerializationFormat::Json => ".json"@,
        SerializationFormat::Bincode => ".bin"@,
    }
}

/// `picked` holds the elements of `all` at `positions`, which are distinct.
pub open spec fn is_selection(
    picked: Seq<OriginView>,
    all: Seq<OriginView>,
    positions: Seq<usize>,
) -> bool {
    &&& positions.len() == picked.len()
    &&& positions.no_duplicates()
    &&& forall|k: int|
        0 <= k < positions.len() ==> (#[trigger] positions[k]) < all.len() && picked[k]
            == all[positions[k] as int]
}

/// `picked` holds elements of `all` taken at distinct positions: no element
/// of `all` was taken twice.
pub open spec fn is_sample(picked: Seq<OriginView>, all: Seq<OriginView>) -> bool {
    exists|positions: Seq<usize>| is_selection(picked, all, positions)
}

/// How many of `records` have no number of committers yet.
pub open spec fn without_commiters(records: Seq<OriginView>) -> nat {
    records.filter(|r: OriginView| r.number_of_commiters is None).len()
}

/// How many of `records` have no latest commit date yet.
pub open spec fn without_commit_date(records: Seq<OriginView>) -> nat {
    records.filter(|r: OriginView| r.latest_commit_date is None).len()
}

/// The store of origin records of one graph.
pub struct Graph<G> {
    graph: Arc<G>,
    origins: Option<Vec<Origin<G>>>,
    serialization_format: SerializationFormat,
    keep_unresolved: bool,
}

/// `rand::seq::index::sample` of the rand crate, with the thread-local
/// generator `rand::rng()`, and `IndexVec::into_vec`: `amount` positions
/// below `length`, chosen at random. The contract claims what holds of
/// every outcome: there are exactly `amount` of them, all distinct, all
/// below `length`. It demands `amount <= length`, without which the call
/// panics, and, for a length above `u32::MAX`, `amount < length`: such a
/// length is sampled by rejection, which asserts that in builds with debug
/// assertions.
#[verifier::external_body]
fn sample_positions(length: usize, amount: usize) -> (positions: Vec<usize>)
    requires
        amount <= length,
        length <= u32::MAX || amount < length,
    ensures
        positions@.len() == amount,
        positions@.no_duplicates(),
        forall|k: int| 0 <= k < positions@.len() ==> (#[trigger] positions@[k]) < length,
{
    rand::seq::index::sample(&mut rand::rng(), length, amount).into_vec()
}

/// The positions below `length`, in ascending order.
fn all_positions(length: usize) -> (positions: Vec<usize>)
    ensures
        positions@.len() == length,
        forall|k: int| 0 <= k < positions@.len() ==> (#[trigger] positions@[k]) == k,
{
    let mut positions: Vec<usize> = Vec::new();
    let mut next: usize = 0;
    while next < length
        invariant
            next <= length,
            positions@.len() == next,
            forall|k: int| 0 <= k < positions@.len() ==> (#[trigger] positions@[k]) == k,
        decreases length - next,
    {
        positions.push(next);
        next += 1;
    }
    positions
}

/// `amount` distinct positions below `length`: chosen at random, except
/// that all positions of a length above `u32::MAX` are handed out in
/// ascending order, the one request that the random choice does not take.
fn choose_positions(length: usize, amount: usize) -> (positions: Vec<usize>)
    requires
        amount <= length,
    ensures
        positions@.len() == amount,
        positions@.no_duplicates(),
        forall|k: int| 0 <= k < positions@.len() ==> (#[trigger] positions@[k]) < length,
        length > u32::MAX && amount == length ==> forall|k: int|
            0 <= k < positions@.len() ==> (#[trigger] positions@[k]) == k,
{
    if length <= u32::MAX as usize || amount < length {
        sample_positions(length, amount)
    } else {
        all_positions(length)
    }
}

impl<G: GraphAccessor> Graph<G> {
    /// The handle to the graph.
    pub closed spec fn graph(&self) -> Arc<G> {
        self.graph
    }

    /// The records, once loaded or computed.
    pub closed spec fn origins(&self) -> Option<Seq<Origin<G>>> {
        match self.origins {
            Some(origins) => Some(origins@),
            None => None,
        }
    }

    /// The encoding of the cache file.
    pub closed spec fn format(&self) -> SerializationFormat {
        self.serialization_format
    }

    /// Whether a scan keeps the origins without a latest snapshot.
    pub closed spec fn keeps_unresolved(&self) -> bool {
        self.keep_unresolved
    }

    /// The views of the records, once loaded or computed.
    pub open spec fn records(&self) -> Option<Seq<OriginView>> {
        match self.origins() {
            Some(origins) => Some(record_views(origins)),
            None => None,
        }
    }

    /// Every record holds the handle of the store.
    pub open spec fn attached(&self) -> bool {
        self.origins() matches Some(origins) ==> all_attached(origins, self.graph())
    }

    /// A store for `graph` with the JSON cache encoding.
    pub fn new(graph: G) -> (store: Self)
        ensures
            store.graph()@ == graph@,
            store.origins() is None,
            store.format() == SerializationFormat::Json,
            !store.keeps_unresolved(),
    {
        Self::with_serialization_format(graph, SerializationFormat::Json)
    }

    /// A store for `graph` with the given cache encoding. Nothing is loaded
    /// yet, and a scan drops the origins without a latest snapshot.
    pub fn with_serialization_format(graph: G, format: SerializationFormat) -> (store: Self)
        ensures
            store.graph()@ == graph@,
            store.origins() is None,
            store.format() == format,
            !store.keeps_unresolved(),
    {
        Graph {
            graph: Arc::new(graph),
            origins: None,
            serialization_format: format,
            keep_unresolved: false,
        }
    }

    /// Chooses whether a scan keeps the origins without a latest snapshot.
    pub fn keep_unresolved_origins(&mut self, keep: bool)
        ensures
            final(self).graph() == old(self).graph(),
            final(self).origins() == old(self).origins(),
            final(self).format() == old(self).format(),
            final(self).keeps_unresolved() == keep,
    {
        self.keep_unresolved = keep;
    }

    /// The number of nodes and the number of arcs of the graph.
    pub fn stats(&self) -> (counts: (usize, usize))
        ensures
            counts.0 == self.graph()@.node_count(),
            counts.1 == self.graph()@.arc_count,
    {
        (self.graph.node_count(), self.graph.arc_count())
    }

    /// The graph.
    pub fn inner_graph(&self) -> (graph: &G)
        ensures
            graph@ == self.graph()@,
    {
        &*self.graph
    }

    /// Whether the records were loaded or computed.
    pub fn is_loaded(&self) -> (loaded: bool)
        ensures
            loaded == self.origins() is Some,
    {
        self.origins.is_some()
    }

    /// The name of the cache file inside the data directory.
    pub fn cache_file_name(&self) -> (name: String)
        ensures
            name@ == cache_name(self.format()),
    {
        match self.serialization_format {
            SerializationFormat::Json => String::from_str("origins.json"),
            SerializationFormat::Bincode => String::from_str("origins.bin"),
        }
    }

    /// The records, if they were loaded or computed.
    pub fn get_origins_cached(&self) -> (origins: Option<&Vec<Origin<G>>>)
        ensures
            match origins {
                Some(found) => self.origins() == Some(found@),
                None => self.origins() is None,
            },
    {
        self.origins.as_ref()
    }

    /// The records; an error before they were loaded or computed.
    pub fn get_origins(&self) -> (origins: Result<&Vec<Origin<G>>, StoreError>)
        ensures
            match origins {
                Ok(found) => self.origins() == Some(found@),
                Err(error) => self.origins() is None && error == StoreError::NotLoaded,
            },
    {
        match &self.origins {
            Some(found) => Ok(found),
            None => Err(StoreError::NotLoaded),
        }
    }

    /// The records, open to change; an error before they were loaded or
    /// computed. What the caller makes of the records is what the store
    /// holds afterwards.
    pub fn get_origins_mut(&mut self) -> (origins: Result<&mut Vec<Origin<G>>, StoreError>)
        ensures
            final(self).graph() == old(self).graph(),
            final(self).format() == old(self).format(),
            final(self).keeps_unresolved() == old(self).keeps_unresolved(),
            match origins {
                Ok(found) => old(self).origins() == Some(found@) && final(self).origins() == Some(
                    final(found)@,
                ),
                Err(error) => old(self).origins() is None && final(self).origins() is None
                    && error == StoreError::NotLoaded,
            },
    {
        match &mut self.origins {
            Some(found) => Ok(found),
            None => Err(StoreError::NotLoaded),
        }
    }

    /// Scans the graph: a record with nothing computed for every origin, or,
    /// unless the store keeps unresolved origins, for every origin with a
    /// latest snapshot; in ascending order of identifier.
    pub fn compute_origins(&self) -> (origins: Vec<Origin<G>>)
        ensures
            record_views(origins@) == fresh_views(
                scanned_origins(self.graph()@, self.keeps_unresolved()),
            ),
            all_attached(origins@, self.graph()),
    {
        let origin_ids = filter_by_node_type(&*self.graph, NodeType::Origin);
        let ghost m = self.graph@;
        let ghost keep = |v: NodeId| self.keep_unresolved || latest_snapshot(m, v) is Some;
        let ghost mut kept: Seq<NodeId> = Seq::empty();
        let mut origins: Vec<Origin<G>> = Vec::new();
        let mut at: usize = 0;
        proof {
            reveal(Seq::filter);
            assert(origin_ids@.take(0).filter(keep) =~= Seq::<NodeId>::empty());
            assert(record_views(origins@) =~= fresh_views(kept));
        }
        while at < origin_ids.len()
            invariant
                at <= origin_ids.len(),
                m == self.graph@,
                keep == (|v: NodeId| self.keep_unresolved || latest_snapshot(m, v) is Some),
                kept == origin_ids@.take(at as int).filter(keep),
                record_views(origins@) == fresh_views(kept),
                all_attached(origins@, self.graph),
            decreases origin_ids.len() - at,
        {
            let id = origin_ids[at];
            let origin = Origin::new(id, share(&self.graph));
            proof {
                assert(origin_ids@.take(at + 1) =~= origin_ids@.take(at as int).push(id));
                origin_ids@.take(at as int).lemma_filter_push(id, keep);
            }
            if self.keep_unresolved || origin.get_latest_snapshot().is_some() {
                let ghost before = origins@;
                origins.push(origin);
                proof {
                    assert(record_views(before).len() == before.len());
                    assert(fresh_views(kept).len() == kept.len());
                    assert forall|i: int| 0 <= i < origins@.len() implies record_views(
                        origins@,
                    )[i] == fresh_views(kept.push(id))[i] by {
                        if i < before.len() {
                            assert(origins@[i] == before[i]);
                            assert(record_views(before)[i] == fresh_views(kept)[i]);
                        }
                    }
                    assert(record_views(origins@) =~= fresh_views(kept.push(id)));
                    assert forall|i: int| 0 <= i < origins@.len() implies (
                    #[trigger] origins@[i]).graph == self.graph by {
                        if i < before.len() {
                            assert(origins@[i] == before[i]);
                        }
                    }
                    kept = kept.push(id);
                }
            }
            at += 1;
        }
        proof {
            assert(origin_ids@.take(origin_ids@.len() as int) =~= origin_ids@);
        }
        origins
    }

    /// Makes the decoded records of a cache file the records of the store:
    /// same order, same fields, each attached to the graph of the store.
    pub fn load_origins_from_file(&mut self, data: Vec<OriginData>)
        ensures
            final(self).graph() == old(self).graph(),
            final(self).format() == old(self).format(),
            final(self).keeps_unresolved() == old(self).keeps_unresolved(),
            final(self).records() == Some(data_views(data@)),
            final(self).attached(),
    {
        let ghost wanted = data_views(data@);
        let mut data = data;
        let mut origins: Vec<Origin<G>> = Vec::new();
        let mut rest: Vec<OriginData> = Vec::new();
        // The records are taken from the back, so the order is restored at
        // the end.
        while data.len() > 0
            invariant
                data@.len() + rest@.len() == wanted.len(),
                forall|i: int| 0 <= i < data@.len() ==> (#[trigger] data@[i])@ == wanted[i],
                forall|i: int|
                    0 <= i < rest@.len() ==> (#[trigger] rest@[i])@ == wanted[wanted.len() - 1
                        - i],
            decreases data@.len(),
        {
            let last = data.pop().unwrap();
            rest.push(last);
        }
        while rest.len() > 0
            invariant
                origins@.len() + rest@.len() == wanted.len(),
                forall|i: int| 0 <= i < origins@.len() ==> (#[trigger] origins@[i])@ == wanted[i],
                forall|i: int|
                    0 <= i < rest@.len() ==> (#[trigger] rest@[i])@ == wanted[wanted.len() - 1
                        - i],
                all_attached(origins@, self.graph),
                self.graph == old(self).graph,
                self.serialization_format == old(self).serialization_format,
                self.keep_unresolved == old(self).keep_unresolved,
            decreases rest@.len(),
        {
            let next = rest.pop().unwrap();
            let ghost before = origins@;
            origins.push(Origin::from_data(next, share(&self.graph)));
            proof {
                assert forall|i: int| 0 <= i < origins@.len() implies (#[trigger] origins@[i])@
                    == wanted[i] by {
                    if i < before.len() {
                        assert(origins@[i] == before[i]);
                    }
                }
                assert forall|i: int| 0 <= i < origins@.len() implies (#[trigger] origins@[i]).graph
                    == self.graph by {
                    if i < before.len() {
                        assert(origins@[i] == before[i]);
                    }
                }
            }
        }
        proof {
            assert(record_views(origins@) =~= wanted);
        }
        self.origins = Some(origins);
    }

    /// Populates the store, once. A loaded store stays as it is. Otherwise
    /// decoded records become the records of the store; without a cache file
    /// the graph is scanned and the cache is to be written; with a file that
    /// could not be read or decoded the graph is scanned, and the file is to
    /// be deleted and written anew.
    pub fn load_or_compute_origins(&mut self, cache: CacheRead) -> (action: CacheAction)
        ensures
            final(self).graph() == old(self).graph(),
            final(self).format() == old(self).format(),
            final(self).keeps_unresolved() == old(self).keeps_unresolved(),
            final(self).origins() is Some,
            old(self).origins() is Some ==> final(self).origins() == old(self).origins() && action
                == CacheAction::Keep,
            old(self).origins() is None ==> final(self).attached() && match cache {
                CacheRead::Decoded(data) => final(self).records() == Some(data_views(data@))
                    && action == CacheAction::Keep,
                CacheRead::Missing => final(self).records() == Some(
                    fresh_views(
                        scanned_origins(old(self).graph()@, old(self).keeps_unresolved()),
                    ),
                ) && action == CacheAction::Write,
                CacheRead::Unreadable => final(self).records() == Some(
                    fresh_views(
                        scanned_origins(old(self).graph()@, old(self).keeps_unresolved()),
                    ),
                ) && action == CacheAction::Replace,
            },
    {
        if self.origins.is_some() {
            return CacheAction::Keep;
        }
        match cache {
            CacheRead::Decoded(data) => {
                self.load_origins_from_file(data);
                CacheAction::Keep
            },
            CacheRead::Missing => {
                self.origins = Some(self.compute_origins());
                CacheAction::Write
            },
            CacheRead::Unreadable => {
                self.origins = Some(self.compute_origins());
                CacheAction::Replace
            },
        }
    }

    /// Populates the store as `load_or_compute_origins` does, and hands out
    /// the records with what has to be done about the cache file.
    pub fn load_origins(&mut self, cache: CacheRead) -> (loaded: (CacheAction, &Vec<Origin<G>>))
        ensures
            final(self).graph() == old(self).graph(),
            final(self).format() == old(self).format(),
            final(self).keeps_unresolved() == old(self).keeps_unresolved(),
            final(self).origins() == Some(loaded.1@),
            old(self).origins() is Some ==> final(self).origins() == old(self).origins()
                && loaded.0 == CacheAction::Keep,
            old(self).origins() is None ==> final(self).attached() && match cache {
                CacheRead::Decoded(data) => final(self).records() == Some(data_views(data@))
                    && loaded.0 == CacheAction::Keep,
                CacheRead::Missing => final(self).records() == Some(
                    fresh_views(
                        scanned_origins(old(self).graph()@, old(self).keeps_unresolved()),
                    ),
                ) && loaded.0 == CacheAction::Write,
                CacheRead::Unreadable => final(self).records() == Some(
                    fresh_views(
                        scanned_origins(old(self).graph()@, old(self).keeps_unresolved()),
                    ),
                ) && loaded.0 == CacheAction::Replace,
            },
    {
        let action = self.load_or_compute_origins(cache);
        (action, self.origins.as_ref().unwrap())
    }

    /// Keeps the first `max_size` records and drops the rest. A store with
    /// no more records than that, or without records, stays as it is.
    pub fn filter_n_first_origins(&mut self, max_size: usize)
        ensures
            final(self).graph() == old(self).graph(),
            final(self).format() == old(self).format(),
            final(self).keeps_unresolved() == old(self).keeps_unresolved(),
            match old(self).origins() {
                Some(origins) => final(self).origins() == Some(
                    if origins.len() > max_size {
                        origins.take(max_size as int)
                    } else {
                        origins
                    },
                ),
                None => final(self).origins() is None,
            },
            match old(self).records() {
                Some(records) => final(self).records() == Some(
                    if records.len() > max_size {
                        records.take(max_size as int)
                    } else {
                        records
                    },
                ),
                None => final(self).records() is None,
            },
    {
        match self.origins.take() {
            Some(origins) => {
                let mut origins = origins;
                if origins.len() > max_size {
                    let ghost before = origins@;
                    origins.truncate(max_size);
                    proof {
                        assert(origins@ =~= before.take(max_size as int));
                        assert(record_views(origins@) =~= record_views(before).take(
                            max_size as int,
                        ));
                    }
                }
                self.origins = Some(origins);
            },
            None => {},
        }
    }

    /// The persisted fields of the records at `positions`, in that order.
    pub fn pick_origins(origins: &Vec<Origin<G>>, positions: &Vec<usize>) -> (picked: Vec<
        OriginData,
    >)
        requires
            forall|k: int|
                0 <= k < positions@.len() ==> (#[trigger] positions@[k]) < origins@.len(),
        ensures
            picked@.len() == positions@.len(),
            forall|k: int|
                0 <= k < positions@.len() ==> (#[trigger] picked@[k])@
                    == origins@[positions@[k] as int]@,
    {
        let mut picked: Vec<OriginData> = Vec::new();
        let mut at: usize = 0;
        while at < positions.len()
            invariant
                at <= positions.len(),
                picked@.len() == at,
                forall|k: int|
                    0 <= k < positions@.len() ==> (#[trigger] positions@[k]) < origins@.len(),
                forall|k: int|
                    0 <= k < at ==> (#[trigger] picked@[k])@ == origins@[positions@[k] as int]@,
            decreases positions.len() - at,
        {
            let position = positions[at];
            let ghost before = picked@;
            picked.push(origins[position].to_data());
            proof {
                assert forall|k: int| 0 <= k < at + 1 implies (#[trigger] picked@[k])@
                    == origins@[positions@[k] as int]@ by {
                    if k < at {
                        assert(picked@[k] == before[k]);
                    }
                }
            }
            at += 1;
        }
        picked
    }

    /// What a save writes: the cache file of the store with the persisted
    /// fields of all its records, in order.
    pub fn save_origins_to_file(&self) -> (file: CacheFile)
        ensures
            file.file_name@ == cache_name(self.format()),
            match file.records {
                Some(data) => self.records() == Some(data_views(data@)),
                None => self.origins() is None,
            },
    {
        let file_name = self.cache_file_name();
        match &self.origins {
            Some(origins) => {
                let mut data: Vec<OriginData> = Vec::new();
                let mut at: usize = 0;
                while at < origins.len()
                    invariant
                        at <= origins.len(),
                        data@.len() == at,
                        forall|k: int| 0 <= k < at ==> (#[trigger] data@[k])@ == origins@[k]@,
                    decreases origins.len() - at,
                {
                    let ghost before = data@;
                    data.push(origins[at].to_data());
                    proof {
                        assert forall|k: int| 0 <= k < at + 1 implies (#[trigger] data@[k])@
                            == origins@[k]@ by {
                            if k < at {
                                assert(data@[k] == before[k]);
                            }
                        }
                    }
                    at += 1;
                }
                proof {
                    assert(data_views(data@) =~= record_views(origins@));
                }
                CacheFile { file_name, records: Some(data) }
            },
            None => CacheFile { file_name, records: None },
        }
    }

    /// What a save of a random sample writes: a file named after `n`, with
    /// the persisted fields of `n` records chosen at random without
    /// repetition, or of all records where the store has fewer. All records
    /// of a store of more than `u32::MAX` records come in the order of the
    /// store. The store itself does not change.
    pub fn save_n_random_origins_to_file(&self, n: usize) -> (file: CacheFile)
        ensures
            file.file_name@ == sample_name(self.format(), n as nat),
            match file.records {
                Some(data) => {
                    &&& self.records() is Some
                    &&& data@.len() == if n <= self.records().unwrap().len() {
                        n as nat
                    } else {
                        self.records().unwrap().len()
                    }
                    &&& is_sample(data_views(data@), self.records().unwrap())
                    &&& self.records().unwrap().len() > u32::MAX && n
                        >= self.records().unwrap().len() ==> data_views(data@)
                        == self.records().unwrap()
                },
                None => self.origins() is None,
            },
    {
        let mut file_name = String::from_str("origins_random_");
        push_decimal(n, &mut file_name);
        match self.serialization_format {
            SerializationFormat::Json => file_name.append(".json"),
            SerializationFormat::Bincode => file_name.append(".bin"),
        }
        match &self.origins {
            Some(origins) => {
                let amount = if n <= origins.len() {
                    n
                } else {
                    origins.len()
                };
                let positions = choose_positions(origins.len(), amount);
                let data = Self::pick_origins(origins, &positions);
                proof {
                    let all = record_views(origins@);
                    let picked = data_views(data@);
                    assert forall|k: int| 0 <= k < positions@.len() implies (
                    #[trigger] positions@[k]) < all.len() && picked[k] == all[positions@[k] as int]
                    by {
                        assert(data@[k]@ == origins@[positions@[k] as int]@);
                    }
                    assert(is_selection(picked, all, positions@));
                    assert(is_sample(picked, all));
                    assert(self.records() == Some(all));
                    assert(all.len() == origins@.len());
                    if all.len() > u32::MAX && n >= all.len() {
                        assert(picked =~= all);
                    }
                }
                CacheFile { file_name, records: Some(data) }
            },
            None => CacheFile { file_name, records: None },
        }
    }

    /// Computes all statistics of the first `limit` records, one record
    /// after the other; the others stay as they are.
    pub fn compute_data(&mut self, limit: usize)
        ensures
            final(self).graph() == old(self).graph(),
            final(self).format() == old(self).format(),
            final(self).keeps_unresolved() == old(self).keeps_unresolved(),
            match old(self).origins() {
                Some(before) => final(self).origins() matches Some(after) && after.len()
                    == before.len() && forall|i: int|
                    0 <= i < before.len() ==> (#[trigger] after[i]).graph == before[i].graph
                        && after[i]@ == (if i < limit {
                        before[i]@.computed(before[i].graph@)
                    } else {
                        before[i]@
                    }),
                None => final(self).origins() is None,
            },
    {
        match self.origins.take() {
            Some(origins) => {
                let mut origins = origins;
                let ghost before = origins@;
                let mut at: usize = 0;
                while at < origins.len() && at < limit
                    invariant
                        at <= origins.len(),
                        at <= limit,
                        origins@.len() == before.len(),
                        forall|i: int|
                            0 <= i < before.len() ==> (#[trigger] origins@[i]).graph
                                == before[i].graph && origins@[i]@ == (if i < at {
                                before[i]@.computed(before[i].graph@)
                            } else {
                                before[i]@
                            }),
                    decreases origins.len() - at,
                {
                    let ghost previous = origins@;
                    let origin = &mut origins[at];
                    origin.compute_data();
                    proof {
                        assert forall|i: int| 0 <= i < before.len() implies (
                        #[trigger] origins@[i]).graph == before[i].graph && origins@[i]@ == (if i
                            < at + 1 {
                            before[i]@.computed(before[i].graph@)
                        } else {
                            before[i]@
                        }) by {
                            if i != at {
                                assert(origins@[i] == previous[i]);
                            } else {
                                assert(previous[i].graph == before[i].graph);
                            }
                        }
                    }
                    at += 1;
                }
                self.origins = Some(origins);
            },
            None => {},
        }
    }

    /// How many records have no number of committers yet, and how many have
    /// no latest commit date yet; zero for a store without records.
    pub fn count_missing(&self) -> (missing: (usize, usize))
        ensures
            match self.records() {
                Some(records) => missing.0 == without_commiters(records) && missing.1
                    == without_commit_date(records),
                None => missing.0 == 0 && missing.1 == 0,
            },
    {
        let origins = match &self.origins {
            Some(origins) => origins,
            None => {
                return (0, 0);
            },
        };
        let ghost records = record_views(origins@);
        let ghost no_commiters = |r: OriginView| r.number_of_commiters is None;
        let ghost no_date = |r: OriginView| r.latest_commit_date is None;
        let mut commiters: usize = 0;
        let mut dates: usize = 0;
        let mut at: usize = 0;
        proof {
            reveal(Seq::filter);
            assert(records.take(0) =~= Seq::<OriginView>::empty());
        }
        while at < origins.len()
            invariant
                at <= origins.len(),
                records == record_views(origins@),
                no_commiters == (|r: OriginView| r.number_of_commiters is None),
                no_date == (|r: OriginView| r.latest_commit_date is None),
                commiters <= at,
                dates <= at,
                commiters == records.take(at as int).filter(no_commiters).len(),
                dates == records.take(at as int).filter(no_date).len(),
            decreases origins.len() - at,
        {
            proof {
                assert(records.take(at + 1) =~= records.take(at as int).push(origins@[at as int]@));
                records.take(at as int).lemma_filter_push(origins@[at as int]@, no_commiters);
                records.take(at as int).lemma_filter_push(origins@[at as int]@, no_date);
            }
            if origins[at].number_of_commiters.is_none() {
                commiters += 1;
            }
            if origins[at].latest_commit_date.is_none() {
                dates += 1;
            }
            at += 1;
        }
        proof {
            assert(records.take(records.len() as int) =~= records);
        }
        (commiters, dates)
    }
}

} // verus!
