//! What the server answers, request by request.
//!
//! A [`GraphServer`] owns the store. The transport layer around it keeps it
//! behind one exclusive lock and takes that lock for every request, reads
//! included: answering most requests fills in statistics that were not
//! computed yet, which changes the store. A record is found by scanning the
//! store from the front for the identifier asked for.

use crate::accessor::GraphAccessor;
use crate::graph::{record_views, Graph};
use crate::origin::{count_view, text_view, Origin, OriginView};
use crate::text::{decimal, decimal_string, push_decimal};
use vstd::prelude::*;
use vstd::string::StringExecFns;

verus! {

/// The configuration of the server.
#[derive(Clone, Debug, PartialEq, Eq)]
pub struct ServerArgs {
    /// Port to bind the server to.
    pub port: u16,
    /// Path to the graph.
    pub graph_path: String,
    /// Directory of the cache files.
    pub data_path: String,
    /// Host to bind the server to.
    pub host: String,
    /// Whether every request and response is logged.
    pub log: bool,
}

impl ServerArgs {
    /// The configuration for a graph, with the defaults for the rest: port
    /// 5000 on 127.0.0.1, cache files under `./data`, no request log.
    pub fn new(graph_path: String) -> (args: ServerArgs)
        ensures
            args.port == 5000,
            args.graph_path@ == graph_path@,
            args.data_path@ == "./data"@,
            args.host@ == "127.0.0.1"@,
            !args.log,
    {
        ServerArgs {
            port: 5000,
            graph_path,
            data_path: String::from_str("./data"),
            host: String::from_str("127.0.0.1"),
            log: false,
        }
    }

    /// The address to listen on: the host, a colon, the port in decimal.
    pub fn bind_address(&self) -> (address: String)
        ensures
            address@ == self.host@ + seq![':'] + decimal(self.port as nat),
    {
        let mut address = self.host.clone();
        proof {
            reveal_strlit(":");
            assert(":"@ =~= seq![':']);
        }
        address.append(":");
        push_decimal(self.port as usize, &mut address);
        address
    }
}

/// Why a request was not answered.
#[derive(Clone, Copy, Debug, PartialEq, Eq, Structural)]
pub enum ApiError {
    /// No record has the identifier asked for.
    NotFound,
    /// The store could not hand out its records.
    Internal,
}

impl ApiError {
    /// The HTTP status of the error.
    pub fn status_code(&self) -> (status: u16)
        ensures
            status == match *self {
                ApiError::NotFound => 404u16,
                ApiError::Internal => 500u16,
            },
    {
        match self {
            ApiError::NotFound => 404,
            ApiError::Internal => 500,
        }
    }
}

/// The HTTP status of an answer: 200 where there is one, else that of the
/// error.
pub fn status_of<T>(reply: &Result<T, ApiError>) -> (status: u16)
    ensures
        status == match *reply {
            Ok(_) => 200u16,
            Err(ApiError::NotFound) => 404u16,
            Err(ApiError::Internal) => 500u16,
        },
{
    match reply {
        Ok(_) => 200,
        Err(error) => error.status_code(),
    }
}

/// The answer to a health check.
#[derive(Clone, Debug, PartialEq, Eq)]
pub struct HealthReply {
    pub status: String,
    pub service: String,
}

/// The answer to a request for the identifiers of the origins.
#[derive(Clone, Debug, PartialEq, Eq)]
pub struct OriginIdsReply {
    pub origin_ids: Vec<usize>,
    pub count: usize,
}

/// The answer to a request for the URL of an origin.
#[derive(Clone, Debug, PartialEq, Eq)]
pub struct UrlReply {
    pub origin_id: usize,
    pub url: Option<String>,
}

/// The answer to a request for the latest commit date of an origin.
#[derive(Clone, Debug, PartialEq, Eq)]
pub struct LatestCommitDateReply {
    pub origin_id: usize,
    pub latest_commit_date: Option<usize>,
}

/// The answer to a request for the number of committers of an origin.
#[derive(Clone, Debug, PartialEq, Eq)]
pub struct CommitterCountReply {
    pub origin_id: usize,
    pub committer_count: Option<usize>,
}

/// The answer to a request for the number of commits of an origin.
#[derive(Clone, Debug, PartialEq, Eq)]
pub struct CommitCountReply {
    pub origin_id: usize,
    pub commit_count: Option<usize>,
}

/// The record at `at` is the first of `origins` with identifier `id`.
pub open spec fn is_first_with_id<G>(origins: Seq<Origin<G>>, id: usize, at: int) -> bool {
    &&& 0 <= at < origins.len()
    &&& origins[at].id == id
    &&& forall|j: int| 0 <= j < at ==> (#[trigger] origins[j]).id != id
}

/// No record of `origins` has identifier `id`.
pub open spec fn has_no_id<G>(origins: Seq<Origin<G>>, id: usize) -> bool {
    forall|j: int| 0 <= j < origins.len() ==> (#[trigger] origins[j]).id != id
}

/// `after` is `before` with the record at `at` brought to the view `view`;
/// every other record, and the graph handle of that one, are as they were.
pub open spec fn is_touched_at<G>(
    before: Seq<Origin<G>>,
    after: Seq<Origin<G>>,
    at: int,
    view: OriginView,
) -> bool {
    &&& after.len() == before.len()
    &&& 0 <= at < before.len()
    &&& after[at]@ == view
    &&& after[at].graph == before[at].graph
    &&& forall|j: int| 0 <= j < before.len() && j != at ==> #[trigger] after[j] == before[j]
}

/// The position of the first record of `origins` with identifier `id`.
pub open spec fn first_with_id<G>(origins: Seq<Origin<G>>, id: usize) -> int {
    choose|at: int| is_first_with_id(origins, id, at)
}

/// A request about the record with identifier `id` was answered: there is
/// such a record, and the store holds `after` where it held `before`, the
/// first such record brought to the view `view`.
pub open spec fn is_answered<G>(
    before: Option<Seq<Origin<G>>>,
    after: Option<Seq<Origin<G>>>,
    id: usize,
    view: spec_fn(Origin<G>) -> OriginView,
) -> bool {
    &&& before is Some
    &&& after is Some
    &&& is_first_with_id(before.unwrap(), id, first_with_id(before.unwrap(), id))
    &&& is_touched_at(
        before.unwrap(),
        after.unwrap(),
        first_with_id(before.unwrap(), id),
        view(before.unwrap()[first_with_id(before.unwrap(), id)]),
    )
}

/// `after` is `before` with every record brought to the view that `view`
/// gives of it; the graph handles are as they were.
pub open spec fn is_filled<G>(
    before: Seq<Origin<G>>,
    after: Seq<Origin<G>>,
    view: spec_fn(Origin<G>) -> OriginView,
) -> bool {
    &&& after.len() == before.len()
    &&& forall|i: int|
        0 <= i < before.len() ==> (#[trigger] after[i]).graph == before[i].graph && after[i]@
            == view(before[i])
}

/// The record a request about identifier `id` was answered from, as the
/// store holds it afterwards.
pub open spec fn answered_record<G>(
    before: Option<Seq<Origin<G>>>,
    after: Option<Seq<Origin<G>>>,
    id: usize,
) -> Origin<G> {
    after.unwrap()[first_with_id(before.unwrap(), id)]
}

/// A request about the record with identifier `id` was refused: because the
/// store has no records yet, or because none of them has that identifier.
/// The store is as it was.
pub open spec fn is_refused<G>(
    before: Option<Seq<Origin<G>>>,
    after: Option<Seq<Origin<G>>>,
    id: usize,
    error: ApiError,
) -> bool {
    &&& after == before
    &&& match error {
        ApiError::Internal => before is None,
        ApiError::NotFound => before is Some && has_no_id(before.unwrap(), id),
    }
}

/// The position of the first record with identifier `id`, scanning from
/// the front.
pub fn find_origin<G>(origins: &Vec<Origin<G>>, id: usize) -> (found: Option<usize>)
    ensures
        match found {
            Some(at) => is_first_with_id(origins@, id, at as int),
            None => has_no_id(origins@, id),
        },
{
    let mut at: usize = 0;
    while at < origins.len()
        invariant
            at <= origins.len(),
            forall|j: int| 0 <= j < at ==> (#[trigger] origins@[j]).id != id,
        decreases origins.len() - at,
    {
        if origins[at].id == id {
            return Some(at);
        }
        at += 1;
    }
    None
}

/// There is one first record with a given identifier.
pub proof fn lemma_first_is_unique<G>(origins: Seq<Origin<G>>, id: usize, at: int)
    requires
        is_first_with_id(origins, id, at),
    ensures
        first_with_id(origins, id) == at,
{
    let other = first_with_id(origins, id);
    assert(is_first_with_id(origins, id, other));
    if other < at {
        assert(origins[other].id != id);
    }
    if at < other {
        assert(origins[at].id != id);
    }
}

/// The identifiers to list: of all records, or, with `only_with_history`,
/// of the records with at least one commit and a latest commit date.
pub open spec fn listed_ids<G: GraphAccessor>(
    origins: Seq<Origin<G>>,
    only_with_history: bool,
) -> Seq<usize> {
    origins.filter(|o: Origin<G>| !only_with_history || o@.has_history(o.graph@)).map_values(
        |o: Origin<G>| o.id,
    )
}

/// The records with a value in the field that `value` reads, each as the
/// pair of its identifier and that value in decimal, in order.
pub open spec fn decimal_entries(
    records: Seq<OriginView>,
    value: spec_fn(OriginView) -> Option<nat>,
) -> Seq<(Seq<char>, Seq<char>)> {
    records.filter(|r: OriginView| value(r) is Some).map_values(
        |r: OriginView| (decimal(r.id as nat), decimal(value(r).unwrap())),
    )
}

/// The records with a latest commit date, each as the pair of its
/// identifier and that date in decimal, in order.
pub open spec fn date_entries(records: Seq<OriginView>) -> Seq<(Seq<char>, Seq<char>)> {
    decimal_entries(records, |r: OriginView| r.latest_commit_date)
}

/// The records with a number of commits, each as the pair of its identifier
/// and that number in decimal, in order.
pub open spec fn count_entries(records: Seq<OriginView>) -> Seq<(Seq<char>, Seq<char>)> {
    decimal_entries(records, |r: OriginView| r.number_of_commits)
}

/// Appending a record to the records appends its entry to the entries, if
/// it has a value, and nothing otherwise.
pub proof fn lemma_decimal_entries_push(
    records: Seq<OriginView>,
    value: spec_fn(OriginView) -> Option<nat>,
    record: OriginView,
)
    ensures
        decimal_entries(records.push(record), value) == if value(record) is Some {
            decimal_entries(records, value).push(
                (decimal(record.id as nat), decimal(value(record).unwrap())),
            )
        } else {
            decimal_entries(records, value)
        },
{
    let has = |r: OriginView| value(r) is Some;
    let entry = |r: OriginView| (decimal(r.id as nat), decimal(value(r).unwrap()));
    records.lemma_filter_push(record, has);
    if value(record) is Some {
        assert(records.filter(has).push(record).map_values(entry) =~= records.filter(
            has,
        ).map_values(entry).push(entry(record)));
    }
}

/// Appending a record to the records appends its identifier to the
/// identifiers to list, if it is to be listed, and nothing otherwise.
pub proof fn lemma_listed_ids_push<G: GraphAccessor>(
    origins: Seq<Origin<G>>,
    only_with_history: bool,
    origin: Origin<G>,
)
    ensures
        listed_ids(origins.push(origin), only_with_history) == if !only_with_history
            || origin@.has_history(origin.graph@) {
            listed_ids(origins, only_with_history).push(origin.id)
        } else {
            listed_ids(origins, only_with_history)
        },
{
    let listed = |o: Origin<G>| !only_with_history || o@.has_history(o.graph@);
    let id = |o: Origin<G>| o.id;
    origins.lemma_filter_push(origin, listed);
    if listed(origin) {
        assert(origins.filter(listed).push(origin).map_values(id) =~= origins.filter(
            listed,
        ).map_values(id).push(id(origin)));
    }
}

/// The views of pairs of strings, in order.
pub open spec fn entry_views(entries: Seq<(String, String)>) -> Seq<(Seq<char>, Seq<char>)> {
    entries.map_values(|e: (String, String)| (e.0@, e.1@))
}

/// The answer to `GET /health`.
pub fn health_check() -> (reply: HealthReply)
    ensures
        reply.status@ == "healthy"@,
        reply.service@ == "swh-graph-api"@,
{
    HealthReply {
        status: String::from_str("healthy"),
        service: String::from_str("swh-graph-api"),
    }
}

/// The server: the store, and whether the listing of origins is restricted
/// to those with history.
pub struct GraphServer<G> {
    graph: Graph<G>,
    only_with_history: bool,
}

impl<G: GraphAccessor> GraphServer<G> {
    /// The store of the server.
    pub closed spec fn store(&self) -> Graph<G> {
        self.graph
    }

    /// Whether the listing of origins is restricted to those with history.
    pub closed spec fn lists_only_with_history(&self) -> bool {
        self.only_with_history
    }

    /// A server for `graph`. Its listing of origins is restricted to those
    /// with history.
    pub fn new(graph: Graph<G>) -> (server: Self)
        ensures
            server.store() == graph,
            server.lists_only_with_history(),
    {
        GraphServer { graph, only_with_history: true }
    }

    /// Chooses whether the listing of origins is restricted to those with
    /// at least one commit and a latest commit date.
    pub fn list_only_with_history(&mut self, only: bool)
        ensures
            final(self).store() == old(self).store(),
            final(self).lists_only_with_history() == only,
    {
        self.only_with_history = only;
    }

    /// The store of the server.
    pub fn graph(&self) -> (graph: &Graph<G>)
        ensures
            *graph == self.store(),
    {
        &self.graph
    }

    /// The store of the server, open to change.
    pub fn graph_mut(&mut self) -> (graph: &mut Graph<G>)
        ensures
            *graph == old(self).store(),
            final(self).store() == *final(graph),
            final(self).lists_only_with_history() == old(self).lists_only_with_history(),
    {
        &mut self.graph
    }

    /// The answer to `GET /origins/{id}/commit-count`: the number of commits
    /// of the first record with that identifier, computed and cached if it
    /// was not.
    pub fn get_commit_count(&mut self, id: usize) -> (reply: Result<CommitCountReply, ApiError>)
        ensures
            final(self).lists_only_with_history() == old(self).lists_only_with_history(),
            final(self).store().graph() == old(self).store().graph(),
            final(self).store().format() == old(self).store().format(),
            final(self).store().keeps_unresolved() == old(self).store().keeps_unresolved(),
            match reply {
                Ok(answer) => {
                    &&& is_answered(
                        old(self).store().origins(),
                        final(self).store().origins(),
                        id,
                        |o: Origin<G>| o@.with_commit_count(o.graph@),
                    )
                    &&& answer.origin_id == id
                    &&& count_view(answer.commit_count) == answered_record(
                        old(self).store().origins(),
                        final(self).store().origins(),
                        id,
                    )@.number_of_commits
                },
                Err(error) => is_refused(
                    old(self).store().origins(),
                    final(self).store().origins(),
                    id,
                    error,
                ),
            },
    {
        let origins = match self.graph.get_origins_mut() {
            Ok(origins) => origins,
            Err(_) => {
                return Err(ApiError::Internal);
            },
        };
        let ghost before = origins@;
        let at = match find_origin(origins, id) {
            Some(at) => at,
            None => {
                return Err(ApiError::NotFound);
            },
        };
        let origin = &mut origins[at];
        let commit_count = origin.total_commit_latest_snp();
        proof {
            lemma_first_is_unique(before, id, at as int);
        }
        Ok(CommitCountReply { origin_id: id, commit_count })
    }

    /// The answer to `GET /origins/{id}/url`: the URL of the first record
    /// with that identifier, computed and cached if it was not; none where
    /// the node of that record is not an origin.
    pub fn get_origin_url(&mut self, id: usize) -> (reply: Result<UrlReply, ApiError>)
        ensures
            final(self).lists_only_with_history() == old(self).lists_only_with_history(),
            final(self).store().graph() == old(self).store().graph(),
            final(self).store().format() == old(self).store().format(),
            final(self).store().keeps_unresolved() == old(self).store().keeps_unresolved(),
            match reply {
                Ok(answer) => {
                    &&& is_answered(
                        old(self).store().origins(),
                        final(self).store().origins(),
                        id,
                        |o: Origin<G>| o@.with_url(o.graph@),
                    )
                    &&& answer.origin_id == id
                    &&& text_view(answer.url) == answered_record(
                        old(self).store().origins(),
                        final(self).store().origins(),
                        id,
                    )@.url_answer(
                        answered_record(
                            old(self).store().origins(),
                            final(self).store().origins(),
                            id,
                        ).graph@,
                    )
                },
                Err(error) => is_refused(
                    old(self).store().origins(),
                    final(self).store().origins(),
                    id,
                    error,
                ),
            },
    {
        let origins = match self.graph.get_origins_mut() {
            Ok(origins) => origins,
            Err(_) => {
                return Err(ApiError::Internal);
            },
        };
        let ghost before = origins@;
        let at = match find_origin(origins, id) {
            Some(at) => at,
            None => {
                return Err(ApiError::NotFound);
            },
        };
        let origin = &mut origins[at];
        let url = origin.get_url();
        proof {
            lemma_first_is_unique(before, id, at as int);
        }
        Ok(UrlReply { origin_id: id, url })
    }

    /// The answer to `GET /origins/{id}/latest-commit-date`: the latest commit date
    /// of the first record with that identifier, computed and cached if it
    /// was not.
    pub fn get_latest_commit_date(&mut self, id: usize) -> (reply: Result<
        LatestCommitDateReply,
        ApiError,
    >)
        ensures
            final(self).lists_only_with_history() == old(self).lists_only_with_history(),
            final(self).store().graph() == old(self).store().graph(),
            final(self).store().format() == old(self).store().format(),
            final(self).store().keeps_unresolved() == old(self).store().keeps_unresolved(),
            match reply {
                Ok(answer) => {
                    &&& is_answered(
                        old(self).store().origins(),
                        final(self).store().origins(),
                        id,
                        |o: Origin<G>| o@.with_latest_commit_date(o.graph@),
                    )
                    &&& answer.origin_id == id
                    &&& count_view(answer.latest_commit_date) == answered_record(
                        old(self).store().origins(),
                        final(self).store().origins(),
                        id,
                    )@.latest_commit_date
                },
                Err(error) => is_refused(
                    old(self).store().origins(),
                    final(self).store().origins(),
                    id,
                    error,
                ),
            },
    {
        let origins = match self.graph.get_origins_mut() {
            Ok(origins) => origins,
            Err(_) => {
                return Err(ApiError::Internal);
            },
        };
        let ghost before = origins@;
        let at = match find_origin(origins, id) {
            Some(at) => at,
            None => {
                return Err(ApiError::NotFound);
            },
        };
        let origin = &mut origins[at];
        let latest_commit_date = origin.get_latest_commit_date();
        proof {
            lemma_first_is_unique(before, id, at as int);
        }
        Ok(LatestCommitDateReply { origin_id: id, latest_commit_date })
    }

    /// The answer to `GET /origins/{id}/committer-count`: the number of committers
    /// of the first record with that identifier, computed and cached if it
    /// was not.
    pub fn get_committer_count(&mut self, id: usize) -> (reply: Result<
        CommitterCountReply,
        ApiError,
    >)
        ensures
            final(self).lists_only_with_history() == old(self).lists_only_with_history(),
            final(self).store().graph() == old(self).store().graph(),
            final(self).store().format() == old(self).store().format(),
            final(self).store().keeps_unresolved() == old(self).store().keeps_unresolved(),
            match reply {
                Ok(answer) => {
                    &&& is_answered(
                        old(self).store().origins(),
                        final(self).store().origins(),
                        id,
                        |o: Origin<G>| o@.with_committer_count(o.graph@),
                    )
                    &&& answer.origin_id == id
                    &&& count_view(answer.committer_count) == answered_record(
                        old(self).store().origins(),
                        final(self).store().origins(),
                        id,
                    )@.number_of_commiters
                },
                Err(error) => is_refused(
                    old(self).store().origins(),
                    final(self).store().origins(),
                    id,
                    error,
                ),
            },
    {
        let origins = match self.graph.get_origins_mut() {
            Ok(origins) => origins,
            Err(_) => {
                return Err(ApiError::Internal);
            },
        };
        let ghost before = origins@;
        let at = match find_origin(origins, id) {
            Some(at) => at,
            None => {
                return Err(ApiError::NotFound);
            },
        };
        let origin = &mut origins[at];
        let committer_count = origin.total_commiter_latest_snp();
        proof {
            lemma_first_is_unique(before, id, at as int);
        }
        Ok(CommitterCountReply { origin_id: id, committer_count })
    }

    /// The answer to `GET /origins`: the identifiers of the records, in the
    /// order of the store, and how many they are. Where the listing is
    /// restricted, only records with at least one commit and a latest commit
    /// date are listed; what is not cached of a record is computed for the
    /// purpose and not kept.
    pub fn get_origins_ids(&self) -> (reply: Result<OriginIdsReply, ApiError>)
        ensures
            match reply {
                Ok(answer) => {
                    &&& self.store().origins() is Some
                    &&& answer.origin_ids@ == listed_ids(
                        self.store().origins().unwrap(),
                        self.lists_only_with_history(),
                    )
                    &&& answer.count == answer.origin_ids@.len()
                },
                Err(error) => error == ApiError::Internal && self.store().origins() is None,
            },
    {
        let origins = match self.graph.get_origins() {
            Ok(origins) => origins,
            Err(_) => {
                return Err(ApiError::Internal);
            },
        };
        let only = self.only_with_history;
        let mut ids: Vec<usize> = Vec::new();
        let mut at: usize = 0;
        proof {
            reveal(Seq::filter);
            assert(origins@.take(0) =~= Seq::<Origin<G>>::empty());
            assert(ids@ =~= listed_ids(Seq::<Origin<G>>::empty(), only));
        }
        while at < origins.len()
            invariant
                at <= origins.len(),
                ids@ == listed_ids(origins@.take(at as int), only),
            decreases origins.len() - at,
        {
            let origin = &origins[at];
            let listed = if only {
                let has_commits = match origin.total_commit_latest_snp_read_only() {
                    Some(commits) => commits > 0,
                    None => false,
                };
                let has_commit_date = origin.get_latest_commit_date_read_only().is_some();
                has_commits && has_commit_date
            } else {
                true
            };
            proof {
                assert(origins@.take(at + 1) =~= origins@.take(at as int).push(*origin));
                lemma_listed_ids_push(origins@.take(at as int), only, *origin);
            }
            if listed {
                ids.push(origin.id());
            }
            at += 1;
        }
        proof {
            assert(origins@.take(origins@.len() as int) =~= origins@);
        }
        let count = ids.len();
        Ok(OriginIdsReply { origin_ids: ids, count })
    }

    /// The answer to `GET /origins/latest-commit-dates`: for every record with
    /// a latest commit date, its identifier and that value, both in decimal, in the order
    /// of the store. What was not computed yet is computed and cached on
    /// the way, for every record.
    pub fn get_all_latest_commit_dates(&mut self) -> (reply: Result<
        Vec<(String, String)>,
        ApiError,
    >)
        ensures
            final(self).lists_only_with_history() == old(self).lists_only_with_history(),
            final(self).store().graph() == old(self).store().graph(),
            final(self).store().format() == old(self).store().format(),
            final(self).store().keeps_unresolved() == old(self).store().keeps_unresolved(),
            match reply {
                Ok(entries) => {
                    &&& old(self).store().origins() is Some
                    &&& final(self).store().origins() is Some
                    &&& is_filled(
                        old(self).store().origins().unwrap(),
                        final(self).store().origins().unwrap(),
                        |o: Origin<G>| o@.with_latest_commit_date(o.graph@),
                    )
                    &&& entry_views(entries@) == date_entries(
                        record_views(final(self).store().origins().unwrap()),
                    )
                },
                Err(error) => error == ApiError::Internal && old(self).store().origins() is None
                    && final(self).store().origins() is None,
            },
    {
        let origins = match self.graph.get_origins_mut() {
            Ok(origins) => origins,
            Err(_) => {
                return Err(ApiError::Internal);
            },
        };
        let ghost before = origins@;
        let ghost value = |r: OriginView| r.latest_commit_date;
        let mut entries: Vec<(String, String)> = Vec::new();
        let mut at: usize = 0;
        proof {
            reveal(Seq::filter);
            assert(record_views(origins@).take(0) =~= Seq::<OriginView>::empty());
            assert(entry_views(entries@) =~= decimal_entries(
                Seq::<OriginView>::empty(),
                value,
            ));
        }
        while at < origins.len()
            invariant
                at <= origins.len(),
                origins@.len() == before.len(),
                value == (|r: OriginView| r.latest_commit_date),
                forall|i: int|
                    0 <= i < at ==> (#[trigger] origins@[i]).graph == before[i].graph
                        && origins@[i]@ == before[i]@.with_latest_commit_date(before[i].graph@),
                forall|i: int| at <= i < before.len() ==> #[trigger] origins@[i] == before[i],
                entry_views(entries@) == decimal_entries(
                    record_views(origins@).take(at as int),
                    value,
                ),
            decreases origins.len() - at,
        {
            let ghost previous = origins@;
            let ghost listed = entries@;
            let origin = &mut origins[at];
            let found = origin.get_latest_commit_date();
            let id = origin.id();
            match found {
                Some(number) => {
                    entries.push((decimal_string(id), decimal_string(number)));
                },
                None => {},
            }
            proof {
                let record = origins@[at as int]@;
                assert(record_views(origins@).take(at + 1) =~= record_views(previous).take(
                    at as int,
                ).push(record)) by {
                    assert forall|i: int| 0 <= i < at implies origins@[i] == previous[i] by {}
                }
                lemma_decimal_entries_push(record_views(previous).take(at as int), value, record);
                if found is Some {
                    assert(entry_views(entries@) =~= entry_views(listed).push(
                        (decimal(id as nat), decimal(found.unwrap() as nat)),
                    ));
                } else {
                    assert(entries@ == listed);
                }
            }
            at += 1;
        }
        proof {
            assert(record_views(origins@).take(origins@.len() as int) =~= record_views(origins@));
        }
        Ok(entries)
    }

    /// The answer to `GET /origins/commit-counts`: for every record with
    /// a number of commits, its identifier and that value, both in decimal, in the order
    /// of the store. What was not computed yet is computed and cached on
    /// the way, for every record.
    pub fn get_all_commit_counts(&mut self) -> (reply: Result<Vec<(String, String)>, ApiError>)
        ensures
            final(self).lists_only_with_history() == old(self).lists_only_with_history(),
            final(self).store().graph() == old(self).store().graph(),
            final(self).store().format() == old(self).store().format(),
            final(self).store().keeps_unresolved() == old(self).store().keeps_unresolved(),
            match reply {
                Ok(entries) => {
                    &&& old(self).store().origins() is Some
                    &&& final(self).store().origins() is Some
                    &&& is_filled(
                        old(self).store().origins().unwrap(),
                        final(self).store().origins().unwrap(),
                        |o: Origin<G>| o@.with_commit_count(o.graph@),
                    )
                    &&& entry_views(entries@) == count_entries(
                        record_views(final(self).store().origins().unwrap()),
                    )
                },
                Err(error) => error == ApiError::Internal && old(self).store().origins() is None
                    && final(self).store().origins() is None,
            },
    {
        let origins = match self.graph.get_origins_mut() {
            Ok(origins) => origins,
            Err(_) => {
                return Err(ApiError::Internal);
            },
        };
        let ghost before = origins@;
        let ghost value = |r: OriginView| r.number_of_commits;
        let mut entries: Vec<(String, String)> = Vec::new();
        let mut at: usize = 0;
        proof {
            reveal(Seq::filter);
            assert(record_views(origins@).take(0) =~= Seq::<OriginView>::empty());
            assert(entry_views(entries@) =~= decimal_entries(
                Seq::<OriginView>::empty(),
                value,
            ));
        }
        while at < origins.len()
            invariant
                at <= origins.len(),
                origins@.len() == before.len(),
                value == (|r: OriginView| r.number_of_commits),
                forall|i: int|
                    0 <= i < at ==> (#[trigger] origins@[i]).graph == before[i].graph
                        && origins@[i]@ == before[i]@.with_commit_count(before[i].graph@),
                forall|i: int| at <= i < before.len() ==> #[trigger] origins@[i] == before[i],
                entry_views(entries@) == decimal_entries(
                    record_views(origins@).take(at as int),
                    value,
                ),
            decreases origins.len() - at,
        {
            let ghost previous = origins@;
            let ghost listed = entries@;
            let origin = &mut origins[at];
            let found = origin.total_commit_latest_snp();
            let id = origin.id();
            match found {
                Some(number) => {
                    entries.push((decimal_string(id), decimal_string(number)));
                },
                None => {},
            }
            proof {
                let record = origins@[at as int]@;
                assert(record_views(origins@).take(at + 1) =~= record_views(previous).take(
                    at as int,
                ).push(record)) by {
                    assert forall|i: int| 0 <= i < at implies origins@[i] == previous[i] by {}
                }
                lemma_decimal_entries_push(record_views(previous).take(at as int), value, record);
                if found is Some {
                    assert(entry_views(entries@) =~= entry_views(listed).push(
                        (decimal(id as nat), decimal(found.unwrap() as nat)),
                    ));
                } else {
                    assert(entries@ == listed);
                }
            }
            at += 1;
        }
        proof {
            assert(record_views(origins@).take(origins@.len() as int) =~= record_views(origins@));
        }
        Ok(entries)
    }
}

} // verus!
