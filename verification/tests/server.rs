use swh_origin_stats::accessor::NodeType;
use swh_origin_stats::graph::{CacheRead, Graph};
use swh_origin_stats::memory::MemoryGraph;
use swh_origin_stats::origin::OriginData;
use swh_origin_stats::server::{
    find_origin, health_check, status_of, ApiError, CommitCountReply, CommitterCountReply,
    GraphServer, HealthReply, LatestCommitDateReply, OriginIdsReply, ServerArgs, UrlReply,
};

/// A graph of 50 nodes. Origin 0 has snapshot 1 with revision 2, dated 10.
/// Origin 5 has snapshot 6 with revisions 7 and 2; revision 7 is dated 20.
/// Origin 9 has snapshot 10 with directory 11 only. Origin 12 has snapshot
/// 13 with revision 14, which has no date. Origin 42 has no snapshot.
fn sample_graph() -> MemoryGraph {
    let mut g = MemoryGraph::new();
    for node in 0..50 {
        let kind = match node {
            0 | 5 | 9 | 12 | 42 => NodeType::Origin,
            1 | 6 | 10 | 13 => NodeType::Snapshot,
            2 | 7 | 14 => NodeType::Revision,
            11 => NodeType::Directory,
            _ => NodeType::Content,
        };
        g.add_node(kind);
    }
    for (from, to) in [(1, 2), (6, 7), (6, 2), (10, 11), (13, 14)] {
        assert!(g.add_arc(from, to));
    }
    for (origin, snapshot) in [(0, 1), (5, 6), (9, 10), (12, 13)] {
        assert!(g.set_latest_snapshot(origin, snapshot, 0));
    }
    assert!(g.set_committer_id(2, 1));
    assert!(g.set_committer_id(7, 2));
    assert!(g.set_committer_timestamp(2, 10));
    assert!(g.set_committer_timestamp(7, 20));
    assert!(g.set_message(0, b"https://a.example".to_vec()));
    g
}

fn blank(id: usize) -> OriginData {
    OriginData {
        id,
        url: None,
        latest_commit_date: None,
        number_of_commits: None,
        number_of_commiters: None,
    }
}

fn server_with(data: Vec<OriginData>) -> GraphServer<MemoryGraph> {
    let mut store = Graph::new(sample_graph());
    store.load_or_compute_origins(CacheRead::Decoded(data));
    GraphServer::new(store)
}

fn server() -> GraphServer<MemoryGraph> {
    let mut store = Graph::new(sample_graph());
    store.keep_unresolved_origins(true);
    store.load_or_compute_origins(CacheRead::Missing);
    GraphServer::new(store)
}

fn pair(id: &str, value: &str) -> (String, String) {
    (String::from(id), String::from(value))
}

#[test]
fn health_check_reports_the_service() {
    assert_eq!(
        health_check(),
        HealthReply { status: String::from("healthy"), service: String::from("swh-graph-api") }
    );
}

#[test]
fn commit_count_of_an_origin_without_snapshot_is_null() {
    let mut server = server();
    let reply = server.get_commit_count(42);
    assert_eq!(status_of(&reply), 200);
    let answer = reply.unwrap();
    assert_eq!(answer, CommitCountReply { origin_id: 42, commit_count: None });

    let mut body = serde_json::Map::new();
    body.insert(String::from("origin_id"), serde_json::Value::from(answer.origin_id));
    body.insert(String::from("commit_count"), serde_json::Value::from(answer.commit_count));
    let expected: serde_json::Value =
        serde_json::from_str("{\"origin_id\":42,\"commit_count\":null}").unwrap();
    assert_eq!(serde_json::Value::Object(body), expected);
}

#[test]
fn url_of_an_unknown_origin_is_not_found() {
    let mut server = server();
    let reply = server.get_origin_url(999999);
    assert_eq!(reply, Err(ApiError::NotFound));
    assert_eq!(status_of(&reply), 404);
}

#[test]
fn every_request_by_id_refuses_an_unknown_origin() {
    let mut server = server();
    assert_eq!(server.get_commit_count(1), Err(ApiError::NotFound));
    assert_eq!(server.get_committer_count(1), Err(ApiError::NotFound));
    assert_eq!(server.get_latest_commit_date(1), Err(ApiError::NotFound));
    assert_eq!(server.get_origin_url(1), Err(ApiError::NotFound));
}

#[test]
fn a_store_that_is_not_loaded_is_an_internal_error() {
    let mut server = GraphServer::new(Graph::new(sample_graph()));
    assert_eq!(server.get_commit_count(0), Err(ApiError::Internal));
    assert_eq!(server.get_committer_count(0), Err(ApiError::Internal));
    assert_eq!(server.get_latest_commit_date(0), Err(ApiError::Internal));
    assert_eq!(server.get_origin_url(0), Err(ApiError::Internal));
    assert_eq!(server.get_origins_ids(), Err(ApiError::Internal));
    assert_eq!(server.get_all_commit_counts(), Err(ApiError::Internal));
    assert_eq!(server.get_all_latest_commit_dates(), Err(ApiError::Internal));
    assert_eq!(status_of(&server.get_origins_ids()), 500);
    assert!(!server.graph().is_loaded());
}

#[test]
fn status_codes() {
    assert_eq!(ApiError::NotFound.status_code(), 404);
    assert_eq!(ApiError::Internal.status_code(), 500);
    assert_eq!(status_of(&Ok::<u8, ApiError>(1)), 200);
    assert_eq!(status_of(&Err::<u8, ApiError>(ApiError::NotFound)), 404);
    assert_eq!(status_of(&Err::<u8, ApiError>(ApiError::Internal)), 500);
}

#[test]
fn statistics_by_id() {
    let mut server = server();
    assert_eq!(
        server.get_commit_count(5),
        Ok(CommitCountReply { origin_id: 5, commit_count: Some(2) })
    );
    assert_eq!(
        server.get_committer_count(5),
        Ok(CommitterCountReply { origin_id: 5, committer_count: Some(2) })
    );
    assert_eq!(
        server.get_latest_commit_date(5),
        Ok(LatestCommitDateReply { origin_id: 5, latest_commit_date: Some(20) })
    );
    assert_eq!(
        server.get_origin_url(0),
        Ok(UrlReply { origin_id: 0, url: Some(String::from("https://a.example")) })
    );
    assert_eq!(server.get_origin_url(5), Ok(UrlReply { origin_id: 5, url: None }));
    assert_eq!(
        server.get_committer_count(42),
        Ok(CommitterCountReply { origin_id: 42, committer_count: None })
    );
    assert_eq!(
        server.get_latest_commit_date(42),
        Ok(LatestCommitDateReply { origin_id: 42, latest_commit_date: None })
    );
}

#[test]
fn answers_are_cached_in_the_store() {
    let mut server = server();
    assert!(server.get_commit_count(5).is_ok());
    assert!(server.get_origin_url(0).is_ok());
    let origins = server.graph().get_origins().unwrap();
    let at_five = find_origin(origins, 5).unwrap();
    let at_zero = find_origin(origins, 0).unwrap();
    assert_eq!(origins[at_five].number_of_commits, Some(2));
    assert_eq!(origins[at_five].number_of_commiters, None);
    assert_eq!(origins[at_zero].url, Some(String::from("https://a.example")));
    assert_eq!(origins[at_zero].number_of_commits, None);
}

#[test]
fn a_refused_request_leaves_the_store_alone() {
    let mut server = server();
    let before: Vec<OriginData> =
        server.graph().get_origins().unwrap().iter().map(|o| o.to_data()).collect();
    assert_eq!(server.get_commit_count(999999), Err(ApiError::NotFound));
    let after: Vec<OriginData> =
        server.graph().get_origins().unwrap().iter().map(|o| o.to_data()).collect();
    assert_eq!(after, before);
}

#[test]
fn the_first_record_with_the_identifier_answers() {
    let mut first = blank(5);
    first.number_of_commits = Some(70);
    let mut second = blank(5);
    second.number_of_commits = Some(80);
    let mut server = server_with(vec![blank(0), first, second]);
    assert_eq!(
        server.get_commit_count(5),
        Ok(CommitCountReply { origin_id: 5, commit_count: Some(70) })
    );
}

#[test]
fn find_origin_scans_from_the_front() {
    let server = server_with(vec![blank(9), blank(3), blank(9), blank(0)]);
    let origins = server.graph().get_origins().unwrap();
    assert_eq!(find_origin(origins, 9), Some(0));
    assert_eq!(find_origin(origins, 3), Some(1));
    assert_eq!(find_origin(origins, 0), Some(3));
    assert_eq!(find_origin(origins, 4), None);
}

#[test]
fn listing_is_restricted_to_origins_with_history() {
    // Origin 9 has no commit, origin 12 has a commit without a date, origin
    // 42 has no snapshot.
    let server = server();
    assert!(server.get_origins_ids().is_ok());
    assert_eq!(
        server.get_origins_ids(),
        Ok(OriginIdsReply { origin_ids: vec![0, 5], count: 2 })
    );
}

#[test]
fn listing_does_not_cache() {
    let server = server();
    assert!(server.get_origins_ids().is_ok());
    for origin in server.graph().get_origins().unwrap() {
        assert_eq!(origin.to_data(), blank(origin.id));
    }
}

#[test]
fn listing_goes_by_what_is_cached() {
    let mut with_commits = blank(42);
    with_commits.number_of_commits = Some(3);
    with_commits.latest_commit_date = Some(1);
    let mut without_commits = blank(5);
    without_commits.number_of_commits = Some(0);
    let mut without_date = blank(12);
    without_date.number_of_commits = Some(4);
    let server = server_with(vec![with_commits, without_commits, without_date, blank(0)]);
    assert_eq!(
        server.get_origins_ids(),
        Ok(OriginIdsReply { origin_ids: vec![42, 0], count: 2 })
    );
}

#[test]
fn listing_everything() {
    let mut server = server();
    server.list_only_with_history(false);
    assert_eq!(
        server.get_origins_ids(),
        Ok(OriginIdsReply { origin_ids: vec![0, 5, 9, 12, 42], count: 5 })
    );
    server.list_only_with_history(true);
    assert_eq!(server.get_origins_ids().unwrap().count, 2);
}

#[test]
fn listing_of_an_empty_store() {
    let server = server_with(vec![]);
    assert_eq!(server.get_origins_ids(), Ok(OriginIdsReply { origin_ids: vec![], count: 0 }));
}

#[test]
fn all_latest_commit_dates() {
    let mut server = server();
    assert_eq!(
        server.get_all_latest_commit_dates(),
        Ok(vec![pair("0", "10"), pair("5", "20")])
    );
    let origins = server.graph().get_origins().unwrap();
    assert_eq!(origins[0].latest_commit_date, Some(10));
    assert_eq!(origins[1].latest_commit_date, Some(20));
    assert_eq!(origins[2].latest_commit_date, None);
    assert_eq!(origins[0].number_of_commits, None);
}

#[test]
fn all_commit_counts() {
    let mut server = server();
    assert_eq!(
        server.get_all_commit_counts(),
        Ok(vec![pair("0", "1"), pair("5", "2"), pair("9", "0"), pair("12", "1")])
    );
    let origins = server.graph().get_origins().unwrap();
    assert_eq!(origins[2].number_of_commits, Some(0));
    assert_eq!(origins[4].number_of_commits, None);
}

#[test]
fn all_commit_counts_use_what_is_cached() {
    let mut cached = blank(42);
    cached.number_of_commits = Some(123456);
    let mut server = server_with(vec![cached, blank(5)]);
    assert_eq!(
        server.get_all_commit_counts(),
        Ok(vec![pair("42", "123456"), pair("5", "2")])
    );
}

#[test]
fn the_store_can_be_changed_through_the_server() {
    let mut server = server();
    server.graph_mut().filter_n_first_origins(1);
    assert_eq!(server.graph().get_origins().unwrap().len(), 1);
    assert_eq!(server.get_commit_count(5), Err(ApiError::NotFound));
}

#[test]
fn default_arguments() {
    let args = ServerArgs::new(String::from("/srv/graph"));
    assert_eq!(
        args,
        ServerArgs {
            port: 5000,
            graph_path: String::from("/srv/graph"),
            data_path: String::from("./data"),
            host: String::from("127.0.0.1"),
            log: false,
        }
    );
}

#[test]
fn bind_address_joins_host_and_port() {
    let mut args = ServerArgs::new(String::from("g"));
    assert_eq!(args.bind_address(), "127.0.0.1:5000");
    args.host = String::from("0.0.0.0");
    args.port = 65535;
    assert_eq!(args.bind_address(), "0.0.0.0:65535");
    args.port = 0;
    assert_eq!(args.bind_address(), "0.0.0.0:0");
}

#[test]
fn url_of_a_record_that_is_not_an_origin_is_null() {
    // Node 2 is a revision; the record of it holds a URL all the same.
    let mut record = blank(2);
    record.url = Some(String::from("cached"));
    let mut server = server_with(vec![record.clone()]);
    assert_eq!(server.get_origin_url(2), Ok(UrlReply { origin_id: 2, url: None }));
    assert_eq!(server.graph().get_origins().unwrap()[0].to_data(), record);
}
