use swh_origin_stats::accessor::{GraphAccessor, NodeType};
use swh_origin_stats::graph::{
    CacheAction, CacheFile, CacheRead, Graph, SerializationFormat, StoreError,
};
use swh_origin_stats::memory::MemoryGraph;
use swh_origin_stats::origin::{Origin, OriginData};

/// Origins 0, 3, 5 and 8. Origin 0 has snapshot 1 with revision 2; origin 5
/// has snapshot 6 with revisions 7 and 2; origins 3 and 8 have no snapshot.
fn sample_graph() -> MemoryGraph {
    let mut g = MemoryGraph::new();
    let kinds = [
        NodeType::Origin,
        NodeType::Snapshot,
        NodeType::Revision,
        NodeType::Origin,
        NodeType::Content,
        NodeType::Origin,
        NodeType::Snapshot,
        NodeType::Revision,
        NodeType::Origin,
    ];
    for kind in kinds {
        g.add_node(kind);
    }
    for (from, to) in [(0, 1), (1, 2), (5, 6), (6, 7), (6, 2), (7, 2)] {
        assert!(g.add_arc(from, to));
    }
    assert!(g.set_latest_snapshot(0, 1, 1));
    assert!(g.set_latest_snapshot(5, 6, 2));
    assert!(g.set_committer_id(2, 1));
    assert!(g.set_committer_id(7, 2));
    assert!(g.set_committer_timestamp(2, 10));
    assert!(g.set_committer_timestamp(7, 20));
    g
}

fn blank(id: usize) -> OriginData {
    OriginData {
        id,
        url: None,
        latest_commit_date: None,
        number_of_commits: None,
        number_of_commiters: None,
    }
}

fn numbered(count: usize) -> Vec<OriginData> {
    (0..count)
        .map(|i| OriginData {
            id: 100 + i,
            url: Some(format!("u{}", i)),
            latest_commit_date: Some(i),
            number_of_commits: None,
            number_of_commiters: Some(2 * i),
        })
        .collect()
}

fn loaded(data: Vec<OriginData>) -> Graph<MemoryGraph> {
    let mut store = Graph::new(sample_graph());
    assert_eq!(store.load_or_compute_origins(CacheRead::Decoded(data)), CacheAction::Keep);
    store
}

fn ids(origins: &Vec<Origin<MemoryGraph>>) -> Vec<usize> {
    origins.iter().map(|o| o.id).collect()
}

fn data_of(store: &Graph<MemoryGraph>) -> Vec<OriginData> {
    store.get_origins().unwrap().iter().map(|o| o.to_data()).collect()
}

#[test]
fn a_new_store_is_not_loaded() {
    let mut store = Graph::new(sample_graph());
    assert!(!store.is_loaded());
    assert!(store.get_origins_cached().is_none());
    assert_eq!(store.get_origins().err(), Some(StoreError::NotLoaded));
    assert_eq!(store.get_origins_mut().err(), Some(StoreError::NotLoaded));
}

#[test]
fn stats_are_the_counts_of_the_graph() {
    let store = Graph::new(sample_graph());
    assert_eq!(store.stats(), (9, 6));
    assert_eq!(Graph::new(MemoryGraph::new()).stats(), (0, 0));
}

#[test]
fn cache_file_is_named_after_the_format() {
    assert_eq!(Graph::new(sample_graph()).cache_file_name(), "origins.json");
    let json = Graph::with_serialization_format(sample_graph(), SerializationFormat::Json);
    assert_eq!(json.cache_file_name(), "origins.json");
    let bin = Graph::with_serialization_format(sample_graph(), SerializationFormat::Bincode);
    assert_eq!(bin.cache_file_name(), "origins.bin");
}

#[test]
fn a_scan_keeps_origins_with_a_snapshot_in_ascending_order() {
    let store = Graph::new(sample_graph());
    let origins = store.compute_origins();
    assert_eq!(ids(&origins), vec![0, 5]);
    for o in &origins {
        assert_eq!(o.to_data(), blank(o.id));
    }
}

#[test]
fn a_scan_can_keep_every_origin() {
    let mut store = Graph::new(sample_graph());
    store.keep_unresolved_origins(true);
    assert_eq!(ids(&store.compute_origins()), vec![0, 3, 5, 8]);
    store.keep_unresolved_origins(false);
    assert_eq!(ids(&store.compute_origins()), vec![0, 5]);
}

#[test]
fn a_scan_of_a_graph_without_origins_is_empty() {
    let mut g = MemoryGraph::new();
    g.add_node(NodeType::Revision);
    let mut store = Graph::new(g);
    store.keep_unresolved_origins(true);
    assert!(store.compute_origins().is_empty());
}

#[test]
fn scanned_records_compute_against_the_graph_of_the_store() {
    let store = Graph::new(sample_graph());
    let mut origins = store.compute_origins();
    assert_eq!(origins[1].total_commit_latest_snp(), Some(2));
    assert_eq!(origins[0].total_commit_latest_snp(), Some(1));
}

#[test]
fn loading_without_a_cache_scans_and_asks_for_a_write() {
    let mut store = Graph::new(sample_graph());
    assert_eq!(store.load_or_compute_origins(CacheRead::Missing), CacheAction::Write);
    assert!(store.is_loaded());
    assert_eq!(data_of(&store), vec![blank(0), blank(5)]);
}

#[test]
fn loading_an_unreadable_cache_scans_and_asks_for_a_replacement() {
    let mut store = Graph::new(sample_graph());
    store.keep_unresolved_origins(true);
    assert_eq!(store.load_or_compute_origins(CacheRead::Unreadable), CacheAction::Replace);
    // One record per origin of the graph, whatever the file held.
    assert_eq!(data_of(&store), vec![blank(0), blank(3), blank(5), blank(8)]);
    // What is then written can be loaded again.
    let written = store.save_origins_to_file().records.unwrap();
    let mut again = Graph::new(sample_graph());
    assert_eq!(again.load_or_compute_origins(CacheRead::Decoded(written)), CacheAction::Keep);
    assert_eq!(data_of(&again), data_of(&store));
}

#[test]
fn loading_decoded_records_keeps_order_and_fields() {
    let data = vec![numbered(3)[2].clone(), numbered(3)[0].clone(), blank(7)];
    let store = loaded(data.clone());
    assert!(store.is_loaded());
    assert_eq!(data_of(&store), data);
    assert_eq!(store.get_origins_cached().unwrap().len(), 3);
}

#[test]
fn loading_an_empty_cache_gives_an_empty_store() {
    let store = loaded(vec![]);
    assert!(store.is_loaded());
    assert!(store.get_origins().unwrap().is_empty());
}

#[test]
fn loaded_records_are_attached_to_the_graph_of_the_store() {
    let mut store = loaded(vec![blank(5), blank(3)]);
    let origins = store.get_origins_mut().unwrap();
    assert_eq!(origins[0].total_commit_latest_snp(), Some(2));
    assert_eq!(origins[0].total_commiter_latest_snp(), Some(2));
    assert_eq!(origins[1].total_commit_latest_snp(), None);
}

#[test]
fn a_loaded_store_stays_as_it_is() {
    let mut store = loaded(numbered(2));
    assert_eq!(store.load_or_compute_origins(CacheRead::Missing), CacheAction::Keep);
    assert_eq!(store.load_or_compute_origins(CacheRead::Unreadable), CacheAction::Keep);
    assert_eq!(
        store.load_or_compute_origins(CacheRead::Decoded(vec![blank(1)])),
        CacheAction::Keep
    );
    assert_eq!(data_of(&store), numbered(2));
}

#[test]
fn load_origins_from_file_replaces_the_records() {
    let mut store = loaded(numbered(2));
    store.load_origins_from_file(vec![blank(9), blank(4)]);
    assert_eq!(data_of(&store), vec![blank(9), blank(4)]);
}

#[test]
fn changes_through_get_origins_mut_stay_in_the_store() {
    let mut store = loaded(vec![blank(0), blank(5)]);
    {
        let origins = store.get_origins_mut().unwrap();
        origins[1].compute_data();
    }
    let origins = store.get_origins().unwrap();
    assert_eq!(origins[0].number_of_commits, None);
    assert_eq!(origins[1].number_of_commits, Some(2));
    assert_eq!(origins[1].number_of_commiters, Some(2));
    assert_eq!(origins[1].latest_commit_date, Some(20));
}

#[test]
fn truncate_keeps_the_first_records() {
    let mut store = loaded(numbered(5));
    store.filter_n_first_origins(3);
    assert_eq!(data_of(&store), numbered(3));
}

#[test]
fn truncate_to_more_than_there_is_changes_nothing() {
    let mut store = loaded(numbered(5));
    store.filter_n_first_origins(5);
    assert_eq!(data_of(&store), numbered(5));
    store.filter_n_first_origins(6);
    assert_eq!(data_of(&store), numbered(5));
    store.filter_n_first_origins(usize::MAX);
    assert_eq!(data_of(&store), numbered(5));
}

#[test]
fn truncate_to_zero_empties_the_store() {
    let mut store = loaded(numbered(5));
    store.filter_n_first_origins(0);
    assert!(store.is_loaded());
    assert!(store.get_origins().unwrap().is_empty());
}

#[test]
fn truncate_of_a_store_that_is_not_loaded_does_nothing() {
    let mut store = Graph::new(sample_graph());
    store.filter_n_first_origins(1);
    assert!(!store.is_loaded());
}

#[test]
fn save_hands_out_every_record_in_order() {
    let mut store = loaded(vec![blank(0), blank(5), blank(3)]);
    store.compute_data(usize::MAX);
    let file = store.save_origins_to_file();
    assert_eq!(file.file_name, "origins.json");
    let expected = vec![
        OriginData {
            id: 0,
            url: None,
            latest_commit_date: Some(10),
            number_of_commits: Some(1),
            number_of_commiters: Some(1),
        },
        OriginData {
            id: 5,
            url: None,
            latest_commit_date: Some(20),
            number_of_commits: Some(2),
            number_of_commiters: Some(2),
        },
        blank(3),
    ];
    assert_eq!(file.records, Some(expected));
}

#[test]
fn save_of_a_store_that_is_not_loaded_has_no_records() {
    let store = Graph::with_serialization_format(sample_graph(), SerializationFormat::Bincode);
    assert_eq!(
        store.save_origins_to_file(),
        CacheFile { file_name: String::from("origins.bin"), records: None }
    );
    assert_eq!(
        store.save_n_random_origins_to_file(12),
        CacheFile { file_name: String::from("origins_random_12.bin"), records: None }
    );
}

#[test]
fn save_then_load_restores_the_records() {
    let mut store = loaded(numbered(4));
    store.get_origins_mut().unwrap()[2].number_of_commits = Some(99);
    let before = data_of(&store);
    let written = store.save_origins_to_file().records.unwrap();
    let mut fresh = Graph::new(sample_graph());
    fresh.load_or_compute_origins(CacheRead::Decoded(written));
    assert_eq!(data_of(&fresh), before);
}

#[test]
fn compute_data_stops_at_the_limit() {
    let mut store = loaded(vec![blank(0), blank(5), blank(0)]);
    store.compute_data(2);
    let origins = store.get_origins().unwrap();
    assert_eq!(origins[0].number_of_commits, Some(1));
    assert_eq!(origins[1].number_of_commits, Some(2));
    assert_eq!(origins[2].number_of_commits, None);
    assert_eq!(origins[2].latest_commit_date, None);
}

#[test]
fn sample_file_is_named_after_the_request_and_the_format() {
    let store = loaded(numbered(3));
    assert_eq!(store.save_n_random_origins_to_file(2).file_name, "origins_random_2.json");
    assert_eq!(store.save_n_random_origins_to_file(0).file_name, "origins_random_0.json");
    assert_eq!(store.save_n_random_origins_to_file(1500).file_name, "origins_random_1500.json");
    let mut bin = Graph::with_serialization_format(sample_graph(), SerializationFormat::Bincode);
    bin.load_or_compute_origins(CacheRead::Decoded(numbered(3)));
    assert_eq!(bin.save_n_random_origins_to_file(10).file_name, "origins_random_10.bin");
}

#[test]
fn a_sample_holds_distinct_records_of_the_store() {
    let all = numbered(50);
    let store = loaded(all.clone());
    for n in [0, 1, 7, 49, 50] {
        let picked = store.save_n_random_origins_to_file(n).records.unwrap();
        assert_eq!(picked.len(), n);
        let mut seen: Vec<usize> = picked.iter().map(|d| d.id).collect();
        seen.sort();
        seen.dedup();
        assert_eq!(seen.len(), n);
        for record in &picked {
            assert_eq!(record, &all[record.id - 100]);
        }
    }
}

#[test]
fn a_sample_larger_than_the_store_holds_every_record_once() {
    let all = numbered(20);
    let store = loaded(all.clone());
    for n in [20, 21, 1000] {
        let mut picked = store.save_n_random_origins_to_file(n).records.unwrap();
        picked.sort_by_key(|d| d.id);
        assert_eq!(picked, all);
    }
}

#[test]
fn sampling_does_not_change_the_store() {
    let store = loaded(numbered(10));
    store.save_n_random_origins_to_file(4);
    assert_eq!(data_of(&store), numbered(10));
}

#[test]
fn samples_differ_from_one_call_to_the_next() {
    // Two samples of 8 out of 1000 agree in content and order with a chance
    // that is far below anything a test run could meet.
    let store = loaded(numbered(1000));
    let first = store.save_n_random_origins_to_file(8).records.unwrap();
    let second = store.save_n_random_origins_to_file(8).records.unwrap();
    let third = store.save_n_random_origins_to_file(8).records.unwrap();
    assert!(first != second || second != third);
}

#[test]
fn pick_origins_follows_the_positions() {
    let store = loaded(numbered(5));
    let origins = store.get_origins().unwrap();
    let picked = Graph::pick_origins(origins, &vec![4, 0, 2]);
    let all = numbered(5);
    assert_eq!(picked, vec![all[4].clone(), all[0].clone(), all[2].clone()]);
    assert!(Graph::pick_origins(origins, &vec![]).is_empty());
}

#[test]
fn inner_graph_is_the_graph_of_the_store() {
    let store = Graph::new(sample_graph());
    assert_eq!(store.inner_graph().node_count(), 9);
    assert_eq!(store.inner_graph().node_type(6), NodeType::Snapshot);
}

#[test]
fn load_origins_hands_out_the_records() {
    let mut store = Graph::new(sample_graph());
    let (action, origins) = store.load_origins(CacheRead::Missing);
    assert_eq!(action, CacheAction::Write);
    assert_eq!(ids(origins), vec![0, 5]);
    let (action, origins) = store.load_origins(CacheRead::Decoded(numbered(4)));
    assert_eq!(action, CacheAction::Keep);
    assert_eq!(ids(origins), vec![0, 5]);
}

#[test]
fn count_missing_counts_the_empty_fields() {
    let store = Graph::new(sample_graph());
    assert_eq!(store.count_missing(), (0, 0));
    let mut store = loaded(vec![blank(0), blank(3), blank(5)]);
    assert_eq!(store.count_missing(), (3, 3));
    store.compute_data(usize::MAX);
    // Origin 3 has no snapshot: nothing can be computed of it.
    assert_eq!(store.count_missing(), (1, 1));
    let mut partly = blank(8);
    partly.latest_commit_date = Some(4);
    assert_eq!(loaded(vec![partly, blank(8)]).count_missing(), (2, 1));
}
