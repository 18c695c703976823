//! What holds of every graph, every record and every store.

use crate::accessor::{GraphAccessor, GraphModel, NodeId, NodeType};
use crate::graph::{
    cache_name, data_views, fresh_views, is_sample, is_selection, record_views, sample_name,
    scanned_origins, SerializationFormat,
};
use crate::origin::{Origin, OriginData, OriginView};
use crate::server::{lemma_listed_ids_push, listed_ids};
use crate::stats::{
    commit_count, commit_date, committer_count, head_revisions, is_kind, latest_commit_date,
    latest_date_among, latest_snapshot, lemma_heads_are_reachable, lemma_history_finite,
    reachable_revisions,
};
use crate::utils::{ascending, lemma_filter_ascending, lemma_nodes_of_kind, nodes_of_kind};
use vstd::prelude::*;

verus! {

/// Computing all statistics of a record twice leaves it as computing them
/// once does: the second pass changes no field.
pub proof fn lemma_compute_is_idempotent(record: OriginView, m: GraphModel)
    ensures
        record.computed(m).computed(m) == record.computed(m),
{
}

/// Asking for one statistic twice leaves the record as asking once does.
pub proof fn lemma_each_statistic_is_idempotent(record: OriginView, m: GraphModel)
    ensures
        record.with_url(m).with_url(m) == record.with_url(m),
        record.with_latest_commit_date(m).with_latest_commit_date(m)
            == record.with_latest_commit_date(m),
        record.with_commit_count(m).with_commit_count(m) == record.with_commit_count(m),
        record.with_committer_count(m).with_committer_count(m) == record.with_committer_count(m),
{
}

/// A field that holds a value is never changed by a computation, and the
/// identifier never is.
pub proof fn lemma_fields_only_fill(record: OriginView, m: GraphModel)
    ensures
        record.computed(m).id == record.id,
        record.computed(m).url == record.url,
        record.latest_commit_date is Some ==> record.computed(m).latest_commit_date
            == record.latest_commit_date,
        record.number_of_commits is Some ==> record.computed(m).number_of_commits
            == record.number_of_commits,
        record.number_of_commiters is Some ==> record.computed(m).number_of_commiters
            == record.number_of_commiters,
        record.url is Some ==> record.with_url(m).url == record.url,
{
}

/// An origin without a latest snapshot has no head revisions and no
/// statistics: a record of it with nothing cached stays empty whatever is
/// computed.
pub proof fn lemma_no_snapshot_no_statistics(m: GraphModel, id: NodeId)
    requires
        latest_snapshot(m, id) is None,
    ensures
        head_revisions(m, id) == Seq::<NodeId>::empty(),
        commit_count(m, id) is None,
        committer_count(m, id) is None,
        latest_commit_date(m, id) is None,
        OriginView::fresh(id).computed(m) == OriginView::fresh(id),
{
}

/// The latest date among revisions is the date of one of them and no
/// earlier than the date of any; it is absent exactly when none has a date.
pub proof fn lemma_latest_date_is_maximum(m: GraphModel, revisions: Seq<NodeId>)
    ensures
        latest_date_among(m, revisions) is None <==> forall|k: int|
            0 <= k < revisions.len() ==> commit_date(m, #[trigger] revisions[k]) is None,
        latest_date_among(m, revisions) matches Some(latest) ==> {
            &&& exists|k: int|
                0 <= k < revisions.len() && commit_date(m, #[trigger] revisions[k]) == Some(
                    latest,
                )
            &&& forall|k: int|
                0 <= k < revisions.len() ==> (commit_date(
                    m,
                    #[trigger] revisions[k],
                ) matches Some(date) ==> date <= latest)
        },
    decreases revisions.len(),
{
    if revisions.len() > 0 {
        let front = revisions.drop_last();
        let last = revisions.last();
        lemma_latest_date_is_maximum(m, front);
        assert forall|k: int| 0 <= k < front.len() implies front[k] == revisions[k] by {}
        match latest_date_among(m, revisions) {
            Some(latest) => {
                if commit_date(m, last) == Some(latest) {
                    assert(revisions[revisions.len() - 1] == last);
                } else {
                    let k = choose|k: int|
                        0 <= k < front.len() && commit_date(m, #[trigger] front[k]) == Some(
                            latest,
                        );
                    assert(revisions[k] == front[k]);
                }
                assert forall|k: int| 0 <= k < revisions.len() implies (commit_date(
                    m,
                    #[trigger] revisions[k],
                ) matches Some(date) ==> date <= latest) by {
                    if k < front.len() {
                        assert(front[k] == revisions[k]);
                    }
                }
            },
            None => {
                assert forall|k: int| 0 <= k < revisions.len() implies commit_date(
                    m,
                    #[trigger] revisions[k],
                ) is None by {
                    if k < front.len() {
                        assert(front[k] == revisions[k]);
                    }
                }
            },
        }
        if forall|k: int|
            0 <= k < revisions.len() ==> commit_date(m, #[trigger] revisions[k]) is None {
            assert forall|k: int| 0 <= k < front.len() implies commit_date(
                m,
                #[trigger] front[k],
            ) is None by {
                assert(front[k] == revisions[k]);
            }
            assert(commit_date(m, revisions[revisions.len() - 1]) is None);
        }
    }
}

/// The distinct head revisions of an origin with a latest snapshot are no
/// more than the commits of its whole history: heads are part of it.
pub proof fn lemma_heads_within_history(m: GraphModel, id: NodeId)
    requires
        latest_snapshot(m, id) is Some,
    ensures
        commit_count(m, id) matches Some(commits) && head_revisions(m, id).to_set().len()
            <= commits,
{
    let found = latest_snapshot(m, id).unwrap();
    lemma_history_finite(m, found.0);
    let heads = head_revisions(m, id).to_set();
    let history = reachable_revisions(m, found.0);
    assert forall|v: NodeId| heads.contains(v) implies history.contains(v) by {
        lemma_heads_are_reachable(m, id, v);
    }
    vstd::set_lib::lemma_len_subset(heads, history);
}

/// Where an origin has a number of committers and a number of commits, the
/// first is no larger than the second.
pub proof fn lemma_committers_within_commits(m: GraphModel, id: NodeId)
    ensures
        committer_count(m, id) is Some <==> commit_count(m, id) is Some,
        committer_count(m, id) matches Some(committers) ==> (commit_count(
            m,
            id,
        ) matches Some(commits) && committers <= commits),
{
    match latest_snapshot(m, id) {
        Some(found) => {
            lemma_history_finite(m, found.0);
        },
        None => {},
    }
}

/// A record that had no counts cached has, after they were computed, no
/// more committers than commits.
pub proof fn lemma_computed_committers_within_commits(record: OriginView, m: GraphModel)
    requires
        record.number_of_commits is None,
        record.number_of_commiters is None,
    ensures
        record.computed(m).number_of_commiters matches Some(committers) ==> (record.computed(
            m,
        ).number_of_commits matches Some(commits) && committers <= commits),
{
    lemma_committers_within_commits(m, record.id);
}

/// The identifiers of `records` are pairwise distinct.
pub open spec fn distinct_ids(records: Seq<OriginView>) -> bool {
    forall|i: int, j: int| 0 <= i < j < records.len() ==> records[i].id != records[j].id
}

/// What is saved and loaded again is what was there: records that are
/// written as a save hands them out, and read back as a load takes them in,
/// are the records of the store in order, identifiers and all fields.
pub proof fn lemma_save_then_load_restores<G>(
    origins: Seq<Origin<G>>,
    written: Seq<OriginData>,
    loaded: Seq<OriginView>,
)
    requires
        data_views(written) == record_views(origins),
        loaded == data_views(written),
    ensures
        loaded.len() == origins.len(),
        forall|i: int| 0 <= i < origins.len() ==> #[trigger] loaded[i] == origins[i]@,
{
    assert forall|i: int| 0 <= i < origins.len() implies #[trigger] loaded[i] == origins[i]@ by {
        assert(record_views(origins)[i] == origins[i]@);
    }
    assert(record_views(origins).len() == origins.len());
}

/// A sample of a store whose identifiers are distinct holds distinct
/// identifiers, each of a record of the store; it is no larger than the
/// store, and a sample as large as the store holds every record.
pub proof fn lemma_sample_is_distinct(picked: Seq<OriginView>, all: Seq<OriginView>)
    requires
        is_sample(picked, all),
        distinct_ids(all),
        all.len() <= usize::MAX,
    ensures
        distinct_ids(picked),
        forall|k: int| 0 <= k < picked.len() ==> all.contains(#[trigger] picked[k]),
        picked.len() <= all.len(),
        picked.len() == all.len() ==> forall|i: int|
            0 <= i < all.len() ==> picked.contains(#[trigger] all[i]),
{
    let positions = choose|positions: Seq<usize>| is_selection(picked, all, positions);
    assert forall|i: int, j: int| 0 <= i < j < picked.len() implies picked[i].id
        != picked[j].id by {
        let p = positions[i];
        let q = positions[j];
        assert(p != q);
        if p < q {
            assert(all[p as int].id != all[q as int].id);
        } else {
            assert(all[q as int].id != all[p as int].id);
        }
    }
    assert forall|k: int| 0 <= k < picked.len() implies all.contains(#[trigger] picked[k]) by {
        assert(all[positions[k] as int] == picked[k]);
    }
    let taken = positions.to_set();
    let below = Set::new(|v: usize| v < all.len());
    crate::accessor::lemma_nodes_finite(all.len());
    positions.unique_seq_to_set();
    assert(taken.subset_of(below)) by {
        assert forall|v: usize| taken.contains(v) implies below.contains(v) by {
            let k = choose|k: int| 0 <= k < positions.len() && positions[k] == v;
            assert(positions[k] < all.len());
        }
    }
    vstd::set_lib::lemma_len_subset(taken, below);
    if picked.len() == all.len() {
        assert forall|i: int| 0 <= i < all.len() implies picked.contains(#[trigger] all[i]) by {
            vstd::set_lib::lemma_subset_equality(taken, below);
            assert(below.contains(i as usize));
            assert(taken.contains(i as usize));
            let k = choose|k: int| 0 <= k < positions.len() && positions[k] == i as usize;
            assert(picked[k] == all[positions[k] as int]);
        }
    }
}

/// A scan lists origins in strictly ascending order of identifier, and a
/// node is listed exactly when it is an origin that the scan keeps. A scan
/// that keeps unresolved origins lists every origin of the graph.
pub proof fn lemma_scan_lists_origins(m: GraphModel, keep_unresolved: bool)
    requires
        m.node_count() <= usize::MAX,
    ensures
        ascending(scanned_origins(m, keep_unresolved)),
        forall|v: NodeId|
            scanned_origins(m, keep_unresolved).contains(v) <==> is_kind(m, v, NodeType::Origin)
                && (keep_unresolved || latest_snapshot(m, v) is Some),
        keep_unresolved ==> scanned_origins(m, keep_unresolved) == nodes_of_kind(
            m,
            NodeType::Origin,
        ),
{
    let origins = nodes_of_kind(m, NodeType::Origin);
    let keep = |v: NodeId| keep_unresolved || latest_snapshot(m, v) is Some;
    lemma_nodes_of_kind(m, NodeType::Origin);
    lemma_filter_ascending(origins, keep);
    assert forall|v: NodeId|
        scanned_origins(m, keep_unresolved).contains(v) <==> is_kind(m, v, NodeType::Origin) && (
        keep_unresolved || latest_snapshot(m, v) is Some) by {
        if scanned_origins(m, keep_unresolved).contains(v) {
            assert(origins.filter(keep).contains(v));
        }
        if is_kind(m, v, NodeType::Origin) && keep(v) {
            assert(origins.contains(v) && keep(v));
        }
    }
    if keep_unresolved {
        lemma_filter_keeps_all(origins, keep);
    }
}

/// The records of a scan have pairwise distinct identifiers, so that a
/// sample of them holds no identifier twice.
pub proof fn lemma_scanned_records_are_distinct(m: GraphModel, keep_unresolved: bool)
    requires
        m.node_count() <= usize::MAX,
    ensures
        distinct_ids(fresh_views(scanned_origins(m, keep_unresolved))),
{
    lemma_scan_lists_origins(m, keep_unresolved);
}

/// A filter that every element passes changes nothing.
proof fn lemma_filter_keeps_all(ids: Seq<NodeId>, keep: spec_fn(NodeId) -> bool)
    requires
        forall|k: int| 0 <= k < ids.len() ==> keep(#[trigger] ids[k]),
    ensures
        ids.filter(keep) == ids,
    decreases ids.len(),
{
    reveal(Seq::filter);
    if ids.len() > 0 {
        let front = ids.drop_last();
        assert forall|k: int| 0 <= k < front.len() implies keep(#[trigger] front[k]) by {
            assert(front[k] == ids[k]);
        }
        lemma_filter_keeps_all(front, keep);
        assert(keep(ids[ids.len() - 1]));
        assert(front.push(ids.last()) =~= ids);
    }
}

/// The restricted listing of origins names exactly the records with at
/// least one commit and a latest commit date: every identifier listed is
/// that of such a record, and every such record has its identifier listed.
pub proof fn lemma_listing_has_history<G: GraphAccessor>(origins: Seq<Origin<G>>, id: usize)
    ensures
        listed_ids(origins, true).contains(id) <==> exists|i: int|
            0 <= i < origins.len() && (#[trigger] origins[i]).id == id && origins[i]@.has_history(
                origins[i].graph@,
            ),
        listed_ids(origins, true).len() <= origins.len(),
    decreases origins.len(),
{
    reveal(Seq::filter);
    if origins.len() > 0 {
        let front = origins.drop_last();
        let last = origins.last();
        lemma_listing_has_history(front, id);
        assert(front.push(last) =~= origins);
        lemma_listed_ids_push(front, true, last);
        let listed = listed_ids(origins, true);
        let listed_front = listed_ids(front, true);
        if listed.contains(id) {
            let k = choose|k: int| 0 <= k < listed.len() && listed[k] == id;
            if k < listed_front.len() {
                assert(listed_front[k] == id);
                assert(listed_front.contains(id));
                let i = choose|i: int|
                    0 <= i < front.len() && (#[trigger] front[i]).id == id && front[i]@.has_history(
                        front[i].graph@,
                    );
                assert(origins[i] == front[i]);
            } else {
                assert(origins[origins.len() - 1] == last);
            }
        }
        if exists|i: int|
            0 <= i < origins.len() && (#[trigger] origins[i]).id == id && origins[i]@.has_history(
                origins[i].graph@,
            ) {
            let i = choose|i: int|
                0 <= i < origins.len() && (#[trigger] origins[i]).id == id
                    && origins[i]@.has_history(origins[i].graph@);
            if i < front.len() {
                assert(front[i] == origins[i]);
                assert(listed_front.contains(id));
                let k = choose|k: int| 0 <= k < listed_front.len() && listed_front[k] == id;
                assert(listed[k] == id);
            } else {
                assert(listed[listed.len() - 1] == id);
            }
        }
    } else {
        assert(listed_ids(origins, true) =~= Seq::<usize>::empty());
    }
}

/// The file of a random sample never has the name of a cache file, whatever
/// the formats and the size asked for: a sample cannot overwrite a cache.
pub proof fn lemma_sample_file_is_not_the_cache(
    sample_format: SerializationFormat,
    n: nat,
    cache_format: SerializationFormat,
)
    ensures
        sample_name(sample_format, n) != cache_name(cache_format),
{
    reveal_strlit("origins_random_");
    reveal_strlit("origins.json");
    reveal_strlit("origins.bin");
    let sample = sample_name(sample_format, n);
    let cache = cache_name(cache_format);
    assert(sample[7] == '_');
    assert(cache[7] == '.');
}

} // verus!
