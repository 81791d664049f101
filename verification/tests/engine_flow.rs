use incremental_recommender::{Change, ChangeRequest, Engine, EngineError, OutputRecord, StepDiffs};

fn count_record(recs: &Vec<OutputRecord>, want_item: u32, want_change: i64) -> Option<i64> {
    for r in recs.iter() {
        if let OutputRecord::ItemInteractions { item, count, change, .. } = r {
            if *item == want_item && *change == want_change {
                return Some(*count);
            }
        }
    }
    None
}

fn cooc_record(recs: &Vec<OutputRecord>, a: u32, b: u32, want_change: i64) -> Option<i64> {
    for r in recs.iter() {
        if let OutputRecord::Cooccurrences { item_a, item_b, num_cooccurrences, change, .. } = r {
            if *item_a == a && *item_b == b && *change == want_change {
                return Some(*num_cooccurrences);
            }
        }
    }
    None
}

fn sim_record(recs: &Vec<OutputRecord>, a: u32, b: u32, want_change: i64) -> Option<String> {
    for r in recs.iter() {
        if let OutputRecord::Similarities { item_a, item_b, similarity, change, .. } = r {
            if *item_a == a && *item_b == b && *change == want_change {
                return Some(similarity.clone());
            }
        }
    }
    None
}

fn rec_record(recs: &Vec<OutputRecord>, want_query: u32, want_change: i64) -> Option<u32> {
    for r in recs.iter() {
        if let OutputRecord::Recommendations { query, item, change, .. } = r {
            if *query == want_query && *change == want_change {
                return Some(*item);
            }
        }
    }
    None
}

fn record_time(r: &OutputRecord) -> u64 {
    match r {
        OutputRecord::ItemInteractions { time, .. } => *time,
        OutputRecord::Cooccurrences { time, .. } => *time,
        OutputRecord::Similarities { time, .. } => *time,
        OutputRecord::Recommendations { time, .. } => *time,
    }
}

fn record_change(r: &OutputRecord) -> i64 {
    match r {
        OutputRecord::ItemInteractions { change, .. } => *change,
        OutputRecord::Cooccurrences { change, .. } => *change,
        OutputRecord::Similarities { change, .. } => *change,
        OutputRecord::Recommendations { change, .. } => *change,
    }
}

fn first_batch() -> Vec<(u32, u32)> {
    vec![(0, 0), (0, 1), (0, 2), (1, 1), (1, 2), (2, 0), (2, 1), (2, 3)]
}

fn add_request(pairs: Vec<(u32, u32)>) -> ChangeRequest {
    ChangeRequest { change: Change::Add, interactions: pairs }
}

fn remove_request(pairs: Vec<(u32, u32)>) -> ChangeRequest {
    ChangeRequest { change: Change::Remove, interactions: pairs }
}

#[test]
fn end_to_end_first_batch_counts() {
    let mut e = Engine::new();
    let out = e.handle_request(&add_request(first_batch())).unwrap();
    assert_eq!(count_record(&out.item_counts, 0, 1), Some(2));
    assert_eq!(count_record(&out.item_counts, 1, 1), Some(3));
    assert_eq!(count_record(&out.item_counts, 2, 1), Some(2));
    assert_eq!(count_record(&out.item_counts, 3, 1), Some(1));
    assert_eq!(out.item_counts.len(), 4);
    // A fresh engine retracts nothing.
    for r in out.item_counts.iter() {
        assert_eq!(record_change(r), 1);
        assert_eq!(record_time(r), 1);
    }
}

#[test]
fn end_to_end_first_batch_cooccurrences() {
    let mut e = Engine::new();
    let out = e.handle_request(&add_request(first_batch())).unwrap();
    // Pairs are canonical: item_a > item_b, no self-pairs.
    assert_eq!(cooc_record(&out.cooccurrences, 2, 1, 1), Some(2));
    assert_eq!(cooc_record(&out.cooccurrences, 2, 0, 1), Some(1));
    assert_eq!(cooc_record(&out.cooccurrences, 1, 0, 1), Some(2));
    assert_eq!(cooc_record(&out.cooccurrences, 3, 0, 1), Some(1));
    assert_eq!(cooc_record(&out.cooccurrences, 3, 1, 1), Some(1));
    assert_eq!(out.cooccurrences.len(), 5);
    for r in out.cooccurrences.iter() {
        if let OutputRecord::Cooccurrences { item_a, item_b, .. } = r {
            assert!(item_a > item_b);
        } else {
            panic!("wrong collection");
        }
    }
}

#[test]
fn end_to_end_first_batch_similarities() {
    let mut e = Engine::new();
    let out = e.handle_request(&add_request(first_batch())).unwrap();
    // jaccard(2,1) = 2 / (2 + 3 - 2) = 2/3, truncated to ten digits.
    assert_eq!(sim_record(&out.similarities, 2, 1, 1), Some("0.6666666666".to_string()));
    // jaccard(3,0) = 1 / (1 + 2 - 1) = 1/2.
    assert_eq!(sim_record(&out.similarities, 3, 0, 1), Some("0.5".to_string()));
    // jaccard(2,0) = 1 / (2 + 2 - 1) = 1/3.
    assert_eq!(sim_record(&out.similarities, 2, 0, 1), Some("0.3333333333".to_string()));
    assert_eq!(sim_record(&out.similarities, 1, 0, 1), Some("0.6666666666".to_string()));
    assert_eq!(sim_record(&out.similarities, 3, 1, 1), Some("0.3333333333".to_string()));
    assert_eq!(out.similarities.len(), 5);
}

#[test]
fn removal_batch_updates_counts_and_cooccurrences() {
    let mut e = Engine::new();
    e.handle_request(&add_request(first_batch())).unwrap();
    let out = e.handle_request(&remove_request(vec![(1, 1), (1, 2)])).unwrap();
    // Item 1 drops from 3 to 2, item 2 from 2 to 1.
    assert_eq!(count_record(&out.item_counts, 1, -1), Some(3));
    assert_eq!(count_record(&out.item_counts, 1, 1), Some(2));
    assert_eq!(count_record(&out.item_counts, 2, -1), Some(2));
    assert_eq!(count_record(&out.item_counts, 2, 1), Some(1));
    assert_eq!(out.item_counts.len(), 4);
    // Cooccurrence (2,1) is retracted by one: 2 leaves, 1 arrives.
    assert_eq!(cooc_record(&out.cooccurrences, 2, 1, -1), Some(2));
    assert_eq!(cooc_record(&out.cooccurrences, 2, 1, 1), Some(1));
    assert_eq!(out.cooccurrences.len(), 2);
    for r in out.item_counts.iter() {
        assert_eq!(record_time(r), 2);
    }
}

#[test]
fn removal_batch_recomputes_similarities_in_broadcast_order() {
    let mut e = Engine::new();
    e.handle_request(&add_request(first_batch())).unwrap();
    let out = e.handle_request(&remove_request(vec![(1, 1), (1, 2)])).unwrap();
    // jaccard(1,0) becomes 2 / (2 + 2 - 2) = 1.
    assert_eq!(sim_record(&out.similarities, 1, 0, 1), Some("1".to_string()));
    assert_eq!(sim_record(&out.similarities, 1, 0, -1), Some("0.6666666666".to_string()));
    // jaccard(2,1) becomes 1 / (2 + 1 - 1) = 1/2.
    assert_eq!(sim_record(&out.similarities, 2, 1, 1), Some("0.5".to_string()));
    // jaccard(3,0) stays 1/2: no diff is emitted for an unchanged value.
    assert_eq!(sim_record(&out.similarities, 3, 0, 1), None);
    assert_eq!(sim_record(&out.similarities, 3, 0, -1), None);
    // Removals are broadcast before additions.
    let mut seen_addition = false;
    for r in out.similarities.iter() {
        if record_change(r) >= 0 {
            seen_addition = true;
        } else {
            assert!(!seen_addition, "retraction after an addition");
        }
    }
}

#[test]
fn recommendation_picks_highest_accumulated_similarity() {
    let mut e = Engine::new();
    e.handle_request(&add_request(first_batch())).unwrap();
    e.handle_request(&remove_request(vec![(1, 1), (1, 2)])).unwrap();
    // History item 1 sees candidates 0 (similarity 1), 2 (1/2), 3 (1/2).
    let out = e.handle_query_change(Change::Add, &vec![(100, 1)]).unwrap();
    assert_eq!(rec_record(&out.recommendations, 100, 1), Some(0));
    assert_eq!(out.item_counts.len(), 0);
    assert_eq!(out.cooccurrences.len(), 0);
    assert_eq!(out.similarities.len(), 0);
}

#[test]
fn recommendation_tie_breaks_to_lowest_item() {
    let mut e = Engine::new();
    e.handle_request(&add_request(first_batch())).unwrap();
    e.handle_request(&remove_request(vec![(1, 1), (1, 2)])).unwrap();
    // History item 2 sees candidates 0 and 1, both at similarity 1/2:
    // the tie breaks toward the lowest item id.
    let out = e.handle_query_change(Change::Add, &vec![(200, 2)]).unwrap();
    assert_eq!(rec_record(&out.recommendations, 200, 1), Some(0));
}

#[test]
fn removed_query_retracts_its_recommendation() {
    let mut e = Engine::new();
    e.handle_request(&add_request(first_batch())).unwrap();
    e.handle_query_change(Change::Add, &vec![(100, 1)]).unwrap();
    let out = e.handle_query_change(Change::Remove, &vec![(100, 1)]).unwrap();
    assert!(rec_record(&out.recommendations, 100, -1).is_some());
    assert_eq!(rec_record(&out.recommendations, 100, 1), None);
}

#[test]
fn empty_batch_emits_no_diffs() {
    let mut e = Engine::new();
    e.handle_request(&add_request(first_batch())).unwrap();
    // A batch whose rows cancel to nothing changes no collection.
    let out = e.handle_request(&add_request(vec![])).unwrap();
    assert_eq!(out.item_counts.len(), 0);
    assert_eq!(out.cooccurrences.len(), 0);
    assert_eq!(out.similarities.len(), 0);
    assert_eq!(out.recommendations.len(), 0);
}

#[test]
fn removals_reclaim_capacity() {
    let mut e = Engine::new();
    assert_eq!(e.capacity_used(), 0);
    e.handle_request(&add_request(first_batch())).unwrap();
    assert_eq!(e.capacity_used(), 8);
    e.handle_request(&remove_request(vec![(1, 1), (1, 2)])).unwrap();
    // Retracting two interactions frees their weight again.
    assert_eq!(e.capacity_used(), 6);
    e.handle_query_change(Change::Add, &vec![(100, 1)]).unwrap();
    assert_eq!(e.query_capacity_used(), 1);
    e.handle_query_change(Change::Remove, &vec![(100, 1)]).unwrap();
    assert_eq!(e.query_capacity_used(), 0);
}

#[test]
fn degenerate_removal_is_rejected_without_commit() {
    let mut e = Engine::new();
    // Removing interactions never added drives counts negative while a
    // co-occurrence row exists: the degenerate division is refused.
    let r = e.handle_request(&remove_request(vec![(0, 1), (0, 2)]));
    assert_eq!(r.err(), Some(EngineError::DivisionDegenerate));
    // Nothing was committed: the next accepted batch is time 1 again.
    let out = e.handle_request(&add_request(vec![(0, 7)])).unwrap();
    for rec in out.item_counts.iter() {
        assert_eq!(record_time(rec), 1);
    }
    assert_eq!(count_record(&out.item_counts, 7, 1), Some(1));
}

#[test]
fn replay_is_deterministic() {
    let mut e1 = Engine::new();
    let mut e2 = Engine::new();
    for e in [&mut e1, &mut e2] {
        e.handle_request(&add_request(first_batch())).unwrap();
        e.handle_request(&remove_request(vec![(1, 1), (1, 2)])).unwrap();
        e.handle_query_change(Change::Add, &vec![(100, 1), (200, 2)]).unwrap();
    }
    let o1 = e1.handle_query_change(Change::Add, &vec![(300, 0)]).unwrap();
    let o2 = e2.handle_query_change(Change::Add, &vec![(300, 0)]).unwrap();
    assert_eq!(rec_record(&o1.recommendations, 300, 1), rec_record(&o2.recommendations, 300, 1));
    assert_eq!(o1.recommendations.len(), o2.recommendations.len());
}

#[test]
fn full_overlap_similarity_serializes_as_one() {
    let mut e = Engine::new();
    let out = e.handle_request(&add_request(vec![(0, 1), (0, 2)])).unwrap();
    // One user with both items: jaccard(2,1) = 1 / (1 + 1 - 1) = 1.
    assert_eq!(sim_record(&out.similarities, 2, 1, 1), Some("1".to_string()));
}

#[test]
fn query_stream_only_touches_recommendations() {
    let mut e = Engine::new();
    e.handle_request(&add_request(vec![(0, 1), (0, 2), (1, 1)])).unwrap();
    let out: StepDiffs = e.handle_query_change(Change::Add, &vec![(9, 2)]).unwrap();
    assert_eq!(out.item_counts.len(), 0);
    assert_eq!(out.cooccurrences.len(), 0);
    assert_eq!(out.similarities.len(), 0);
    assert_eq!(rec_record(&out.recommendations, 9, 1), Some(1));
}

#[test]
fn count_reaching_zero_is_retracted_not_errored() {
    let mut e = Engine::new();
    e.handle_request(&add_request(vec![(0, 5)])).unwrap();
    let out = e.handle_request(&remove_request(vec![(0, 5)])).unwrap();
    // The item's only interaction left: its count row is retracted and
    // no zero-count row replaces it.
    assert_eq!(count_record(&out.item_counts, 5, -1), Some(1));
    assert_eq!(count_record(&out.item_counts, 5, 1), None);
    assert_eq!(out.item_counts.len(), 1);
    assert_eq!(out.cooccurrences.len(), 0);
    assert_eq!(out.similarities.len(), 0);
}

#[test]
fn removing_one_side_retracts_the_pair_entirely() {
    let mut e = Engine::new();
    e.handle_request(&add_request(vec![(0, 1), (0, 2)])).unwrap();
    let out = e.handle_request(&remove_request(vec![(0, 2)])).unwrap();
    // The pair's only co-occurrence is gone: its row is retracted and
    // nothing replaces it.
    assert_eq!(cooc_record(&out.cooccurrences, 2, 1, -1), Some(1));
    assert_eq!(cooc_record(&out.cooccurrences, 2, 1, 1), None);
    assert_eq!(out.cooccurrences.len(), 1);
    assert_eq!(sim_record(&out.similarities, 2, 1, -1), Some("1".to_string()));
    assert_eq!(out.similarities.len(), 1);
}
