use std::collections::HashMap;
use std::hash::Hasher;

use vmisknn::config::{
    LogicConfig,
    ModelConfig,
    DEFAULT_MAX_ITEMS_IN_SESSION,
    DEFAULT_MOST_RECENT_SESSIONS_M,
    DEFAULT_NEIGHBORHOOD_SIZE_K,
    DEFAULT_NUM_ITEMS_TO_RECOMMEND,
};
use vmisknn::engine::{update_recommendations, vmis, Engine};
use vmisknn::idf::{idf_weight, IDF_SCALE};
use vmisknn::index::VMISkNN;
use vmisknn::ingest::{
    fnv1a_u32, hash_partition, read_evolving_sessions, read_historical_sessions,
    read_historical_sessions_partitioned,
};
use vmisknn::scoring::{
    distinct_item_count, first_match_position, linear_score, passes_business_rules, predict,
    predict_filtered,
};
use vmisknn::types::{ItemScore, Order, ProductAttributes, Score, SessionScore, SessionTime};

fn toy_corpus() -> Vec<(u32, u64, u32)> {
    vec![
        (0, 1, 1),
        (0, 2, 1),
        (0, 3, 1),
        (0, 4, 1),
        (0, 5, 1),
        (1, 2, 1),
        (2, 3, 1),
        (2, 5, 1),
        (3, 2, 1),
        (3, 3, 1),
        (3, 5, 1),
    ]
}

#[test]
fn test_toy_example() {
    let historical_sessions = toy_corpus();

    let k = 2;
    let m = 500;

    let vmis = VMISkNN::new(k, m, historical_sessions);

    let evolving_session = vec![2, 3, 1];

    // Similarities (numerators over the distinct-item count 3):
    //   session 0: 1 + 2/3 + 1/3 = 2      -> 6/3
    //   session 3: 2/3 + 1/3     = 1      -> 3/3
    let neighbors = vmis.find_neighbors(&evolving_session, k, m);

    assert_eq!(2, neighbors.len());
    assert!(neighbors
        .iter()
        .find(|n| n.id == 0 && n.score.num == 6 && n.score.den == 3)
        .is_some());
    assert!(neighbors
        .iter()
        .find(|n| n.id == 3 && n.score.num == 3 && n.score.den == 3)
        .is_some());

    let recos = vmis.predict(&evolving_session);

    // idf uses 4 total historical sessions; scores are exact numerators
    // over 10 * 3 * IDF_SCALE.
    let expected_4 = (idf_weight(4, 1) as i128) * (9 * 6);
    let expected_5 = (idf_weight(4, 3) as i128) * (9 * 6 + 8 * 3);

    println!("{}", expected_4);
    println!("{}", expected_5);

    println!("Found {} recommended items", recos.len());

    for scored_item in recos.iter() {
        println!("\tItem {} with score {}", scored_item.id, scored_item.score.num);
    }

    assert_eq!(4, recos.len());
    let den = 10 * 3 * IDF_SCALE;
    assert!(recos
        .iter()
        .find(|i| i.id == 4 && i.score.num == expected_4 && i.score.den == den)
        .is_some());
    assert!(recos
        .iter()
        .find(|i| i.id == 5 && i.score.num == expected_5 && i.score.den == den)
        .is_some());

    let evolving_session_two = vec![2, 3, 1, 4];

    let recos = vmis.predict(&evolving_session_two);

    for scored_item in recos.iter() {
        println!("\tItem {} with score {}", scored_item.id, scored_item.score.num);
    }
}

#[test]
fn worked_example_self_exclusion_and_ranking() {
    let vmis = VMISkNN::new(2, 500, toy_corpus());
    let recos = vmis.predict(&vec![2, 3, 1]);
    // The most recent item (1) never appears in its own recommendations.
    assert!(recos.iter().all(|i| i.id != 1));
    // The output is ranked best first with ties broken by item id.
    for w in recos.windows(2) {
        assert!(w[0].score.num > w[1].score.num
            || (w[0].score.num == w[1].score.num && w[0].id < w[1].id));
    }
}

#[test]
fn predict_is_deterministic() {
    let vmis = VMISkNN::new(2, 500, toy_corpus());
    let session = vec![2, 3, 1];
    let a = predict(&vmis, &session, 2, 500, 20);
    let b = predict(&vmis, &session, 2, 500, 20);
    assert_eq!(a, b);
}

#[test]
fn bounds_are_respected() {
    let vmis = VMISkNN::new(1, 500, toy_corpus());
    let session = vec![2, 3, 1];
    let neighbors = vmis.find_neighbors(&session, 1, 500);
    assert!(neighbors.len() <= 1);
    let recos = predict(&vmis, &session, 2, 500, 2);
    assert!(recos.len() <= 2);
}

#[test]
fn candidate_lists_keep_the_m_most_recent_sessions() {
    // Item 2 occurs in three sessions with different max orders.
    let rows = vec![(0, 2, 10), (1, 2, 30), (3, 2, 20)];
    let vmis = VMISkNN::new(1, 1, rows);
    let list = vmis.item_sessions.get(&2).unwrap();
    assert_eq!(list.as_slice(), &[1]);

    let vmis2 = VMISkNN::new(1, 2, vec![(0, 2, 10), (1, 2, 30), (3, 2, 20)]);
    let list2 = vmis2.item_sessions.get(&2).unwrap();
    assert_eq!(list2.as_slice(), &[1, 3]);
}

#[test]
fn tie_break_prefers_larger_timestamp() {
    // Two historical sessions hold the same single item, so their
    // similarities are equal; the more recent one must win the only slot.
    let rows = vec![(10, 7, 100), (11, 7, 200)];
    let vmis = VMISkNN::new(1, 500, rows);
    let neighbors = vmis.find_neighbors(&vec![7], 1, 500);
    assert_eq!(1, neighbors.len());
    assert_eq!(11, neighbors[0].id);
}

#[test]
fn unknown_items_yield_an_empty_result() {
    let vmis = VMISkNN::new(2, 500, toy_corpus());
    let neighbors = vmis.find_neighbors(&vec![999], 2, 500);
    assert!(neighbors.is_empty());
    let recos = predict(&vmis, &vec![999], 2, 500, 20);
    assert!(recos.is_empty());
}

#[test]
fn batch_and_incremental_agree_on_every_prefix() {
    let corpus = toy_corpus();
    let index = VMISkNN::new(2, 500, corpus.clone());
    let mut engine = Engine::new(2, 500, 20, corpus);
    let mut live: HashMap<u32, HashMap<u64, Score>> = HashMap::new();
    let session = vec![2u64, 3, 1, 4];
    let mut prefix: Vec<u64> = Vec::new();
    for (i, &item) in session.iter().enumerate() {
        let (step, retractions, insertions) = engine.append(77, item);
        assert_eq!(step, (i + 1) as u32);
        update_recommendations(&mut live, 77, &retractions, &insertions);
        prefix.push(item);
        let oneshot = predict(&index, &prefix, 2, 500, 20);
        let inner = live.get(&77).unwrap();
        assert_eq!(inner.len(), oneshot.len());
        for fact in &oneshot {
            assert_eq!(inner.get(&fact.id), Some(&fact.score));
        }
    }
}

#[test]
fn no_fact_is_inserted_twice_without_a_retraction() {
    let mut engine = Engine::new(2, 500, 20, toy_corpus());
    let mut live: HashMap<u64, Score> = HashMap::new();
    for &item in &[2u64, 3, 1, 4, 5] {
        let (_step, retractions, insertions) = engine.append(5, item);
        for fact in &retractions {
            // every retracted fact is currently present, exactly as stated
            assert_eq!(live.get(&fact.id), Some(&fact.score));
            live.remove(&fact.id);
        }
        for fact in &insertions {
            // an inserted fact is never already present
            assert_ne!(live.get(&fact.id), Some(&fact.score));
            live.insert(fact.id, fact.score);
        }
    }
}

#[test]
fn appends_do_not_touch_other_sessions() {
    let mut engine = Engine::new(2, 500, 20, toy_corpus());
    engine.append(1, 2);
    engine.append(1, 3);
    let before = engine.recs.get(&1).unwrap().clone();
    engine.append(9, 5);
    assert_eq!(engine.recs.get(&1).unwrap(), &before);
}

#[test]
fn idf_weight_tracks_the_natural_logarithm() {
    for &(total, with_item) in &[(4u64, 1u64), (4, 3), (100, 7), (1000000, 12345), (2, 2)] {
        let w = idf_weight(total, with_item);
        let exact = (total as f64 / with_item as f64).ln();
        let approx = w as f64 / IDF_SCALE as f64;
        assert!((exact - approx).abs() < 1e-4, "{} vs {}", exact, approx);
    }
}

#[test]
fn linear_score_matches_the_formula() {
    assert_eq!(linear_score(1), Score { num: 9, den: 10 });
    assert_eq!(linear_score(2), Score { num: 8, den: 10 });
    assert_eq!(linear_score(15), Score { num: -5, den: 10 });
    assert_eq!(linear_score(99), Score { num: -89, den: 10 });
    assert_eq!(linear_score(100), Score { num: 0, den: 10 });
    assert_eq!(linear_score(250), Score { num: 0, den: 10 });
}

#[test]
fn first_match_position_scans_from_the_end() {
    assert_eq!(first_match_position(&vec![2, 3, 1], &vec![1, 9]), 1);
    assert_eq!(first_match_position(&vec![2, 3, 1], &vec![2, 3, 5]), 2);
    assert_eq!(first_match_position(&vec![2, 3, 1], &vec![2]), 3);
}

#[test]
fn distinct_item_count_ignores_duplicates() {
    assert_eq!(distinct_item_count(&vec![2, 2, 3]), 2);
    assert_eq!(distinct_item_count(&vec![7]), 1);
    assert_eq!(distinct_item_count(&vec![1, 2, 1, 2, 1]), 2);
}

#[test]
fn duplicate_items_count_only_their_most_recent_occurrence() {
    // Session [3, 2, 3]: the most recent occurrence of 3 (position 0 from
    // the end) is authoritative; the older occurrence is ignored, so the
    // similarity to a session containing 3 is (3 - 0)/2, not the sum.
    let rows = vec![(0, 3, 1)];
    let vmis = VMISkNN::new(1, 500, rows);
    let neighbors = vmis.find_neighbors(&vec![3, 2, 3], 1, 500);
    assert_eq!(1, neighbors.len());
    assert_eq!(neighbors[0].score, Score { num: 3, den: 2 });
}

#[test]
fn business_rules_truth_table() {
    let for_sale = ProductAttributes { is_adult: false, is_for_sale: true };
    let adult = ProductAttributes { is_adult: true, is_for_sale: true };
    let not_for_sale = ProductAttributes { is_adult: false, is_for_sale: false };
    assert!(!passes_business_rules(None, None));
    assert!(passes_business_rules(None, Some(&for_sale)));
    assert!(!passes_business_rules(None, Some(&not_for_sale)));
    assert!(!passes_business_rules(None, Some(&adult)));
    assert!(passes_business_rules(Some(&adult), Some(&adult)));
    assert!(!passes_business_rules(Some(&for_sale), Some(&adult)));
}

#[test]
fn filtered_prediction_applies_business_rules_before_selection() {
    let vmis = VMISkNN::new(2, 500, toy_corpus()).with_attributes(vec![
        (4, ProductAttributes { is_adult: false, is_for_sale: true }),
        (5, ProductAttributes { is_adult: false, is_for_sale: false }),
    ]);
    let recos = predict_filtered(&vmis, &vec![2, 3, 1], 2, 500, 20);
    // 5 is not for sale, 2 and 3 lack attribute data: only 4 survives.
    assert_eq!(1, recos.len());
    assert_eq!(4, recos[0].id);

    let unfiltered = predict(&vmis, &vec![2, 3, 1], 2, 500, 20);
    assert_eq!(4, unfiltered.len());
}

#[test]
fn find_attributes_reports_the_catalog() {
    let attrs = ProductAttributes { is_adult: true, is_for_sale: true };
    let vmis = VMISkNN::new(1, 1, vec![(0, 1, 1)]).with_attributes(vec![(1, attrs)]);
    assert_eq!(vmis.find_attributes(&1), Some(&attrs));
    assert_eq!(vmis.find_attributes(&2), None);
}

#[test]
fn index_getters_expose_sessions_and_idf() {
    let vmis = VMISkNN::new(2, 500, toy_corpus());
    assert_eq!(vmis.items_for_session(&0).as_slice(), &[1, 2, 3, 4, 5]);
    assert_eq!(vmis.items_for_session(&2).as_slice(), &[3, 5]);
    assert_eq!(vmis.idf(&4), idf_weight(4, 1));
    assert_eq!(vmis.idf(&5), idf_weight(4, 3));
    assert_eq!(vmis.total_sessions, 4);
}

#[test]
fn session_length_cutoff_excludes_long_sessions() {
    // Session 0 has five distinct items, the others at most three.
    let vmis = VMISkNN::new(2, 500, toy_corpus());
    assert_eq!(vmis.total_sessions, 4);
    let cut = VMISkNN::new_with_cutoff(2, 500, 3, toy_corpus());
    assert_eq!(cut.total_sessions, 3);
    assert!(cut.session_items.get(&0).is_none());
    // Item 4 occurred only in the excluded session.
    assert!(cut.item_sessions.get(&4).is_none());
}

#[test]
fn fnv_hash_matches_the_reference_implementation() {
    for &x in &[0u32, 1, 42, 123456, u32::MAX] {
        let mut hasher = fnv::FnvHasher::default();
        hasher.write_u32(x);
        assert_eq!(hasher.finish(), fnv1a_u32(x));
    }
}

#[test]
fn hash_partition_is_stable_and_in_range() {
    for &x in &[0u32, 7, 99, 12345] {
        let p = hash_partition(&x, 4);
        assert!(p < 4);
        assert_eq!(p, hash_partition(&x, 4));
        assert_eq!(0, hash_partition(&x, 1));
    }
}

#[test]
fn historical_rows_are_partitioned_without_loss() {
    let rows = vec![(0u32, 1u64, 1u32), (1, 2, 1), (2, 3, 1), (3, 4, 1), (0, 5, 2)];
    let all = read_historical_sessions(&rows);
    assert_eq!(all, rows);
    let p0 = read_historical_sessions_partitioned(&rows, 0, 2);
    let p1 = read_historical_sessions_partitioned(&rows, 1, 2);
    assert_eq!(p0.len() + p1.len(), rows.len());
    for row in &p0 {
        assert_eq!(hash_partition(&row.0, 2), 0);
    }
    for row in &p1 {
        assert_eq!(hash_partition(&row.0, 2), 1);
    }
}

#[test]
fn evolving_rows_are_grouped_and_ordered() {
    let rows = vec![
        (5u32, 30u64, 3u32),
        (5, 10, 1),
        (6, 70, 1),
        (5, 20, 2),
        (6, 80, 1),
    ];
    let sessions = read_evolving_sessions(&rows);
    assert_eq!(sessions.len(), 2);
    assert_eq!(sessions.get(&5).unwrap().as_slice(), &[10, 20, 30]);
    // equal orders keep input order
    assert_eq!(sessions.get(&6).unwrap().as_slice(), &[70, 80]);
}

#[test]
fn config_defaults_match_the_model() {
    let model = ModelConfig::default();
    assert_eq!(model.m_most_recent_sessions, DEFAULT_MOST_RECENT_SESSIONS_M);
    assert_eq!(model.neighborhood_size_k, DEFAULT_NEIGHBORHOOD_SIZE_K);
    assert_eq!(model.num_items_to_recommend, DEFAULT_NUM_ITEMS_TO_RECOMMEND);
    assert_eq!(model.max_items_in_session, DEFAULT_MAX_ITEMS_IN_SESSION);
    assert_eq!(DEFAULT_MOST_RECENT_SESSIONS_M, 500);
    assert_eq!(DEFAULT_NEIGHBORHOOD_SIZE_K, 500);
    assert_eq!(DEFAULT_NUM_ITEMS_TO_RECOMMEND, 21);
    let logic = LogicConfig::default();
    assert!(!logic.enable_business_logic);
}

#[test]
fn plain_constructors_keep_their_fields() {
    let st = SessionTime::new(3, 99);
    assert_eq!(st.session_id, 3);
    assert_eq!(st.time, 99);
    let o = Order::new(17);
    assert_eq!(o.value, 17);
    let sc = Score::new(-3, 30);
    assert_eq!((sc.num, sc.den), (-3, 30));
    let ss = SessionScore::new(8, sc);
    assert_eq!(ss.id, 8);
    assert_eq!(ss.score, sc);
    let is = ItemScore::new(99, sc);
    assert_eq!(is.id, 99);
    assert_eq!(is.score, sc);
}

#[test]
fn full_working_set_evicts_the_least_recent_session() {
    // Session 10 (time 100) holds item 8; session 11 (time 200) holds
    // item 7.  With a working set of one, item 8 is processed first
    // (reverse order), tracking session 10; the more recent candidate 11
    // then evicts it.
    let rows = vec![(10, 8, 100), (11, 7, 200)];
    let index = VMISkNN::new(2, 500, rows);
    let neighbors = index.find_neighbors(&vec![7, 8], 2, 1);
    assert_eq!(1, neighbors.len());
    assert_eq!(11, neighbors[0].id);
    assert_eq!(neighbors[0].score, Score { num: 1, den: 2 });
}

#[test]
fn full_working_set_skips_older_candidates() {
    // The tracked session is more recent than the next candidate, so the
    // candidate is skipped and the accumulated similarity stays.
    let rows = vec![(10, 8, 200), (11, 7, 100)];
    let index = VMISkNN::new(2, 500, rows);
    let neighbors = index.find_neighbors(&vec![7, 8], 2, 1);
    assert_eq!(1, neighbors.len());
    assert_eq!(10, neighbors[0].id);
    assert_eq!(neighbors[0].score, Score { num: 2, den: 2 });
}

#[test]
fn vmis_builds_a_fresh_engine() {
    let mut engine = vmis(2, 500, 20, toy_corpus());
    assert_eq!(engine.step, 0);
    let (step, retractions, insertions) = engine.append(1, 2);
    assert_eq!(step, 1);
    assert!(retractions.is_empty());
    assert!(!insertions.is_empty());
}
