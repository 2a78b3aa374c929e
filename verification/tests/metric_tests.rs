//! Ordering and metric behavior on concrete ranked lists.

use fastrank::evaluators::{
    AveragePrecision, NDCG, QueryGroup, RankedInstance, ReciprocalRank, sort_ranked_list,
};
use fastrank::qrel::{ParsedGain, build_judgments};
use std::cmp::Ordering;

/// Order key of a non-NaN score: monotone in the real value, the two zeros
/// identified.
fn score_key(s: f64) -> u64 {
    assert!(!s.is_nan());
    let s = if s == 0.0 { 0.0 } else { s };
    let b = s.to_bits();
    if b & 0x8000_0000_0000_0000 != 0 {
        !b
    } else {
        b | 0x8000_0000_0000_0000
    }
}

/// Order key of a non-NaN gain: monotone in the real value, the two zeros
/// identified.
fn gain_key(g: f32) -> u32 {
    assert!(!g.is_nan());
    let g = if g == 0.0 { 0.0 } else { g };
    let b = g.to_bits();
    if b & 0x8000_0000 != 0 {
        !b
    } else {
        b | 0x8000_0000
    }
}

/// The real gain a key encodes.
fn gain_from_key(k: u32) -> f32 {
    if k & 0x8000_0000 != 0 {
        f32::from_bits(k & 0x7FFF_FFFF)
    } else {
        f32::from_bits(!k)
    }
}

/// The discounted cumulative gain of a gain-key vector at a depth.
fn dcg(gains: &[u32], depth: usize) -> f64 {
    let mut sum = 0.0;
    for (i, k) in gains.iter().enumerate().take(depth) {
        let g = gain_from_key(*k) as f64;
        sum += (2.0f64.powf(g) - 1.0) / ((i as f64) + 2.0).log2();
    }
    sum
}

fn ri(score: f64, gain: f32, id: u32) -> RankedInstance {
    RankedInstance::new(score_key(score), gain_key(gain), id)
}

#[test]
fn gain_key_is_monotone() {
    let values = [-2.5f32, -0.0, 0.0, 0.5, 1.0, 3.25, 100.0];
    for w in values.windows(2) {
        assert!(gain_key(w[0]) <= gain_key(w[1]));
    }
    assert_eq!(gain_key(0.0), fastrank::GAIN_ZERO_KEY);
    assert_eq!(gain_from_key(gain_key(3.25)), 3.25);
    assert_eq!(gain_from_key(gain_key(-2.5)), -2.5);
}

#[test]
fn the_two_zeros_share_one_key() {
    // Equal as values, so they must tie rather than order each other.
    assert_eq!(gain_key(-0.0), gain_key(0.0));
    assert_eq!(score_key(-0.0), score_key(0.0));
}

#[test]
fn ordering_example_sorts_to_pessimistic_tie_break() {
    let list = vec![ri(3.0, 1.0, 10), ri(3.0, 0.0, 11), ri(1.0, 0.0, 12)];
    let sorted = sort_ranked_list(&list);
    let ids: Vec<u32> = sorted.iter().map(|r| r.identifier).collect();
    assert_eq!(ids, vec![11, 10, 12]);
}

#[test]
fn natural_order_compares_score_desc_gain_asc_id_asc() {
    let a = ri(3.0, 1.0, 10);
    let b = ri(3.0, 0.0, 11);
    let c = ri(1.0, 0.0, 12);
    assert!(b.le(&a));
    assert!(!a.le(&b));
    assert!(a.le(&c));
    assert!(a.le(&a));
}

#[test]
fn three_way_comparison_matches_the_order() {
    let a = ri(3.0, 1.0, 10);
    let b = ri(3.0, 0.0, 11);
    assert_eq!(b.cmp(&a), Ordering::Less);
    assert_eq!(a.cmp(&b), Ordering::Greater);
    assert_eq!(a.cmp(&a), Ordering::Equal);
    assert_eq!(ri(2.0, 0.0, 1).cmp(&ri(1.0, 0.0, 1)), Ordering::Less);
    assert_eq!(ri(1.0, 0.0, 1).cmp(&ri(1.0, 0.0, 2)), Ordering::Less);
}

#[test]
fn is_relevant_means_positive_gain() {
    assert!(ri(1.0, 0.5, 1).is_relevant());
    assert!(!ri(1.0, 0.0, 1).is_relevant());
    assert!(!ri(1.0, -1.0, 1).is_relevant());
}

#[test]
fn reciprocal_rank_third_position() {
    let rr = ReciprocalRank;
    let list = vec![ri(3.0, 0.0, 1), ri(2.0, 0.0, 2), ri(1.0, 2.0, 3)];
    let rank = rr.score("q", &list);
    assert_eq!(rank, Some(3));
    let score = 1.0 / (rank.unwrap() as f64);
    assert!((score - 1.0 / 3.0).abs() < 1e-12);
}

#[test]
fn reciprocal_rank_nothing_relevant_is_zero() {
    let rr = ReciprocalRank;
    let list = vec![ri(3.0, 0.0, 1), ri(2.0, 0.0, 2)];
    assert_eq!(rr.score("q", &list), None);
    assert_eq!(rr.name(), "RR");
}

#[test]
fn average_precision_two_of_three_relevant() {
    let groups = vec![QueryGroup {
        qid: String::from("q1"),
        gains: vec![gain_key(1.0), gain_key(0.0), gain_key(1.0)],
    }];
    let ap = AveragePrecision::new(&groups, None);
    let list = vec![ri(3.0, 1.0, 1), ri(2.0, 0.0, 2), ri(1.0, 1.0, 3)];
    let parts = ap.score("q1", &list);
    assert_eq!(parts.num_relevant, 2);
    assert_eq!(parts.relevant_ranks, vec![1, 3]);
    let mut sum = 0.0;
    for (j, rank) in parts.relevant_ranks.iter().enumerate() {
        sum += ((j + 1) as f64) / (*rank as f64);
    }
    let score = sum / (parts.num_relevant as f64);
    assert!((score - (1.0 + 2.0 / 3.0) / 2.0).abs() < 1e-12);
    assert!((score - 0.8333333333333333).abs() < 1e-10);
    assert_eq!(ap.name(), "AP");
}

#[test]
fn average_precision_no_relevant_is_zero() {
    let groups = vec![QueryGroup { qid: String::from("q1"), gains: vec![gain_key(0.0)] }];
    let ap = AveragePrecision::new(&groups, None);
    let list = vec![ri(3.0, 0.0, 1)];
    let parts = ap.score("q1", &list);
    assert_eq!(parts.num_relevant, 0);
}

#[test]
fn average_precision_judged_zero_relevant_scores_zero() {
    // The file judges q1 and finds nothing relevant; the dataset rows and
    // the ranked list disagree. The external judgment count — zero — wins,
    // and the score is zero.
    let rows = vec![
        (String::from("q1"), String::from("d1"), ParsedGain::Value(gain_key(0.0))),
        (String::from("q1"), String::from("d2"), ParsedGain::Value(gain_key(0.0))),
    ];
    let judgments = build_judgments("qrels.txt", &rows).unwrap();
    let groups = vec![QueryGroup {
        qid: String::from("q1"),
        gains: vec![gain_key(1.0), gain_key(1.0)],
    }];
    let ap = AveragePrecision::new(&groups, Some(&judgments));
    let list = vec![ri(3.0, 1.0, 1), ri(2.0, 1.0, 2)];
    let parts = ap.score("q1", &list);
    assert_eq!(parts.num_relevant, 0);
}

#[test]
fn average_precision_takes_counts_from_judgments() {
    let rows = vec![
        (String::from("q1"), String::from("d1"), ParsedGain::Value(gain_key(1.0))),
        (String::from("q1"), String::from("d2"), ParsedGain::Value(gain_key(1.0))),
        (String::from("q1"), String::from("d3"), ParsedGain::Value(gain_key(0.0))),
    ];
    let judgments = build_judgments("qrels.txt", &rows).unwrap();
    let groups = vec![QueryGroup { qid: String::from("q1"), gains: vec![gain_key(1.0)] }];
    let ap = AveragePrecision::new(&groups, Some(&judgments));
    let list = vec![ri(3.0, 1.0, 1)];
    let parts = ap.score("q1", &list);
    assert_eq!(parts.num_relevant, 2);
}

#[test]
fn ndcg_perfect_ranking_scores_exactly_one() {
    let groups = vec![QueryGroup {
        qid: String::from("q1"),
        gains: vec![gain_key(2.0), gain_key(1.0), gain_key(0.0)],
    }];
    let ndcg = NDCG::new(3, &groups, None);
    assert_eq!(ndcg.depth(), 3);
    // Ranked so that the positive gains appear in ideal descending order.
    let list = vec![ri(3.0, 2.0, 1), ri(2.0, 1.0, 2), ri(1.0, 0.0, 3)];
    let parts = ndcg.score("q1", &list).unwrap();
    assert_eq!(parts.actual_gains, parts.ideal_gains);
    let score = dcg(&parts.actual_gains, 3) / dcg(&parts.ideal_gains, 3);
    assert_eq!(score, 1.0);
    assert_eq!(ndcg.name(), "NDCG");
}

#[test]
fn ndcg_imperfect_ranking_scores_below_one() {
    let groups = vec![QueryGroup {
        qid: String::from("q1"),
        gains: vec![gain_key(2.0), gain_key(1.0), gain_key(0.0)],
    }];
    let ndcg = NDCG::new(3, &groups, None);
    // The lower-gain document is ranked first.
    let list = vec![ri(3.0, 1.0, 2), ri(2.0, 2.0, 1), ri(1.0, 0.0, 3)];
    let parts = ndcg.score("q1", &list).unwrap();
    let score = dcg(&parts.actual_gains, 3) / dcg(&parts.ideal_gains, 3);
    assert!(score < 1.0);
    assert!(score > 0.0);
}

#[test]
fn ndcg_no_positive_gain_query_scores_zero_without_dividing() {
    let groups = vec![QueryGroup {
        qid: String::from("q1"),
        gains: vec![gain_key(0.0), gain_key(0.0)],
    }];
    let ndcg = NDCG::new(10, &groups, None);
    let list = vec![ri(3.0, 0.0, 1), ri(2.0, 0.0, 2)];
    assert!(ndcg.score("q1", &list).is_none());
}

#[test]
fn ndcg_unseen_query_gets_ad_hoc_normalizer() {
    let groups: Vec<QueryGroup> = Vec::new();
    let ndcg = NDCG::new(3, &groups, None);
    let list = vec![ri(3.0, 1.0, 1), ri(2.0, 2.0, 2)];
    let parts = ndcg.score("q9", &list).unwrap();
    assert_eq!(parts.actual_gains, vec![gain_key(1.0), gain_key(2.0)]);
    assert_eq!(parts.ideal_gains, vec![gain_key(2.0), gain_key(1.0)]);
    // And an unseen query with nothing relevant has no normalizer at all.
    let empty = vec![ri(3.0, 0.0, 1)];
    assert!(ndcg.score("q9", &empty).is_none());
}

#[test]
fn ndcg_ideal_comes_from_judgments_when_supplied() {
    let rows = vec![
        (String::from("q1"), String::from("d1"), ParsedGain::Value(gain_key(3.0))),
        (String::from("q1"), String::from("d2"), ParsedGain::Value(gain_key(1.0))),
    ];
    let judgments = build_judgments("qrels.txt", &rows).unwrap();
    // The dataset rows alone would give an ideal vector of one gain.
    let groups = vec![QueryGroup { qid: String::from("q1"), gains: vec![gain_key(1.0)] }];
    let ndcg = NDCG::new(2, &groups, Some(&judgments));
    let list = vec![ri(3.0, 1.0, 1)];
    let parts = ndcg.score("q1", &list).unwrap();
    assert_eq!(parts.ideal_gains, vec![gain_key(3.0), gain_key(1.0)]);
    assert_eq!(parts.actual_gains, vec![gain_key(1.0)]);
}
