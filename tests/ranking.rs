use reviewer_pick::ranking::{calculate_scores, choose_reviewer, eligible_candidates, ReviewerScore};
use reviewer_pick::score::{compute_score, Weights, SCORE_UNIT};
use reviewer_pick::workload::{changed_lines, review_authors_or_none, PullRequestSnapshot, ReviewerWorkload, WorkloadTable};

fn names(list: &[&str]) -> Vec<String> {
    list.iter().map(|s| s.to_string()).collect()
}

fn weights(open: u64, lines: u64, recent: u64) -> Weights {
    Weights { open_prs: open * 1_000_000, lines_per_100: lines * 1_000_000, recent_reviews: recent * 1_000_000 }
}

fn ranked_names(scores: &[ReviewerScore]) -> Vec<String> {
    scores.iter().map(|s| s.username.clone()).collect()
}

fn load(open: u64, lines: u64) -> Option<ReviewerWorkload> {
    Some(ReviewerWorkload { open_prs_count: open, total_lines_in_review: lines })
}

#[test]
fn single_pr_scenario_workloads_scores_and_order() {
    let roster = names(&["A", "B", "C"]);
    let mut table = WorkloadTable::new(&roster);
    table.record_pull_request(&PullRequestSnapshot {
        additions: Some(30),
        deletions: Some(10),
        requested_reviewers: names(&["A"]),
        review_authors: names(&["B"]),
    });
    assert_eq!(table.get(&"A".to_string()), load(1, 40));
    assert_eq!(table.get(&"B".to_string()), load(1, 40));
    assert_eq!(table.get(&"C".to_string()), load(0, 0));

    let candidates = eligible_candidates(&roster, &"D".to_string());
    assert_eq!(candidates, roster);
    let scores = calculate_scores(&table, &candidates, &vec![0, 0, 0], &weights(10, 1, 0));
    assert_eq!(ranked_names(&scores), names(&["C", "A", "B"]));
    assert_eq!(scores[0].total_score, 0);
    // 10.4 points each
    assert_eq!(scores[1].total_score, 1_040_000_000);
    assert_eq!(scores[2].total_score, 1_040_000_000);
    assert_eq!(scores[1].total_score as f64 / SCORE_UNIT as f64, 10.4);
    assert_eq!(choose_reviewer(&scores), Some("C".to_string()));
}

#[test]
fn author_in_roster_is_never_ranked() {
    let roster = names(&["A", "B", "C"]);
    let table = WorkloadTable::new(&roster);
    assert_eq!(table.get(&"A".to_string()), load(0, 0));
    let candidates = eligible_candidates(&roster, &"A".to_string());
    assert_eq!(candidates, names(&["B", "C"]));
    let scores = calculate_scores(&table, &candidates, &vec![5, 0], &weights(10, 1, 3));
    assert!(scores.iter().all(|s| s.username != "A"));
    assert_eq!(ranked_names(&scores), names(&["C", "B"]));
}

#[test]
fn no_open_prs_scores_on_recent_reviews_only() {
    let roster = names(&["A", "B", "C"]);
    let table = WorkloadTable::new(&roster);
    let candidates = eligible_candidates(&roster, &"X".to_string());
    let scores = calculate_scores(&table, &candidates, &vec![2, 0, 1], &weights(10, 1, 3));
    assert_eq!(ranked_names(&scores), names(&["B", "C", "A"]));
    assert_eq!(scores[0].total_score, 0);
    assert_eq!(scores[1].total_score, 3 * SCORE_UNIT);
    assert_eq!(scores[2].total_score, 6 * SCORE_UNIT);

    let flat = calculate_scores(&table, &candidates, &vec![2, 0, 1], &weights(10, 1, 0));
    assert!(flat.iter().all(|s| s.total_score == 0));
    assert_eq!(ranked_names(&flat), roster);
}

#[test]
fn roster_of_only_the_author_has_no_eligible_reviewer() {
    let roster = names(&["author"]);
    let table = WorkloadTable::new(&roster);
    let candidates = eligible_candidates(&roster, &"author".to_string());
    assert!(candidates.is_empty());
    let scores = calculate_scores(&table, &candidates, &vec![], &weights(10, 1, 3));
    assert!(scores.is_empty());
    assert_eq!(choose_reviewer(&scores), None);
}

#[test]
fn requested_and_reviewed_counts_once() {
    let roster = names(&["A", "B"]);
    let mut table = WorkloadTable::new(&roster);
    table.record_pull_request(&PullRequestSnapshot {
        additions: Some(5),
        deletions: Some(7),
        requested_reviewers: names(&["A", "A"]),
        review_authors: names(&["A", "Z"]),
    });
    assert_eq!(table.get(&"A".to_string()), load(1, 12));
    assert_eq!(table.get(&"B".to_string()), load(0, 0));
    assert_eq!(table.get(&"Z".to_string()), None);
}

#[test]
fn pr_without_reviewers_counts_for_nobody() {
    let roster = names(&["A"]);
    let mut table = WorkloadTable::new(&roster);
    table.record_pull_request(&PullRequestSnapshot {
        additions: Some(100),
        deletions: None,
        requested_reviewers: vec![],
        review_authors: vec![],
    });
    assert_eq!(table.get(&"A".to_string()), load(0, 0));
}

#[test]
fn loads_accumulate_over_pull_requests() {
    let roster = names(&["A", "B", "A"]);
    let mut table = WorkloadTable::new(&roster);
    for (add, del) in [(Some(10), Some(5)), (None, Some(20))] {
        table.record_pull_request(&PullRequestSnapshot {
            additions: add,
            deletions: del,
            requested_reviewers: names(&["A"]),
            review_authors: vec![],
        });
    }
    assert_eq!(table.get(&"A".to_string()), load(2, 35));
}

#[test]
fn equal_scores_keep_roster_order() {
    let roster = names(&["D", "B", "C", "A"]);
    let table = WorkloadTable::new(&roster);
    let scores = calculate_scores(&table, &roster, &vec![1, 1, 0, 1], &weights(1, 1, 1));
    assert_eq!(ranked_names(&scores), names(&["C", "D", "B", "A"]));
}

#[test]
fn duplicate_roster_members_share_one_row_and_rank_twice() {
    let roster = names(&["A", "B", "A"]);
    let mut table = WorkloadTable::new(&roster);
    table.record_pull_request(&PullRequestSnapshot {
        additions: Some(1),
        deletions: Some(1),
        requested_reviewers: names(&["A"]),
        review_authors: vec![],
    });
    let candidates = eligible_candidates(&roster, &"B".to_string());
    assert_eq!(candidates, names(&["A", "A"]));
    let scores = calculate_scores(&table, &candidates, &vec![0, 0], &weights(10, 1, 3));
    assert_eq!(scores.len(), 2);
    assert!(scores.iter().all(|s| s.open_prs_count == 1 && s.total_lines_in_review == 2));
}

#[test]
fn score_formula_exact_values() {
    let w = weights(10, 1, 3);
    assert_eq!(compute_score(0, 0, 0, &w), 0);
    assert_eq!(compute_score(0, 0, 0, &weights(0, 0, 0)), 0);
    // 2 * 10 + 250 / 100 * 1 + 4 * 3 = 34.5 points
    assert_eq!(compute_score(2, 250, 4, &w), 3_450_000_000);
    let frac = Weights { open_prs: 1_500_000, lines_per_100: 250_000, recent_reviews: 0 };
    // 3 * 1.5 + 1 / 100 * 0.25 = 4.5025 points
    assert_eq!(compute_score(3, 1, 9, &frac), 450_250_000);
}

#[test]
fn score_grows_with_each_count() {
    let w = weights(10, 1, 3);
    let base = compute_score(1, 100, 1, &w);
    assert!(compute_score(2, 100, 1, &w) >= base);
    assert!(compute_score(1, 101, 1, &w) >= base);
    assert!(compute_score(1, 100, 2, &w) >= base);
}

#[test]
fn score_of_largest_inputs_does_not_overflow() {
    let w = Weights { open_prs: 999_999_999_999_999, lines_per_100: 999_999_999_999_999, recent_reviews: 999_999_999_999_999 };
    let m = u64::MAX as u128;
    let k = 999_999_999_999_999u128;
    assert_eq!(compute_score(u64::MAX, u64::MAX, u64::MAX, &w), m * k * 100 + m * k + m * k * 100);
}

#[test]
fn changed_lines_defaults_and_saturates() {
    assert_eq!(changed_lines(Some(30), Some(10)), 40);
    assert_eq!(changed_lines(None, Some(10)), 10);
    assert_eq!(changed_lines(Some(30), None), 30);
    assert_eq!(changed_lines(None, None), 0);
    assert_eq!(changed_lines(Some(u64::MAX), Some(1)), u64::MAX);
}

#[test]
fn default_weights_are_ten_one_three() {
    let w = Weights::default_weights();
    assert_eq!(w, weights(10, 1, 3));
}

#[test]
fn failed_review_listing_counts_as_no_reviews() {
    assert!(review_authors_or_none(None).is_empty());
    assert_eq!(review_authors_or_none(Some(names(&["A", "B"]))), names(&["A", "B"]));
}
