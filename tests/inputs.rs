use reviewer_pick::config::{Config, ConfigError, ConfigInputs};
use reviewer_pick::recency::{recent_count, recent_reviews_query};
use reviewer_pick::text::{repo_name_from, split_roster};
use reviewer_pick::weight::parse_weight;
use reviewer_pick::window::{search_window_start, CivilDate};

fn s(v: &str) -> Option<String> {
    Some(v.to_string())
}

fn full_inputs() -> ConfigInputs {
    ConfigInputs {
        github_token: s("SECRET-REDACTED"),
        team_members: s("alice, bob ,carol"),
        weight_open_prs: None,
        weight_lines_per_100: s("2.5"),
        weight_recent_reviews: None,
        repository_owner: s("octo"),
        repository: s("octo/widgets"),
        event_payload: s("{\"pull_request\": {\"number\": 42, \"title\": \"x\"}}"),
    }
}

#[test]
fn config_from_complete_inputs() {
    let c = Config::from_inputs(&full_inputs()).unwrap();
    assert_eq!(c.github_token, "SECRET-REDACTED");
    assert_eq!(c.team_members, vec!["alice".to_string(), "bob".to_string(), "carol".to_string()]);
    assert_eq!(c.weights.open_prs, 10_000_000);
    assert_eq!(c.weights.lines_per_100, 2_500_000);
    assert_eq!(c.weights.recent_reviews, 3_000_000);
    assert_eq!(c.repo_owner, "octo");
    assert_eq!(c.repo_name, "widgets");
    assert_eq!(c.pr_number, 42);
}

#[test]
fn config_reports_each_missing_or_bad_input() {
    let err = |f: &dyn Fn(&mut ConfigInputs)| {
        let mut i = full_inputs();
        f(&mut i);
        Config::from_inputs(&i).unwrap_err()
    };
    assert_eq!(err(&|i| i.github_token = None), ConfigError::MissingToken);
    assert_eq!(err(&|i| i.team_members = None), ConfigError::MissingTeamMembers);
    assert_eq!(err(&|i| i.weight_open_prs = s("ten")), ConfigError::InvalidWeightOpenPrs);
    assert_eq!(err(&|i| i.weight_open_prs = s("-1")), ConfigError::InvalidWeightOpenPrs);
    assert_eq!(err(&|i| i.weight_lines_per_100 = s("")), ConfigError::InvalidWeightLines);
    assert_eq!(err(&|i| i.weight_recent_reviews = s("1.2.3")), ConfigError::InvalidWeightRecentReviews);
    assert_eq!(err(&|i| i.repository_owner = None), ConfigError::MissingRepositoryOwner);
    assert_eq!(err(&|i| i.repository = None), ConfigError::MissingRepository);
    assert_eq!(err(&|i| i.repository = s("widgets")), ConfigError::InvalidRepositoryFormat);
    assert_eq!(err(&|i| i.event_payload = None), ConfigError::MissingPrNumber);
    assert_eq!(err(&|i| i.event_payload = s("not json")), ConfigError::MissingPrNumber);
    assert_eq!(err(&|i| i.event_payload = s("{\"pull_request\": {}}")), ConfigError::MissingPrNumber);
    assert_eq!(err(&|i| i.event_payload = s("{\"pull_request\": {\"number\": -3}}")), ConfigError::MissingPrNumber);
}

#[test]
fn config_accepts_exponent_weight() {
    let mut i = full_inputs();
    i.weight_open_prs = s("1e3");
    assert_eq!(Config::from_inputs(&i).unwrap().weights.open_prs, 1_000_000_000);
}

#[test]
fn config_reports_first_failing_input() {
    let mut i = full_inputs();
    i.github_token = None;
    i.repository = None;
    assert_eq!(Config::from_inputs(&i).unwrap_err(), ConfigError::MissingToken);
}

#[test]
fn weights_parse_as_fixed_point() {
    assert_eq!(parse_weight("10"), Some(10_000_000));
    assert_eq!(parse_weight("1"), Some(1_000_000));
    assert_eq!(parse_weight("0"), Some(0));
    assert_eq!(parse_weight("1.5"), Some(1_500_000));
    assert_eq!(parse_weight(".25"), Some(250_000));
    assert_eq!(parse_weight("3."), Some(3_000_000));
    assert_eq!(parse_weight("0.000001"), Some(1));
    assert_eq!(parse_weight("999999999.999999"), Some(999_999_999_999_999));
    assert_eq!(parse_weight(""), None);
    assert_eq!(parse_weight("."), None);
    assert_eq!(parse_weight("-1"), None);
    assert_eq!(parse_weight("1e3"), Some(1_000_000_000));
    assert_eq!(parse_weight("+2"), Some(2_000_000));
    assert_eq!(parse_weight("2E1"), Some(20_000_000));
    assert_eq!(parse_weight("2.5e-1"), Some(250_000));
    assert_eq!(parse_weight("1e+2"), Some(100_000_000));
    assert_eq!(parse_weight("0.1234567"), Some(123_457));
    assert_eq!(parse_weight("0.1234564"), Some(123_456));
    assert_eq!(parse_weight("0.0000005"), Some(1));
    assert_eq!(parse_weight("0.0000004"), Some(0));
    assert_eq!(parse_weight("1.2345678"), Some(1_234_568));
    assert_eq!(parse_weight("5e-7"), Some(1));
    assert_eq!(parse_weight("1e-400"), Some(0));
    assert_eq!(parse_weight("0e999999999999999999999999999999999"), Some(0));
    assert_eq!(parse_weight("0000000000000000000000000003"), Some(3_000_000));
    assert_eq!(parse_weight("1234567890"), None);
    assert_eq!(parse_weight("999999999"), Some(999_999_999_000_000));
    assert_eq!(parse_weight("1e9"), None);
    assert_eq!(parse_weight("1e400"), None);
    assert_eq!(parse_weight("1e"), None);
    assert_eq!(parse_weight("e3"), None);
    assert_eq!(parse_weight("inf"), None);
    assert_eq!(parse_weight("NaN"), None);
    assert_eq!(parse_weight("++1"), None);
    assert_eq!(parse_weight(" 1"), None);
}

#[test]
fn roster_splits_on_commas_and_trims() {
    let v = |x: &[&str]| x.iter().map(|s| s.to_string()).collect::<Vec<_>>();
    assert_eq!(split_roster("alice, bob ,,carol"), v(&["alice", "bob", "", "carol"]));
    assert_eq!(split_roster(" alice "), v(&["alice"]));
    assert_eq!(split_roster(""), v(&[""]));
    assert_eq!(split_roster("a,a"), v(&["a", "a"]));
    assert_eq!(split_roster("a,"), v(&["a", ""]));
}

#[test]
fn repository_name_is_second_segment() {
    assert_eq!(repo_name_from("octo/widgets"), Some("widgets".to_string()));
    assert_eq!(repo_name_from("octo/widgets/extra"), Some("widgets".to_string()));
    assert_eq!(repo_name_from("octo/"), Some(String::new()));
    assert_eq!(repo_name_from("widgets"), None);
    assert_eq!(repo_name_from(""), None);
}

#[test]
fn recent_reviews_query_text() {
    assert_eq!(
        recent_reviews_query("octo", "widgets", "alice", "2024-05-01"),
        "repo:octo/widgets is:pr reviewed-by:alice closed:>2024-05-01"
    );
}

#[test]
fn recent_count_falls_back_to_zero() {
    assert_eq!(recent_count(Some(Some(7))), 7);
    assert_eq!(recent_count(Some(None)), 0);
    assert_eq!(recent_count(None), 0);
}

#[test]
fn window_starts_a_week_earlier() {
    let d = |year, month, day| CivilDate { year, month, day };
    assert_eq!(search_window_start(d(2024, 5, 20)), Some("2024-05-13".to_string()));
    assert_eq!(search_window_start(d(2024, 3, 5)), Some("2024-02-27".to_string()));
    assert_eq!(search_window_start(d(2023, 3, 5)), Some("2023-02-26".to_string()));
    assert_eq!(search_window_start(d(2024, 1, 3)), Some("2023-12-27".to_string()));
    assert_eq!(search_window_start(d(7, 1, 9)), Some("0007-01-02".to_string()));
    assert_eq!(search_window_start(d(2023, 2, 30)), None);
    assert_eq!(search_window_start(d(2024, 13, 1)), None);
    assert_eq!(search_window_start(d(10000, 3, 1)), None);
}

#[test]
fn roster_trims_unicode_white_space() {
    let v = |x: &[&str]| x.iter().map(|s| s.to_string()).collect::<Vec<_>>();
    assert_eq!(split_roster("\talice\n,\u{a0}bob\u{3000}"), v(&["alice", "bob"]));
    assert_eq!(split_roster(" ,  "), v(&["", ""]));
}
