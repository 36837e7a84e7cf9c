//! The run's configuration, built from the raw inputs the caller gathered.
use vstd::prelude::*;
use crate::score::{DEFAULT_WEIGHT_LINES, DEFAULT_WEIGHT_OPEN_PRS, DEFAULT_WEIGHT_RECENT, Weights};
use crate::text::{repo_name_from, repo_name_of, roster_of, split_roster};
use crate::weight::{parse_weight, weight_of};

verus! {

/// The raw inputs of a run, each `None` where it was not given.
#[derive(Debug)]
pub struct ConfigInputs {
    /// Access token for the source host.
    pub github_token: Option<String>,
    /// Comma-separated logins of the team.
    pub team_members: Option<String>,
    /// Points per open review, as decimal text.
    pub weight_open_prs: Option<String>,
    /// Points per hundred lines under review, as decimal text.
    pub weight_lines_per_100: Option<String>,
    /// Points per recent review, as decimal text.
    pub weight_recent_reviews: Option<String>,
    /// The repository owner.
    pub repository_owner: Option<String>,
    /// The repository, as `owner/name`.
    pub repository: Option<String>,
    /// The JSON document describing the event that started the run.
    pub event_payload: Option<String>,
}

/// Why the inputs give no configuration; the first failing input, in the
/// order of the variants, is reported.
#[derive(Clone, Copy, Debug, PartialEq, Eq, Structural)]
pub enum ConfigError {
    MissingToken,
    MissingTeamMembers,
    InvalidWeightOpenPrs,
    InvalidWeightLines,
    InvalidWeightRecentReviews,
    MissingRepositoryOwner,
    MissingRepository,
    InvalidRepositoryFormat,
    MissingPrNumber,
}

/// A validated configuration.
#[derive(Debug)]
pub struct Config {
    pub github_token: String,
    /// The roster, in the order given, duplicates and empty logins kept.
    pub team_members: Vec<String>,
    pub weights: Weights,
    pub repo_owner: String,
    pub repo_name: String,
    pub pr_number: u64,
}

/// The number of the pull request in an event document: its
/// `pull_request.number` field, where the document is JSON and the field a
/// non-negative integer.
pub uninterp spec fn pr_number_in_event(payload: Seq<char>) -> Option<u64>;

/// Relies on `serde_json::from_str` into a `serde_json::Value`, its `Index`
/// by key (a missing key gives `Null`) and `Value::as_u64`: the result
/// depends on the text alone.
#[verifier::external_body]
fn event_pr_number(payload: &str) -> (r: Option<u64>)
    ensures
        r == pr_number_in_event(payload@),
{
    match serde_json::from_str::<serde_json::Value>(payload) {
        Ok(json) => json["pull_request"]["number"].as_u64(),
        Err(_) => None,
    }
}

/// A weight input: the default where absent, else what its text gives.
pub open spec fn weight_input(text: Option<String>, default: u64) -> Option<u64> {
    match text {
        None => Some(default),
        Some(t) => weight_of(t@),
    }
}

/// The error that the inputs give, if any.
pub open spec fn config_error(i: ConfigInputs) -> Option<ConfigError> {
    if i.github_token is None {
        Some(ConfigError::MissingToken)
    } else if i.team_members is None {
        Some(ConfigError::MissingTeamMembers)
    } else if weight_input(i.weight_open_prs, DEFAULT_WEIGHT_OPEN_PRS) is None {
        Some(ConfigError::InvalidWeightOpenPrs)
    } else if weight_input(i.weight_lines_per_100, DEFAULT_WEIGHT_LINES) is None {
        Some(ConfigError::InvalidWeightLines)
    } else if weight_input(i.weight_recent_reviews, DEFAULT_WEIGHT_RECENT) is None {
        Some(ConfigError::InvalidWeightRecentReviews)
    } else if i.repository_owner is None {
        Some(ConfigError::MissingRepositoryOwner)
    } else if i.repository is None {
        Some(ConfigError::MissingRepository)
    } else if repo_name_of(i.repository->0@) is None {
        Some(ConfigError::InvalidRepositoryFormat)
    } else if i.event_payload is None || pr_number_in_event(i.event_payload->0@) is None {
        Some(ConfigError::MissingPrNumber)
    } else {
        None
    }
}

fn read_weight(text: &Option<String>, default: u64) -> (r: Option<u64>)
    requires
        default <= crate::score::MAX_WEIGHT,
    ensures
        r == weight_input(*text, default),
        r matches Some(v) ==> v <= crate::score::MAX_WEIGHT,
{
    match text {
        None => Some(default),
        Some(t) => parse_weight(t.as_str()),
    }
}

impl Config {
    /// Builds the configuration, or reports the first input that is missing
    /// or malformed. Absent weights take their defaults (10, 1 and 3 points).
    pub fn from_inputs(inputs: &ConfigInputs) -> (r: Result<Config, ConfigError>)
        ensures
            r is Err <==> config_error(*inputs) is Some,
            r matches Err(e) ==> config_error(*inputs) == Some(e),
            r matches Ok(c) ==> {
                &&& config_error(*inputs) is None
                &&& c.github_token@ == inputs.github_token->0@
                &&& c.team_members@.map_values(|x: String| x@) == roster_of(inputs.team_members->0@)
                &&& c.weights.wf()
                &&& Some(c.weights.open_prs) == weight_input(inputs.weight_open_prs, DEFAULT_WEIGHT_OPEN_PRS)
                &&& Some(c.weights.lines_per_100) == weight_input(inputs.weight_lines_per_100, DEFAULT_WEIGHT_LINES)
                &&& Some(c.weights.recent_reviews) == weight_input(inputs.weight_recent_reviews, DEFAULT_WEIGHT_RECENT)
                &&& c.repo_owner@ == inputs.repository_owner->0@
                &&& Some(c.repo_name@) == repo_name_of(inputs.repository->0@)
                &&& Some(c.pr_number) == pr_number_in_event(inputs.event_payload->0@)
            },
    {
        let token = match &inputs.github_token {
            Some(t) => t.clone(),
            None => return Err(ConfigError::MissingToken),
        };
        let team_members = match &inputs.team_members {
            Some(t) => split_roster(t.as_str()),
            None => return Err(ConfigError::MissingTeamMembers),
        };
        let open_prs = match read_weight(&inputs.weight_open_prs, DEFAULT_WEIGHT_OPEN_PRS) {
            Some(w) => w,
            None => return Err(ConfigError::InvalidWeightOpenPrs),
        };
        let lines_per_100 = match read_weight(&inputs.weight_lines_per_100, DEFAULT_WEIGHT_LINES) {
            Some(w) => w,
            None => return Err(ConfigError::InvalidWeightLines),
        };
        let recent_reviews = match read_weight(&inputs.weight_recent_reviews, DEFAULT_WEIGHT_RECENT) {
            Some(w) => w,
            None => return Err(ConfigError::InvalidWeightRecentReviews),
        };
        let repo_owner = match &inputs.repository_owner {
            Some(o) => o.clone(),
            None => return Err(ConfigError::MissingRepositoryOwner),
        };
        let repo_name = match &inputs.repository {
            Some(full) => match repo_name_from(full.as_str()) {
                Some(n) => n,
                None => return Err(ConfigError::InvalidRepositoryFormat),
            },
            None => return Err(ConfigError::MissingRepository),
        };
        let pr_number = match &inputs.event_payload {
            Some(p) => match event_pr_number(p.as_str()) {
                Some(n) => n,
                None => return Err(ConfigError::MissingPrNumber),
            },
            None => return Err(ConfigError::MissingPrNumber),
        };
        Ok(Config {
            github_token: token,
            team_members,
            weights: Weights { open_prs, lines_per_100, recent_reviews },
            repo_owner,
            repo_name,
            pr_number,
        })
    }
}

} // verus!
