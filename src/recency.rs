//! The recent-review search: the query it sends, and the count it yields.
use vstd::prelude::*;

verus! {

/// The search text: pull requests of `owner/repo` reviewed by `username` and
/// closed after `since` (a `YYYY-MM-DD` date).
pub open spec fn query_text(owner: Seq<char>, repo: Seq<char>, username: Seq<char>, since: Seq<char>) -> Seq<char> {
    "repo:"@ + owner + "/"@ + repo + " is:pr reviewed-by:"@ + username + " closed:>"@ + since
}

/// Builds the search query for the recent reviews of `username`.
pub fn recent_reviews_query(owner: &str, repo: &str, username: &str, since: &str) -> (r: String)
    ensures
        r@ == query_text(owner@, repo@, username@, since@),
{
    let mut q = String::from_str("repo:");
    q.append(owner);
    q.append("/");
    q.append(repo);
    q.append(" is:pr reviewed-by:");
    q.append(username);
    q.append(" closed:>");
    q.append(since);
    q
}

/// The recent review count from the outcome of the search: the reported total
/// where the search succeeded and reported one (`Some(Some(n))`), zero where it
/// reported none or failed (`None`).
pub fn recent_count(outcome: Option<Option<u64>>) -> (r: u64)
    ensures
        r == (match outcome {
            Some(Some(n)) => n,
            _ => 0,
        }),
{
    match outcome {
        Some(Some(n)) => n,
        _ => 0,
    }
}

} // verus!
