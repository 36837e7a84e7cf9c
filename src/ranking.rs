//! Choosing the eligible candidates and ranking them by score.
use vstd::prelude::*;
use crate::score::{Weights, compute_score, score_value};
use crate::workload::{ReviewerWorkload, WorkloadTable, names_view};

verus! {

/// One ranked candidate: the login, the figures that went into the score, and
/// the score in score units.
#[derive(Debug)]
pub struct ReviewerScore {
    /// The candidate's login.
    pub username: String,
    /// Open reviews the candidate is engaged on.
    pub open_prs_count: u64,
    /// Changed lines under review.
    pub total_lines_in_review: u64,
    /// Reviews completed recently.
    pub recent_reviews_count: u64,
    /// The score, in score units (lower is less busy).
    pub total_score: u128,
}

/// The mathematical content of a [`ReviewerScore`].
pub struct ScoreView {
    pub username: Seq<char>,
    pub open_prs_count: u64,
    pub total_lines_in_review: u64,
    pub recent_reviews_count: u64,
    pub total_score: int,
}

impl View for ReviewerScore {
    type V = ScoreView;

    open spec fn view(&self) -> ScoreView {
        ScoreView {
            username: self.username@,
            open_prs_count: self.open_prs_count,
            total_lines_in_review: self.total_lines_in_review,
            recent_reviews_count: self.recent_reviews_count,
            total_score: self.total_score as int,
        }
    }
}

/// The views of a sequence of scores.
pub open spec fn scores_view(s: Seq<ReviewerScore>) -> Seq<ScoreView> {
    s.map_values(|r: ReviewerScore| r@)
}

/// Holds of every login but `author`.
pub open spec fn not_author(author: Seq<char>) -> spec_fn(Seq<char>) -> bool {
    |n: Seq<char>| n != author
}

/// The roster without the pull request's author, in roster order.
pub open spec fn eligible_names(roster: Seq<Seq<char>>, author: Seq<char>) -> Seq<Seq<char>> {
    roster.filter(not_author(author))
}

/// The score record of `name`, from its load and its recent review count.
pub open spec fn score_record(t: WorkloadTable, name: Seq<char>, recent: u64, w: Weights) -> ScoreView {
    let load = t.load_of(name);
    ScoreView {
        username: name,
        open_prs_count: load.open_prs_count,
        total_lines_in_review: load.total_lines_in_review,
        recent_reviews_count: recent,
        total_score: score_value(load.open_prs_count as int, load.total_lines_in_review as int, recent as int, w),
    }
}

/// The score records of `names`, in the order given.
pub open spec fn score_records(t: WorkloadTable, names: Seq<Seq<char>>, recent: Seq<u64>, w: Weights) -> Seq<ScoreView> {
    Seq::new(names.len(), |k: int| score_record(t, names[k], recent[k], w))
}

/// Some entry of `p` is `j`.
pub open spec fn takes(p: Seq<int>, j: int) -> bool {
    exists|k: int| 0 <= k < p.len() && #[trigger] p[k] == j
}

/// `output` is `input` reordered by `p` (`output[k]` is `input[p[k]]`, each
/// position of `input` used once), ascending by score, records of equal
/// score in their order in `input`.
pub open spec fn ranks_by(input: Seq<ScoreView>, output: Seq<ScoreView>, p: Seq<int>) -> bool {
    &&& output.len() == input.len()
    &&& p.len() == input.len()
    &&& forall|k: int| 0 <= k < p.len() ==> 0 <= #[trigger] p[k] < input.len() && output[k] == input[p[k]]
    &&& forall|j: int| 0 <= j < input.len() ==> #[trigger] takes(p, j)
    &&& forall|a: int, b: int|
        0 <= a < b < output.len() ==> (#[trigger] output[a]).total_score < (#[trigger] output[b]).total_score || (
        output[a].total_score == output[b].total_score && p[a] < p[b])
}

/// `output` is the stable ascending ranking of `input` by score.
pub open spec fn is_stable_ranking(input: Seq<ScoreView>, output: Seq<ScoreView>) -> bool {
    exists|p: Seq<int>| ranks_by(input, output, p)
}

/// The eligible candidates: every roster member but the pull request's author,
/// in roster order (duplicates kept).
pub fn eligible_candidates(roster: &Vec<String>, pr_author: &String) -> (r: Vec<String>)
    ensures
        names_view(r@) == eligible_names(names_view(roster@), pr_author@),
{
    let mut out: Vec<String> = Vec::new();
    let mut i: usize = 0;
    while i < roster.len()
        invariant
            0 <= i <= roster@.len(),
            names_view(out@) == names_view(roster@.subrange(0, i as int)).filter(not_author(pr_author@)),
        decreases roster@.len() - i,
    {
        proof {
            assert(names_view(roster@.subrange(0, i + 1)) =~= names_view(roster@.subrange(0, i as int)).push(roster@[i as int]@));
            names_view(roster@.subrange(0, i as int)).lemma_filter_push(roster@[i as int]@, not_author(pr_author@));
        }
        if roster[i] != *pr_author {
            let ghost before = out@;
            out.push(roster[i].clone());
            proof {
                assert(names_view(out@) =~= names_view(before).push(roster@[i as int]@));
            }
        }
        i = i + 1;
    }
    proof {
        assert(roster@.subrange(0, roster@.len() as int) =~= roster@);
    }
    out
}

/// Scores each candidate from its load and its recent review count
/// (`recent[k]` belongs to `candidates[k]`), and ranks them ascending by
/// score; candidates of equal score keep their order.
pub fn calculate_scores(
    workloads: &WorkloadTable,
    candidates: &Vec<String>,
    recent: &Vec<u64>,
    weights: &Weights,
) -> (r: Vec<ReviewerScore>)
    requires
        workloads.wf(),
        weights.wf(),
        recent@.len() == candidates@.len(),
        forall|k: int| 0 <= k < candidates@.len() ==> workloads.has(#[trigger] candidates@[k]@),
    ensures
        is_stable_ranking(score_records(*workloads, names_view(candidates@), recent@, *weights), scores_view(r@)),
{
    let ghost input = score_records(*workloads, names_view(candidates@), recent@, *weights);
    let mut out: Vec<ReviewerScore> = Vec::new();
    let ghost mut p: Seq<int> = Seq::empty();
    let mut i: usize = 0;
    while i < candidates.len()
        invariant
            0 <= i <= candidates@.len(),
            recent@.len() == candidates@.len(),
            workloads.wf(),
            weights.wf(),
            forall|k: int| 0 <= k < candidates@.len() ==> workloads.has(#[trigger] candidates@[k]@),
            input == score_records(*workloads, names_view(candidates@), recent@, *weights),
            ranks_by(input.subrange(0, i as int), scores_view(out@), p),
        decreases candidates@.len() - i,
    {
        let name = &candidates[i];
        let load = match workloads.get(name) {
            Some(l) => l,
            None => {
                proof {
                    assert(workloads.has(candidates@[i as int]@));
                }
                ReviewerWorkload::zero()
            },
        };
        let score = compute_score(load.open_prs_count, load.total_lines_in_review, recent[i], weights);
        let item = ReviewerScore {
            username: name.clone(),
            open_prs_count: load.open_prs_count,
            total_lines_in_review: load.total_lines_in_review,
            recent_reviews_count: recent[i],
            total_score: score,
        };
        proof {
            assert(names_view(candidates@)[i as int] == name@);
            assert(item@ == input[i as int]);
        }
        let mut pos: usize = 0;
        while pos < out.len() && out[pos].total_score <= score
            invariant
                0 <= pos <= out@.len(),
                forall|k: int| 0 <= k < pos ==> (#[trigger] out@[k]).total_score <= score,
            decreases out@.len() - pos,
        {
            pos = pos + 1;
        }
        let ghost old_out = scores_view(out@);
        let ghost old_p = p;
        let ghost sub = input.subrange(0, i as int);
        out.insert(pos, item);
        proof {
            p = old_p.insert(pos as int, i as int);
            let new_sub = input.subrange(0, i + 1);
            assert(new_sub =~= sub.push(input[i as int]));
            let ov = scores_view(out@);
            assert(ov =~= old_out.insert(pos as int, item@));
            assert forall|k: int| 0 <= k < p.len() implies 0 <= #[trigger] p[k] < new_sub.len() && ov[k] == new_sub[p[k]] by {
                if k < pos {
                    assert(p[k] == old_p[k]);
                } else if k > pos {
                    assert(p[k] == old_p[k - 1]);
                }
            }
            assert forall|j: int| 0 <= j < new_sub.len() implies #[trigger] takes(p, j) by {
                if j == i {
                    assert(p[pos as int] == j);
                } else {
                    assert(takes(old_p, j));
                    let k = choose|k: int| 0 <= k < old_p.len() && #[trigger] old_p[k] == j;
                    if k < pos {
                        assert(p[k] == j);
                    } else {
                        assert(p[k + 1] == j);
                    }
                }
            }
            assert forall|a: int, b: int| 0 <= a < b < ov.len() implies (#[trigger] ov[a]).total_score < (#[trigger] ov[b]).total_score || (
                ov[a].total_score == ov[b].total_score && p[a] < p[b]) by {
                if pos < old_out.len() {
                    assert(old_out[pos as int].total_score > score);
                }
                if a < pos && b < pos {
                    assert(ov[a] == old_out[a] && ov[b] == old_out[b]);
                } else if a < pos && b == pos {
                    assert(ov[a] == old_out[a]);
                    assert(old_out[a].total_score <= score);
                    assert(0 <= old_p[a] < i);
                } else if a < pos && b > pos {
                    assert(ov[a] == old_out[a] && ov[b] == old_out[b - 1]);
                } else if a == pos {
                    assert(ov[b] == old_out[b - 1]);
                    if b - 1 > pos {
                        assert(old_out[pos as int].total_score <= old_out[b - 1].total_score);
                    }
                } else {
                    assert(ov[a] == old_out[a - 1] && ov[b] == old_out[b - 1]);
                }
            }
        }
        i = i + 1;
    }
    proof {
        assert(input.subrange(0, candidates@.len() as int) =~= input);
    }
    out
}

/// The member to assign: the first of the ranking, or `None` where the
/// ranking is empty (nobody is eligible).
pub fn choose_reviewer(scores: &Vec<ReviewerScore>) -> (r: Option<String>)
    ensures
        r is None <==> scores@.len() == 0,
        r matches Some(u) ==> u@ == scores@[0].username@,
{
    if scores.len() == 0 {
        None
    } else {
        Some(scores[0].username.clone())
    }
}

} // verus!
