//! Properties that hold across the library's functions.
use vstd::prelude::*;
use crate::ranking::{ScoreView, eligible_names, is_stable_ranking, not_author, ranks_by, score_records, takes};
use crate::score::{Weights, score_value};
use crate::workload::{PullRequestSnapshot, WorkloadTable, holds_name, lines_of, recorded, zero_load};

verus! {

/// With non-negative counts, a score is never negative, and it does not
/// decrease when the open count, the line count or the recent count grows
/// while the others stay.
pub proof fn score_nonnegative_and_monotone(open: nat, lines: nat, recent: nat, more: nat, w: Weights)
    ensures
        score_value(open as int, lines as int, recent as int, w) >= 0,
        score_value(open as int, lines as int, recent as int, w) <= score_value((open + more) as int, lines as int, recent as int, w),
        score_value(open as int, lines as int, recent as int, w) <= score_value(open as int, (lines + more) as int, recent as int, w),
        score_value(open as int, lines as int, recent as int, w) <= score_value(open as int, lines as int, (recent + more) as int, w),
{
    let (a, b, c) = (w.open_prs as int, w.lines_per_100 as int, w.recent_reviews as int);
    assert(open * a * 100 >= 0 && lines * b >= 0 && recent * c * 100 >= 0) by (nonlinear_arith)
        requires
            open >= 0,
            lines >= 0,
            recent >= 0,
            a >= 0,
            b >= 0,
            c >= 0,
    ;
    assert(open * a * 100 <= (open + more) * a * 100) by (nonlinear_arith)
        requires
            open >= 0,
            more >= 0,
            a >= 0,
    ;
    assert(lines * b <= (lines + more) * b) by (nonlinear_arith)
        requires
            lines >= 0,
            more >= 0,
            b >= 0,
    ;
    assert(recent * c * 100 <= (recent + more) * c * 100) by (nonlinear_arith)
        requires
            recent >= 0,
            more >= 0,
            c >= 0,
    ;
}

/// A member with no open reviews, no lines and no recent reviews scores
/// exactly zero, whatever the weights.
pub proof fn idle_member_scores_zero(w: Weights)
    ensures
        score_value(0, 0, 0, w) == 0,
{
}

/// The pull request's author never appears in the ranking of the eligible
/// candidates, whatever the scores.
pub proof fn author_never_ranked(
    t: WorkloadTable,
    roster: Seq<Seq<char>>,
    author: Seq<char>,
    recent: Seq<u64>,
    w: Weights,
    ranking: Seq<ScoreView>,
)
    requires
        is_stable_ranking(score_records(t, eligible_names(roster, author), recent, w), ranking),
    ensures
        forall|k: int| 0 <= k < ranking.len() ==> (#[trigger] ranking[k]).username != author,
{
    let names = eligible_names(roster, author);
    let input = score_records(t, names, recent, w);
    let p = choose|p: Seq<int>| ranks_by(input, ranking, p);
    assert forall|k: int| 0 <= k < ranking.len() implies (#[trigger] ranking[k]).username != author by {
        let j = p[k];
        assert(ranking[k] == input[j]);
        roster.lemma_filter_pred(not_author(author), j);
        assert(input[j].username == names[j]);
    }
}

/// Of two candidates with equal scores, the one earlier in the input order
/// ranks first.
pub proof fn equal_scores_keep_order(input: Seq<ScoreView>, output: Seq<ScoreView>, i: int, j: int)
    requires
        is_stable_ranking(input, output),
        0 <= i < j < input.len(),
        input[i].total_score == input[j].total_score,
    ensures
        exists|a: int, b: int| 0 <= a < b < output.len() && output[a] == input[i] && output[b] == input[j],
{
    let p = choose|p: Seq<int>| ranks_by(input, output, p);
    assert(takes(p, i));
    assert(takes(p, j));
    let a = choose|k: int| 0 <= k < p.len() && #[trigger] p[k] == i;
    let b = choose|k: int| 0 <= k < p.len() && #[trigger] p[k] == j;
    if b < a {
        assert(output[b].total_score < output[a].total_score || p[b] < p[a]);
    }
    assert(output[a] == input[i] && output[b] == input[j]);
}

/// A member who is both requested on a pull request and the author of a
/// submitted review on it is counted once: one more open review and the pull
/// request's lines, added a single time.
pub proof fn engaged_member_counted_once(before: WorkloadTable, after: WorkloadTable, pr: PullRequestSnapshot, i: int)
    requires
        recorded(before, after, pr),
        0 <= i < before.rows().len(),
        holds_name(pr.requested_reviewers@, before.rows()[i].0),
        holds_name(pr.review_authors@, before.rows()[i].0),
        before.rows()[i].1.open_prs_count < u64::MAX,
        before.rows()[i].1.total_lines_in_review + lines_of(pr.additions, pr.deletions) <= u64::MAX,
    ensures
        after.rows()[i].0 == before.rows()[i].0,
        after.rows()[i].1.open_prs_count == before.rows()[i].1.open_prs_count + 1,
        after.rows()[i].1.total_lines_in_review == before.rows()[i].1.total_lines_in_review + lines_of(
            pr.additions,
            pr.deletions,
        ),
{
    assert(after.rows()[i] == crate::workload::updated_row(before.rows()[i], pr));
}

/// Between two rankings of the same candidates, a member whose open count,
/// line count and recent count are each no larger in the first than in the
/// second has no larger a score in the first.
pub proof fn ranked_score_monotone(
    t1: WorkloadTable,
    t2: WorkloadTable,
    names: Seq<Seq<char>>,
    recent1: Seq<u64>,
    recent2: Seq<u64>,
    w: Weights,
    out1: Seq<ScoreView>,
    out2: Seq<ScoreView>,
    m: Seq<char>,
    a: int,
    b: int,
)
    requires
        is_stable_ranking(score_records(t1, names, recent1, w), out1),
        is_stable_ranking(score_records(t2, names, recent2, w), out2),
        t1.load_of(m).open_prs_count <= t2.load_of(m).open_prs_count,
        t1.load_of(m).total_lines_in_review <= t2.load_of(m).total_lines_in_review,
        forall|k1: int, k2: int|
            0 <= k1 < names.len() && 0 <= k2 < names.len() && names[k1] == m && names[k2] == m ==> #[trigger] recent1[k1]
                <= #[trigger] recent2[k2],
        0 <= a < out1.len(),
        0 <= b < out2.len(),
        out1[a].username == m,
        out2[b].username == m,
    ensures
        out1[a].total_score <= out2[b].total_score,
{
    let in1 = score_records(t1, names, recent1, w);
    let in2 = score_records(t2, names, recent2, w);
    let p1 = choose|p: Seq<int>| ranks_by(in1, out1, p);
    let p2 = choose|p: Seq<int>| ranks_by(in2, out2, p);
    let j1 = p1[a];
    let j2 = p2[b];
    assert(out1[a] == in1[j1]);
    assert(out2[b] == in2[j2]);
    assert(names[j1] == m && names[j2] == m);
    assert(recent1[j1] <= recent2[j2]);
    let (o1, l1, r1) = (t1.load_of(m).open_prs_count as nat, t1.load_of(m).total_lines_in_review as nat, recent1[j1] as nat);
    let (o2, l2, r2) = (t2.load_of(m).open_prs_count as nat, t2.load_of(m).total_lines_in_review as nat, recent2[j2] as nat);
    score_nonnegative_and_monotone(o1, l1, r1, (o2 - o1) as nat, w);
    score_nonnegative_and_monotone(o2, l1, r1, (l2 - l1) as nat, w);
    score_nonnegative_and_monotone(o2, l2, r1, (r2 - r1) as nat, w);
}

proof fn lemma_increasing_is_identity(p: Seq<int>, n: int, k: int)
    requires
        p.len() == n,
        forall|i: int| 0 <= i < n ==> 0 <= #[trigger] p[i] < n,
        forall|i: int, j: int| 0 <= i < j < n ==> #[trigger] p[i] < #[trigger] p[j],
        0 <= k < n,
    ensures
        p[k] == k,
{
    lemma_increasing_lower(p, n, k);
    lemma_increasing_upper(p, n, k);
}

proof fn lemma_increasing_lower(p: Seq<int>, n: int, k: int)
    requires
        p.len() == n,
        forall|i: int| 0 <= i < n ==> 0 <= #[trigger] p[i] < n,
        forall|i: int, j: int| 0 <= i < j < n ==> #[trigger] p[i] < #[trigger] p[j],
        0 <= k < n,
    ensures
        p[k] >= k,
    decreases k,
{
    if k > 0 {
        lemma_increasing_lower(p, n, k - 1);
        assert(p[k - 1] < p[k]);
    }
}

proof fn lemma_increasing_upper(p: Seq<int>, n: int, k: int)
    requires
        p.len() == n,
        forall|i: int| 0 <= i < n ==> 0 <= #[trigger] p[i] < n,
        forall|i: int, j: int| 0 <= i < j < n ==> #[trigger] p[i] < #[trigger] p[j],
        0 <= k < n,
    ensures
        p[k] <= k,
    decreases n - k,
{
    if k < n - 1 {
        lemma_increasing_upper(p, n, k + 1);
        assert(p[k] < p[k + 1]);
    }
}

/// With no open pull requests (every load zero), each candidate scores its
/// recent review count times the recent-review weight; with that weight zero,
/// every score is zero and the ranking keeps the candidates' order.
pub proof fn no_open_prs_ranking(t: WorkloadTable, names: Seq<Seq<char>>, recent: Seq<u64>, w: Weights, out: Seq<ScoreView>)
    requires
        forall|i: int| 0 <= i < t.rows().len() ==> #[trigger] t.rows()[i].1 == zero_load(),
        forall|k: int| 0 <= k < names.len() ==> t.has(#[trigger] names[k]),
        recent.len() == names.len(),
        is_stable_ranking(score_records(t, names, recent, w), out),
    ensures
        forall|k: int|
            0 <= k < out.len() ==> (#[trigger] out[k]).total_score == out[k].recent_reviews_count * w.recent_reviews * 100,
        w.recent_reviews == 0 ==> out == score_records(t, names, recent, w),
{
    let input = score_records(t, names, recent, w);
    let p = choose|p: Seq<int>| ranks_by(input, out, p);
    assert forall|j: int| 0 <= j < input.len() implies #[trigger] input[j].total_score == input[j].recent_reviews_count
        * w.recent_reviews * 100 by {
        let name = names[j];
        assert(t.has(name));
        let i = choose|i: int| 0 <= i < t.rows().len() && #[trigger] t.rows()[i].0 == name;
        assert(t.load_of(name) == zero_load());
    }
    assert forall|k: int| 0 <= k < out.len() implies (#[trigger] out[k]).total_score == out[k].recent_reviews_count
        * w.recent_reviews * 100 by {
        assert(out[k] == input[p[k]]);
    }
    if w.recent_reviews == 0 {
        let n = input.len() as int;
        assert forall|k: int| 0 <= k < n implies #[trigger] out[k].total_score == 0 by {
            assert(out[k] == input[p[k]]);
            assert(input[p[k]].total_score == input[p[k]].recent_reviews_count * w.recent_reviews * 100);
        }
        assert forall|i: int, j: int| 0 <= i < j < n implies #[trigger] p[i] < #[trigger] p[j] by {
            assert(out[i].total_score == 0 && out[j].total_score == 0);
        }
        assert forall|k: int| 0 <= k < n implies out[k] == input[k] by {
            lemma_increasing_is_identity(p, n, k);
        }
        assert(out =~= input);
    }
}

proof fn lemma_filter_keeps_order(s: Seq<Seq<char>>, author: Seq<char>, i: int, j: int)
    requires
        0 <= i < j < s.len(),
        s[i] != author,
        s[j] != author,
    ensures
        exists|x: int, y: int|
            0 <= x < y < s.filter(not_author(author)).len() && #[trigger] s.filter(not_author(author))[x] == s[i]
                && #[trigger] s.filter(not_author(author))[y] == s[j],
    decreases s.len(),
{
    let f = not_author(author);
    let init = s.drop_last();
    assert(s =~= init.push(s.last()));
    init.lemma_filter_push(s.last(), f);
    let fi = init.filter(f);
    if j < s.len() - 1 {
        assert(init[i] == s[i] && init[j] == s[j]);
        lemma_filter_keeps_order(init, author, i, j);
        let (x, y) = choose|x: int, y: int|
            0 <= x < y < fi.len() && #[trigger] fi[x] == init[i] && #[trigger] fi[y] == init[j];
        let fs = s.filter(f);
        if f(s.last()) {
            assert(fs[x] == fi[x] && fs[y] == fi[y]);
        }
        assert(fs[x] == s[i] && fs[y] == s[j]);
    } else {
        assert(f(s.last()));
        assert(init[i] == s[i]);
        init.lemma_filter_contains(f, i);
        let x = choose|x: int| 0 <= x < fi.len() && fi[x] == init[i];
        let fs = s.filter(f);
        assert(fs[x] == s[i]);
        assert(fs[fi.len() as int] == s[j]);
    }
}

/// Of two eligible roster members whose scores are equal, the one earlier in
/// the roster ranks first.
pub proof fn roster_ties_keep_order(
    t: WorkloadTable,
    roster: Seq<Seq<char>>,
    author: Seq<char>,
    recent: Seq<u64>,
    w: Weights,
    out: Seq<ScoreView>,
    i: int,
    j: int,
)
    requires
        is_stable_ranking(score_records(t, eligible_names(roster, author), recent, w), out),
        0 <= i < j < roster.len(),
        roster[i] != author,
        roster[j] != author,
        forall|k1: int, k2: int|
            0 <= k1 < eligible_names(roster, author).len() && 0 <= k2 < eligible_names(roster, author).len()
                && eligible_names(roster, author)[k1] == roster[i] && eligible_names(roster, author)[k2] == roster[j]
                ==> #[trigger] score_records(t, eligible_names(roster, author), recent, w)[k1].total_score
                == #[trigger] score_records(t, eligible_names(roster, author), recent, w)[k2].total_score,
    ensures
        exists|a: int, b: int|
            0 <= a < b < out.len() && #[trigger] out[a].username == roster[i] && #[trigger] out[b].username == roster[j],
{
    let names = eligible_names(roster, author);
    let input = score_records(t, names, recent, w);
    lemma_filter_keeps_order(roster, author, i, j);
    let (x, y) = choose|x: int, y: int|
        0 <= x < y < names.len() && #[trigger] names[x] == roster[i] && #[trigger] names[y] == roster[j];
    assert(input[x].total_score == input[y].total_score);
    equal_scores_keep_order(input, out, x, y);
    let (a, b) = choose|a: int, b: int| 0 <= a < b < out.len() && out[a] == input[x] && out[b] == input[y];
    assert(out[a].username == roster[i] && out[b].username == roster[j]);
}

} // verus!
