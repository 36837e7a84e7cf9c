//! Per-member review load: how many open pull requests each team member is
//! engaged on, and how many changed lines those pull requests carry.
use vstd::prelude::*;

verus! {

/// One team member's current review load.
#[derive(Clone, Copy, Debug, PartialEq, Eq, Structural)]
pub struct ReviewerWorkload {
    /// Open pull requests the member is engaged on.
    pub open_prs_count: u64,
    /// Changed lines summed over those pull requests.
    pub total_lines_in_review: u64,
}

/// The load of a member who reviews nothing.
pub open spec fn zero_load() -> ReviewerWorkload {
    ReviewerWorkload { open_prs_count: 0, total_lines_in_review: 0 }
}

impl ReviewerWorkload {
    /// A load of no reviews and no lines.
    pub fn zero() -> (r: ReviewerWorkload)
        ensures
            r == zero_load(),
    {
        ReviewerWorkload { open_prs_count: 0, total_lines_in_review: 0 }
    }
}

/// The load after one more pull request of `lines` changed lines
/// (each counter stops at its largest value).
pub open spec fn bumped(w: ReviewerWorkload, lines: u64) -> ReviewerWorkload {
    ReviewerWorkload {
        open_prs_count: w.open_prs_count.saturating_add(1),
        total_lines_in_review: w.total_lines_in_review.saturating_add(lines),
    }
}

/// What the aggregation needs to know of one open pull request.
#[derive(Debug)]
pub struct PullRequestSnapshot {
    /// Lines added, where the host reports it.
    pub additions: Option<u64>,
    /// Lines deleted, where the host reports it.
    pub deletions: Option<u64>,
    /// Logins whose review is requested on the pull request.
    pub requested_reviewers: Vec<String>,
    /// Logins of the authors of the reviews submitted on it.
    pub review_authors: Vec<String>,
}

/// Changed lines of a pull request: additions plus deletions, a missing count
/// taken as zero (the sum stops at the largest `u64`).
pub open spec fn lines_of(additions: Option<u64>, deletions: Option<u64>) -> u64 {
    additions.unwrap_or(0).saturating_add(deletions.unwrap_or(0))
}

/// The logins in `names`, as character sequences.
pub open spec fn names_view(names: Seq<String>) -> Seq<Seq<char>> {
    names.map_values(|s: String| s@)
}

/// `name` is one of `names`.
pub open spec fn holds_name(names: Seq<String>, name: Seq<char>) -> bool {
    exists|i: int| 0 <= i < names.len() && #[trigger] names[i]@ == name
}

/// `name` is engaged on the pull request: requested, or the author of a submitted review.
pub open spec fn engaged_on(pr: PullRequestSnapshot, name: Seq<char>) -> bool {
    holds_name(pr.requested_reviewers@, name) || holds_name(pr.review_authors@, name)
}

/// A row after the pull request `pr` was counted.
pub open spec fn updated_row(row: (Seq<char>, ReviewerWorkload), pr: PullRequestSnapshot) -> (Seq<char>, ReviewerWorkload) {
    if engaged_on(pr, row.0) {
        (row.0, bumped(row.1, lines_of(pr.additions, pr.deletions)))
    } else {
        row
    }
}

/// `after` is `before` with the pull request `pr` counted: the same logins in
/// the same order, each engaged member's load bumped once, the others unchanged.
pub open spec fn recorded(before: WorkloadTable, after: WorkloadTable, pr: PullRequestSnapshot) -> bool {
    &&& after.rows().len() == before.rows().len()
    &&& forall|i: int| 0 <= i < before.rows().len() ==> #[trigger] after.rows()[i] == updated_row(before.rows()[i], pr)
}

/// One row of the workload table.
#[derive(Debug)]
pub struct WorkloadEntry {
    /// The member's login.
    pub username: String,
    /// The member's load.
    pub load: ReviewerWorkload,
}

/// The workload of every team member, one row per distinct login, in the
/// order of first appearance in the roster.
#[derive(Debug)]
pub struct WorkloadTable {
    entries: Vec<WorkloadEntry>,
}

/// Computes the changed lines of a pull request from its reported counts.
pub fn changed_lines(additions: Option<u64>, deletions: Option<u64>) -> (r: u64)
    ensures
        r == lines_of(additions, deletions),
{
    let a: u64 = match additions {
        Some(v) => v,
        None => 0,
    };
    let d: u64 = match deletions {
        Some(v) => v,
        None => 0,
    };
    a.saturating_add(d)
}

/// The authors of a pull request's submitted reviews, from the outcome of
/// listing them: the list where the listing succeeded, none where it failed.
pub fn review_authors_or_none(outcome: Option<Vec<String>>) -> (r: Vec<String>)
    ensures
        r@ == (match outcome {
            Some(v) => v@,
            None => Seq::<String>::empty(),
        }),
{
    match outcome {
        Some(v) => v,
        None => Vec::new(),
    }
}

/// Tells whether `name` is one of `names`.
pub fn contains_name(names: &Vec<String>, name: &String) -> (r: bool)
    ensures
        r == holds_name(names@, name@),
{
    let mut i: usize = 0;
    while i < names.len()
        invariant
            0 <= i <= names@.len(),
            forall|k: int| 0 <= k < i ==> names@[k]@ != name@,
        decreases names@.len() - i,
    {
        if names[i] == *name {
            return true;
        }
        i = i + 1;
    }
    false
}

/// Some row of `rows` is that of `name`.
pub open spec fn rows_have(rows: Seq<(Seq<char>, ReviewerWorkload)>, name: Seq<char>) -> bool {
    exists|i: int| 0 <= i < rows.len() && #[trigger] rows[i].0 == name
}

impl WorkloadTable {
    /// The rows, as (login, load) pairs.
    pub closed spec fn rows(self) -> Seq<(Seq<char>, ReviewerWorkload)> {
        self.entries@.map_values(|e: WorkloadEntry| (e.username@, e.load))
    }

    /// No login has two rows.
    pub open spec fn wf(self) -> bool {
        forall|i: int, j: int|
            0 <= i < j < self.rows().len() ==> #[trigger] self.rows()[i].0 != #[trigger] self.rows()[j].0
    }

    /// `name` has a row.
    pub open spec fn has(self, name: Seq<char>) -> bool {
        rows_have(self.rows(), name)
    }

    /// The load in the row of `name` (meaningful where `has(name)`).
    pub open spec fn load_of(self, name: Seq<char>) -> ReviewerWorkload {
        self.rows()[choose|i: int| 0 <= i < self.rows().len() && #[trigger] self.rows()[i].0 == name].1
    }

    /// Finds the row of `name`.
    pub fn position(&self, name: &String) -> (r: Option<usize>)
        ensures
            r is None <==> !self.has(name@),
            r matches Some(i) ==> i < self.rows().len() && self.rows()[i as int].0 == name@,
    {
        let mut i: usize = 0;
        while i < self.entries.len()
            invariant
                0 <= i <= self.entries@.len(),
                forall|k: int| 0 <= k < i ==> #[trigger] self.rows()[k].0 != name@,
            decreases self.entries@.len() - i,
        {
            if self.entries[i].username == *name {
                proof {
                    assert(self.rows()[i as int].0 == name@);
                }
                return Some(i);
            }
            i = i + 1;
        }
        None
    }

    /// A table with a zero row for each distinct login of `roster`, in order of
    /// first appearance.
    pub fn new(roster: &Vec<String>) -> (r: WorkloadTable)
        ensures
            r.wf(),
            forall|name: Seq<char>| r.has(name) <==> holds_name(roster@, name),
            forall|i: int| 0 <= i < r.rows().len() ==> #[trigger] r.rows()[i].1 == zero_load(),
    {
        let mut t = WorkloadTable { entries: Vec::new() };
        let mut i: usize = 0;
        while i < roster.len()
            invariant
                0 <= i <= roster@.len(),
                t.wf(),
                forall|name: Seq<char>| t.has(name) <==> holds_name(roster@.subrange(0, i as int), name),
                forall|k: int| 0 <= k < t.rows().len() ==> #[trigger] t.rows()[k].1 == zero_load(),
            decreases roster@.len() - i,
        {
            let member = &roster[i];
            let found = t.position(member);
            proof {
                assert forall|name: Seq<char>|
                    holds_name(roster@.subrange(0, i + 1), name) <==> (holds_name(roster@.subrange(0, i as int), name)
                        || name == member@) by {
                    if holds_name(roster@.subrange(0, i + 1), name) {
                        let k = choose|k: int| 0 <= k < i + 1 && #[trigger] roster@.subrange(0, i + 1)[k]@ == name;
                        if k < i {
                            assert(roster@.subrange(0, i as int)[k] == roster@.subrange(0, i + 1)[k]);
                        }
                    }
                    if holds_name(roster@.subrange(0, i as int), name) {
                        let k = choose|k: int| 0 <= k < i && #[trigger] roster@.subrange(0, i as int)[k]@ == name;
                        assert(roster@.subrange(0, i + 1)[k] == roster@.subrange(0, i as int)[k]);
                    }
                    if name == member@ {
                        assert(roster@.subrange(0, i + 1)[i as int] == roster@[i as int]);
                    }
                }
            }
            if found.is_none() {
                let ghost old_t = t;
                let ghost old_rows = t.rows();
                t.entries.push(WorkloadEntry { username: member.clone(), load: ReviewerWorkload::zero() });
                proof {
                    assert(t.rows() =~= old_rows.push((member@, zero_load())));
                    assert forall|name: Seq<char>| t.has(name) <==> (rows_have(old_rows, name) || name == member@) by {
                        if t.has(name) {
                            let k = choose|k: int| 0 <= k < t.rows().len() && #[trigger] t.rows()[k].0 == name;
                            if k < old_rows.len() {
                                assert(old_rows[k].0 == name);
                            }
                        }
                        if name == member@ {
                            assert(t.rows()[old_rows.len() as int].0 == name);
                        }
                        if rows_have(old_rows, name) {
                            let k = choose|k: int| 0 <= k < old_rows.len() && #[trigger] old_rows[k].0 == name;
                            assert(t.rows()[k].0 == name);
                        }
                    }
                    assert forall|name: Seq<char>| t.has(name) <==> holds_name(roster@.subrange(0, i + 1), name) by {
                        assert(old_t.has(name) == rows_have(old_rows, name));
                    }
                }
            } else {
                assert(t.has(member@));
                assert(forall|name: Seq<char>| t.has(name) <==> holds_name(roster@.subrange(0, i + 1), name));
            }
            i = i + 1;
        }
        proof {
            assert(roster@.subrange(0, roster@.len() as int) =~= roster@);
        }
        t
    }

    /// The load of `name`, where it has a row.
    pub fn get(&self, name: &String) -> (r: Option<ReviewerWorkload>)
        requires
            self.wf(),
        ensures
            r == (if self.has(name@) { Some(self.load_of(name@)) } else { None::<ReviewerWorkload> }),
    {
        match self.position(name) {
            Some(i) => {
                proof {
                    let k = choose|k: int| 0 <= k < self.rows().len() && #[trigger] self.rows()[k].0 == name@;
                    if k != i as int {
                        if k < i as int {
                            assert(self.rows()[k].0 != self.rows()[i as int].0);
                        } else {
                            assert(self.rows()[i as int].0 != self.rows()[k].0);
                        }
                    }
                }
                Some(self.entries[i].load)
            },
            None => None,
        }
    }

    /// Counts one open pull request: every member engaged on it (requested,
    /// or author of a submitted review) gets one more open review and the pull
    /// request's changed lines, once, however often the login is listed.
    pub fn record_pull_request(&mut self, pr: &PullRequestSnapshot)
        requires
            old(self).wf(),
        ensures
            final(self).wf(),
            final(self).rows().len() == old(self).rows().len(),
            recorded(*old(self), *final(self), *pr),
    {
        let lines = changed_lines(pr.additions, pr.deletions);
        let mut i: usize = 0;
        while i < self.entries.len()
            invariant
                0 <= i <= self.entries@.len(),
                self.entries@.len() == old(self).entries@.len(),
                forall|k: int|
                    0 <= k < self.rows().len() ==> #[trigger] self.rows()[k] == (
                        if k < i && engaged_on(*pr, old(self).rows()[k].0) {
                            (old(self).rows()[k].0, bumped(old(self).rows()[k].1, lines))
                        } else {
                            old(self).rows()[k]
                        }),
            decreases self.entries@.len() - i,
        {
            let engaged = contains_name(&pr.requested_reviewers, &self.entries[i].username)
                || contains_name(&pr.review_authors, &self.entries[i].username);
            proof {
                assert(self.rows()[i as int] == old(self).rows()[i as int]);
                assert(self.rows()[i as int].0 == self.entries@[i as int].username@);
                assert(engaged == engaged_on(*pr, old(self).rows()[i as int].0));
            }
            if engaged {
                let load = self.entries[i].load;
                let ghost before = self.rows();
                self.entries[i].load = ReviewerWorkload {
                    open_prs_count: load.open_prs_count.saturating_add(1),
                    total_lines_in_review: load.total_lines_in_review.saturating_add(lines),
                };
                proof {
                    assert(self.rows()[i as int] == (before[i as int].0, bumped(before[i as int].1, lines)));
                    assert forall|k: int| 0 <= k < self.rows().len() && k != i implies #[trigger] self.rows()[k] == before[k] by {
                        assert(self.entries@[k] == old(self).entries@[k] || self.rows()[k] == before[k]);
                    }
                }
            }
            i = i + 1;
        }
        proof {
            assert(forall|k: int| 0 <= k < old(self).rows().len() ==> #[trigger] self.rows()[k] == updated_row(old(self).rows()[k], *pr));
            assert forall|a: int, b: int| 0 <= a < b < self.rows().len() implies #[trigger] self.rows()[a].0 != #[trigger] self.rows()[b].0 by {
                assert(self.rows()[a].0 == old(self).rows()[a].0);
                assert(self.rows()[b].0 == old(self).rows()[b].0);
            }
        }
    }
}

} // verus!
