//! Community cyclability reports and their aggregation.
//!
//! A report rates one or more contiguous ways as a single logical
//! segment, with a score in fixed-point ten-thousandths of one (zero
//! is impassable, one whole unit is excellent).  Two different
//! aggregates are read from the same reports and must not be
//! confused: the cost model consumes the *average* over all recorded
//! reports for a way, while a display of the "current score" uses
//! only the *most recent* report.

use vstd::prelude::*;

verus! {

use crate::cost::SCORE_SCALE;

/// Most reports the aggregator accepts in one batch; keeps every sum
/// comfortably inside a machine word.
pub const MAX_REPORTS: u64 = 1_000_000_000;

/// One community report: a score for a set of ways, at a creation
/// time.
#[derive(Clone, Debug)]
pub struct ScoreReport {
    /// The reported score, in ten-thousandths of one.
    pub score: u32,
    /// The ways this report covers, treated as one logical segment.
    pub way_ids: Vec<i64>,
    /// Creation time, as seconds since an arbitrary epoch.
    pub created_at: i64,
    /// An optional free-text comment.
    pub comment: Option<String>,
    /// An optional photo reference.
    pub photo_id: Option<i32>,
}

/// A report the aggregator accepts: its score is within one whole
/// unit.
pub open spec fn report_in_range(r: ScoreReport) -> bool {
    r.score <= SCORE_SCALE
}

/// Every report of the batch is within range.
pub open spec fn reports_in_range(rs: Seq<ScoreReport>) -> bool {
    forall|i: int| 0 <= i < rs.len() ==> report_in_range(#[trigger] rs[i])
}

/// The report covers the given way.
pub open spec fn spec_applies(r: ScoreReport, way_id: i64) -> bool {
    r.way_ids@.contains(way_id)
}

/// The most recent report covering the way, scanning left to right
/// and keeping the first of equally recent reports.
pub open spec fn spec_latest(rs: Seq<ScoreReport>, way_id: i64) -> Option<ScoreReport>
    decreases rs.len(),
{
    if rs.len() == 0 {
        None
    } else {
        let last = rs.last();
        match spec_latest(rs.drop_last(), way_id) {
            None => if spec_applies(last, way_id) {
                Some(last)
            } else {
                None
            },
            Some(best) => if spec_applies(last, way_id) && last.created_at > best.created_at {
                Some(last)
            } else {
                Some(best)
            },
        }
    }
}

/// The score of the most recent report covering the way: what a
/// "current score" display shows.
pub open spec fn spec_latest_score(rs: Seq<ScoreReport>, way_id: i64) -> Option<u32> {
    match spec_latest(rs, way_id) {
        None => None,
        Some(r) => Some(r.score),
    }
}

/// The sum of the scores of the reports covering the way.
pub open spec fn spec_applying_sum(rs: Seq<ScoreReport>, way_id: i64) -> nat
    decreases rs.len(),
{
    if rs.len() == 0 {
        0
    } else {
        spec_applying_sum(rs.drop_last(), way_id) + if spec_applies(rs.last(), way_id) {
            rs.last().score as nat
        } else {
            0
        }
    }
}

/// How many reports cover the way.
pub open spec fn spec_applying_count(rs: Seq<ScoreReport>, way_id: i64) -> nat
    decreases rs.len(),
{
    if rs.len() == 0 {
        0
    } else {
        spec_applying_count(rs.drop_last(), way_id) + if spec_applies(rs.last(), way_id) {
            1nat
        } else {
            0
        }
    }
}

/// The average score over all reports covering the way, rounded
/// down: what the cost model consumes.
pub open spec fn spec_average_score(rs: Seq<ScoreReport>, way_id: i64) -> Option<u32> {
    if spec_applying_count(rs, way_id) == 0 {
        None
    } else {
        Some((spec_applying_sum(rs, way_id) / spec_applying_count(rs, way_id)) as u32)
    }
}

/// Whether the report covers the given way.
pub fn applies(r: &ScoreReport, way_id: i64) -> (b: bool)
    ensures
        b == spec_applies(*r, way_id),
{
    let mut i: usize = 0;
    while i < r.way_ids.len()
        invariant
            0 <= i <= r.way_ids@.len(),
            forall|j: int| 0 <= j < i ==> r.way_ids@[j] != way_id,
        decreases r.way_ids@.len() - i,
    {
        if r.way_ids[i] == way_id {
            return true;
        }
        i = i + 1;
    }
    false
}

/// The score a "current score" display shows for the way: the score
/// of the most recent report covering it, or nothing when no report
/// does.
pub fn latest_score(reports: &Vec<ScoreReport>, way_id: i64) -> (r: Option<u32>)
    ensures
        r == spec_latest_score(reports@, way_id),
{
    let mut best: Option<(u32, i64)> = None;
    let mut i: usize = 0;
    while i < reports.len()
        invariant
            0 <= i <= reports@.len(),
            match spec_latest(reports@.take(i as int), way_id) {
                None => best is None,
                Some(b) => best == Some((b.score, b.created_at)),
            },
        decreases reports@.len() - i,
    {
        proof {
            assert(reports@.take(i + 1).drop_last() =~= reports@.take(i as int));
            assert(reports@.take(i + 1).last() == reports@[i as int]);
        }
        if applies(&reports[i], way_id) {
            let newer = match best {
                None => true,
                Some((_, at)) => reports[i].created_at > at,
            };
            if newer {
                best = Some((reports[i].score, reports[i].created_at));
            }
        }
        i = i + 1;
    }
    assert(reports@.take(reports@.len() as int) =~= reports@);
    match best {
        None => None,
        Some((s, _)) => Some(s),
    }
}

/// The aggregate the cost model consumes for the way: the average
/// over all recorded reports covering it, or nothing when no report
/// does.  This is not the "current score" a display shows.
pub fn average_score(reports: &Vec<ScoreReport>, way_id: i64) -> (r: Option<u32>)
    requires
        reports_in_range(reports@),
        reports@.len() <= MAX_REPORTS,
    ensures
        r == spec_average_score(reports@, way_id),
{
    let mut sum: u64 = 0;
    let mut count: u64 = 0;
    let mut i: usize = 0;
    while i < reports.len()
        invariant
            0 <= i <= reports@.len() <= MAX_REPORTS,
            reports_in_range(reports@),
            sum == spec_applying_sum(reports@.take(i as int), way_id),
            count == spec_applying_count(reports@.take(i as int), way_id),
            count <= i,
            sum <= count * (SCORE_SCALE as nat),
        decreases reports@.len() - i,
    {
        proof {
            assert(reports@.take(i + 1).drop_last() =~= reports@.take(i as int));
            assert(reports@.take(i + 1).last() == reports@[i as int]);
            assert((count + 1) * (SCORE_SCALE as nat) == count * (SCORE_SCALE as nat)
                + SCORE_SCALE);
        }
        if applies(&reports[i], way_id) {
            sum = sum + reports[i].score as u64;
            count = count + 1;
        }
        i = i + 1;
    }
    assert(reports@.take(reports@.len() as int) =~= reports@);
    if count == 0 {
        None
    } else {
        let avg = sum / count;
        proof {
            vstd::arithmetic::div_mod::lemma_div_is_ordered_by_denominator(
                sum as int,
                1,
                count as int,
            );
            vstd::arithmetic::div_mod::lemma_fundamental_div_mod(sum as int, 1);
        }
        Some(avg as u32)
    }
}

// ---------------------------------------------------------------------------
// Score categories.
// ---------------------------------------------------------------------------

/// The coarse quality category a score falls in.
#[derive(Clone, Copy, PartialEq, Eq, Structural, Debug)]
pub enum Category {
    /// Comfortable riding.
    Good,
    /// Rideable with problems.
    Problems,
    /// Dangerous riding.
    Dangerous,
    /// Closed or impassable.
    Closed,
}

/// The category a score falls in: zero is closed, then the thirds of
/// the scale.
pub open spec fn spec_categorize(score: u32) -> Category {
    if score == 0 {
        Category::Closed
    } else if score <= 3400 {
        Category::Dangerous
    } else if score <= 6700 {
        Category::Problems
    } else {
        Category::Good
    }
}

/// Sorts a score into its coarse quality category.
pub fn categorize(score: u32) -> (c: Category)
    ensures
        c == spec_categorize(score),
{
    if score == 0 {
        Category::Closed
    } else if score <= 3400 {
        Category::Dangerous
    } else if score <= 6700 {
        Category::Problems
    } else {
        Category::Good
    }
}

/// The score a multi-way selection shows: the common score when every
/// way agrees, and nothing (unknown) when the ways disagree or there
/// are none.
pub fn shared_score(scores: &Vec<Option<u32>>) -> (r: Option<u32>)
    ensures
        r == (if scores@.len() > 0 && (forall|i: int|
            0 <= i < scores@.len() ==> #[trigger] scores@[i] == scores@[0]) {
            scores@[0]
        } else {
            None
        }),
{
    if scores.len() == 0 {
        return None;
    }
    let first = scores[0];
    let mut i: usize = 1;
    while i < scores.len()
        invariant
            1 <= i <= scores@.len(),
            first == scores@[0],
            forall|j: int| 0 <= j < i ==> #[trigger] scores@[j] == scores@[0],
        decreases scores@.len() - i,
    {
        let same = match (scores[i], first) {
            (Some(a), Some(b)) => a == b,
            (None, None) => true,
            _ => false,
        };
        if !same {
            return None;
        }
        i = i + 1;
    }
    first
}

} // verus!
