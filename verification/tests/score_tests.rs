use veloinfo::score::{
    average_score, categorize, latest_score, shared_score, Category, ScoreReport,
};

fn report(score: u32, way_ids: Vec<i64>, created_at: i64) -> ScoreReport {
    ScoreReport { score, way_ids, created_at, comment: None, photo_id: None }
}

#[test]
fn average_and_latest_diverge_on_the_same_fixtures() {
    // Two reports for the same way at different timestamps: the cost
    // model's aggregate is the average, a display's current score is
    // only the most recent.
    let reports = vec![
        report(9_000, vec![7], 100),
        report(3_000, vec![7], 200),
    ];
    assert_eq!(average_score(&reports, 7), Some(6_000));
    assert_eq!(latest_score(&reports, 7), Some(3_000));
}

#[test]
fn aggregates_ignore_reports_for_other_ways() {
    let reports = vec![
        report(1_000, vec![1, 2], 10),
        report(5_000, vec![3], 20),
        report(3_000, vec![2, 1], 30),
    ];
    assert_eq!(average_score(&reports, 1), Some(2_000));
    assert_eq!(latest_score(&reports, 1), Some(3_000));
    assert_eq!(average_score(&reports, 3), Some(5_000));
    assert_eq!(latest_score(&reports, 3), Some(5_000));
}

#[test]
fn no_report_means_no_score() {
    let reports = vec![report(9_000, vec![7], 100)];
    assert_eq!(average_score(&reports, 8), None);
    assert_eq!(latest_score(&reports, 8), None);
    let empty: Vec<ScoreReport> = vec![];
    assert_eq!(average_score(&empty, 7), None);
    assert_eq!(latest_score(&empty, 7), None);
}

#[test]
fn latest_keeps_the_first_of_equally_recent_reports() {
    let reports = vec![
        report(4_000, vec![7], 100),
        report(8_000, vec![7], 100),
    ];
    assert_eq!(latest_score(&reports, 7), Some(4_000));
}

#[test]
fn categories_follow_the_thresholds() {
    assert_eq!(categorize(0), Category::Closed);
    assert_eq!(categorize(1), Category::Dangerous);
    assert_eq!(categorize(3_400), Category::Dangerous);
    assert_eq!(categorize(3_401), Category::Problems);
    assert_eq!(categorize(6_700), Category::Problems);
    assert_eq!(categorize(6_701), Category::Good);
    assert_eq!(categorize(10_000), Category::Good);
}

#[test]
fn shared_score_requires_agreement() {
    assert_eq!(shared_score(&vec![Some(5_000), Some(5_000)]), Some(5_000));
    assert_eq!(shared_score(&vec![Some(5_000), Some(4_000)]), None);
    assert_eq!(shared_score(&vec![Some(5_000), None]), None);
    assert_eq!(shared_score(&vec![None, None]), None);
    assert_eq!(shared_score(&vec![]), None);
    assert_eq!(shared_score(&vec![Some(2_000)]), Some(2_000));
}
