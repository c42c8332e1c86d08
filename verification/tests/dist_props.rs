use srs_forecast::dist::{ModelError, ReviewResultProbability, StageProbabilityDistribution};
use srs_forecast::model::{Review, Srs, Stage};

fn review(start: Stage, end: Stage) -> Review {
    Review { srs: Srs::Normal, start_stage: start, end_stage: end }
}

#[test]
fn new_sums_weights() {
    let d = StageProbabilityDistribution::new(vec![(Stage::Guru1, 2), (Stage::Master, 3)]);
    assert_eq!(d.total, 5);
    assert!(!d.is_empty());
    let empty = StageProbabilityDistribution::new(vec![]);
    assert_eq!(empty.total, 0);
    assert!(empty.is_empty());
}

#[test]
fn sample_from_singleton_is_exact() {
    // If the random draw were not reduced below the total weight,
    // the scan would fall off the end and produce nothing.
    let d = StageProbabilityDistribution::new(vec![(Stage::Guru2, 7)]);
    for _ in 0..20 {
        assert_eq!(d.sample(), Some(Stage::Guru2));
    }
}

#[test]
fn buckets_partition_the_weight_range() {
    let d = StageProbabilityDistribution::new(vec![(Stage::Guru1, 2), (Stage::Master, 3)]);
    assert_eq!(d.stage_at_weight(0), Stage::Guru1);
    assert_eq!(d.stage_at_weight(1), Stage::Guru1);
    assert_eq!(d.stage_at_weight(2), Stage::Master);
    assert_eq!(d.stage_at_weight(3), Stage::Master);
    assert_eq!(d.stage_at_weight(4), Stage::Master);
}

#[test]
fn sample_from_empty_is_none() {
    let d = StageProbabilityDistribution::new(vec![]);
    assert_eq!(d.sample(), None);
}

#[test]
fn sample_stays_in_support() {
    let d = StageProbabilityDistribution::new(vec![(Stage::Apprentice2, 1), (Stage::Guru1, 3)]);
    for _ in 0..50 {
        let s = d.sample().unwrap();
        assert!(s == Stage::Apprentice2 || s == Stage::Guru1);
        assert!(s.index() <= 9);
    }
}

#[test]
fn shift_moves_stages_and_keeps_weights() {
    let d = StageProbabilityDistribution::new(vec![(Stage::Guru1, 2), (Stage::Master, 3)]);
    let s = d.shift(3);
    assert_eq!(s.total, 5);
    assert_eq!(s.stage_probs, vec![(Stage::Enlightened, 2), (Stage::Burned, 3)]);
    let down = d.shift(-9);
    assert_eq!(down.stage_probs, vec![(Stage::Initiate, 2), (Stage::Initiate, 3)]);
    assert_eq!(down.total, 5);
}

#[test]
fn empty_history_is_rejected() {
    let reviews: Vec<Review> = vec![];
    assert_eq!(
        ReviewResultProbability::new(&reviews).err(),
        Some(ModelError::NoReviewData)
    );
}

#[test]
fn observed_row_is_sampled_exactly() {
    let reviews = vec![review(Stage::Apprentice1, Stage::Apprentice2)];
    let m = ReviewResultProbability::new(&reviews).unwrap();
    for _ in 0..10 {
        assert_eq!(m.sample_for(Stage::Apprentice1), Some(Stage::Apprentice2));
    }
}

#[test]
fn extrapolated_rows_are_shifted_copies() {
    // Only start stage 1 is observed (ending at stage 2), so every
    // start stage above it, bar the terminal one, gets that row
    // shifted by its offset and clamped.
    let reviews = vec![review(Stage::Apprentice1, Stage::Apprentice2)];
    let m = ReviewResultProbability::new(&reviews).unwrap();
    // Start stage 5 sits 4 above the observed one: 2 + 4 = 6.
    assert_eq!(m.sample_for(Stage::Guru1), Some(Stage::Guru2));
    // Start stage 8 sits 7 above: 2 + 7 = 9.
    assert_eq!(m.sample_for(Stage::Enlightened), Some(Stage::Burned));
    // Start stage 2: 2 + 1 = 3, with the single weight kept.
    assert_eq!(m.sample_for(Stage::Apprentice2), Some(Stage::Apprentice3));
    // The terminal row is never synthesized.
    assert_eq!(m.sample_for(Stage::Burned), None);
    assert!(m.covers_active());
}

#[test]
fn rows_below_last_observed_are_not_synthesized() {
    // Data only at start stage 5: lower stages keep their empty
    // rows, so the model does not cover all active stages.
    let reviews = vec![review(Stage::Guru1, Stage::Guru2)];
    let m = ReviewResultProbability::new(&reviews).unwrap();
    assert_eq!(m.sample_for(Stage::Apprentice1), None);
    assert_eq!(m.sample_for(Stage::Guru2), Some(Stage::Master));
    assert!(!m.covers_active());
}

#[test]
fn weights_follow_tallies() {
    let reviews = vec![
        review(Stage::Apprentice1, Stage::Apprentice2),
        review(Stage::Apprentice1, Stage::Apprentice2),
        review(Stage::Apprentice1, Stage::Initiate),
    ];
    let m = ReviewResultProbability::new(&reviews).unwrap();
    let row = &m.by_prev_stage[1];
    assert_eq!(row.total, 3);
    assert_eq!(
        row.stage_probs,
        vec![(Stage::Initiate, 1), (Stage::Apprentice2, 2)]
    );
}

#[test]
fn sampled_stages_are_always_in_range() {
    let reviews = vec![
        review(Stage::Apprentice1, Stage::Apprentice2),
        review(Stage::Apprentice2, Stage::Apprentice1),
        review(Stage::Guru1, Stage::Burned),
    ];
    let m = ReviewResultProbability::new(&reviews).unwrap();
    for s in 0u8..10 {
        let start = Stage::from_index(s).unwrap();
        for _ in 0..10 {
            if let Some(end) = m.sample_for(start) {
                assert!(end.index() <= 9);
            }
        }
    }
}
