use srs_forecast::catalog::{load_subjects, subjects_with_level, CatalogError};
use srs_forecast::dist::ReviewResultProbability;
use srs_forecast::model::{Assignment, Review, Srs, Stage, Subject, SubjectID, SubjectKind};
use srs_forecast::sim::{SimError, Simulator, SubjectState};

fn subject(
    id: u16,
    level: u8,
    kind: SubjectKind,
    depends_on: Vec<u16>,
    depended_on_by: Vec<u16>,
) -> Subject {
    Subject {
        id: SubjectID(id),
        level,
        kind,
        depends_on: depends_on.into_iter().map(SubjectID).collect(),
        depended_on_by: depended_on_by.into_iter().map(SubjectID).collect(),
        srs: Srs::Normal,
    }
}

/// A review history that deterministically maps every start stage to
/// the next stage.
fn next_stage_reviews() -> Vec<Review> {
    let mut reviews = Vec::new();
    for s in 1u8..=8 {
        reviews.push(Review {
            srs: Srs::Normal,
            start_stage: Stage::from_index(s).unwrap(),
            end_stage: Stage::from_index(s + 1).unwrap(),
        });
    }
    reviews
}

fn assignment(id: u16, stage: Stage, time: Option<i64>) -> Assignment {
    Assignment { subject_id: SubjectID(id), stage, next_review_time: time }
}

#[test]
fn catalog_rejects_bad_snapshots() {
    let dup = vec![
        subject(1, 1, SubjectKind::Kanji, vec![], vec![]),
        subject(1, 2, SubjectKind::Kanji, vec![], vec![]),
    ];
    assert_eq!(load_subjects(dup).err(), Some(CatalogError::DuplicateSubject));
    let dangling = vec![subject(1, 1, SubjectKind::Vocabulary, vec![2], vec![])];
    assert_eq!(
        load_subjects(dangling).err(),
        Some(CatalogError::DanglingReference)
    );
    let out_of_range = vec![subject(1, 0, SubjectKind::Kanji, vec![], vec![])];
    assert_eq!(
        load_subjects(out_of_range).err(),
        Some(CatalogError::LevelOutOfRange)
    );
    let too_high = vec![subject(1, 61, SubjectKind::Kanji, vec![], vec![])];
    assert_eq!(
        load_subjects(too_high).err(),
        Some(CatalogError::LevelOutOfRange)
    );
}

#[test]
fn subjects_with_level_filters() {
    let cat = load_subjects(vec![
        subject(1, 1, SubjectKind::Kanji, vec![], vec![]),
        subject(2, 2, SubjectKind::Kanji, vec![], vec![]),
        subject(3, 1, SubjectKind::Vocabulary, vec![], vec![]),
    ])
    .unwrap();
    assert_eq!(subjects_with_level(&cat, 1), vec![SubjectID(1), SubjectID(3)]);
    assert_eq!(subjects_with_level(&cat, 2), vec![SubjectID(2)]);
    assert_eq!(subjects_with_level(&cat, 3), vec![]);
}

#[test]
fn newly_unlocked_state() {
    let st = SubjectState::newly_unlocked(17);
    assert_eq!(st.stage, Stage::Apprentice1);
    assert_eq!(st.next_review_time, Some(17));
}

#[test]
fn initialization_errors() {
    let reviews = next_stage_reviews();
    let model = ReviewResultProbability::new(&reviews).unwrap();
    let cat = load_subjects(vec![subject(1, 1, SubjectKind::Kanji, vec![], vec![])]).unwrap();

    let none: Vec<Assignment> = vec![];
    assert_eq!(
        Simulator::new(&model, &cat, &none).err(),
        Some(SimError::NoUnlockedSubjects)
    );

    let no_time = vec![assignment(1, Stage::Initiate, None)];
    assert_eq!(
        Simulator::new(&model, &cat, &no_time).err(),
        Some(SimError::NoAvailableReviews)
    );

    let unknown = vec![assignment(9, Stage::Apprentice1, Some(100))];
    assert_eq!(
        Simulator::new(&model, &cat, &unknown).err(),
        Some(SimError::UnknownSubject)
    );

    let dup = vec![
        assignment(1, Stage::Apprentice1, Some(100)),
        assignment(1, Stage::Apprentice2, Some(200)),
    ];
    assert_eq!(
        Simulator::new(&model, &cat, &dup).err(),
        Some(SimError::DuplicateAssignment)
    );

    // A never-started subject cannot carry an availability time, a
    // started one must, and a retired one has none to carry.
    let started_initiate = vec![assignment(1, Stage::Initiate, Some(100))];
    assert_eq!(
        Simulator::new(&model, &cat, &started_initiate).err(),
        Some(SimError::InconsistentAssignment)
    );
    let with_origin = load_subjects(vec![
        subject(1, 1, SubjectKind::Kanji, vec![], vec![]),
        subject(2, 1, SubjectKind::Kanji, vec![], vec![]),
    ])
    .unwrap();
    let unstarted_apprentice = vec![
        assignment(2, Stage::Apprentice1, Some(100)),
        assignment(1, Stage::Apprentice2, None),
    ];
    assert_eq!(
        Simulator::new(&model, &with_origin, &unstarted_apprentice).err(),
        Some(SimError::InconsistentAssignment)
    );
    let scheduled_burned = vec![assignment(1, Stage::Burned, Some(100))];
    assert_eq!(
        Simulator::new(&model, &cat, &scheduled_burned).err(),
        Some(SimError::InconsistentAssignment)
    );

    let cat2 = load_subjects(vec![
        subject(1, 1, SubjectKind::Kanji, vec![], vec![]),
        subject(2, 1, SubjectKind::Kanji, vec![], vec![]),
    ])
    .unwrap();
    let spread = vec![
        assignment(1, Stage::Apprentice1, Some(0)),
        assignment(2, Stage::Apprentice1, Some(5_000_000_000)),
    ];
    assert_eq!(
        Simulator::new(&model, &cat2, &spread).err(),
        Some(SimError::TimeSpanTooLarge)
    );

    // A model with empty rows below the last observed stage cannot
    // drive the simulation.
    let sparse = vec![Review {
        srs: Srs::Normal,
        start_stage: Stage::Guru1,
        end_stage: Stage::Guru2,
    }];
    let gap_model = ReviewResultProbability::new(&sparse).unwrap();
    let a = vec![assignment(1, Stage::Apprentice1, Some(100))];
    assert_eq!(
        Simulator::new(&gap_model, &cat, &a).err(),
        Some(SimError::UncoveredStage)
    );
}

#[test]
fn origin_is_the_earliest_hour() {
    let reviews = next_stage_reviews();
    let model = ReviewResultProbability::new(&reviews).unwrap();
    let cat = load_subjects(vec![
        subject(1, 1, SubjectKind::Kanji, vec![], vec![]),
        subject(2, 1, SubjectKind::Kanji, vec![], vec![]),
    ])
    .unwrap();
    let assignments = vec![
        assignment(1, Stage::Apprentice3, Some(1000)),
        assignment(2, Stage::Guru1, Some(1007)),
    ];
    let sim = Simulator::new(&model, &cat, &assignments).unwrap();
    assert_eq!(sim.cur_step, 0);
    assert_eq!(sim.cur_level, 1);
    assert_eq!(
        sim.subject_states.get(&1).copied(),
        Some(SubjectState { stage: Stage::Apprentice3, next_review_time: Some(0) })
    );
    assert_eq!(
        sim.subject_states.get(&2).copied(),
        Some(SubjectState { stage: Stage::Guru1, next_review_time: Some(7) })
    );
}

/// One subject with no prerequisites advances one stage per review
/// until it retires, then never reappears in any due set.
#[test]
fn single_subject_runs_to_retirement() {
    let reviews = next_stage_reviews();
    let model = ReviewResultProbability::new(&reviews).unwrap();
    let cat = load_subjects(vec![subject(1, 1, SubjectKind::Vocabulary, vec![], vec![])]).unwrap();
    let assignments = vec![assignment(1, Stage::Apprentice1, Some(50))];
    let mut sim = Simulator::new(&model, &cat, &assignments).unwrap();

    let mut total_reviews = 0u32;
    let mut last_stage_idx = 1u8;
    for _ in 0..5000 {
        let n = sim.step();
        let st = sim.subject_states.get(&1).unwrap();
        // The stage never moves backwards under the next-stage model.
        assert!(st.stage.index() >= last_stage_idx);
        last_stage_idx = st.stage.index();
        total_reviews += n;
    }
    // Eight transitions take the subject from the first in-training
    // stage to retirement.
    assert_eq!(total_reviews, 8);
    let st = sim.subject_states.get(&1).unwrap();
    assert_eq!(st.stage, Stage::Burned);
    assert_eq!(st.next_review_time, None);
    // Never rescheduled: the queue holds no entry for it.
    assert!(sim.review_queue.iter().all(|e| e.1 != 1));
    // And no later step reviews anything.
    for _ in 0..100 {
        assert_eq!(sim.step(), 0);
    }
}

/// A dependent subject stays locked until its prerequisite reaches a
/// passing stage, and is then unlocked at that very step.
#[test]
fn dependent_unlocks_when_prerequisite_passes() {
    let reviews = next_stage_reviews();
    let model = ReviewResultProbability::new(&reviews).unwrap();
    let cat = load_subjects(vec![
        subject(1, 1, SubjectKind::Kanji, vec![], vec![2]),
        subject(2, 1, SubjectKind::Vocabulary, vec![1], vec![]),
    ])
    .unwrap();
    // The prerequisite is reviewed at steps 0, 8, 31 and 78,
    // reaching the first passing stage at step 78.
    let assignments = vec![assignment(1, Stage::Apprentice1, Some(3600))];
    let mut sim = Simulator::new(&model, &cat, &assignments).unwrap();

    for step in 0..200u32 {
        assert_eq!(sim.cur_step, step);
        let a_passing = sim
            .subject_states
            .get(&1)
            .map(|st| st.stage.is_passing())
            .unwrap_or(false);
        let b_unlocked = sim.subject_states.contains_key(&2);
        assert_eq!(a_passing, b_unlocked);
        if step <= 78 {
            assert!(!b_unlocked);
        }
        sim.step();
    }
    // The dependent was unlocked at the step of the transition and
    // reviewed immediately there.
    assert!(sim.subject_states.contains_key(&2));
    assert!(sim.subject_states.get(&1).unwrap().stage.is_passing());
}

/// With ten gating subjects, passing eight must not advance the
/// level; passing the ninth advances it exactly once.
#[test]
fn level_gate_requires_nine_of_ten() {
    let reviews = next_stage_reviews();
    let model = ReviewResultProbability::new(&reviews).unwrap();
    let mut subjects = Vec::new();
    for id in 1u16..=10 {
        subjects.push(subject(id, 1, SubjectKind::Kanji, vec![], vec![]));
    }
    // Two gating subjects at the next level keep its own gate shut
    // after the advance.
    subjects.push(subject(11, 2, SubjectKind::Kanji, vec![], vec![]));
    subjects.push(subject(12, 2, SubjectKind::Kanji, vec![], vec![]));
    let cat = load_subjects(subjects).unwrap();

    // Nine subjects one review away from passing, due one hour
    // apart; the tenth stays far in the future.
    let mut assignments = Vec::new();
    for id in 1u16..=9 {
        assignments.push(assignment(id, Stage::Apprentice4, Some(7200 + (id as i64 - 1))));
    }
    assignments.push(assignment(10, Stage::Apprentice1, Some(7200 + 100_000)));
    let mut sim = Simulator::new(&model, &cat, &assignments).unwrap();
    assert_eq!(sim.cur_level, 1);

    // Steps 0..=7 pass the first eight: no advance.
    for _ in 0..8 {
        sim.step();
        assert_eq!(sim.cur_level, 1);
    }
    // The ninth passes at step 8: exactly one advance.
    sim.step();
    assert_eq!(sim.cur_level, 2);
    // The new level's subjects were unlocked at that step and
    // reviewed at once, one stage up from newly unlocked.
    for id in [11u16, 12] {
        let st = sim.subject_states.get(&id).unwrap();
        assert_eq!(st.stage, Stage::Apprentice2);
    }
    // Their gate (none of two passing) keeps the level put.
    for _ in 0..5 {
        sim.step();
        assert_eq!(sim.cur_level, 2);
    }
}

/// The ninety-percent threshold uses the floor: eleven gating
/// subjects also need only nine passing.
#[test]
fn level_gate_floor_examples() {
    let reviews = next_stage_reviews();
    let model = ReviewResultProbability::new(&reviews).unwrap();
    let mut subjects = Vec::new();
    for id in 1u16..=11 {
        subjects.push(subject(id, 1, SubjectKind::Kanji, vec![], vec![]));
    }
    let cat = load_subjects(subjects).unwrap();

    // Nine of eleven already passing, all scheduled far ahead.
    let mut assignments = Vec::new();
    for id in 1u16..=9 {
        assignments.push(assignment(id, Stage::Guru1, Some(500_000 + id as i64)));
    }
    assignments.push(assignment(10, Stage::Apprentice1, Some(500_000)));
    assignments.push(assignment(11, Stage::Apprentice1, Some(500_000)));
    let sim = Simulator::new(&model, &cat, &assignments).unwrap();
    assert!(sim.passed_current_level());

    // Eight of eleven is not enough.
    let mut fewer = Vec::new();
    for id in 1u16..=8 {
        fewer.push(assignment(id, Stage::Guru1, Some(500_000 + id as i64)));
    }
    fewer.push(assignment(9, Stage::Apprentice1, Some(500_000)));
    fewer.push(assignment(10, Stage::Apprentice1, Some(500_000)));
    fewer.push(assignment(11, Stage::Apprentice1, Some(500_000)));
    let sim2 = Simulator::new(&model, &cat, &fewer).unwrap();
    assert!(!sim2.passed_current_level());
}

/// Unlocking is monotonic and the level never decreases across a
/// long run with a branching dependency graph.
#[test]
fn unlocks_and_level_are_monotonic() {
    let reviews = next_stage_reviews();
    let model = ReviewResultProbability::new(&reviews).unwrap();
    let cat = load_subjects(vec![
        subject(1, 1, SubjectKind::Kanji, vec![], vec![3]),
        subject(2, 1, SubjectKind::Kanji, vec![], vec![3]),
        subject(3, 1, SubjectKind::Vocabulary, vec![1, 2], vec![]),
        subject(4, 2, SubjectKind::Kanji, vec![], vec![]),
        subject(5, 2, SubjectKind::Kanji, vec![], vec![]),
    ])
    .unwrap();
    let assignments = vec![
        assignment(1, Stage::Apprentice4, Some(100)),
        assignment(2, Stage::Apprentice2, Some(100)),
    ];
    let mut sim = Simulator::new(&model, &cat, &assignments).unwrap();

    let mut unlocked: Vec<u16> = sim.subject_states.keys().copied().collect();
    let mut level = sim.cur_level;
    for _ in 0..500 {
        sim.step();
        // Once unlocked, never removed.
        for id in &unlocked {
            assert!(sim.subject_states.contains_key(id));
        }
        unlocked = sim.subject_states.keys().copied().collect();
        // The level never decreases.
        assert!(sim.cur_level >= level);
        level = sim.cur_level;
    }
    // Subject 3 waits for both prerequisites to pass.
    assert!(sim.subject_states.contains_key(&3));
}
