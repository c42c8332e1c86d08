use srs_forecast::model::{Srs, Stage, SubjectKind, MAX_LEVEL, NUM_STAGES};

#[test]
fn stage_indices_round_trip() {
    for i in 0u8..10 {
        let s = Stage::from_index(i).unwrap();
        assert_eq!(s.index(), i);
    }
    assert!(Stage::from_index(10).is_none());
    assert!(Stage::from_index(255).is_none());
    assert_eq!(NUM_STAGES, 10);
    assert_eq!(MAX_LEVEL, 60);
}

#[test]
fn passing_threshold_is_first_guru_stage() {
    assert!(!Stage::Initiate.is_passing());
    assert!(!Stage::Apprentice1.is_passing());
    assert!(!Stage::Apprentice4.is_passing());
    assert!(Stage::Guru1.is_passing());
    assert!(Stage::Guru2.is_passing());
    assert!(Stage::Master.is_passing());
    assert!(Stage::Enlightened.is_passing());
    assert!(Stage::Burned.is_passing());
}

#[test]
fn normal_intervals() {
    let s = Srs::Normal;
    assert_eq!(s.hours_to_next_review(Stage::Initiate), None);
    assert_eq!(s.hours_to_next_review(Stage::Apprentice1), Some(4));
    assert_eq!(s.hours_to_next_review(Stage::Apprentice2), Some(8));
    assert_eq!(s.hours_to_next_review(Stage::Apprentice3), Some(23));
    assert_eq!(s.hours_to_next_review(Stage::Apprentice4), Some(47));
    assert_eq!(s.hours_to_next_review(Stage::Guru1), Some(167));
    assert_eq!(s.hours_to_next_review(Stage::Guru2), Some(335));
    assert_eq!(s.hours_to_next_review(Stage::Master), Some(719));
    assert_eq!(s.hours_to_next_review(Stage::Enlightened), Some(2879));
    assert_eq!(s.hours_to_next_review(Stage::Burned), None);
}

#[test]
fn accelerated_intervals_differ_only_below_passing() {
    let a = Srs::Accelerated;
    assert_eq!(a.hours_to_next_review(Stage::Initiate), None);
    assert_eq!(a.hours_to_next_review(Stage::Apprentice1), Some(2));
    assert_eq!(a.hours_to_next_review(Stage::Apprentice2), Some(4));
    assert_eq!(a.hours_to_next_review(Stage::Apprentice3), Some(8));
    assert_eq!(a.hours_to_next_review(Stage::Apprentice4), Some(23));
    // Passing-and-above intervals are identical across variants.
    for stage in [Stage::Guru1, Stage::Guru2, Stage::Master, Stage::Enlightened, Stage::Burned] {
        assert_eq!(
            a.hours_to_next_review(stage),
            Srs::Normal.hours_to_next_review(stage)
        );
    }
}

#[test]
fn srs_codes() {
    assert_eq!(Srs::from_code(1), Some(Srs::Normal));
    assert_eq!(Srs::from_code(2), Some(Srs::Accelerated));
    assert_eq!(Srs::from_code(0), None);
    assert_eq!(Srs::from_code(3), None);
}

#[test]
fn kind_names_decode() {
    assert_eq!(SubjectKind::from_name("radical"), Some(SubjectKind::Radical));
    assert_eq!(SubjectKind::from_name("kanji"), Some(SubjectKind::Kanji));
    assert_eq!(
        SubjectKind::from_name("vocabulary"),
        Some(SubjectKind::Vocabulary)
    );
    assert_eq!(SubjectKind::from_name(""), None);
    assert_eq!(SubjectKind::from_name("kanji "), None);
    assert_eq!(SubjectKind::from_name("Kanji"), None);
}

#[test]
fn kinds_are_distinct() {
    assert_ne!(SubjectKind::Radical, SubjectKind::Kanji);
    assert_ne!(SubjectKind::Kanji, SubjectKind::Vocabulary);
}
