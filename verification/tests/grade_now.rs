use anki_scheduler::grade_now::grade_now_plan;
use anki_scheduler::grade_now::GradeNowError;
use anki_scheduler::grade_now::GradeNowRating;
use anki_scheduler::grade_now::GradeNowStep;
use anki_scheduler::params_progress::batch_preset_progress;
use anki_scheduler::params_progress::batch_progress_start;
use anki_scheduler::params_progress::update_batch_progress;
use anki_scheduler::params_progress::BatchJobProgress;
use anki_scheduler::params_progress::ComputeParamsProgressPhase;

#[test]
fn grade_now_uses_the_last_options_of_each_card_once() {
    let plan = grade_now_plan(&vec![7, 8, 7], &vec![(7, false), (8, true), (7, true)], 2, false).unwrap();
    assert_eq!(
        plan,
        vec![
            GradeNowStep { card_id: 7, options: Some(2), states_supplied: true, rating: GradeNowRating::Good },
            GradeNowStep { card_id: 8, options: Some(1), states_supplied: true, rating: GradeNowRating::Good },
            GradeNowStep { card_id: 7, options: None, states_supplied: false, rating: GradeNowRating::Good },
        ]
    );
}

#[test]
fn grade_now_maps_each_rating() {
    let ratings = [GradeNowRating::Again, GradeNowRating::Hard, GradeNowRating::Good, GradeNowRating::Easy];
    for (number, rating) in ratings.iter().enumerate() {
        let plan = grade_now_plan(&vec![1], &vec![], number as i32, false).unwrap();
        assert_eq!(plan[0].rating, *rating);
        assert_eq!(plan[0].options, None);
    }
}

#[test]
fn grade_now_under_rwkv_curve_refuses_a_card_without_states() {
    let result = grade_now_plan(&vec![1, 2], &vec![(1, true), (2, false)], 2, true);
    assert_eq!(result, Err(GradeNowError::StatesRequired { card_id: 2 }));
    assert!(grade_now_plan(&vec![1, 2], &vec![(1, true), (2, true)], 2, true).is_ok());
}

#[test]
fn grade_now_refuses_an_invalid_rating_at_the_first_card() {
    assert_eq!(grade_now_plan(&vec![1], &vec![], 4, false), Err(GradeNowError::InvalidRating));
    assert_eq!(grade_now_plan(&vec![1], &vec![], -1, true), Err(GradeNowError::StatesRequired { card_id: 1 }));
    assert_eq!(grade_now_plan(&vec![], &vec![], 9, true), Ok(vec![]));
}

#[test]
fn batch_progress_skips_presets_without_reviews() {
    let skipped = batch_preset_progress("empty".to_string(), 0, 0, 0);
    assert!(skipped.finished && skipped.skipped);
    let trained = batch_preset_progress("full".to_string(), 120, 100, 20);
    assert!(!trained.finished && !trained.skipped);
    assert_eq!((trained.reviews, trained.long_term_reviews, trained.short_term_reviews), (120, 100, 20));
    assert_eq!(trained.phase, ComputeParamsProgressPhase::OptimizingFsrsParams);
    let progress = batch_progress_start(vec![skipped, trained], 1);
    assert_eq!(progress.current_iteration, 0);
    assert_eq!(progress.total_iterations, 1);
    assert_eq!(progress.presets.len(), 2);
}

#[test]
fn batch_progress_counts_finished_training() {
    let mut progress = batch_progress_start(
        vec![
            batch_preset_progress("a".to_string(), 10, 10, 0),
            batch_preset_progress("b".to_string(), 0, 0, 0),
            batch_preset_progress("c".to_string(), 5, 4, 1),
        ],
        2,
    );
    update_batch_progress(
        &mut progress,
        2,
        &vec![
            BatchJobProgress { progress_index: 0, current: 40, total: 40, done: true },
            BatchJobProgress { progress_index: 2, current: 3, total: 8, done: false },
        ],
    );
    assert_eq!(progress.current_iteration, 1);
    assert_eq!((progress.presets[0].current_iteration, progress.presets[0].total_iterations), (40, 40));
    assert!(progress.presets[0].finished);
    assert_eq!((progress.presets[2].current_iteration, progress.presets[2].total_iterations), (3, 8));
    assert!(!progress.presets[2].finished);
    assert!(progress.presets[1].skipped && progress.presets[1].finished);
    assert_eq!(progress.presets[1].name, "b");
}
