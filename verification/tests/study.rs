use grind_test::study::{
    need, next_level, overview, plan_reading, plan_session, plan_spread, plan_sprint,
    weighted_pick, Stage, StudyState, TopicStudy, MAX_LEVEL,
};
use grind_test::syllabus::Topic;

fn topic(id: &str) -> Topic {
    Topic {
        id: id.into(),
        subject: "demo".into(),
        section: 1,
        section_title: "s".into(),
        index: 1,
        title: id.into(),
        group: None,
    }
}

fn numbered(n: usize) -> Vec<Topic> {
    (1..=n).map(|i| topic(&format!("demo/1.{i}"))).collect()
}

fn studied(id: &str, level: u8, sessions: u32, last_score: Option<u32>) -> TopicStudy {
    TopicStudy {
        topic_id: id.into(),
        level,
        sessions,
        last_score,
        ..Default::default()
    }
}

fn days_from_now(days: i64) -> String {
    (chrono::Utc::now() + chrono::Duration::days(days)).to_rfc3339()
}

fn ladder_checks() {
    assert_eq!(next_level(0, 90), 1);
    assert_eq!(next_level(3, 90), 4);
    assert_eq!(next_level(3, 70), 3);
    assert_eq!(next_level(3, 40), 2);
    // Never drops back to "never studied", and never runs off the ladder.
    assert_eq!(next_level(1, 10), 1);
    assert_eq!(next_level(MAX_LEVEL, 100), MAX_LEVEL);
}

#[test]
fn study_a_good_score_advances_and_a_bad_one_falls_back() {
    ladder_checks();
}

#[test]
fn tests_a_good_score_advances_and_a_bad_one_falls_back() {
    ladder_checks();
}

fn due_reviews_first() {
    let topics = numbered(5);
    let mut state = StudyState::default();
    state.insert(TopicStudy {
        topic_id: "demo/1.4".into(),
        level: 2,
        sessions: 1,
        due_at: Some(days_from_now(-1)),
        ..Default::default()
    });

    let planned = plan_session(&state, &topics, 3);
    assert_eq!(planned.len(), 3);
    assert_eq!(planned[0].topic.id, "demo/1.4");
    assert!(planned[0].is_review);
    // The rest is fresh material, taken in syllabus order.
    assert_eq!(planned[1].topic.id, "demo/1.1");
    assert_eq!(planned[2].topic.id, "demo/1.2");
}

#[test]
fn study_planning_puts_due_reviews_before_new_material() {
    due_reviews_first();
}

#[test]
fn tests_planning_puts_due_reviews_before_new_material() {
    due_reviews_first();
}

fn not_yet_due() {
    let topics = vec![topic("demo/1.1")];
    let mut state = StudyState::default();
    state.insert(TopicStudy {
        topic_id: "demo/1.1".into(),
        level: 3,
        sessions: 1,
        due_at: Some(days_from_now(5)),
        ..Default::default()
    });
    assert!(plan_session(&state, &topics, 3).is_empty());
}

#[test]
fn study_a_topic_not_yet_due_is_left_alone() {
    not_yet_due();
}

#[test]
fn tests_a_topic_not_yet_due_is_left_alone() {
    not_yet_due();
}

fn sprint_new_ground_first() {
    let topics = numbered(5);
    let mut state = StudyState::default();
    // Studied, and overdue: the ladder would serve it first; a sprint should not.
    state.insert(TopicStudy {
        topic_id: "demo/1.1".into(),
        level: 1,
        sessions: 1,
        last_score: Some(50),
        due_at: Some(days_from_now(-3)),
        ..Default::default()
    });

    let planned = plan_sprint(&state, &topics, 3);
    let ids: Vec<&str> = planned.iter().map(|entry| entry.topic.id.as_str()).collect();
    assert_eq!(ids, ["demo/1.2", "demo/1.3", "demo/1.4"]);
}

#[test]
fn study_a_sprint_covers_new_ground_before_repeating_anything() {
    sprint_new_ground_first();
}

#[test]
fn tests_a_sprint_covers_new_ground_before_repeating_anything() {
    sprint_new_ground_first();
}

fn sprint_weakest_when_all_seen() {
    let topics = numbered(3);
    let mut state = StudyState::default();
    for (id, score) in [("demo/1.1", 90), ("demo/1.2", 30), ("demo/1.3", 60)] {
        state.insert(studied(id, 1, 1, Some(score)));
    }

    let planned = plan_sprint(&state, &topics, 2);
    let ids: Vec<&str> = planned.iter().map(|entry| entry.topic.id.as_str()).collect();
    assert_eq!(ids, ["demo/1.2", "demo/1.3"]);
}

#[test]
fn study_a_sprint_falls_back_to_the_weakest_once_everything_is_seen() {
    sprint_weakest_when_all_seen();
}

#[test]
fn tests_a_sprint_falls_back_to_the_weakest_once_everything_is_seen() {
    sprint_weakest_when_all_seen();
}

fn spread_one_per_part() {
    let topics = numbered(12);
    let state = StudyState::default();

    // Buckets are [0..4), [4..8), [8..12): the beginning, the middle and the end.
    for _ in 0..50 {
        let planned = plan_spread(&state, &topics, 3);
        assert_eq!(planned.len(), 3);

        let positions: Vec<usize> = planned
            .iter()
            .map(|entry| {
                topics
                    .iter()
                    .position(|topic| topic.id == entry.topic.id)
                    .expect("planned topic came from the candidate list")
            })
            .collect();

        assert!((0..4).contains(&positions[0]), "{positions:?}");
        assert!((4..8).contains(&positions[1]), "{positions:?}");
        assert!((8..12).contains(&positions[2]), "{positions:?}");
    }
}

#[test]
fn study_a_spread_takes_one_topic_from_each_part_of_the_syllabus() {
    spread_one_per_part();
}

#[test]
fn tests_a_spread_takes_one_topic_from_each_part_of_the_syllabus() {
    spread_one_per_part();
}

fn spread_prefers_weakest() {
    let topics = numbered(4);
    let mut state = StudyState::default();
    // Everything in the first half is known cold except 1.2.
    for (id, score) in [("demo/1.1", 100), ("demo/1.2", 10), ("demo/1.3", 100), ("demo/1.4", 100)] {
        state.insert(studied(id, 2, 1, Some(score)));
    }

    let picks = (0..200)
        .filter(|_| plan_spread(&state, &topics, 2)[0].topic.id == "demo/1.2")
        .count();
    // 1.2 carries weight 2.1 against 1.1's 0.3, so it should dominate its slice.
    assert!(picks > 120, "weak topic picked only {picks}/200 times");
}

#[test]
fn study_a_spread_prefers_the_weakest_topic_in_its_slice() {
    spread_prefers_weakest();
}

#[test]
fn tests_a_spread_prefers_the_weakest_topic_in_its_slice() {
    spread_prefers_weakest();
}

fn reading_skips_opened() {
    let topics = numbered(9);
    let mut state = StudyState::default();
    // Opened with the tests skipped: exactly what the spread would otherwise favour.
    for id in ["demo/1.1", "demo/1.5", "demo/1.9"] {
        state.insert(TopicStudy {
            topic_id: id.into(),
            level: 1,
            read_count: 1,
            last_score: Some(0),
            ..Default::default()
        });
    }

    for _ in 0..50 {
        let planned = plan_reading(&state, &topics, 3);
        assert_eq!(planned.len(), 3);
        assert!(
            planned.iter().all(|entry| !state.contains_key(&entry.topic.id)),
            "{:?}",
            planned.iter().map(|entry| &entry.topic.id).collect::<Vec<_>>()
        );
    }

    for topic in &topics {
        if !state.contains_key(&topic.id) {
            state.insert(TopicStudy { topic_id: topic.id.clone(), ..Default::default() });
        }
    }
    assert!(plan_reading(&state, &topics, 3).is_empty());
}

#[test]
fn study_reading_never_serves_a_topic_already_opened() {
    reading_skips_opened();
}

#[test]
fn tests_reading_never_serves_a_topic_already_opened() {
    reading_skips_opened();
}

fn spread_of_everything() {
    let topics = numbered(3);
    assert_eq!(plan_spread(&StudyState::default(), &topics, 5).len(), 3);
}

#[test]
fn study_a_spread_of_everything_returns_everything() {
    spread_of_everything();
}

#[test]
fn tests_a_spread_of_everything_returns_everything() {
    spread_of_everything();
}

fn overview_counts() {
    let topics = numbered(4);
    let mut state = StudyState::default();
    state.insert(TopicStudy { topic_id: "demo/1.1".into(), level: MAX_LEVEL, ..Default::default() });
    state.insert(TopicStudy { topic_id: "demo/1.2".into(), level: 1, ..Default::default() });

    let view = overview(&state, "demo", &topics);
    assert_eq!(view.available, 4);
    assert_eq!(view.new, 2);
    assert_eq!(view.mastered, 1);
    assert_eq!(view.learning, 1);
    // Neither studied topic has a review date, and the two unseen ones are `new`, not due.
    assert_eq!(view.due_now, 0);
    // (6 + 1) out of a ceiling of 4 * 6.
    assert_eq!(view.progress_percent, 29);
}

#[test]
fn study_overview_counts_stages_and_progress() {
    overview_counts();
}

#[test]
fn tests_overview_counts_stages_and_progress() {
    overview_counts();
}

#[test]
fn need_weighs_unseen_and_missed_topics_above_known_ones() {
    let mut state = StudyState::default();
    state.insert(studied("demo/1.1", 2, 1, Some(100)));
    state.insert(studied("demo/1.2", 2, 1, Some(10)));
    state.insert(studied("demo/1.4", 2, 1, Some(120)));
    assert_eq!(need(&state, &topic("demo/1.1")), 30);
    assert_eq!(need(&state, &topic("demo/1.2")), 210);
    assert_eq!(need(&state, &topic("demo/1.3")), 150);
    assert_eq!(need(&state, &topic("demo/1.4")), -10);
}

#[test]
fn weighted_pick_walks_the_cumulative_weights() {
    let weights = vec![30i64, 210, 0, 150];
    assert_eq!(weighted_pick(&weights, 0), Some(0));
    assert_eq!(weighted_pick(&weights, 29), Some(0));
    assert_eq!(weighted_pick(&weights, 30), Some(1));
    assert_eq!(weighted_pick(&weights, 239), Some(1));
    assert_eq!(weighted_pick(&weights, 240), Some(3));
    assert_eq!(weighted_pick(&weights, 389), Some(3));
    // Nothing weighs anything: the first topic.
    assert_eq!(weighted_pick(&vec![0i64, 0], 7), Some(0));
    assert_eq!(weighted_pick(&Vec::new(), 0), None);
}

#[test]
fn a_weight_below_zero_is_never_drawn_but_counts_in_the_total() {
    // A score above 115 weighs below 0 and lowers the total the roll is drawn under.
    let weights = vec![10i64, -5, 20];
    assert_eq!(weighted_pick(&weights, 5), Some(0));
    assert_eq!(weighted_pick(&weights, 12), Some(2));
    assert_eq!(weighted_pick(&weights, 24), Some(2));
    assert_eq!(weighted_pick(&vec![-10i64, 30], 0), Some(1));
    // A total of 0 or less: the first topic.
    assert_eq!(weighted_pick(&vec![50i64, -100], 0), Some(0));
}

#[test]
fn a_stage_follows_the_level() {
    let fresh = TopicStudy::default();
    assert_eq!(fresh.stage(), Stage::New);
    assert_eq!(studied("x", 1, 1, None).stage(), Stage::Learning);
    assert_eq!(studied("x", MAX_LEVEL, 1, None).stage(), Stage::Mastered);
}

#[test]
fn a_spread_or_reading_larger_than_the_syllabus_takes_everything() {
    let topics = numbered(2);
    let state = StudyState::default();
    assert_eq!(plan_spread(&state, &topics, usize::MAX).len(), 2);
    assert_eq!(plan_reading(&state, &topics, usize::MAX).len(), 2);
}
