use grind_test::progress::{
    apply_answers, grade_answers, percent, record_attempt, subject_stats, timestamped_id,
    AnswerRecord, Attempt, Mastery, TopicMastery,
};
use grind_test::quiz::{Difficulty, Question, QuestionKind, Quiz};
use grind_test::syllabus::Topic;

fn question(id: &str, topic: &str, correct: Vec<usize>) -> Question {
    Question {
        id: id.into(),
        topic_id: topic.into(),
        kind: QuestionKind::Single,
        question: format!("{id}?"),
        options: vec!["a".into(), "b".into(), "c".into()],
        correct,
        explanation: String::new(),
        difficulty: Difficulty::Easy,
    }
}

fn topic(id: &str) -> Topic {
    Topic {
        id: id.into(),
        subject: "demo".into(),
        section: 1,
        section_title: "s".into(),
        index: 1,
        title: format!("Тема {id}"),
        group: None,
    }
}

fn answer(topic: &str, correct: bool, hint: bool) -> AnswerRecord {
    AnswerRecord { question_id: "q".into(), topic_id: topic.into(), selected: vec![0], correct, hint_used: hint }
}

#[test]
fn percentages_round_to_the_nearest_whole() {
    assert_eq!(percent(1, 3), 33);
    assert_eq!(percent(2, 3), 67);
    assert_eq!(percent(1, 8), 13);
    assert_eq!(percent(5, 0), 0);
    assert_eq!(percent(3, 3), 100);
}

#[test]
fn an_attempt_scores_its_right_answers() {
    let attempt = Attempt {
        id: "a".into(),
        quiz_id: "q".into(),
        subject: "demo".into(),
        quiz_title: "t".into(),
        finished_at: "now".into(),
        answers: vec![answer("x", true, false), answer("x", false, false), answer("y", true, true)],
    };
    assert_eq!(attempt.correct_count(), 2);
    assert_eq!(attempt.score_percent(), 67);
    let empty = Attempt { answers: Vec::new(), ..attempt };
    assert_eq!(empty.score_percent(), 0);
}

#[test]
fn each_question_is_graded_from_its_first_selection() {
    let qs = vec![question("q1", "t/1", vec![1]), question("q2", "t/1", vec![0]), question("q3", "t/2", vec![2])];
    let selections = vec![("q2".to_string(), vec![0]), ("q1".to_string(), vec![2]), ("q2".to_string(), vec![1])];
    let graded = grade_answers(&qs, &selections, &["q3".to_string()]);
    assert_eq!(graded.len(), 3);
    assert_eq!(graded[0].selected, vec![2]);
    assert!(!graded[0].correct);
    assert!(graded[1].correct);
    assert!(graded[2].selected.is_empty());
    assert!(!graded[2].correct);
    assert!(graded[2].hint_used);
    assert!(!graded[0].hint_used);
}

#[test]
fn answers_fold_into_the_mastery_table() {
    let mut mastery = Mastery::new();
    mastery.insert(TopicMastery {
        topic_id: "t/1".into(),
        seen: 4,
        correct: 3,
        hints_used: 0,
        last_seen: "then".into(),
    });
    apply_answers(&mut mastery, &[answer("t/1", false, true), answer("t/2", true, false), answer("t/1", true, false)]);
    let one = mastery.get("t/1").unwrap();
    assert_eq!((one.seen, one.correct, one.hints_used), (6, 4, 1));
    assert_ne!(one.last_seen, "then");
    let two = mastery.get("t/2").unwrap();
    assert_eq!((two.seen, two.correct, two.hints_used), (1, 1, 0));
}

#[test]
fn a_recorded_attempt_reports_its_score_and_updates_mastery() {
    let quiz = Quiz {
        id: "quiz-1".into(),
        subject: "demo".into(),
        title: "Квіз".into(),
        created_at: "c".into(),
        model: "fast".into(),
        difficulty: Difficulty::Easy,
        topic_ids: vec!["t/1".into()],
        questions: vec![question("q1", "t/1", vec![1]), question("q2", "t/1", vec![0])],
    };
    let mut mastery = Mastery::new();
    let result = record_attempt(&quiz, &[("q1".to_string(), vec![1])], &[], &mut mastery);
    assert_eq!(result.total, 2);
    assert_eq!(result.correct, 1);
    assert_eq!(result.score_percent, 50);
    assert_eq!(result.attempt.quiz_id, "quiz-1");
    assert_eq!(result.attempt.id.len(), 36);
    assert!(chrono::DateTime::parse_from_rfc3339(&result.attempt.finished_at).is_ok());
    assert_eq!(mastery.get("t/1").unwrap().seen, 2);
}

#[test]
fn an_id_carries_its_creation_time() {
    let (id, created_at) = timestamped_id();
    // `YYYYMMDD-HHMMSS-` and eight characters of a UUID.
    assert_eq!(id.len(), 24);
    assert_eq!(&id[8..9], "-");
    assert_eq!(&id[15..16], "-");
    let created = chrono::DateTime::parse_from_rfc3339(&created_at).unwrap();
    assert_eq!(created.format("%Y%m%d-%H%M%S").to_string(), &id[..15]);
    let (other, _) = timestamped_id();
    assert_ne!(id, other);
}

#[test]
fn the_dashboard_lists_the_weakest_practised_topics() {
    let mut mastery = Mastery::new();
    for (id, seen, correct) in [("t/1", 4, 4), ("t/2", 4, 1), ("t/3", 2, 1), ("other/1", 9, 0)] {
        mastery.insert(TopicMastery { topic_id: id.into(), seen, correct, hints_used: 0, last_seen: "x".into() });
    }
    let topics = vec![topic("t/1"), topic("t/2"), topic("t/3"), topic("t/4")];
    let stats = subject_stats(&mastery, "t", &topics, 3);
    assert_eq!(stats.topics_total, 4);
    assert_eq!(stats.topics_with_knowledge, 3);
    assert_eq!(stats.topics_practised, 3);
    assert_eq!(stats.questions_answered, 10);
    assert_eq!(stats.questions_correct, 6);
    assert_eq!(stats.accuracy_percent, 60);
    let weakest: Vec<(&str, u32)> = stats.weakest.iter().map(|w| (w.topic_id.as_str(), w.accuracy_percent)).collect();
    assert_eq!(weakest, [("t/2", 25), ("t/3", 50), ("t/1", 100)]);
    assert_eq!(stats.weakest[0].title, "Тема t/2");
}

#[test]
fn the_dashboard_stays_within_a_hundred_percent_and_ten_topics() {
    let mut mastery = Mastery::new();
    let mut topics = Vec::new();
    for k in 1..=12u32 {
        let id = format!("t/{k}");
        mastery.insert(TopicMastery { topic_id: id.clone(), seen: k, correct: k, hints_used: 0, last_seen: "x".into() });
        topics.push(topic(&id));
    }
    let stats = subject_stats(&mastery, "t", &topics, 12);
    assert_eq!(stats.topics_practised, 12);
    assert_eq!(stats.questions_answered, 78);
    assert_eq!(stats.questions_correct, 78);
    assert_eq!(stats.accuracy_percent, 100);
    assert_eq!(stats.weakest.len(), 10);
    assert!(stats.weakest.iter().all(|w| w.accuracy_percent == 100 && w.correct <= w.seen && w.seen > 0));
    // Equal accuracy: the most answered come first.
    assert_eq!(stats.weakest[0].topic_id, "t/12");
    assert_eq!(stats.weakest[9].topic_id, "t/3");
}
