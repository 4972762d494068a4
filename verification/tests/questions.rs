use grind_test::generate::questions::{sanitize_questions, DraftDifficulty, QuestionDraft};
use grind_test::quiz::{Difficulty, QuestionKind};

fn draft(topic: &str, options: Vec<&str>, correct: Vec<usize>) -> QuestionDraft {
    QuestionDraft {
        topic_id: topic.into(),
        kind: QuestionKind::Single,
        question: "Питання?".into(),
        options: options.into_iter().map(String::from).collect(),
        correct,
        explanation: "бо так".into(),
        difficulty: DraftDifficulty::Medium,
    }
}

fn drops_unanswerable(topic: &str) {
    let topics = vec![topic.to_string()];
    let kept = sanitize_questions(
        vec![
            draft(topic, vec!["a", "b", "c", "d"], vec![1]),
            draft(topic, vec!["a", "b", "c", "d"], vec![]), // no correct option
            draft(topic, vec!["a", "b", "c", "d"], vec![0, 1, 2, 3]), // every option correct
            draft(topic, vec!["a"], vec![0]),               // not a choice
            draft(topic, vec!["a", "b", "c", "d"], vec![9]), // out of range
        ],
        &topics,
    );
    assert_eq!(kept.len(), 1);
    assert_eq!(kept[0].id, "q1");
}

fn infers_kind(topic: &str) {
    let topics = vec![topic.to_string()];
    let kept = sanitize_questions(vec![draft(topic, vec!["a", "b", "c", "d"], vec![0, 2])], &topics);
    assert!(matches!(kept[0].kind, QuestionKind::Multi));
}

fn falls_back(topic: &str) {
    let topics = vec![topic.to_string()];
    let mut d = draft(topic, vec!["a", "b", "c", "d"], vec![0]);
    d.topic_id = "made/up".into();
    let kept = sanitize_questions(vec![d], &topics);
    assert_eq!(kept[0].topic_id, topic);
}

#[test]
fn generate_drops_unanswerable_questions() {
    drops_unanswerable("f3/1.1");
}

#[test]
fn questions_drops_unanswerable_questions() {
    drops_unanswerable("demo/1.1");
}

#[test]
fn generate_infers_kind_from_the_answer_shape() {
    infers_kind("f3/1.1");
}

#[test]
fn questions_infers_kind_from_the_answer_shape() {
    infers_kind("demo/1.1");
}

#[test]
fn generate_unknown_topic_ids_fall_back_to_a_real_one() {
    falls_back("f3/1.1");
}

#[test]
fn questions_unknown_topic_ids_fall_back_to_a_real_one() {
    falls_back("demo/1.1");
}

#[test]
fn kept_questions_are_numbered_trimmed_and_sorted() {
    let topics = vec!["demo/1.1".to_string(), "demo/1.2".to_string()];
    let mut second = draft("demo/1.2", vec![" a ", "b", "c"], vec![2, 0, 2]);
    second.question = "  Друге?  ".into();
    second.difficulty = DraftDifficulty::Hard;
    let kept = sanitize_questions(
        vec![draft("demo/1.1", vec!["a", "b"], vec![5]), draft("demo/1.1", vec!["a", "b"], vec![1]), second],
        &topics,
    );
    assert_eq!(kept.len(), 2);
    // Numbered by place among the drafts, gaps left by dropped ones included.
    assert_eq!(kept[0].id, "q2");
    assert_eq!(kept[1].id, "q3");
    assert_eq!(kept[1].topic_id, "demo/1.2");
    assert_eq!(kept[1].question, "Друге?");
    assert_eq!(kept[1].correct, vec![0, 2]);
    assert!(matches!(kept[1].kind, QuestionKind::Multi));
    assert!(matches!(kept[1].difficulty, Difficulty::Hard));
    assert!(matches!(kept[0].kind, QuestionKind::Single));
}
