use grind_test::quiz::{recent_question_texts, Difficulty, Question, QuestionKind, Quiz, QuizSummary};

fn question(correct: Vec<usize>) -> Question {
    Question {
        id: "q1".into(),
        topic_id: "demo/1.1".into(),
        kind: QuestionKind::Multi,
        question: "?".into(),
        options: vec!["a".into(), "b".into(), "c".into(), "d".into()],
        correct,
        explanation: String::new(),
        difficulty: Difficulty::Medium,
    }
}

#[test]
fn grading_ignores_order_and_duplicates() {
    let q = question(vec![2, 0]);
    assert!(q.is_correct(&[0, 2]));
    assert!(q.is_correct(&[2, 0, 0]));
    assert!(!q.is_correct(&[0]));
    assert!(!q.is_correct(&[0, 1, 2]));
}

#[test]
fn an_empty_selection_is_never_correct_for_a_real_question() {
    assert!(!question(vec![1]).is_correct(&[]));
}

fn quiz(id: &str, stems: &[&str]) -> Quiz {
    Quiz {
        id: id.into(),
        subject: "demo".into(),
        title: format!("Квіз {id}"),
        created_at: "2026-01-01T00:00:00+00:00".into(),
        model: "fast".into(),
        difficulty: Difficulty::Mixed,
        topic_ids: vec!["demo/1.1".into()],
        questions: stems
            .iter()
            .map(|s| Question { question: s.to_string(), ..question(vec![0]) })
            .collect(),
    }
}

#[test]
fn recent_stems_come_from_the_five_newest_quizzes_up_to_the_limit() {
    let quizzes: Vec<Quiz> = (1..=7).map(|i| quiz(&i.to_string(), &[&format!("a{i}"), &format!("b{i}")])).collect();
    let all = recent_question_texts(&quizzes, 100);
    assert_eq!(all.len(), 10);
    assert_eq!(all[0], "a1");
    assert_eq!(all[9], "b5");
    assert_eq!(recent_question_texts(&quizzes, 3), vec!["a1", "b1", "a2"]);
    assert_eq!(recent_question_texts(&quizzes, 0), vec!["a1"]);
    assert!(recent_question_texts(&[], 5).is_empty());
}

#[test]
fn a_summary_counts_the_questions() {
    let q = quiz("x", &["one", "two", "three"]);
    let summary = QuizSummary::from(&q);
    assert_eq!(summary.id, "x");
    assert_eq!(summary.title, "Квіз x");
    assert_eq!(summary.question_count, 3);
    assert!(matches!(summary.difficulty, Difficulty::Mixed));
}

#[test]
fn each_difficulty_has_its_prompt_wording() {
    assert!(Difficulty::Hard.as_prompt().starts_with("hard"));
    assert!(Difficulty::Mixed.as_prompt().starts_with("mixed"));
}
