use grind_test::generate::session::{session_fits_state, session_summary};
use grind_test::generate::questions::{DraftDifficulty, QuestionDraft};
use grind_test::generate::session::{
    answers_to_grade, attach_questions, grade_session, keep_gradings, new_plan, plan_topics,
    quiz_count, session_prompt, topic_score, OpenGrading, OpenQuestionDraft, Selection,
    SessionError, SessionMode, SessionPlan,
};
use grind_test::knowledge::KnowledgeNote;
use grind_test::progress::Mastery;
use grind_test::quiz::QuestionKind;
use grind_test::study::{PlannedTopic, Stage, StudyState, TopicStudy};
use grind_test::syllabus::Topic;
use grind_test::time::Clock;

fn topic(id: &str, index: usize) -> Topic {
    Topic {
        id: id.into(),
        subject: "demo".into(),
        section: 1,
        section_title: "Розділ".into(),
        index,
        title: format!("Тема {id}"),
        group: None,
    }
}

fn note(id: &str, body: &str) -> KnowledgeNote {
    KnowledgeNote {
        topic_id: id.into(),
        subject: "demo".into(),
        title: format!("Тема {id}"),
        section_title: "Розділ".into(),
        model: "smart".into(),
        generated_at: "2026-01-01T00:00:00+00:00".into(),
        body: body.into(),
        path: String::new(),
    }
}

fn fresh(t: Topic) -> PlannedTopic {
    PlannedTopic { topic: t, stage: Stage::New, level: 0, last_score: None, is_review: false }
}

fn quiz_draft(id: &str) -> QuestionDraft {
    QuestionDraft {
        topic_id: id.into(),
        kind: QuestionKind::Single,
        question: format!("Питання {id}"),
        options: vec!["так".into(), "ні".into(), "можливо".into()],
        correct: vec![0],
        explanation: "Бо так.".into(),
        difficulty: DraftDifficulty::Medium,
    }
}

fn open_draft(id: &str) -> OpenQuestionDraft {
    OpenQuestionDraft {
        topic_id: id.into(),
        question: format!("  Розкрийте {id} "),
        expected_points: vec!["перший".into(), "другий".into()],
    }
}

fn two_topic_plan(mode: SessionMode) -> SessionPlan {
    let planned = vec![fresh(topic("demo/1.1", 1)), fresh(topic("demo/1.2", 2))];
    let notes = vec![Some(note("demo/1.1", "Перший конспект.")), Some(note("demo/1.2", "Другий конспект."))];
    new_plan("demo", mode, &planned, &notes).unwrap()
}

#[test]
fn a_skipped_half_does_not_count_as_zero() {
    assert_eq!(topic_score(Some(80), Some(50)), Some(68));
    assert_eq!(topic_score(None, Some(50)), Some(50));
    assert_eq!(topic_score(Some(80), None), Some(80));
    assert_eq!(topic_score(None, None), None);
}

#[test]
fn the_written_half_weighs_more_and_rounds_to_nearest() {
    assert_eq!(topic_score(Some(90), Some(100)), Some(94));
    assert_eq!(topic_score(Some(100), Some(0)), Some(60));
    assert_eq!(topic_score(Some(0), Some(100)), Some(40));
    assert_eq!(topic_score(Some(75), Some(62)), Some(70));
}

#[test]
fn planning_without_notes_or_choices_fails_with_the_reason() {
    let state = StudyState::new();
    let topics = vec![topic("demo/1.1", 1), topic("demo/1.2", 2), topic("demo/1.3", 3)];
    assert_eq!(
        plan_topics(&state, &[], 3, None, SessionMode::Full, Selection::Scheduled).err(),
        Some(SessionError::NoNotes)
    );
    let unknown = vec!["demo/9.9".to_string()];
    assert_eq!(
        plan_topics(&state, &topics, 3, Some(unknown.as_slice()), SessionMode::Full, Selection::Scheduled).err(),
        Some(SessionError::NoneChosen)
    );
    let listed = vec!["demo/1.3".to_string(), "demo/1.1".to_string()];
    let chosen = plan_topics(&state, &topics, 1, Some(listed.as_slice()), SessionMode::Full, Selection::Scheduled).unwrap();
    let ids: Vec<&str> = chosen.iter().map(|p| p.topic.id.as_str()).collect();
    assert_eq!(ids, ["demo/1.1", "demo/1.3"]);

    let mut done = StudyState::new();
    for t in &topics {
        done.insert(TopicStudy {
            topic_id: t.id.clone(),
            level: 3,
            sessions: 1,
            due_at: Some((chrono::Utc::now() + chrono::Duration::days(3)).to_rfc3339()),
            ..Default::default()
        });
    }
    assert_eq!(
        plan_topics(&done, &topics, 3, None, SessionMode::Full, Selection::Scheduled).err(),
        Some(SessionError::NothingDue)
    );
}

#[test]
fn a_size_is_kept_within_the_modes_share() {
    let state = StudyState::new();
    let topics: Vec<Topic> = (1..=12).map(|i| topic(&format!("demo/1.{i}"), i)).collect();
    let zero = plan_topics(&state, &topics, 0, None, SessionMode::Full, Selection::Scheduled).unwrap();
    assert_eq!(zero.len(), 1);
    let many = plan_topics(&state, &topics, 50, None, SessionMode::Full, Selection::Scheduled).unwrap();
    assert_eq!(many.len(), 6);
    let sprint = plan_topics(&state, &topics, 50, None, SessionMode::Sprint, Selection::Scheduled).unwrap();
    assert_eq!(sprint.len(), 10);
}

#[test]
fn a_plan_skips_unreadable_notes_and_fails_without_any() {
    let planned = vec![fresh(topic("demo/1.1", 1)), fresh(topic("demo/1.2", 2))];
    let none: Vec<Option<KnowledgeNote>> = vec![None, None];
    assert_eq!(new_plan("demo", SessionMode::Full, &planned, &none).err(), Some(SessionError::NotesUnreadable));

    let partial = vec![None, Some(note("demo/1.2", "Текст."))];
    let plan = new_plan("demo", SessionMode::Full, &planned, &partial).unwrap();
    assert_eq!(plan.topics.len(), 1);
    assert_eq!(plan.topics[0].topic.id, "demo/1.2");
    assert_eq!(plan.reading, vec!["Текст.".to_string()]);
    assert!(plan.quiz.is_empty() && plan.open_questions.is_empty());
    assert_eq!(plan.subject, "demo");
    assert!(plan.id.starts_with("20") && plan.id.len() > 15);
}

#[test]
fn a_session_asks_for_between_six_and_thirty_two_questions() {
    let plan = two_topic_plan(SessionMode::Full);
    assert_eq!(quiz_count(&plan), 8);
    let sprint = two_topic_plan(SessionMode::Sprint);
    assert_eq!(quiz_count(&sprint), 6);
}

#[test]
fn the_session_prompt_fills_every_placeholder() {
    let plan = two_topic_plan(SessionMode::Full);
    let prompt = session_prompt("{{NOTES_KIND}}|{{KNOWLEDGE}}|{{QUIZ_COUNT}}", &plan);
    assert!(prompt.contains("### topic_id: demo/1.1\nТема: Тема demo/1.1\n\nПерший конспект.\n\n"));
    assert!(prompt.contains("### topic_id: demo/1.2"));
    assert!(prompt.ends_with("|8"));
    assert!(!prompt.contains("{{"));
}

#[test]
fn a_reply_without_usable_questions_leaves_the_plan_alone() {
    let mut plan = two_topic_plan(SessionMode::Full);
    let mut bad = quiz_draft("demo/1.1");
    bad.correct = vec![];
    assert_eq!(attach_questions(&mut plan, &[open_draft("demo/1.1")], vec![bad]), Err(SessionError::NoQuizQuestions));
    assert!(plan.quiz.is_empty() && plan.open_questions.is_empty());

    let open = vec![open_draft("demo/1.2"), open_draft("demo/1.1"), open_draft("demo/1.1")];
    assert_eq!(attach_questions(&mut plan, &open, vec![quiz_draft("demo/1.1"), quiz_draft("demo/1.2")]), Ok(()));
    assert_eq!(plan.quiz.len(), 2);
    let open_ids: Vec<&str> = plan.open_questions.iter().map(|q| q.topic_id.as_str()).collect();
    assert_eq!(open_ids, ["demo/1.1", "demo/1.2"]);
    assert_eq!(plan.open_questions[0].question, "Розкрийте demo/1.1");
}

fn grading(id: &str, score: u32) -> OpenGrading {
    OpenGrading {
        topic_id: id.into(),
        score,
        verdict: "Добре.".into(),
        covered: vec!["перший".into()],
        missed: vec!["другий".into()],
        correction: String::new(),
    }
}

#[test]
fn a_finished_session_scores_each_topic_from_its_two_halves() {
    let mut plan = two_topic_plan(SessionMode::Full);
    let open = vec![open_draft("demo/1.1"), open_draft("demo/1.2")];
    attach_questions(&mut plan, &open, vec![quiz_draft("demo/1.1"), quiz_draft("demo/1.2")]).unwrap();

    // Only the first topic got a written answer; a blank one is not sent to the grader.
    let written = vec![
        ("demo/1.1".to_string(), "Моя відповідь".to_string()),
        ("demo/1.2".to_string(), "   ".to_string()),
    ];
    let sent = answers_to_grade(&plan, &written);
    assert_eq!(sent.len(), 1);
    assert_eq!(sent[0].0, "demo/1.1");
    let verdicts = keep_gradings(vec![grading("demo/1.1", 90), grading("demo/1.2", 90)], &sent);
    assert_eq!(verdicts.len(), 1);

    let selections = vec![(plan.quiz[0].id.clone(), vec![0]), (plan.quiz[1].id.clone(), vec![1])];
    let mut mastery = Mastery::new();
    let mut state = StudyState::new();
    let clock = Clock::current().unwrap();
    let result = grade_session(&plan, verdicts, &selections, &mut mastery, &mut state, &clock);

    let scores: Vec<(u32, bool)> = result.topics.iter().map(|t| (t.score, t.skipped)).collect();
    assert_eq!(scores, [(94, false), (0, false)]);
    assert_eq!(result.overall_score, 47);
    assert_eq!(state.get("demo/1.1").unwrap().level, 1);
    assert_eq!(state.get("demo/1.1").unwrap().sessions, 1);
    assert_eq!(state.get("demo/1.1").unwrap().due_at, Some(clock.due[0].clone()));
    assert_eq!(mastery.get("demo/1.1").unwrap().correct, 1);
    assert_eq!(mastery.get("demo/1.2").unwrap().seen, 1);
    assert_eq!(mastery.get("demo/1.2").unwrap().correct, 0);
}

#[test]
fn a_blank_session_is_read_but_not_scored() {
    let mut plan = two_topic_plan(SessionMode::Sprint);
    attach_questions(&mut plan, &[], vec![quiz_draft("demo/1.1")]).unwrap();
    let mut mastery = Mastery::new();
    let mut state = StudyState::new();
    let clock = Clock::current().unwrap();
    let result = grade_session(&plan, Vec::new(), &[], &mut mastery, &mut state, &clock);
    assert!(result.topics.iter().all(|topic| topic.skipped));
    assert!(!state.contains_key("demo/1.1"));
    assert!(mastery.get("demo/1.1").is_none());
    assert_eq!(result.answers.len(), 1);
    assert_eq!(result.overall_score, 0);
}

#[test]
fn an_unfinished_session_is_summarised_by_its_topics() {
    let plan = two_topic_plan(SessionMode::Balanced);
    let summary = session_summary(&plan);
    assert_eq!(summary.id, plan.id);
    assert_eq!(summary.subject, "demo");
    assert_eq!(summary.created_at, plan.created_at);
    assert_eq!(summary.topic_titles, vec!["Тема demo/1.1".to_string(), "Тема demo/1.2".to_string()]);
}

#[test]
fn each_session_error_has_its_message() {
    assert_eq!(
        SessionError::NoNotes.message("demo"),
        "no knowledge notes exist for 'demo' yet — generate them before studying"
    );
    assert_eq!(
        SessionError::NothingDue.message("demo"),
        "nothing is due right now — every topic in this subject is scheduled for later"
    );
    assert_eq!(
        SessionError::NoQuizQuestions.message("demo"),
        "the generator returned no usable quiz questions for this session"
    );
}

fn record(id: &str, level: u8) -> TopicStudy {
    TopicStudy { topic_id: id.into(), level, sessions: 3, ..Default::default() }
}

#[test]
fn a_level_above_the_ladder_is_recorded_when_the_score_brings_it_back() {
    let mut plan = two_topic_plan(SessionMode::Full);
    attach_questions(&mut plan, &[], vec![quiz_draft("demo/1.1"), quiz_draft("demo/1.2")]).unwrap();
    // demo/1.1 passes and demo/1.2 fails.
    let selections = vec![(plan.quiz[0].id.clone(), vec![0]), (plan.quiz[1].id.clone(), vec![1])];

    // A pass caps a level of 7 at the top; a fail takes a level of 7 down to 6.
    let mut state = StudyState::new();
    state.insert(record("demo/1.1", 7));
    state.insert(record("demo/1.2", 7));
    assert!(session_fits_state(&plan, &[], &selections, &state));
    let mut mastery = Mastery::new();
    let clock = Clock::current().unwrap();
    grade_session(&plan, Vec::new(), &selections, &mut mastery, &mut state, &clock);
    assert_eq!(state.get("demo/1.1").unwrap().level, 6);
    assert_eq!(state.get("demo/1.2").unwrap().level, 6);
    assert_eq!(state.get("demo/1.2").unwrap().sessions, 4);

    // A fail from 9 would land on 8, which has no review interval.
    let mut state = StudyState::new();
    state.insert(record("demo/1.2", 9));
    assert!(!session_fits_state(&plan, &[], &selections, &state));

    // A skipped topic is not recorded, whatever its level.
    let mut blank = two_topic_plan(SessionMode::Sprint);
    attach_questions(&mut blank, &[], vec![quiz_draft("demo/1.1")]).unwrap();
    let mut state = StudyState::new();
    state.insert(record("demo/1.1", 9));
    assert!(session_fits_state(&blank, &[], &[], &state));
}
