use grind_test::generate::batch::limited_selection;
use grind_test::generate::batch::{batch_topics, tally, TopicResult};
use grind_test::generate::notes::{
    find_question, hint_prompt, is_long_enough, knowledge_prompt, KeyTerm, KnowledgeDraft,
};
use grind_test::generate::questions::{DraftDifficulty, QuestionDraft};
use grind_test::generate::quiz::{
    knowledge_block, make_quiz, quiz_candidates, quiz_prompt, recent_block, topic_budget,
    weak_block, QuizError, QuizRequest,
};
use grind_test::knowledge::KnowledgeNote;
use grind_test::progress::{Mastery, TopicMastery};
use grind_test::quiz::{Difficulty, Question, QuestionKind};
use grind_test::syllabus::{parse, Subject, Topic};

const SYLLABUS: &str = "# Демо\n\n## I. Перший розділ\n\n1. Перша тема.\n2. Друга тема.\n\n## II. Другий розділ\n\n1. Третя тема.\n";

fn subject() -> Subject {
    parse("demo", SYLLABUS)
}

fn names(v: &[&str]) -> Vec<String> {
    v.iter().map(|s| s.to_string()).collect()
}

fn note(t: &Topic, body: &str) -> KnowledgeNote {
    KnowledgeNote {
        topic_id: t.id.clone(),
        subject: t.subject.clone(),
        title: t.title.clone(),
        section_title: t.section_title.clone(),
        model: "smart".into(),
        generated_at: "2026-01-01T00:00:00+00:00".into(),
        body: body.into(),
        path: String::new(),
    }
}

#[test]
fn only_topics_with_a_note_can_be_quizzed() {
    let s = subject();
    let with_one = names(&["01.02-druha-tema.md"]);
    let all = quiz_candidates(&s, None, &with_one).unwrap();
    assert_eq!(all.len(), 1);
    assert_eq!(all[0].id, "demo/1.2");
    assert_eq!(quiz_candidates(&s, None, &[]).err(), Some(QuizError::NoKnowledge));
    let unknown = names(&["demo/7.7"]);
    assert_eq!(quiz_candidates(&s, Some(unknown.as_slice()), &with_one).err(), Some(QuizError::NoTopics));
    let listed = names(&["demo/1.1"]);
    assert_eq!(quiz_candidates(&s, Some(listed.as_slice()), &with_one).err(), Some(QuizError::NoKnowledge));
}

#[test]
fn a_quiz_samples_about_two_questions_per_topic() {
    assert_eq!(topic_budget(0), 1);
    assert_eq!(topic_budget(1), 1);
    assert_eq!(topic_budget(5), 3);
    assert_eq!(topic_budget(10), 5);
    assert_eq!(topic_budget(100), 12);
}

#[test]
fn the_quiz_notes_block_quotes_each_loaded_note() {
    let s = subject();
    let topics = s.topics();
    let notes = vec![Some(note(&topics[0], "Текст один.")), None, Some(note(&topics[2], "Текст три."))];
    let (block, ids) = knowledge_block(&topics, &notes).unwrap();
    assert_eq!(ids, names(&["demo/1.1", "demo/2.1"]));
    assert!(block.starts_with("### topic_id: demo/1.1\nТема: Перша тема.\n\nТекст один.\n\n"));
    assert!(block.contains("### topic_id: demo/2.1"));
    assert_eq!(knowledge_block(&topics, &[None, None, None]).err(), Some(QuizError::NoNotesLoaded));
}

#[test]
fn weak_and_recent_blocks_list_their_lines() {
    let s = subject();
    let topics = s.topics();
    let mut mastery = Mastery::new();
    mastery.insert(TopicMastery { topic_id: "demo/1.1".into(), seen: 10, correct: 6, hints_used: 0, last_seen: "x".into() });
    mastery.insert(TopicMastery { topic_id: "demo/1.2".into(), seen: 10, correct: 7, hints_used: 0, last_seen: "x".into() });
    assert_eq!(weak_block(&mastery, &topics), "- Перша тема. (demo/1.1)");
    assert_eq!(weak_block(&Mastery::new(), &topics), "(none yet)");
    assert_eq!(recent_block(&names(&["a?", "b?"])), "- a?\n- b?");
    assert_eq!(recent_block(&Vec::new()), "(none yet)");
}

#[test]
fn the_quiz_prompt_fills_its_placeholders() {
    let p = quiz_prompt("{{QUESTION_COUNT}}/{{KNOWLEDGE}}/{{WEAK_TOPICS}}/{{RECENT_QUESTIONS}}", 7, "K", Difficulty::Easy, "W", "R");
    assert_eq!(p, "7/K/W/R");
}

fn draft(topic: &str, correct: Vec<usize>) -> QuestionDraft {
    QuestionDraft {
        topic_id: topic.into(),
        kind: QuestionKind::Single,
        question: "Q?".into(),
        options: vec!["a".into(), "b".into(), "c".into()],
        correct,
        explanation: "e".into(),
        difficulty: DraftDifficulty::Easy,
    }
}

#[test]
fn a_quiz_is_made_of_the_usable_questions() {
    let s = subject();
    let request = QuizRequest { subject: "demo".into(), topic_ids: None, question_count: 3, difficulty: Difficulty::Hard };
    let ids = names(&["demo/1.1"]);
    let quiz = make_quiz(&s, &request, "fast".into(), ids.clone(), vec![draft("demo/1.1", vec![1]), draft("demo/1.1", vec![])]).unwrap();
    assert_eq!(quiz.title, "Демо — 1 питань");
    assert_eq!(quiz.questions.len(), 1);
    assert_eq!(quiz.model, "fast");
    assert!(matches!(quiz.difficulty, Difficulty::Hard));
    assert_eq!(quiz.topic_ids, ids);
    assert_eq!(
        make_quiz(&s, &request, "fast".into(), ids, vec![draft("demo/1.1", vec![7])]).err(),
        Some(QuizError::NoQuestions)
    );
}

#[test]
fn a_knowledge_draft_flattens_into_its_markdown_body() {
    let draft = KnowledgeDraft {
        summary: " Суть. ".into(),
        exam_answer: "Відповідь.".into(),
        markdown: "## Механізм\n\nОпис.\n".into(),
        key_terms: vec![KeyTerm { term: "Термін".into(), definition: " Визначення ".into() }],
        exam_traps: vec!["Пастка".into()],
    };
    assert_eq!(
        draft.into_body(),
        "Суть.\n\n## Головне\n\nВідповідь.\n\n## Механізм\n\nОпис.\n\n## Ключові терміни\n\n- **Термін** — Визначення\n\n## На чому підловлюють\n\n- Пастка\n"
    );
    let bare = KnowledgeDraft {
        summary: "S".into(),
        exam_answer: "  ".into(),
        markdown: "M".into(),
        key_terms: Vec::new(),
        exam_traps: Vec::new(),
    };
    assert_eq!(bare.into_body(), "S\n\nM");
}

#[test]
fn a_suspiciously_short_note_is_rejected() {
    assert!(!is_long_enough("  коротко  "));
    assert!(is_long_enough(&"ж".repeat(100)));
    assert!(!is_long_enough(&"z".repeat(199)));
}

#[test]
fn the_knowledge_prompt_names_the_topic_and_its_siblings() {
    let s = subject();
    let topics = s.topics();
    let p = knowledge_prompt("{{SUBJECT_TITLE}}|{{SECTION_TITLE}}|{{TOPIC_TITLE}}|{{GROUP}}|{{SIBLING_TOPICS}}", &s, &topics[0]);
    assert!(p.starts_with("Демо|I. Перший розділ|Перша тема.||"));
    assert!(p.contains("Друга тема."));
    assert!(!p.contains("Третя тема."));
}

fn question(id: &str) -> Question {
    Question {
        id: id.into(),
        topic_id: "demo/1.1".into(),
        kind: QuestionKind::Single,
        question: "Що це?".into(),
        options: vec!["так".into(), "ні".into()],
        correct: vec![0],
        explanation: String::new(),
        difficulty: Difficulty::Easy,
    }
}

#[test]
fn the_hint_prompt_numbers_the_options() {
    let q = question("q1");
    assert_eq!(hint_prompt("{{QUESTION}}\n{{OPTIONS}}\n{{KNOWLEDGE}}", &q, Some("Конспект")), "Що це?\n1. так\n2. ні\nКонспект");
    assert!(hint_prompt("{{KNOWLEDGE}}", &q, None).contains("ще не згенеровано"));
    let qs = vec![question("q1"), question("q2")];
    assert_eq!(find_question(&qs, "q2").unwrap().id, "q2");
    assert!(find_question(&qs, "q3").is_none());
}

#[test]
fn a_batch_skips_topics_that_already_have_a_note() {
    let s = subject();
    let have = names(&["01.01-persha-tema.md"]);
    let (todo, skipped) = batch_topics(&s, None, false, &have);
    let ids: Vec<&str> = todo.iter().map(|t| t.id.as_str()).collect();
    assert_eq!(ids, ["demo/1.2", "demo/2.1"]);
    assert_eq!(skipped, 1);
    let (forced, none) = batch_topics(&s, None, true, &have);
    assert_eq!((forced.len(), none), (3, 0));
    let listed = names(&["demo/1.1"]);
    let (only, one) = batch_topics(&s, Some(listed.as_slice()), false, &have);
    assert_eq!((only.len(), one), (0, 1));
}

#[test]
fn a_batch_tally_counts_outcomes_and_tokens() {
    let results: Vec<TopicResult> = vec![Ok(10), Err(("demo/1.2".into(), "boom".into())), Ok(5)];
    let report = tally(&results, 2);
    assert_eq!((report.generated, report.failed, report.skipped, report.total_tokens), (2, 1, 2, 15));
    assert_eq!(report.errors, names(&["demo/1.2: boom"]));
}

#[test]
fn a_limit_turns_the_selection_into_explicit_ids() {
    let s = subject();
    let have = names(&["01.01-persha-tema.md"]);
    assert_eq!(limited_selection(&s, Vec::new(), None, false, &have), None);
    assert_eq!(limited_selection(&s, names(&["demo/2.1"]), None, false, &have), Some(names(&["demo/2.1"])));
    assert_eq!(limited_selection(&s, Vec::new(), Some(1), false, &have), Some(names(&["demo/1.2"])));
    assert_eq!(limited_selection(&s, Vec::new(), Some(5), true, &have), Some(names(&["demo/1.1", "demo/1.2", "demo/2.1"])));
    assert_eq!(limited_selection(&s, names(&["demo/1.1"]), Some(5), false, &have), Some(Vec::new()));
}

#[test]
fn each_quiz_error_has_its_message() {
    assert_eq!(QuizError::NoTopics.message("f3"), "no topics matched the selection for subject 'f3'");
    assert_eq!(
        QuizError::NoKnowledge.message("f3"),
        "no knowledge notes exist for the selected topics — generate knowledge for 'f3' first"
    );
    assert_eq!(QuizError::NoQuestions.message("f3"), "the generator returned no usable questions");
}
