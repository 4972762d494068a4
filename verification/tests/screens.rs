use grind_test::paths::Vault;
use grind_test::progress::{Mastery, TopicMastery};
use grind_test::screens::{configured, subject_detail, subject_overview, vault_info, AppConfig, AppState};
use grind_test::study::{StudyState, TopicStudy};
use grind_test::syllabus::parse;

const SYLLABUS: &str = "# Демо\n\n## I. Перший розділ\n\n1. Перша тема.\n2. Друга тема.\n\n## II. Другий розділ\n\n1. Третя тема.\n";

#[test]
fn adopting_a_vault_completes_setup() {
    let mut state = AppState::new(Vault::new("/old".into()), "/cfg".into());
    let mut config = AppConfig::default();
    assert!(!configured(false, &config));
    assert!(configured(true, &config));
    state.adopt_vault("/new".into(), &mut config);
    assert_eq!(state.vault().root, "/new");
    assert_eq!(state.settings_dir(), "/cfg");
    assert_eq!(config.vault_root.as_deref(), Some("/new"));
    assert!(configured(false, &config));
}

#[test]
fn the_subject_list_counts_notes_and_accuracy() {
    let s = parse("demo", SYLLABUS);
    let mut mastery = Mastery::new();
    mastery.insert(TopicMastery { topic_id: "demo/1.1".into(), seen: 4, correct: 3, hints_used: 0, last_seen: "x".into() });
    let notes = vec!["01.01-persha-tema.md".to_string(), "02.01-tretia-tema.md".to_string()];
    let line = subject_overview(&s, &notes, &mastery, 5);
    assert_eq!(line.id, "demo");
    assert_eq!(line.title, "Демо");
    assert_eq!(line.topic_count, 3);
    assert_eq!(line.knowledge_count, 2);
    assert_eq!(line.quiz_count, 5);
    assert_eq!(line.accuracy_percent, 75);
}

#[test]
fn the_subject_detail_gathers_its_numbers() {
    let s = parse("demo", SYLLABUS);
    let notes = vec!["01.02-druha-tema.md".to_string()];
    let mut state = StudyState::new();
    state.insert(TopicStudy { topic_id: "demo/2.1".into(), level: 2, sessions: 1, ..Default::default() });
    let detail = subject_detail(s, &notes, Vec::new(), &Mastery::new(), &state);
    assert_eq!(detail.knowledge_topic_ids, vec!["demo/1.2".to_string()]);
    assert_eq!(detail.study.available, 1);
    assert_eq!(detail.study.new, 1);
    assert_eq!(detail.topic_study.len(), 1);
    assert_eq!(detail.topic_study[0].0, "demo/2.1");
    assert_eq!(detail.stats.topics_with_knowledge, 1);
}

#[test]
fn an_unconfigured_vault_is_not_probed() {
    let info = vault_info("/v".into(), false, Some(Ok(3)), None);
    assert!(!info.readable && info.subject_count == 0 && info.error.is_none());
    let ok = vault_info("/v".into(), true, Some(Ok(3)), Some("/bin/agy".into()));
    assert!(ok.readable && ok.subject_count == 3);
    assert_eq!(ok.agy_binary.as_deref(), Some("/bin/agy"));
    let bad = vault_info("/v".into(), true, Some(Err("nope".into())), None);
    assert!(!bad.readable);
    assert_eq!(bad.error.as_deref(), Some("nope"));
}
