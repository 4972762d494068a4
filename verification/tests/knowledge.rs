use grind_test::knowledge::{
    digest, find_note, note_exists, note_for, parse, render, truncate, yaml_escape, yaml_unescape,
    KnowledgeNote,
};
use grind_test::paths::Vault;
use grind_test::syllabus::Topic;

const FULL_NOTE: &str = "Стисла суть теми у двох реченнях, якої достатньо для орієнтації.\n\n## Головне\n\nВідповідь одним абзацом, яку студент написав би на екзамені.\n\n## Розділ\n\nДовгий текст.\n\n## Ще розділ\n\nЩе довший текст.\n\n## Ключові терміни\n\n- **Термін** — визначення терміна, достатньо докладне для повторення.\n- **Інший** — ще одне визначення, яке також займає місце.\n\n## На чому підловлюють\n\n- Плутають одне з іншим, і це найчастіша помилка на екзамені.\n- Забувають про третій випадок, який завжди запитують окремо.\n";

#[test]
fn digest_keeps_the_summary_and_the_revision_sections() {
    let short = digest(FULL_NOTE);

    assert!(short.starts_with("Стисла суть теми"));
    assert!(short.contains("## Головне"));
    assert!(short.contains("Відповідь одним абзацом"));
    assert!(short.contains("## Ключові терміни"));
    assert!(short.contains("## На чому підловлюють"));
    // The bulk of the note, the sections meant for a first read, is dropped.
    assert!(!short.contains("Довгий текст"));
    assert!(!short.contains("Ще довший текст"));
    assert!(short.len() < FULL_NOTE.len());
}

#[test]
fn digest_leads_with_the_one_paragraph_answer() {
    let short = digest(FULL_NOTE);
    let core = short.find("## Головне").unwrap();
    assert!(core < short.find("## Ключові терміни").unwrap());
}

#[test]
fn digest_of_a_note_written_before_the_answer_existed_still_works() {
    let older = FULL_NOTE.replace(
        "## Головне\n\nВідповідь одним абзацом, яку студент написав би на екзамені.\n\n",
        "",
    );
    let short = digest(&older);
    assert!(short.starts_with("Стисла суть теми"));
    assert!(!short.contains("## Головне"));
    assert!(short.contains("## Ключові терміни"));
}

#[test]
fn digest_falls_back_to_the_note_when_the_sections_are_missing() {
    let plain = format!("Коротка суть.\n\n## Розділ\n\n{}", "текст ".repeat(200));
    let short = digest(&plain);
    assert!(short.contains("Розділ"));
    assert!(short.contains("текст"));
}

fn sample_note() -> KnowledgeNote {
    KnowledgeNote {
        topic_id: "f3/2.7".into(),
        subject: "f3".into(),
        title: "Моделі подання знань: \"фрейми\"".into(),
        section_title: "Штучний інтелект".into(),
        model: "gemini-3.1-pro-high".into(),
        generated_at: "2026-09-07T00:00:00Z".into(),
        body: "## Суть\n\nТекст.".into(),
        path: String::new(),
    }
}

#[test]
fn round_trips_front_matter() {
    let note = sample_note();
    let parsed = parse(&render(&note), "x.md");
    assert_eq!(parsed.topic_id, note.topic_id);
    assert_eq!(parsed.title, note.title);
    assert_eq!(parsed.body, note.body);
}

#[test]
fn every_field_survives_the_round_trip() {
    let mut note = sample_note();
    note.section_title = "Back\\slash \"і\" лапки".into();
    note.body = "\n\n  Тіло з відступами.  \n\n".into();
    let parsed = parse(&render(&note), "dir/x.md");
    assert_eq!(parsed.subject, note.subject);
    assert_eq!(parsed.section_title, note.section_title);
    assert_eq!(parsed.model, note.model);
    assert_eq!(parsed.generated_at, note.generated_at);
    assert_eq!(parsed.body, "Тіло з відступами.");
    assert_eq!(parsed.path, "dir/x.md");
}

#[test]
fn a_note_without_front_matter_is_all_body() {
    let parsed = parse("  Просто текст.\n", "y.md");
    assert_eq!(parsed.topic_id, "");
    assert_eq!(parsed.body, "Просто текст.");
}

#[test]
fn quoting_escapes_backslashes_and_quotes() {
    assert_eq!(yaml_escape("a\"b\\c"), "\"a\\\"b\\\\c\"");
    assert_eq!(yaml_unescape(" \"a\\\"b\\\\c\" "), "a\"b\\c");
    assert_eq!(yaml_unescape(" plain "), "plain");
}

#[test]
fn notes_are_found_by_their_numbered_prefix() {
    let names = vec!["01.02-old-title.md".to_string(), "01.01-x.md".to_string(), "notes.txt".to_string()];
    assert_eq!(find_note(&names, 1, 2), Some(0));
    assert_eq!(find_note(&names, 1, 1), Some(1));
    assert_eq!(find_note(&names, 2, 1), None);
    let t = Topic {
        id: "demo/1.2".into(),
        subject: "demo".into(),
        section: 1,
        section_title: "s".into(),
        index: 2,
        title: "Нова назва".into(),
        group: None,
    };
    assert!(note_exists(&names, &t));
}

#[test]
fn a_new_note_takes_its_identity_from_the_topic() {
    let vault = Vault::new("/v".into());
    let t = Topic {
        id: "demo/2.3".into(),
        subject: "demo".into(),
        section: 2,
        section_title: "Розділ".into(),
        index: 3,
        title: "Приклад назви теми".into(),
        group: None,
    };
    let note = note_for(&vault, &t, "smart", "  Тіло.\n");
    assert_eq!(note.topic_id, "demo/2.3");
    assert_eq!(note.model, "smart");
    assert_eq!(note.body, "Тіло.");
    assert_eq!(note.path, "/v/knowledge/demo/02.03-pryklad-nazvy-temy.md");
    assert!(chrono::DateTime::parse_from_rfc3339(&note.generated_at).is_ok());
}

#[test]
fn truncation_leaves_a_marker_line() {
    assert_eq!(truncate("абвгд", 2), "аб\n…");
    assert_eq!(truncate("аб", 2), "аб");
}
