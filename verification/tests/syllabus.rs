use grind_test::syllabus::{parse, split_numbered};

// Invented throughout: these fixtures exercise the grammar, so nothing is gained by
// borrowing a real syllabus.
const SAMPLE: &str = "# Тестовий силабус\n\n## I. Перший розділ\n\n1. Перша тема.\n2. Друга тема\nз продовженням.\n\n## II. Другий розділ\n\n1. Третя тема.\n";

const NESTED: &str = "# T\n\n## 1.7 Розділ із групами\n\n1. Перша група\n   1.1. Підтема одна.\n   1.2. Підтема два.\n2. Друга група.\n   2.1. Підтема три.\n";

#[test]
fn parses_sections_and_topics() {
    let s = parse("demo", SAMPLE);
    assert_eq!(s.title, "Тестовий силабус");
    assert_eq!(s.sections.len(), 2);
    assert_eq!(s.topic_count(), 3);
    assert_eq!(s.sections[0].topics[1].title, "Друга тема з продовженням.");
    assert_eq!(s.sections[1].topics[0].id, "demo/2.1");
    assert_eq!(s.find_topic("demo/1.1").unwrap().title, "Перша тема.");
}

#[test]
fn ignores_content_before_first_section() {
    let s = parse("demo", "# T\n\n1. orphan\n\n## A\n\n1. kept\n");
    assert_eq!(s.topic_count(), 1);
}

/// Nested numbering must not collapse `1.1.`, `1.2.` and `2.1.` onto the ids `demo/1.1`
/// and `demo/1.2`, or their knowledge notes would overwrite each other.
#[test]
fn nested_numbering_produces_distinct_topics() {
    let s = parse("demo", NESTED);
    let topics = s.topics();

    assert_eq!(topics.len(), 3);
    let ids: Vec<&str> = topics.iter().map(|t| t.id.as_str()).collect();
    assert_eq!(ids, ["demo/1.1", "demo/1.2", "demo/1.3"]);

    // The group heading is context, not a topic of its own.
    assert_eq!(topics[0].title, "Підтема одна.");
    assert_eq!(topics[0].group.as_deref(), Some("Перша група"));
    assert_eq!(topics[2].title, "Підтема три.");
    assert_eq!(topics[2].group.as_deref(), Some("Друга група."));
}

#[test]
fn a_flat_section_keeps_its_printed_numbering() {
    let s = parse("demo", SAMPLE);
    for section in &s.sections {
        for (position, topic) in section.topics.iter().enumerate() {
            assert_eq!(topic.index, position + 1);
            assert!(topic.group.is_none());
        }
    }
}

#[test]
fn a_leading_number_is_not_a_list_marker() {
    assert!(split_numbered("2020 рік був складним").is_none());
    assert_eq!(split_numbered("7. Текст"), Some((vec![7], "Текст".to_string())));
    assert_eq!(split_numbered("1.3. Текст"), Some((vec![1, 3], "Текст".to_string())));
}

#[test]
fn an_unknown_topic_is_not_found() {
    let s = parse("demo", SAMPLE);
    assert!(s.find_topic("demo/9.9").is_none());
    assert_eq!(s.id, "demo");
}

#[test]
fn an_untitled_syllabus_is_named_after_its_file() {
    let s = parse("demo", "## A\n\n1. x\n");
    assert_eq!(s.title, "demo");
    assert_eq!(s.sections[0].title, "A");
}
