use grind_test::paths::is_session_file_for;
use grind_test::paths::{
    describe_failure, is_note_file_for, normalise_vault_choice, note_file, resolve_vault_root,
    sample_syllabus, slugify, vault_dirs, ReadFailure, Vault,
};

#[test]
fn slugifies_ukrainian() {
    assert_eq!(slugify("Приклад назви теми"), "pryklad-nazvy-temy");
    // An ASCII abbreviation survives; the separator it leaves behind is collapsed into
    // the one the following space would have produced.
    assert_eq!(slugify("HTTP- запити та відповіді"), "http-zapyty-ta-vidpovidi");
    assert_eq!(slugify("  ---  "), "");
}

#[test]
fn truncates_without_splitting_chars() {
    let long = slugify(&"тема ".repeat(40));
    assert!(long.len() <= 60);
    assert!(!long.ends_with('-'));
}

#[test]
fn soft_signs_and_apostrophes_vanish() {
    assert_eq!(slugify("Об'єкт і сіль"), "obiekt-i-sil");
}

#[test]
fn note_files_are_numbered_and_slugged() {
    assert_eq!(note_file(2, 7, "Моделі подання знань"), "02.07-modeli-podannia-znan.md");
    assert!(is_note_file_for("02.07-anything.md", 2, 7));
    assert!(!is_note_file_for("02.07-anything.txt", 2, 7));
    assert!(!is_note_file_for("02.08-anything.md", 2, 7));
}

#[test]
fn vault_paths_hang_off_the_root() {
    let vault = Vault::new("/v".into());
    assert_eq!(vault.syllabus_dir(), "/v/syllabus");
    assert_eq!(vault.knowledge_dir("demo"), "/v/knowledge/demo");
    assert_eq!(vault.quizzes_dir("demo"), "/v/quizzes/demo");
    assert_eq!(vault.mastery_file(), "/v/progress/mastery.json");
    assert_eq!(vault.study_file(), "/v/progress/study.json");
    assert_eq!(vault.sessions_dir(), "/v/progress/sessions");
    assert_eq!(vault.knowledge_file("demo", 1, 2, "Тема"), "/v/knowledge/demo/01.02-tema.md");
    assert_eq!(vault_dirs(), vec!["syllabus", "knowledge", "quizzes", "progress/attempts", "progress/sessions"]);
}

#[test]
fn a_parent_folder_of_the_vault_is_accepted() {
    assert_eq!(normalise_vault_choice("/p", false, true), "/p/vault");
    assert_eq!(normalise_vault_choice("/p/vault", true, false), "/p/vault");
    assert_eq!(normalise_vault_choice("/e", false, false), "/e");
}

#[test]
fn the_vault_root_prefers_the_environment_then_the_choice() {
    let dev = "/repo/vault".to_string();
    assert_eq!(resolve_vault_root(Some("/env".into()), Some("/c".into()), dev.clone(), true, None), "/env");
    assert_eq!(resolve_vault_root(None, Some("/c".into()), dev.clone(), true, None), "/c");
    assert_eq!(resolve_vault_root(None, None, dev.clone(), true, Some("/docs".into())), "/repo/vault");
    assert_eq!(resolve_vault_root(None, None, dev.clone(), false, Some("/docs".into())), "/docs");
    assert_eq!(resolve_vault_root(None, None, dev.clone(), false, None), "/repo/vault");
}

#[test]
fn each_read_failure_has_its_message() {
    let denied = describe_failure(&ReadFailure::PermissionDenied, "/v", "/v/syllabus");
    assert!(denied.starts_with("macOS не дозволяє застосунку читати «/v»"));
    let missing = describe_failure(&ReadFailure::NotFound, "/v", "/v/syllabus");
    assert_eq!(missing, "У теці «/v» немає підтеки syllabus — це не схоже на сховище.");
    let other = describe_failure(&ReadFailure::Other("boom".into()), "/v", "/v/syllabus");
    assert_eq!(other, "Не вдалося прочитати «/v/syllabus»: boom");
}

#[test]
fn the_sample_syllabus_parses() {
    let s = grind_test::syllabus::parse("sample", sample_syllabus());
    assert_eq!(s.title, "Приклад предмета");
    assert_eq!(s.sections.len(), 2);
    assert_eq!(s.topic_count(), 6);
}

#[test]
fn stored_things_have_their_own_files() {
    let vault = Vault::new("/v".into());
    assert_eq!(vault.quiz_file("demo", "q-1"), "/v/quizzes/demo/q-1.json");
    assert_eq!(vault.attempt_file("a-1"), "/v/progress/attempts/a-1.json");
    assert_eq!(vault.session_file("demo", "s-1"), "/v/progress/sessions/demo-s-1.json");
    assert!(is_session_file_for("demo-s-1.json", "demo"));
    assert!(!is_session_file_for("demo2-s-1.json", "demo"));
    assert!(!is_session_file_for("demo-s-1.txt", "demo"));
}

#[test]
fn a_new_vault_nests_unless_the_folder_already_is_one() {
    use_creation_root();
}

fn use_creation_root() {
    assert_eq!(grind_test::paths::creation_root("/home/s", false), "/home/s/grind-vault");
    assert_eq!(grind_test::paths::creation_root("/home/s/v", true), "/home/s/v");
}

#[test]
fn a_slug_is_trimmed_collapsed_and_cut_at_sixty() {
    assert_eq!(slugify("--Привіт,   світ!!--"), "pryvit-svit");
    let long = format!("{} b", "a".repeat(59));
    assert_eq!(slugify(&long), "a".repeat(59));
    for title in ["--Привіт,   світ!!--", "Щука & ЖУК: 2 + 2", "  ---  ", long.as_str()] {
        let s = slugify(title);
        assert!(s.chars().count() <= 60);
        assert!(s.chars().all(|c| c.is_ascii_alphanumeric() || c == '-'));
        assert!(!s.starts_with('-') && !s.ends_with('-') && !s.contains("--"));
    }
}
