use grind_test::agy::envelope_problem;
use grind_test::agy::reply_line;
use grind_test::agy::checked_models;
use grind_test::agy::{
    agy_args, last_json_line, parse_models, truncate, ModelSettings, ModelTier, DEFAULT_FAST,
    DEFAULT_SMART,
};

const LISTING: &str = "Fetching available models...\ngemini-3.1-pro-high\tGemini 3.1 Pro (High)\ngpt-oss-120b-medium\tGPT-OSS 120B (Medium)\n";

fn listing_checks() {
    let models = parse_models(LISTING);
    assert_eq!(models.len(), 2);
    assert_eq!(models[0].id, "gemini-3.1-pro-high");
    assert_eq!(models[1].label, "GPT-OSS 120B (Medium)");
}

#[test]
fn agy_reads_the_model_listing() {
    listing_checks();
}

#[test]
fn tiers_reads_the_model_listing() {
    listing_checks();
}

fn default_checks() {
    let settings = ModelSettings::default();
    assert_eq!(settings.smart, DEFAULT_SMART);
    assert_eq!(settings.fast, DEFAULT_FAST);
}

#[test]
fn agy_tiers_default_to_the_shipped_ids() {
    default_checks();
}

#[test]
fn tiers_tiers_default_to_the_shipped_ids() {
    default_checks();
}

#[test]
fn a_tier_names_the_model_its_settings_hold() {
    let settings = ModelSettings { smart: "big".into(), fast: "small".into() };
    assert_eq!(ModelTier::Smart.model_id(&settings), "big");
    assert_eq!(ModelTier::Fast.model_id(&settings), "small");
}

#[test]
fn a_listing_line_without_a_tab_or_id_is_skipped() {
    let models = parse_models("chatter\n\t no id\n  a-model \t  A Model  \n");
    assert_eq!(models.len(), 1);
    assert_eq!(models[0].id, "a-model");
    assert_eq!(models[0].label, "A Model");
}

#[test]
fn the_envelope_is_the_last_line_opening_an_object() {
    let out = "warming up\n{\"status\":\"SUCCESS\",\"structured_output\":{\"a\":1}}\n";
    assert_eq!(
        last_json_line(out).as_deref(),
        Some("{\"status\":\"SUCCESS\",\"structured_output\":{\"a\":1}}")
    );
    assert_eq!(last_json_line("{\"a\":1}\n  {\"b\":2}  \ntail\n").as_deref(), Some("{\"b\":2}"));
    assert_eq!(last_json_line("command not found\n"), None);
    assert_eq!(last_json_line(""), None);
}

#[test]
fn truncation_marks_what_was_cut() {
    assert_eq!(truncate("абвгд", 3), "абв…");
    assert_eq!(truncate("абв", 3), "абв");
}

#[test]
fn the_cli_is_asked_for_schema_bound_json() {
    let args = agy_args("prompt", "model-x", "/tmp/s.json", 90);
    assert_eq!(
        args,
        vec![
            "--print", "prompt", "--model", "model-x", "--output-format", "json", "--json-schema",
            "/tmp/s.json", "--print-timeout", "90s",
        ]
    );
}

#[test]
fn a_model_choice_must_name_both_tiers() {
    let ok = checked_models(&ModelSettings { smart: "  big ".into(), fast: "small\n".into() }).unwrap();
    assert_eq!((ok.smart.as_str(), ok.fast.as_str()), ("big", "small"));
    let err = checked_models(&ModelSettings { smart: "big".into(), fast: "   ".into() }).err();
    assert_eq!(err.as_deref(), Some("оберіть модель для обох рівнів"));
}

#[test]
fn a_failed_run_reports_its_exit_and_a_missing_envelope_is_an_error() {
    let out = "warming up\n{\"status\":\"SUCCESS\",\"structured_output\":{\"a\":1}}\n";
    assert_eq!(
        reply_line(true, "exit status: 0", out, "").unwrap(),
        "{\"status\":\"SUCCESS\",\"structured_output\":{\"a\":1}}"
    );
    assert_eq!(
        reply_line(true, "exit status: 0", "command not found\n", "").err().as_deref(),
        Some("agy produced no JSON: command not found")
    );
    assert_eq!(
        reply_line(false, "exit status: 2", out, "  bad flag \n").err().as_deref(),
        Some("agy exited with exit status: 2: bad flag")
    );
    let long = "x".repeat(600);
    let err = reply_line(false, "exit status: 1", "", &long).unwrap_err();
    assert_eq!(err.chars().count(), "agy exited with exit status: 1: ".chars().count() + 501);
}

#[test]
fn an_envelope_without_success_or_output_is_no_answer() {
    assert_eq!(envelope_problem("SUCCESS", None, true), None);
    assert_eq!(
        envelope_problem("ERROR", Some("quota"), true).as_deref(),
        Some("agy returned status ERROR: quota")
    );
    assert_eq!(envelope_problem("ERROR", None, true).as_deref(), Some("agy returned status ERROR: "));
    assert_eq!(
        envelope_problem("SUCCESS", None, false).as_deref(),
        Some("agy returned no structured_output")
    );
}
