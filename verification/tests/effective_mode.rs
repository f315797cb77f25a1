use kobo_driver::config::{effective_mode, KoboMode};

#[test]
fn pipeline_cli_overrides_file_and_config() {
    let result = effective_mode(Some(KoboMode::Strict), Some(KoboMode::Checked), KoboMode::Script);
    assert_eq!(result, KoboMode::Strict);
}

#[test]
fn pipeline_file_overrides_config() {
    let result = effective_mode(None, Some(KoboMode::Checked), KoboMode::Script);
    assert_eq!(result, KoboMode::Checked);
}

#[test]
fn pipeline_config_is_fallback() {
    let result = effective_mode(None, None, KoboMode::Checked);
    assert_eq!(result, KoboMode::Checked);
}

#[test]
fn pipeline_cli_overrides_file_when_both_set() {
    let result = effective_mode(Some(KoboMode::Script), Some(KoboMode::Strict), KoboMode::Checked);
    assert_eq!(result, KoboMode::Script);
}

#[test]
fn pipeline_no_file_no_cli_uses_config() {
    let result = effective_mode(None, None, KoboMode::Script);
    assert_eq!(result, KoboMode::Script);
}

#[test]
fn support_cli_overrides_file_and_config() {
    let result = effective_mode(Some(KoboMode::Strict), Some(KoboMode::Checked), KoboMode::Script);
    assert_eq!(result, KoboMode::Strict);
}

#[test]
fn support_file_overrides_config() {
    let result = effective_mode(None, Some(KoboMode::Checked), KoboMode::Script);
    assert_eq!(result, KoboMode::Checked);
}

#[test]
fn support_config_is_fallback() {
    let result = effective_mode(None, None, KoboMode::Checked);
    assert_eq!(result, KoboMode::Checked);
}

#[test]
fn support_cli_overrides_file_when_both_set() {
    let result = effective_mode(Some(KoboMode::Script), Some(KoboMode::Strict), KoboMode::Checked);
    assert_eq!(result, KoboMode::Script);
}

#[test]
fn support_no_file_no_cli_uses_config() {
    let result = effective_mode(None, None, KoboMode::Script);
    assert_eq!(result, KoboMode::Script);
}

#[test]
fn util_cli_overrides_file_and_config() {
    let result = effective_mode(Some(KoboMode::Strict), Some(KoboMode::Checked), KoboMode::Script);
    assert_eq!(result, KoboMode::Strict);
}

#[test]
fn util_file_overrides_config() {
    let result = effective_mode(None, Some(KoboMode::Checked), KoboMode::Script);
    assert_eq!(result, KoboMode::Checked);
}

#[test]
fn util_config_is_fallback() {
    let result = effective_mode(None, None, KoboMode::Checked);
    assert_eq!(result, KoboMode::Checked);
}

#[test]
fn util_cli_overrides_file_when_both_set() {
    let result = effective_mode(Some(KoboMode::Script), Some(KoboMode::Strict), KoboMode::Checked);
    assert_eq!(result, KoboMode::Script);
}

#[test]
fn util_no_file_no_cli_uses_config() {
    let result = effective_mode(None, None, KoboMode::Script);
    assert_eq!(result, KoboMode::Script);
}
