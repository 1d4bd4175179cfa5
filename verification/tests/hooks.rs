//! The Stop hook and its installation.

use backcheck::hook::{
    allow_output, block_output, hook_action, install_into, plan_install, plan_uninstall,
    settings_file, uninstall_from, HookAction, HookInput, InstallError,
};
use backcheck::json::Json;

#[test]
fn block_output_is_valid_hook_json() {
    let v: serde_json::Value = serde_json::from_str(&block_output("because")).unwrap();
    assert_eq!(v["decision"], "block");
    assert_eq!(v["reason"], "because");
}

#[test]
fn hook_answers_are_exact() {
    assert_eq!(
        block_output("a \"b\"\n"),
        r#"{"decision":"block","reason":"a \"b\"\n"}"#
    );
    assert_eq!(allow_output(), r#"{"continue":true}"#);
}

#[test]
fn the_hook_blocks_only_where_it_may() {
    assert_eq!(hook_action(true, false, false), HookAction::Block);
    assert_eq!(hook_action(true, true, false), HookAction::Report);
    assert_eq!(hook_action(true, false, true), HookAction::Report);
    assert_eq!(hook_action(true, true, true), HookAction::Report);
    assert_eq!(hook_action(false, false, false), HookAction::Allow);
    assert_eq!(hook_action(false, true, true), HookAction::Allow);
}

#[test]
fn the_payload_names_the_transcript() {
    let mut h = HookInput::default();
    assert_eq!(h.transcript(), None);
    assert!(!h.stop_hook_active);
    h.transcript_path = Some("/tmp/s.jsonl".to_string());
    assert_eq!(h.transcript().as_deref(), Some("/tmp/s.jsonl"));
}

#[test]
fn settings_files_are_named() {
    assert_eq!(settings_file(true), "settings.json");
    assert_eq!(settings_file(false), "settings.local.json");
}

#[test]
fn installing_starts_from_nothing() {
    let fresh = "{\n  \"hooks\": {\n    \"Stop\": [\n      {\n        \"hooks\": [\n          {\n            \"command\": \"backcheck hook\",\n            \"type\": \"command\"\n          }\n        ]\n      }\n    ]\n  }\n}\n";
    assert_eq!(plan_install(&None, true).unwrap(), fresh);
    assert_eq!(plan_install(&Some(" \n".to_string()), true).unwrap(), fresh);
    assert_eq!(
        plan_install(&None, false).unwrap(),
        fresh.replace("backcheck hook", "backcheck hook --no-block")
    );
}

#[test]
fn installing_twice_keeps_settings_and_adds_one_hook() {
    let before = r#"{"model":"opus","hooks":{"Stop":[{"hooks":[{"type":"command","command":"other"}]}]}}"#;
    let once = plan_install(&Some(before.to_string()), true).unwrap();
    let twice = plan_install(&Some(once.clone()), true).unwrap();
    assert_eq!(once, twice);

    let v: serde_json::Value = serde_json::from_str(&twice).unwrap();
    assert_eq!(v["model"], "opus", "unrelated settings must survive");
    let stop = v["hooks"]["Stop"].as_array().unwrap();
    assert_eq!(stop.len(), 2, "existing hook kept, backcheck added once");
    assert_eq!(stop[0]["hooks"][0]["command"], "other");
    assert_eq!(stop[1]["hooks"][0]["command"], "backcheck hook");
}

#[test]
fn installing_again_can_change_the_mode() {
    let blocking = plan_install(&None, true).unwrap();
    let advisory = plan_install(&Some(blocking), false).unwrap();
    assert_eq!(advisory, plan_install(&None, false).unwrap());
}

#[test]
fn uninstalling_undoes_installing() {
    let before = r#"{"hooks":{"Stop":[{"hooks":[{"command":"other","type":"command"}]}]},"model":"opus"}"#;
    let settings = Json::parse(before).unwrap();
    let with = install_into(&settings, false).unwrap();
    let without = uninstall_from(&with).unwrap();
    assert_eq!(without.to_text(), before);
    assert!(uninstall_from(&without).is_none());
}

#[test]
fn uninstalling_leaves_other_settings_alone() {
    assert_eq!(plan_uninstall("{}"), Ok(None));
    assert_eq!(plan_uninstall(r#"{"hooks":[]}"#), Ok(None));
    assert_eq!(plan_uninstall(r#"{"hooks":{"Stop":{}}}"#), Ok(None));
    assert_eq!(plan_uninstall("not json"), Err(InstallError::NotJson));

    let installed = plan_install(&None, true).unwrap();
    assert_eq!(
        plan_uninstall(&installed).unwrap().unwrap(),
        "{\n  \"hooks\": {\n    \"Stop\": []\n  }\n}\n"
    );
}

#[test]
fn settings_of_another_shape_are_refused() {
    let plan = |raw: &str| plan_install(&Some(raw.to_string()), true).unwrap_err();
    assert_eq!(plan("{"), InstallError::NotJson);
    assert_eq!(plan("[]"), InstallError::SettingsNotObject);
    assert_eq!(plan(r#"{"hooks":1}"#), InstallError::HooksNotObject);
    assert_eq!(plan(r#"{"hooks":{"Stop":1}}"#), InstallError::StopNotArray);
}

#[test]
fn install_errors_say_what_is_wrong() {
    assert_eq!(
        InstallError::NotJson.message(),
        "not valid JSON; fix it before installing"
    );
    assert_eq!(
        InstallError::SettingsNotObject.message(),
        "settings.json must contain a JSON object"
    );
    assert_eq!(
        InstallError::HooksNotObject.message(),
        "`hooks` must be a JSON object"
    );
    assert_eq!(
        InstallError::StopNotArray.message(),
        "`hooks.Stop` must be an array"
    );
}

#[test]
fn settings_come_back_whole() {
    let before = "{\n  \"hooks\": {\n    \"Other\": [],\n    \"Stop\": [\n      {\n        \"hooks\": [\n          {\n            \"command\": \"other\",\n            \"timeout\": 60\n          }\n        ]\n      }\n    ]\n  },\n  \"model\": \"opus\"\n}\n";
    for blocking in [false, true] {
        let with = plan_install(&Some(before.to_string()), blocking).unwrap();
        assert_ne!(with, before);
        let without = plan_uninstall(&with).unwrap().unwrap();
        assert_eq!(without, before);
        assert_eq!(plan_uninstall(&without), Ok(None));
    }
}

#[test]
fn numbers_come_back_as_they_are_written() {
    let before = r#"{"hooks":{"Stop":[]},"timeouts":[1.50,1e3,-0,7]}"#;
    let with = plan_install(&Some(before.to_string()), true).unwrap();
    assert_eq!(plan_install(&Some(with.clone()), true).unwrap(), with);
    let without = plan_uninstall(&with).unwrap().unwrap();
    assert_eq!(
        Json::parse(&without).unwrap().to_text(),
        r#"{"hooks":{"Stop":[]},"timeouts":[1.5,1000.0,-0.0,7]}"#
    );
    let read: serde_json::Value = serde_json::from_str(&without).unwrap();
    let first: serde_json::Value = serde_json::from_str(before).unwrap();
    assert_eq!(read, first);
}
