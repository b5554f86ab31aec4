use neuraldeep_desktop::config::{
    append_server_key, apply_config_updates, auto_accept, current_hub_key, read_yaml_field,
    resolve_env_key, resolve_hub_key, set_model_block, set_terminal_cwd, split_config_key,
    write_yaml_field,
};

const CONFIG: &str = "model:\n  default: qwen3.6-35b-a3b\n  provider: custom\n  api_key: sk-old\nterminal:\n  backend: local\n  cwd: /Users/me\nhooks_auto_accept: false\n";

#[test]
fn reads_field_under_section() {
    assert_eq!(read_yaml_field(CONFIG, "model", "default"), Some("qwen3.6-35b-a3b".to_string()));
    assert_eq!(read_yaml_field(CONFIG, "terminal", "cwd"), Some("/Users/me".to_string()));
    assert_eq!(read_yaml_field(CONFIG, "terminal", "default"), None);
    assert_eq!(read_yaml_field(CONFIG, "nosuch", "cwd"), None);
}

#[test]
fn writes_field_under_section_keeping_indent() {
    let out = write_yaml_field(CONFIG, Some("model"), "default", "gpt-oss-120b").unwrap();
    assert!(out.contains("\n  default: gpt-oss-120b\n"));
    assert_eq!(read_yaml_field(&out, "model", "default"), Some("gpt-oss-120b".to_string()));
    assert_eq!(out.lines().count(), CONFIG.lines().count());
}

#[test]
fn writes_top_level_field() {
    let out = write_yaml_field(CONFIG, None, "hooks_auto_accept", "true").unwrap();
    assert!(out.ends_with("hooks_auto_accept: true\n"));
    assert!(auto_accept(&out));
    assert!(!auto_accept(CONFIG));
}

#[test]
fn missing_field_is_not_written() {
    assert_eq!(write_yaml_field(CONFIG, Some("model"), "temperature", "1"), None);
    assert_eq!(write_yaml_field(CONFIG, None, "default", "x"), None);
}

#[test]
fn only_first_target_is_replaced() {
    let txt = "a:\n  x: 1\n  x: 2\n";
    assert_eq!(write_yaml_field(txt, Some("a"), "x", "9"), Some("a:\n  x: 9\n  x: 2\n".to_string()));
}

#[test]
fn split_keys() {
    assert_eq!(split_config_key("model.default"), (Some("model".to_string()), "default".to_string()));
    assert_eq!(split_config_key("a.b.c"), (Some("a".to_string()), "b.c".to_string()));
    assert_eq!(split_config_key("toplevel"), (None, "toplevel".to_string()));
}

#[test]
fn applies_updates_in_order() {
    let ups = vec![
        ("model.default".to_string(), "kimi-k2.6".to_string()),
        ("hooks_auto_accept".to_string(), "true".to_string()),
        ("nosuch.key".to_string(), "1".to_string()),
    ];
    let out = apply_config_updates(CONFIG, &ups).unwrap();
    assert_eq!(read_yaml_field(&out, "model", "default"), Some("kimi-k2.6".to_string()));
    assert!(auto_accept(&out));
    assert_eq!(apply_config_updates(CONFIG, &vec![("nope".to_string(), "1".to_string())]), None);
}

#[test]
fn persists_terminal_cwd() {
    let out = set_terminal_cwd(CONFIG, "/tmp/project").unwrap();
    assert_eq!(read_yaml_field(&out, "terminal", "cwd"), Some("/tmp/project".to_string()));
    assert_eq!(set_terminal_cwd("model:\n  default: x\n", "/tmp"), None);
}

#[test]
fn model_block_replaced_and_key_read_back() {
    let out = set_model_block(CONFIG, "sk-new-key-123");
    assert!(out.starts_with("model:\n  default: qwen3.6-35b-a3b\n  provider: custom\n  base_url: https://api.neuraldeep.ru/v1\n  api_key: sk-new-key-123\nterminal:\n"));
    assert_eq!(current_hub_key(&out), "sk-new-key-123");
    assert_eq!(current_hub_key(CONFIG), "sk-old");
}

#[test]
fn model_block_prepended_when_missing() {
    let out = set_model_block("terminal:\n  cwd: /x\n", "");
    assert_eq!(
        out,
        "model:\n  default: qwen3.6-35b-a3b\n  provider: custom\n  base_url: https://api.neuraldeep.ru/v1\n  api_key: \nterminal:\n  cwd: /x\n"
    );
    assert_eq!(current_hub_key(&out), "");
    assert_eq!(current_hub_key(""), "");
}

#[test]
fn model_block_body_with_comments_and_blanks_is_dropped() {
    let txt = "x: 1\nmodel:\n  default: a\n# note\n\n\tapi_key: old\ny: 2\n";
    let out = set_model_block(txt, "K");
    assert!(out.starts_with("x: 1\nmodel:\n"));
    assert!(out.ends_with("  api_key: K\ny: 2\n"));
    assert!(!out.contains("old"));
}

#[test]
fn hub_key_only_inside_model_block() {
    assert_eq!(current_hub_key("other:\n  api_key: nope\nmodel:\n  api_key:  yes \n"), "yes");
    assert_eq!(current_hub_key("model:\n  default: a\nother:\n  api_key: nope\n"), "");
}

#[test]
fn env_key_resolution() {
    let env = "# comment\nAPI_SERVER_KEY= abc \nOTHER=1\n";
    assert_eq!(resolve_env_key(None, Some(env.to_string()), "API_SERVER_KEY"), "abc");
    assert_eq!(resolve_env_key(Some("fromenv".to_string()), Some(env.to_string()), "API_SERVER_KEY"), "fromenv");
    assert_eq!(resolve_env_key(Some(String::new()), Some(env.to_string()), "OTHER"), "1");
    assert_eq!(resolve_env_key(None, None, "X"), "");
}

#[test]
fn hub_key_resolution() {
    assert_eq!(resolve_hub_key("env".to_string(), Some(CONFIG.to_string())), "env");
    assert_eq!(resolve_hub_key(String::new(), Some(CONFIG.to_string())), "sk-old");
    assert_eq!(resolve_hub_key(String::new(), None), "");
}

#[test]
fn server_key_appended_and_read_back() {
    assert_eq!(append_server_key("A=1", "k"), "A=1\nAPI_SERVER_KEY=k\n");
    assert_eq!(append_server_key("", "k"), "API_SERVER_KEY=k\n");
    let env = append_server_key("A=1\n", "deadbeef");
    assert_eq!(env, "A=1\nAPI_SERVER_KEY=deadbeef\n");
    assert_eq!(resolve_env_key(None, Some(env), "API_SERVER_KEY"), "deadbeef");
}

#[test]
fn empty_field_write_then_read() {
    let out = write_yaml_field("s:\n  : old\nt: 1\n", Some("s"), "", "new").unwrap();
    assert_eq!(out, "s:\n  : new\nt: 1\n");
    assert_eq!(read_yaml_field(&out, "s", ""), Some("new".to_string()));
}

#[test]
fn model_block_written_twice_is_written_once() {
    for txt in [
        "",
        "model:\n  default: x\n  # note\n\nterminal:\n  cwd: /w\n",
        "terminal:\n  cwd: /w\nmodel: old\n",
        "terminal:\n  cwd: /w\n",
    ] {
        let once = set_model_block(txt, "sk-key");
        assert_eq!(set_model_block(&once, "sk-key"), once, "config {txt:?}");
    }
    // a key ending in a carriage return: it is read back without it, and the
    // block is replaced again with the same text
    for txt in ["", "model:\n  default: x\nterminal:\n  cwd: /w\n", "x: 1\n"] {
        let once = set_model_block(txt, "sk-key\r");
        assert_eq!(set_model_block(&once, "sk-key\r"), once, "config {txt:?}");
    }
    // a config that starts with a comment loses it on the second write
    let once = set_model_block("# top\nx: 1\n", "k");
    assert_ne!(set_model_block(&once, "k"), once);
}
