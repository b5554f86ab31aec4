use neuraldeep_desktop::backend::{
    backend_status_state, keep_stopping, plan_backend, sandbox_enabled, sandbox_marker_text,
    seatbelt_profile, BackendPlan,
};

#[test]
fn sandbox_marker() {
    assert!(sandbox_enabled(Some(" 1\n".to_string())));
    assert!(!sandbox_enabled(Some("0".to_string())));
    assert!(!sandbox_enabled(Some("11".to_string())));
    assert!(!sandbox_enabled(None));
    assert_eq!(sandbox_marker_text(true), "1");
    assert_eq!(sandbox_marker_text(false), "0");
}

#[test]
fn seatbelt_profile_text() {
    let p = seatbelt_profile("/w", "/h/.neuraldeep/hermes", "/h");
    assert_eq!(
        p,
        "(version 1)\n(allow default)\n(deny file-write*)\n(allow file-write*\n  (subpath \"/w\")\n  (subpath \"/h/.neuraldeep/hermes\")\n  (subpath \"/tmp\")\n  (subpath \"/private/tmp\")\n  (subpath \"/private/var/folders\")\n  (subpath \"/h/Library/Caches\")\n  (subpath \"/h/.cache\")\n  (subpath \"/dev\"))\n"
    );
}

#[test]
fn plans() {
    assert!(matches!(plan_backend(true, Some("/l".into()), true, "/w", "/hh", "/h"), BackendPlan::Reuse));
    assert!(matches!(plan_backend(false, None, false, "/w", "/hh", "/h"), BackendPlan::NoLauncher));
    match plan_backend(false, Some("/hh/hermes-agent/venv/bin/hermes".into()), false, "/w", "/hh", "/h") {
        BackendPlan::Spawn { program, args, cwd, hermes_home, log_path, profile } => {
            assert_eq!(program, "/hh/hermes-agent/venv/bin/hermes");
            assert_eq!(args, vec!["gateway".to_string()]);
            assert_eq!(cwd, "/w");
            assert_eq!(hermes_home, "/hh");
            assert_eq!(log_path, "/hh/logs/devrun-gateway.log");
            assert!(profile.is_none());
        }
        other => panic!("unexpected {other:?}"),
    }
    match plan_backend(false, Some("/l".into()), true, "/w", "/hh", "/h") {
        BackendPlan::Spawn { program, args, profile, .. } => {
            assert_eq!(program, "sandbox-exec");
            assert_eq!(args, vec!["-f", "/hh/.nd-sandbox.sb", "/l", "gateway"]);
            let (path, text) = profile.unwrap();
            assert_eq!(path, "/hh/.nd-sandbox.sb");
            assert_eq!(text, seatbelt_profile("/w", "/hh", "/h"));
        }
        other => panic!("unexpected {other:?}"),
    }
}

#[test]
fn status_states() {
    assert_eq!(backend_status_state(true, false, "error"), "online");
    assert_eq!(backend_status_state(false, false, "error"), "needs_provision");
    assert_eq!(backend_status_state(false, true, ""), "starting");
    assert_eq!(backend_status_state(false, true, "reused"), "reused");
}

#[test]
fn restart_attempts() {
    assert!(keep_stopping(0, true));
    assert!(keep_stopping(29, true));
    assert!(!keep_stopping(30, true));
    assert!(!keep_stopping(3, false));
}
