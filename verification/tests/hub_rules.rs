use neuraldeep_desktop::config::{current_hub_key, set_model_block};
use neuraldeep_desktop::hub::{
    bearer, chat_stream_url, context_window, device_start, hermes_url, image_action, image_aspect,
    image_task_uid, image_task_url, require_hub_key, session_id_from, session_url,
    timeout_message, title_from_reply, title_request, validate_hub_key, DeviceStep, HubModel,
    ImageAction,
};

#[test]
fn addresses() {
    assert_eq!(hermes_url("/health"), "http://127.0.0.1:8642/health");
    assert_eq!(session_url("abc"), "http://127.0.0.1:8642/api/sessions/abc");
    assert_eq!(chat_stream_url("abc"), "http://127.0.0.1:8642/api/sessions/abc/chat/stream");
    assert_eq!(bearer("k"), "Bearer k");
    assert_eq!(image_task_url("u1", false), "https://api.neuraldeep.ru/v1/images/tasks/u1");
    assert_eq!(image_task_url("u1", true), "https://api.neuraldeep.ru/v1/images/tasks/u1/result");
}

#[test]
fn hub_key_required() {
    assert_eq!(require_hub_key(String::new()), Err("no hub key".to_string()));
    assert_eq!(require_hub_key("sk-1".to_string()), Ok("sk-1".to_string()));
}

#[test]
fn key_validation() {
    assert_eq!(validate_hub_key("  sk-0123456789  "), Ok("sk-0123456789".to_string()));
    let msg = "Это не похоже на ключ NeuralDeep (должен начинаться с sk-)".to_string();
    assert_eq!(validate_hub_key("sk-short"), Err(msg.clone()));
    assert_eq!(validate_hub_key("pk-0123456789"), Err(msg.clone()));
    // 12 bytes though fewer characters
    assert_eq!(validate_hub_key("sk-ключик"), Ok("sk-ключик".to_string()));
    assert_eq!(validate_hub_key("sk-абв"), Err(msg));
}

#[test]
fn accepted_key_signs_in() {
    let k = validate_hub_key(" sk-abcdefghijk ").unwrap();
    let cfg = set_model_block("terminal:\n  cwd: /x\n", &k);
    assert_eq!(current_hub_key(&cfg), "sk-abcdefghijk");
}

#[test]
fn session_ids() {
    assert_eq!(session_id_from(Some("a".into()), Some("b".into())), Ok("a".to_string()));
    assert_eq!(session_id_from(None, Some("b".into())), Ok("b".to_string()));
    assert_eq!(session_id_from(None, None), Err("no session id in response".to_string()));
}

#[test]
fn titles() {
    assert_eq!(title_from_reply(Some("  \"Hello world\"\n".into())), Ok("Hello world".to_string()));
    assert_eq!(title_from_reply(Some("\"\"".into())), Err("empty title".to_string()));
    assert_eq!(title_from_reply(None), Err("empty title".to_string()));
    let r = title_request("hi".to_string());
    assert_eq!(r.model, "gemma-4-31b-noreason");
    assert_eq!(r.max_tokens, 24);
    assert_eq!(r.user, "hi");
}

#[test]
fn context_of_active_model() {
    let models = vec![
        HubModel { id: Some("a".into()), ctx: Some(1000) },
        HubModel { id: Some("b".into()), ctx: None },
        HubModel { id: Some("b".into()), ctx: Some(5) },
        HubModel { id: None, ctx: Some(7) },
    ];
    assert_eq!(context_window(&models, "a"), 1000);
    assert_eq!(context_window(&models, "b"), 0);
    assert_eq!(context_window(&models, "c"), 0);
    assert_eq!(context_window(&Vec::new(), "a"), 0);
}

#[test]
fn device_flow() {
    assert_eq!(
        device_start(None, None, None, None, None, None).err(),
        Some("device/start не вернул код".to_string())
    );
    let s = device_start(Some("dc".into()), Some("UC".into()), None, Some("https://v".into()), Some(1), None)
        .ok()
        .unwrap();
    assert_eq!(s.device_code, "dc");
    assert_eq!(s.user_code, "UC");
    assert_eq!(s.url, "https://v");
    let mut poll = s.poll;
    assert_eq!(poll.interval(), 2);
    assert!(matches!(poll.on_reply(None, Some("authorization_pending".into())), DeviceStep::Wait));
    assert!(matches!(poll.on_reply(None, Some("slow_down".into())), DeviceStep::Wait));
    assert_eq!(poll.interval(), 7);
    assert!(matches!(poll.on_reply(None, Some("access_denied".into())), DeviceStep::Denied));
    assert!(matches!(poll.on_reply(None, Some("expired_token".into())), DeviceStep::Expired));
    match poll.on_reply(Some("sk-token".into()), Some("slow_down".into())) {
        DeviceStep::Approved(k) => assert_eq!(k, "sk-token"),
        other => panic!("unexpected {other:?}"),
    }
    assert_eq!(DeviceStep::Denied.message(), "Вход отклонён");
    assert_eq!(timeout_message(), "Время вышло — попробуй ещё раз");
}

#[test]
fn device_poll_times_out() {
    let s = device_start(Some("dc".into()), None, Some("https://full".into()), None, None, Some(10))
        .ok()
        .unwrap();
    assert_eq!(s.url, "https://full");
    let mut poll = s.poll;
    assert_eq!(poll.interval(), 5);
    assert!(!poll.tick());
    assert!(!poll.tick());
    assert!(poll.tick());
    // the shortest interval: 2 s waits against a 5 s code end at the third wait
    let mut short = device_start(Some("dc".into()), None, None, None, Some(0), Some(5)).ok().unwrap().poll;
    assert!(!short.tick());
    assert!(!short.tick());
    assert!(short.tick());
    let d = device_start(Some("dc".into()), None, None, None, None, None).ok().unwrap();
    assert_eq!(d.url, "https://hub.neuraldeep.ru/app/device");
}

#[test]
fn image_polling() {
    assert_eq!(image_action(1, Some("finished".into())), ImageAction::Fetch);
    assert_eq!(image_action(1, Some("failed".into())), ImageAction::Fail);
    assert_eq!(image_action(1, Some("error".into())), ImageAction::Fail);
    assert_eq!(image_action(1, Some("running".into())), ImageAction::PollAgain);
    assert_eq!(image_action(29, None), ImageAction::PollAgain);
    assert_eq!(image_action(30, None), ImageAction::Fetch);
    assert_eq!(image_aspect(None), "1:1");
    assert_eq!(image_aspect(Some("16:9".into())), "16:9");
    assert_eq!(image_task_uid(Some("u".into()), "{}"), Ok("u".to_string()));
    assert_eq!(image_task_uid(None, "{\"x\":1}"), Err("no task_uid: {\"x\":1}".to_string()));
}
