use signal_bot::lua_api::{llm_reply_text, LlmChoice, LlmMessage, LlmReply};
use signal_bot::ai::{api_error, completions_url, first_choice_content, AiClient, ChatChoice, ChatMessageResponse, ChatResponse};
use signal_bot::context::{reaction_recipient, reply_target, MessageContext, MessageTarget};
use signal_bot::error::BotError;
use signal_bot::lua_api::{
    ai_unavailable, broadcast_targets, edit_destination, history_scope, is_safe_name,
    llm_messages, new_reminder_id, next_reminder_id, reminder_id, reminder_id_of, reminder_number_of, reminder_line, reminder_matches, with_prefix,
    AiPluginConfig, HistoryScope, ScheduledReminder,
};

fn strings(ws: &[&str]) -> Vec<String> {
    ws.iter().map(|w| w.to_string()).collect()
}

#[test]
fn endpoint_drops_trailing_slashes() {
    assert_eq!(completions_url("https://openrouter.ai/api/v1"), "https://openrouter.ai/api/v1/chat/completions");
    assert_eq!(completions_url("https://x.test/v1//"), "https://x.test/v1/chat/completions");
    let c = AiClient::new("http://h/".to_string(), "SECRET-REDACTED".to_string(), reqwest::Client::new());
    assert_eq!(c.endpoint(), "http://h/chat/completions");
    assert_eq!(c.api_key(), "SECRET-REDACTED");
    let req = c.request("m1", vec![]);
    assert_eq!(req.model, "m1");
}

#[test]
fn first_choice_or_error() {
    let resp = ChatResponse {
        choices: vec![
            ChatChoice { message: ChatMessageResponse { content: "one".into() } },
            ChatChoice { message: ChatMessageResponse { content: "two".into() } },
        ],
    };
    assert_eq!(first_choice_content(resp).ok(), Some("one".to_string()));
    match first_choice_content(ChatResponse { choices: vec![] }) {
        Err(BotError::Internal(m)) => assert_eq!(m, "No choices returned from AI API"),
        _ => panic!("expected error"),
    }
    match api_error("429 Too Many Requests", "slow down") {
        BotError::Internal(m) => assert_eq!(m, "AI API error: 429 Too Many Requests - slow down"),
        _ => panic!("expected internal"),
    }
}

#[test]
fn prompt_messages() {
    let m = llm_messages("Be brief.", &strings(&["hi", "there"]), "q?");
    let got: Vec<(String, String)> = m.into_iter().map(|x| (x.role, x.content)).collect();
    assert_eq!(got, vec![
        ("system".to_string(), "Be brief.".to_string()),
        ("user".to_string(), "hi".to_string()),
        ("user".to_string(), "there".to_string()),
        ("user".to_string(), "q?".to_string()),
    ]);
    let m2 = llm_messages("", &vec![], "only");
    assert_eq!(m2.len(), 1);
    assert_eq!(m2[0].role, "user");
}

#[test]
fn ai_availability() {
    assert_eq!(ai_unavailable(&None), Some("AI is not configured".to_string()));
    let mut cfg = AiPluginConfig { enabled: false, base_url: "b".into(), api_key: "k".into(), model: "m".into(), system_prompt: "".into() };
    assert_eq!(ai_unavailable(&Some(cfg.clone())), Some("AI is disabled".to_string()));
    cfg.enabled = true;
    assert_eq!(ai_unavailable(&Some(cfg)), None);
}

#[test]
fn safe_names() {
    assert!(is_safe_name("pins.txt"));
    assert!(is_safe_name("a.b"));
    assert!(!is_safe_name("../etc"));
    assert!(!is_safe_name("a/b"));
    assert!(!is_safe_name("a\\b"));
    assert!(!is_safe_name("x..y"));
}

#[test]
fn prefix_placeholder_is_replaced() {
    assert_eq!(with_prefix("Use {::prefix}poll or {::prefix}help", "!"), "Use !poll or !help");
}

#[test]
fn reminder_ids_count_up() {
    assert_eq!(next_reminder_id(&vec![]), Some(1));
    assert_eq!(next_reminder_id(&strings(&["1.json", "7.json", "x.json", "9.txt", "3.json.json"])), Some(8));
    assert_eq!(next_reminder_id(&strings(&["+4.json", "readme"])), Some(5));
    assert_eq!(next_reminder_id(&strings(&["18446744073709551615.json"])), None);
    assert_eq!(reminder_number_of("0042.json"), Some(42));
    assert_eq!(reminder_number_of("42.txt"), None);
}

#[test]
fn reminder_ids_have_six_characters() {
    assert_eq!(reminder_id(1), "000001");
    assert_eq!(reminder_id(42), "000042");
    assert_eq!(reminder_id(999999), "999999");
    assert_eq!(reminder_id(1234567), "1234567");
    assert_eq!(new_reminder_id(&vec![]), Some("000001".to_string()));
    let present = strings(&["000001.json", "7.json", "notes.txt"]);
    let id = new_reminder_id(&present).unwrap();
    assert_eq!(id, "000008");
    assert!(!present.contains(&format!("{}.json", id)));
    // Past the six-digit range, the first free six-character id is taken.
    let full = strings(&["999999.json", "000001.json", "3.json"]);
    assert_eq!(new_reminder_id(&full), Some("000000".to_string()));
    let crowded = strings(&["999999.json", "000000.json", "000001.json"]);
    assert_eq!(new_reminder_id(&crowded), Some("000002".to_string()));
    let huge = strings(&["18446744073709551615.json"]);
    assert_eq!(new_reminder_id(&huge), Some("000000".to_string()));
}

#[test]
fn reminder_file_ids_and_lines() {
    assert_eq!(reminder_id_of("12.json"), Some("12".to_string()));
    assert_eq!(reminder_id_of("12.json.bak"), None);
    assert_eq!(reminder_id_of(".json"), None);
    let r = ScheduledReminder { target_time: 1700000000, is_group: true, group_id: Some("G".into()), sender_uuid: "u".into(), text: "Pizza time!".into() };
    assert_eq!(reminder_line("3", &r), "3|1700000000|Pizza time!");
    assert!(reminder_matches(&r, true, &Some("G".into()), "other"));
    assert!(!reminder_matches(&r, true, &Some("H".into()), "u"));
    assert!(!reminder_matches(&r, false, &None, "u"));
    let d = ScheduledReminder { target_time: 1, is_group: false, group_id: None, sender_uuid: "u".into(), text: "t".into() };
    assert!(reminder_matches(&d, false, &None, "u"));
    assert!(!reminder_matches(&d, false, &None, "v"));
}

#[test]
fn destinations() {
    assert!(matches!(reply_target(true, &Some("G".into()), "u"), Some(MessageTarget::Group(g)) if g == "G"));
    assert!(reply_target(true, &None, "u").is_none());
    assert!(matches!(reply_target(false, &Some("G".into()), "u"), Some(MessageTarget::Recipient(r)) if r == "u"));
    assert_eq!(reaction_recipient(true, &None, "u"), "");
    assert_eq!(reaction_recipient(false, &Some("G".into()), "u"), "u");
    assert_eq!(edit_destination(false, &None, "u", &Some("G".into())), (Some("u".to_string()), None));
    assert_eq!(edit_destination(false, &Some("+1".into()), "u", &None), (Some("+1".to_string()), None));
    assert_eq!(edit_destination(true, &Some("+1".into()), "u", &Some("G".into())), (None, Some("G".to_string())));
    let ctx = MessageContext { client: (), sender_uuid: "u".into(), sender_number: None, sender_name: None, group_id: Some("G".into()), text: "hi".into(), timestamp: 5, is_group: true };
    assert!(matches!(ctx.reply_target(), Some(MessageTarget::Group(g)) if g == "G"));
    assert_eq!(ctx.reaction_recipient(), "G");
}

#[test]
fn broadcast_and_history() {
    let t = broadcast_targets(&strings(&["g1", "g2"]), &strings(&["a1"]));
    assert_eq!(t.len(), 3);
    assert!(matches!(&t[0], MessageTarget::Group(g) if g == "g1"));
    assert!(matches!(&t[1], MessageTarget::Group(g) if g == "g2"));
    assert!(matches!(&t[2], MessageTarget::Recipient(a) if a == "a1"));
    assert!(matches!(history_scope(true, &None, "u"), HistoryScope::Group(g) if g.is_empty()));
    assert!(matches!(history_scope(false, &Some("G".into()), "u"), HistoryScope::Direct(u) if u == "u"));
}

#[test]
fn ai_answer_text_is_the_first_choice() {
    let msg = |c: Option<&str>| Some(LlmMessage { content: c.map(|s| s.to_string()) });
    let reply = LlmReply {
        choices: Some(vec![LlmChoice { message: msg(Some("hello")) }, LlmChoice { message: msg(Some("other")) }]),
    };
    assert_eq!(llm_reply_text(reply), "hello");
    assert_eq!(llm_reply_text(LlmReply { choices: Some(vec![]) }), "");
    assert_eq!(llm_reply_text(LlmReply { choices: None }), "");
    assert_eq!(llm_reply_text(LlmReply { choices: Some(vec![LlmChoice { message: msg(None) }]) }), "");
    assert_eq!(llm_reply_text(LlmReply { choices: Some(vec![LlmChoice { message: None }]) }), "");
}
