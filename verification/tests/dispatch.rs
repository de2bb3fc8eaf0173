use signal_bot::config::{account_socket, default_socket, AccountSection};
use signal_bot::cli::send_target;
use signal_bot::commands::{CommandRouter, Route};
use signal_bot::config::{allowed_group_ids, default_cooldown_seconds, default_log_level, default_messages_per_minute, default_prefix, GroupConfig};
use signal_bot::context::MessageTarget;
use signal_bot::engine::{plan_incoming, Ignored, Incoming};
use signal_bot::plugins::{plugin_info_from, LuaProbe, PluginManager};
use signal_bot::rate_limit::RateLimiter;
use signal_bot::types::{DataMessage, Envelope, GroupInfo, Reaction};

fn envelope(text: Option<&str>, group: Option<&str>, reaction: Option<Reaction>) -> Envelope {
    Envelope {
        source: Some("+100".into()),
        source_uuid: Some("uuid-1".into()),
        source_name: Some("Ann".into()),
        timestamp: Some(1234),
        data_message: Some(DataMessage {
            message: text.map(|t| t.to_string()),
            timestamp: Some(1234),
            group_info: group.map(|g| GroupInfo { group_id: g.to_string(), group_type: None }),
            attachments: None,
            reaction,
            quote: None,
            mentions: None,
            expires_in_seconds: None,
        }),
        sync_message: None,
        receipt_message: None,
        typing_message: None,
    }
}

fn plugins() -> PluginManager {
    let mut pm = PluginManager::new(std::path::PathBuf::from("p"));
    pm.insert(plugin_info_from("wiki", "s".into(), LuaProbe::Loaded { has_on_command: true, description: None, aliases: vec![] }).ok().unwrap());
    pm
}

#[test]
fn empty_and_receipt_envelopes_are_ignored() {
    let router: CommandRouter<u8> = CommandRouter::new("!");
    let mut rl = None;
    let mut e = envelope(None, None, None);
    assert!(matches!(plan_incoming(&e, &vec![], &mut rl, &router, None), Incoming::Ignored(Ignored::Empty)));
    e.data_message = None;
    assert!(matches!(plan_incoming(&e, &vec![], &mut rl, &router, None), Incoming::Ignored(Ignored::NoDataMessage)));
}

#[test]
fn group_filter_applies() {
    let router: CommandRouter<u8> = CommandRouter::new("!");
    let mut rl = None;
    let allowed = vec!["G1".to_string()];
    let dm = envelope(Some("hi"), None, None);
    assert!(matches!(plan_incoming(&dm, &allowed, &mut rl, &router, None), Incoming::Ignored(Ignored::GroupNotAllowed)));
    let other = envelope(Some("hi"), Some("G2"), None);
    assert!(matches!(plan_incoming(&other, &allowed, &mut rl, &router, None), Incoming::Ignored(Ignored::GroupNotAllowed)));
    let ok = envelope(Some("hi"), Some("G1"), None);
    assert!(matches!(plan_incoming(&ok, &allowed, &mut rl, &router, None), Incoming::Handle(_)));
}

#[test]
fn rate_limit_refuses_after_the_limit() {
    let router: CommandRouter<u8> = CommandRouter::new("!");
    let mut rl = Some(RateLimiter::new(1, 3600));
    let e = envelope(Some("hi"), Some("G"), None);
    assert!(matches!(plan_incoming(&e, &vec![], &mut rl, &router, None), Incoming::Handle(_)));
    match plan_incoming(&e, &vec![], &mut rl, &router, None) {
        Incoming::Ignored(Ignored::RateLimited(k)) => assert_eq!(k, "G"),
        _ => panic!("expected rate limited"),
    }
}

#[test]
fn accepted_message_plan() {
    let mut router: CommandRouter<u8> = CommandRouter::new("!");
    router.register_static("ping", "Ping", "Pong!");
    let pm = plugins();
    let mut rl = None;
    let e = envelope(Some("!ping"), Some("G"), None);
    match plan_incoming(&e, &vec![], &mut rl, &router, Some(&pm)) {
        Incoming::Handle(p) => {
            assert!(matches!(p.route, Route::Reply(ref s) if s == "Pong!"));
            assert!(p.plugin.is_none());
            assert!(p.is_group);
            assert_eq!(p.group_id, Some("G".to_string()));
            assert_eq!(p.sender_uuid, "uuid-1");
            let rec = p.record.unwrap();
            assert_eq!(rec.timestamp, 1234);
            assert_eq!(rec.text, "!ping");
        }
        _ => panic!("expected a plan"),
    }
    let w = envelope(Some("!wiki rust"), None, None);
    match plan_incoming(&w, &vec![], &mut rl, &router, Some(&pm)) {
        Incoming::Handle(p) => {
            let (t, args) = p.plugin.unwrap();
            assert_eq!(t, "wiki");
            assert_eq!(args, vec!["rust".to_string()]);
            assert!(!p.is_group);
        }
        _ => panic!("expected a plan"),
    }
    let nope = envelope(Some("!nothing"), None, None);
    match plan_incoming(&nope, &vec![], &mut rl, &router, Some(&pm)) {
        Incoming::Handle(p) => assert!(p.plugin.is_none()),
        _ => panic!("expected a plan"),
    }
}

#[test]
fn reactions_reach_plugins_without_record() {
    let router: CommandRouter<u8> = CommandRouter::new("!");
    let pm = plugins();
    let mut rl = None;
    let r = Reaction { emoji: "👍".into(), target_author: Some("me".into()), target_sent_timestamp: Some(9), is_remove: Some(false) };
    let e = envelope(None, Some("G"), Some(r));
    match plan_incoming(&e, &vec![], &mut rl, &router, Some(&pm)) {
        Incoming::Handle(p) => {
            assert!(p.record.is_none());
            let x = p.reaction.unwrap();
            assert_eq!(x.emoji, "👍");
            assert_eq!(x.target_sent_timestamp, Some(9));
            assert!(matches!(p.route, Route::NotCommand));
        }
        _ => panic!("expected a plan"),
    }
    let r2 = Reaction { emoji: "x".into(), target_author: None, target_sent_timestamp: None, is_remove: None };
    let e2 = envelope(None, Some("G"), Some(r2));
    match plan_incoming(&e2, &vec![], &mut rl, &router, None) {
        Incoming::Handle(p) => assert!(p.reaction.is_none()),
        _ => panic!("expected a plan"),
    }
}

#[test]
fn configuration_defaults() {
    assert_eq!(default_prefix(), "!");
    assert_eq!(default_log_level(), "info");
    assert_eq!(default_messages_per_minute(), 20);
    assert_eq!(default_cooldown_seconds(), 1);
    let ids = allowed_group_ids(&vec![GroupConfig { name: "n".into(), group_id: "gid=".into() }]);
    assert_eq!(ids, vec!["gid=".to_string()]);
}

#[test]
fn one_off_send_target() {
    assert!(matches!(send_target(&Some("+1".into()), &Some("g".into())), Some(MessageTarget::Recipient(r)) if r == "+1"));
    assert!(matches!(send_target(&None, &Some("g".into())), Some(MessageTarget::Group(g)) if g == "g"));
    assert!(send_target(&None, &None).is_none());
}

#[test]
fn configured_socket_or_one_made_from_the_phone() {
    let given = AccountSection { phone: Some("+1234".into()), socket: Some("/run/s.sock".into()) };
    assert_eq!(account_socket(&given), Some("/run/s.sock".to_string()));
    // h = ((((0*31+'+')*31+'1')*31+'2')*31+'3')*31+'4'
    let h: u64 = [b'+', b'1', b'2', b'3', b'4'].iter().fold(0u64, |h, c| h.wrapping_mul(31).wrapping_add(*c as u64));
    assert_eq!(default_socket("+1234"), format!("/tmp/signal-bot-{}.sock", h));
    let phone_only = AccountSection { phone: Some("+1234".into()), socket: None };
    assert_eq!(account_socket(&phone_only), Some(default_socket("+1234")));
    assert_eq!(account_socket(&AccountSection { phone: None, socket: None }), None);
}
