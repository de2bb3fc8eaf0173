use signal_bot::commands::{render_static_exec, CommandRouter, Route};

fn strings(ws: &[&str]) -> Vec<String> {
    ws.iter().map(|w| w.to_string()).collect()
}

#[test]
fn static_command_replies_with_filled_template() {
    let mut r: CommandRouter<u32> = CommandRouter::new("!");
    r.register_static("greet", "Greets", "Hello {1}! All: {args}");
    match r.route("!greet Ann Bob") {
        Route::Reply(s) => assert_eq!(s, "Hello Ann! All: Ann Bob"),
        _ => panic!("expected a reply"),
    }
}

#[test]
fn render_static_numbered_and_all() {
    let out = render_static_exec("{2}-{1} [{args}] {3}", &strings(&["a", "b"]));
    assert_eq!(out, "b-a [a b] {3}");
    assert_eq!(render_static_exec("Pong!", &strings(&["x"])), "Pong!");
}

#[test]
fn handler_command_gets_its_arguments() {
    let mut r: CommandRouter<u32> = CommandRouter::new("!");
    r.register("roll", "Rolls", 7);
    match r.route("!  roll 2  d6") {
        Route::Handler { index, args } => {
            assert_eq!(args, strings(&["2", "d6"]));
            assert_eq!(r.handler_at(index), Some(&7));
        }
        _ => panic!("expected a handler"),
    }
}

#[test]
fn later_registration_replaces_earlier() {
    let mut r: CommandRouter<u32> = CommandRouter::new("/");
    r.register("x", "first", 1);
    r.register_static("x", "second", "static now");
    match r.route("/x") {
        Route::Reply(s) => assert_eq!(s, "static now"),
        _ => panic!("expected the static command"),
    }
    assert_eq!(r.handler_at(0), None);
    assert_eq!(r.help_text().matches("/x:").count(), 1);
}

#[test]
fn unknown_trigger_goes_to_plugins() {
    let r: CommandRouter<u32> = CommandRouter::new("!");
    match r.route("!wiki rust lang") {
        Route::Unknown(ws) => assert_eq!(ws, strings(&["wiki", "rust", "lang"])),
        _ => panic!("expected unknown"),
    }
}

#[test]
fn not_a_command_without_prefix_or_words() {
    let r: CommandRouter<u32> = CommandRouter::new("!");
    assert!(matches!(r.route("hello"), Route::NotCommand));
    assert!(matches!(r.route("!   "), Route::NotCommand));
    assert!(matches!(r.route(""), Route::NotCommand));
}

#[test]
fn help_is_reserved_and_lists_groups() {
    let mut r: CommandRouter<u32> = CommandRouter::new("!");
    r.register_static("ping", "A simple ping command", "Pong!");
    r.register_static("help", "shadowed", "never");
    r.add_external_help(
        "roll",
        "Rolls a die. Usage: {::prefix}dice",
        vec![("r".to_string(), "alias of {::prefix}roll".to_string())],
        "Games",
    );
    r.add_external_help("wiki", "Wikipedia", vec![], "Core");
    let expected = "Available commands:\n\n### Core\n!help: shadowed\n!ping: A simple ping command\n!wiki: Wikipedia\n\n### Games\n!roll: Rolls a die. Usage: !dice\n\t!r: alias of !roll";
    assert_eq!(r.help_text(), expected);
    match r.route("!help") {
        Route::Help(h) => assert_eq!(h, expected),
        _ => panic!("expected help"),
    }
}

#[test]
fn help_of_empty_router() {
    let r: CommandRouter<u32> = CommandRouter::new("!");
    assert_eq!(r.help_text(), "Available commands:");
}

#[test]
fn help_sorts_groups_and_triggers() {
    let mut r: CommandRouter<u32> = CommandRouter::new("#");
    r.add_external_help("b", "B", vec![], "Zeta");
    r.add_external_help("a", "A", vec![], "Alpha");
    r.add_external_help("c", "C", vec![], "Zeta");
    r.add_external_help("a2", "A2", vec![], "Zeta");
    assert_eq!(
        r.help_text(),
        "Available commands:\n\n### Alpha\n#a: A\n\n### Zeta\n#a2: A2\n#b: B\n#c: C"
    );
}

#[test]
fn help_names_every_command() {
    let mut r: CommandRouter<()> = CommandRouter::new("/");
    r.register_static("zeta", "", "z");
    r.register_static("alpha", "first", "a");
    r.add_external_help("dice", "", vec![], "Games");
    let help = r.help_text();
    for trigger in ["zeta", "alpha", "dice"] {
        assert!(help.contains(&format!("/{}:", trigger)), "{} missing from {:?}", trigger, help);
    }
    assert!(help.ends_with("/dice:"));
}

#[test]
fn arguments_split_on_any_unicode_whitespace() {
    let r: CommandRouter<u32> = CommandRouter::new("!");
    match r.route("!wiki\tRust\n\u{3000}lang\u{a0} ") {
        Route::Unknown(ws) => {
            assert_eq!(ws, strings(&["wiki", "Rust", "lang"]));
            assert!(ws.iter().all(|w| !w.is_empty() && !w.chars().any(char::is_whitespace)));
        }
        _ => panic!("expected unknown"),
    }
}

#[test]
fn same_registrations_give_the_same_help() {
    let build = || {
        let mut r: CommandRouter<u8> = CommandRouter::new("!");
        r.register("b", "B", 1);
        r.register_static("a", "A {::prefix}a", "x");
        r.add_external_help("z", "Z", vec![("zz".to_string(), "alias".to_string())], "Plugins");
        r
    };
    let r1 = build();
    let r2 = build();
    assert_eq!(r1.help_text(), r2.help_text());
    assert_eq!(r1.help_text(), r1.help_text());
}
