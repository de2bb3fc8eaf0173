use signal_bot::error::PluginError;
use signal_bot::plugins::{plugin_info_from, plugin_trigger_for, LuaProbe, PluginManager};

#[test]
fn plugin_files_and_triggers() {
    assert_eq!(plugin_trigger_for("dice.lua"), Some("dice".to_string()));
    assert_eq!(plugin_trigger_for("a.b.lua"), Some("a.b".to_string()));
    assert_eq!(plugin_trigger_for(".lua"), None);
    assert_eq!(plugin_trigger_for("notes.txt"), None);
    assert_eq!(plugin_trigger_for("lua"), None);
}

#[test]
fn probe_outcomes_decide_acceptance() {
    match plugin_info_from("x", "src".into(), LuaProbe::Loaded { has_on_command: false, description: None, aliases: vec![] }) {
        Err(PluginError::MissingHandler(n)) => assert_eq!(n, "x"),
        _ => panic!("expected missing handler"),
    }
    let ok = plugin_info_from("dice", "src".into(), LuaProbe::Loaded { has_on_command: true, description: None, aliases: vec![] }).ok().unwrap();
    assert_eq!(ok.description, "Lua plugin: dice");
    assert_eq!(ok.source(), "src");
    let ok2 = plugin_info_from("dice", "s".into(), LuaProbe::Loaded { has_on_command: true, description: Some("Rolls".into()), aliases: vec![] }).ok().unwrap();
    assert_eq!(ok2.description, "Rolls");
}

/// Runs a script the way the application does before handing the outcome on.
fn probe(source: &str) -> LuaProbe {
    let lua = mlua::Lua::new();
    match lua.load(source).exec() {
        Err(e) => LuaProbe::ExecFailed(e),
        Ok(()) => {
            let g = lua.globals();
            LuaProbe::Loaded {
                has_on_command: g.get::<mlua::Function>("on_command").is_ok(),
                description: g.get::<String>("description").ok(),
                aliases: g.get::<Vec<String>>("aliases").unwrap_or_default(),
            }
        }
    }
}

fn read(source: &str) -> Result<(String, LuaProbe), std::io::Error> {
    Ok((source.to_string(), probe(source)))
}

#[test]
fn load_runs_the_lua_source() {
    let pm = PluginManager::new(std::path::PathBuf::from("plugins"));
    let info = pm
        .load_plugin("dice", read("description = 'Rolls a die'\nfunction on_command(ctx) end"))
        .ok()
        .unwrap();
    assert_eq!(info.trigger, "dice");
    assert_eq!(info.description, "Rolls a die");
    match pm.load_plugin("bad", read("x = 1")) {
        Err(PluginError::MissingHandler(n)) => assert_eq!(n, "bad"),
        _ => panic!("expected missing handler"),
    }
    match pm.load_plugin("broken", read("this is not lua")) {
        Err(PluginError::LoadError { name, .. }) => assert_eq!(name, "broken"),
        _ => panic!("expected load error"),
    }
    let e = std::io::Error::new(std::io::ErrorKind::NotFound, "gone");
    assert!(matches!(pm.load_plugin("io", Err(e)), Err(PluginError::IoError(_))));
}

#[test]
fn registry_insert_replace_and_list() {
    let mut pm = PluginManager::new(std::path::PathBuf::from("plugins"));
    assert!(!pm.has_plugin("dice"));
    let a = plugin_info_from("dice", "v1".into(), LuaProbe::Loaded { has_on_command: true, description: None, aliases: vec![] }).ok().unwrap();
    pm.insert(a);
    let b = plugin_info_from("wiki", "w".into(), LuaProbe::Loaded { has_on_command: true, description: Some("Wiki".into()), aliases: vec![] }).ok().unwrap();
    pm.insert(b);
    let c = plugin_info_from("dice", "v2".into(), LuaProbe::Loaded { has_on_command: true, description: Some("Dice".into()), aliases: vec![] }).ok().unwrap();
    pm.insert(c);
    assert!(pm.has_plugin("dice"));
    assert_eq!(pm.source_of("dice"), Some("v2".to_string()));
    assert_eq!(pm.source_of("none"), None);
    assert_eq!(pm.list(), vec![("dice".to_string(), "Dice".to_string()), ("wiki".to_string(), "Wiki".to_string())]);
    assert_eq!(pm.sources().len(), 2);
    assert_eq!(pm.plugin_dir(), &std::path::PathBuf::from("plugins"));
    pm.clear();
    assert!(pm.list().is_empty());
}

#[test]
fn reload_from_directory_entries() {
    let mut pm = PluginManager::new(std::path::PathBuf::from("plugins"));
    let stale = plugin_info_from("old", "s".into(), LuaProbe::Loaded { has_on_command: true, description: None, aliases: vec![] }).ok().unwrap();
    pm.insert(stale);
    let gone = std::io::Error::new(std::io::ErrorKind::PermissionDenied, "denied");
    let entries = vec![
        ("dice".to_string(), read("function on_command(ctx) end")),
        ("bad".to_string(), read("x = 1")),
        ("locked".to_string(), Err(gone)),
        ("dice".to_string(), read("description = 'v2'\nfunction on_command(ctx) end")),
    ];
    let (count, report) = pm.load_entries(entries);
    assert_eq!(count, 2);
    assert_eq!(report.len(), 4);
    assert!(matches!(&report[0], Ok((t, d, a)) if t == "dice" && d == "Lua plugin: dice" && a.is_empty()));
    assert!(matches!(&report[1], Err(PluginError::MissingHandler(n)) if n == "bad"));
    assert!(matches!(&report[2], Err(PluginError::IoError(_))));
    assert!(!pm.has_plugin("old"));
    assert!(pm.has_plugin("dice"));
    assert_eq!(pm.list(), vec![("dice".to_string(), "v2".to_string())]);
}

#[test]
fn aliases_answer_for_their_plugin() {
    let mut pm = PluginManager::new(std::path::PathBuf::from("plugins"));
    let entries = vec![(
        "dice".to_string(),
        read("description = 'Rolls'\naliases = {'roll', 'r'}\nfunction on_command(ctx) end"),
    )];
    let (count, report) = pm.load_entries(entries);
    assert_eq!(count, 1);
    assert!(matches!(&report[0], Ok((t, _, a)) if t == "dice" && a == &vec!["roll".to_string(), "r".to_string()]));
    assert!(pm.has_plugin("dice"));
    assert!(pm.has_plugin("roll"));
    assert!(pm.has_plugin("r"));
    assert_eq!(pm.source_of("roll"), pm.source_of("dice"));
    let mut router: signal_bot::commands::CommandRouter<u8> = signal_bot::commands::CommandRouter::new("!");
    router.add_plugin_help("dice", "Rolls", &vec!["roll".to_string()]);
    assert_eq!(router.help_text(), "Available commands:\n\n### Plugins\n!dice: Rolls\n\t!roll: Rolls");
}
