//! The bot's configuration (`bot.toml`) and its defaults.
use vstd::prelude::*;
use crate::lua_api::AiPluginConfig;
use crate::text::{append_chars, chars_of, decimal, decimal_exec, string_from};

verus! {

pub struct BotConfig {
    pub bot: BotSection,
    pub account: AccountSection,
    pub groups: Vec<GroupConfig>,
    pub commands: Vec<CommandConfig>,
    pub webhooks: Option<WebhooksConfig>,
    pub rate_limit: Option<RateLimitConfig>,
    pub plugins: Option<PluginsConfig>,
    pub ai: Option<AiConfig>,
}

pub struct BotSection {
    pub name: String,
    pub prefix: String,
    pub log_level: String,
}

pub struct AccountSection {
    /// The bot's registered phone number.
    pub phone: Option<String>,
    /// Path to signal-cli socket (Unix path or tcp://host:port); when it is
    /// left out, a path made from the phone number.
    pub socket: Option<String>,
}

/// The AI chat service that plugins may use.
pub struct AiConfig {
    pub enabled: bool,
    pub base_url: String,
    pub api_key: String,
    pub model: String,
    pub system_prompt: String,
}

pub struct GroupConfig {
    pub name: String,
    pub group_id: String,
}

pub struct CommandConfig {
    pub trigger: String,
    pub response: String,
    pub description: String,
}

pub struct WebhooksConfig {
    pub incoming_url: Option<String>,
    pub outgoing_url: Option<String>,
}

pub struct RateLimitConfig {
    pub messages_per_minute: u32,
    pub cooldown_seconds: u64,
}

pub struct PluginsConfig {
    /// Path to the directory containing .lua plugin files
    pub directory: String,
}

/// The command prefix when the configuration names none: `!`.
pub fn default_prefix() -> (s: String)
    ensures
        s@ == seq!['!'],
{
    let s = String::from_str("!");
    proof {
        reveal_strlit("!");
    }
    s
}

/// The log level when the configuration names none: `info`.
pub fn default_log_level() -> (s: String)
    ensures
        s@ == seq!['i', 'n', 'f', 'o'],
{
    let s = String::from_str("info");
    proof {
        reveal_strlit("info");
    }
    s
}

/// The rate limit when the configuration names none: 20 messages.
pub fn default_messages_per_minute() -> (n: u32)
    ensures
        n == 20,
{
    20
}

/// The cooldown window when the configuration names none: 1 second.
pub fn default_cooldown_seconds() -> (n: u64)
    ensures
        n == 1,
{
    1
}

/// The ids of the configured groups, in order: the groups the bot answers in.
pub fn allowed_group_ids(groups: &Vec<GroupConfig>) -> (ids: Vec<String>)
    ensures
        ids@.len() == groups@.len(),
        forall|i: int| 0 <= i < groups@.len() ==> #[trigger] ids@[i]@ == groups@[i].group_id@,
{
    let mut out: Vec<String> = Vec::new();
    let mut i: usize = 0;
    while i < groups.len()
        invariant
            i <= groups.len(),
            out@.len() == i,
            forall|j: int| 0 <= j < i ==> #[trigger] out@[j]@ == groups@[j].group_id@,
        decreases groups.len() - i,
    {
        out.push(groups[i].group_id.clone());
        i = i + 1;
    }
    out
}

/// The AI settings that plugins get from the `[ai]` section.
pub fn ai_plugin_config(ai: &Option<AiConfig>) -> (r: Option<AiPluginConfig>)
    ensures
        match ai {
            None => r is None,
            Some(a) => r matches Some(c) && c.enabled == a.enabled && c.base_url@ == a.base_url@
                && c.api_key@ == a.api_key@ && c.model@ == a.model@ && c.system_prompt@
                == a.system_prompt@,
        },
{
    match ai {
        None => None,
        Some(a) => Some(
            AiPluginConfig {
                enabled: a.enabled,
                base_url: a.base_url.clone(),
                api_key: a.api_key.clone(),
                model: a.model.clone(),
                system_prompt: a.system_prompt.clone(),
            },
        ),
    }
}

/// A hash of a phone number: each character's code point, in order, folded
/// in as `h * 31 + c`, modulo 2^64.
pub open spec fn phone_hash(s: Seq<char>) -> nat
    decreases s.len(),
{
    if s.len() == 0 {
        0
    } else {
        ((phone_hash(s.drop_last()) * 31 + (s.last() as u32) as nat) % 0x1_0000_0000_0000_0000nat) as nat
    }
}

/// The socket made from a phone number: `/tmp/signal-bot-<hash>.sock`, the
/// hash written in decimal.
pub open spec fn default_socket_spec(phone: Seq<char>) -> Seq<char> {
    "/tmp/signal-bot-"@ + decimal(phone_hash(phone)) + ".sock"@
}

/// Executable `default_socket_spec`.
pub fn default_socket(phone: &str) -> (s: String)
    ensures
        s@ == default_socket_spec(phone@),
{
    let p = chars_of(phone);
    let mut h: u64 = 0;
    let mut i: usize = 0;
    assert(p@.take(0) =~= Seq::<char>::empty());
    while i < p.len()
        invariant
            i <= p.len(),
            p@ == phone@,
            h as nat == phone_hash(p@.take(i as int)),
        decreases p.len() - i,
    {
        assert(p@.take(i + 1).drop_last() =~= p@.take(i as int));
        assert(p@.take(i + 1).last() == p@[i as int]);
        let x: u128 = (h as u128) * 31 + (p[i] as u32 as u128);
        h = (x % 0x1_0000_0000_0000_0000u128) as u64;
        i = i + 1;
    }
    assert(p@.take(p.len() as int) =~= p@);
    let mut out = chars_of("/tmp/signal-bot-");
    append_chars(&mut out, &decimal_exec(h));
    append_chars(&mut out, &chars_of(".sock"));
    string_from(&out)
}

/// The socket to connect to: the configured one, else the one made from the
/// phone number; none when the account names neither.
pub fn account_socket(account: &AccountSection) -> (r: Option<String>)
    ensures
        match account.socket {
            Some(s) => r matches Some(x) && x@ == s@,
            None => match account.phone {
                Some(p) => r matches Some(x) && x@ == default_socket_spec(p@),
                None => r is None,
            },
        },
{
    match &account.socket {
        Some(s) => Some(s.clone()),
        None => match &account.phone {
            Some(p) => Some(default_socket(p.as_str())),
            None => None,
        },
    }
}

} // verus!
