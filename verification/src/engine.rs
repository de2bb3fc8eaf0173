//! What the bot does with each envelope that the daemon delivers: which
//! messages it ignores, which it rate-limits, what it records, and where it
//! routes them (built-in command, plugin, reaction hooks).
use vstd::prelude::*;
use crate::commands::{help_spec, route_spec, CommandRouter, Route};
use crate::context::opt_view;
use crate::plugins::{find_plugin, PluginManager};
use crate::rate_limit::{step, RateLimiter};
use crate::text::{strs};
use crate::types::{Envelope, Reaction};

verus! {

/// Why an envelope is ignored.
pub enum Ignored {
    /// It carries no data message (receipts, typing, sync messages).
    NoDataMessage,
    /// It has neither text nor a reaction.
    Empty,
    /// It does not come from an allowed group.
    GroupNotAllowed,
    /// Its conversation (this key) exceeded the rate limit.
    RateLimited(String),
}

/// A message to store in the chat history.
pub struct StoredMessage {
    pub timestamp: i64,
    pub group_id: Option<String>,
    pub sender_uuid: String,
    pub text: String,
}

/// What to do with an accepted message.
pub struct MessagePlan {
    pub sender_uuid: String,
    pub sender_number: Option<String>,
    pub sender_name: Option<String>,
    pub group_id: Option<String>,
    pub is_group: bool,
    pub text: String,
    pub timestamp: u64,
    /// Store this in the chat history (messages with text).
    pub record: Option<StoredMessage>,
    /// Where the router sends the text.
    pub route: Route,
    /// Run this plugin (trigger, arguments): the route found no built-in
    /// command and a plugin answers to the trigger.
    pub plugin: Option<(String, Vec<String>)>,
    /// Hand this reaction to every plugin's reaction hook.
    pub reaction: Option<Reaction>,
}

/// The outcome for one envelope.
pub enum Incoming {
    Ignored(Ignored),
    Handle(MessagePlan),
}

/// The text of an envelope's data message (empty when it has none).
pub open spec fn env_text(e: Envelope) -> Seq<char> {
    match e.data_message {
        Some(d) => match d.message {
            Some(m) => m@,
            None => Seq::empty(),
        },
        None => Seq::empty(),
    }
}

/// The group of an envelope's data message.
pub open spec fn env_group(e: Envelope) -> Option<Seq<char>> {
    match e.data_message {
        Some(d) => match d.group_info {
            Some(g) => Some(g.group_id@),
            None => None,
        },
        None => None,
    }
}

/// The sender's uuid (empty when unknown).
pub open spec fn env_sender(e: Envelope) -> Seq<char> {
    match e.source_uuid {
        Some(u) => u@,
        None => Seq::empty(),
    }
}

/// The rate-limit key: the group, or the sender for direct messages.
pub open spec fn env_key(e: Envelope) -> Seq<char> {
    match env_group(e) {
        Some(g) => g,
        None => env_sender(e),
    }
}

/// Whether the envelope's data message carries a reaction.
pub open spec fn env_has_reaction(e: Envelope) -> bool {
    match e.data_message {
        Some(d) => d.reaction is Some,
        None => false,
    }
}

/// Whether the envelope passes the group filter: with allowed groups
/// configured, only messages of those groups pass.
pub open spec fn group_allowed(allowed: Seq<Seq<char>>, e: Envelope) -> bool {
    allowed.len() == 0 || match env_group(e) {
        Some(g) => allowed.contains(g),
        None => false,
    }
}

/// Why an envelope is ignored before rate limiting, if it is.
pub open spec fn screen(allowed: Seq<Seq<char>>, e: Envelope) -> Option<Ignored> {
    if e.data_message is None {
        Some(Ignored::NoDataMessage)
    } else if env_text(e).len() == 0 && !env_has_reaction(e) {
        Some(Ignored::Empty)
    } else if !group_allowed(allowed, e) {
        Some(Ignored::GroupNotAllowed)
    } else {
        None
    }
}

/// The view of a reaction.
pub open spec fn reaction_view(r: Reaction) -> (Seq<char>, Option<Seq<char>>, Option<u64>, Option<
    bool,
>) {
    (r.emoji@, opt_view(r.target_author), r.target_sent_timestamp, r.is_remove)
}

/// The plan for an accepted envelope, for a router with this prefix,
/// commands and help text, and the triggers of the loaded plugins (none when
/// plugins are off).
pub open spec fn plan_spec<H>(
    e: Envelope,
    router: CommandRouter<H>,
    plugins: Option<Seq<(Seq<char>, Seq<char>, Seq<char>)>>,
    p: MessagePlan,
) -> bool {
    let d = e.data_message->0;
    &&& p.sender_uuid@ == env_sender(e)
    &&& opt_view(p.sender_number) == opt_view(e.source)
    &&& opt_view(p.sender_name) == opt_view(e.source_name)
    &&& opt_view(p.group_id) == env_group(e)
    &&& p.is_group == env_group(e) is Some
    &&& p.text@ == env_text(e)
    &&& p.timestamp == match e.timestamp {
        Some(t) => t,
        None => 0,
    }
    &&& (env_text(e).len() > 0 <==> p.record is Some)
    &&& (p.record matches Some(rec) ==> {
        &&& rec.timestamp == p.timestamp as i64
        &&& opt_view(rec.group_id) == env_group(e)
        &&& rec.sender_uuid@ == env_sender(e)
        &&& rec.text@ == env_text(e)
    })
    &&& route_spec(
        router.prefix_view(),
        router.cmds(),
        help_spec(router.prefix_view(), router.help_entries()),
        env_text(e),
        p.route,
    )
    &&& match (p.route, plugins) {
        (Route::Unknown(ws), Some(ps)) => if find_plugin(ps, ws@[0]@) is Some {
            p.plugin matches Some(pl) && pl.0@ == ws@[0]@ && strs(pl.1@) == strs(ws@).skip(1)
        } else {
            p.plugin is None
        },
        _ => p.plugin is None,
    }
    &&& match (d.reaction, plugins) {
        (Some(r), Some(_)) => p.reaction matches Some(x) && reaction_view(x) == reaction_view(r),
        _ => p.reaction is None,
    }
}

/// The envelope is handled as `plan_spec` says.
pub open spec fn handled<H>(
    r: Incoming,
    e: Envelope,
    router: CommandRouter<H>,
    plugins: Option<Seq<(Seq<char>, Seq<char>, Seq<char>)>>,
) -> bool {
    match r {
        Incoming::Handle(p) => plan_spec(e, router, plugins, p),
        Incoming::Ignored(_) => false,
    }
}

/// The envelope is refused by the rate limit of its conversation.
pub open spec fn rate_limited(r: Incoming, e: Envelope) -> bool {
    match r {
        Incoming::Ignored(Ignored::RateLimited(k)) => k@ == env_key(e),
        _ => false,
    }
}

/// With allowed groups configured, direct messages and messages of other
/// groups are ignored before anything else happens to them.
pub proof fn law_only_allowed_groups(allowed: Seq<Seq<char>>, e: Envelope)
    requires
        allowed.len() > 0,
        e.data_message is Some,
        env_text(e).len() > 0 || env_has_reaction(e),
        env_group(e) matches Some(g) ==> !allowed.contains(g),
    ensures
        screen(allowed, e) == Some(Ignored::GroupNotAllowed),
{
}

/// A message of an allowed group (or any message, without a group filter)
/// that has text or a reaction passes the filters.
pub proof fn law_allowed_messages_pass(allowed: Seq<Seq<char>>, e: Envelope)
    requires
        e.data_message is Some,
        env_text(e).len() > 0 || env_has_reaction(e),
        allowed.len() == 0 || (env_group(e) matches Some(g) && allowed.contains(g)),
    ensures
        screen(allowed, e) is None,
{
}

fn clone_opt(o: &Option<String>) -> (r: Option<String>)
    ensures
        opt_view(r) == opt_view(*o),
{
    match o {
        Some(s) => Some(s.clone()),
        None => None,
    }
}

fn contains_string(v: &Vec<String>, s: &String) -> (b: bool)
    ensures
        b == strs(v@).contains(s@),
{
    let mut i: usize = 0;
    while i < v.len()
        invariant
            i <= v.len(),
            forall|j: int| 0 <= j < i ==> v@[j]@ != s@,
        decreases v.len() - i,
    {
        if v[i] == *s {
            assert(strs(v@)[i as int] == s@);
            return true;
        }
        i = i + 1;
    }
    assert forall|j: int| 0 <= j < strs(v@).len() implies strs(v@)[j] != s@ by {
        assert(strs(v@)[j] == v@[j]@);
    }
    false
}

/// Decides what to do with one envelope: the filters, the rate limit of its
/// conversation (read against the limiter's clock), the history record, the
/// route of its text, the plugin to run and the reaction to hand out.
pub fn plan_incoming<H>(
    envelope: &Envelope,
    allowed_groups: &Vec<String>,
    limiter: &mut Option<RateLimiter>,
    router: &CommandRouter<H>,
    plugins: Option<&PluginManager>,
) -> (r: Incoming)
    ensures
        ({
            let ps = match plugins {
                Some(pm) => Some(pm.infos()),
                None => None,
            };
            let why = screen(strs(allowed_groups@), *envelope);
            &&& why is Some ==> r == Incoming::Ignored(why->0) && *final(limiter) == *old(limiter)
            &&& (why is None && (*old(limiter)) is None) ==> (*final(limiter)) is None && handled(
                r,
                *envelope,
                *router,
                ps,
            )
            &&& (why is None && (*old(limiter)) is Some) ==> {
                let l = (*old(limiter))->0;
                &&& (*final(limiter)) is Some
                &&& (*final(limiter))->0.max_messages_spec() == l.max_messages_spec()
                &&& (*final(limiter))->0.cooldown_spec() == l.cooldown_spec()
                &&& (*final(limiter))->0.origin_view() == l.origin_view()
                &&& (*final(limiter))->0.last_now_spec() >= l.last_now_spec()
                &&& step(
                    l.buckets_view(),
                    l.max_messages_spec(),
                    l.cooldown_spec(),
                    env_key(*envelope),
                    (*final(limiter))->0.last_now_spec(),
                ) == (r is Handle, (*final(limiter))->0.buckets_view())
                &&& r is Handle ==> handled(r, *envelope, *router, ps)
                &&& r is Ignored ==> rate_limited(r, *envelope)
            }
        }),
{
    let data = match &envelope.data_message {
        Some(d) => d,
        None => return Incoming::Ignored(Ignored::NoDataMessage),
    };
    let text = match &data.message {
        Some(m) => m.clone(),
        None => String::new(),
    };
    let has_reaction = data.reaction.is_some();
    if text.as_str().is_empty() && !has_reaction {
        return Incoming::Ignored(Ignored::Empty);
    }
    let group_id: Option<String> = match &data.group_info {
        Some(g) => Some(g.group_id.clone()),
        None => None,
    };
    let is_group = group_id.is_some();
    if allowed_groups.len() > 0 {
        match &group_id {
            Some(gid) => {
                if !contains_string(allowed_groups, gid) {
                    return Incoming::Ignored(Ignored::GroupNotAllowed);
                }
            },
            None => return Incoming::Ignored(Ignored::GroupNotAllowed),
        }
    }
    let sender_uuid = match &envelope.source_uuid {
        Some(u) => u.clone(),
        None => String::new(),
    };
    let key = match &group_id {
        Some(g) => g.clone(),
        None => sender_uuid.clone(),
    };
    let ghost old_l = *limiter;
    let allowed = match limiter {
        Some(rl) => rl.check(key.as_str()),
        None => true,
    };
    assert(key@ == env_key(*envelope));
    assert(old_l is None ==> allowed && (*limiter) is None);
    assert(old_l is Some ==> (*limiter) is Some);
    assert(old_l is Some ==> exists|now: u128|
        step(
            old_l->0.buckets_view(),
            old_l->0.max_messages_spec(),
            old_l->0.cooldown_spec(),
            env_key(*envelope),
            now,
        ) == (allowed, (*limiter)->0.buckets_view()));
    if !allowed {
        return Incoming::Ignored(Ignored::RateLimited(key));
    }
    let timestamp: u64 = match envelope.timestamp {
        Some(t) => t,
        None => 0,
    };
    let record = if !text.as_str().is_empty() {
        Some(
            StoredMessage {
                timestamp: timestamp as i64,
                group_id: clone_opt(&group_id),
                sender_uuid: sender_uuid.clone(),
                text: text.clone(),
            },
        )
    } else {
        None
    };
    let route = router.route(text.as_str());
    let plugin = match (&route, plugins) {
        (Route::Unknown(ws), Some(pm)) => {
            if pm.has_plugin(ws[0].as_str()) {
                let mut rest: Vec<String> = Vec::new();
                let mut i: usize = 1;
                while i < ws.len()
                    invariant
                        1 <= i <= ws.len(),
                        strs(rest@) == strs(ws@).subrange(1, i as int),
                    decreases ws.len() - i,
                {
                    let ghost before = strs(rest@);
                    rest.push(ws[i].clone());
                    assert(strs(rest@) =~= before.push(ws@[i as int]@));
                    assert(strs(ws@).subrange(1, i + 1) =~= strs(ws@).subrange(1, i as int).push(
                        ws@[i as int]@,
                    ));
                    i = i + 1;
                }
                assert(strs(ws@).subrange(1, ws.len() as int) =~= strs(ws@).skip(1));
                Some((ws[0].clone(), rest))
            } else {
                None
            }
        },
        _ => None,
    };
    let reaction = match (&data.reaction, plugins) {
        (Some(x), Some(_)) => Some(
            Reaction {
                emoji: x.emoji.clone(),
                target_author: clone_opt(&x.target_author),
                target_sent_timestamp: x.target_sent_timestamp,
                is_remove: x.is_remove,
            },
        ),
        _ => None,
    };
    let plan = MessagePlan {
        sender_uuid,
        sender_number: clone_opt(&envelope.source),
        sender_name: clone_opt(&envelope.source_name),
        group_id,
        is_group,
        text,
        timestamp,
        record,
        route,
        plugin,
        reaction,
    };
    let ghost e = *envelope;
    assert(plan.sender_uuid@ == env_sender(e));
    assert(opt_view(plan.group_id) == env_group(e));
    assert(plan.text@ == env_text(e));
    assert(env_text(e).len() > 0 <==> plan.record is Some);
    assert(route_spec(
        router.prefix_view(),
        router.cmds(),
        help_spec(router.prefix_view(), router.help_entries()),
        env_text(e),
        plan.route,
    ));
    Incoming::Handle(plan)
}

} // verus!
