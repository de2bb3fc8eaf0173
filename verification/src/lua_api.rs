//! The decisions behind the context API that Lua plugins call: where
//! messages go, which file names are safe, how reminders are numbered and
//! listed, and what is sent to the AI service.
use vstd::prelude::*;
use crate::ai::ChatMessage;
use crate::commands::prefix_placeholder;
use crate::context::{opt_view, target_view, MessageTarget};
use crate::text::{
    all_digits, append_chars, chars_of, contains_exec, contains_seq, decimal, decimal_exec,
    digits_value, has_suffix, has_suffix_exec, lemma_decimal_at_most_six, lemma_decimal_reads_back,
    lemma_leading_zeros_value, parse_u64, parse_u64_exec, replace_all, replace_all_exec,
    split_file_name, split_file_name_exec, string_from, strip_suffix_all, strip_suffix_all_exec,
    strs, zeros, take_chars, last_index_of, lemma_last_index_of,
};

verus! {

/// The AI settings that plugins may use.
#[derive(Clone, Debug)]
pub struct AiPluginConfig {
    pub enabled: bool,
    pub base_url: String,
    pub api_key: String,
    pub model: String,
    pub system_prompt: String,
}

/// A file name that a plugin may read or write: it holds no `/`, no `\` and
/// no `..`. The same rule applies to reminder ids.
pub open spec fn is_safe_name_spec(name: Seq<char>) -> bool {
    !contains_seq(name, seq!['/']) && !contains_seq(name, seq!['\\']) && !contains_seq(
        name,
        seq!['.', '.'],
    )
}

/// Executable `is_safe_name_spec`.
pub fn is_safe_name(name: &str) -> (b: bool)
    ensures
        b == is_safe_name_spec(name@),
{
    let n = chars_of(name);
    let mut p1: Vec<char> = Vec::new();
    p1.push('/');
    let mut p2: Vec<char> = Vec::new();
    p2.push('\\');
    let mut p3: Vec<char> = Vec::new();
    p3.push('.');
    p3.push('.');
    assert(p1@ =~= seq!['/']);
    assert(p2@ =~= seq!['\\']);
    assert(p3@ =~= seq!['.', '.']);
    !contains_exec(&n, &p1) && !contains_exec(&n, &p2) && !contains_exec(&n, &p3)
}

/// A plugin's text with `{::prefix}` replaced by the command prefix.
pub fn with_prefix(text: &str, prefix: &str) -> (r: String)
    ensures
        r@ == replace_all(text@, prefix_placeholder(), prefix@),
{
    let ph = chars_of("{::prefix}");
    proof {
        reveal_strlit("{::prefix}");
    }
    let t = chars_of(text);
    let p = chars_of(prefix);
    string_from(&replace_all_exec(&t, &ph, &p))
}

/// The view of a chat message: role and content.
pub open spec fn message_view(m: ChatMessage) -> (Seq<char>, Seq<char>) {
    (m.role@, m.content@)
}

/// What a plugin's prompt is sent as: the system prompt when there is one,
/// each context message as a user message, then the prompt.
pub open spec fn llm_messages_spec(
    system_prompt: Seq<char>,
    context: Seq<Seq<char>>,
    prompt: Seq<char>,
) -> Seq<(Seq<char>, Seq<char>)> {
    (if system_prompt.len() > 0 {
        seq![("system"@, system_prompt)]
    } else {
        Seq::empty()
    }) + context.map_values(|c: Seq<char>| ("user"@, c)) + seq![("user"@, prompt)]
}

/// Executable `llm_messages_spec`.
pub fn llm_messages(system_prompt: &str, context: &Vec<String>, prompt: &str) -> (r: Vec<
    ChatMessage,
>)
    ensures
        r@.map_values(|m: ChatMessage| message_view(m)) == llm_messages_spec(
            system_prompt@,
            strs(context@),
            prompt@,
        ),
{
    let mut out: Vec<ChatMessage> = Vec::new();
    if !system_prompt.is_empty() {
        out.push(ChatMessage { role: String::from_str("system"), content: String::from_str(system_prompt) });
    }
    let ghost head = out@.map_values(|m: ChatMessage| message_view(m));
    assert(head =~= (if system_prompt@.len() > 0 {
        seq![("system"@, system_prompt@)]
    } else {
        Seq::empty()
    }));
    let ghost cs = strs(context@);
    let mut i: usize = 0;
    while i < context.len()
        invariant
            i <= context.len(),
            cs == strs(context@),
            out@.map_values(|m: ChatMessage| message_view(m)) == head + cs.take(i as int).map_values(
                |c: Seq<char>| ("user"@, c),
            ),
        decreases context.len() - i,
    {
        let ghost before = out@.map_values(|m: ChatMessage| message_view(m));
        out.push(ChatMessage { role: String::from_str("user"), content: context[i].clone() });
        assert(out@.map_values(|m: ChatMessage| message_view(m)) =~= before.push(("user"@, cs[i as int])));
        assert(cs.take(i + 1) =~= cs.take(i as int).push(cs[i as int]));
        assert(cs.take(i + 1).map_values(|c: Seq<char>| ("user"@, c)) =~= cs.take(i as int).map_values(
            |c: Seq<char>| ("user"@, c),
        ).push(("user"@, cs[i as int])));
        assert(out@.map_values(|m: ChatMessage| message_view(m)) =~= head + cs.take(i + 1).map_values(
            |c: Seq<char>| ("user"@, c),
        ));
        i = i + 1;
    }
    let ghost mid = out@.map_values(|m: ChatMessage| message_view(m));
    out.push(ChatMessage { role: String::from_str("user"), content: String::from_str(prompt) });
    assert(cs.take(context.len() as int) =~= cs);
    assert(out@.map_values(|m: ChatMessage| message_view(m)) =~= llm_messages_spec(
        system_prompt@,
        cs,
        prompt@,
    ));
    out
}

/// Why the AI cannot be used, if it cannot: it is not configured, or it is
/// disabled.
pub fn ai_unavailable(ai: &Option<AiPluginConfig>) -> (r: Option<String>)
    ensures
        match ai {
            None => r matches Some(m) && m@ == "AI is not configured"@,
            Some(cfg) => if cfg.enabled {
                r is None
            } else {
                r matches Some(m) && m@ == "AI is disabled"@
            },
        },
{
    match ai {
        None => Some(String::from_str("AI is not configured")),
        Some(cfg) => if cfg.enabled {
            None
        } else {
            Some(String::from_str("AI is disabled"))
        },
    }
}

/// Where a plugin's message edit goes: for a direct message the sender's
/// number, or uuid when there is no number; for a group message the group.
pub fn edit_destination(
    is_group: bool,
    sender_number: &Option<String>,
    sender_uuid: &str,
    group_id: &Option<String>,
) -> (r: (Option<String>, Option<String>))
    ensures
        opt_view(r.0) == (if is_group {
            None
        } else {
            match opt_view(*sender_number) {
                Some(n) => Some(n),
                None => Some(sender_uuid@),
            }
        }),
        opt_view(r.1) == (if is_group {
            opt_view(*group_id)
        } else {
            None
        }),
{
    if is_group {
        (None, group_id.clone())
    } else {
        match sender_number {
            Some(n) => (Some(n.clone()), None),
            None => (Some(String::from_str(sender_uuid)), None),
        }
    }
}

/// The messages of a broadcast: every allowed group, then every admin.
pub fn broadcast_targets(groups: &Vec<String>, admins: &Vec<String>) -> (r: Vec<MessageTarget>)
    ensures
        r@.map_values(|t: MessageTarget| target_view(t)) == strs(groups@).map_values(
            |g: Seq<char>| (true, g),
        ) + strs(admins@).map_values(|a: Seq<char>| (false, a)),
{
    let mut out: Vec<MessageTarget> = Vec::new();
    let ghost gs = strs(groups@).map_values(|g: Seq<char>| (true, g));
    let ghost ads = strs(admins@).map_values(|a: Seq<char>| (false, a));
    let mut i: usize = 0;
    while i < groups.len()
        invariant
            i <= groups.len(),
            gs == strs(groups@).map_values(|g: Seq<char>| (true, g)),
            out@.map_values(|t: MessageTarget| target_view(t)) == gs.take(i as int),
        decreases groups.len() - i,
    {
        let ghost before = out@.map_values(|t: MessageTarget| target_view(t));
        out.push(MessageTarget::Group(groups[i].clone()));
        assert(out@.map_values(|t: MessageTarget| target_view(t)) =~= before.push(gs[i as int]));
        assert(gs.take(i + 1) =~= gs.take(i as int).push(gs[i as int]));
        i = i + 1;
    }
    let mut k: usize = 0;
    assert(gs.take(groups.len() as int) =~= gs);
    while k < admins.len()
        invariant
            k <= admins.len(),
            ads == strs(admins@).map_values(|a: Seq<char>| (false, a)),
            out@.map_values(|t: MessageTarget| target_view(t)) == gs + ads.take(k as int),
        decreases admins.len() - k,
    {
        let ghost before = out@.map_values(|t: MessageTarget| target_view(t));
        out.push(MessageTarget::Recipient(admins[k].clone()));
        assert(out@.map_values(|t: MessageTarget| target_view(t)) =~= before.push(ads[k as int]));
        assert(gs + ads.take(k + 1) =~= (gs + ads.take(k as int)).push(ads[k as int]));
        k = k + 1;
    }
    assert(ads.take(admins.len() as int) =~= ads);
    out
}

/// Which stored messages a history request reads: those of the group, or
/// the direct messages of one sender.
pub enum HistoryScope {
    Group(String),
    Direct(String),
}

/// The scope of the current conversation's history: its group (the empty id
/// when a group message lacks one), else the sender's direct messages.
pub fn history_scope(is_group: bool, group_id: &Option<String>, sender_uuid: &str) -> (s:
    HistoryScope)
    ensures
        match s {
            HistoryScope::Group(g) => is_group && g@ == match opt_view(*group_id) {
                Some(x) => x,
                None => Seq::empty(),
            },
            HistoryScope::Direct(u) => !is_group && u@ == sender_uuid@,
        },
{
    if is_group {
        HistoryScope::Group(
            match group_id {
                Some(g) => g.clone(),
                None => String::new(),
            },
        )
    } else {
        HistoryScope::Direct(String::from_str(sender_uuid))
    }
}

/// A reminder waiting on disk to be sent.
pub struct ScheduledReminder {
    pub target_time: u64,
    pub is_group: bool,
    pub group_id: Option<String>,
    pub sender_uuid: String,
    pub text: String,
}

/// The number that a reminder file name carries: the file name ends with
/// `.json`, and what is left after removing every trailing `.json` reads as
/// a `u64`.
pub open spec fn reminder_number(name: Seq<char>) -> Option<nat> {
    if has_suffix(name, ".json"@) {
        parse_u64(strip_suffix_all(name, ".json"@))
    } else {
        None
    }
}

/// The id a new reminder gets among the given file names: one more than the
/// greatest reminder number, or 1 when there is none.
pub open spec fn next_reminder_id_spec(names: Seq<Seq<char>>) -> nat
    decreases names.len(),
{
    if names.len() == 0 {
        1
    } else {
        let prev = next_reminder_id_spec(names.drop_last());
        match reminder_number(names.last()) {
            Some(n) => if n >= prev {
                n + 1
            } else {
                prev
            },
            None => prev,
        }
    }
}

/// A new reminder's id is greater than the number of every reminder file
/// present, so it never reuses the id of a pending reminder.
pub proof fn law_new_reminder_id_is_fresh(names: Seq<Seq<char>>)
    ensures
        next_reminder_id_spec(names) >= 1,
        forall|i: int|
            0 <= i < names.len() && #[trigger] reminder_number(names[i]) is Some
                ==> reminder_number(names[i])->0 < next_reminder_id_spec(names),
    decreases names.len(),
{
    if names.len() > 0 {
        law_new_reminder_id_is_fresh(names.drop_last());
        assert forall|i: int|
            0 <= i < names.len() && #[trigger] reminder_number(names[i]) is Some
                implies reminder_number(names[i])->0 < next_reminder_id_spec(names) by {
            if i < names.len() - 1 {
                assert(names.drop_last()[i] == names[i]);
            }
        }
    }
}

/// The text of reminder id `n`: its decimal notation, padded on the left
/// with zeros to six characters.
pub open spec fn reminder_id_text(n: nat) -> Seq<char> {
    let d = decimal(n);
    if d.len() < 6 {
        zeros((6 - d.len()) as nat) + d
    } else {
        d
    }
}

/// Executable `reminder_id_text`.
pub fn reminder_id(n: u64) -> (id: String)
    ensures
        id@ == reminder_id_text(n as nat),
{
    let d = decimal_exec(n);
    let mut out: Vec<char> = Vec::new();
    if d.len() < 6 {
        let pad: usize = 6 - d.len();
        let mut i: usize = 0;
        while i < pad
            invariant
                i <= pad,
                out@ =~= zeros(i as nat),
            decreases pad - i,
        {
            out.push('0');
            i = i + 1;
        }
    }
    append_chars(&mut out, &d);
    string_from(&out)
}

/// The file of a reminder id carries the id's number back.
pub proof fn lemma_reminder_file_number(n: nat)
    requires
        n <= u64::MAX,
    ensures
        reminder_number(reminder_id_text(n) + ".json"@) == Some(n),
{
    let t = reminder_id_text(n);
    let name = t + ".json"@;
    lemma_decimal_reads_back(n);
    let d = decimal(n);
    if d.len() < 6 {
        lemma_leading_zeros_value((6 - d.len()) as nat, d);
    }
    assert(all_digits(t)) by {
        assert forall|i: int| 0 <= i < t.len() implies '0' <= #[trigger] t[i] <= '9' by {
            if d.len() < 6 && i < 6 - d.len() {
                assert(t[i] == '0');
            } else if d.len() < 6 {
                assert(t[i] == d[i - (6 - d.len())]);
            }
        }
    }
    assert(digits_value(t) == n);
    assert(t.len() >= 1);
    assert(name.skip(name.len() - 5) =~= ".json"@) by {
        reveal_strlit(".json");
    }
    assert(has_suffix(name, ".json"@));
    assert(name.take(name.len() - 5) =~= t);
    assert(!has_suffix(t, ".json"@)) by {
        reveal_strlit(".json");
        if has_suffix(t, ".json"@) {
            assert(t.skip(t.len() - 5)[4] == t[t.len() - 1]);
        }
    }
    assert(strip_suffix_all(t, ".json"@) == t) by {
        reveal_strlit(".json");
    }
    assert(strip_suffix_all(name, ".json"@) == strip_suffix_all(name.take(name.len() - 5), ".json"@)) by {
        reveal_strlit(".json");
    }
    assert(parse_u64(t) == Some(n));
}

/// The number that a reminder file name carries, as `reminder_number` reads
/// it.
pub fn reminder_number_of(name: &str) -> (r: Option<u64>)
    ensures
        match r {
            Some(n) => reminder_number(name@) == Some(n as nat),
            None => reminder_number(name@) is None,
        },
{
    let json = chars_of(".json");
    let n = chars_of(name);
    proof {
        reveal_strlit(".json");
    }
    if has_suffix_exec(&n, &json) {
        let stem = strip_suffix_all_exec(&n, &json);
        parse_u64_exec(&stem)
    } else {
        None
    }
}

/// Executable `next_reminder_id_spec`: `None` when that number does not fit
/// in a `u64` (a reminder file carries the number `u64::MAX`).
pub fn next_reminder_id(names: &Vec<String>) -> (id: Option<u64>)
    ensures
        match id {
            Some(n) => n as nat == next_reminder_id_spec(strs(names@)),
            None => next_reminder_id_spec(strs(names@)) > u64::MAX,
        },
{
    let ghost ns = strs(names@);
    let mut next: u128 = 1;
    let mut i: usize = 0;
    assert(ns.take(0) =~= Seq::<Seq<char>>::empty());
    while i < names.len()
        invariant
            i <= names.len(),
            ns == strs(names@),
            next as nat == next_reminder_id_spec(ns.take(i as int)),
            next <= u64::MAX as u128 + 1,
        decreases names.len() - i,
    {
        assert(ns.take(i + 1).drop_last() =~= ns.take(i as int));
        assert(ns.take(i + 1).last() == names@[i as int]@);
        match reminder_number_of(names[i].as_str()) {
            Some(num) => {
                if num as u128 >= next {
                    next = num as u128 + 1;
                }
            },
            None => {},
        }
        i = i + 1;
    }
    assert(ns.take(names.len() as int) =~= ns);
    if next <= u64::MAX as u128 {
        Some(next as u64)
    } else {
        None
    }
}

/// The greatest reminder number that counting up hands out, so that every
/// counted id has six characters.
pub const MAX_REMINDER_NUMBER: u64 = 999999;

/// The characters that a reminder id is made of, in the order in which free
/// ids are looked for once counting up has passed `MAX_REMINDER_NUMBER`.
pub open spec fn id_alphabet() -> Seq<char> {
    "0123456789abcdefghijklmnopqrstuvwxyz"@
}

/// A reminder file for id `s` is present.
pub open spec fn id_taken(names: Seq<Seq<char>>, s: Seq<char>) -> bool {
    exists|i: int| 0 <= i < names.len() && #[trigger] names[i] == s + ".json"@
}

/// The first free id of six characters of `id_alphabet` that extends
/// `prefix`, in alphabet order, trying the characters from index `j` at the
/// position after `prefix`.
pub open spec fn first_free_id(names: Seq<Seq<char>>, prefix: Seq<char>, j: int) -> Option<
    Seq<char>,
>
    decreases 6 - prefix.len(), 36 - j,
{
    if prefix.len() >= 6 {
        if id_taken(names, prefix) {
            None
        } else {
            Some(prefix)
        }
    } else if j < 0 || j >= 36 {
        None
    } else {
        match first_free_id(names, prefix.push(id_alphabet()[j]), 0) {
            Some(s) => Some(s),
            None => first_free_id(names, prefix, j + 1),
        }
    }
}

/// The id of a new reminder: the decimal notation, padded to six
/// characters, of one more than the greatest reminder number while that is
/// at most `MAX_REMINDER_NUMBER`; past that, the first free id of six
/// characters of `id_alphabet`; none when every such id is taken.
pub open spec fn new_reminder_id_spec(names: Seq<Seq<char>>) -> Option<Seq<char>> {
    let n = next_reminder_id_spec(names);
    if n <= MAX_REMINDER_NUMBER {
        Some(reminder_id_text(n))
    } else {
        first_free_id(names, Seq::empty(), 0)
    }
}

/// Six characters of `id_alphabet`.
pub open spec fn is_id_text(s: Seq<char>) -> bool {
    s.len() == 6 && forall|k: int| 0 <= k < 6 ==> id_alphabet().contains(#[trigger] s[k])
}

/// What `first_free_id` finds is a free id extending `prefix`; when it
/// finds none, every id extending `prefix` whose next character lies at
/// index `j` or later of the alphabet is taken.
proof fn lemma_first_free_id(names: Seq<Seq<char>>, prefix: Seq<char>, j: int)
    requires
        prefix.len() <= 6,
        0 <= j,
    ensures
        first_free_id(names, prefix, j) matches Some(s) ==> s.len() == 6 && s.take(
            prefix.len() as int,
        ) == prefix && !id_taken(names, s) && forall|k: int|
            prefix.len() <= k < 6 ==> id_alphabet().contains(#[trigger] s[k]),
        first_free_id(names, prefix, j) is None ==> forall|s: Seq<char>|
            s.len() == 6 && s.take(prefix.len() as int) == prefix && (forall|k: int|
                prefix.len() <= k < 6 ==> id_alphabet().contains(#[trigger] s[k])) && (
            prefix.len() < 6 ==> exists|jj: int|
                j <= jj < 36 && id_alphabet()[jj] == s[prefix.len() as int]) ==> #[trigger] id_taken(
                names,
                s,
            ),
    decreases 6 - prefix.len(), 36 - j,
{
    reveal_strlit("0123456789abcdefghijklmnopqrstuvwxyz");
    let a = id_alphabet();
    if prefix.len() >= 6 {
        assert(prefix.take(6) =~= prefix);
        assert forall|s: Seq<char>|
            s.len() == 6 && s.take(prefix.len() as int) == prefix implies s == prefix by {
            assert(s.take(6) =~= s);
        }
    } else if j >= 36 {
    } else {
        let p2 = prefix.push(a[j]);
        lemma_first_free_id(names, p2, 0);
        lemma_first_free_id(names, prefix, j + 1);
        if let Some(s) = first_free_id(names, p2, 0) {
            assert(s.take(prefix.len() as int) =~= s.take(p2.len() as int).take(prefix.len() as int));
            assert(s.take(p2.len() as int)[prefix.len() as int] == s[prefix.len() as int]);
            assert(id_alphabet().contains(s[prefix.len() as int])) by {
                assert(a[j] == s[prefix.len() as int]);
            }
        }
        if first_free_id(names, prefix, j) is None {
            assert forall|s: Seq<char>|
                s.len() == 6 && s.take(prefix.len() as int) == prefix && (forall|k: int|
                    prefix.len() <= k < 6 ==> id_alphabet().contains(#[trigger] s[k])) && (exists|jj: int|
                    j <= jj < 36 && id_alphabet()[jj] == s[prefix.len() as int]) implies #[trigger] id_taken(
                names,
                s,
            ) by {
                let jj = choose|jj: int| j <= jj < 36 && id_alphabet()[jj] == s[prefix.len() as int];
                if jj == j {
                    assert(s.take(p2.len() as int) =~= p2) by {
                        assert(s.take(p2.len() as int) =~= s.take(prefix.len() as int).push(s[prefix.len() as int]));
                    }
                    if p2.len() < 6 {
                        let c = s[p2.len() as int];
                        assert(id_alphabet().contains(c));
                        let q = choose|q: int| 0 <= q < a.len() && a[q] == c;
                        assert(0 <= q < 36 && id_alphabet()[q] == s[p2.len() as int]);
                    }
                }
            }
        }
    }
}

/// A reminder file whose id is `t` is named `t.json`.
proof fn lemma_reminder_file_name(name: Seq<char>, t: Seq<char>)
    requires
        reminder_file_id(name) == Some(t),
    ensures
        name == t + ".json"@,
{
    reveal_strlit(".json");
    reveal_strlit("json");
    let i = last_index_of(name, '.');
    lemma_last_index_of(name, '.');
    assert(split_file_name(name).1 is Some);
    assert(i > 0);
    let e = name.skip(i + 1);
    assert(e == "json"@);
    assert(e.len() == 4);
    assert(name.len() == i + 5);
    assert(name[i] == '.');
    let r = name.take(i) + ".json"@;
    assert forall|k: int| 0 <= k < name.len() implies name[k] == r[k] by {
        if k > i {
            assert(name[k] == e[k - i - 1]);
            assert(r[k] == ".json"@[k - i]);
            assert(".json"@[k - i] == "json"@[k - i - 1]);
        }
    }
    assert(name =~= r);
    assert(t == name.take(i));
}

/// A free id of six characters: no present file is named after it, and no
/// pending reminder has it as its id.
proof fn lemma_free_id(names: Seq<Seq<char>>, s: Seq<char>)
    requires
        !id_taken(names, s),
    ensures
        forall|i: int| 0 <= i < names.len() ==> #[trigger] names[i] != s + ".json"@,
        forall|i: int| 0 <= i < names.len() ==> reminder_file_id(#[trigger] names[i]) != Some(s),
{
    assert forall|i: int| 0 <= i < names.len() implies reminder_file_id(#[trigger] names[i]) != Some(s) by {
        if reminder_file_id(names[i]) == Some(s) {
            lemma_reminder_file_name(names[i], s);
        }
    }
}

/// The counted id is free: its number is greater than every reminder number.
proof fn lemma_counted_id_free(names: Seq<Seq<char>>, n: nat)
    requires
        n == next_reminder_id_spec(names),
        n <= MAX_REMINDER_NUMBER,
    ensures
        !id_taken(names, reminder_id_text(n)),
        reminder_id_text(n).len() == 6,
{
    law_new_reminder_id_is_fresh(names);
    lemma_decimal_reads_back(n);
    lemma_decimal_at_most_six(n);
    lemma_reminder_file_number(n);
    if id_taken(names, reminder_id_text(n)) {
        let i = choose|i: int| 0 <= i < names.len() && #[trigger] names[i] == reminder_id_text(n) + ".json"@;
        assert(reminder_number(names[i]) is Some);
    }
}

/// Whether a reminder file for id `s` is present, given the characters of
/// the file names.
fn id_taken_exec(files: &Vec<Vec<char>>, s: &Vec<char>, Ghost(names): Ghost<Seq<Seq<char>>>) -> (b: bool)
    requires
        files@.len() == names.len(),
        forall|x: int| 0 <= x < names.len() ==> #[trigger] files@[x]@ == names[x],
    ensures
        b == id_taken(names, s@),
{
    let mut full = take_chars(s, s.len());
    append_chars(&mut full, &chars_of(".json"));
    assert(s@.take(s@.len() as int) =~= s@);
    let mut i: usize = 0;
    while i < files.len()
        invariant
            i <= files.len(),
            files@.len() == names.len(),
            forall|x: int| 0 <= x < names.len() ==> #[trigger] files@[x]@ == names[x],
            full@ == s@ + ".json"@,
            forall|x: int| 0 <= x < i ==> names[x] != s@ + ".json"@,
        decreases files.len() - i,
    {
        if crate::commands::chars_eq(&files[i], &full) {
            assert(names[i as int] == s@ + ".json"@);
            return true;
        }
        i = i + 1;
    }
    false
}

/// Executable `first_free_id`, starting at the first character.
fn find_free_id(
    files: &Vec<Vec<char>>,
    prefix: Vec<char>,
    alphabet: &Vec<char>,
    Ghost(names): Ghost<Seq<Seq<char>>>,
) -> (r: Option<Vec<char>>)
    requires
        prefix@.len() <= 6,
        alphabet@ == id_alphabet(),
        files@.len() == names.len(),
        forall|x: int| 0 <= x < names.len() ==> #[trigger] files@[x]@ == names[x],
    ensures
        match r {
            Some(v) => first_free_id(names, prefix@, 0) == Some(v@),
            None => first_free_id(names, prefix@, 0) is None,
        },
    decreases 6 - prefix@.len(),
{
    proof {
        reveal_strlit("0123456789abcdefghijklmnopqrstuvwxyz");
    }
    if prefix.len() == 6 {
        if id_taken_exec(files, &prefix, Ghost(names)) {
            return None;
        } else {
            return Some(prefix);
        }
    }
    let mut j: usize = 0;
    while j < 36
        invariant
            j <= 36,
            prefix@.len() < 6,
            alphabet@ == id_alphabet(),
            alphabet@.len() == 36,
            files@.len() == names.len(),
            forall|x: int| 0 <= x < names.len() ==> #[trigger] files@[x]@ == names[x],
            first_free_id(names, prefix@, 0) == first_free_id(names, prefix@, j as int),
        decreases 36 - j,
    {
        let mut p = take_chars(&prefix, prefix.len());
        assert(prefix@.take(prefix@.len() as int) =~= prefix@);
        p.push(alphabet[j]);
        match find_free_id(files, p, alphabet, Ghost(names)) {
            Some(v) => {
                return Some(v);
            },
            None => {},
        }
        j = j + 1;
    }
    None
}

/// The id that a new reminder gets among the given reminder file names, as
/// `new_reminder_id_spec` says: six characters, and an id that no pending
/// reminder has; none only when every id of six characters of
/// `id_alphabet` is taken.
pub fn new_reminder_id(names: &Vec<String>) -> (id: Option<String>)
    ensures
        match id {
            Some(t) => new_reminder_id_spec(strs(names@)) == Some(t@),
            None => new_reminder_id_spec(strs(names@)) is None,
        },
        id matches Some(t) ==> {
            &&& t@.len() == 6
            &&& forall|i: int| 0 <= i < names@.len() ==> #[trigger] names@[i]@ != t@ + ".json"@
            &&& forall|i: int|
                0 <= i < names@.len() ==> reminder_file_id(#[trigger] names@[i]@) != Some(t@)
        },
        id is None ==> forall|s: Seq<char>| #[trigger] is_id_text(s) ==> id_taken(strs(names@), s),
{
    let ghost ns = strs(names@);
    if let Some(n) = next_reminder_id(names) {
        if n <= MAX_REMINDER_NUMBER {
            let t = reminder_id(n);
            proof {
                lemma_counted_id_free(ns, n as nat);
                lemma_free_id(ns, t@);
                assert forall|i: int| 0 <= i < names@.len() implies #[trigger] names@[i]@ != t@ + ".json"@ by {
                    assert(ns[i] == names@[i]@);
                }
                assert forall|i: int| 0 <= i < names@.len() implies reminder_file_id(#[trigger] names@[i]@) != Some(t@) by {
                    assert(ns[i] == names@[i]@);
                }
            }
            return Some(t);
        }
    }
    let mut files: Vec<Vec<char>> = Vec::new();
    let mut i: usize = 0;
    while i < names.len()
        invariant
            i <= names.len(),
            ns == strs(names@),
            files@.len() == i,
            forall|x: int| 0 <= x < i ==> #[trigger] files@[x]@ == ns[x],
        decreases names.len() - i,
    {
        files.push(chars_of(names[i].as_str()));
        i = i + 1;
    }
    let alphabet = chars_of("0123456789abcdefghijklmnopqrstuvwxyz");
    let start: Vec<char> = Vec::new();
    assert(start@ =~= Seq::<char>::empty());
    let found = find_free_id(&files, start, &alphabet, Ghost(ns));
    proof {
        reveal_strlit("0123456789abcdefghijklmnopqrstuvwxyz");
        lemma_first_free_id(ns, Seq::empty(), 0);
    }
    match found {
        Some(v) => {
            let t = string_from(&v);
            proof {
                lemma_free_id(ns, t@);
                assert forall|i: int| 0 <= i < names@.len() implies #[trigger] names@[i]@ != t@ + ".json"@ by {
                    assert(ns[i] == names@[i]@);
                }
                assert forall|i: int| 0 <= i < names@.len() implies reminder_file_id(#[trigger] names@[i]@) != Some(t@) by {
                    assert(ns[i] == names@[i]@);
                }
            }
            Some(t)
        },
        None => {
            proof {
                assert forall|s: Seq<char>| #[trigger] is_id_text(s) implies id_taken(ns, s) by {
                    assert(s.take(0) =~= Seq::<char>::empty());
                    let c = s[0];
                    assert(id_alphabet().contains(c));
                    let q = choose|q: int| 0 <= q < id_alphabet().len() && id_alphabet()[q] == c;
                    assert(0 <= q < 36 && id_alphabet()[q] == s[0]);
                }
            }
            None
        },
    }
}

/// The id of a reminder file: its stem, when its extension is `json`.
pub open spec fn reminder_file_id(name: Seq<char>) -> Option<Seq<char>> {
    if split_file_name(name).1 == Some("json"@) {
        Some(split_file_name(name).0)
    } else {
        None
    }
}

/// Executable `reminder_file_id`.
pub fn reminder_id_of(name: &str) -> (r: Option<String>)
    ensures
        opt_view(r) == reminder_file_id(name@),
{
    let n = chars_of(name);
    let (stem, ext) = split_file_name_exec(&n);
    let json = chars_of("json");
    match ext {
        Some(e) => if crate::commands::chars_eq(&e, &json) {
            Some(string_from(&stem))
        } else {
            None
        },
        None => None,
    }
}

/// Two optional strings are equal.
pub fn opt_eq(a: &Option<String>, b: &Option<String>) -> (r: bool)
    ensures
        r == (opt_view(*a) == opt_view(*b)),
{
    match (a, b) {
        (Some(x), Some(y)) => *x == *y,
        (None, None) => true,
        _ => false,
    }
}

/// Whether a reminder belongs to the current conversation: the same group
/// for a group message, the same sender's direct messages otherwise.
pub open spec fn reminder_in_context(
    r: ScheduledReminder,
    is_group: bool,
    group_id: Option<Seq<char>>,
    sender_uuid: Seq<char>,
) -> bool {
    if is_group {
        r.is_group && opt_view(r.group_id) == group_id
    } else {
        !r.is_group && r.sender_uuid@ == sender_uuid
    }
}

/// Executable `reminder_in_context`.
pub fn reminder_matches(
    r: &ScheduledReminder,
    is_group: bool,
    group_id: &Option<String>,
    sender_uuid: &str,
) -> (b: bool)
    ensures
        b == reminder_in_context(*r, is_group, opt_view(*group_id), sender_uuid@),
        is_group ==> (b <==> (r.is_group && opt_view(r.group_id) == opt_view(*group_id))),
        !is_group ==> (b <==> (!r.is_group && r.sender_uuid@ == sender_uuid@)),
{
    if is_group {
        r.is_group && opt_eq(&r.group_id, group_id)
    } else {
        let s = String::from_str(sender_uuid);
        !r.is_group && r.sender_uuid == s
    }
}

/// The listing line of a reminder: `<id>|<due time>|<text>`.
pub fn reminder_line(id: &str, r: &ScheduledReminder) -> (line: String)
    ensures
        line@ == id@ + seq!['|'] + decimal(r.target_time as nat) + seq!['|'] + r.text@,
{
    let mut out = chars_of(id);
    out.push('|');
    append_chars(&mut out, &decimal_exec(r.target_time));
    out.push('|');
    append_chars(&mut out, &chars_of(r.text.as_str()));
    string_from(&out)
}

/// The message of one choice of an AI answer, as far as it was readable:
/// its `content` when that is a string.
pub struct LlmMessage {
    pub content: Option<String>,
}

/// One choice of an AI answer: its `message` when that is an object.
pub struct LlmChoice {
    pub message: Option<LlmMessage>,
}

/// An AI answer, as far as it was readable: its `choices` when that is an
/// array.
pub struct LlmReply {
    pub choices: Option<Vec<LlmChoice>>,
}

/// The text that a plugin's AI call returns: the content of the first
/// choice's message, or the empty string when the answer has none.
pub open spec fn llm_reply_text_spec(reply: LlmReply) -> Seq<char> {
    match reply.choices {
        Some(cs) => if cs@.len() > 0 {
            match cs@[0].message {
                Some(m) => match m.content {
                    Some(c) => c@,
                    None => Seq::empty(),
                },
                None => Seq::empty(),
            }
        } else {
            Seq::empty()
        },
        None => Seq::empty(),
    }
}

/// Executable `llm_reply_text_spec`.
pub fn llm_reply_text(reply: LlmReply) -> (s: String)
    ensures
        s@ == llm_reply_text_spec(reply),
{
    match reply.choices {
        Some(cs) => {
            let mut cs = cs;
            if cs.len() == 0 {
                return String::new();
            }
            let first = cs.remove(0);
            match first.message {
                Some(m) => match m.content {
                    Some(c) => c,
                    None => String::new(),
                },
                None => String::new(),
            }
        },
        None => String::new(),
    }
}

/// Reminders stay in their conversation: in a group, only reminders set in
/// that group are listed; in a direct chat, only the sender's own direct
/// reminders.
pub proof fn law_reminders_stay_in_their_conversation(
    r: ScheduledReminder,
    group_id: Option<Seq<char>>,
    sender_uuid: Seq<char>,
)
    ensures
        reminder_in_context(r, true, group_id, sender_uuid) <==> (r.is_group && opt_view(
            r.group_id,
        ) == group_id),
        reminder_in_context(r, false, group_id, sender_uuid) <==> (!r.is_group && r.sender_uuid@
            == sender_uuid),
{
}

} // verus!
