//! The command router: built-in commands with their triggers, external help
//! entries (plugins), help rendering, and routing of incoming text.
use vstd::prelude::*;
use crate::text::{
    lemma_contains_in_left, lemma_contains_in_right, lemma_contains_prefix, lemma_contains_trans,
    lemma_trim_keeps, is_word, trim_start, trim_end, lemma_split_ws_words, append_chars, chars_of, contains_seq, join_exec, lemma_replace_absent, occurs_at, has_prefix, is_ws, join, replace_all, replace_all_exec, seq_lt,
    seq_lt_exec, split_ws, split_ws_exec, string_from, strs, trim, trim_exec, decimal,
    decimal_exec, skip_chars, has_prefix_exec, all_digits, digits_value, lemma_decimal_reads_back,
};

verus! {

/// What a built-in command does: reply with a template (a static command from
/// the configuration), or run a handler of the embedding application.
pub enum CommandAction<H> {
    /// Reply with this text, after `{args}` and `{1}`, `{2}`, ... are filled in.
    Static(String),
    /// Run this handler with the command's arguments.
    Handler(H),
}

/// A built-in command.
pub struct Command<H> {
    pub trigger: String,
    pub description: String,
    pub handler: CommandAction<H>,
}

/// Routes prefixed messages to built-in commands and renders help.
pub struct CommandRouter<H> {
    pub prefix: String,
    commands: Vec<Command<H>>,
    /// (trigger, description, aliases with their descriptions, help group)
    pub external_helps: Vec<(String, String, Vec<(String, String)>, String)>,
}

/// A help entry: trigger, description, and aliases with descriptions.
pub type HelpEntry = (Seq<char>, Seq<char>, Seq<(Seq<char>, Seq<char>)>);

/// How a built-in command appears in help: group `Core`, no aliases.
pub open spec fn core_entry<H>(c: Command<H>) -> (Seq<char>, HelpEntry) {
    ("Core"@, (c.trigger@, c.description@, Seq::empty()))
}

/// How an external help entry appears in help.
pub open spec fn ext_entry(e: (String, String, Vec<(String, String)>, String)) -> (
    Seq<char>,
    HelpEntry,
) {
    (e.3@, (e.0@, e.1@, e.2@.map_values(|p: (String, String)| (p.0@, p.1@))))
}

/// Every help entry with its group: built-in commands first, then external
/// entries in the order they were added.
pub open spec fn all_entries<H>(
    cmds: Seq<Command<H>>,
    ext: Seq<(String, String, Vec<(String, String)>, String)>,
) -> Seq<(Seq<char>, HelpEntry)> {
    cmds.map_values(|c: Command<H>| core_entry(c)) + ext.map_values(
        |e: (String, String, Vec<(String, String)>, String)| ext_entry(e),
    )
}

/// The entries of group `g`, in order.
pub open spec fn entries_in(all: Seq<(Seq<char>, HelpEntry)>, g: Seq<char>) -> Seq<HelpEntry>
    decreases all.len(),
{
    if all.len() == 0 {
        Seq::empty()
    } else if all.last().0 == g {
        entries_in(all.drop_last(), g).push(all.last().1)
    } else {
        entries_in(all.drop_last(), g)
    }
}

/// Inserts `e` into `sorted` after every entry whose trigger is not greater.
pub open spec fn insert_entry(sorted: Seq<HelpEntry>, e: HelpEntry) -> Seq<HelpEntry>
    decreases sorted.len(),
{
    if sorted.len() == 0 {
        seq![e]
    } else if seq_lt(e.0, sorted.last().0) {
        insert_entry(sorted.drop_last(), e).push(sorted.last())
    } else {
        sorted.push(e)
    }
}

/// Stable sort of help entries by trigger (`sort_by` on the triggers).
pub open spec fn sort_entries(s: Seq<HelpEntry>) -> Seq<HelpEntry>
    decreases s.len(),
{
    if s.len() == 0 {
        Seq::empty()
    } else {
        insert_entry(sort_entries(s.drop_last()), s.last())
    }
}

/// Inserts `n` into the ascending list `sorted` unless it is already there.
pub open spec fn insert_name(sorted: Seq<Seq<char>>, n: Seq<char>) -> Seq<Seq<char>>
    decreases sorted.len(),
{
    if sorted.len() == 0 {
        seq![n]
    } else if sorted.last() == n {
        sorted
    } else if seq_lt(n, sorted.last()) {
        insert_name(sorted.drop_last(), n).push(sorted.last())
    } else {
        sorted.push(n)
    }
}

/// The distinct names of `s` in ascending order.
pub open spec fn sort_names(s: Seq<Seq<char>>) -> Seq<Seq<char>>
    decreases s.len(),
{
    if s.len() == 0 {
        Seq::empty()
    } else {
        insert_name(sort_names(s.drop_last()), s.last())
    }
}

/// The help groups: `Core` and every external group.
pub open spec fn group_names(all: Seq<(Seq<char>, HelpEntry)>) -> Seq<Seq<char>> {
    sort_names(seq!["Core"@] + all.map_values(|x: (Seq<char>, HelpEntry)| x.0))
}

/// The placeholder that help texts and plugin replies replace by the prefix.
pub open spec fn prefix_placeholder() -> Seq<char> {
    "{::prefix}"@
}

/// The alias lines of an entry.
pub open spec fn aliases_text(prefix: Seq<char>, a: Seq<(Seq<char>, Seq<char>)>) -> Seq<char>
    decreases a.len(),
{
    if a.len() == 0 {
        Seq::empty()
    } else {
        aliases_text(prefix, a.drop_last()) + "\t"@ + prefix + a.last().0 + ": "@ + replace_all(
            a.last().1,
            prefix_placeholder(),
            prefix,
        ) + "\n"@
    }
}

/// The lines of one help entry: `<prefix><trigger>: <description>` and one
/// tab-indented line per alias, with `{::prefix}` replaced by the prefix.
pub open spec fn entry_text(prefix: Seq<char>, e: HelpEntry) -> Seq<char> {
    prefix + e.0 + ": "@ + replace_all(e.1, prefix_placeholder(), prefix) + "\n"@ + aliases_text(
        prefix,
        e.2,
    )
}

/// The lines of several help entries.
pub open spec fn entries_text(prefix: Seq<char>, es: Seq<HelpEntry>) -> Seq<char>
    decreases es.len(),
{
    if es.len() == 0 {
        Seq::empty()
    } else {
        entries_text(prefix, es.drop_last()) + entry_text(prefix, es.last())
    }
}

/// One group's section: a `### <group>` heading and its entries sorted by
/// trigger; nothing for a group without entries.
pub open spec fn section_text(
    prefix: Seq<char>,
    all: Seq<(Seq<char>, HelpEntry)>,
    g: Seq<char>,
) -> Seq<char> {
    let es = entries_in(all, g);
    if es.len() == 0 {
        Seq::empty()
    } else {
        "\n### "@ + g + "\n"@ + entries_text(prefix, sort_entries(es))
    }
}

/// The sections of the given groups, in order.
pub open spec fn sections_text(
    prefix: Seq<char>,
    all: Seq<(Seq<char>, HelpEntry)>,
    names: Seq<Seq<char>>,
) -> Seq<char>
    decreases names.len(),
{
    if names.len() == 0 {
        Seq::empty()
    } else {
        sections_text(prefix, all, names.drop_last()) + section_text(prefix, all, names.last())
    }
}

/// The help text: a header, then one section per group in ascending order of
/// group name, trimmed of surrounding whitespace.
pub open spec fn help_spec(prefix: Seq<char>, all: Seq<(Seq<char>, HelpEntry)>) -> Seq<char> {
    trim("Available commands:\n"@ + sections_text(prefix, all, group_names(all)))
}


/// Two character sequences are equal.
pub fn chars_eq(a: &Vec<char>, b: &Vec<char>) -> (r: bool)
    ensures
        r == (a@ == b@),
{
    if a.len() != b.len() {
        return false;
    }
    let mut i: usize = 0;
    while i < a.len()
        invariant
            a.len() == b.len(),
            i <= a.len(),
            forall|j: int| 0 <= j < i ==> a@[j] == b@[j],
        decreases a.len() - i,
    {
        if a[i] != b[i] {
            return false;
        }
        i = i + 1;
    }
    assert(a@ =~= b@);
    true
}

/// Inserting a name into a sorted list, exactly as `insert_name` does.
fn insert_name_exec(names: &mut Vec<Vec<char>>, n: Vec<char>)
    ensures
        final(names)@.map_values(|v: Vec<char>| v@) == insert_name(
            old(names)@.map_values(|v: Vec<char>| v@),
            n@,
        ),
{
    let ghost s = names@.map_values(|v: Vec<char>| v@);
    let mut pos: usize = names.len();
    assert(s.take(s.len() as int) =~= s);
    assert(s.skip(s.len() as int) =~= Seq::<Seq<char>>::empty());
    loop
        invariant
            pos <= names.len(),
            s == names@.map_values(|v: Vec<char>| v@),
            insert_name(s, n@) == insert_name(s.take(pos as int), n@) + s.skip(pos as int),
        ensures
            pos <= names.len(),
            insert_name(s, n@) == insert_name(s.take(pos as int), n@) + s.skip(pos as int),
            pos > 0 ==> (s[pos - 1] == n@ || !seq_lt(n@, s[pos - 1])),
        decreases pos,
    {
        if pos == 0 {
            break;
        }
        let same = chars_eq(&names[pos - 1], &n);
        if same {
            break;
        }
        let lt = seq_lt_exec(&n, &names[pos - 1]);
        if !lt {
            break;
        }
        proof {
            let t = s.take(pos as int);
            assert(t.last() == s[pos - 1]);
            assert(t.drop_last() =~= s.take(pos - 1));
            assert(s.skip(pos - 1) =~= seq![s[pos - 1]] + s.skip(pos as int));
            assert(insert_name(t, n@) == insert_name(s.take(pos - 1), n@).push(s[pos - 1]));
            assert(insert_name(s.take(pos - 1), n@).push(s[pos - 1]) + s.skip(pos as int)
                =~= insert_name(s.take(pos - 1), n@) + s.skip(pos - 1));
        }
        pos = pos - 1;
    }
    let ghost t = s.take(pos as int);
    if pos > 0 && chars_eq(&names[pos - 1], &n) {
        assert(t.last() == n@);
        assert(t + s.skip(pos as int) =~= s);
    } else {
        if pos > 0 {
            assert(t.last() == s[pos - 1]);
            assert(insert_name(t, n@) == t.push(n@));
        } else {
            assert(t =~= Seq::<Seq<char>>::empty());
        }
        names.insert(pos, n);
        assert(names@.map_values(|v: Vec<char>| v@) =~= t.push(n@) + s.skip(pos as int));
    }
}

/// Index of the first command with trigger `t`, or -1.
pub open spec fn first_index<H>(cmds: Seq<Command<H>>, t: Seq<char>) -> int
    decreases cmds.len(),
{
    if cmds.len() == 0 {
        -1
    } else {
        let r = first_index(cmds.drop_last(), t);
        if r >= 0 {
            r
        } else if cmds.last().trigger@ == t {
            cmds.len() - 1
        } else {
            -1
        }
    }
}

/// The placeholder of the `n`-th argument in a static response: `{n}`.
pub open spec fn arg_placeholder(n: nat) -> Seq<char> {
    seq!['{'] + decimal(n) + seq!['}']
}

/// Replaces `{1}` .. `{n}` in order by the first `n` arguments.
pub open spec fn substitute_numbered(r: Seq<char>, args: Seq<Seq<char>>, n: nat) -> Seq<char>
    decreases n,
{
    if n == 0 {
        r
    } else {
        replace_all(
            substitute_numbered(r, args, (n - 1) as nat),
            arg_placeholder(n),
            args[n - 1],
        )
    }
}

/// The reply of a static command: `{args}` becomes all arguments joined by a
/// space, then `{1}`, `{2}`, ... become the single arguments.
pub open spec fn render_static(template: Seq<char>, args: Seq<Seq<char>>) -> Seq<char> {
    substitute_numbered(
        replace_all(template, "{args}"@, join(args, seq![' '])),
        args,
        args.len(),
    )
}

/// The words of `text` after the prefix.
pub open spec fn route_words(prefix: Seq<char>, text: Seq<char>) -> Seq<Seq<char>> {
    split_ws(text.skip(prefix.len() as int))
}

/// `text` starts with the prefix and has a word after it.
pub open spec fn is_command(prefix: Seq<char>, text: Seq<char>) -> bool {
    has_prefix(text, prefix) && route_words(prefix, text).len() > 0
}

/// Where an incoming text goes.
pub enum Route {
    /// Not a command: no prefix, or nothing after it.
    NotCommand,
    /// `help`: reply with this help text.
    Help(String),
    /// A static command: reply with this text.
    Reply(String),
    /// A command with a handler: run the handler of command `index` with `args`.
    Handler { index: usize, args: Vec<String> },
    /// No built-in command: the trigger followed by the arguments, for plugins.
    Unknown(Vec<String>),
}

/// What routing `text` gives, for a router with this prefix, these commands
/// and this help text: not a command; the help text for `help`; the filled-in
/// reply of a static command; the handler of a command with its arguments;
/// or, when no built-in command has the trigger, the trigger and arguments.
pub open spec fn route_spec<H>(
    prefix: Seq<char>,
    cmds: Seq<Command<H>>,
    help: Seq<char>,
    text: Seq<char>,
    r: Route,
) -> bool {
    let ws = route_words(prefix, text);
    let fi = first_index(cmds, ws[0]);
    match r {
        Route::NotCommand => !is_command(prefix, text),
        Route::Help(h) => {
            &&& is_command(prefix, text)
            &&& ws[0] == "help"@
            &&& h@ == help
        },
        Route::Reply(s) => {
            &&& is_command(prefix, text)
            &&& ws[0] != "help"@
            &&& fi >= 0
            &&& cmds[fi].handler matches CommandAction::Static(t)
            &&& s@ == render_static(t@, ws.skip(1))
        },
        Route::Handler { index, args } => {
            &&& is_command(prefix, text)
            &&& ws[0] != "help"@
            &&& index == fi
            &&& fi >= 0
            &&& cmds[fi].handler is Handler
            &&& strs(args@) == ws.skip(1)
        },
        Route::Unknown(all_words) => {
            &&& is_command(prefix, text)
            &&& ws[0] != "help"@
            &&& fi < 0
            &&& strs(all_words@) == ws
        },
    }
}

/// Names one help entry: a built-in command or an external help entry.
#[derive(Clone, Copy)]
pub enum EntryRef {
    Core(usize),
    Ext(usize),
}

impl<H> CommandRouter<H> {
    /// The registered commands, in registration order.
    pub closed spec fn cmds(&self) -> Seq<Command<H>> {
        self.commands@
    }

    /// The command prefix.
    pub closed spec fn prefix_view(&self) -> Seq<char> {
        self.prefix@
    }

    /// The external help entries, in the order they were added.
    pub closed spec fn ext_helps(&self) -> Seq<(String, String, Vec<(String, String)>, String)> {
        self.external_helps@
    }

    /// Every help entry of this router with its group.
    pub closed spec fn help_entries(&self) -> Seq<(Seq<char>, HelpEntry)> {
        all_entries(self.cmds(), self.ext_helps())
    }

    /// A router's help entries are made of its commands and its external
    /// entries.
    pub proof fn lemma_help_entries(&self)
        ensures
            self.help_entries() == all_entries(self.cmds(), self.ext_helps()),
    {
    }

    /// A router with the given prefix and no commands.
    pub fn new(prefix: &str) -> (r: Self)
        ensures
            r.prefix_view() == prefix@,
            r.cmds() == Seq::<Command<H>>::empty(),
            r.ext_helps() == Seq::<(String, String, Vec<(String, String)>, String)>::empty(),
    {
        CommandRouter { prefix: String::from_str(prefix), commands: Vec::new(), external_helps: Vec::new() }
    }

    /// Adds an external command (such as a plugin) to the help text.
    pub fn add_external_help(
        &mut self,
        trigger: &str,
        description: &str,
        aliases: Vec<(String, String)>,
        group: &str,
    )
        ensures
            final(self).prefix_view() == old(self).prefix_view(),
            final(self).cmds() == old(self).cmds(),
            final(self).ext_helps().len() == old(self).ext_helps().len() + 1,
            final(self).ext_helps().drop_last() == old(self).ext_helps(),
            final(self).ext_helps().last().0@ == trigger@,
            final(self).ext_helps().last().1@ == description@,
            final(self).ext_helps().last().2 == aliases,
            final(self).ext_helps().last().3@ == group@,
    {
        self.external_helps.push(
            (String::from_str(trigger), String::from_str(description), aliases, String::from_str(group)),
        );
        assert(self.external_helps@.drop_last() =~= old(self).external_helps@);
    }

    /// Lists a loaded plugin in the help text, in the group `Plugins`, with
    /// each of its aliases described as the plugin is.
    pub fn add_plugin_help(&mut self, trigger: &str, description: &str, aliases: &Vec<String>)
        ensures
            final(self).prefix_view() == old(self).prefix_view(),
            final(self).cmds() == old(self).cmds(),
            final(self).ext_helps().len() == old(self).ext_helps().len() + 1,
            final(self).ext_helps().drop_last() == old(self).ext_helps(),
            final(self).ext_helps().last().0@ == trigger@,
            final(self).ext_helps().last().1@ == description@,
            final(self).ext_helps().last().2@.map_values(|p: (String, String)| (p.0@, p.1@))
                == strs(aliases@).map_values(|a: Seq<char>| (a, description@)),
            final(self).ext_helps().last().3@ == "Plugins"@,
    {
        let mut pairs: Vec<(String, String)> = Vec::new();
        let ghost want = strs(aliases@).map_values(|a: Seq<char>| (a, description@));
        let mut i: usize = 0;
        while i < aliases.len()
            invariant
                i <= aliases.len(),
                want == strs(aliases@).map_values(|a: Seq<char>| (a, description@)),
                pairs@.map_values(|p: (String, String)| (p.0@, p.1@)) == want.take(i as int),
            decreases aliases.len() - i,
        {
            let ghost before = pairs@.map_values(|p: (String, String)| (p.0@, p.1@));
            pairs.push((String::from_str(aliases[i].as_str()), String::from_str(description)));
            assert(pairs@.map_values(|p: (String, String)| (p.0@, p.1@)) =~= before.push(want[i as int]));
            assert(want.take(i + 1) =~= want.take(i as int).push(want[i as int]));
            i = i + 1;
        }
        assert(want.take(aliases.len() as int) =~= want);
        let group = String::from_str("Plugins");
        proof {
            reveal_strlit("Plugins");
        }
        self.add_external_help(trigger, description, pairs, group.as_str());
    }

    /// Whether `r` names one of this router's help entries.
    pub closed spec fn valid_ref(&self, r: EntryRef) -> bool {
        match r {
            EntryRef::Core(i) => i < self.commands@.len(),
            EntryRef::Ext(k) => k < self.external_helps@.len(),
        }
    }

    /// The help entry that `r` names.
    pub closed spec fn entry_at(&self, r: EntryRef) -> (Seq<char>, HelpEntry) {
        match r {
            EntryRef::Core(i) => self.help_entries()[i as int],
            EntryRef::Ext(k) => self.help_entries()[self.commands@.len() + k],
        }
    }

    /// The trigger of a help entry.
    fn entry_trigger(&self, r: EntryRef) -> (t: Vec<char>)
        requires
            self.valid_ref(r),
        ensures
            t@ == self.entry_at(r).1.0,
    {
        match r {
            EntryRef::Core(i) => chars_of(self.commands[i].trigger.as_str()),
            EntryRef::Ext(k) => chars_of(self.external_helps[k].0.as_str()),
        }
    }

    /// The help lines of a help entry.
    fn entry_text_exec(&self, prefix: &Vec<char>, r: EntryRef) -> (out: Vec<char>)
        requires
            self.valid_ref(r),
        ensures
            out@ == entry_text(prefix@, self.entry_at(r).1),
    {
        let placeholder = chars_of("{::prefix}");
        let (trigger, desc) = match r {
            EntryRef::Core(i) => (
                chars_of(self.commands[i].trigger.as_str()),
                chars_of(self.commands[i].description.as_str()),
            ),
            EntryRef::Ext(k) => (
                chars_of(self.external_helps[k].0.as_str()),
                chars_of(self.external_helps[k].1.as_str()),
            ),
        };
        proof {
            reveal_strlit("{::prefix}");
        }
        let mut out: Vec<char> = Vec::new();
        append_chars(&mut out, prefix);
        append_chars(&mut out, &trigger);
        append_chars(&mut out, &chars_of(": "));
        append_chars(&mut out, &replace_all_exec(&desc, &placeholder, prefix));
        append_chars(&mut out, &chars_of("\n"));
        let ghost head = out@;
        let ghost aliases = self.entry_at(r).1.2;
        match r {
            EntryRef::Core(i) => {
                assert(aliases =~= Seq::<(Seq<char>, Seq<char>)>::empty());
            },
            EntryRef::Ext(kk) => {
                let al = &self.external_helps[kk].2;
                assert(aliases =~= al@.map_values(|p: (String, String)| (p.0@, p.1@)));
                let mut k: usize = 0;
                assert(aliases.take(0) =~= Seq::<(Seq<char>, Seq<char>)>::empty());
                while k < al.len()
                    invariant
                        k <= al.len(),
                        placeholder@ == "{::prefix}"@,
                        placeholder@.len() > 0,
                        aliases == al@.map_values(|p: (String, String)| (p.0@, p.1@)),
                        out@ == head + aliases_text(prefix@, aliases.take(k as int)),
                    decreases al.len() - k,
                {
                    append_chars(&mut out, &chars_of("\t"));
                    append_chars(&mut out, prefix);
                    append_chars(&mut out, &chars_of(al[k].0.as_str()));
                    append_chars(&mut out, &chars_of(": "));
                    let ad = chars_of(al[k].1.as_str());
                    append_chars(&mut out, &replace_all_exec(&ad, &placeholder, prefix));
                    append_chars(&mut out, &chars_of("\n"));
                    assert(aliases.take(k + 1).drop_last() =~= aliases.take(k as int));
                    assert(aliases.take(k + 1).last() == (al@[k as int].0@, al@[k as int].1@));
                    assert(out@ =~= head + aliases_text(prefix@, aliases.take(k + 1)));
                    k = k + 1;
                }
                assert(aliases.take(al.len() as int) =~= aliases);
            },
        }
        assert(out@ =~= entry_text(prefix@, self.entry_at(r).1));
        out
    }

    /// References to the entries of group `g`, in order.
    fn refs_in_group(&self, g: &Vec<char>) -> (r: Vec<EntryRef>)
        ensures
            r@.map_values(|e: EntryRef| self.entry_at(e).1) == entries_in(self.help_entries(), g@),
            forall|i: int| 0 <= i < r@.len() ==> self.valid_ref(#[trigger] r@[i]),
    {
        let ghost all = self.help_entries();
        let ghost n = self.commands@.len();
        let ghost cm = self.cmds().map_values(|c: Command<H>| core_entry(c));
        let ghost em = self.external_helps@.map_values(
            |e: (String, String, Vec<(String, String)>, String)| ext_entry(e),
        );
        assert(all == cm + em);
        let mut r: Vec<EntryRef> = Vec::new();
        let core = chars_of("Core");
        let core_here = chars_eq(&core, g);
        let mut i: usize = 0;
        assert(all.take(0) =~= Seq::<(Seq<char>, HelpEntry)>::empty());
        while i < self.commands.len()
            invariant
                i <= self.commands@.len(),
                n == self.commands@.len(),
                all == self.help_entries(),
                all == cm + em,
                cm.len() == n,
                core@ == "Core"@,
                core_here == (core@ == g@),
                r@.map_values(|e: EntryRef| self.entry_at(e).1) == entries_in(all.take(i as int), g@),
                forall|j: int| 0 <= j < r@.len() ==> self.valid_ref(#[trigger] r@[j]),
            decreases self.commands@.len() - i,
        {
            assert(all.take(i + 1).drop_last() =~= all.take(i as int));
            assert(all.take(i + 1).last() == all[i as int]);
            assert(all[i as int] == cm[i as int]);
            if core_here {
                let ghost before = r@;
                r.push(EntryRef::Core(i));
                assert(r@.map_values(|e: EntryRef| self.entry_at(e).1) =~= before.map_values(
                    |e: EntryRef| self.entry_at(e).1,
                ).push(all[i as int].1));
            }
            i = i + 1;
        }
        let mut k: usize = 0;
        while k < self.external_helps.len()
            invariant
                k <= self.external_helps@.len(),
                n == self.commands@.len(),
                all == self.help_entries(),
                all == cm + em,
                cm.len() == n,
                em.len() == self.external_helps@.len(),
                r@.map_values(|e: EntryRef| self.entry_at(e).1) == entries_in(all.take(n + k), g@),
                forall|j: int| 0 <= j < r@.len() ==> self.valid_ref(#[trigger] r@[j]),
            decreases self.external_helps@.len() - k,
        {
            assert(all.take(n + k + 1).drop_last() =~= all.take(n + k));
            assert(all.take(n + k + 1).last() == all[n + k]);
            assert(all[n + k] == em[k as int]);
            let eg = chars_of(self.external_helps[k].3.as_str());
            if chars_eq(&eg, g) {
                let ghost before = r@;
                r.push(EntryRef::Ext(k));
                assert(r@.map_values(|e: EntryRef| self.entry_at(e).1) =~= before.map_values(
                    |e: EntryRef| self.entry_at(e).1,
                ).push(all[n + k].1));
            }
            k = k + 1;
        }
        assert(all.take((n + self.external_helps@.len()) as int) =~= all);
        r
    }

    /// Registers a command, replacing any command with the same trigger.
    fn register_action(&mut self, trigger: &str, description: &str, action: CommandAction<H>)
        ensures
            final(self).prefix_view() == old(self).prefix_view(),
            final(self).ext_helps() == old(self).ext_helps(),
            ({
                let i = first_index(old(self).cmds(), trigger@);
                let c = final(self).cmds();
                &&& i >= 0 ==> c.len() == old(self).cmds().len()
                &&& i < 0 ==> c.len() == old(self).cmds().len() + 1
                &&& forall|j: int|
                    0 <= j < old(self).cmds().len() && j != i ==> c[j] == old(self).cmds()[j]
                &&& c[if i >= 0 { i } else { old(self).cmds().len() as int }].trigger@ == trigger@
                &&& c[if i >= 0 { i } else { old(self).cmds().len() as int }].description@
                    == description@
                &&& c[if i >= 0 { i } else { old(self).cmds().len() as int }].handler == action
            }),
    {
        let t = String::from_str(trigger);
        let ghost cs = self.commands@;
        let mut i: usize = 0;
        assert(cs.take(0) =~= Seq::<Command<H>>::empty());
        while i < self.commands.len()
            invariant
                i <= self.commands@.len(),
                cs == self.commands@,
                t@ == trigger@,
                first_index(cs.take(i as int), trigger@) < 0,
            ensures
                i <= self.commands@.len(),
                cs == self.commands@,
                i < cs.len() ==> first_index(cs, trigger@) == i,
                first_index(cs.take(i as int), trigger@) < 0,
            decreases self.commands@.len() - i,
        {
            assert(cs.take(i + 1).drop_last() =~= cs.take(i as int));
            assert(cs.take(i + 1).last() == cs[i as int]);
            if self.commands[i].trigger == t {
                proof {
                    lemma_first_index_prefix(cs, i as int + 1, trigger@);
                }
                break;
            }
            i = i + 1;
        }
        proof {
            if i >= cs.len() {
                assert(cs.take(i as int) =~= cs);
            }
        }
        let c = Command { trigger: t, description: String::from_str(description), handler: action };
        if i < self.commands.len() {
            self.commands.set(i, c);
        } else {
            self.commands.push(c);
        }
    }

    /// Registers a command with a handler, replacing any command with the
    /// same trigger.
    pub fn register(&mut self, trigger: &str, description: &str, handler: H)
        ensures
            final(self).prefix_view() == old(self).prefix_view(),
            final(self).ext_helps() == old(self).ext_helps(),
            ({
                let i = first_index(old(self).cmds(), trigger@);
                let c = final(self).cmds();
                &&& i >= 0 ==> c.len() == old(self).cmds().len()
                &&& i < 0 ==> c.len() == old(self).cmds().len() + 1
                &&& forall|j: int|
                    0 <= j < old(self).cmds().len() && j != i ==> c[j] == old(self).cmds()[j]
                &&& c[if i >= 0 { i } else { old(self).cmds().len() as int }].trigger@ == trigger@
                &&& c[if i >= 0 { i } else { old(self).cmds().len() as int }].description@
                    == description@
                &&& c[if i >= 0 { i } else { old(self).cmds().len() as int }].handler
                    == CommandAction::Handler(handler)
            }),
    {
        self.register_action(trigger, description, CommandAction::Handler(handler));
    }

    /// Registers a command that replies with `response`, after filling in
    /// `{args}` and `{1}`, `{2}`, ... with the arguments of each use.
    pub fn register_static(&mut self, trigger: &str, description: &str, response: &str)
        ensures
            final(self).prefix_view() == old(self).prefix_view(),
            final(self).ext_helps() == old(self).ext_helps(),
            ({
                let i = first_index(old(self).cmds(), trigger@);
                let c = final(self).cmds();
                let k = if i >= 0 { i } else { old(self).cmds().len() as int };
                &&& i >= 0 ==> c.len() == old(self).cmds().len()
                &&& i < 0 ==> c.len() == old(self).cmds().len() + 1
                &&& forall|j: int|
                    0 <= j < old(self).cmds().len() && j != i ==> c[j] == old(self).cmds()[j]
                &&& c[k].trigger@ == trigger@
                &&& c[k].description@ == description@
                &&& c[k].handler matches CommandAction::Static(t) && t@ == response@
            }),
    {
        let r = String::from_str(response);
        self.register_action(trigger, description, CommandAction::Static(r));
    }

    /// The handler of command `index`, if it has one.
    pub fn handler_at(&self, index: usize) -> (h: Option<&H>)
        ensures
            match h {
                Some(x) => index < self.cmds().len() && self.cmds()[index as int].handler
                    == CommandAction::Handler(*x),
                None => index >= self.cmds().len() || self.cmds()[index as int].handler is Static,
            },
    {
        if index >= self.commands.len() {
            return None;
        }
        match &self.commands[index].handler {
            CommandAction::Handler(x) => Some(x),
            CommandAction::Static(_) => None,
        }
    }

    /// Routes an incoming text: decides whether it is a command, the help
    /// request, a built-in command, or a trigger for plugins.
    pub fn route(&self, text: &str) -> (r: Route)
        ensures
            route_spec(
                self.prefix_view(),
                self.cmds(),
                help_spec(self.prefix_view(), self.help_entries()),
                text@,
                r,
            ),
    {
        let tc = chars_of(text);
        let pc = chars_of(self.prefix.as_str());
        if !has_prefix_exec(&tc, &pc) {
            return Route::NotCommand;
        }
        let rest = skip_chars(&tc, pc.len());
        let mut words = split_ws_exec(&rest);
        if words.len() == 0 {
            return Route::NotCommand;
        }
        let first = chars_of(words[0].as_str());
        let help = chars_of("help");
        if chars_eq(&first, &help) {
            return Route::Help(self.help_text());
        }
        let t = words[0].clone();
        let ghost ws = strs(words@);
        let mut i: usize = 0;
        let ghost cs = self.commands@;
        assert(cs.take(0) =~= Seq::<Command<H>>::empty());
        while i < self.commands.len()
            invariant
                i <= self.commands@.len(),
                cs == self.commands@,
                t@ == ws[0],
                first_index(cs.take(i as int), ws[0]) < 0,
            ensures
                i <= self.commands@.len(),
                i < cs.len() ==> first_index(cs, ws[0]) == i,
                first_index(cs.take(i as int), ws[0]) < 0,
            decreases self.commands@.len() - i,
        {
            assert(cs.take(i + 1).drop_last() =~= cs.take(i as int));
            assert(cs.take(i + 1).last() == cs[i as int]);
            if self.commands[i].trigger == t {
                proof {
                    lemma_first_index_prefix(cs, i as int + 1, ws[0]);
                }
                break;
            }
            i = i + 1;
        }
        proof {
            if i >= cs.len() {
                assert(cs.take(i as int) =~= cs);
            }
        }
        if i == self.commands.len() {
            return Route::Unknown(words);
        }
        let args = words.split_off(1);
        assert(strs(args@) =~= ws.skip(1));
        match &self.commands[i].handler {
            CommandAction::Static(template) => Route::Reply(render_static_exec(template.as_str(), &args)),
            CommandAction::Handler(_) => Route::Handler { index: i, args },
        }
    }

    /// Stable insertion sort of entry references by trigger.
    fn sort_refs(&self, idx: &Vec<EntryRef>) -> (r: Vec<EntryRef>)
        requires
            forall|i: int| 0 <= i < idx@.len() ==> self.valid_ref(#[trigger] idx@[i]),
        ensures
            r@.map_values(|e: EntryRef| self.entry_at(e).1) == sort_entries(
                idx@.map_values(|e: EntryRef| self.entry_at(e).1),
            ),
            forall|i: int| 0 <= i < r@.len() ==> self.valid_ref(#[trigger] r@[i]),
    {
        let ghost es = idx@.map_values(|e: EntryRef| self.entry_at(e).1);
        let mut r: Vec<EntryRef> = Vec::new();
        let mut k: usize = 0;
        assert(es.take(0) =~= Seq::<HelpEntry>::empty());
        while k < idx.len()
            invariant
                k <= idx.len(),
                es == idx@.map_values(|e: EntryRef| self.entry_at(e).1),
                forall|i: int| 0 <= i < idx@.len() ==> self.valid_ref(#[trigger] idx@[i]),
                forall|i: int| 0 <= i < r@.len() ==> self.valid_ref(#[trigger] r@[i]),
                r@.map_values(|e: EntryRef| self.entry_at(e).1) == sort_entries(es.take(k as int)),
            decreases idx.len() - k,
        {
            let e = idx[k];
            assert(self.valid_ref(idx@[k as int]));
            let et = self.entry_trigger(e);
            let ghost s = r@.map_values(|e: EntryRef| self.entry_at(e).1);
            let ghost ee = self.entry_at(e).1;
            let mut pos: usize = r.len();
            assert(s.take(s.len() as int) =~= s);
            assert(s.skip(s.len() as int) =~= Seq::<HelpEntry>::empty());
            loop
                invariant
                    pos <= r.len(),
                    s == r@.map_values(|e: EntryRef| self.entry_at(e).1),
                    forall|i: int| 0 <= i < r@.len() ==> self.valid_ref(#[trigger] r@[i]),
                    et@ == ee.0,
                    insert_entry(s, ee) == insert_entry(s.take(pos as int), ee) + s.skip(pos as int),
                ensures
                    pos <= r.len(),
                    insert_entry(s, ee) == insert_entry(s.take(pos as int), ee) + s.skip(pos as int),
                    pos > 0 ==> !seq_lt(ee.0, s[pos - 1].0),
                decreases pos,
            {
                if pos == 0 {
                    break;
                }
                assert(self.valid_ref(r@[pos - 1]));
                let pt = self.entry_trigger(r[pos - 1]);
                if !seq_lt_exec(&et, &pt) {
                    break;
                }
                proof {
                    let t = s.take(pos as int);
                    assert(t.last() == s[pos - 1]);
                    assert(t.drop_last() =~= s.take(pos - 1));
                    assert(insert_entry(t, ee) == insert_entry(s.take(pos - 1), ee).push(s[pos - 1]));
                    assert(insert_entry(s.take(pos - 1), ee).push(s[pos - 1]) + s.skip(pos as int)
                        =~= insert_entry(s.take(pos - 1), ee) + s.skip(pos - 1));
                }
                pos = pos - 1;
            }
            proof {
                let t = s.take(pos as int);
                if pos > 0 {
                    assert(t.last() == s[pos - 1]);
                    assert(insert_entry(t, ee) == t.push(ee));
                } else {
                    assert(t =~= Seq::<HelpEntry>::empty());
                }
                assert(es.take(k + 1).drop_last() =~= es.take(k as int));
                assert(es.take(k + 1).last() == ee);
            }
            r.insert(pos, e);
            assert(r@.map_values(|e: EntryRef| self.entry_at(e).1) =~= s.take(pos as int).push(ee)
                + s.skip(pos as int));
            k = k + 1;
        }
        assert(es.take(idx.len() as int) =~= es);
        r
    }

    /// The help text listing every built-in command and external help entry,
    /// grouped by help group and sorted by trigger.
    pub fn help_text(&self) -> (r: String)
        ensures
            r@ == help_spec(self.prefix_view(), self.help_entries()),
    {
        let ghost all = self.help_entries();
        let ghost n = self.commands@.len();
        let prefix = chars_of(self.prefix.as_str());
        // The distinct group names, ascending.
        let ghost gs = seq!["Core"@] + all.map_values(|x: (Seq<char>, HelpEntry)| x.0);
        let mut names: Vec<Vec<char>> = Vec::new();
        assert(names@.map_values(|v: Vec<char>| v@) =~= Seq::<Seq<char>>::empty());
        insert_name_exec(&mut names, chars_of("Core"));
        assert(gs.take(1).drop_last() =~= Seq::<Seq<char>>::empty());
        assert(gs.take(1).last() == "Core"@);
        assert(sort_names(Seq::<Seq<char>>::empty()) == Seq::<Seq<char>>::empty());
        assert(sort_names(gs.take(1)) == insert_name(Seq::<Seq<char>>::empty(), "Core"@));
        let mut i: usize = 0;
        while i < self.commands.len()
            invariant
                i <= self.commands@.len(),
                n == self.commands@.len(),
                all == self.help_entries(),
                gs == seq!["Core"@] + all.map_values(|x: (Seq<char>, HelpEntry)| x.0),
                names@.map_values(|v: Vec<char>| v@) == sort_names(gs.take(i + 1)),
            decreases self.commands@.len() - i,
        {
            assert(gs.take(i + 2).drop_last() =~= gs.take(i + 1));
            assert(gs.take(i + 2).last() == all[i as int].0);
            insert_name_exec(&mut names, chars_of("Core"));
            i = i + 1;
        }
        let mut k: usize = 0;
        while k < self.external_helps.len()
            invariant
                k <= self.external_helps@.len(),
                n == self.commands@.len(),
                all == self.help_entries(),
                all.len() == n + self.external_helps@.len(),
                gs == seq!["Core"@] + all.map_values(|x: (Seq<char>, HelpEntry)| x.0),
                names@.map_values(|v: Vec<char>| v@) == sort_names(gs.take(n + k + 1)),
            decreases self.external_helps@.len() - k,
        {
            assert(gs.take(n + k + 2).drop_last() =~= gs.take(n + k + 1));
            assert(gs.take(n + k + 2).last() == all[n + k].0);
            insert_name_exec(&mut names, chars_of(self.external_helps[k].3.as_str()));
            k = k + 1;
        }
        assert(gs.take((all.len() + 1) as int) =~= gs);
        let ghost ns = names@.map_values(|v: Vec<char>| v@);
        assert(ns == group_names(all));
        let mut out = chars_of("Available commands:\n");
        let ghost head = out@;
        let mut gi: usize = 0;
        assert(ns.take(0) =~= Seq::<Seq<char>>::empty());
        while gi < names.len()
            invariant
                gi <= names.len(),
                all == self.help_entries(),
                ns == names@.map_values(|v: Vec<char>| v@),
                out@ == head + sections_text(prefix@, all, ns.take(gi as int)),
            decreases names.len() - gi,
        {
            let idx = self.refs_in_group(&names[gi]);
            let sorted = self.sort_refs(&idx);
            let ghost es = entries_in(all, ns[gi as int]);
            let ghost ses = sorted@.map_values(|e: EntryRef| self.entry_at(e).1);
            assert(ses == sort_entries(es));
            if sorted.len() > 0 {
                append_chars(&mut out, &chars_of("\n### "));
                append_chars(&mut out, &names[gi]);
                append_chars(&mut out, &chars_of("\n"));
                let ghost mid = out@;
                let mut k: usize = 0;
                assert(ses.take(0) =~= Seq::<HelpEntry>::empty());
                while k < sorted.len()
                    invariant
                        k <= sorted.len(),
                        ses == sorted@.map_values(|e: EntryRef| self.entry_at(e).1),
                        forall|i: int| 0 <= i < sorted@.len() ==> self.valid_ref(#[trigger] sorted@[i]),
                        out@ == mid + entries_text(prefix@, ses.take(k as int)),
                    decreases sorted.len() - k,
                {
                    assert(self.valid_ref(sorted@[k as int]));
                    append_chars(&mut out, &self.entry_text_exec(&prefix, sorted[k]));
                    assert(ses.take(k + 1).drop_last() =~= ses.take(k as int));
                    assert(ses.take(k + 1).last() == self.entry_at(sorted@[k as int]).1);
                    k = k + 1;
                }
                assert(ses.take(sorted.len() as int) =~= ses);
                assert(es.len() > 0) by {
                    lemma_sort_entries_len(es);
                }
            } else {
                assert(es.len() == 0) by {
                    lemma_sort_entries_len(es);
                }
            }
            assert(ns.take(gi + 1).drop_last() =~= ns.take(gi as int));
            assert(ns.take(gi + 1).last() == ns[gi as int]);
            assert(out@ =~= head + sections_text(prefix@, all, ns.take(gi + 1)));
            gi = gi + 1;
        }
        assert(ns.take(names.len() as int) =~= ns);
        let t = trim_exec(&out);
        string_from(&t)
    }
}

/// Once a trigger is found in a prefix of the commands, the first index in
/// the whole list is the one in that prefix.
pub proof fn lemma_first_index_prefix<H>(cs: Seq<Command<H>>, k: int, t: Seq<char>)
    requires
        0 <= k <= cs.len(),
        first_index(cs.take(k), t) >= 0,
    ensures
        first_index(cs, t) == first_index(cs.take(k), t),
    decreases cs.len() - k,
{
    if k < cs.len() {
        assert(cs.take(k + 1).drop_last() =~= cs.take(k));
        assert(first_index(cs.take(k + 1), t) == first_index(cs.take(k), t));
        lemma_first_index_prefix(cs, k + 1, t);
    } else {
        assert(cs.take(k) =~= cs);
    }
}

/// Fills in a static response (`render_static`).
pub fn render_static_exec(template: &str, args: &Vec<String>) -> (r: String)
    ensures
        r@ == render_static(template@, strs(args@)),
{
    let tc = chars_of(template);
    let ph = chars_of("{args}");
    proof {
        reveal_strlit("{args}");
    }
    let mut sp: Vec<char> = Vec::new();
    sp.push(' ');
    assert(sp@ =~= seq![' ']);
    let joined = join_exec(args, &sp);
    let mut resp = replace_all_exec(&tc, &ph, &joined);
    let ghost a = strs(args@);
    let mut i: usize = 0;
    while i < args.len()
        invariant
            i <= args.len(),
            a == strs(args@),
            resp@ == substitute_numbered(
                replace_all(template@, "{args}"@, join(a, seq![' '])),
                a,
                i as nat,
            ),
        decreases args.len() - i,
    {
        let mut p: Vec<char> = Vec::new();
        p.push('{');
        let d = decimal_exec((i as u64) + 1);
        append_chars(&mut p, &d);
        p.push('}');
        assert(p@ =~= arg_placeholder((i + 1) as nat));
        let ac = chars_of(args[i].as_str());
        resp = replace_all_exec(&resp, &p, &ac);
        i = i + 1;
    }
    string_from(&resp)
}

/// Sorting keeps the number of entries.
pub proof fn lemma_insert_entry_len(s: Seq<HelpEntry>, e: HelpEntry)
    ensures
        insert_entry(s, e).len() == s.len() + 1,
    decreases s.len(),
{
    if s.len() > 0 && seq_lt(e.0, s.last().0) {
        lemma_insert_entry_len(s.drop_last(), e);
    }
}

/// Sorting keeps the number of entries.
pub proof fn lemma_sort_entries_len(s: Seq<HelpEntry>)
    ensures
        sort_entries(s).len() == s.len(),
    decreases s.len(),
{
    if s.len() > 0 {
        lemma_sort_entries_len(s.drop_last());
        lemma_insert_entry_len(sort_entries(s.drop_last()), s.last());
    }
}

} // verus!

verus! {

/// What `first_index` finds: the first command with the trigger, or -1 when
/// none has it.
pub proof fn lemma_first_index<H>(cs: Seq<Command<H>>, t: Seq<char>)
    ensures
        -1 <= first_index(cs, t) < cs.len(),
        first_index(cs, t) >= 0 ==> cs[first_index(cs, t)].trigger@ == t,
        forall|j: int| 0 <= j < cs.len() && (first_index(cs, t) < 0 || j < first_index(cs, t))
            ==> #[trigger] cs[j].trigger@ != t,
    decreases cs.len(),
{
    if cs.len() > 0 {
        lemma_first_index(cs.drop_last(), t);
        assert forall|j: int|
            0 <= j < cs.len() && (first_index(cs, t) < 0 || j < first_index(cs, t)) implies #[trigger] cs[j].trigger@
            != t by {
            if j < cs.len() - 1 {
                assert(cs.drop_last()[j] == cs[j]);
            }
        }
    }
}

/// A command at `k` with the trigger, and none before it, is the one found.
pub proof fn lemma_first_index_at<H>(cs: Seq<Command<H>>, t: Seq<char>, k: int)
    requires
        0 <= k < cs.len(),
        cs[k].trigger@ == t,
        forall|j: int| 0 <= j < k ==> #[trigger] cs[j].trigger@ != t,
    ensures
        first_index(cs, t) == k,
{
    lemma_first_index(cs, t);
    if first_index(cs, t) < 0 {
        assert(cs[k].trigger@ != t);
    } else if first_index(cs, t) > k {
        assert(cs[k].trigger@ != t);
    } else if first_index(cs, t) < k {
        assert(cs[first_index(cs, t)].trigger@ != t);
    }
}

/// Registering a command under a trigger and then routing a message with
/// that trigger (other than `help`) reaches the registered command: the
/// slot that registration filled is the first with that trigger.
pub proof fn law_registered_command_is_found<H>(
    before: Seq<Command<H>>,
    after: Seq<Command<H>>,
    t: Seq<char>,
)
    requires
        ({
            let i = first_index(before, t);
            let k = if i >= 0 { i } else { before.len() as int };
            &&& i >= 0 ==> after.len() == before.len()
            &&& i < 0 ==> after.len() == before.len() + 1
            &&& forall|j: int| 0 <= j < before.len() && j != i ==> after[j] == before[j]
            &&& after[k].trigger@ == t
        }),
    ensures
        first_index(after, t) == (if first_index(before, t) >= 0 {
            first_index(before, t)
        } else {
            before.len() as int
        }),
{
    lemma_first_index(before, t);
    let i = first_index(before, t);
    let k = if i >= 0 { i } else { before.len() as int };
    assert forall|j: int| 0 <= j < k implies #[trigger] after[j].trigger@ != t by {
        assert(after[j] == before[j]);
        assert(before[j].trigger@ != t);
    }
    lemma_first_index_at(after, t, k);
}

/// No two built-in commands share a trigger.
pub open spec fn cmd_triggers_distinct<H>(cmds: Seq<Command<H>>) -> bool {
    forall|a: int, b: int|
        0 <= a < b < cmds.len() ==> #[trigger] cmds[a].trigger@ != #[trigger] cmds[b].trigger@
}

/// Registration keeps the triggers of the built-in commands distinct: a
/// trigger registered twice names one command, the later one.
pub proof fn law_registration_keeps_triggers_distinct<H>(
    before: Seq<Command<H>>,
    after: Seq<Command<H>>,
    t: Seq<char>,
)
    requires
        cmd_triggers_distinct(before),
        ({
            let i = first_index(before, t);
            let k = if i >= 0 { i } else { before.len() as int };
            &&& i >= 0 ==> after.len() == before.len()
            &&& i < 0 ==> after.len() == before.len() + 1
            &&& forall|j: int| 0 <= j < before.len() && j != i ==> after[j] == before[j]
            &&& after[k].trigger@ == t
        }),
    ensures
        cmd_triggers_distinct(after),
{
    lemma_first_index(before, t);
    let i = first_index(before, t);
    let k = if i >= 0 { i } else { before.len() as int };
    assert forall|a: int, b: int| 0 <= a < b < after.len() implies #[trigger] after[a].trigger@
        != #[trigger] after[b].trigger@ by {
        if a != k && b != k {
            assert(after[a] == before[a]);
            assert(after[b] == before[b]);
        } else if a == k {
            assert(after[b] == before[b]);
            if i >= 0 {
                assert(before[i].trigger@ == t);
            } else {
                assert(b < before.len());
                assert(before[b].trigger@ != t);
            }
        } else {
            assert(after[a] == before[a]);
            if i >= 0 {
                assert(before[i].trigger@ == t);
            } else {
                assert(before[a].trigger@ != t);
            }
        }
    }
}

/// A static command answers every message that names its trigger (other
/// than `help`) with its response, `{args}` and `{n}` filled in with that
/// message's arguments.
pub proof fn law_static_command_replies<H>(
    prefix: Seq<char>,
    cmds: Seq<Command<H>>,
    help: Seq<char>,
    text: Seq<char>,
    k: int,
    r: Route,
)
    requires
        0 <= k < cmds.len(),
        first_index(cmds, route_words(prefix, text)[0]) == k,
        cmds[k].handler is Static,
        is_command(prefix, text),
        route_words(prefix, text)[0] != "help"@,
        route_spec(prefix, cmds, help, text, r),
    ensures
        r matches Route::Reply(s) && s@ == render_static(
            cmds[k].handler->Static_0@,
            route_words(prefix, text).skip(1),
        ),
{
}

/// `help` always answers with the help text, even if a command was
/// registered under that trigger.
pub proof fn law_help_is_reserved<H>(
    prefix: Seq<char>,
    cmds: Seq<Command<H>>,
    help: Seq<char>,
    text: Seq<char>,
    r: Route,
)
    requires
        is_command(prefix, text),
        route_words(prefix, text)[0] == "help"@,
        route_spec(prefix, cmds, help, text, r),
    ensures
        r matches Route::Help(h) && h@ == help,
{
}

/// A message without the prefix is never a command.
pub proof fn law_unprefixed_is_not_command<H>(
    prefix: Seq<char>,
    cmds: Seq<Command<H>>,
    help: Seq<char>,
    text: Seq<char>,
    r: Route,
)
    requires
        !has_prefix(text, prefix),
        route_spec(prefix, cmds, help, text, r),
    ensures
        r is NotCommand,
{
}

/// A static response without `{` is sent as it is, whatever the arguments.
pub proof fn law_plain_response_is_verbatim(template: Seq<char>, args: Seq<Seq<char>>)
    requires
        forall|i: int| 0 <= i < template.len() ==> template[i] != '{',
    ensures
        render_static(template, args) == template,
{
    reveal_strlit("{args}");
    lemma_no_brace_no_placeholder(template, "{args}"@);
    lemma_replace_absent(template, "{args}"@, join(args, seq![' ']));
    lemma_substitute_plain(template, args, args.len());
}

proof fn lemma_no_brace_no_placeholder(s: Seq<char>, p: Seq<char>)
    requires
        p.len() > 0,
        p[0] == '{',
        forall|i: int| 0 <= i < s.len() ==> s[i] != '{',
    ensures
        !contains_seq(s, p),
{
    assert forall|i: int| !occurs_at(s, p, i) by {
        if occurs_at(s, p, i) {
            assert(s.subrange(i, i + p.len())[0] == s[i]);
        }
    }
}

proof fn lemma_substitute_plain(t: Seq<char>, args: Seq<Seq<char>>, n: nat)
    requires
        forall|i: int| 0 <= i < t.len() ==> t[i] != '{',
    ensures
        substitute_numbered(t, args, n) == t,
    decreases n,
{
    reveal_strlit("{args}");
    if n > 0 {
        lemma_substitute_plain(t, args, (n - 1) as nat);
        lemma_no_brace_no_placeholder(t, arg_placeholder(n));
        lemma_replace_absent(t, arg_placeholder(n), args[n - 1]);
    }
}

/// `insert_name` keeps every name it is given and adds `n`.
proof fn lemma_insert_name_contains(sorted: Seq<Seq<char>>, n: Seq<char>)
    ensures
        insert_name(sorted, n).contains(n),
        forall|x: Seq<char>| sorted.contains(x) ==> #[trigger] insert_name(sorted, n).contains(x),
    decreases sorted.len(),
{
    let r = insert_name(sorted, n);
    if sorted.len() == 0 {
        assert(r[0] == n);
    } else if sorted.last() == n {
        assert(r[sorted.len() - 1] == n);
    } else if seq_lt(n, sorted.last()) {
        let d = sorted.drop_last();
        lemma_insert_name_contains(d, n);
        let q = insert_name(d, n);
        assert(r == q.push(sorted.last()));
        let m = choose|m: int| 0 <= m < q.len() && q[m] == n;
        assert(r[m] == n);
        assert forall|x: Seq<char>| sorted.contains(x) implies #[trigger] r.contains(x) by {
            let k = choose|k: int| 0 <= k < sorted.len() && sorted[k] == x;
            if k == sorted.len() - 1 {
                assert(r[q.len() as int] == x);
            } else {
                assert(d[k] == x);
                assert(d.contains(x));
                assert(q.contains(x));
                let j = choose|j: int| 0 <= j < q.len() && q[j] == x;
                assert(r[j] == x);
            }
        }
    } else {
        assert(r == sorted.push(n));
        assert(r[sorted.len() as int] == n);
        assert forall|x: Seq<char>| sorted.contains(x) implies #[trigger] r.contains(x) by {
            let k = choose|k: int| 0 <= k < sorted.len() && sorted[k] == x;
            assert(r[k] == x);
        }
    }
}

/// `sort_names` keeps every name.
proof fn lemma_sort_names_contains(s: Seq<Seq<char>>, x: Seq<char>)
    requires
        s.contains(x),
    ensures
        sort_names(s).contains(x),
    decreases s.len(),
{
    let d = s.drop_last();
    lemma_insert_name_contains(sort_names(d), s.last());
    if s.last() != x {
        let k = choose|k: int| 0 <= k < s.len() && s[k] == x;
        assert(d[k] == x);
        lemma_sort_names_contains(d, x);
    }
}

/// `insert_entry` keeps every entry it is given and adds `e`.
proof fn lemma_insert_entry_contains(sorted: Seq<HelpEntry>, e: HelpEntry)
    ensures
        insert_entry(sorted, e).contains(e),
        forall|x: HelpEntry| sorted.contains(x) ==> #[trigger] insert_entry(sorted, e).contains(x),
    decreases sorted.len(),
{
    let r = insert_entry(sorted, e);
    if sorted.len() == 0 {
        assert(r[0] == e);
    } else if seq_lt(e.0, sorted.last().0) {
        let d = sorted.drop_last();
        lemma_insert_entry_contains(d, e);
        let q = insert_entry(d, e);
        assert(r == q.push(sorted.last()));
        let m = choose|m: int| 0 <= m < q.len() && q[m] == e;
        assert(r[m] == e);
        assert forall|x: HelpEntry| sorted.contains(x) implies #[trigger] r.contains(x) by {
            let k = choose|k: int| 0 <= k < sorted.len() && sorted[k] == x;
            if k == sorted.len() - 1 {
                assert(r[q.len() as int] == x);
            } else {
                assert(d[k] == x);
                assert(d.contains(x));
                assert(q.contains(x));
                let j = choose|j: int| 0 <= j < q.len() && q[j] == x;
                assert(r[j] == x);
            }
        }
    } else {
        assert(r == sorted.push(e));
        assert(r[sorted.len() as int] == e);
        assert forall|x: HelpEntry| sorted.contains(x) implies #[trigger] r.contains(x) by {
            let k = choose|k: int| 0 <= k < sorted.len() && sorted[k] == x;
            assert(r[k] == x);
        }
    }
}

/// `sort_entries` keeps every entry.
proof fn lemma_sort_entries_contains(s: Seq<HelpEntry>, x: HelpEntry)
    requires
        s.contains(x),
    ensures
        sort_entries(s).contains(x),
    decreases s.len(),
{
    let d = s.drop_last();
    lemma_insert_entry_contains(sort_entries(d), s.last());
    if s.last() != x {
        let k = choose|k: int| 0 <= k < s.len() && s[k] == x;
        assert(d[k] == x);
        lemma_sort_entries_contains(d, x);
    }
}

/// The entries of a group hold every entry filed under it.
proof fn lemma_entries_in_contains(all: Seq<(Seq<char>, HelpEntry)>, j: int)
    requires
        0 <= j < all.len(),
    ensures
        entries_in(all, all[j].0).contains(all[j].1),
    decreases all.len(),
{
    let g = all[j].0;
    let d = all.drop_last();
    if j == all.len() - 1 {
        let q = entries_in(d, g);
        assert(entries_in(all, g) == q.push(all[j].1));
        assert(entries_in(all, g)[q.len() as int] == all[j].1);
    } else {
        assert(d[j] == all[j]);
        lemma_entries_in_contains(d, j);
        let q = entries_in(d, g);
        let m = choose|m: int| 0 <= m < q.len() && q[m] == all[j].1;
        if all.last().0 == g {
            assert(entries_in(all, g) == q.push(all.last().1));
            assert(entries_in(all, g)[m] == all[j].1);
        } else {
            assert(entries_in(all, g) == q);
        }
    }
}

/// A text is a piece of itself.
proof fn lemma_contains_self(s: Seq<char>)
    ensures
        contains_seq(s, s),
{
    lemma_contains_prefix(s, s.len() as int);
    assert(s.take(s.len() as int) =~= s);
}

/// The lines of several entries hold the lines of each.
proof fn lemma_entries_text_contains(prefix: Seq<char>, es: Seq<HelpEntry>, k: int)
    requires
        0 <= k < es.len(),
    ensures
        contains_seq(entries_text(prefix, es), entry_text(prefix, es[k])),
    decreases es.len(),
{
    let d = es.drop_last();
    if k == es.len() - 1 {
        lemma_contains_self(entry_text(prefix, es[k]));
        lemma_contains_in_right(entries_text(prefix, d), entry_text(prefix, es[k]), entry_text(prefix, es[k]));
    } else {
        assert(d[k] == es[k]);
        lemma_entries_text_contains(prefix, d, k);
        lemma_contains_in_left(entries_text(prefix, d), entry_text(prefix, es.last()), entry_text(prefix, es[k]));
    }
}

/// The sections of several groups hold the section of each.
proof fn lemma_sections_text_contains(
    prefix: Seq<char>,
    all: Seq<(Seq<char>, HelpEntry)>,
    names: Seq<Seq<char>>,
    k: int,
)
    requires
        0 <= k < names.len(),
    ensures
        contains_seq(sections_text(prefix, all, names), section_text(prefix, all, names[k])),
    decreases names.len(),
{
    let d = names.drop_last();
    if k == names.len() - 1 {
        lemma_contains_self(section_text(prefix, all, names[k]));
        lemma_contains_in_right(
            sections_text(prefix, all, d),
            section_text(prefix, all, names[k]),
            section_text(prefix, all, names[k]),
        );
    } else {
        assert(d[k] == names[k]);
        lemma_sections_text_contains(prefix, all, d, k);
        lemma_contains_in_left(
            sections_text(prefix, all, d),
            section_text(prefix, all, names.last()),
            section_text(prefix, all, names[k]),
        );
    }
}

/// The help text names every help entry: for each built-in command and each
/// external entry, it holds `<prefix><trigger>:`.
pub proof fn law_help_lists_every_entry(prefix: Seq<char>, all: Seq<(Seq<char>, HelpEntry)>, i: int)
    requires
        0 <= i < all.len(),
    ensures
        contains_seq(help_spec(prefix, all), prefix + all[i].1.0 + ":"@),
{
    let g = all[i].0;
    let e = all[i].1;
    let p = prefix + e.0 + ":"@;
    reveal_strlit(":");
    reveal_strlit(": ");
    reveal_strlit("Available commands:\n");
    // The entry's group is listed.
    let gs = seq!["Core"@] + all.map_values(|x: (Seq<char>, HelpEntry)| x.0);
    assert(gs[i + 1] == g);
    lemma_sort_names_contains(gs, g);
    let names = group_names(all);
    let k = choose|k: int| 0 <= k < names.len() && names[k] == g;
    // The entry is in its group's sorted entries.
    lemma_entries_in_contains(all, i);
    let es = entries_in(all, g);
    lemma_sort_entries_contains(es, e);
    let sorted = sort_entries(es);
    let m = choose|m: int| 0 <= m < sorted.len() && sorted[m] == e;
    lemma_entries_text_contains(prefix, sorted, m);
    // The entry's line starts with `<prefix><trigger>:`.
    let et = entry_text(prefix, e);
    assert(et.take(p.len() as int) =~= p);
    lemma_contains_prefix(et, p.len() as int);
    lemma_contains_trans(entries_text(prefix, sorted), et, p);
    // Its section, the sections, and the whole text hold it.
    assert(es.len() > 0);
    lemma_contains_in_right("\n### "@ + g + "\n"@, entries_text(prefix, sorted), p);
    lemma_sections_text_contains(prefix, all, names, k);
    lemma_contains_trans(sections_text(prefix, all, names), section_text(prefix, all, g), p);
    let full = "Available commands:\n"@ + sections_text(prefix, all, names);
    lemma_contains_in_right("Available commands:\n"@, sections_text(prefix, all, names), p);
    assert(full[0] == 'A');
    assert(p.last() == ':');
    lemma_trim_keeps(full, p);
}

/// The help text names every registered built-in command.
pub proof fn law_help_lists_every_command<H>(
    prefix: Seq<char>,
    cmds: Seq<Command<H>>,
    ext: Seq<(String, String, Vec<(String, String)>, String)>,
    j: int,
)
    requires
        0 <= j < cmds.len(),
    ensures
        contains_seq(help_spec(prefix, all_entries(cmds, ext)), prefix + cmds[j].trigger@ + ":"@),
{
    let all = all_entries(cmds, ext);
    assert(all[j] == core_entry(cmds[j]));
    law_help_lists_every_entry(prefix, all, j);
}

/// A command's trigger and each of its arguments are non-empty and hold no
/// whitespace.
pub proof fn law_command_words_are_words(prefix: Seq<char>, text: Seq<char>)
    ensures
        forall|i: int|
            0 <= i < route_words(prefix, text).len() ==> is_word(#[trigger] route_words(prefix, text)[i]),
{
    lemma_split_ws_words(text.skip(prefix.len() as int));
}

/// A router without entries has the bare header as its help text.
pub proof fn lemma_help_of_no_entries(prefix: Seq<char>)
    ensures
        help_spec(prefix, Seq::empty()) == "Available commands:"@,
{
    let all = Seq::<(Seq<char>, HelpEntry)>::empty();
    reveal_strlit("Available commands:");
    reveal_strlit("Available commands:\n");
    reveal_strlit("Core");
    let gs = seq!["Core"@] + all.map_values(|x: (Seq<char>, HelpEntry)| x.0);
    assert(gs =~= seq!["Core"@]);
    assert(gs.drop_last() =~= Seq::<Seq<char>>::empty());
    assert(sort_names(gs.drop_last()) =~= Seq::<Seq<char>>::empty());
    assert(insert_name(Seq::<Seq<char>>::empty(), "Core"@) =~= seq!["Core"@]);
    assert(sort_names(gs) =~= seq!["Core"@]);
    let names = group_names(all);
    assert(names =~= seq!["Core"@]);
    assert(names.last() == "Core"@);
    assert(entries_in(all, "Core"@) =~= Seq::<HelpEntry>::empty());
    assert(section_text(prefix, all, "Core"@) =~= Seq::<char>::empty());
    assert(names.drop_last() =~= Seq::<Seq<char>>::empty());
    assert(sections_text(prefix, all, names.drop_last()) =~= Seq::<char>::empty());
    assert(sections_text(prefix, all, names) =~= Seq::<char>::empty());
    let s = "Available commands:\n"@;
    assert(s + Seq::<char>::empty() =~= s);
    assert(trim_start(s) == s);
    assert(s.drop_last() =~= "Available commands:"@);
    assert(is_ws(s.last()));
    assert(trim_end(s) == trim_end("Available commands:"@));
    assert(!is_ws("Available commands:"@.last()));
}

/// The help text depends only on the prefix and on the triggers,
/// descriptions, aliases and groups of the entries: two routers that agree
/// on them (such as two built by the same calls of `new`, `register`,
/// `register_static` and `add_external_help`) give the same help text,
/// whatever their handlers and whatever the order in which maps were walked.
pub proof fn law_help_is_determined<H>(r1: &CommandRouter<H>, r2: &CommandRouter<H>)
    requires
        r1.prefix_view() == r2.prefix_view(),
        r1.cmds().map_values(|c: Command<H>| core_entry(c)) == r2.cmds().map_values(
            |c: Command<H>| core_entry(c),
        ),
        r1.ext_helps().map_values(|e: (String, String, Vec<(String, String)>, String)| ext_entry(e))
            == r2.ext_helps().map_values(
            |e: (String, String, Vec<(String, String)>, String)| ext_entry(e),
        ),
    ensures
        help_spec(r1.prefix_view(), r1.help_entries()) == help_spec(
            r2.prefix_view(),
            r2.help_entries(),
        ),
{
    r1.lemma_help_entries();
    r2.lemma_help_entries();
    assert(r1.help_entries() =~= r2.help_entries());
}

/// `after` is `before` with a command registered under trigger `t` and
/// description `d`, as `register` and `register_static` ensure.
pub open spec fn registered<H>(
    before: Seq<Command<H>>,
    after: Seq<Command<H>>,
    t: Seq<char>,
    d: Seq<char>,
) -> bool {
    let i = first_index(before, t);
    let k = if i >= 0 {
        i
    } else {
        before.len() as int
    };
    &&& i >= 0 ==> after.len() == before.len()
    &&& i < 0 ==> after.len() == before.len() + 1
    &&& forall|j: int| 0 <= j < before.len() && j != i ==> after[j] == before[j]
    &&& after[k].trigger@ == t
    &&& after[k].description@ == d
}

/// Command lists with the same help entries find a trigger at the same
/// place.
proof fn lemma_first_index_same_entries<H>(c1: Seq<Command<H>>, c2: Seq<Command<H>>, t: Seq<char>)
    requires
        c1.map_values(|c: Command<H>| core_entry(c)) == c2.map_values(|c: Command<H>| core_entry(c)),
    ensures
        first_index(c1, t) == first_index(c2, t),
    decreases c1.len(),
{
    let e1 = c1.map_values(|c: Command<H>| core_entry(c));
    let e2 = c2.map_values(|c: Command<H>| core_entry(c));
    assert(c1.len() == e1.len() && c2.len() == e2.len());
    if c1.len() > 0 {
        assert(c1.drop_last().map_values(|c: Command<H>| core_entry(c)) =~= e1.drop_last());
        assert(c2.drop_last().map_values(|c: Command<H>| core_entry(c)) =~= e2.drop_last());
        lemma_first_index_same_entries(c1.drop_last(), c2.drop_last(), t);
        assert(e1[c1.len() - 1] == e2[c2.len() - 1]);
    }
}

/// Registration keeps routers that agree on their help entries in
/// agreement: registering the same trigger and description in two command
/// lists with the same help entries gives lists with the same help entries.
/// `add_external_help` appends the same entry to both, so routers built by
/// the same calls of `new`, `register`, `register_static` and
/// `add_external_help` agree, and give the same help text
/// (`law_help_is_determined`).
pub proof fn law_registration_keeps_help_entries_equal<H>(
    before1: Seq<Command<H>>,
    after1: Seq<Command<H>>,
    before2: Seq<Command<H>>,
    after2: Seq<Command<H>>,
    t: Seq<char>,
    d: Seq<char>,
)
    requires
        before1.map_values(|c: Command<H>| core_entry(c)) == before2.map_values(
            |c: Command<H>| core_entry(c),
        ),
        registered(before1, after1, t, d),
        registered(before2, after2, t, d),
    ensures
        after1.map_values(|c: Command<H>| core_entry(c)) == after2.map_values(
            |c: Command<H>| core_entry(c),
        ),
{
    lemma_first_index_same_entries(before1, before2, t);
    let e1 = before1.map_values(|c: Command<H>| core_entry(c));
    let e2 = before2.map_values(|c: Command<H>| core_entry(c));
    assert(before1.len() == before2.len()) by {
        assert(e1.len() == before1.len() && e2.len() == before2.len());
    }
    let i = first_index(before1, t);
    assert forall|j: int| 0 <= j < after1.len() implies #[trigger] core_entry(after1[j]) == core_entry(
        after2[j],
    ) by {
        if j < before1.len() && j != i {
            assert(e1[j] == e2[j]);
        }
    }
    assert(after1.map_values(|c: Command<H>| core_entry(c)) =~= after2.map_values(
        |c: Command<H>| core_entry(c),
    ));
}

/// Every piece of a help entry's lines that ends in a non-whitespace
/// character is a piece of the help text.
proof fn lemma_help_holds_entry_piece(
    prefix: Seq<char>,
    all: Seq<(Seq<char>, HelpEntry)>,
    i: int,
    p: Seq<char>,
)
    requires
        0 <= i < all.len(),
        p.len() > 0,
        !is_ws(p.last()),
        contains_seq(entry_text(prefix, all[i].1), p),
    ensures
        contains_seq(help_spec(prefix, all), p),
{
    let g = all[i].0;
    let e = all[i].1;
    reveal_strlit("Available commands:\n");
    let gs = seq!["Core"@] + all.map_values(|x: (Seq<char>, HelpEntry)| x.0);
    assert(gs[i + 1] == g);
    lemma_sort_names_contains(gs, g);
    let names = group_names(all);
    let k = choose|k: int| 0 <= k < names.len() && names[k] == g;
    lemma_entries_in_contains(all, i);
    let es = entries_in(all, g);
    lemma_sort_entries_contains(es, e);
    let sorted = sort_entries(es);
    let m = choose|m: int| 0 <= m < sorted.len() && sorted[m] == e;
    lemma_entries_text_contains(prefix, sorted, m);
    lemma_contains_trans(entries_text(prefix, sorted), entry_text(prefix, e), p);
    assert(es.len() > 0);
    lemma_contains_in_right("\n### "@ + g + "\n"@, entries_text(prefix, sorted), p);
    lemma_sections_text_contains(prefix, all, names, k);
    lemma_contains_trans(sections_text(prefix, all, names), section_text(prefix, all, g), p);
    let full = "Available commands:\n"@ + sections_text(prefix, all, names);
    lemma_contains_in_right("Available commands:\n"@, sections_text(prefix, all, names), p);
    assert(full[0] == 'A');
    lemma_trim_keeps(full, p);
}

/// The alias lines of an entry name each alias: `\t<prefix><alias>:`.
proof fn lemma_aliases_text_contains(prefix: Seq<char>, a: Seq<(Seq<char>, Seq<char>)>, j: int)
    requires
        0 <= j < a.len(),
    ensures
        contains_seq(aliases_text(prefix, a), "\t"@ + prefix + a[j].0 + ":"@),
    decreases a.len(),
{
    reveal_strlit("\t");
    reveal_strlit(":");
    reveal_strlit(": ");
    let front = aliases_text(prefix, a.drop_last());
    let tail = "\t"@ + prefix + a.last().0 + ": "@ + replace_all(
        a.last().1,
        prefix_placeholder(),
        prefix,
    ) + "\n"@;
    assert(aliases_text(prefix, a) =~= front + tail);
    let p = "\t"@ + prefix + a[j].0 + ":"@;
    if j == a.len() - 1 {
        assert(tail.take(p.len() as int) =~= p);
        lemma_contains_prefix(tail, p.len() as int);
        lemma_contains_in_right(front, tail, p);
    } else {
        assert(a.drop_last()[j] == a[j]);
        lemma_aliases_text_contains(prefix, a.drop_last(), j);
        lemma_contains_in_left(front, tail, p);
    }
}

/// The help text names every alias of every entry: for alias `a` of an
/// entry it holds the line start `\t<prefix><a>:`.
pub proof fn law_help_lists_every_alias(
    prefix: Seq<char>,
    all: Seq<(Seq<char>, HelpEntry)>,
    i: int,
    j: int,
)
    requires
        0 <= i < all.len(),
        0 <= j < all[i].1.2.len(),
    ensures
        contains_seq(help_spec(prefix, all), "\t"@ + prefix + all[i].1.2[j].0 + ":"@),
{
    let e = all[i].1;
    let p = "\t"@ + prefix + e.2[j].0 + ":"@;
    reveal_strlit(":");
    lemma_aliases_text_contains(prefix, e.2, j);
    let head = prefix + e.0 + ": "@ + replace_all(e.1, prefix_placeholder(), prefix) + "\n"@;
    assert(entry_text(prefix, e) =~= head + aliases_text(prefix, e.2));
    lemma_contains_in_right(head, aliases_text(prefix, e.2), p);
    assert(p.last() == ':');
    lemma_help_holds_entry_piece(prefix, all, i, p);
}

/// The text `{n}`.
spec fn braced(n: nat) -> Seq<char> {
    seq!['{'] + decimal(n) + seq!['}']
}

/// `{n}` holds `{` only at its start, and digits between the braces.
proof fn lemma_braced_shape(n: nat)
    ensures
        braced(n).len() == decimal(n).len() + 2,
        braced(n)[0] == '{',
        braced(n)[braced(n).len() - 1] == '}',
        forall|k: int| 1 <= k < braced(n).len() - 1 ==> '0' <= #[trigger] braced(n)[k] <= '9',
        decimal(n).len() >= 1,
{
    lemma_decimal_reads_back(n);
    assert forall|k: int| 1 <= k < braced(n).len() - 1 implies '0' <= #[trigger] braced(n)[k] <= '9' by {
        assert(braced(n)[k] == decimal(n)[k - 1]);
    }
}

/// `{m}` does not occur in `{n}` for different numbers.
proof fn lemma_braced_apart(m: nat, n: nat)
    requires
        m != n,
    ensures
        !contains_seq(braced(n), braced(m)),
{
    lemma_braced_shape(m);
    lemma_braced_shape(n);
    lemma_decimal_reads_back(m);
    lemma_decimal_reads_back(n);
    let pm = braced(m);
    let pn = braced(n);
    if contains_seq(pn, pm) {
        let j = choose|j: int| occurs_at(pn, pm, j);
        assert(pn.subrange(j, j + pm.len())[0] == pm[0]);
        assert(pn[j] == '{');
        assert(j == 0);
        let dm = decimal(m).len() as int;
        let dn = decimal(n).len() as int;
        assert(pn.subrange(0, pm.len() as int)[dm + 1] == pm[dm + 1]);
        if dm < dn {
            assert(pn[dm + 1] == '}');
        } else if dm > dn {
            assert(false);
        } else {
            assert(dm == dn);
            assert(pn.subrange(0, pm.len() as int) =~= pn);
            assert(decimal(m) =~= pm.subrange(1, dm + 1));
            assert(decimal(n) =~= pn.subrange(1, dn + 1));
            assert(digits_value(decimal(m)) == digits_value(decimal(n)));
        }
    }
}

/// A text without `{` holds no `{m}`.
proof fn lemma_no_brace_no_braced(x: Seq<char>, m: nat)
    requires
        forall|k: int| 0 <= k < x.len() ==> x[k] != '{',
    ensures
        !contains_seq(x, braced(m)),
{
    lemma_braced_shape(m);
    if contains_seq(x, braced(m)) {
        let j = choose|j: int| occurs_at(x, braced(m), j);
        assert(x.subrange(j, j + braced(m).len())[0] == braced(m)[0]);
    }
}

/// Replacing a whole text that is the pattern gives the replacement.
proof fn lemma_replace_whole(p: Seq<char>, r: Seq<char>)
    requires
        p.len() > 0,
    ensures
        replace_all(p, p, r) == r,
{
    assert(has_prefix(p, p)) by {
        assert(p.take(p.len() as int) =~= p);
    }
    assert(p.skip(p.len() as int) =~= Seq::<char>::empty());
    assert(replace_all(Seq::<char>::empty(), p, r) == Seq::<char>::empty());
    assert(replace_all(p, p, r) == r + replace_all(p.skip(p.len() as int), p, r));
    assert(r + Seq::<char>::empty() =~= r);
}

/// The numbered substitutions up to `m` leave `{n}` as it is while `m < n`,
/// and give the `n`-th argument from `m = n` on.
proof fn lemma_substitute_braced(args: Seq<Seq<char>>, n: nat, m: nat)
    requires
        1 <= n <= args.len(),
        m <= args.len(),
        forall|a: int, k: int| 0 <= a < args.len() && 0 <= k < args[a].len() ==> args[a][k] != '{',
    ensures
        substitute_numbered(braced(n), args, m) == if m < n {
            braced(n)
        } else {
            args[n - 1]
        },
    decreases m,
{
    if m > 0 {
        lemma_substitute_braced(args, n, (m - 1) as nat);
        lemma_braced_shape(m);
        assert(arg_placeholder(m) == braced(m));
        if m < n {
            lemma_braced_apart(m, n);
            lemma_replace_absent(braced(n), braced(m), args[m - 1]);
        } else if m == n {
            lemma_replace_whole(braced(n), args[n - 1]);
        } else {
            lemma_no_brace_no_braced(args[n - 1], m);
            lemma_replace_absent(args[n - 1], braced(m), args[m - 1]);
        }
    }
}

/// A static response fills in every numbered placeholder that has an
/// argument: the response `{n}`, for `1 <= n <=` the number of arguments,
/// replies with the `n`-th argument (arguments holding no `{`).
pub proof fn law_numbered_placeholders_filled(args: Seq<Seq<char>>, n: nat)
    requires
        1 <= n <= args.len(),
        forall|a: int, k: int| 0 <= a < args.len() && 0 <= k < args[a].len() ==> args[a][k] != '{',
    ensures
        render_static(seq!['{'] + decimal(n) + seq!['}'], args) == args[n - 1],
{
    reveal_strlit("{args}");
    lemma_braced_shape(n);
    let t = braced(n);
    assert(!contains_seq(t, "{args}"@)) by {
        if contains_seq(t, "{args}"@) {
            let j = choose|j: int| occurs_at(t, "{args}"@, j);
            assert(t.subrange(j, j + 6)[0] == '{');
            assert(t[j] == '{');
            assert(j == 0);
            assert(t.subrange(0, 6)[1] == 'a');
            assert(t[1] == 'a');
        }
    }
    lemma_replace_absent(t, "{args}"@, join(args, seq![' ']));
    lemma_substitute_braced(args, n, args.len());
}

} // verus!
