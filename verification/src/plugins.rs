//! The plugin registry: which Lua plugins are loaded, under which trigger,
//! with which description and source, and how a plugin file is accepted.
use vstd::prelude::*;
use crate::error::PluginError;
use crate::text::{append_chars, chars_of, split_file_name, split_file_name_exec, string_from, strs};

verus! {

/// `std::path::PathBuf`, carried as an opaque value.
#[verifier::external_type_specification]
#[verifier::external_body]
pub struct ExPathBuf(std::path::PathBuf);

/// What running a plugin's source in a fresh Lua state showed. The
/// embedding application runs the script: a script may end the process or
/// never return, so no function of this library runs one.
pub enum LuaProbe {
    /// Running the source failed.
    ExecFailed(mlua::Error),
    /// The source ran: whether it defines a global function `on_command`,
    /// its global `description` when that reads as a string, and the
    /// strings of its global `aliases` table (none when it has no such
    /// table of strings).
    Loaded { has_on_command: bool, description: Option<String>, aliases: Vec<String> },
}

/// Metadata about a loaded plugin.
pub struct PluginInfo {
    /// The command trigger (the file stem, e.g. "dice" from "dice.lua")
    pub trigger: String,
    /// Human-readable description (the plugin's `description` global, or a default)
    pub description: String,
    /// The Lua source code
    source: String,
}

impl PluginInfo {
    pub closed spec fn view_parts(&self) -> (Seq<char>, Seq<char>, Seq<char>) {
        (self.trigger@, self.description@, self.source@)
    }

    /// The Lua source of the plugin.
    pub fn source(&self) -> (s: &str)
        ensures
            s@ == self.view_parts().2,
    {
        self.source.as_str()
    }
}

/// The default description of a plugin without one: `Lua plugin: <trigger>`.
pub open spec fn default_description(trigger: Seq<char>) -> Seq<char> {
    "Lua plugin: "@ + trigger
}

/// The trigger of a plugin file: the stem of a file name whose extension is
/// `lua`; none for other files.
pub open spec fn plugin_trigger_spec(file_name: Seq<char>) -> Option<Seq<char>> {
    if split_file_name(file_name).1 == Some("lua"@) {
        Some(split_file_name(file_name).0)
    } else {
        None
    }
}

/// Executable `plugin_trigger_spec`.
pub fn plugin_trigger_for(file_name: &str) -> (t: Option<String>)
    ensures
        match t {
            Some(s) => plugin_trigger_spec(file_name@) == Some(s@),
            None => plugin_trigger_spec(file_name@) is None,
        },
{
    let n = chars_of(file_name);
    let (stem, ext) = split_file_name_exec(&n);
    let lua = chars_of("lua");
    match ext {
        Some(e) => if crate::commands::chars_eq(&e, &lua) {
            Some(string_from(&stem))
        } else {
            None
        },
        None => None,
    }
}

/// How a plugin is accepted or rejected, given what running its source
/// showed: a failed run is a load error, a source without `on_command` lacks
/// its handler, and otherwise the plugin is described by its `description`
/// global or by the default description.
pub open spec fn plugin_outcome(
    trigger: Seq<char>,
    source: Seq<char>,
    probe: LuaProbe,
    r: Result<PluginInfo, PluginError>,
) -> bool {
    match probe {
        LuaProbe::ExecFailed(e) => r matches Err(PluginError::LoadError { name, source: s })
            && name@ == trigger && s == e,
        LuaProbe::Loaded { has_on_command, description, .. } => if !has_on_command {
            r matches Err(PluginError::MissingHandler(name)) && name@ == trigger
        } else {
            r matches Ok(info) && info.view_parts() == (
                trigger,
                match description {
                    Some(d) => d@,
                    None => default_description(trigger),
                },
                source,
            )
        },
    }
}

/// Accepts or rejects a plugin as `plugin_outcome` says.
pub fn plugin_info_from(trigger: &str, source: String, probe: LuaProbe) -> (r: Result<
    PluginInfo,
    PluginError,
>)
    ensures
        plugin_outcome(trigger@, source@, probe, r),
{
    match probe {
        LuaProbe::ExecFailed(e) => Err(PluginError::LoadError { name: String::from_str(trigger), source: e }),
        LuaProbe::Loaded { has_on_command, description, .. } => {
            if !has_on_command {
                return Err(PluginError::MissingHandler(String::from_str(trigger)));
            }
            let description = match description {
                Some(d) => d,
                None => {
                    let mut v = chars_of("Lua plugin: ");
                    append_chars(&mut v, &chars_of(trigger));
                    string_from(&v)
                },
            };
            Ok(PluginInfo { trigger: String::from_str(trigger), description, source })
        },
    }
}

/// What reading and running one file of the plugin directory gave.
pub type PluginRead = Result<(String, LuaProbe), std::io::Error>;

/// The parts (trigger, description, source) of the plugin that an entry of
/// the plugin directory gives: none when the file could not be read or the
/// plugin was rejected.
pub open spec fn entry_parts(trigger: Seq<char>, read: PluginRead) -> Option<
    (Seq<char>, Seq<char>, Seq<char>),
> {
    match read {
        Err(_) => None,
        Ok((s, p)) => match p {
            LuaProbe::ExecFailed(_) => None,
            LuaProbe::Loaded { has_on_command, description, .. } => if has_on_command {
                Some(
                    (
                        trigger,
                        match description {
                            Some(d) => d@,
                            None => default_description(trigger),
                        },
                        s@,
                    ),
                )
            } else {
                None
            },
        },
    }
}

/// The aliases that running an entry's source found.
pub open spec fn probe_aliases(read: PluginRead) -> Seq<String> {
    match read {
        Ok((_, LuaProbe::Loaded { aliases, .. })) => aliases@,
        _ => Seq::empty(),
    }
}

/// The registry entries that an entry of the plugin directory gives: the
/// plugin under its trigger, then the same plugin under each of its
/// aliases, in order; none when the file could not be read or the plugin
/// was rejected.
pub open spec fn entry_all_parts(trigger: Seq<char>, read: PluginRead) -> Seq<
    (Seq<char>, Seq<char>, Seq<char>),
> {
    match entry_parts(trigger, read) {
        Some(p) => seq![p] + probe_aliases(read).map_values(|a: String| (a@, p.1, p.2)),
        None => Seq::empty(),
    }
}

/// The report of one entry: its trigger, description and aliases when it
/// was loaded, else the error that `load_plugin` gives for it.
pub open spec fn entry_report(
    trigger: Seq<char>,
    read: PluginRead,
    r: Result<(String, String, Vec<String>), PluginError>,
) -> bool {
    match entry_parts(trigger, read) {
        Some(p) => r matches Ok((t, d, al)) && t@ == p.0 && d@ == p.1 && strs(al@) == strs(
            probe_aliases(read),
        ),
        None => match read {
            Err(e) => r matches Err(PluginError::IoError(x)) && x == e,
            Ok((_, LuaProbe::ExecFailed(e))) => r matches Err(
                PluginError::LoadError { name, source },
            ) && name@ == trigger && source == e,
            Ok(_) => r matches Err(PluginError::MissingHandler(name)) && name@ == trigger,
        },
    }
}

/// The last of `parts` under trigger `t`.
pub open spec fn last_part(parts: Seq<(Seq<char>, Seq<char>, Seq<char>)>, t: Seq<char>) -> Option<
    (Seq<char>, Seq<char>, Seq<char>),
>
    decreases parts.len(),
{
    if parts.len() == 0 {
        None
    } else if parts.last().0 == t {
        Some(parts.last())
    } else {
        last_part(parts.drop_last(), t)
    }
}

/// The plugin that answers to `t` after loading `entries` in order: the
/// last registry entry under `t` that they give (a later plugin, or a later
/// alias, replaces an earlier one).
pub open spec fn last_loaded(entries: Seq<(String, PluginRead)>, t: Seq<char>) -> Option<
    (Seq<char>, Seq<char>, Seq<char>),
>
    decreases entries.len(),
{
    if entries.len() == 0 {
        None
    } else {
        match last_part(entry_all_parts(entries.last().0@, entries.last().1), t) {
            Some(p) => Some(p),
            None => last_loaded(entries.drop_last(), t),
        }
    }
}

/// How many of `entries` are loaded.
pub open spec fn loaded_count(entries: Seq<(String, PluginRead)>) -> nat
    decreases entries.len(),
{
    if entries.len() == 0 {
        0
    } else {
        loaded_count(entries.drop_last()) + if entry_parts(
            entries.last().0@,
            entries.last().1,
        ) is Some {
            1nat
        } else {
            0nat
        }
    }
}

/// A copy of a list of strings.
fn copy_strings(v: &Vec<String>) -> (r: Vec<String>)
    ensures
        strs(r@) == strs(v@),
{
    let mut out: Vec<String> = Vec::new();
    let mut i: usize = 0;
    while i < v.len()
        invariant
            i <= v.len(),
            strs(out@) == strs(v@).take(i as int),
        decreases v.len() - i,
    {
        let ghost before = strs(out@);
        out.push(String::from_str(v[i].as_str()));
        assert(strs(out@) =~= before.push(v@[i as int]@));
        assert(strs(v@).take(i + 1) =~= strs(v@).take(i as int).push(strs(v@)[i as int]));
        assert(strs(out@) =~= strs(v@).take(i + 1));
        i = i + 1;
    }
    assert(strs(v@).take(v.len() as int) =~= strs(v@));
    out
}

/// Manages the loaded Lua plugins.
pub struct PluginManager {
    /// Directory where .lua plugin files live
    plugin_dir: std::path::PathBuf,
    /// The loaded plugins; a trigger occurs at most once
    plugins: Vec<PluginInfo>,
}

/// The parts of the first plugin with trigger `t`.
pub open spec fn find_plugin(ps: Seq<(Seq<char>, Seq<char>, Seq<char>)>, t: Seq<char>) -> Option<
    (Seq<char>, Seq<char>, Seq<char>),
>
    decreases ps.len(),
{
    if ps.len() == 0 {
        None
    } else if ps[0].0 == t {
        Some(ps[0])
    } else {
        find_plugin(ps.skip(1), t)
    }
}

/// No two plugins share a trigger.
pub open spec fn triggers_distinct(ps: Seq<(Seq<char>, Seq<char>, Seq<char>)>) -> bool {
    forall|i: int, j: int| 0 <= i < j < ps.len() ==> #[trigger] ps[i].0 != #[trigger] ps[j].0
}

impl PluginManager {
    /// A trigger names at most one plugin.
    #[verifier::type_invariant]
    spec fn inv(&self) -> bool {
        triggers_distinct(self.infos())
    }

    /// The loaded plugins (trigger, description, source), in load order.
    pub closed spec fn infos(&self) -> Seq<(Seq<char>, Seq<char>, Seq<char>)> {
        self.plugins@.map_values(|p: PluginInfo| p.view_parts())
    }

    pub closed spec fn dir(&self) -> std::path::PathBuf {
        self.plugin_dir
    }

    /// A manager for the plugins of `plugin_dir`; nothing is loaded yet.
    pub fn new(plugin_dir: std::path::PathBuf) -> (m: Self)
        ensures
            m.dir() == plugin_dir,
            m.infos() == Seq::<(Seq<char>, Seq<char>, Seq<char>)>::empty(),
    {
        let m = PluginManager { plugin_dir, plugins: Vec::new() };
        assert(m.infos() =~= Seq::<(Seq<char>, Seq<char>, Seq<char>)>::empty());
        m
    }

    /// The plugin directory.
    pub fn plugin_dir(&self) -> (d: &std::path::PathBuf)
        ensures
            *d == self.dir(),
    {
        &self.plugin_dir
    }

    /// Forgets every loaded plugin (the start of a reload).
    pub fn clear(&mut self)
        ensures
            final(self).dir() == old(self).dir(),
            final(self).infos() == Seq::<(Seq<char>, Seq<char>, Seq<char>)>::empty(),
    {
        self.plugins = Vec::new();
        assert(self.infos() =~= Seq::<(Seq<char>, Seq<char>, Seq<char>)>::empty());
    }

    /// Reads a plugin, given its trigger and the outcome of reading its file
    /// and running it: a failed read is an I/O error; otherwise the plugin is
    /// accepted or rejected as `plugin_outcome` says for its source and what
    /// running that source showed.
    pub fn load_plugin(
        &self,
        trigger: &str,
        read: PluginRead,
    ) -> (r: Result<PluginInfo, PluginError>)
        ensures
            match read {
                Err(e) => r matches Err(PluginError::IoError(x)) && x == e,
                Ok((s, p)) => plugin_outcome(trigger@, s@, p, r),
            },
    {
        match read {
            Err(e) => Err(PluginError::IoError(e)),
            Ok((s, p)) => plugin_info_from(trigger, s, p),
        }
    }

    /// Reloads the plugins from the `.lua` files of the plugin directory:
    /// each entry is a trigger with the outcome of reading and running its
    /// file. A loaded plugin answers to its trigger and to each of its
    /// aliases, and replaces any earlier plugin under those names. Gives how
    /// many were loaded and, for each entry in order, its trigger,
    /// description and aliases or the error that rejected it.
    pub fn load_entries(&mut self, entries: Vec<(String, PluginRead)>) -> (r: (
        usize,
        Vec<Result<(String, String, Vec<String>), PluginError>>,
    ))
        ensures
            final(self).dir() == old(self).dir(),
            forall|t: Seq<char>| #[trigger]
                find_plugin(final(self).infos(), t) == last_loaded(entries@, t),
            r.0 == loaded_count(entries@),
            r.1@.len() == entries@.len(),
            forall|k: int|
                0 <= k < entries@.len() ==> entry_report(
                    entries@[k].0@,
                    entries@[k].1,
                    #[trigger] r.1@[k],
                ),
    {
        self.clear();
        let ghost orig = entries@;
        let n: usize = entries.len();
        assert(orig.len() == n);
        let mut entries = entries;
        let mut report: Vec<Result<(String, String, Vec<String>), PluginError>> = Vec::new();
        let mut count: usize = 0;
        assert(orig.skip(0) =~= orig);
        assert(orig.take(0) =~= Seq::<(String, PluginRead)>::empty());
        while entries.len() > 0
            invariant
                report@.len() + entries@.len() == orig.len(),
                orig.len() <= usize::MAX,
                entries@ == orig.skip(report@.len() as int),
                self.dir() == old(self).dir(),
                forall|t: Seq<char>| #[trigger]
                    find_plugin(self.infos(), t) == last_loaded(orig.take(report@.len() as int), t),
                count as nat == loaded_count(orig.take(report@.len() as int)),
                count <= report@.len(),
                forall|k: int|
                    0 <= k < report@.len() ==> entry_report(orig[k].0@, orig[k].1, #[trigger] report@[k]),
            decreases entries.len(),
        {
            let ghost i = report@.len() as int;
            assert(entries@[0] == orig[i]);
            let (t, read) = entries.remove(0);
            assert(entries@ =~= orig.skip(i + 1));
            let ghost cur = orig.take(i + 1);
            assert(cur.drop_last() =~= orig.take(i));
            assert(cur.last() == orig[i]);
            let ghost prev = orig.take(i);
            let ghost all = entry_all_parts(t@, read);
            let aliases: Vec<String> = match &read {
                Ok((_, LuaProbe::Loaded { aliases, .. })) => copy_strings(aliases),
                _ => Vec::new(),
            };
            assert(strs(aliases@) == strs(probe_aliases(read))) by {
                if !(read matches Ok((_, LuaProbe::Loaded { .. }))) {
                    assert(strs(aliases@) =~= Seq::<Seq<char>>::empty());
                    assert(strs(probe_aliases(read)) =~= Seq::<Seq<char>>::empty());
                }
            }
            let res = self.load_plugin(t.as_str(), read);
            match res {
                Ok(info) => {
                    let trigger = String::from_str(info.trigger.as_str());
                    let description = String::from_str(info.description.as_str());
                    let source = String::from_str(info.source.as_str());
                    let ghost p = info.view_parts();
                    assert(all == seq![p] + probe_aliases(orig[i].1).map_values(
                        |a: String| (a@, p.1, p.2),
                    ));
                    self.insert(info);
                    assert(all.take(1) =~= seq![p]);
                    assert(all.take(1).drop_last() =~= Seq::<(Seq<char>, Seq<char>, Seq<char>)>::empty());
                    assert forall|u: Seq<char>| #[trigger] find_plugin(self.infos(), u) == match last_part(all.take(1), u) {
                        Some(q) => Some(q),
                        None => last_loaded(prev, u),
                    } by {
                        assert(all.take(1).last() == p);
                    }
                    let ghost pa = probe_aliases(orig[i].1);
                    assert(strs(aliases@) == strs(pa));
                    assert(strs(aliases@).len() == aliases@.len());
                    assert(strs(pa).len() == pa.len());
                    assert forall|x: int| 0 <= x < aliases@.len() implies #[trigger] all[1 + x] == (aliases@[x]@, p.1, p.2) by {
                        assert(strs(aliases@)[x] == aliases@[x]@);
                        assert(strs(pa)[x] == pa[x]@);
                    }
                    let mut k: usize = 0;
                    while k < aliases.len()
                        invariant
                            k <= aliases.len(),
                            all.len() == 1 + aliases@.len(),
                            forall|x: int| 0 <= x < aliases@.len() ==> #[trigger] all[1 + x] == (aliases@[x]@, p.1, p.2),
                            description@ == p.1,
                            source@ == p.2,
                            self.dir() == old(self).dir(),
                            forall|u: Seq<char>| #[trigger]
                                find_plugin(self.infos(), u) == match last_part(all.take(1 + k), u) {
                                    Some(q) => Some(q),
                                    None => last_loaded(prev, u),
                                },
                        decreases aliases.len() - k,
                    {
                        let alias = PluginInfo {
                            trigger: String::from_str(aliases[k].as_str()),
                            description: String::from_str(description.as_str()),
                            source: String::from_str(source.as_str()),
                        };
                        assert(alias.view_parts() == all[1 + k]);
                        self.insert(alias);
                        assert(all.take(2 + k).drop_last() =~= all.take(1 + k));
                        assert(all.take(2 + k).last() == all[1 + k]);
                        k = k + 1;
                    }
                    assert(all.take(1 + aliases.len()) =~= all);
                    count = count + 1;
                    report.push(Ok((trigger, description, aliases)));
                },
                Err(e) => {
                    assert(all =~= Seq::<(Seq<char>, Seq<char>, Seq<char>)>::empty());
                    report.push(Err(e));
                },
            }
            assert forall|k: int|
                0 <= k < report@.len() implies entry_report(orig[k].0@, orig[k].1, #[trigger] report@[k]) by {
                if k < i {
                    assert(report@[k] == report@.drop_last()[k]);
                }
            }
        }
        assert(orig.take(orig.len() as int) =~= orig);
        (count, report)
    }

    /// Adds a loaded plugin, replacing any plugin with the same trigger.
    pub fn insert(&mut self, info: PluginInfo)
        ensures
            final(self).dir() == old(self).dir(),
            forall|t: Seq<char>|
                #[trigger] find_plugin(final(self).infos(), t) == if t == info.view_parts().0 {
                    Some(info.view_parts())
                } else {
                    find_plugin(old(self).infos(), t)
                },
    {
        proof {
            use_type_invariant(&*self);
        }
        let ghost old_ps = self.infos();
        let ghost ip = info.view_parts();
        let mut i: usize = 0;
        assert(old_ps.skip(0) =~= old_ps);
        while i < self.plugins.len()
            invariant
                i <= self.plugins.len(),
                old_ps == self.infos(),
                ip == info.view_parts(),
                find_plugin(old_ps, ip.0) == find_plugin(old_ps.skip(i as int), ip.0),
                forall|j: int| 0 <= j < i ==> old_ps[j].0 != ip.0,
            ensures
                i <= self.plugins.len(),
                forall|j: int| 0 <= j < i ==> old_ps[j].0 != ip.0,
                i < self.plugins.len() ==> old_ps[i as int].0 == ip.0,
                i >= self.plugins.len() ==> find_plugin(old_ps, ip.0) is None,
            decreases self.plugins.len() - i,
        {
            assert(old_ps.skip(i as int).skip(1) =~= old_ps.skip(i + 1));
            assert(old_ps[i as int] == self.plugins@[i as int].view_parts());
            if self.plugins[i].trigger == info.trigger {
                break;
            }
            i = i + 1;
        }
        if i < self.plugins.len() {
            proof {
                assert(triggers_distinct(old_ps.update(i as int, ip))) by {
                    assert forall|a: int, b: int| 0 <= a < b < old_ps.len() implies #[trigger] old_ps.update(
                        i as int,
                        ip,
                    )[a].0 != #[trigger] old_ps.update(i as int, ip)[b].0 by {
                        assert(old_ps[a].0 != old_ps[b].0);
                        if a == i {
                            assert(old_ps[i as int].0 == ip.0);
                        }
                        if b == i {
                            assert(old_ps[i as int].0 == ip.0);
                        }
                    }
                }
            }
            let mut ps: Vec<PluginInfo> = Vec::new();
            std::mem::swap(&mut ps, &mut self.plugins);
            ps.set(i, info);
            assert(ps@.map_values(|p: PluginInfo| p.view_parts()) =~= old_ps.update(i as int, ip));
            self.plugins = ps;
            assert(self.infos() =~= old_ps.update(i as int, ip));
            proof {
                lemma_find_update(old_ps, i as int, ip);
            }
        } else {
            proof {
                assert(triggers_distinct(old_ps.push(ip))) by {
                    assert forall|a: int, b: int| 0 <= a < b < old_ps.len() + 1 implies #[trigger] old_ps.push(
                        ip,
                    )[a].0 != #[trigger] old_ps.push(ip)[b].0 by {
                        if b == old_ps.len() {
                            assert(old_ps[a].0 != ip.0);
                        } else {
                            assert(old_ps[a].0 != old_ps[b].0);
                        }
                    }
                }
            }
            let mut ps: Vec<PluginInfo> = Vec::new();
            std::mem::swap(&mut ps, &mut self.plugins);
            ps.push(info);
            assert(ps@.map_values(|p: PluginInfo| p.view_parts()) =~= old_ps.push(ip));
            self.plugins = ps;
            assert(self.infos() =~= old_ps.push(ip));
            proof {
                lemma_find_push(old_ps, ip);
            }
        }
    }

    /// Whether a plugin answers to `trigger`.
    pub fn has_plugin(&self, trigger: &str) -> (b: bool)
        ensures
            b == find_plugin(self.infos(), trigger@) is Some,
    {
        match self.find(trigger) {
            Some(_) => true,
            None => false,
        }
    }

    /// The source of the plugin that answers to `trigger`.
    pub fn source_of(&self, trigger: &str) -> (s: Option<String>)
        ensures
            match s {
                Some(x) => find_plugin(self.infos(), trigger@) matches Some(p) && x@ == p.2,
                None => find_plugin(self.infos(), trigger@) is None,
            },
    {
        match self.find(trigger) {
            Some(i) => Some(self.plugins[i].source.clone()),
            None => None,
        }
    }

    /// Index of the first plugin with trigger `trigger`.
    fn find(&self, trigger: &str) -> (r: Option<usize>)
        ensures
            match r {
                Some(i) => i < self.infos().len() && find_plugin(self.infos(), trigger@) == Some(
                    self.infos()[i as int],
                ),
                None => find_plugin(self.infos(), trigger@) is None,
            },
    {
        let t = String::from_str(trigger);
        let ghost ps = self.infos();
        let mut i: usize = 0;
        assert(ps.skip(0) =~= ps);
        while i < self.plugins.len()
            invariant
                i <= self.plugins.len(),
                ps == self.infos(),
                t@ == trigger@,
                find_plugin(ps, trigger@) == find_plugin(ps.skip(i as int), trigger@),
            decreases self.plugins.len() - i,
        {
            assert(ps.skip(i as int).skip(1) =~= ps.skip(i + 1));
            assert(ps.skip(i as int)[0] == ps[i as int]);
            assert(ps[i as int] == self.plugins@[i as int].view_parts());
            if self.plugins[i].trigger == t {
                return Some(i);
            }
            i = i + 1;
        }
        assert(ps.skip(i as int) =~= Seq::<(Seq<char>, Seq<char>, Seq<char>)>::empty());
        None
    }

    /// Every loaded plugin's trigger and description; no trigger occurs twice.
    pub fn list(&self) -> (r: Vec<(String, String)>)
        ensures
            r@.map_values(|p: (String, String)| (p.0@, p.1@)) == self.infos().map_values(
                |p: (Seq<char>, Seq<char>, Seq<char>)| (p.0, p.1),
            ),
            forall|i: int, j: int| 0 <= i < j < r@.len() ==> #[trigger] r@[i].0@ != #[trigger] r@[j].0@,
    {
        proof {
            use_type_invariant(self);
        }
        let ghost ps = self.infos().map_values(|p: (Seq<char>, Seq<char>, Seq<char>)| (p.0, p.1));
        let mut out: Vec<(String, String)> = Vec::new();
        let mut i: usize = 0;
        while i < self.plugins.len()
            invariant
                i <= self.plugins.len(),
                ps == self.infos().map_values(|p: (Seq<char>, Seq<char>, Seq<char>)| (p.0, p.1)),
                out@.map_values(|p: (String, String)| (p.0@, p.1@)) == ps.take(i as int),
            decreases self.plugins.len() - i,
        {
            let ghost before = out@.map_values(|p: (String, String)| (p.0@, p.1@));
            out.push((self.plugins[i].trigger.clone(), self.plugins[i].description.clone()));
            assert(out@.map_values(|p: (String, String)| (p.0@, p.1@)) =~= before.push(ps[i as int]));
            assert(ps.take(i + 1) =~= ps.take(i as int).push(ps[i as int]));
            i = i + 1;
        }
        assert(ps.take(self.plugins.len() as int) =~= ps);
        assert forall|i: int, j: int| 0 <= i < j < out@.len() implies #[trigger] out@[i].0@ != #[trigger] out@[j].0@ by {
            assert(out@.map_values(|p: (String, String)| (p.0@, p.1@))[i] == ps[i]);
            assert(out@.map_values(|p: (String, String)| (p.0@, p.1@))[j] == ps[j]);
            assert(self.infos()[i].0 != self.infos()[j].0);
        }
        out
    }

    /// The trigger and source of every loaded plugin, for broadcasting events.
    pub fn sources(&self) -> (r: Vec<(String, String)>)
        ensures
            r@.map_values(|p: (String, String)| (p.0@, p.1@)) == self.infos().map_values(
                |p: (Seq<char>, Seq<char>, Seq<char>)| (p.0, p.2),
            ),
    {
        let ghost ps = self.infos().map_values(|p: (Seq<char>, Seq<char>, Seq<char>)| (p.0, p.2));
        let mut out: Vec<(String, String)> = Vec::new();
        let mut i: usize = 0;
        while i < self.plugins.len()
            invariant
                i <= self.plugins.len(),
                ps == self.infos().map_values(|p: (Seq<char>, Seq<char>, Seq<char>)| (p.0, p.2)),
                out@.map_values(|p: (String, String)| (p.0@, p.1@)) == ps.take(i as int),
            decreases self.plugins.len() - i,
        {
            let ghost before = out@.map_values(|p: (String, String)| (p.0@, p.1@));
            out.push((self.plugins[i].trigger.clone(), self.plugins[i].source.clone()));
            assert(out@.map_values(|p: (String, String)| (p.0@, p.1@)) =~= before.push(ps[i as int]));
            assert(ps.take(i + 1) =~= ps.take(i as int).push(ps[i as int]));
            i = i + 1;
        }
        assert(ps.take(self.plugins.len() as int) =~= ps);
        out
    }
}

proof fn lemma_find_update_at(
    ps: Seq<(Seq<char>, Seq<char>, Seq<char>)>,
    i: int,
    p: (Seq<char>, Seq<char>, Seq<char>),
    t: Seq<char>,
)
    requires
        0 <= i < ps.len(),
        ps[i].0 == p.0,
        forall|j: int| 0 <= j < i ==> ps[j].0 != p.0,
    ensures
        find_plugin(ps.update(i, p), t) == if t == p.0 {
            Some(p)
        } else {
            find_plugin(ps, t)
        },
    decreases i,
{
    let u = ps.update(i, p);
    if i == 0 {
        assert(u[0] == p);
        assert(u.skip(1) =~= ps.skip(1));
    } else {
        assert(ps[0].0 != p.0);
        assert(u[0] == ps[0]);
        assert forall|j: int| 0 <= j < i - 1 implies ps.skip(1)[j].0 != p.0 by {
            assert(ps.skip(1)[j] == ps[j + 1]);
        }
        lemma_find_update_at(ps.skip(1), i - 1, p, t);
        assert(u.skip(1) =~= ps.skip(1).update(i - 1, p));
    }
}

proof fn lemma_find_update(
    ps: Seq<(Seq<char>, Seq<char>, Seq<char>)>,
    i: int,
    p: (Seq<char>, Seq<char>, Seq<char>),
)
    requires
        0 <= i < ps.len(),
        ps[i].0 == p.0,
        forall|j: int| 0 <= j < i ==> ps[j].0 != p.0,
    ensures
        forall|t: Seq<char>|
            #[trigger] find_plugin(ps.update(i, p), t) == if t == p.0 {
                Some(p)
            } else {
                find_plugin(ps, t)
            },
{
    assert forall|t: Seq<char>|
        #[trigger] find_plugin(ps.update(i, p), t) == if t == p.0 {
            Some(p)
        } else {
            find_plugin(ps, t)
        } by {
        lemma_find_update_at(ps, i, p, t);
    }
}

proof fn lemma_find_push_at(
    ps: Seq<(Seq<char>, Seq<char>, Seq<char>)>,
    p: (Seq<char>, Seq<char>, Seq<char>),
    t: Seq<char>,
)
    requires
        find_plugin(ps, p.0) is None,
    ensures
        find_plugin(ps.push(p), t) == if t == p.0 {
            Some(p)
        } else {
            find_plugin(ps, t)
        },
    decreases ps.len(),
{
    let q = ps.push(p);
    if ps.len() > 0 {
        assert(q[0] == ps[0]);
        assert(ps[0].0 != p.0);
        assert(q.skip(1) =~= ps.skip(1).push(p));
        if ps[0].0 != t {
            lemma_find_push_at(ps.skip(1), p, t);
            assert(find_plugin(q, t) == find_plugin(q.skip(1), t));
        }
    } else {
        assert(q[0] == p);
        assert(q.skip(1) =~= Seq::<(Seq<char>, Seq<char>, Seq<char>)>::empty());
        assert(find_plugin(q.skip(1), t) is None);
    }
}

proof fn lemma_find_push(ps: Seq<(Seq<char>, Seq<char>, Seq<char>)>, p: (Seq<char>, Seq<char>, Seq<char>))
    requires
        find_plugin(ps, p.0) is None,
    ensures
        forall|t: Seq<char>|
            #[trigger] find_plugin(ps.push(p), t) == if t == p.0 {
                Some(p)
            } else {
                find_plugin(ps, t)
            },
{
    assert forall|t: Seq<char>|
        #[trigger] find_plugin(ps.push(p), t) == if t == p.0 {
            Some(p)
        } else {
            find_plugin(ps, t)
        } by {
        lemma_find_push_at(ps, p, t);
    }
}

} // verus!
