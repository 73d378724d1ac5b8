//! The bot's configuration and how it becomes the table of text commands in
//! effect.
use vstd::prelude::*;
use vstd::string::*;
use crate::keyed::KeyedList;
use crate::data_server::MyDatabase;
use crate::runtime::{Data, Runtime};
use crate::text::{push_char, replace, replace_all};

verus! {

/// The streamer whose points the bot shows and awards.
pub const DEFAULT_STREAMER_NAME: &'static str = "iamhardliner";

/// The command prefix when the configuration sets none.
pub const DEFAULT_COMMAND_PREFIX: char = '$';

/// The shoutout shortcut when the configuration sets none.
pub const DEFAULT_SHOUTOUT_SHORT: char = '#';

/// Point settings.
pub struct Points {
    /// Ticks a viewer earns by writing a message that is not a command.
    pub ticks_per_message: i64,
    /// Points a viewer earns per tick.
    pub points_per_tick: i64,
    /// Seconds between ticks.
    pub tick_speed: u64,
    pub steal_min: u64,
    pub steal_max: u64,
}

/// A named group of users.
pub struct Group {
    pub users: Vec<String>,
}

/// General settings.
pub struct General {
    pub hype_emote: String,
    pub message_timeout: Option<u64>,
    pub ignored_users: Vec<String>,
    pub shoutout_short: Option<char>,
    pub command_prefix: Option<char>,
}

/// A text command with other names that also call it.
pub struct Command {
    pub aliases: Vec<String>,
    pub value: String,
}

/// A text command: its text alone, or its text with aliases.
pub enum StringOrCommand {
    Text(String),
    Cmd(Command),
}

/// The text that a command answers with.
pub open spec fn text_of(v: StringOrCommand) -> Seq<char> {
    match v {
        StringOrCommand::Text(t) => t@,
        StringOrCommand::Cmd(c) => c.value@,
    }
}

/// The aliases of a command (none for a bare text).
pub open spec fn aliases_of(v: StringOrCommand) -> Seq<Seq<char>> {
    match v {
        StringOrCommand::Text(_) => Seq::empty(),
        StringOrCommand::Cmd(c) => c.aliases@.map_values(|s: String| s@),
    }
}

impl StringOrCommand {
    /// The text that the command answers with.
    pub fn to_string(&self) -> (r: String)
        ensures
            r@ == text_of(*self),
    {
        match self {
            StringOrCommand::Text(txt) => txt.clone(),
            StringOrCommand::Cmd(cmd) => cmd.value.clone(),
        }
    }
}

/// The configuration of the bot. The auto-command timing and the float
/// settings of the configuration file stay with the program that reads it.
pub struct Config {
    pub general: General,
    pub points: Points,
    pub variables: KeyedList<String>,
    pub commands: KeyedList<StringOrCommand>,
    pub groups: KeyedList<Group>,
}

/// `t` with each `prefix` + variable name replaced by the variable's value,
/// one variable after another in the order given.
pub open spec fn substituted(t: Seq<char>, prefix: char, names: Seq<Seq<char>>, values: Seq<String>) -> Seq<char>
    decreases names.len(),
{
    if names.len() == 0 {
        t
    } else {
        replace_all(
            substituted(t, prefix, names.drop_last(), values.drop_last()),
            seq![prefix] + names.last(),
            values.last()@,
        )
    }
}

/// `m` with each alias that it does not hold yet mapped to `text`.
pub open spec fn with_aliases(m: Map<Seq<char>, Seq<char>>, aliases: Seq<Seq<char>>, text: Seq<char>) -> Map<Seq<char>, Seq<char>>
    decreases aliases.len(),
{
    if aliases.len() == 0 {
        m
    } else {
        let m2 = with_aliases(m, aliases.drop_last(), text);
        if m2.contains_key(aliases.last()) {
            m2
        } else {
            m2.insert(aliases.last(), text)
        }
    }
}

/// The text commands in effect: the commands taken in order, each mapping
/// its name to its text with the variables substituted, and then each of its
/// aliases that is not taken yet.
pub open spec fn command_table(
    names: Seq<Seq<char>>,
    vals: Seq<StringOrCommand>,
    prefix: char,
    var_names: Seq<Seq<char>>,
    var_vals: Seq<String>,
) -> Map<Seq<char>, Seq<char>>
    decreases names.len(),
{
    if names.len() == 0 {
        Map::empty()
    } else {
        let n = names.len() - 1;
        let text = substituted(text_of(vals[n]), prefix, var_names, var_vals);
        with_aliases(
            command_table(names.drop_last(), vals.drop_last(), prefix, var_names, var_vals).insert(names[n], text),
            aliases_of(vals[n]),
            text,
        )
    }
}

/// A map of strings as a map of character sequences.
pub open spec fn text_view(m: Map<Seq<char>, String>) -> Map<Seq<char>, Seq<char>> {
    Map::new(|k: Seq<char>| m.contains_key(k), |k: Seq<char>| m[k]@)
}

/// The command prefix that a configuration sets.
pub open spec fn prefix_of(g: General) -> char {
    match g.command_prefix {
        Some(c) => c,
        None => DEFAULT_COMMAND_PREFIX,
    }
}

/// The shoutout shortcut that a configuration sets.
pub open spec fn shoutout_of(g: General) -> char {
    match g.shoutout_short {
        Some(c) => c,
        None => DEFAULT_SHOUTOUT_SHORT,
    }
}

proof fn lemma_text_view_insert(m: Map<Seq<char>, String>, k: Seq<char>, v: String)
    ensures
        text_view(m.insert(k, v)) == text_view(m).insert(k, v@),
{
    assert(text_view(m.insert(k, v)) =~= text_view(m).insert(k, v@));
}

/// `text` with every variable substituted in turn.
fn substitute_variables(text: String, prefix: char, variables: &KeyedList<String>) -> (r: String)
    requires
        variables.wf(),
    ensures
        r@ == substituted(text@, prefix, variables.key_seq(), variables.val_seq()),
{
    proof {
        variables.lemma_shape();
    }
    let n = variables.len();
    let mut t = text;
    let mut i: usize = 0;
    assert(variables.key_seq().take(0) =~= Seq::<Seq<char>>::empty());
    while i < n
        invariant
            i <= n,
            variables.wf(),
            n == variables.key_seq().len(),
            n == variables.val_seq().len(),
            t@ == substituted(text@, prefix, variables.key_seq().take(i as int), variables.val_seq().take(i as int)),
        decreases n - i,
    {
        let mut pattern = String::new();
        push_char(&mut pattern, prefix);
        pattern.append(variables.key_at(i).as_str());
        let value = variables.value_at(i);
        let ghost prev = t@;
        t = replace(t.as_str(), pattern.as_str(), value.as_str());
        proof {
            let ks = variables.key_seq().take(i + 1);
            let vs = variables.val_seq().take(i + 1);
            assert(ks.drop_last() =~= variables.key_seq().take(i as int));
            assert(vs.drop_last() =~= variables.val_seq().take(i as int));
            assert(ks.last() == variables.key_seq()[i as int]);
            assert(vs.last() == variables.val_seq()[i as int]);
            assert(pattern@ =~= seq![prefix] + ks.last());
        }
        i += 1;
    }
    assert(variables.key_seq().take(n as int) =~= variables.key_seq());
    assert(variables.val_seq().take(n as int) =~= variables.val_seq());
    t
}

impl Config {
    /// The tables of the configuration are well formed.
    pub open spec fn wf(&self) -> bool {
        &&& self.variables.wf()
        &&& self.commands.wf()
        &&& self.groups.wf()
    }

    /// The text commands that this configuration puts in effect.
    pub open spec fn command_map(&self) -> Map<Seq<char>, Seq<char>> {
        command_table(
            self.commands.key_seq(),
            self.commands.val_seq(),
            prefix_of(self.general),
            self.variables.key_seq(),
            self.variables.val_seq(),
        )
    }

    /// The runtime that this configuration sets up: its command prefix and
    /// shoutout shortcut (the defaults where it sets none), its text commands
    /// with the variables substituted, no viewer seen yet, and the points
    /// service `data_server`.
    pub fn to_runtime(self, data_server: MyDatabase) -> (rt: Runtime)
        requires
            self.wf(),
            data_server.wf(),
        ensures
            rt.data.data_server == data_server,
            rt.wf(),
            rt.command_prefix == prefix_of(self.general),
            rt.shoutout_short == shoutout_of(self.general),
            text_view(rt.commands@) == self.command_map(),
            rt.config == self,
            rt.data.chatters@ == Map::<Seq<char>, crate::runtime::Chatter>::empty(),
    {
        let command_prefix = match self.general.command_prefix {
            Some(c) => c,
            None => DEFAULT_COMMAND_PREFIX,
        };
        let shoutout_short = match self.general.shoutout_short {
            Some(c) => c,
            None => DEFAULT_SHOUTOUT_SHORT,
        };
        let ghost names = self.commands.key_seq();
        let ghost vals = self.commands.val_seq();
        let ghost vnames = self.variables.key_seq();
        let ghost vvals = self.variables.val_seq();
        proof {
            self.commands.lemma_shape();
        }
        let mut commands: KeyedList<String> = KeyedList::new();
        let n = self.commands.len();
        let mut i: usize = 0;
        assert(names.take(0) =~= Seq::<Seq<char>>::empty());
        assert(text_view(commands@) =~= Map::<Seq<char>, Seq<char>>::empty());
        while i < n
            invariant
                i <= n,
                self.wf(),
                n == names.len(),
                n == vals.len(),
                names == self.commands.key_seq(),
                vals == self.commands.val_seq(),
                vnames == self.variables.key_seq(),
                vvals == self.variables.val_seq(),
                commands.wf(),
                text_view(commands@) == command_table(names.take(i as int), vals.take(i as int), command_prefix, vnames, vvals),
            decreases n - i,
        {
            let value = self.commands.value_at(i);
            let text = substitute_variables(value.to_string(), command_prefix, &self.variables);
            let name = self.commands.key_at(i).clone();
            let ghost base = text_view(commands@);
            proof {
                lemma_text_view_insert(commands@, name@, text);
            }
            commands.insert(name, text.clone());
            let ghost start = text_view(commands@);
            match value {
                StringOrCommand::Cmd(cmd) => {
                    let m = cmd.aliases.len();
                    let mut j: usize = 0;
                    assert(cmd.aliases@.map_values(|s: String| s@).take(0) =~= Seq::<Seq<char>>::empty());
                    while j < m
                        invariant
                            j <= m,
                            m == cmd.aliases@.len(),
                            commands.wf(),
                            text_view(commands@) == with_aliases(start, cmd.aliases@.map_values(|s: String| s@).take(j as int), text@),
                        decreases m - j,
                    {
                        let ghost al = cmd.aliases@.map_values(|s: String| s@);
                        assert(al.take(j + 1).drop_last() =~= al.take(j as int));
                        assert(al.take(j + 1).last() == cmd.aliases@[j as int]@);
                        if !commands.contains_key(cmd.aliases[j].as_str()) {
                            proof {
                                lemma_text_view_insert(commands@, cmd.aliases@[j as int]@, text);
                            }
                            commands.insert(cmd.aliases[j].clone(), text.clone());
                        }
                        j += 1;
                    }
                    assert(cmd.aliases@.map_values(|s: String| s@).take(m as int) =~= cmd.aliases@.map_values(|s: String| s@));
                },
                StringOrCommand::Text(_) => {},
            }
            proof {
                let ks = names.take(i + 1);
                let vs = vals.take(i + 1);
                assert(ks.drop_last() =~= names.take(i as int));
                assert(vs.drop_last() =~= vals.take(i as int));
                assert(ks[i as int] == names[i as int]);
                assert(vs[i as int] == vals[i as int]);
            }
            i += 1;
        }
        assert(names.take(n as int) =~= names);
        assert(vals.take(n as int) =~= vals);
        Runtime { command_prefix, shoutout_short, config: self, commands, data: Data::new(data_server) }
    }
}

/// Adding aliases keeps every key that was there, with its value, and adds
/// exactly the aliases that were missing, each with `text`.
proof fn lemma_with_aliases(m: Map<Seq<char>, Seq<char>>, aliases: Seq<Seq<char>>, text: Seq<char>)
    ensures
        forall|k: Seq<char>| m.contains_key(k) ==> #[trigger] with_aliases(m, aliases, text).contains_key(k)
            && with_aliases(m, aliases, text)[k] == m[k],
        forall|k: Seq<char>| !m.contains_key(k) ==> (#[trigger] with_aliases(m, aliases, text).contains_key(k)
            <==> aliases.contains(k)),
        forall|k: Seq<char>| !m.contains_key(k) && #[trigger] with_aliases(m, aliases, text).contains_key(k)
            ==> with_aliases(m, aliases, text)[k] == text,
    decreases aliases.len(),
{
    if aliases.len() > 0 {
        let dl = aliases.drop_last();
        let last = aliases.last();
        lemma_with_aliases(m, dl, text);
        let m2 = with_aliases(m, dl, text);
        let r = with_aliases(m, aliases, text);
        assert(r == if m2.contains_key(last) { m2 } else { m2.insert(last, text) });
        assert forall|k: Seq<char>| aliases.contains(k) <==> (dl.contains(k) || k == last) by {
            if dl.contains(k) {
                let i = choose|i: int| 0 <= i < dl.len() && dl[i] == k;
                assert(aliases[i] == k);
            }
            if k == last {
                assert(aliases[aliases.len() - 1] == k);
            }
            if aliases.contains(k) && k != last {
                let i = choose|i: int| 0 <= i < aliases.len() && aliases[i] == k;
                assert(dl[i] == k);
            }
        }
        assert forall|k: Seq<char>| m.contains_key(k) implies #[trigger] r.contains_key(k) && r[k] == m[k] by {
            assert(m2.contains_key(k));
        }
        assert forall|k: Seq<char>| !m.contains_key(k) implies (#[trigger] r.contains_key(k) <==> aliases.contains(k)) by {
            assert(m2.contains_key(k) <==> dl.contains(k));
        }
        assert forall|k: Seq<char>| !m.contains_key(k) && #[trigger] r.contains_key(k) implies r[k] == text by {
            if m2.contains_key(k) {
                assert(m2[k] == text);
            }
        }
    }
}

/// What the command table holds, by induction on the commands: every
/// command name maps to its own text; the keys are the names and the
/// aliases; an alias that is no command name maps to the text of the first
/// command that lists it.
proof fn lemma_command_table(
    names: Seq<Seq<char>>,
    vals: Seq<StringOrCommand>,
    prefix: char,
    var_names: Seq<Seq<char>>,
    var_vals: Seq<String>,
)
    requires
        names.len() == vals.len(),
        names.no_duplicates(),
    ensures
        forall|i: int| 0 <= i < names.len() ==> #[trigger] command_table(names, vals, prefix, var_names, var_vals).contains_key(names[i])
            && command_table(names, vals, prefix, var_names, var_vals)[names[i]]
                == substituted(text_of(vals[i]), prefix, var_names, var_vals),
        forall|k: Seq<char>| #[trigger] command_table(names, vals, prefix, var_names, var_vals).contains_key(k)
            <==> (names.contains(k) || exists|i: int| 0 <= i < vals.len() && #[trigger] aliases_of(vals[i]).contains(k)),
        forall|i: int, k: Seq<char>|
            0 <= i < vals.len() && !names.contains(k) && #[trigger] aliases_of(vals[i]).contains(k)
                && (forall|j: int| 0 <= j < i ==> !#[trigger] aliases_of(vals[j]).contains(k))
            ==> command_table(names, vals, prefix, var_names, var_vals)[k]
                == substituted(text_of(vals[i]), prefix, var_names, var_vals),
    decreases names.len(),
{
    let t = command_table(names, vals, prefix, var_names, var_vals);
    if names.len() > 0 {
        let n = names.len() - 1;
        let pn = names.drop_last();
        let pv = vals.drop_last();
        assert forall|a: int, b: int| 0 <= a < pn.len() && 0 <= b < pn.len() && a != b implies pn[a] != pn[b] by {
            assert(names[a] != names[b]);
        }
        lemma_command_table(pn, pv, prefix, var_names, var_vals);
        let prev = command_table(pn, pv, prefix, var_names, var_vals);
        let text = substituted(text_of(vals[n]), prefix, var_names, var_vals);
        let base = prev.insert(names[n], text);
        let al = aliases_of(vals[n]);
        lemma_with_aliases(base, al, text);
        assert(t == with_aliases(base, al, text));
        assert forall|i: int| 0 <= i < names.len() implies #[trigger] t.contains_key(names[i])
            && t[names[i]] == substituted(text_of(vals[i]), prefix, var_names, var_vals) by {
            if i < n {
                assert(pn[i] == names[i]);
                assert(pv[i] == vals[i]);
                assert(names[i] != names[n]);
                assert(prev.contains_key(pn[i]));
            }
            assert(base.contains_key(names[i]));
        }
        assert forall|k: Seq<char>| #[trigger] t.contains_key(k)
            <==> (names.contains(k) || exists|i: int| 0 <= i < vals.len() && #[trigger] aliases_of(vals[i]).contains(k)) by {
            if names.contains(k) {
                let i = choose|i: int| 0 <= i < names.len() && names[i] == k;
                assert(t.contains_key(names[i]));
            }
            if exists|i: int| 0 <= i < vals.len() && #[trigger] aliases_of(vals[i]).contains(k) {
                let i = choose|i: int| 0 <= i < vals.len() && #[trigger] aliases_of(vals[i]).contains(k);
                if i < n {
                    assert(pv[i] == vals[i]);
                    assert(prev.contains_key(k));
                }
            }
            if t.contains_key(k) {
                if !base.contains_key(k) {
                    assert(al.contains(k));
                } else if k == names[n] {
                    assert(names.contains(k));
                } else {
                    assert(prev.contains_key(k));
                    if pn.contains(k) {
                        let i = choose|i: int| 0 <= i < pn.len() && pn[i] == k;
                        assert(names[i] == k);
                    } else {
                        let i = choose|i: int| 0 <= i < pv.len() && #[trigger] aliases_of(pv[i]).contains(k);
                        assert(pv[i] == vals[i]);
                    }
                }
            }
        }
        assert forall|i: int, k: Seq<char>|
            0 <= i < vals.len() && !names.contains(k) && #[trigger] aliases_of(vals[i]).contains(k)
                && (forall|j: int| 0 <= j < i ==> !#[trigger] aliases_of(vals[j]).contains(k))
            implies t[k] == substituted(text_of(vals[i]), prefix, var_names, var_vals) by {
            assert(k != names[n]);
            if i < n {
                assert(pv[i] == vals[i]);
                assert(!pn.contains(k)) by {
                    if pn.contains(k) {
                        let j = choose|j: int| 0 <= j < pn.len() && pn[j] == k;
                        assert(names[j] == k);
                    }
                }
                assert forall|j: int| 0 <= j < i implies !#[trigger] aliases_of(pv[j]).contains(k) by {
                    assert(pv[j] == vals[j]);
                }
                assert(prev.contains_key(k));
                assert(prev[k] == substituted(text_of(vals[i]), prefix, var_names, var_vals));
                assert(base.contains_key(k));
                assert(base[k] == prev[k]);
                assert(t.contains_key(k));
            } else {
                assert(!pn.contains(k)) by {
                    if pn.contains(k) {
                        let j = choose|j: int| 0 <= j < pn.len() && pn[j] == k;
                        assert(names[j] == k);
                    }
                }
                assert(!prev.contains_key(k)) by {
                    if prev.contains_key(k) {
                        let j = choose|j: int| 0 <= j < pv.len() && #[trigger] aliases_of(pv[j]).contains(k);
                        assert(pv[j] == vals[j]);
                    }
                }
                assert(!base.contains_key(k));
                assert(al.contains(k));
                assert(t.contains_key(k));
            }
        }
    } else {
        assert(t == Map::<Seq<char>, Seq<char>>::empty());
    }
}

/// Every configured command name calls its own text, with the variables
/// substituted: neither an alias nor another command takes its name.
pub proof fn law_command_names_keep_their_text(cfg: Config, i: int)
    requires
        cfg.wf(),
        0 <= i < cfg.commands.key_seq().len(),
    ensures
        cfg.command_map().contains_key(cfg.commands.key_seq()[i]),
        cfg.command_map()[cfg.commands.key_seq()[i]] == substituted(
            text_of(cfg.commands.val_seq()[i]),
            prefix_of(cfg.general),
            cfg.variables.key_seq(),
            cfg.variables.val_seq(),
        ),
{
    cfg.commands.lemma_shape();
    lemma_command_table(cfg.commands.key_seq(), cfg.commands.val_seq(), prefix_of(cfg.general), cfg.variables.key_seq(), cfg.variables.val_seq());
}

/// The text commands in effect are exactly the configured names and their
/// aliases.
pub proof fn law_command_keys(cfg: Config, k: Seq<char>)
    requires
        cfg.wf(),
    ensures
        cfg.command_map().contains_key(k) <==> (cfg.commands.key_seq().contains(k)
            || exists|i: int| 0 <= i < cfg.commands.val_seq().len() && #[trigger] aliases_of(cfg.commands.val_seq()[i]).contains(k)),
{
    cfg.commands.lemma_shape();
    lemma_command_table(cfg.commands.key_seq(), cfg.commands.val_seq(), prefix_of(cfg.general), cfg.variables.key_seq(), cfg.variables.val_seq());
}

/// An alias that is no command name calls the text of the first command,
/// in the configuration's order, that lists it.
pub proof fn law_first_alias_wins(cfg: Config, i: int, k: Seq<char>)
    requires
        cfg.wf(),
        0 <= i < cfg.commands.val_seq().len(),
        !cfg.commands.key_seq().contains(k),
        aliases_of(cfg.commands.val_seq()[i]).contains(k),
        forall|j: int| 0 <= j < i ==> !#[trigger] aliases_of(cfg.commands.val_seq()[j]).contains(k),
    ensures
        cfg.command_map().contains_key(k),
        cfg.command_map()[k] == substituted(
            text_of(cfg.commands.val_seq()[i]),
            prefix_of(cfg.general),
            cfg.variables.key_seq(),
            cfg.variables.val_seq(),
        ),
{
    cfg.commands.lemma_shape();
    lemma_command_table(cfg.commands.key_seq(), cfg.commands.val_seq(), prefix_of(cfg.general), cfg.variables.key_seq(), cfg.variables.val_seq());
}

/// With no variables, a text stays as it is.
pub proof fn law_no_variables_no_change(t: Seq<char>, prefix: char)
    ensures
        substituted(t, prefix, Seq::empty(), Seq::empty()) == t,
{
}

/// Substituting one more variable `n` with value `v` replaces every
/// `prefix` + `n` in the text that the earlier variables left: each
/// configured variable is substituted, in the configured order, the last one
/// last.
pub proof fn law_each_variable_substituted(
    t: Seq<char>,
    prefix: char,
    names: Seq<Seq<char>>,
    values: Seq<String>,
    n: Seq<char>,
    v: String,
)
    ensures
        substituted(t, prefix, names.push(n), values.push(v))
            == replace_all(substituted(t, prefix, names, values), seq![prefix] + n, v@),
{
    assert(names.push(n).drop_last() =~= names);
    assert(values.push(v).drop_last() =~= values);
}

/// The text in effect for a configured command name, in terms of the
/// variables: with two variables `a` = `x` then `b` = `y`, every `prefix`+`a`
/// and then every `prefix`+`b` is replaced.
pub proof fn law_two_variables(t: Seq<char>, prefix: char, a: Seq<char>, x: String, b: Seq<char>, y: String)
    ensures
        substituted(t, prefix, seq![a, b], seq![x, y])
            == replace_all(replace_all(t, seq![prefix] + a, x@), seq![prefix] + b, y@),
{
    law_each_variable_substituted(t, prefix, Seq::empty(), Seq::empty(), a, x);
    assert(Seq::<Seq<char>>::empty().push(a) =~= seq![a]);
    assert(Seq::<String>::empty().push(x) =~= seq![x]);
    law_each_variable_substituted(t, prefix, seq![a], seq![x], b, y);
    assert(seq![a].push(b) =~= seq![a, b]);
    assert(seq![x].push(y) =~= seq![x, y]);
}

} // verus!
