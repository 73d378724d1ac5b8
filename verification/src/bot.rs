//! What the bot answers to a chat message.
use vstd::prelude::*;
use vstd::string::*;
use crate::config::{text_view, Config, prefix_of, shoutout_of, DEFAULT_STREAMER_NAME};
use crate::data_server::{served_get, DbView, MyDatabase};
use crate::keyed::KeyedList;
use crate::runtime::{Chatter, Data, Runtime};
use crate::text::{
    after_byte, all_ascii, begins_with, first_field, join, join_strings, lemma_ascii_head,
    lemma_first_field_prefix, lowercase, push_char, push_signed_decimal, remove_all, remove_char,
    second_field, signed_decimal, skip_leading, skip_leading_chars, split_once, starts_with_char,
    to_lowercase, trim, trimmed, white_space, ascii_lower, is_trimmed, law_trim_lowercase_twice,
    lemma_lowercase_ascii, lemma_skip_leading_repeated, lemma_trim_end_concat, lemma_trimmed,
    trim_end, trim_start, lemma_first_field_word, lemma_remove_char_concat,
};
use vstd::utf8::{encode_utf8, is_char_boundary};

verus! {

/// A per-command list of who may call it.
pub struct Handler {
    allow_list: Option<Vec<String>>,
}

/// The commands that the bot handles itself.
#[derive(Debug, Clone, Copy, PartialEq, Eq, Structural)]
pub enum Command {
    Calc,
    Points,
    Lurk,
    Unlurk,
    Hi,
    Shoutout,
    Commands,
}

/// The name by which a command is called.
pub open spec fn command_name(c: Command) -> Seq<char> {
    match c {
        Command::Calc => seq!['c', 'a', 'l', 'c'],
        Command::Points => seq!['p', 'o', 'i', 'n', 't', 's'],
        Command::Lurk => seq!['l', 'u', 'r', 'k'],
        Command::Unlurk => seq!['u', 'n', 'l', 'u', 'r', 'k'],
        Command::Hi => seq!['h', 'i'],
        Command::Shoutout => seq!['s', 'h', 'o', 'u', 't', 'o', 'u', 't'],
        Command::Commands => seq!['c', 'o', 'm', 'm', 'a', 'n', 'd', 's'],
    }
}

/// All commands, in the order in which they are listed.
pub open spec fn all_commands() -> Seq<Command> {
    seq![
        Command::Calc,
        Command::Points,
        Command::Lurk,
        Command::Unlurk,
        Command::Hi,
        Command::Shoutout,
        Command::Commands,
    ]
}

/// The command called `s`, if there is one.
pub open spec fn command_named(s: Seq<char>) -> Option<Command> {
    if s == command_name(Command::Calc) {
        Some(Command::Calc)
    } else if s == command_name(Command::Points) {
        Some(Command::Points)
    } else if s == command_name(Command::Lurk) {
        Some(Command::Lurk)
    } else if s == command_name(Command::Unlurk) {
        Some(Command::Unlurk)
    } else if s == command_name(Command::Hi) {
        Some(Command::Hi)
    } else if s == command_name(Command::Shoutout) {
        Some(Command::Shoutout)
    } else if s == command_name(Command::Commands) {
        Some(Command::Commands)
    } else {
        None
    }
}

/// What the bot does about a message.
pub enum Reply {
    /// Nothing to say.
    Silent,
    /// Say this text in chat.
    Say(String),
    /// Evaluate this arithmetic expression and say the number, or the error.
    Calculate(String),
}

/// The content of a `Reply`.
pub enum ReplyView {
    Silent,
    Say(Seq<char>),
    Calculate(Seq<char>),
}

impl View for Reply {
    type V = ReplyView;

    open spec fn view(&self) -> ReplyView {
        match self {
            Reply::Silent => ReplyView::Silent,
            Reply::Say(s) => ReplyView::Say(s@),
            Reply::Calculate(s) => ReplyView::Calculate(s@),
        }
    }
}

/// A name as the bot reads it out of a message: trimmed, without `@`.
pub open spec fn name_in(s: Seq<char>) -> Seq<char> {
    remove_char(trimmed(s), '@')
}

/// Whose points a `points` message asks for, given the text after the
/// command name: the name written there, or the sender when there is none.
pub open spec fn points_target(sender: Seq<char>, rest: Seq<char>) -> Seq<char> {
    let named = name_in(rest);
    if named.len() == 0 {
        sender
    } else {
        named
    }
}

/// A points request for `target` in the channel of `DEFAULT_STREAMER_NAME`:
/// the tables afterwards and the points it answers with.
pub open spec fn points_lookup(d: DbView, target: Seq<char>) -> (DbView, Option<int>) {
    served_get(d, lowercase(DEFAULT_STREAMER_NAME@), lowercase(target))
}

/// The answer to `lurk`.
pub open spec fn lurk_text(name: Seq<char>) -> Seq<char> {
    "Have fun lurking @"@ + name + "! iamhar2Bob"@
}

/// The answer to `unlurk`.
pub open spec fn unlurk_text(name: Seq<char>) -> Seq<char> {
    "Welcome back from lurking @"@ + name + "! iamhar2Bob"@
}

/// The answer to `hi`.
pub open spec fn hi_text(name: Seq<char>) -> Seq<char> {
    "Hello, "@ + name + "!"@
}

/// The answer to a shoutout for `name`.
pub open spec fn shoutout_text(name: Seq<char>) -> Seq<char> {
    "Shoutout to @"@ + name + ". You can check out their stream at https://www.twitch.tv/"@ + name
}

/// The answer to a shoutout message: the second word names the streamer.
pub open spec fn shoutout_reply(msg: Seq<char>) -> ReplyView {
    match second_field(msg, ' ') {
        Some(part) => ReplyView::Say(shoutout_text(name_in(part))),
        None => ReplyView::Silent,
    }
}

/// What `commands` lists: the text commands, then the built-in ones, each
/// with the prefix in front.
pub open spec fn listing(prefix: char, keys: Seq<Seq<char>>) -> Seq<Seq<char>> {
    (keys + all_commands().map_values(|c: Command| command_name(c))).map_values(
        |k: Seq<char>| seq![prefix] + k,
    )
}

/// The separator of the `commands` list.
pub open spec fn list_separator() -> Seq<char> {
    seq![' ', '|', ' ']
}

/// The text that says how many points a viewer has.
pub open spec fn points_text(name: Seq<char>, points: int) -> Seq<char> {
    "@"@ + name + " currently has "@ + signed_decimal(points) + " points!"@
}

/// Whether the points service can answer what a built-in command asks of
/// it (only `points` asks anything).
pub open spec fn lookup_ok(c: Command, rt: Runtime, name: Seq<char>, msg: Seq<char>) -> bool {
    c == Command::Points ==> points_lookup(rt.data.data_server@, points_target(name, after_byte(msg, 6))).1 is Some
}

/// Whether a built-in command can answer `msg`: the text after the command
/// name starts at a character boundary, and the points service can answer.
pub open spec fn command_allowed(c: Command, rt: Runtime, name: Seq<char>, msg: Seq<char>) -> bool {
    &&& c == Command::Calc ==> is_char_boundary(encode_utf8(msg), 4)
    &&& c == Command::Points ==> is_char_boundary(encode_utf8(msg), 6)
    &&& lookup_ok(c, rt, name, msg)
}

/// What a built-in command answers to `msg`, sent by `name`.
pub open spec fn command_reply(c: Command, rt: Runtime, name: Seq<char>, msg: Seq<char>) -> ReplyView {
    match c {
        Command::Calc => ReplyView::Calculate(after_byte(msg, 4)),
        Command::Points => {
            let t = points_target(name, after_byte(msg, 6));
            ReplyView::Say(points_text(t, points_lookup(rt.data.data_server@, t).1->0))
        },
        Command::Lurk => ReplyView::Say(lurk_text(name)),
        Command::Unlurk => ReplyView::Say(unlurk_text(name)),
        Command::Hi => ReplyView::Say(hi_text(name)),
        Command::Shoutout => shoutout_reply(msg),
        Command::Commands => ReplyView::Say(
            join(listing(rt.command_prefix, rt.commands.key_seq()), list_separator()),
        ),
    }
}

/// The points service after a built-in command has answered: only `points`
/// asks it for something.
pub open spec fn command_service(c: Command, rt: Runtime, name: Seq<char>, msg: Seq<char>) -> DbView {
    if c == Command::Points {
        points_lookup(rt.data.data_server@, points_target(name, after_byte(msg, 6))).0
    } else {
        rt.data.data_server@
    }
}

/// A name or message as the bot reads it: trimmed and lowercased.
pub open spec fn normalized(s: Seq<char>) -> Seq<char> {
    lowercase(trimmed(s))
}

/// A message that starts with the shoutout shortcut, written as the
/// shoutout command.
pub open spec fn with_shoutout(msg: Seq<char>, prefix: char, short: char) -> Seq<char> {
    if begins_with(msg, short) {
        seq![prefix, 's', 'o', ' '] + msg.drop_first()
    } else {
        msg
    }
}

/// The built-in command that answers a command message whose text after the
/// prefix is `body`: none when a text command has that exact text.
pub open spec fn called_command(rt: Runtime, body: Seq<char>) -> Option<Command> {
    if text_view(rt.commands@).contains_key(body) {
        None
    } else {
        command_named(first_field(body, ' '))
    }
}

/// The message as the bot reads it: trimmed, lowercased, and with the
/// shoutout shortcut written as the shoutout command.
pub open spec fn incoming(rt: Runtime, message: Seq<char>) -> Seq<char> {
    with_shoutout(normalized(message), rt.command_prefix, rt.shoutout_short)
}

/// Whether the bot reads `message` as a command.
pub open spec fn is_command(rt: Runtime, message: Seq<char>) -> bool {
    begins_with(incoming(rt, message), rt.command_prefix)
}

/// The text of a command message after its leading prefix characters.
pub open spec fn command_body(rt: Runtime, message: Seq<char>) -> Seq<char> {
    skip_leading(incoming(rt, message), rt.command_prefix)
}

/// What the points service holds after the command message whose text after
/// the prefix is `body` has been answered.
pub open spec fn dispatch_service(rt: Runtime, name: Seq<char>, body: Seq<char>) -> DbView {
    match called_command(rt, body) {
        Some(c) => command_service(c, rt, name, body),
        None => rt.data.data_server@,
    }
}

/// Whether the points service can answer what the command message whose text
/// after the prefix is `body` asks of it.
pub open spec fn dispatch_ok(rt: Runtime, name: Seq<char>, body: Seq<char>) -> bool {
    match called_command(rt, body) {
        Some(c) => lookup_ok(c, rt, name, body),
        None => true,
    }
}

/// The messages that the bot cannot answer: a non-ASCII shoutout shortcut
/// that would be cut inside the character, or a points request that the
/// points service fails.
pub open spec fn would_panic(rt: Runtime, name: Seq<char>, message: Seq<char>) -> bool {
    ||| cuts_shortcut(rt, message)
    ||| is_command(rt, message) && !dispatch_ok(rt, normalized(name), command_body(rt, message))
}

/// How the bot handles `message` from `name`: `after` is the runtime
/// afterwards and `r` the answer. A message that is not a command gives its
/// sender `ticks_per_message` ticks and no answer; a command changes no
/// viewer, and only `points` asks the points service for something.
pub open spec fn handled(rt: Runtime, after: Runtime, name: Seq<char>, message: Seq<char>, r: ReplyView) -> bool {
    &&& after.command_prefix == rt.command_prefix
    &&& after.shoutout_short == rt.shoutout_short
    &&& after.config == rt.config
    &&& after.commands == rt.commands
    &&& if is_command(rt, message) {
        &&& r == dispatch(rt, normalized(name), command_body(rt, message))
        &&& after.data.chatters == rt.data.chatters
        &&& after.data.data_server@ == dispatch_service(rt, normalized(name), command_body(rt, message))
    } else {
        &&& r == ReplyView::Silent
        &&& after.data.chatters@ == rt.data.chatters@.insert(
            normalized(name),
            Chatter { remaining_ticks: rt.config.points.ticks_per_message },
        )
        &&& after.data.data_server == rt.data.data_server
    }
}

/// What the bot answers to a command message whose text after the prefix is
/// `body`: a text command of that exact text, or else the built-in command
/// named by the first word, or else nothing.
pub open spec fn dispatch(rt: Runtime, name: Seq<char>, body: Seq<char>) -> ReplyView {
    if text_view(rt.commands@).contains_key(body) {
        ReplyView::Say(text_view(rt.commands@)[body])
    } else {
        match command_named(first_field(body, ' ')) {
            Some(c) => command_reply(c, rt, name, body),
            None => ReplyView::Silent,
        }
    }
}

/// Whether handling `message` would cut the shortcut character out of it at a
/// byte offset that is not a character boundary.
pub open spec fn cuts_shortcut(rt: Runtime, message: Seq<char>) -> bool {
    begins_with(normalized(message), rt.shoutout_short) && (rt.shoutout_short as u32) >= 128
}

impl Command {
    /// All commands, in the order in which they are listed.
    pub fn all() -> (r: Vec<Command>)
        ensures
            r@ == all_commands(),
    {
        let r = vec![
            Command::Calc,
            Command::Points,
            Command::Lurk,
            Command::Unlurk,
            Command::Hi,
            Command::Shoutout,
            Command::Commands,
        ];
        assert(r@ =~= all_commands());
        r
    }

    /// The name by which the command is called.
    pub fn to_string(&self) -> (r: String)
        ensures
            r@ == command_name(*self),
    {
        proof {
            reveal_strlit("calc");
            reveal_strlit("points");
            reveal_strlit("lurk");
            reveal_strlit("unlurk");
            reveal_strlit("hi");
            reveal_strlit("shoutout");
            reveal_strlit("commands");
        }
        let r = match self {
            Command::Calc => String::from_str("calc"),
            Command::Points => String::from_str("points"),
            Command::Lurk => String::from_str("lurk"),
            Command::Unlurk => String::from_str("unlurk"),
            Command::Hi => String::from_str("hi"),
            Command::Shoutout => String::from_str("shoutout"),
            Command::Commands => String::from_str("commands"),
        };
        assert(r@ =~= command_name(*self));
        r
    }

    /// The command called `s`, if there is one.
    pub fn from_name(s: &str) -> (r: Option<Command>)
        ensures
            r == command_named(s@),
    {
        let t = String::from_str(s);
        if t == Command::Calc.to_string() {
            Some(Command::Calc)
        } else if t == Command::Points.to_string() {
            Some(Command::Points)
        } else if t == Command::Lurk.to_string() {
            Some(Command::Lurk)
        } else if t == Command::Unlurk.to_string() {
            Some(Command::Unlurk)
        } else if t == Command::Hi.to_string() {
            Some(Command::Hi)
        } else if t == Command::Shoutout.to_string() {
            Some(Command::Shoutout)
        } else if t == Command::Commands.to_string() {
            Some(Command::Commands)
        } else {
            None
        }
    }

    /// Hands on the expression after the command name (`&msg[4..]`) to be
    /// evaluated.
    pub fn calc(&self, msg: &str) -> (r: Reply)
        requires
            is_char_boundary(encode_utf8(msg@), 4),
        ensures
            r@ == ReplyView::Calculate(after_byte(msg@, 4)),
    {
        proof {
            broadcast use vstd::utf8::encode_utf8_decode_utf8;
        }
        let (_, expr) = msg.split_at(4);
        assert(expr@ == after_byte(msg@, 4));
        Reply::Calculate(String::from_str(expr))
    }

    /// Asks the points service for the points of the viewer named after the
    /// command name, or of the sender when no one is named, in the channel of
    /// `DEFAULT_STREAMER_NAME`, and says them.
    pub fn points(&self, data: &mut Data, name: &str, msg: &str) -> (r: Reply)
        requires
            old(data).wf(),
            is_char_boundary(encode_utf8(msg@), 6),
            points_lookup(old(data).data_server@, points_target(name@, after_byte(msg@, 6))).1 is Some,
        ensures
            final(data).wf(),
            final(data).chatters == old(data).chatters,
            final(data).data_server@ == points_lookup(old(data).data_server@, points_target(name@, after_byte(msg@, 6))).0,
            r@ == ReplyView::Say(points_text(
                points_target(name@, after_byte(msg@, 6)),
                points_lookup(old(data).data_server@, points_target(name@, after_byte(msg@, 6))).1->0,
            )),
    {
        let target = points_target_of(name, msg);
        match data.data_server.get_points(DEFAULT_STREAMER_NAME, target.as_str()) {
            Ok(p) => Reply::Say(points_message(target.as_str(), p as i64)),
            Err(_) => {
                proof {
                    assert(false);
                }
                Reply::Silent
            },
        }
    }

    /// Wishes `name` a good time lurking.
    pub fn lurk(&self, name: &str) -> (r: Reply)
        ensures
            r@ == ReplyView::Say(lurk_text(name@)),
    {
        let mut s = String::from_str("Have fun lurking @");
        s.append(name);
        s.append("! iamhar2Bob");
        Reply::Say(s)
    }

    /// Welcomes `name` back from lurking.
    pub fn unlurk(&self, name: &str) -> (r: Reply)
        ensures
            r@ == ReplyView::Say(unlurk_text(name@)),
    {
        let mut s = String::from_str("Welcome back from lurking @");
        s.append(name);
        s.append("! iamhar2Bob");
        Reply::Say(s)
    }

    /// Greets `name`.
    pub fn hi(&self, name: &str) -> (r: Reply)
        ensures
            r@ == ReplyView::Say(hi_text(name@)),
    {
        let mut s = String::from_str("Hello, ");
        s.append(name);
        s.append("!");
        Reply::Say(s)
    }

    /// Gives a shoutout to the streamer named by the second word of `msg`;
    /// nothing when there is no second word.
    pub fn shoutout(&self, msg: &str) -> (r: Reply)
        ensures
            r@ == shoutout_reply(msg@),
    {
        let (_, rest) = split_once(msg, ' ');
        match rest {
            Some(rest) => {
                let (part, _) = split_once(rest.as_str(), ' ');
                let name = get_name_from_string(part.as_str());
                let mut s = String::from_str("Shoutout to @");
                s.append(name.as_str());
                s.append(". You can check out their stream at https://www.twitch.tv/");
                s.append(name.as_str());
                Reply::Say(s)
            },
            None => Reply::Silent,
        }
    }

    /// Lists the text commands, then the built-in ones, each with the prefix
    /// in front, separated by ` | `.
    pub fn commands(&self, command_prefix: char, string_commands: &KeyedList<String>) -> (r: Reply)
        requires
            string_commands.wf(),
        ensures
            r@ == ReplyView::Say(join(listing(command_prefix, string_commands.key_seq()), list_separator())),
    {
        let keys = string_commands.keys();
        let handlers = Command::all();
        let ghost all = string_commands.key_seq() + all_commands().map_values(|c: Command| command_name(c));
        let ghost target = listing(command_prefix, string_commands.key_seq());
        let mut list: Vec<String> = Vec::new();
        let mut i: usize = 0;
        let nk = keys.len();
        while i < nk
            invariant
                i <= nk,
                nk == keys@.len(),
                keys@.map_values(|s: String| s@) == string_commands.key_seq(),
                all == string_commands.key_seq() + all_commands().map_values(|c: Command| command_name(c)),
                target == listing(command_prefix, string_commands.key_seq()),
                list@.len() == i,
                forall|t: int| 0 <= t < i ==> #[trigger] list@[t]@ == target[t],
            decreases nk - i,
        {
            let mut item = String::new();
            push_char(&mut item, command_prefix);
            item.append(keys[i].as_str());
            assert(all[i as int] == keys@[i as int]@);
            list.push(item);
            i += 1;
        }
        let mut h: usize = 0;
        while h < handlers.len()
            invariant
                h <= handlers@.len(),
                handlers@ == all_commands(),
                nk == string_commands.key_seq().len(),
                all == string_commands.key_seq() + all_commands().map_values(|c: Command| command_name(c)),
                target == listing(command_prefix, string_commands.key_seq()),
                list@.len() == nk + h,
                forall|t: int| 0 <= t < nk + h ==> #[trigger] list@[t]@ == target[t],
            decreases handlers@.len() - h,
        {
            let mut item = String::new();
            push_char(&mut item, command_prefix);
            let hn = handlers[h].to_string();
            item.append(hn.as_str());
            assert(all[nk + h] == command_name(handlers@[h as int]));
            list.push(item);
            h += 1;
        }
        assert(list@.map_values(|s: String| s@) =~= target);
        let sep = String::from_str(" | ");
        proof {
            reveal_strlit(" | ");
        }
        assert(sep@ =~= list_separator());
        Reply::Say(join_strings(&list, sep.as_str()))
    }

    /// What the command answers to `msg`, sent by `name`.
    pub fn execute(&self, runtime: &mut Runtime, name: &str, msg: &str) -> (r: Reply)
        requires
            old(runtime).wf(),
            command_allowed(*self, *old(runtime), name@, msg@),
        ensures
            final(runtime).wf(),
            r@ == command_reply(*self, *old(runtime), name@, msg@),
            final(runtime).data.data_server@ == command_service(*self, *old(runtime), name@, msg@),
            final(runtime).data.chatters == old(runtime).data.chatters,
            final(runtime).commands == old(runtime).commands,
            final(runtime).config == old(runtime).config,
            final(runtime).command_prefix == old(runtime).command_prefix,
            final(runtime).shoutout_short == old(runtime).shoutout_short,
    {
        match self {
            Command::Calc => self.calc(msg),
            Command::Points => self.points(&mut runtime.data, name, msg),
            Command::Lurk => self.lurk(name),
            Command::Unlurk => self.unlurk(name),
            Command::Hi => self.hi(name),
            Command::Shoutout => self.shoutout(msg),
            Command::Commands => self.commands(runtime.command_prefix, &runtime.commands),
        }
    }
}

/// Whose points a `points` message asks for: the name after the command
/// name (`&msg[6..]`), or the sender when there is none.
pub fn points_target_of(name: &str, msg: &str) -> (r: String)
    requires
        is_char_boundary(encode_utf8(msg@), 6),
    ensures
        r@ == points_target(name@, after_byte(msg@, 6)),
{
    proof {
        broadcast use vstd::utf8::encode_utf8_decode_utf8;
    }
    let (_, rest) = msg.split_at(6);
    assert(rest@ == after_byte(msg@, 6));
    let named = get_name_from_string(rest);
    if named.as_str().unicode_len() == 0 {
        String::from_str(name)
    } else {
        named
    }
}

/// A name as written in a message: trimmed, without `@`.
pub fn get_name_from_string(s: &str) -> (r: String)
    ensures
        r@ == name_in(s@),
{
    let t = trim(s);
    remove_all(t.as_str(), '@')
}

/// The text that says that `name` has `points` points.
pub fn points_message(name: &str, points: i64) -> (r: String)
    ensures
        r@ == points_text(name@, points as int),
{
    let mut s = String::from_str("@");
    s.append(name);
    s.append(" currently has ");
    push_signed_decimal(&mut s, points);
    s.append(" points!");
    s
}

/// The bot: its runtime state and how it answers chat messages.
pub struct Bot {
    pub runtime: Runtime,
}

impl Bot {
    /// A bot set up by the configuration, asking and awarding points through
    /// `data_server`.
    pub fn new(config: Config, data_server: MyDatabase) -> (r: Bot)
        requires
            config.wf(),
            data_server.wf(),
        ensures
            r.runtime.data.data_server == data_server,
            r.runtime.wf(),
            r.runtime.command_prefix == prefix_of(config.general),
            r.runtime.shoutout_short == shoutout_of(config.general),
            text_view(r.runtime.commands@) == config.command_map(),
            r.runtime.config == config,
            r.runtime.data.chatters@ == Map::<Seq<char>, Chatter>::empty(),
    {
        Bot { runtime: config.to_runtime(data_server) }
    }

    /// Answers a chat message from `name`. Name and message are trimmed and
    /// lowercased; a message that starts with the shoutout shortcut is read as
    /// the shoutout command. A message without the command prefix gives its
    /// sender `ticks_per_message` point ticks and no answer. A command message
    /// is answered by the text command of its exact text after the prefix, or
    /// by the built-in command its first word names, or not at all.
    pub fn handle_message(&mut self, name: &str, message: &str) -> (r: Reply)
        requires
            old(self).runtime.wf(),
            !would_panic(old(self).runtime, name@, message@),
        ensures
            final(self).runtime.wf(),
            handled(old(self).runtime, final(self).runtime, name@, message@, r@),
    {
        match self.try_handle_message(name, message) {
            Some(r) => r,
            None => {
                proof {
                    assert(false);
                }
                Reply::Silent
            },
        }
    }

    /// Answers a chat message as `handle_message` does, or gives `None`,
    /// before changing anything, for a message that cannot be answered: one
    /// that would cut a non-ASCII shoutout shortcut inside the character, or a
    /// points request that the points service fails.
    pub fn try_handle_message(&mut self, name: &str, message: &str) -> (r: Option<Reply>)
        requires
            old(self).runtime.wf(),
        ensures
            final(self).runtime.wf(),
            r is None <==> would_panic(old(self).runtime, name@, message@),
            r is None ==> final(self).runtime == old(self).runtime,
            r is Some ==> handled(old(self).runtime, final(self).runtime, name@, message@, r->0@),
    {
        let ghost rt = self.runtime;
        let ghost original = message@;
        let prefix = self.runtime.command_prefix;
        let short = self.runtime.shoutout_short;
        let name_t = trim(name);
        let name = to_lowercase(name_t.as_str());
        let message_t = trim(message);
        let mut message = to_lowercase(message_t.as_str());
        let ghost norm = message@;
        if starts_with_char(message.as_str(), short) {
            if (short as u32) >= 128 {
                return None;
            }
            let n = message.as_str().unicode_len();
            let mut m2 = String::new();
            push_char(&mut m2, prefix);
            push_char(&mut m2, 's');
            push_char(&mut m2, 'o');
            push_char(&mut m2, ' ');
            m2.append(message.as_str().substring_char(1, n));
            assert(m2@ =~= seq![prefix, 's', 'o', ' '] + norm.drop_first());
            message = m2;
        }
        assert(message@ == incoming(rt, original));
        if !starts_with_char(message.as_str(), prefix) {
            let ticks = self.runtime.config.points.ticks_per_message;
            self.runtime.data.set_ticks(name, ticks);
            return Some(Reply::Silent);
        }
        let body = skip_leading_chars(message.as_str(), prefix);
        match self.runtime.commands.get(body.as_str()) {
            Some(response) => {
                let r = response.clone();
                Some(Reply::Say(r))
            },
            None => {
                let (word, _) = split_once(body.as_str(), ' ');
                match Command::from_name(word.as_str()) {
                    Some(command) => {
                        proof {
                            lemma_first_field_prefix(body@, ' ');
                            lemma_command_head(body@, word@, command);
                        }
                        if command == Command::Points {
                            let target = points_target_of(name.as_str(), body.as_str());
                            if !self.runtime.data.data_server.can_serve(DEFAULT_STREAMER_NAME, target.as_str()) {
                                return None;
                            }
                        }
                        Some(command.execute(&mut self.runtime, name.as_str(), body.as_str()))
                    },
                    None => Some(Reply::Silent),
                }
            },
        }
    }
}

/// When the first word of `body` names a command, `body` begins with that
/// name, in ASCII, so the text after the name starts at the byte offset of
/// its length.
proof fn lemma_command_head(body: Seq<char>, word: Seq<char>, c: Command)
    requires
        word == first_field(body, ' '),
        command_named(word) == Some(c),
        body.take(word.len() as int) == word,
        word.len() <= body.len(),
    ensures
        word == command_name(c),
        is_char_boundary(encode_utf8(body), command_name(c).len() as int),
        after_byte(body, command_name(c).len() as int) == body.skip(command_name(c).len() as int),
{
    let n = command_name(c).len() as int;
    assert(word == command_name(c));
    assert(all_ascii(word));
    lemma_ascii_head(body, n);
}

/// `n` copies of the prefix followed by `rest`, trimmed and lowercased.
proof fn lemma_prefixed_normalized(p: char, n: nat, rest: Seq<char>)
    requires
        n >= 1,
        '\0' <= p <= '\u{7f}',
        !white_space(p),
        ascii_lower(p) == p,
        all_ascii(rest),
    ensures
        normalized(Seq::new(n, |i: int| p) + rest) == Seq::new(n, |i: int| p) + lowercase(trim_end(rest)),
        all_ascii(lowercase(trim_end(rest))),
{
    let pn = Seq::new(n, |i: int| p);
    let m = pn + rest;
    assert(all_ascii(m));
    assert(m[0] == p);
    assert(trim_start(m) == m);
    assert(pn.last() == p);
    lemma_trim_end_concat(pn, rest);
    let t = pn + trim_end(rest);
    lemma_trimmed(m);
    assert(trimmed(m) == t);
    assert(all_ascii(trim_end(rest))) by {
        assert forall|i: int| 0 <= i < trim_end(rest).len() implies '\0' <= #[trigger] trim_end(rest)[i] <= '\u{7f}' by {
            assert(t[n + i] == trim_end(rest)[i]);
        }
    }
    lemma_lowercase_ascii(trim_end(rest));
    assert(lowercase(t) =~= pn + lowercase(trim_end(rest)));
}

/// For an ASCII message, any number of command prefixes in front read as
/// one: the message is a command either way, with the same text after the
/// prefixes, the same answer and the same state afterwards (the prefix being
/// an ASCII character that is not whitespace, lowercase already, and not the
/// shoutout shortcut).
pub proof fn law_repeated_prefix(rt: Runtime, after: Runtime, name: Seq<char>, rest: Seq<char>, n: nat, r: ReplyView)
    requires
        n >= 1,
        '\0' <= rt.command_prefix <= '\u{7f}',
        !white_space(rt.command_prefix),
        ascii_lower(rt.command_prefix) == rt.command_prefix,
        rt.command_prefix != rt.shoutout_short,
        all_ascii(rest),
    ensures
        is_command(rt, Seq::new(n, |i: int| rt.command_prefix) + rest),
        is_command(rt, seq![rt.command_prefix] + rest),
        command_body(rt, Seq::new(n, |i: int| rt.command_prefix) + rest) == command_body(rt, seq![rt.command_prefix] + rest),
        would_panic(rt, name, Seq::new(n, |i: int| rt.command_prefix) + rest)
            == would_panic(rt, name, seq![rt.command_prefix] + rest),
        handled(rt, after, name, Seq::new(n, |i: int| rt.command_prefix) + rest, r)
            == handled(rt, after, name, seq![rt.command_prefix] + rest, r),
{
    let p = rt.command_prefix;
    let pn = Seq::new(n, |i: int| p);
    let p1 = Seq::new(1, |i: int| p);
    assert(p1 =~= seq![p]);
    lemma_prefixed_normalized(p, n, rest);
    lemma_prefixed_normalized(p, 1, rest);
    let l = lowercase(trim_end(rest));
    assert((pn + l)[0] == p);
    assert((p1 + l)[0] == p);
    assert(incoming(rt, pn + rest) == pn + l);
    assert(incoming(rt, p1 + rest) == p1 + l);
    lemma_skip_leading_repeated(p, n, l);
    lemma_skip_leading_repeated(p, 1, l);
}

/// For an ASCII message that starts, trimmed and lowercased, with the
/// shoutout shortcut and has more after it, the bot answers as it would to
/// the prefix, `so `, and the rest, and ends in the same state (the shortcut
/// and the prefix being distinct ASCII characters, the prefix not whitespace
/// and lowercase already).
pub proof fn law_shortcut(rt: Runtime, after: Runtime, name: Seq<char>, message: Seq<char>, r: ReplyView)
    requires
        all_ascii(message),
        '\0' <= rt.shoutout_short <= '\u{7f}',
        '\0' <= rt.command_prefix <= '\u{7f}',
        !white_space(rt.command_prefix),
        ascii_lower(rt.command_prefix) == rt.command_prefix,
        rt.shoutout_short != rt.command_prefix,
        begins_with(normalized(message), rt.shoutout_short),
        normalized(message).len() > 1,
    ensures
        incoming(rt, message)
            == incoming(rt, seq![rt.command_prefix, 's', 'o', ' '] + normalized(message).drop_first()),
        would_panic(rt, name, message)
            == would_panic(rt, name, seq![rt.command_prefix, 's', 'o', ' '] + normalized(message).drop_first()),
        handled(rt, after, name, message, r)
            == handled(rt, after, name, seq![rt.command_prefix, 's', 'o', ' '] + normalized(message).drop_first(), r),
{
    let p = rt.command_prefix;
    let t = trimmed(message);
    lemma_trimmed(message);
    lemma_lowercase_ascii(t);
    let m = lowercase(t);
    let m2 = seq![p, 's', 'o', ' '] + m.drop_first();
    assert(is_trimmed(m));
    assert(all_ascii(m2));
    assert(m2.last() == m.last());
    assert(is_trimmed(m2));
    lemma_trimmed(m2);
    assert forall|i: int| 0 <= i < m.len() implies ascii_lower(#[trigger] m[i]) == m[i] by {
        assert(lowercase(m)[i] == ascii_lower(m[i]));
    }
    assert(lowercase(m2) =~= m2) by {
        assert forall|i: int| 0 <= i < m2.len() implies lowercase(m2)[i] == m2[i] by {
            if i >= 4 {
                assert(m2[i] == m[i - 3]);
            }
        }
    }
    assert(normalized(m2) == m2);
    assert(m2[0] == p);
}

/// Whatever a message, the prefix, the shortcut, the configuration and the
/// text commands stay, and no viewer once seen is forgotten.
pub proof fn law_handling_keeps_setup(rt: Runtime, after: Runtime, name: Seq<char>, message: Seq<char>, r: ReplyView)
    requires
        handled(rt, after, name, message, r),
    ensures
        after.command_prefix == rt.command_prefix,
        after.shoutout_short == rt.shoutout_short,
        after.config == rt.config,
        after.commands == rt.commands,
        rt.data.chatters@.dom().subset_of(after.data.chatters@.dom()),
{
}

/// For ASCII name and message, the bot answers and ends alike whether they
/// come as written or already trimmed and lowercased.
pub proof fn law_normalized_input(rt: Runtime, after: Runtime, name: Seq<char>, message: Seq<char>, r: ReplyView)
    requires
        all_ascii(name),
        all_ascii(message),
    ensures
        normalized(normalized(name)) == normalized(name),
        incoming(rt, normalized(message)) == incoming(rt, message),
        would_panic(rt, normalized(name), normalized(message)) == would_panic(rt, name, message),
        handled(rt, after, normalized(name), normalized(message), r) == handled(rt, after, name, message, r),
{
    law_trim_lowercase_twice(name);
    law_trim_lowercase_twice(message);
}

/// The `commands` listing holds each text command and then each built-in
/// command, every one with the runtime's command prefix in front, and each
/// listed built-in name, without its prefix, calls that command again.
pub proof fn law_listing_uses_the_prefix(prefix: char, keys: Seq<Seq<char>>)
    ensures
        listing(prefix, keys).len() == keys.len() + 7,
        forall|i: int| 0 <= i < keys.len() ==> #[trigger] listing(prefix, keys)[i] == seq![prefix] + keys[i],
        forall|j: int| 0 <= j < 7 ==> #[trigger] listing(prefix, keys)[keys.len() + j]
            == seq![prefix] + command_name(all_commands()[j]),
        forall|j: int| 0 <= j < 7 ==> command_named(#[trigger] listing(prefix, keys)[keys.len() + j].drop_first())
            == Some(all_commands()[j]),
        forall|i: int| 0 <= i < listing(prefix, keys).len() ==> #[trigger] listing(prefix, keys)[i][0] == prefix,
{
    let l = listing(prefix, keys);
    let all = keys + all_commands().map_values(|c: Command| command_name(c));
    assert forall|j: int| 0 <= j < 7 implies command_named(#[trigger] l[keys.len() + j].drop_first())
        == Some(all_commands()[j]) by {
        assert(all[keys.len() + j] == command_name(all_commands()[j]));
        assert(l[keys.len() + j].drop_first() =~= command_name(all_commands()[j]));
        law_command_names_round_trip(all_commands()[j]);
    }
    assert forall|j: int| 0 <= j < 7 implies #[trigger] l[keys.len() + j]
        == seq![prefix] + command_name(all_commands()[j]) by {
        assert(all[keys.len() + j] == command_name(all_commands()[j]));
    }
    assert forall|i: int| 0 <= i < keys.len() implies #[trigger] l[i] == seq![prefix] + keys[i] by {
        assert(all[i] == keys[i]);
    }
}

/// The built-in command that answers a command message is chosen by its
/// first word alone, whatever follows it, ASCII or not (when no text command
/// has the exact text): `hi`, `lurk` and `unlurk` answer with the sender's
/// name, `commands` lists the commands with the runtime's prefix, and
/// `points` names the viewer written after it.
pub proof fn law_greetings_name_the_sender(
    rt: Runtime,
    after: Runtime,
    name: Seq<char>,
    message: Seq<char>,
    r: ReplyView,
    word: Seq<char>,
    rest: Seq<char>,
)
    requires
        handled(rt, after, name, message, r),
        is_command(rt, message),
        command_body(rt, message) == word || command_body(rt, message) == word + seq![' '] + rest,
        !text_view(rt.commands@).contains_key(command_body(rt, message)),
    ensures
        word == "hi"@ ==> r == ReplyView::Say("Hello, "@ + normalized(name) + "!"@),
        word == "lurk"@ ==> r == ReplyView::Say("Have fun lurking @"@ + normalized(name) + "! iamhar2Bob"@),
        word == "unlurk"@ ==> r == ReplyView::Say(
            "Welcome back from lurking @"@ + normalized(name) + "! iamhar2Bob"@,
        ),
        word == "commands"@ ==> r == ReplyView::Say(
            join(listing(rt.command_prefix, rt.commands.key_seq()), seq![' ', '|', ' ']),
        ),
        word == "points"@ ==> r == ReplyView::Say(points_text(
            points_target(normalized(name), command_body(rt, message).skip(6)),
            points_lookup(
                rt.data.data_server@,
                points_target(normalized(name), command_body(rt, message).skip(6)),
            ).1->0,
        )),
{
    reveal_strlit("hi");
    reveal_strlit("lurk");
    reveal_strlit("unlurk");
    reveal_strlit("commands");
    reveal_strlit("points");
    let body = command_body(rt, message);
    let c = if word == "hi"@ {
        Command::Hi
    } else if word == "lurk"@ {
        Command::Lurk
    } else if word == "commands"@ {
        Command::Commands
    } else if word == "points"@ {
        Command::Points
    } else {
        Command::Unlurk
    };
    if word == "hi"@ || word == "lurk"@ || word == "unlurk"@ || word == "commands"@ || word == "points"@ {
        assert(word =~= command_name(c));
        assert(!word.contains(' ')) by {
            if word.contains(' ') {
                let j = word.index_of(' ');
                assert(word[j] == ' ');
            }
        }
        lemma_first_field_word(word, ' ', rest);
        assert(first_field(body, ' ') == word);
        law_command_names_round_trip(c);
        assert(called_command(rt, body) == Some(c));
        if c == Command::Points {
            assert(body.take(6) =~= word);
            lemma_ascii_head(body, 6);
        }
    }
}

/// The viewer whose points are asked for is the text after the command name,
/// trimmed and without `@`, whenever that is not empty, and the sender
/// otherwise.
pub proof fn law_points_target(sender: Seq<char>, rest: Seq<char>)
    ensures
        remove_char(trimmed(rest), '@').len() > 0 ==> points_target(sender, rest) == remove_char(trimmed(rest), '@'),
        remove_char(trimmed(rest), '@').len() == 0 ==> points_target(sender, rest) == sender,
{
}

/// Naming a viewer with or without `@` asks for the same viewer: the target
/// of `@x` is the target of `x`.
pub proof fn law_at_sign_optional(sender: Seq<char>, x: Seq<char>)
    requires
        x.len() == 0 || !white_space(x[0]),
    ensures
        points_target(sender, seq!['@'] + x) == points_target(sender, x),
{
    let a = seq!['@'];
    let m = a + x;
    assert(!white_space('@'));
    assert(m[0] == '@');
    assert(trim_start(m) == m);
    assert(trim_start(x) == x);
    assert(a.last() == '@');
    lemma_trim_end_concat(a, x);
    assert(trimmed(m) == a + trim_end(x));
    assert(trimmed(x) == trim_end(x));
    lemma_remove_char_concat(a, trim_end(x), '@');
    assert(a.drop_last() =~= Seq::<char>::empty());
    assert(remove_char(a.drop_last(), '@') =~= Seq::<char>::empty());
    assert(remove_char(a, '@') =~= Seq::<char>::empty());
    assert(remove_char(a, '@') + remove_char(trim_end(x), '@') =~= remove_char(trim_end(x), '@'));
}

/// Every command is found again by its name.
pub proof fn law_command_names_round_trip(c: Command)
    ensures
        command_named(command_name(c)) == Some(c),
{
    let n = command_name(c);
    assert(command_name(Command::Calc) =~= seq!['c', 'a', 'l', 'c']);
    if c != Command::Calc {
        assert(n != command_name(Command::Calc)) by {
            if n.len() == 4 {
                assert(n[0] != 'c' || n[1] != 'a');
            }
        }
    }
    if c != Command::Points && c != Command::Calc {
        assert(n != command_name(Command::Points)) by {
            if n.len() == 6 {
                assert(n[0] != 'p');
            }
        }
    }
    if c != Command::Lurk && c != Command::Points && c != Command::Calc {
        assert(n != command_name(Command::Lurk)) by {
            if n.len() == 4 {
                assert(n[0] != 'l');
            }
        }
    }
    if c == Command::Hi || c == Command::Shoutout || c == Command::Commands {
        assert(n != command_name(Command::Unlurk)) by {
            if n.len() == 6 {
                assert(n[0] != 'u');
            }
        }
    }
    if c == Command::Shoutout || c == Command::Commands {
        assert(n != command_name(Command::Hi));
    }
    if c == Command::Commands {
        assert(n != command_name(Command::Shoutout)) by {
            assert(n[0] != 's');
        }
    }
}

/// The lines of a reply, each said on its own (`split('\n')`).
pub fn outgoing_lines(response: &str) -> (r: Vec<String>)
    ensures
        crate::text::views(r@) == crate::text::split_all(response@, '\n'),
{
    let n = response.unicode_len();
    let mut out: Vec<String> = Vec::new();
    let mut cur = String::new();
    let mut i: usize = 0;
    assert(response@.take(0) =~= Seq::<char>::empty());
    assert(crate::text::views(out@).push(cur@) =~= crate::text::split_all(response@.take(0), '\n'));
    while i < n
        invariant
            i <= n,
            n == response@.len(),
            crate::text::views(out@).push(cur@) == crate::text::split_all(response@.take(i as int), '\n'),
        decreases n - i,
    {
        let c = response.get_char(i);
        assert(response@.take(i + 1).drop_last() =~= response@.take(i as int));
        assert(response@.take(i + 1).last() == c);
        let ghost before = crate::text::views(out@);
        if c == '\n' {
            let done = cur;
            out.push(done);
            cur = String::new();
            assert(crate::text::views(out@) =~= before.push(done@));
            assert(crate::text::views(out@).push(cur@) =~= before.push(done@).push(Seq::<char>::empty()));
        } else {
            let ghost prev = cur@;
            push_char(&mut cur, c);
            assert(crate::text::views(out@).push(cur@) =~= before.push(prev).update(before.len() as int, prev.push(c)));
        }
        i += 1;
    }
    assert(response@.take(n as int) =~= response@);
    let ghost before = crate::text::views(out@);
    let last = cur;
    out.push(last);
    assert(crate::text::views(out@) =~= before.push(last@));
    out
}

/// The message of an automatic command: `!` and the command.
pub open spec fn auto_text(command: Seq<char>) -> Seq<char> {
    seq!['!'] + command
}

/// The automatic commands, said one after another in a cycle.
pub struct AutoCommandCycle {
    commands: Vec<String>,
    next: usize,
}

impl AutoCommandCycle {
    /// The commands of the cycle.
    pub closed spec fn commands(&self) -> Seq<Seq<char>> {
        crate::text::views(self.commands@)
    }

    /// The position of the command that comes next.
    pub closed spec fn position(&self) -> int {
        self.next as int
    }

    /// The next position is a position of the cycle, when there is one.
    pub closed spec fn wf(&self) -> bool {
        self.commands@.len() > 0 ==> self.next < self.commands@.len()
    }

    /// A cycle that starts with the first command.
    pub fn new(commands: Vec<String>) -> (r: AutoCommandCycle)
        ensures
            r.wf(),
            r.commands() == crate::text::views(commands@),
            r.position() == 0,
    {
        AutoCommandCycle { commands, next: 0 }
    }

    /// The message of the next command, or `None` when there are no
    /// commands; the cycle moves on by one, back to the first after the last.
    pub fn next_message(&mut self) -> (r: Option<String>)
        requires
            old(self).wf(),
        ensures
            final(self).wf(),
            final(self).commands() == old(self).commands(),
            old(self).commands().len() == 0 ==> r is None && final(self).position() == old(self).position(),
            old(self).commands().len() > 0 ==> r is Some
                && r->0@ == auto_text(old(self).commands()[old(self).position()])
                && final(self).position() == (old(self).position() + 1) % (old(self).commands().len() as int),
    {
        if self.commands.len() == 0 {
            return None;
        }
        let mut s = String::new();
        push_char(&mut s, '!');
        s.append(self.commands[self.next].as_str());
        assert(self.commands()[self.position()] == self.commands@[self.next as int]@);
        if self.next + 1 == self.commands.len() {
            proof {
                vstd::arithmetic::div_mod::lemma_mod_self_0(self.commands@.len() as int);
            }
            self.next = 0;
        } else {
            proof {
                vstd::arithmetic::div_mod::lemma_small_mod((self.next + 1) as nat, self.commands@.len() as nat);
            }
            self.next = self.next + 1;
        }
        assert(s@ =~= auto_text(old(self).commands()[old(self).position()]));
        Some(s)
    }
}

} // verus!
