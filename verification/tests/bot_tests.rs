use polybot::bot::{
    get_name_from_string, outgoing_lines, points_message, AutoCommandCycle, Bot, Command, Reply,
};
use polybot::config::{Command as TextCommand, Config, General, Group, Points, StringOrCommand};
use polybot::data_server::MyDatabase;
use polybot::keyed::KeyedList;
use polybot::runtime::{give_points, Chatter, Data};

fn config(prefix: Option<char>, short: Option<char>) -> Config {
    let mut variables = KeyedList::new();
    variables.insert("link".to_string(), "https://example.org".to_string());
    let mut commands = KeyedList::new();
    commands.insert("discord".to_string(), StringOrCommand::Text("join at $link".to_string()));
    commands.insert(
        "rules".to_string(),
        StringOrCommand::Cmd(TextCommand { aliases: vec!["r".to_string(), "discord".to_string()], value: "be nice".to_string() }),
    );
    let mut groups = KeyedList::new();
    groups.insert("admin".to_string(), Group { users: vec!["iamhardliner".to_string()] });
    Config {
        general: General {
            hype_emote: "hype".to_string(),
            message_timeout: Some(1),
            ignored_users: vec![],
            shoutout_short: short,
            command_prefix: prefix,
        },
        points: Points { ticks_per_message: 2, points_per_tick: 5, tick_speed: 60, steal_min: 1, steal_max: 10 },
        variables,
        commands,
        groups,
    }
}

fn say(r: Reply) -> String {
    match r {
        Reply::Say(s) => s,
        Reply::Silent => panic!("silent"),
        Reply::Calculate(e) => panic!("calculate {}", e),
    }
}

#[test]
fn command_names_round_trip() {
    for c in Command::all() {
        assert_eq!(Command::from_name(&c.to_string()), Some(c));
    }
    assert_eq!(Command::Shoutout.to_string(), "shoutout");
    assert_eq!(Command::from_name("Calc"), None);
    assert_eq!(Command::from_name("so"), None);
}

#[test]
fn defaults_come_from_the_constants() {
    let bot = Bot::new(config(None, None), MyDatabase::new());
    assert_eq!(bot.runtime.command_prefix, '$');
    assert_eq!(bot.runtime.shoutout_short, '#');
    let bot = Bot::new(config(Some('!'), Some('~')), MyDatabase::new());
    assert_eq!(bot.runtime.command_prefix, '!');
    assert_eq!(bot.runtime.shoutout_short, '~');
}

#[test]
fn text_commands_substitute_variables_and_aliases() {
    let mut bot = Bot::new(config(None, None), MyDatabase::new());
    assert_eq!(say(bot.handle_message("alice", "$discord")), "join at https://example.org");
    assert_eq!(say(bot.handle_message("alice", "$rules")), "be nice");
    assert_eq!(say(bot.handle_message("alice", "$r")), "be nice");
    assert_eq!(say(bot.handle_message("alice", "  $$DISCORD  ")), "join at https://example.org");
}

#[test]
fn plain_message_gives_ticks() {
    let mut bot = Bot::new(config(None, None), MyDatabase::new());
    assert!(matches!(bot.handle_message("  Alice ", "hello chat"), Reply::Silent));
    assert_eq!(bot.runtime.data.chatters.get("alice").map(|c: &Chatter| c.remaining_ticks), Some(2));
    assert_eq!(bot.runtime.data.chatters.len(), 1);
}

#[test]
fn command_message_changes_no_ticks() {
    let mut bot = Bot::new(config(None, None), MyDatabase::new());
    let _ = bot.handle_message("alice", "$hi");
    assert_eq!(bot.runtime.data.chatters.len(), 0);
}

#[test]
fn greetings() {
    let mut bot = Bot::new(config(None, None), MyDatabase::new());
    assert_eq!(say(bot.handle_message("  Alice ", "$hi")), "Hello, alice!");
    assert_eq!(say(bot.handle_message("Bob", "$lurk")), "Have fun lurking @bob! iamhar2Bob");
    assert_eq!(say(bot.handle_message("Bob", "$unlurk now")), "Welcome back from lurking @bob! iamhar2Bob");
}

#[test]
fn points_requests() {
    let mut bot = Bot::new(config(None, None), MyDatabase::new());
    assert_eq!(say(bot.handle_message("Alice", "$points")), "@alice currently has 0 points!");
    assert!(bot.runtime.data.data_server.set_points("iamhardliner", "bob", 42).is_ok());
    assert_eq!(say(bot.handle_message("Alice", "$points  @Bob ")), "@bob currently has 42 points!");
    assert_eq!(bot.runtime.data.chatters.len(), 0);
    assert_eq!(points_message("bob", 42), "@bob currently has 42 points!");
    assert_eq!(points_message("bob", -3), "@bob currently has -3 points!");
}

#[test]
fn points_command_asks_the_streamer_channel() {
    let mut data = Data::new(MyDatabase::new());
    assert!(data.data_server.set_points("IamHardliner", "carol", 7).is_ok());
    assert!(data.data_server.set_points("someone_else", "carol", 99).is_ok());
    assert_eq!(say(Command::Points.points(&mut data, "dave", "points @Carol")), "@Carol currently has 7 points!");
    assert_eq!(say(Command::Points.points(&mut data, "dave", "points")), "@dave currently has 0 points!");
    assert_eq!(data.data_server.get_points("iamhardliner", "dave").ok(), Some(0));
}

#[test]
fn shoutouts() {
    let mut bot = Bot::new(config(None, None), MyDatabase::new());
    assert_eq!(
        say(bot.handle_message("alice", "$shoutout @SomeOne")),
        "Shoutout to @someone. You can check out their stream at https://www.twitch.tv/someone"
    );
    assert!(matches!(bot.handle_message("alice", "$shoutout"), Reply::Silent));
    assert_eq!(
        say(bot.handle_message("alice", "$shoutout  x")),
        "Shoutout to @. You can check out their stream at https://www.twitch.tv/"
    );
    // The shortcut is read as `so`, which names no command.
    assert!(matches!(bot.handle_message("alice", "#bob"), Reply::Silent));
    assert_eq!(bot.runtime.data.chatters.len(), 0);
}

#[test]
fn shortcut_outside_ascii() {
    let mut bot = Bot::new(config(None, Some('é')), MyDatabase::new());
    assert!(bot.try_handle_message("alice", "ébob").is_none());
    assert!(matches!(bot.try_handle_message("alice", "$hi"), Some(Reply::Say(_))));
}

#[test]
fn calculator() {
    let mut bot = Bot::new(config(None, None), MyDatabase::new());
    match bot.handle_message("alice", "$calc 1+2*3") {
        Reply::Calculate(e) => assert_eq!(e, " 1+2*3"),
        _ => panic!("expected an expression"),
    }
    match Command::Calc.calc("calc 1+") {
        Reply::Calculate(e) => assert_eq!(e, " 1+"),
        _ => panic!("expected an expression"),
    }
    // Byte 4 ends the second two-byte letter.
    match Command::Calc.calc("éé 2") {
        Reply::Calculate(e) => assert_eq!(e, " 2"),
        _ => panic!("expected an expression"),
    }
    assert_eq!(bot.runtime.data.chatters.len(), 0);
}

#[test]
fn unknown_commands_are_silent() {
    let mut bot = Bot::new(config(None, None), MyDatabase::new());
    assert!(matches!(bot.handle_message("alice", "$dance"), Reply::Silent));
    assert!(matches!(bot.handle_message("alice", "$"), Reply::Silent));
}

#[test]
fn command_listing() {
    let mut bot = Bot::new(config(None, None), MyDatabase::new());
    assert_eq!(
        say(bot.handle_message("alice", "$commands")),
        "$discord | $rules | $r | $calc | $points | $lurk | $unlurk | $hi | $shoutout | $commands"
    );
}

fn points_of(bot: &mut Bot, viewer: &str) -> i32 {
    bot.runtime.data.data_server.get_points("iamhardliner", viewer).ok().unwrap()
}

#[test]
fn ticks_count_down() {
    let mut bot = Bot::new(config(None, None), MyDatabase::new());
    let _ = bot.handle_message("alice", "hello");
    let _ = bot.handle_message("bob", "hi all");
    give_points(&mut bot.runtime);
    assert_eq!(points_of(&mut bot, "alice"), 5);
    assert_eq!(points_of(&mut bot, "bob"), 5);
    let _ = bot.handle_message("bob", "again");
    give_points(&mut bot.runtime);
    assert_eq!(points_of(&mut bot, "alice"), 10);
    assert_eq!(points_of(&mut bot, "bob"), 10);
    give_points(&mut bot.runtime);
    assert_eq!(points_of(&mut bot, "alice"), 10);
    assert_eq!(points_of(&mut bot, "bob"), 15);
    give_points(&mut bot.runtime);
    assert_eq!(points_of(&mut bot, "alice"), 10);
    assert_eq!(points_of(&mut bot, "bob"), 15);
    assert_eq!(bot.runtime.data.chatters.get("alice").map(|c: &Chatter| c.remaining_ticks), Some(0));
}

#[test]
fn viewer_is_awarded_in_the_first_ticks_only() {
    let mut bot = Bot::new(config(None, None), MyDatabase::new());
    let _ = bot.handle_message("carol", "hello");
    for expected in [5, 10, 10, 10] {
        give_points(&mut bot.runtime);
        assert_eq!(points_of(&mut bot, "carol"), expected);
    }
}

#[test]
fn repeated_prefixes_read_as_one() {
    let mut one = Bot::new(config(None, None), MyDatabase::new());
    let mut many = Bot::new(config(None, None), MyDatabase::new());
    assert_eq!(say(one.handle_message("a", "$hi")), say(many.handle_message("a", "$$$hi")));
    assert_eq!(say(one.handle_message("a", "$rules")), say(many.handle_message("a", "$$rules")));
}

#[test]
fn shortcut_reads_as_so() {
    let mut a = Bot::new(config(None, Some('~')), MyDatabase::new());
    let mut b = Bot::new(config(None, Some('~')), MyDatabase::new());
    assert!(matches!(a.handle_message("x", "  ~Bob "), Reply::Silent));
    assert!(matches!(b.handle_message("x", "$so bob"), Reply::Silent));
    assert_eq!(a.runtime.data.chatters.len(), b.runtime.data.chatters.len());
}

#[test]
fn normalized_input_answers_alike() {
    let mut a = Bot::new(config(None, None), MyDatabase::new());
    let mut b = Bot::new(config(None, None), MyDatabase::new());
    assert_eq!(say(a.handle_message("  Alice ", "  $HI ")), say(b.handle_message("alice", "$hi")));
    assert!(matches!(a.handle_message(" Bob", " Hello "), Reply::Silent));
    assert!(matches!(b.handle_message("bob", "hello"), Reply::Silent));
    assert_eq!(
        a.runtime.data.chatters.get("bob").map(|c: &Chatter| c.remaining_ticks),
        b.runtime.data.chatters.get("bob").map(|c: &Chatter| c.remaining_ticks)
    );
}

#[test]
fn names_from_messages() {
    assert_eq!(get_name_from_string("  @Foo@ "), "Foo");
    assert_eq!(get_name_from_string(""), "");
}

#[test]
fn reply_lines() {
    assert_eq!(outgoing_lines("a\nb"), vec!["a".to_string(), "b".to_string()]);
    assert_eq!(outgoing_lines("a\n"), vec!["a".to_string(), String::new()]);
    assert_eq!(outgoing_lines(""), vec![String::new()]);
}

#[test]
fn auto_commands_cycle() {
    let mut cycle = AutoCommandCycle::new(vec!["discord".to_string(), "rules".to_string()]);
    assert_eq!(cycle.next_message(), Some("!discord".to_string()));
    assert_eq!(cycle.next_message(), Some("!rules".to_string()));
    assert_eq!(cycle.next_message(), Some("!discord".to_string()));
    let mut empty = AutoCommandCycle::new(vec![]);
    assert_eq!(empty.next_message(), None);
}

#[test]
fn names_are_lowercased() {
    let mut bot = Bot::new(config(None, None), MyDatabase::new());
    assert_eq!(say(bot.handle_message("ÄLICE", "$hi")), "Hello, älice!");
}

#[test]
fn first_listed_alias_wins() {
    let mut cfg = config(None, None);
    let mut commands = KeyedList::new();
    commands.insert(
        "one".to_string(),
        StringOrCommand::Cmd(TextCommand { aliases: vec!["x".to_string()], value: "first".to_string() }),
    );
    commands.insert(
        "two".to_string(),
        StringOrCommand::Cmd(TextCommand { aliases: vec!["x".to_string(), "one".to_string()], value: "second".to_string() }),
    );
    cfg.commands = commands;
    let mut bot = Bot::new(cfg, MyDatabase::new());
    assert_eq!(say(bot.handle_message("a", "$x")), "first");
    assert_eq!(say(bot.handle_message("a", "$one")), "first");
    assert_eq!(say(bot.handle_message("a", "$two")), "second");
}

#[test]
fn bot_answers_from_the_service_it_is_given() {
    let mut service = MyDatabase::new();
    assert!(service.set_points("iamhardliner", "erin", 12).is_ok());
    let mut bot = Bot::new(config(None, None), service);
    assert_eq!(say(bot.handle_message("Erin", "$points")), "@erin currently has 12 points!");
}
