# polybot

A chat bot for a streaming channel with a points system, written in Verus.

- `src/text.rs` – character-level string operations (trim, split, replace,
  lines, decimal notation), each stated over `Seq<char>`.
- `src/keyed.rs` – a string-keyed map that keeps its keys in insertion order.
- `src/config.rs` – the configuration and how its text commands, variables
  and aliases become the command table (`Config::to_runtime`).
- `src/runtime.rs` – the viewers seen in chat, their point ticks, and the
  points service the bot asks and awards points through.
- `src/bot.rs` – what the bot answers to a chat message.
- `src/data_server.rs` – the points service: users and points per streamer and
  viewer, with its requests and the laws that relate them.
- `src/backend.rs` – the API-key check of the web backend and its pages.
- `app/` – the program around the library: configuration file, chat client,
  timers and signals, and the calculator, which evaluates in floating point.
  The program hands the bot an in-process points service, so points last as
  long as the process.
