# signal_bot

A Signal messenger bot framework: it talks to the `signal-cli` JSON-RPC
daemon, routes prefixed commands to built-in commands or Lua plugins, rate
limits conversations, keeps a chat history, and gives plugins a context API
(replies, reactions, files, reminders, HTTP, an AI chat service).

## Layout

- `src/` is the library, verified with Verus. Each public function states
  in `ensures` what it returns or changes, over spec functions on sequences
  of characters, maps and views; the `law_*` proof functions state the
  properties that span several calls.
  - `text.rs`: the string operations the rest is built on (whitespace
    splitting, trimming, replacement, decimal notation, `u64` parsing).
  - `commands.rs`: the command router, static command templates, help text.
  - `rate_limit.rs`: per-conversation token buckets.
  - `rpc.rs`: request framing, the table of calls awaiting a response, the
    reading of responses and incoming lines.
  - `engine.rs`: what happens to each incoming envelope.
  - `plugins.rs`, `lua_api.rs`: the plugin registry and the decisions
    behind the plugin context API.
  - `ai.rs`, `context.rs`, `types.rs`, `error.rs`, `config.rs`, `cli.rs`:
    data types and the small decisions that go with them.
- `app/` is the program around the library: sockets, the event loop, the
  Lua runtime, SQLite, HTTP, configuration files and the command line.
- `tests/` runs the library on concrete values.
