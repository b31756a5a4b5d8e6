# SimpleAgent

A deterministic agent pipeline, `Route -> Record(Tape) -> Tools(view) -> Context -> Model -> Process`,
whose logic is verified with Verus.

- `src/` is the verified library:
  - `router.rs` routes `/` commands, `!` shell lines and prompts;
  - `memory.rs` is the tape: an append-only log of messages, events and anchors, kept one
    entry per line as `id<TAB>type<TAB>payload`, with its file format read and written here;
  - `context.rs` writes messages into a one-line payload and reads them back;
  - `tool_view.rs` shows the model a growing subset of the tools;
  - `tools.rs` holds the tool registry, argument checks and the built-in tools' specs and results;
  - `runtime.rs` holds the runtime profiles (`yolo`, `readonly`, `custom`);
  - `llm.rs` holds messages, the provider trait and the mock provider;
  - `agent_loop.rs` is the loop, written as a state machine: `handle_input` answers commands
    or starts a turn, and returns a `Step` that asks its caller to run a tool or a shell
    command (`tool_finished` / `shell_finished` continue it) or gives the answer. Their
    contracts state what a turn writes on the tape and in which order, which tools each
    round shows the model, how often the model is asked, and that a turn ends in an error
    only when the model's streamed answer failed.
- `app/` is the command-line program: arguments, the tape file, and the file-system and
  process work of the tools and the shell route.
- `tests/` runs the library on concrete values.
