# herdr-simple-prompts

An overlay for a terminal pane that runs a coding agent. It shows the prompts
and the final answers of the conversation, keeps a composer of its own, and
hands what is written there to the agent.

The library in `src/` is verified with Verus. It holds:

- `agent`: the records of a transcript, turned into prompts and answers
- `ansi`: text without its escape sequences, and the native styles of an answer
- `composer`, `native_chrome`: what a pane's own composer and footer show
- `ui::visual_rows`, `ui::history`: the conversation as rows, and where it is read
- `ui::render`: the screen, part by part
- `ui::keys`, `ui::events`, `ui::runtime`, `ui::adopt`, `ui::session`: what a key,
  a report or a look at the pane does

`app/` is ordinary Rust around it: it paints the screens and runs the threads.
The traits in `app/services.rs` stand for what it needs besides the library: the
pane, the transcript file, the editor of the draft, the list of turns with the
prompts that were sent and not seen yet, the reading of Markdown and of a status
line, and what is kept on disk.
