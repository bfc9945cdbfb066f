# active_app_volume

A command-line tool that raises, lowers or mutes the volume of the sound
sinks of a PulseAudio server, built around a library whose logic is proved
with Verus.

- `src/` — the verified library:
  - `tree.rs`: rose trees and their breadth-first flattening;
  - `process_tree.rs`: the tree of descendants of a process, built from a
    snapshot of the process table, and the breadth-first list of their ids;
  - `descendants.rs`: descendants as chains of parent links; the listed ids
    are exactly the parent and its descendants, each once when ids are
    unique;
  - `acyclic.rs`: a table without cycles of parent links meets what the
    process-tree functions ask;
  - `text.rs`: decimal integers as `u32` and `i32` parse them, and word
    comparison;
  - `args.rs`, `operations.rs`: decisions on the command line;
  - `sinks.rs`: the asynchronous walk over all sinks, event by event, and
    when it is over;
  - `mainloop.rs`: the decisions of the loop that drives the server
    connection.
- `app/` — the program: command-line reading (clap), the process table
  (sysinfo), the active window (xcb), the server connection and the volume
  arithmetic in floating point (libpulse-binding).
- `tests/` — tests of the library.
