# Rutile

A Tilix-style tiling terminal emulator for GNOME (GTK 4, libadwaita, VTE).

The crate is split in two:

- `src/` is the `rutile` library, written in Verus. It holds the terminal's
  models and rules (layout, sessions, broadcasting, keybindings, profiles,
  titles and the rest below), each with a contract that Verus proves:
  - `layout::split_tree` — the recursive split layout of a session (split,
    close, ratios, the rectangle of each pane, directional navigation,
    resizing, renumbering restored trees);
  - `layout::pane_view` — one session's panes: tree, focus, maximized pane;
  - `session::session_view` — every session of a window, the broadcast
    registry and the id counters, with the invariant that no pane belongs to
    two sessions and that the registry lists exactly each session's panes;
  - `terminal::broadcast` — which panes receive a broadcast keystroke;
  - `terminal::title`, `pane_header` — title templates, OSC 7 directory URIs,
    and what a pane's header shows;
  - `terminal::monitor` — reading CPU ticks out of `/proc/<pid>/stat` and the
    "command finished" notification decisions;
  - `keymap` — the keybinding table, chord text, lookup and rebinding;
  - `profile`, `preferences`, `session::persist`, `dialogs` — profiles, color
    schemes, preferences, saved-session paths, the close-confirmation check.
- `app/` is the program around it: widgets, signal handlers (including the
  dispatch of a looked-up key action to the window's operations), file I/O
  and the serde representations of the persisted types.

`tests/` exercises the library on concrete values.
