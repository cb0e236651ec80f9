# glaze_layout

The layout side of a tiling window manager: saving what is open where, matching
it to what runs later and planning how to bring it back, together with the
messages between the manager and its command line client.

`src/` is a library that decides and never acts. Every function states what it
returns, and Verus proves it. The few functions that wrap a call into the
standard library or another crate are the exception: what they state of that call
is believed, and the comment above each says what that is. The library knows
nothing of windows on a screen: the caller hands in what the desktop looks like
and carries out the plan that comes back.

- `dto`, `window_state`, `layout_snapshot`: what the manager reports and what a
  snapshot holds.
- `snapshot_capture`, `timestamp`: from a desktop to a snapshot.
- `singles`, `shares`, `placement`: single-precision arithmetic, and with it the
  sizes of tiled windows and the placements of floating ones, as fractions of the
  room that they have.
- `snapshot_leaves`, `layout_snapshot_matcher`, `monitor_match`: which saved
  window and monitor is which running one.
- `layout_snapshot_tree`, `load_layout_snapshot`, `restore_window`,
  `restore_tiling`: what a restore does, step by step.
- `layout_persistence`, `save_layout_snapshot`, `paths`: the layout file, its
  debug log and the auto-save.
- `ipc_args`, `ipc`, `ipc_server`, `cli`, `app_command`: requests, answers and
  events.
- `ipc_conflict`, `process_output`: what to do when the port is taken.
- `shell_exec`, `wm_event`, `wm_loop`: running programs, and what happens on
  which event.
- `text`, `seqs`, `container_id`: helpers.

`app/` is the program around it: arguments, sockets, files, the clipboard, JSON
and the desktop. Sizes and fractions are floating-point numbers there; the library
works them out on whole numbers and writes their bits.

`tests/` runs the library on concrete values.
