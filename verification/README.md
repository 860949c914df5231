# rlibs

A verified core for a few small tools, checked with Verus.

- `src/todo.rs` — to-do entries and lists; the list sorts by ascending
  priority, keeping tasks of equal priority in the order they were added, and
  renders numbered lines for display.
- `src/commands.rs` — reading the to-do tool's commands (`list`, `add`, `exit`)
  and task priorities from typed lines.
- `src/text.rs` — Unicode white space, trimming, decimal rendering and parsing
  of signed 32-bit integers.
- `src/sand.rs` — the falling-sand grid: the round brush, one gravity step,
  and the cells to draw; a step conserves the number of grains.
- `src/comms.rs` — the addresses of a UDP publisher and the order in which a
  message goes out to its peers.
- `app/` — the programs: terminal to-do list (bincode storage), GTK
  falling-sand window, UDP demo, and the floating-point Kalman filter demo.
