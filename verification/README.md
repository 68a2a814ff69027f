# Ningshi

Ningshi keeps apps from running when the user's rules say so: always, while the
screen is off, outside (or inside) time windows, or once a usage limit is spent.
This crate is the rule engine of the daemon, written in Verus: what it decides is
stated in contracts and proved.

## Layout

- `src/` - the verified library.
  - `rules`, `window`, `schedule` - the rules, when a time window holds, and how
    long the daemon may sleep.
  - `counters`, `limits`, `decide`, `engine` - usage, cooldowns and extensions,
    which uids have to be blocked, and a tick of the engine.
  - `reload`, `extension`, `state`, `status`, `socket`, `daemon` - taking rules and
    package lists over, granting extensions, what survives a restart, and the
    protocol.
  - `gate`, `clear`, `fg`, `proc`, `pm` - what the kernel reports, which processes
    are killed, what is in the foreground, and which uid an app has.
  - `clock`, `text`, `number`, `table`, `uids`, `config` - the ground they stand on.
- `app/` - the daemon around it: files, processes, BPF programs, the socket and the
  JSON shapes.
- `tests/` - the library on concrete values.

## What is trusted

Time and dates come from `chrono` (`clock`), and bytes are turned into text by the
standard library (`proc`). Each such call stands behind one function whose contract
says what is believed of it; everything else in `src/` is proved.
