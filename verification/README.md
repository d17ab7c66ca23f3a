# rusty_av1e

The decision logic of an AV1 encoder, written in Verus: what the encoder computes and
decides is stated as contracts and proved.

- `src/` is the library. `context` selects the contexts of transform syntax; `encoder`
  holds sequences, frames, tiles, partition search, block syntax, transforms, loop filter
  queues and packets; `varpart`, `tempfilter`, `warp` and `mc` work on samples; `harvest`
  and `racecar` read settings; `prof` counts time and bits. `outside` holds the calls into
  other crates together with what is assumed of them.
- `tests/` runs the library on concrete values.
- `app/` is ordinary Rust around the library: the environment, files, clocks, threads,
  floating point, and the loops that carry out the library's plans.

Where the library cannot do a piece of work itself, such as a motion search or a
transform, it hands out a plan as a list of steps, or a state machine that says what to
do next; the contracts state exactly which steps come in which order.

Public laws (functions whose names start with `law_`) state what holds across functions:
what is written can be read back, what tiles what, what a trial shares with the final
encode, which choice wins.
