# vigil

A lightweight resource monitor for macOS: it samples CPU, memory, swap, disks,
battery and connections, fires alerts, keeps a journal of incidents in
markdown, and hands questions and approved fix plans to a separate agent
program.

- `src/` is the library. It is verified with Verus and touches nothing outside
  itself: samples, files and answers come in as plain values, and what is to be
  shown, written or run goes out as plain values. Shares and load averages are
  fixed-point numbers in units of 2^-32, times are nanoseconds. What is worked
  out of them in floating point is worked out in integers, to the same result
  (`src/float.rs`).
- `app/` is the program around it: the command line, `sysinfo`, the terminal,
  the menu bar, the desktop window, and the processes and files it works with.
- `tests/` runs the library.

What holds of the library as a whole is stated by the public proof functions
whose names start with `law_`: a rule stays quiet within its cooldown, a target
that keeps firing is one incident, only approved steps of a plan are handed on,
what is written to the journal can be read back, and so on.

JSON is read and written by `serde_json`, and URLs are encoded by
`urlencoding`; `src/json.rs` and `src/url.rs` say what is relied on.
