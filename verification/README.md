# michi

The decisions behind a pipeline of commands, verified with Verus.

A pipeline runs commands and closures step by step, gives each command cores of
its own, and reports what happened. This crate holds everything in that which is
decided rather than done:

- `cmd`, `shell`, `path`, `value`: commands, their argv, and the shell line that
  does the same thing.
- `closure`, `item`, `step`, `status`, `label`, `sink`: what a step holds, how it
  came out, and how far a failure reaches.
- `cpu`: which cores a request gets, cpu lists, and what the kernel's files say.
- `progress`: what to write to a terminal or a log as a run goes.
- `table`: the summary table, laid out with `toil`.
- `error`, `fmt`, `double`, `text`, `order`, `sorted`: what the rest is written
  with.

Times are whole nanoseconds, a step's totals add them up the way doubles in
seconds do, and paths are the text they display as.

`app/` is ordinary Rust around the library: it reads the machine, pins threads,
waits for cores, draws on the terminal and writes the file.
