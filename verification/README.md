# llama_monitor

The telemetry logic of a monitor for llama.cpp servers, verified with Verus, and the
program around it.

`src/` is the library. Every function in it carries a contract that Verus proves:

- `binary`, `bignat`, `decimal`: floating-point numbers held as bit patterns, with
  correctly rounded arithmetic and decimal conversion.
- `text`, `table`, `json`, `clock`: texts as characters, ordered tables, JSON values,
  points in time.
- `llama`: what is learnt of the server, from its log lines (`live_slots`), its
  counters (`metrics`, `throughput`), its answers about the model (`running_model`),
  and in which order it is asked (`poller`).
- `logs`, `state`: the log buffer, how a log file is followed, and which one.
- `usage`, `energy`: lifetime counters of tokens, energy and cost.
- `gpu`: readings of graphics cards, and of AMD cards through the kernel's files.

What holds of several functions together is stated by the public proof functions
whose names begin with `law_`, at the end of each module.

Where the library calls another crate or the standard library without a
specification, the call stands in a small function marked
`#[verifier::external_body]`; its comment says what is taken on trust.

`tests/` runs the library on concrete values. `app/` is the program: command line,
HTTP, files, threads, and the types as they are saved and sent.
