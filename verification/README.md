# tunshell

The decisions behind a tunshell remote shell and its relay, proved with Verus.

- `src/` is the library. It holds no socket, process or file: where outside work is needed, a
  function says what is to be done next and takes in what came of it.
- `app/` performs that work with tokio, rustls and libc.
- `tests/` runs the library on concrete values.

What rests on the TLS library stands in `src/tls.rs`; the other facts that are taken from outside
are `String::from_utf8` (`src/text.rs`), `Duration::from_millis` (`src/relay.rs`) and the number of
`EINVAL` (`src/spawn.rs`).
