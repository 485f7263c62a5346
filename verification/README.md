# simple_web_healthcheck

A healthcheck for web app containers: given one URL argument it resolves the
socket address and path, sends an HTTP/1.1 `GET`, and exits with 0 when the
service answers with a status outside 400–599.

- `src/` is the verified library (Verus): the URL grammar and default port
  (`address`), the request text and the verdict on the status line
  (`connection`), and byte-level text helpers (`text`).
- `app/main.rs` is the program around it: arguments, the `std::net` address
  parsing, the TCP exchange and the exit status.
- `tests/` runs the library on concrete inputs.
