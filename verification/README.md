# service_utils

Verified logic of a few small web services and a text tool, written in Verus.

- `src/format.rs`: re-wrapping text to 80-character lines (`format_content`,
  `line_split`, `find_space_from`), with proofs that every emitted line fits
  unless it cannot be broken, that every word is kept, whole and in order, and
  that text whose lines are all at most 80 characters long is kept as it is
  (with a final line feed).
- `src/cli.rs`: the value of a command-line option.
- `src/proxy.rs`: the decisions of a forward proxy that refuses advertising
  hosts (refuse, tunnel, reject, or forward to `host:port`).
- `src/echo.rs`: routes and body transforms of an echo service.
- `src/forward.rs`: the upstream URL and the reply of a reverse proxy.
- `src/params.rs`: route-template parameters, found with the `regex` crate.
- `src/text.rs`: character helpers and their specifications.

`app/` holds the servers and command-line programs around the library
(actix-web, hyper, reqwest, tokio); the first argument picks the program.
