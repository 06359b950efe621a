# balancebeam

An HTTP/1.1 load balancer whose protocol handling and scheduling decisions are
verified with Verus.

- `src/` is the verified library: reading request and response heads
  (through `httparse`) and bodies as step-by-step readers, the bytes a
  message is written as, status lines and error pages, header lists kept in
  `http::HeaderMap` with the effect of each operation stated, the table of upstream servers that
  are up, random picking of an upstream, per-client rate limiting, the
  health-check request, and the decision table of a client connection.
  Each public function has a contract. The laws are public proof functions
  or `ensures` clauses: header `get`/`insert`/`append`; exact body lengths; a
  written request or response reads back as itself, however its bytes are
  split into reads (for headers with token names and values without edge
  blanks, at most 32 of them, a head of at most 8000 bytes, a body its
  `content-length` announces, a request target that `http` prints as
  itself, and a response to a request other than `HEAD`); each request read is forwarded once; and the
  upstream count always matches the table.
- `app/` is the program: command-line options, the TCP listener, the async
  read/write loops that feed bytes to the verified readers, the health-check
  and counter-reset timers, and logging.
- `tests/` runs the library on concrete requests and responses.
