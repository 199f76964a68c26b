# parser_response

Incremental parsing of HTTP/1 responses, with every function of the library
proved against its contract.

- `src/` is the verified library:
  - `scan`, `text`: byte and character search, UTF-8 decoding, line and
    white-space splitting, `i32` parsing and decimal formatting;
  - `lengths`: the body length after the first blank line and the value of
    the `Content-Length` line;
  - `body`: picking the payload out of a chunk (JSON start, last-chunk cut);
  - `head`: the response head as the `http-bytes` crate parses it, held as
    plain values (the one call into that crate lives here);
  - `header_case`: `x-consul-index` to `X-Consul-Index`;
  - `parser`, `marked_parser`, `tracking_parser`, `simple_parser`: the
    response parsers, each with an abstract state and a spec function that
    says what `execute` does to it;
  - `pars`: parsing one whole response into text.
- `tests/` runs the library on concrete responses.
- `app/` holds the command-line sample run and the Python bindings (pyo3,
  serde), which call the library.
