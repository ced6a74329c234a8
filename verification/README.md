# tinyapi

A small HTTP API framework for embedded targets: register a handler for a
path pattern such as `/led/{state}`, spawn the server task, and answer `GET`
requests. A small client sends `GET` and `POST` requests to dotted IPv4
addresses.

## Layout

- `src/` — the library, written in Verus and proved against its contracts:
  - `routing.rs`: requests, handlers, pattern matching with `{name}`
    parameters, and the router (first registered match answers; only `GET`).
  - `server.rs`: when a request's header is complete, and which method and
    path its first line names.
  - `response.rs`: responses and the status line and headers sent before a body.
  - `client.rs`: URL and address reading, request writing into a caller's
    buffer, reading a reply's status and body.
  - `log.rs`: the log of the latest hundred messages and its `/logs` page.
  - `split.rs`, `text.rs`: splitting text at separators, decimal numbers,
    UTF-8 helpers.
  - `params.rs`: the `heapless` parameter map and the operations on it.
- `app/` — the Embassy side: the shared router and log, the server task, the
  client's socket work.
- `tests/` — tests of the library.

The proved properties include: a request the client writes is read back by
the server as the same method and path; a reply the server sends is read back
by the client as the same body and status code; a `{name}` segment binds the
path segment in its place; empty path segments do not count; later routes
never take a path from an earlier one; the log keeps exactly the latest
hundred messages.
