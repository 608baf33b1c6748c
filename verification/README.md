# Outlook mail pool API

A service that keeps a pool of imported Outlook/Hotmail mailboxes, leases
them to clients and serves the verification codes that arrive in them.

- `src/` is the verified library (Verus): import-text parsing, API-key
  checks, verification-code extraction, message conversion and ordering, the
  lease rule of the account pool, and the response bodies.
- `app/` is the HTTP service around it: axum routes, the SQLite store, IMAP
  fetching and configuration from the environment.
- `tests/` exercises the library on concrete inputs.
