# rust_web

A small web service whose decisions are proved with Verus.

- `src/` is the verified library: HTTP status numbers (`status`), the reply
  envelope (`response`), text primitives (`text`), query strings (`query`),
  decimal numbers and folding (`numbers`), JSON texts (`json`), the page
  server's routing and answers (`pages`), the token check of the API's
  middleware (`auth`), the replies of the user endpoints (`users`) and the
  file-list entry (`interface`).
- `app/` holds the servers: the page server (hyper) and, started with the
  argument `api`, the user API (actix-web with sea-orm). They do the I/O and
  ask the library what to answer.
- `tests/` runs the library on concrete inputs.
