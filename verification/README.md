# gimbap

HTTP/1.1 request parsing and response building, written in Verus: every
function of the library carries a `requires`/`ensures` contract that Verus
proves.

## Layout

- `src/text.rs` — trimming, splitting, searching, replacing and integer
  parsing on characters and bytes, each stated over `Seq` and proved.
- `src/map.rs` — `StrMap`, a map keyed by strings whose view is a `Map`.
- `src/bindings.rs` — the calls into `regex`, `mime`, `url`,
  `percent-encoding`, `encoding_rs` and a few std functions. These are the
  trusted items: their contracts are believed, not proved.
- `src/common.rs` — header names and values, header maps, status codes,
  methods, media types.
- `src/error.rs` — the library's errors and their messages.
- `src/response.rs` — `Response` and its builder methods, with the laws on
  what `header` stores.
- `src/request/` — the request line, header lines, URLs, query strings,
  route parameters and body decoding (form data, multipart, text).
- `app/` — the unverified edge: reading a request from a stream,
  decompressing bodies (`flate2`, `brotli`, `zstd`) and serialising JSON
  (`serde_json`).
- `tests/` — tests of the library on concrete values.
