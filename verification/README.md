# m3u8_proxy

An HLS-aware streaming proxy whose core is verified with Verus.

Requests have the form `GET /?u={encrypted_url}&origin={origin}`: the target
URL is XOR-ed with a key and base64-encoded (URL-safe alphabet, no padding).
Playlists fetched through the proxy are rewritten so that every segment, key,
map and rendition URI they reference points back at the proxy in the same form.

## Layout

- `src/` — the verified library
  - `crypto.rs`: XOR obfuscation of URLs; decrypting an encrypted URL gives it back.
  - `pipe.rs`: playlist rewriting, line by line; the links it writes read back,
    through the query parser, to the resolved target.
  - `proxy.rs`: query parsing and the decisions of the proxy endpoint
    (target selection, how to handle the upstream response, forwarded headers).
  - `cors.rs`: origin selection and CORS headers, preflight answers.
  - `headers.rs`: response headers as a list in which setting a header
    replaces any earlier one of the same name (case-insensitive).
  - `upstream.rs`: the headers of the upstream request (the `headers`
    parameter, then the client's range and validation headers).
  - `config.rs`: interpretation of the settings (`XOR_KEY`, `PORT`,
    `ALLOWED_ORIGIN`, `ENABLE_CORS`).
  - `links.rs`: proofs that proxy links parse back into their parameters.
  - `text.rs`: character-level helpers with their specifications.
  - `b64.rs`, `urls.rs`, `percent.rs`: the calls into `base64`, `url` and
    `urlencoding`, with the contracts that the library relies on; `upstream.rs`
    also calls `serde_json` and the `http` header types behind `reqwest`.
- `app/` — the actix-web server: environment, caches, upstream client, streaming.
- `tests/` — tests of the library on concrete values.
