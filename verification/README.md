# rastfm

A Last.fm scrobbler for the scrobble log of a portable music player, with its
core written in Verus.

- `src/` is the verified library:
  - `logfile`: the log format (lines, tab-separated fields, numbers) and the
    tracks it yields;
  - `lastfm_api`: track parameters, submissions of nine tracks (the last one the rest), the
    request signature, URLs and request bodies;
  - `sorting`: ordering parameters by name, with its laws;
  - `session`: the session-key handshake as a state machine;
  - `digest`, `form`, `json`: the MD5 digest (rust-crypto), form encoding
    (serde_urlencoded) and reading response strings (serde_json) behind
    trusted items;
  - `text`: decimal numbers and string helpers;
  - `api`: a credentials interface whose operations are placeholders.
- `app/` is the program: it reads the log file, performs HTTP requests, opens
  the browser and keeps the session key file, as the library decides.
- `tests/` holds the tests.
