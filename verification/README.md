# ratioup

The bookkeeping of a ratio-faking BitTorrent client, verified with Verus.

- `src/bencode.rs`: the bencode value model, the decoder (a byte-level grammar
  with exact error reporting), the canonical encoder, and the proofs that
  decoded values are canonical and that decoding an encoding gives the value back.
- `src/torrent.rs`: reading a torrent from its metainfo file (announce URLs,
  name, length, private flag, encoding, info hash), announce timing, upload
  speed choice, the JSON statistics line and error messages.
- `src/config.rs`: the configuration, its defaults and how a TOML text changes it.
- `src/text.rs`, `src/tracker.rs`: decimal, hexadecimal and percent encodings,
  quote escaping, and which tracker URLs are supported.
- `app/`: file reading, process-wide state, the fake client and HTTP client
  set-up, and the `Display` of errors.

Outside code is reached through a few trusted items in `src/`: `fastrand` for
random speeds and ports, `sha1_smol` for the info hash, `toml_span` for the
configuration text, and `std` for UTF-8 validation and the clock.
