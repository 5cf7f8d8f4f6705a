# zgcmaster

A reader for raw Linux ZGC heap backing files, with its decision logic verified by Verus.

- `src/` is the verified library. Every rule that decides what the reader accepts,
  counts or reports stands there with a contract: layout and index validation, the
  chunked capture scanner with its header-group spacing statistics and header-shape
  vote, `/proc/PID/maps` parsing and address translation, the ZGC reference
  hypotheses, String decoding and the Java String hash, the String trawl, sampled
  binding verification, dictionary node judgement, binding discovery, the byte[]
  census tally, the String-set corpus, checksum files, regex packs and index diffs.
  Laws that span several functions are public `law_*` proof functions.
- `tests/` runs the library on concrete inputs.
- `app/` is the command-line program: argument handling, file reads and writes, JSON
  output, and the loops that feed capture bytes to the library's step functions.

Outside crates: `sha2` (capture and payload digests), `regex` (regex packs) and
`serde_json` (JSON validity of payloads) are called from the library through small
wrappers whose contracts are stated in the source; `serde` and `serde_json` also serve
the JSON files of the program.
