# jsonmodem-py

The core of the jsonmodem Python extension as a verified Verus library: the
serialization, NumPy formatting, decoding decisions and streamed-value
assembly that the extension runs, each function with a contract that Verus
proves.

## Layout

- `src/` — the verified library.
  - `encoder.rs`, `escape.rs`, `decimal.rs`: the JSON output buffer, string
    escaping, integer text and the encoded-key cache.
  - `traverse.rs`: the stack of open containers during serialization,
    nesting and cycle limits, and sorted dictionary keys.
  - `datetime.rs`, `numpy.rs`: ISO 8601 text for dates and times, and NumPy
    snapshots (metadata checks, item decoding, nested-array layout).
  - `decode.rs`: which input is UTF-8 text, and the container decisions of
    complete-document decoding.
  - `value.rs`, `path.rs`, `stream.rs`: streamed values built from parse
    events (as sorted maps, or as insertion-ordered dicts and lists that
    refuse a path through the wrong kind of value), path patterns, and the
    streaming session lifecycle.
  - `integer.rs`, `dense_entry.rs`, `list_spare.rs`, `fixed_offsets.rs`,
    `buffer.rs`, `long_float.rs`, `validate.rs`: reads of interpreter
    storage modeled as plain values, buffer checks, decimal normalization
    and quick input checks.
- `tests/`: tests run against the compiled library.
- `app/`: the Python module built with PyO3 around the library.
