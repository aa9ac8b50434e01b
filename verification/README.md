# tack

A content-addressed, agent-native version-control system, with its core verified
by [Verus](https://github.com/verus-lang/verus).

* `src/` is the library: object encodings and ids, chunking, trees, diffs, ignore
  rules, the operation log, advisory claims, the agent API and its dispatch, and
  what the command-line program decides and prints. Each function states in its
  contract what it returns; the laws that relate several functions are public
  proof functions named `lemma_…`.
* `app/` is the program: arguments, files, standard streams and the wire forms of
  requests and responses. It carries out what the library decides.
* `tests/` runs the library on concrete values.

Outside crates are called in a few places only: `blake3` for digests, `fastcdc`
for chunk boundaries, `similar` for line diffs, and `serde_json` to read and print
JSON. What is claimed of each call is written above the function that makes it.
