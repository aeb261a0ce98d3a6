# FilePipe

FilePipe keeps a local directory in step with a repository served by a
daemon. A client authenticates with an Ed25519 key, opens a transfer session,
sends the listing of its files, and the two sides work out which files to
keep, move, copy, delete or send.

The logic is a Verus library whose functions carry `requires`/`ensures`
contracts that Verus proves:

- `src/text.rs`: string helpers (splitting, trimming, decimal numbers).
- `src/aio.rs`: repository paths, the hex form of content hashes, XXH3
  content hashing, directory listing entries, and the allocations and file
  system operations that carry out a transfer plan.
- `src/filepipe.rs`: repository records and the text format of file
  listings (`dir/name:size:hash` records separated by `;`), with the proof
  that reading a listing gives back the files it was written from.
- `src/filepipe/transf.rs`: the computation of the file operations that turn
  one repository state into another.
- `src/key_gen.rs`: random keys, Ed25519 signatures, OpenSSH and PKCS#8 keys.
- `src/config.rs`, `src/client/config.rs`: the daemon's and the client's
  configuration, from the values their Lua scripts define.
- `src/endpoint.rs` and `src/endpoint/`: the daemon's sessions and access
  keys, and its answers to requests.
- `src/client/`: the client's side of the conversation and the upload of
  file contents in chunks.

`app/` is the program around the library: the HTTP server and client, the
Lua interpreter, the file system and the command line. `tests/` runs the
library on concrete values.
