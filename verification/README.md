# proof_of_storage

A client and server for proofs of remote file storage built on a Ligero-style
polynomial commitment: a file is packed into field elements, laid out as a matrix,
each row is Reed-Solomon encoded, and the columns of the encoded matrix are hashed
into a Merkle tree whose root the client keeps.  A client later asks the server to
open a few random columns and checks them against the root and against its own copy
of the file, or asks for a polynomial evaluation and checks it against the opened
columns.  Appends, edits and reshapes are checked the same way.

Layout:

- `src/` is the library, verified with Verus:
  - `fields` – the 63-bit prime field, packing bytes into elements and back,
    polynomial evaluation;
  - `lcpc_online` – row encoding, Merkle trees, commitments, column openings and
    their verification, the encoded-file reader and writer and the file handler;
  - `networking` – what a client decides about a server's answers (`client`) and
    what a server computes to answer (`server`);
  - `databases`, `file_metadata` – the records kept about files and servers.
- `tests/` runs the library on concrete values.
- `app/` is the command-line program: argument parsing, the TCP message loop, disk
  and JSON storage, and the float-based sizing heuristics.

The commitment (`lcpc_online::commit`), column opening and path checking are written
in the library rather than called from `lcpc-2d`: that crate's `LcCommit` is generic
over its `LcEncoding` trait, whose Reed-Solomon implementation lives in
`lcpc-ligero-pc`, which does not build on a stable toolchain; an implementation of the
outside trait cannot be verified here, so the encoding calls `fffft` directly and the
commitment around it is proved in the library.
