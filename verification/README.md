# bao_sync

Verified streaming of blobs by their BLAKE3 tree.

A blob is cut into chunks of 1024 bytes and into blocks of `1024 << n` bytes. The hash
pairs of the nodes above the blocks are the outboard of the blob. With an outboard, the
chunks that a query asks for can be encoded together with the hash pairs on the way to
them, and the one who knows the root hash can check them as they come.

- `num`, `pow`, `node`, `tree`: sizes, node numbers and the shape of a tree.
- `ranges`: sets of chunks, with `range_collections`.
- `hash`: BLAKE3 hashes of chunks and subtrees, with `blake3` and `smallvec`.
- `iter`: traversals of a tree in post order, and in pre order for a query.
- `io`: the traits for outboards and files, and small readers.
- `outboard`: root hash and outboard of a blob.
- `response`, `encode`, `decode`, `buffer`: the format of responses, encoding and
  decoding, with `bytes`.
- `validate`: which chunks of an outboard, or of a file, are valid.
- `consistency`, `round_trip`, `validated`, `genuine`, `decoded`, `validity`, `served`:
  what holds between these functions. The proof functions whose names start with `law_` state it.

`app/` runs the library over `std::io` readers and writers.
