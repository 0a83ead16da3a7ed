# cas

A content-addressed store: each blob is kept in a file named by the BLAKE3 hash
of its content, and an index maps keys to those hashes.

`src/` holds the rules of the store, verified with Verus. Nothing in it touches a
file. An operation that takes file operations is a chain of stages: each says
what has to be done to which file and takes the outcome to the next stage or to
the answer.

| module | what it holds |
| --- | --- |
| `types` | hashes, log operations, places in the store's directory |
| `byte_order`, `key_map`, `hash_list` | ordered keys and hashes |
| `serialization`, `format_laws` | the byte formats of the index and the log |
| `digest`, `blob_bytes` | BLAKE3 and `bytes::Bytes` |
| `index` | which key maps to which blob, and what a change releases |
| `cas_manager` | reading, committing and deleting the files of blobs |
| `transaction` | writing a new blob |
| `store`, `store_laws` | the operations of the store, and what holds of it as a whole |

`app/` does the file operations: it opens a store in a directory and drives the
stages.
