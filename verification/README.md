# queue_backend

A queue of messages that is kept in segment files, verified with Verus.

A message gets the next id of the queue when it is pushed. Messages are stored
one behind the other in the last segment file; when it has no room left a new
file is started. A read asks for an id and gets that message or the next one
there is. A checkpoint describes the segments; with it the queue can be opened
again, and every message in front of a damaged place is found.

* `src/` is the library. It works on the bytes of files that the caller has
  mapped into memory and does no I/O of its own: `push` says when a new file is
  needed, `checkpoint` says which bytes have to reach the disk, `gc` and
  `delete` hand out the segments whose files are to go.
  * `record` is the layout of a file, `segment` one file with its messages,
    `queue` the row of segments.
  * `laws` states what holds of each operation on the queue, `history` what
    holds over any number of them, and `recovery` what is found again when the
    files are opened.
  * The only thing taken on trust is that xxHash depends on its input alone
    (`record::xxh64`).
* `app/` maps, syncs and deletes the files, keeps the checkpoint as JSON and
  puts a lock around the queue.
* `tests/` runs the library on files in memory.

Offsets in a file are 32 bits wide. Integers are stored little-endian.
