# rinha

Infrastructure for a Rinha de Backend 2024 Q1 service: an embedded,
page-based, append-only storage engine and the upstream selection of two
load balancers.

- `src/` is the verified library.
  - `model::be_bytes`: the 8-byte big-endian length prefix of a row slot.
  - `model::page`: `Page<ROW_SIZE>`, a 4096-byte page of fixed-size row slots
    (length prefix, encoded row, zero padding); inserting, parsing a stored
    page back, and reading its rows.
  - `model::database`: the engine state `Db<ROW_SIZE>`. It decides where each
    page image is written, when a flush is due, which page is resumed when a
    file is opened (the last page when it has room, otherwise a new page at
    the end), and how a file reads back as pages and rows. The proofs show
    that a file written by the engine, reopened any number of times, reads
    back the inserted rows in order (for rows whose encoding is not empty: an
    empty row's zero length prefix ends its page) (and in reverse order when read from its
    end), and that each insert rewrites only the file's last page.
  - `model::builder`: the flush policy an engine is opened with.
  - `strategy`: round-robin and path-hash (account-sticky) upstream choice.
- `app/` performs the I/O: files, flushes and file locks for the blocking and
  the tokio engines, row encoding with `bitcode`, the HTTP server helper, and
  the HTTP and TCP load balancers.
- `tests/` exercise the library on concrete values.
