# cdio-paranoia

CD audio extraction with error correction, in the manner of libcdio-paranoia.

The library in `src/` is written in Verus and verified: every function
carries a contract, and Verus proves the code meets it.

| Module      | What it holds |
|-------------|---------------|
| `paranoia`  | The reader: a state machine that decides, from each drive reply, what to read next and which frame to return (cache lookup, double reads, jitter matching, rift repair, consensus voting, backoff) |
| `block`     | Cache blocks, verified fragments and the root block, with merging |
| `isort`     | Sample index for finding where a sample value occurs |
| `overlap`   | Jitter statistics, dynamic overlap, overlap search |
| `gap`       | Silence detection and rift analysis |
| `consensus` | Per-sample voting between reads |
| `backoff`   | Error counting and exponential backoff |
| `cdda`      | Table of contents, track queries (from the table or the drive's own answers), byte-to-sample conversion |
| `types`, `error`, `constants` | Shared types |

The drive itself is not in the library. A read runs as a loop: the reader
asks for a drive operation (`ReadAction`), the caller performs it and hands
back the outcome (`DriveReply`), until the read is done.

`app/` holds that loop against the drives (a stub backend and libcdio),
the C ABI, error types with messages, and
the statistics that use floating point. `tests/` exercises the library.
