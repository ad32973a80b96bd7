# hf_hub

Bookkeeping for a local Hugging Face Hub cache, verified with Verus.

- `src/` is the library: repository identifier rules, deletion plans and their
  execution, and the decisions of a local Hub stand-in for resumed downloads.
  Paths are written in POSIX syntax; `app/` rewrites those of other platforms.
- `app/` connects it to the file system and to sockets, and gives the error
  types `Display` and `std::error::Error`.
- `tests/` runs the library on concrete values.

A deletion has three steps. `HFCacheInfo::lock_directories` names the lock
directories to look for; `HFCacheInfo::delete_revisions` takes those that exist
and returns the plan; `DeleteCacheStrategy::execute` starts a run, which names
one removal at a time and is told how each of them went.
