# ff_downloader

The logic of a segmented download manager for files offered through a
third-party download host, written in Verus and proved against its
contracts.

- `src/text.rs` — character-level string operations (trim, split pieces,
  search, ordering, decimal numerals and `u64` parsing) with their specs.
- `src/html.rs` — the HTML selector queries, answered by `scraper`.
- `src/natural.rs` — the natural order of file names: runs of digits
  compare by the number they spell (`part9` before `part10`).
- `src/links.rs` — download links read from a release page (normalized,
  stably sorted naturally by file name, every later copy of a link dropped)
  and update entries read from its highlighted block.
- `src/resolve.rs` — file names, file ids, window labels, the direct
  resolution exchange and the resolver's and container window's polling
  decisions.
- `src/registry.rs` — per-link control states, progress records and the
  pause-and-cancel checkpoint.
- `src/transfer.rs` — the size probe, the split into at most eight byte
  ranges, the per-part retry and progress-sync state machines, the save
  path and the transfer error texts.
- `src/pointer.rs` — seed and pseudo-random steps for the pointer path.
- `app/` — the Tauri commands, HTTP and file I/O and async loops that call
  the library.
