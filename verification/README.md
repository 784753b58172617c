# install-nothing

A terminal application that simulates installing things and installs nothing.

- `src/` is the verified library:
  - `log_corpus.rs` splits recorded build transcripts into their non-blank lines;
  - `text.rs` holds the string reasoning (lines, trimming, searching, decimal numerals);
  - `stages/autotools.rs` and `stages/cmake.rs` classify transcript lines and keep the
    "inside a diagnostic" state from one line to the next;
  - `stages/defrag.rs` is the disk-defragmenter simulation: scattering data, planning,
    committing and aborting cluster moves, pending work, and the footer's numbers;
  - `ui/block_grid.rs` is the grid of clusters with its run-length rows, `ui/style.rs`
    the coloured spans a line is made of;
  - `random.rs` declares rand's generator and the calls made on it.
- `app/` is the program: arguments, transcripts on disk, colours, cursor movement,
  sleeping and the floating-point timing and progress figures.
- `tests/` exercises the library on concrete values.
