# lib

The logic of a small Raspberry Pi kernel, verified with Verus.

- `src/allocator.rs`: a binary buddy allocator over a region `start .. end`.
  Blocks are powers of two, aligned to their size, kept in 32 bins; an
  allocation takes the front block of the first bin that fits and splits it,
  a deallocation merges a block with its free buddy as far as it goes.
- `src/bins.rs`: the model of the bins (the free bytes, well-formedness,
  splitting and merging) and the lemmas about it.
- `src/shell.rs`: the shell's decisions: line editing, splitting a line into
  arguments, what `echo`, `pwd`, `ls`, `cd`, `cat` print or ask of the file
  system, and how paths are joined.
- `src/kernel.rs`: the console echo and the panic test.
- `src/pow2.rs`: powers of two.

`app/main.rs` runs the shell hosted: the console is standard input and
output, the file system a host directory.
