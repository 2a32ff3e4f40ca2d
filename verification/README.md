# disk_scanner

A disk scanner that tells the truth about APFS, with its logic verified by Verus.

On APFS "how big is this folder" has no single answer. Clones share blocks, snapshots
pin blocks that no file refers to, sparse files claim space that they never took, and
files evicted to iCloud have a size but take nothing. Every node of a scan carries six
figures that keep these apart, and an account of what could not be read.

## Layout

- `src/` is the library. It decides and computes, and does no input or output.
  - `model`: the tree of nodes, its paths, and the sums that go up the tree
  - `sys`: what the structures of the system mean, among them the packed entries of
    `getattrlistbulk` and the mount table
  - `plan`, `scan`, `walk`: where a walk may go, what an entry adds, and when it is over
  - `report`: what a scan comes to, among it what deleting a selection would free
  - `ffi`, `treemap`: what a front end is told
  - `order`, `paths`, `text`, `numbers`, `sums`: sorting, paths as bytes, text, rounding
  - `foreign`: functions of `std` with the contracts that are taken from their
    documentation
  - `laws`: what holds of the library as a whole
- `app/` is the command line, the C interface, the threads and the calls into macOS.
- `tests/` runs the library.

## What is freed

What deleting files frees is no sum over them. Three clones of a file share its blocks:
deleting two of them frees nothing, and deleting the third as well frees the blocks once.
`report::reclaim` answers for a selection of nodes as a whole.
