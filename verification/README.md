# Diskhoji

Fast disk space analysis: a parallel scanner, a native window with a treemap and a
heatmap, and the same dashboard on localhost.

- `src/` is the library, verified with Verus: the model of a scanned tree, the arena it is
  laid out as, deletion in place, the order in which a treemap is drawn, the answers of the
  dashboard, the state of the window, and the texts and numbers that go with them.
- `app/` is the program around it: the disk, the window, the server, and what takes floating
  point, such as the places of tiles, the lengths of bars and the seconds of a running scan.
- `tests/` run the library on concrete values.

What the library promises as a whole stands in public proof functions: every byte is
accounted for after a scan (`engine`, `laid_out`) and after a deletion, where nothing is
subtracted twice (`balance`); the largest files listed are the largest of those that are
still there, and none leaves the list before it is deleted (`largest`); a map draws no node
and no byte twice, and the room there is goes to the largest directories (`drawn`); the grid
has one cell for every item (`heat`); a scan counts what it finds (`visits`) and stays on one
file system (`scan`); the scan root is never deleted and nothing changes without the token
(`web`).
