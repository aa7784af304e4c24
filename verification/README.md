# layout_optimizer

A keyboard layout optimiser: simulated annealing over assignments of
letters to keys, scored by how comfortably the bigrams and letters of a
language are typed.

`src/` is the verified library (Verus):

- `keymap` — letter-to-key assignments.
- `keyboard` — the starting layout (pinned letters, unused keys) and the
  Swedish qwerty reference layout.
- `layout` — swaps, their legality (no letter close to its qwerty key),
  making a keyboard valid, random shuffles of the free letters, and the
  layout as text; with the laws that legal swaps keep a keyboard valid,
  leave pinned letters alone and undo themselves.
- `search` — the walk of one annealing round through the pairs of letters.
- `schedule` — the counters of the temperature controller.
- `secretary` — the bookkeeping of losses, the best layout and the
  statistics, and the texts written at the end.
- `bigram` — which penalties a bigram incurs.
- `records` — the lines of the statistics and keyboard files.

`app/` holds what the library does not: reading and writing files, the
threads, the floating-point loss and temperatures, and the random
acceptance test.
