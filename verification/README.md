# skip_list

Indexes over blocks of 32-bit integers that answer "how often does this value occur in
this block?" without a scan of the block, where they can. An index is a few bytes; how much
it may hold follows from two cost factors, the price of a kilobyte of index and the reward
for a scan that it saves.

Each of the modules `user`, `user_adaptive_v1`, `user_adaptive_v3`, `user_bitmap_counts_v1`,
`user_cheetos_v1`, `user_cheetos_v2`, `user_cheetos_v3`, `user_cheetos_v7`, `user_compressed`
and `user_heavy_hitters_v1` is one strategy, with

- `build_idx`, which builds the index of a block. `is_index` says which bytes it returns.
- `query_idx`, which answers a query from any bytes. `answer` says what it returns. Two
  strategies ask for something: `user_adaptive_v1` that the query lies no further than
  `i32::MAX` above the lowest value of a stored bitmap (`offset_fits`),
  `user_bitmap_counts_v1` that an index with a bitmap and a table is long enough to hold the
  bit of the query (`bit_present`).
- `answers_are_counts`, which proves that an answer from the index of a block is the number
  of occurrences in the block, and says which queries get one.

The other modules hold what the strategies share:

- `parameter`, `double`, `addition`, `order`: the cost factors, and the double-precision
  arithmetic that the choice of a layout rests on, carried out on integers, with the order
  that it keeps.
- `tally`, `sort`: counting values, and putting them in order.
- `bytes`, `varint`, `table`, `deltas`, `pairs`, `bitmap`, `minmax`: the parts of the formats.
- `hashing`, `bloom`, `sizing`, `topk`, `compressed`: Bloom filters, and lists of the most
  frequent values beside them.
- `statistics`, `frequencies`, `percentile`: what a data set consists of.
- `benchmark`: reading a data set, a run over it, and the score.

`app/` is the program: it reads the files, runs the `user` strategy over them, and prints
the statistics and the score.
