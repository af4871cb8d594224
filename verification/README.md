# concurrent_skiplist

An ordered map kept as a skip list, with range reads and range deletes,
verified with Verus.

- `src/key.rs`: the key types the list can order (`OrderedKey`), each with an
  integer rank; implemented for `i32`, `i64`, `u32`, `u64` and `usize`.
- `src/model.rs`: the model — a key-ordered sequence of entries, the map it
  describes, and what a range read of `[lo, hi)` gives back — with the lemmas
  about it.
- `src/node.rs`: a node: key, optional value, one forward link per level.
- `src/lib3/`: the list `SkipListjjj`. Nodes live in an arena and link by index;
  `chain.rs` states when the chain of one level is well formed, `find.rs` is the
  descent through the levels, `get.rs`, `insert.rs` and `delete.rs` the
  operations, `trait_impl.rs` the `IndexOperate` impl, and `laws.rs` the laws
  that relate the operations.
- `src/lib.rs`: the `IndexOperate` trait.
- `app/`: `ConcurrentSkiplist`, the list behind a `parking_lot` lock for use
  from several threads.

`get(key, range_end)` reads the half-open range `[key, range_end)`; `delete`
empties the values of that range and gives them back; `insert_or_update` maps a
key to a value and gives back the value it held before. A new node's height is
drawn from operating-system randomness (`rand::rngs::OsRng`), half as likely
for each level up; if the system cannot supply randomness, the height is 1.
