# ordered_stream

Reassembles numbered messages `(sequence number, Vec<T>)` that arrive on a
`crossbeam_channel` receiver in any order, and hands their elements out in
sequence order: message by message, or in chunks of a requested length that
ignore message boundaries.

- `src/` is verified with Verus:
  - `offset_vec.rs`: `OffsetVec`, a vector with a count of elements already
    handed out;
  - `ordered_stream.rs`: `OrderedStream`, the cache of messages (an `intmap`
    table over a slab of slots), its cursor, and the decisions of every reading
    operation, one received message or one observation at a time
    (`drain_cache`, `take_current`,
    `read_to_pos_ready` / `read_to_pos_accept`, `accept_msg`, `cache_round`,
    `timed_round`, `len_round`, ...);
  - `laws.rs`: that squeezing hands elements out in order, without losing or
    repeating any;
  - `lookup.rs`, `channel.rs`: the contracts assumed of `intmap` and
    `crossbeam_channel`.
- `app/` holds the loops that wait on the channel (`squeeze`, `current`,
  `read_to_pos`, their timeout forms, the iterators and `std::io::Read`), each
  calling the verified steps.
- `tests/` runs both, with real channels.
