# zero

Fixed-capacity containers whose behaviour is proved with Verus. The capacity is a type
parameter; the storage itself is a std `Vec` bounded by it.

- `src/vec.rs`: `Vec<T, N>`, a vector of at most `N` elements, viewed as a sequence.
- `src/linear_map.rs`: `LinearMap<K, V, N>`, a map kept as a list of at most `N` entries
  with distinct keys; viewed as a map, with the stored order for its iterators.
- `src/string.rs`: `String<N>`, at most `N` bytes of UTF-8, viewed as its bytes; characters
  are encoded and decoded against vstd's UTF-8 definitions.
- `src/ring_buffer.rs`: `RingBuffer<T, N>`, a first-in first-out queue in a ring of `N`
  slots, viewed as the sequence of queued items, and the index functions of the ring.
- `app/`: the single-producer, single-consumer ring buffer shared between threads through
  atomics, built on the verified index functions.
- `tests/`: the tests, run against the compiled library.
