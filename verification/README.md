# futurelab

Poll-based futures with their combinators and executors, together with a few
small exercises on vectors, strings, calendar events and tries, written in
Verus with their contracts proved.

- `src/future.rs`: the `Future` trait, `Poll`, and the combinators
  `immediate`, `map`, `join` and `and_then`. Every transition of a combinator
  is a verified function taking what the inner futures answered.
- `src/executor.rs`: the `Task` view of a future of `()` (and `Runnable`, what a
  boxed task of any type offers), the blocking and the
  single-threaded executor, one step at a time.
- `src/positions.rs`: removing elements of a vector by position.
- `src/vectors.rs`: `add_n`, `add_n_inplace`, `dedup`, with the laws of
  `dedup`.
- `src/words.rs`: `first_word`.
- `src/password.rs`: what the password-guessing game does with a line read.
- `src/event.rs`: calendar events and their conflicts.
- `src/trie.rs`: a trie of strings.
- `app/`: the `Executor` trait and the loops that run the executors until
  their futures complete (including a multi-threaded executor), and the
  password-guessing game on standard input.
