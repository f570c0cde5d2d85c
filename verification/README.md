# vec_belt

A vector that grows in fragments, for many threads that append whole batches and one that takes
everything off at once. The library is written and proved in Verus.

A batch goes behind what is there already, and its append returns the index of its first element. A
batch that does not fit into the last fragment brings a new fragment, as large as the belt then is
long, so that the fragments grow exponentially. Clearing the belt moves everything into one piece,
hands it to a closure, and leaves one fragment with room for as much again.

- `src/` is the verified library. `belt.rs` holds the belt, `fragment.rs` the fragments and the memory
  that they need, `transfer.rs` what can be appended, and `consume.rs` what a clear hands out.
  `shared_belt.rs` holds the belt that threads take turns at, `len_word.rs` the word in which they
  reserve room and take the lock, and `shared_word.rs` what can be done to such a word. `laws.rs` and
  `interleaving.rs` prove what holds over several calls and over any mix of steps of several threads,
  and `agreement.rs` that the turns at a shared belt are such steps.
- `app/` puts the shared belt behind the length word, as one value for any number of threads.
- `tests/` runs the library.

What is taken on trust is the behaviour of a few functions of `crossbeam-utils`, `likely_stable` and
the standard library. Each such function is marked `Trusted` where its contract stands; beside them a
few outside types are declared, and two spec functions name what a word holds and what it began with.
