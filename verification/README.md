# turbovec-pg-engine

The engine of a Postgres vector index over [turbovec](https://crates.io/crates/turbovec),
written in Verus: Rust whose behaviour is stated in contracts and proved.

* `src/` is the library. A segmented index (`segment`) takes inserts and deletes one
  at a time over vector indexes that are built once; its durable form
  (`segment::store`, `segment::opening`) commits each generation by replacing one
  pointer file; `tid` maps heap pointers to vector ids; `registry` holds the named
  indexes of a backend.
* `tests/` runs it, with turbovec linked.
* `app/` is what the library does not do itself: floating-point vectors and scores,
  files, JSON, and the SQL functions.

## What is proved

* A search over all segments finds exactly the best `k` of the live ids, and a
  filtered search exactly the best `k` of the ids that are allowed and live, given
  that each segment finds its own best (`exactness`, `topk`). How the vectors are cut
  into segments does not show in the answer, up to the choice among equal scores.
* Every live id is in exactly one segment, and stays retrievable through adding,
  sealing, removing, persisting and opening; a deleted id does not come back (`laws`,
  `exactness`, `disk`).
* A sync is atomic. Whatever part of it took place, opening the store finds the
  generation before, until the last write; then it finds the index as it was synced,
  with the same vectors under the same ids (`disk`).
* Sealed files are written once, a sync writes only what is new, and collecting old
  generations never touches a file that is needed (`disk`, `names`).

## What is believed

turbovec is not verified. What the proofs take from it is stated in `src/idmap.rs`,
one function at a time: the dimension and bit width of an index, which ids and vectors
it holds, that removing takes out exactly one, and that an image gives all of this
back. Encoding and scoring are handed in by the caller, and the contracts speak of
whatever they answer.
