# vec_impl

A growable vector with its own capacity policy (`MyVec`), and the data
structures built on it: a stack (`MyStack`), binary heaps (`MyHeap`,
`MyMaxHeap`, `MyMinHeap`), keyed heaps that keep values beside their keys
(`MyHeapKeys`, and its fixed-direction forms `MyMaxHeapKeys`,
`MyMinHeapKeys`), an open-addressing hash set
(`MyHashSet1`), and the all-nearest-smaller-values computation
(`compute_ansv`) that uses the stack.

Every function in `src/` is verified with Verus against its contract,
except two trusted wrappers around single std calls, whose contracts are
believed: `slice_swap` (the slice method `swap`) and `hash_into`
(`Hash::hash`, about which nothing is claimed).  The
heaps are generic over `TotalPreorder` (in `src/order.rs`), a total preorder
with an executable comparison; it is implemented for the common integer
types, `char` and `KeyWithOffset`, which orders by key alone.

- `src/vec.rs`: `MyVec`, its capacity policy and its by-value iterator.
- `src/stack.rs`: `MyStack`.
- `src/heap.rs`: heaps, the exact sift-up and sift-down steps as spec
  functions with their proofs, keyed heaps.
- `src/hash.rs`: `MyHashSet1`, the probing model and its laws.
- `src/ansv.rs`: nearest smaller values with a stack of candidates.
- `app/lib.rs`: printing (`Display`-style formatting) and a file-driven
  replay of hash set operations.
