# Query-execution building blocks, verified

A Verus library of the data structures and algorithms a query engine is
built from, each with its behaviour stated as a contract and proved.

- `sort`: insertion sort, merge sort (both stable), quicksort, a binary heap
  and heapsort, a k-way merge of sorted streams, an external sort with
  bounded memory and `top_k`.
- `hash_maps`: an open-addressing hash map with tombstones, a split-block
  Bloom filter and an LRU cache.
- `trees`: a binary search tree, an AVL map (kept balanced, so its height is
  logarithmic), a splay tree, a trie, an n-ary boolean expression tree with
  an optimizer that never changes what an expression evaluates to, and two
  ordered sets.
- `mongo` and `stages`: pull-based execution stages (scan, filter,
  limit/skip, hash aggregation, hash join); every stage is described by the
  rows it produces after `open`.
- `bloom_filter` and `sorting`: the Bloom filter with a default-hasher
  helper, and the two comparison sorts under short names.

`app/` sizes a Bloom filter from a false-positive rate, which needs floating
point and so stays outside the verified library.
