# indexer_lib

A product search index for the browser, verified with Verus.

- `src/` is the verified library: the product container built from a feed
  (`data`), the n-gram tree and hit lists, and the moves the fuzzy search may take
  through the tree (`ngram`), the follower counts of
  grams (`ngramindex`), the classic indexes of categories, tags and
  orderings (`classic_indexes`), the selection state behind the browser
  handles (`js_interactable`), and the compact binary format with its
  round-trip laws (`serialize`). The hash maps of `ahash` are reached through
  the trusted wrappers in `hashing`.
- `tests/` runs the library on concrete products.
- `app/` is the program around it: reading the JSON feed, parsing prices,
  lower-casing texts, the float weighing of the fuzzy search's paths and the
  WebAssembly bindings.
