# homedb

An embedded, ordered key-value index whose behaviour is stated in contracts and proved with Verus.

- `src/` is the library. From the bottom up: node buffers (`bytes`, `record_sizes`, `node_layout`,
  `varlen_node_common`, `record_ops`, `var_node_ops`, `node_search`), the B-tree (`btree`, `query`,
  `range_query`, `put`, `split`, `remove`, `merge`, `merge_plan`, `settled`, `variants`) over a storage
  (`underlying`), indices in one tree or spread over several (`unsharded_btree`, `sharded_btree`,
  with `partition` and `registry`), iteration (`iterator`), and tables (`table_index`, `table`).
  `tree_model` says what a stored tree is, `contents` what a sequence of entries is, and `laws` what
  holds of all operations together.
- `tests/` compares trees, indices and tables with the ordered map of the standard library.
- `app/` holds what threads need to share trees and tables: locks, operation numbers and traces.

A tree stands for its entries in key order. Every operation says what it returns and what becomes of
these entries; `exhausted` and `reliable` say when a storage may refuse a request, and `failures` with
which errors. No put and no removal that succeeds leaves a node or an overflow record behind that the
tree does not use, and no removal ends before a walk finds nothing to merge.
