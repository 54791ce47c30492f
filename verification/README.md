# ironbase_core

Indexing and query-matching core of the IronBase document store, written in
Verus: the executable code carries `requires`/`ensures` contracts, and the
verifier proves them.

- `src/` — the verified library.
  - `index/key.rs`: index keys, their total order (with its laws), and the
    upper bound of prefix scans.
  - `index/btree.rs`: the B+ tree — insert with splits, delete, point
    search, statistics (histogram, most common values), loading checks.
  - `index/scan.rs`: range counting and ordered scans with skip and limit.
  - `index/plan_ranges.rs`: the key ranges a query plan scans on its index
    (`PlanRanges::from_plan`; the integer/float split of a numeric range is
    computed by the application and handed in), counted or scanned together.
  - `index/page.rs`: the page layout of index files.
  - `index/extract.rs`: what an index reads of a document and the keys it
    derives from it (multikey and compound keys).
  - `index/manager.rs`: the indexes of one collection — creation under
    names unique across the kinds it holds, lookup, listing for planners, documents
    added, removed and checked against unique indexes, change marks.
  - `index/fuzzy.rs`, `index/legacy.rs`, `index/vector_manager.rs`: the
    other index kinds and the registry of vector indexes.
  - `query/`: JSON values, the query operators (`$eq`, `$in`, `$type`,
    `$regex`, ...), and `filter.rs`: matching a document against a filter
    (field conditions, `$and`/`$or`/`$nor`/`$not`, `$elemMatch`, the
    `$regex`/`$options` pair, the `$**` wildcard); `expr.rs`: `$expr`
    comparisons and `$and`/`$or`/`$not`. What computes in floating point
    (`$fuzzy` scores, `$expr` arithmetic and `$substr`) goes to a
    `FloatOperators` evaluator (`matches_filter_with`); `matches_filter`
    without one refuses it.
  - `logging.rs`, `limits.rs`, `text.rs`, `assoc.rs`, `table.rs`: levels,
    limits, and helpers on strings, name-keyed tables and sorting by name.
- `app/` — ordinary Rust around it: file I/O of index files, the global log
  level, floating-point estimates and similarity scores, the evaluator of
  `$fuzzy` scores and computed `$expr` operands (`float_operators.rs`), JSON
  conversions, parallel helpers.
- `tests/` — tests run against the compiled library.

Floats are held in the library by their bits or by an order rank; the
application converts.
