# halo2_tpch

Witness computation for Halo2 circuits over TPC-H queries 3 and 18 on
integer-encoded tables, verified with Verus.

- `src/` is the verified library:
  - `sort.rs`: stable sorting by integer keys and by keys compared
    lexicographically;
  - `table.rs`: columns, semi-joins and anti-joins, equi-joins, selections;
  - `aggregate.rs`: projections, same-group flags, running sums, group totals;
  - `q18.rs`, `q3.rs`: the witness of each query's circuit, its exact
    specification, and laws of the query's joins, groupings and orderings.
- `app/` holds the circuits (configuration, region layout and proving glue
  over `halo2_proofs`). They lay out the library's witness and constrain it
  only with plain gates (running sums, join-key matches); comparison and
  permutation gadgets are not part of this crate.
- `tests/` runs the library on concrete tables.
