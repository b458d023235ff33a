# kanon

Anonymity checks — k-anonymity, l-diversity and t-closeness — over the
output of an object-centric binding box, verified with Verus.

A policy names quasi-identifiers (a pattern, a protected variable, a source
variable and the attribute read from it), sensitive attributes and the
parameters k, l and t. The library decides which quasi-identifiers a binding
box activates, computes each protected element's source sets and
fingerprint, partitions the protected elements into equivalence classes, and
evaluates the three properties class by class, with their limits (k_max,
l_max, t_min) and the elements and values at risk.

## Layout

- `src/` — the verified library.
  - `binding`, `ocel`: binding boxes, bindings and the event log as plain data.
  - `policy`: patterns, quasi-identifiers, policies and their validation.
  - `activation`: predicate compatibility, matchings, active binding sets.
  - `fingerprint`: source sets, marginal fingerprints, equivalence classes.
  - `partition`: laws of the class partition (layout, uniqueness, agreement
    of the context with the fingerprint classes).
  - `properties`: the evaluation context, k/l/t, their limits and risks.
  - `report`: the assembled report of a policy evaluation.
  - `info`: log overview (relationship statistics, sample identifiers).
  - `value`, `order`, `sorting`, `tally`, `assoc`, `text`, `fraction`:
    values and their order, sorting, counting, association lists,
    decimal rendering and exact fractions.
- `tests/` — tests of the library on concrete values.
- `app/` — the command-line harness: loading an OCEL with `process_mining`,
  reading binding-box outputs from JSON, timing the experiments, and the
  serialisable copies of the report types.

Floating-point values do not enter the library: float attributes are carried
by an order-preserving integer key, and t, EMDs and t_min are exact fractions.
