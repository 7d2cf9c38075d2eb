# doublets

A store of links, each a triple `(index, source, target)`, verified with Verus.

- `src/` is the library. `traits` states the store interface (`Links`, `Doublets`,
  `DoubletsExt`) over a model of the store as its links in index order (`model`);
  `unit` is a store held in memory, `memory` a store addressed by id slices;
  `handler` holds the callbacks a store reports to; `decorators` wrap a store with
  policy (uniqueness, usages, cascading deletion, constant resolution, logging text);
  `laws` proves what holds across operations; `ffi` holds the values of the C
  interface; `small` gathers links into a `SmallVec`.
- `app/` is the part that reaches outside the process: the asynchronous front of the
  memory store, the C interface and its log handle, the logging decorator that writes
  to an `io::Write`, parallel iteration with rayon, and the error messages.
- `tests/` runs the library on concrete stores.

## Scope

- Links and stores are over `u64` addresses. The C interface exports the `u64`
  functions by hand; the attribute macro that would generate one export per address
  type is compile-time code generation (it rewrites syntax trees with unstable
  compiler features) and is not part of this crate.
- The store behind the C interface is the in-memory `unit::Store`: the path it is
  given is checked but no file is mapped.
- Each decorator wraps a plain store and states its effect over that store's model.
  A decorator is not itself a store (`Links`/`Doublets` are not implemented for
  decorators): the store contracts state the exact effect of each primitive, which a
  decorator that rejects or resolves an operation does not have, so decorators are
  applied one at a time rather than stacked.
