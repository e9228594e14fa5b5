# oui

A layout and event library for immediate-mode user interfaces, verified with
Verus. A `Context` holds a forest of items; each item has anchoring flags,
margins, a requested size, neighbours to anchor to, a tag, an event handler and
an optional region of a shared byte pool. `layout` sizes and positions the tree
of the root, `process` hit-tests the cursor and tracks the hot and the active
item.

Layout of the sources:

- `src/geom.rs`: `Vec2`, `Rect`, `max`, `min`.
- `src/flags.rs`: layout and event flags, `ItemState`.
- `src/context.rs`: items, the context, its mathematical model
  (`ContextModel`) and its consistency invariant, and the item accessors.
- `src/context/tree.rs`: appending a child, ancestry and depth facts.
- `src/context/hit.rs`: hit testing, notifications and event processing.
- `src/context/layout.rs`: the layout passes and their specification.
- `src/context/layable.rs`: when the layout is sure to complete, and a check for it.
- `src/context/data.rs`: the per-item data pool.
- `src/context/laws.rs`: properties that relate several operations.
- `tests/`: scenarios run against the compiled library.
