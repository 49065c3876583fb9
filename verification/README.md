# adona_sim

A strategic simulation of an economy and a factional war, in which
everything important is a real, owned, located, provenance-tracked record:
lots of goods, serial assets, components, factories, convoys, markets,
escrowed money, formations and intel. It keeps no floats, no unordered maps
and seeds its random numbers from the world, so the same inputs replay the
same way. The library is written in Verus: every function carries a
contract, and the laws its contracts state (money is conserved, split and
merge keep the root origins of what they combine, the log only grows,
production completes with this job's provenance, every operation that
creates or configures records keeps the hard invariants, and so on) are
proved.

## Layout

- `src/` — the verified library.
  - `world.rs` holds the world record, its mathematical view (`WorldView`),
    the well-formedness invariant every operation keeps, and the daily
    `tick` with its phases.
  - One module per domain: `actors`, `goods` (lots, split, merge, lineage),
    `assets`, `production`, `markets`, `convoys`, `stockpiles`, `locations`,
    `intel`, `toe`, `faction_ai`, `combat`, `war`, `content`, `tiers`,
    `seed` (building a world from a parsed seed description), `storage`
    (an in-memory event store and the quarter codec), `invariants`
    (the hard-invariant checker, proved exact against its specification).
  - Support: `table` (an ordered id-keyed table with a map view), `arith`
    (saturating arithmetic), `decimal` (numerals for messages), `rng`,
    `time`, `ids`, `events`, `error`.
- `tests/` — scenario tests and concrete checks of formulas, errors and
  laws.
- `app/` — the program around the library: a demo narration, a text
  observer report, loading a seed file from JSON, an event codec, and the
  PostgreSQL event store.
