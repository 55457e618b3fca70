# genesis

The verified core of Genesis, an open-ended evolution simulator in which
particles carry genomes of chemical reactions, bond into groups and
reproduce.

- `src/` is the library, written in Verus: every function carries a
  contract, and the `lemma_*` proof functions state properties that hold
  across calls (bonds stay symmetric under forming, breaking and compaction;
  grouping commutes with compaction; loading a save gives the store as compaction
  leaves it; grid queries return exactly the particles of the neighbouring
  cells; organism detection gives one organism per bonded group of at least
  two particles; no organism mates twice in a round; cultural memory stays
  bounded; and more).
- The organism-level rules (detection and lineage, cell roles, symbols,
  culture, meta-cognition, symbiogenesis, sexual pairing and the tick
  schedule) take the outcomes of geometric tests and chance draws as plain
  values, so that every decision they make is stated and proved.
- `tests/` exercises the library on concrete values.
- `app/` is the command-line program: it runs the simulation headless under
  Bevy, with the floating-point physics and chemistry, and calls the library
  for all bookkeeping.
