# temple

The Temple of Atzoatl builder advisor: what to kill and which corridors to
open in the incursion the player is standing in, with every contract proved by
Verus.

## Layout

`src/` is the verified library.

- `lattice`, `masks`, `doorset`: the 13-slot board, its corridors, slot bit
  masks and the door set.
- `state`: the board a read produces, the door graph's components, walks and
  hop distances, and the laws of opening a door.
- `strategy`, `reading`: lines, tiers and offer kinds; what one screen read
  hands the advisor, and the panel-level confidence over the two corridor
  families.
- `rules`: the door enumeration and the priority chain (RV, RU, R1-apex, RD,
  R2, R1 gradient, RS) with the architect rules (R4 and its carve-out, RC, RT,
  the reroll), and the one-line reasons.
- `convenience`: the door to open when nothing rides on the choice, and the
  walking measures it reports.
- `rollout`: the seeded generator, the line valuation and the finished-temple
  simulation (drop pool, kills, upgrade rooms, explosive charges, the default
  door policy, the walk and the tally a price table reads).
- `advice`: R5, the warnings, the judging of every legal move, and the labels
  a decision is printed with.
- `ranking`: the order of the recommendations, the kill by expected value
  with the architect rules reordering the noise band and the door set by the
  rule chain, from each option's place and reach in expected-value order.
- `ink`, `markers`: the seal ink as a pixel graph and its connected blobs;
  reading the diamond's seals from them (merge, size gates, order, and the
  count check against the room's degree), and settling the current room's
  corridors from the seals.
- `drops`, `dump`, `search`: the drop table's vocabulary, the debug dump's
  records and directory name, the anchor search's windows.
- `fixtures`, `cases`: the boards the tests are written against.

`app/` is ordinary Rust around it: the floating-point pixel readers (corridor
gold fractions, each pixel's seal-ink colour and the size gates, the seals'
angular matching to neighbours), the
market snapshot's wire mirror, the serialisable dump records, the rule
layer's noise margin with the pricing that turns rollout estimates into the
ranking's counts, and the advice for one decision assembled around them.

`tests/` runs the library on the hand-encoded cases and the laws' examples.
