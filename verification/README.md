# bitmatrix

A bit-matrix memory over a fixed space of 32 000 bits, verified with Verus.
Bitmaps are `roaring::RoaringBitmap`s; every operation on them goes through
`src/bitset.rs`, whose contracts describe a bitmap by the set of integers it holds.

- `layout`: the seven regions and their sub-layouts, reading a region, dilation.
- `taxonomy`: phases, coherence classes, bit roles and the cloud of role bitmaps.
- `rubics`: sugar and spice modifiers, cube encoding and decoding, the dance.
- `field`: field layers, memories and the memory store.
- `matrix`: overlap queries of all memories at once.
- `numbers`: number columns stored as bit planes.
- `named`: values held under distinct names.
- `waistore`: the segmented row store with predicates and number columns.
- `history`: what a store shows after a history of appends, deletes, seals and
  compactions.
- `popcount`, `mera`, `braid`: bit agreement, MERA towers, braids.

`app/` holds what works on floating point: the phase of a density and the
Jaccard similarity of two braids.
