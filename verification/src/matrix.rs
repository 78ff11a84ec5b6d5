//! Batch inference: the exact layers of all memories as the rows of a bit matrix,
//! multiplied with query bitmaps.
use vstd::prelude::*;
use roaring::RoaringBitmap;
use crate::bitset::{bits, bm_new, bm_max, bm_len, bm_and};
use crate::field::MemoryStore;
use crate::layout::TOTAL_BITS;

verus! {

/// The overlap counts of each row with the query: the size of the intersection,
/// truncated to 32 bits.
pub open spec fn overlap_counts(rows: Seq<Set<u32>>, query: Set<u32>) -> Seq<u32> {
    rows.map_values(|row: Set<u32>| row.intersect(query).len() as u32)
}

/// The bits of all the sets together.
pub open spec fn all_bits_of(rows: Seq<Set<u32>>) -> Set<u32> {
    Set::new(|x: u32| exists|i: int| 0 <= i < rows.len() && #[trigger] rows[i].contains(x))
}

/// The column count: one past the highest bit when some bit above 0 is set, else `TOTAL_BITS`.
pub open spec fn cols_for(rows: Seq<Set<u32>>, cols: u32) -> bool {
    if exists|x: u32| #[trigger] all_bits_of(rows).contains(x) && x > 0 {
        &&& all_bits_of(rows).contains((cols - 1) as u32)
        &&& cols >= 1
        &&& forall|x: u32| #[trigger] all_bits_of(rows).contains(x) ==> x < cols
    } else {
        cols == TOTAL_BITS
    }
}

#[derive(Debug, Clone)]
pub struct BitMatrix {
    rows: Vec<RoaringBitmap>,
    id_map: Vec<u32>,
    cols: u32,
}

impl BitMatrix {
    /// The bits of each row.
    pub closed spec fn rows_spec(&self) -> Seq<Set<u32>> {
        self.rows@.map_values(|r: RoaringBitmap| bits(r))
    }

    /// The memory id of each row.
    pub closed spec fn ids_spec(&self) -> Seq<u32> {
        self.id_map@
    }

    pub closed spec fn cols_spec(&self) -> u32 {
        self.cols
    }

    /// One row per memory of the store: its exact layer, under the memory's id.
    pub fn build(store: &MemoryStore) -> (r: Self)
        requires
            store.wf(),
            forall|i: int| 0 <= i < store.memories_spec().len() ==> !bits(
                #[trigger] store.memories_spec()[i].field.exact,
            ).contains(u32::MAX),
        ensures
            r.rows_spec().len() == store.memories_spec().len(),
            forall|i: int| 0 <= i < store.memories_spec().len() ==> #[trigger] r.rows_spec()[i] == bits(
                store.memories_spec()[i].field.exact,
            ),
            r.ids_spec().len() == store.memories_spec().len(),
            forall|i: int| 0 <= i < r.ids_spec().len() ==> #[trigger] r.ids_spec()[i] == i,
            cols_for(r.rows_spec(), r.cols_spec()),
    {
        let ids = store.all_ids();
        let n = ids.len();
        let mut rows: Vec<RoaringBitmap> = Vec::new();
        let mut max_col: u32 = 0;
        let ghost mems = store.memories_spec();
        for k in 0..n
            invariant
                n == ids@.len(),
                n == mems.len(),
                mems == store.memories_spec(),
                store.wf(),
                forall|i: int| 0 <= i < ids@.len() ==> ids@[i] == i,
                forall|i: int| 0 <= i < mems.len() ==> !bits(#[trigger] mems[i].field.exact).contains(u32::MAX),
                rows@.len() == k,
                forall|i: int| 0 <= i < k ==> #[trigger] bits(rows@[i]) == bits(mems[i].field.exact),
                forall|i: int, x: u32| 0 <= i < k && #[trigger] bits(rows@[i]).contains(x) ==> x <= max_col,
                max_col > 0 ==> exists|i: int| 0 <= i < k && #[trigger] bits(rows@[i]).contains(max_col),
        {
            let id = ids[k];
            match store.get(id) {
                Some(mem) => {
                    let ghost prev = max_col;
                    let ghost old_rows = rows@;
                    match bm_max(&mem.field.exact) {
                        Some(m) => {
                            if m > max_col {
                                max_col = m;
                            }
                        },
                        None => {},
                    }
                    rows.push(mem.field.exact.clone());
                    assert(bits(rows@[k as int]) == bits(mems[k as int].field.exact));
                    assert forall|i: int, x: u32| 0 <= i < k + 1 && #[trigger] bits(rows@[i]).contains(x)
                        implies x <= max_col by {
                        if i < k {
                            assert(x <= prev);
                        }
                    }
                    proof {
                        if max_col > 0 {
                            if max_col == prev {
                                let i0 = choose|i: int| 0 <= i < k && #[trigger] bits(old_rows[i]).contains(prev);
                                assert(rows@[i0] == old_rows[i0]);
                                assert(bits(rows@[i0]).contains(max_col));
                            } else {
                                assert(bits(rows@[k as int]).contains(max_col));
                            }
                        }
                    }
                },
                None => {
                    rows.push(bm_new());
                },
            }
        }
        let ghost row_sets = rows@.map_values(|r: RoaringBitmap| bits(r));
        assert forall|x: u32| #[trigger] all_bits_of(row_sets).contains(x) implies x <= max_col by {
            let i = choose|i: int| 0 <= i < row_sets.len() && #[trigger] row_sets[i].contains(x);
            assert(bits(rows@[i]).contains(x));
        }
        proof {
            if max_col > 0 {
                let i0 = choose|i: int| 0 <= i < n && #[trigger] bits(rows@[i]).contains(max_col);
                assert(row_sets[i0].contains(max_col));
                assert(all_bits_of(row_sets).contains(max_col));
                assert(bits(mems[i0].field.exact).contains(max_col));
                assert(max_col < u32::MAX);
            }
        }
        let cols = if max_col > 0 { max_col + 1 } else { TOTAL_BITS };
        Self { rows, id_map: ids, cols }
    }

    /// The number of columns the matrix was built with.
    pub fn cols(&self) -> (r: u32)
        ensures
            r == self.cols_spec(),
    {
        self.cols
    }

    /// For each row, the number of bits it shares with the query.
    pub fn binary_matmul(&self, query: &RoaringBitmap) -> (r: Vec<u32>)
        ensures
            r@ == overlap_counts(self.rows_spec(), bits(*query)),
    {
        let n = self.rows.len();
        let mut counts: Vec<u32> = Vec::new();
        for i in 0..n
            invariant
                n == self.rows@.len(),
                counts@.len() == i,
                forall|k: int| 0 <= k < i ==> #[trigger] counts@[k] == overlap_counts(
                    self.rows_spec(),
                    bits(*query),
                )[k],
        {
            let shared = bm_and(&self.rows[i], query);
            counts.push(bm_len(&shared) as u32);
        }
        assert(counts@ =~= overlap_counts(self.rows_spec(), bits(*query)));
        counts
    }

    /// Each memory id paired with the number of bits its row shares with the stimulus
    /// (as many pairs as there are both ids and rows).
    pub fn query_overlaps(&self, stimulus: &RoaringBitmap) -> (r: Vec<(u32, u32)>)
        ensures
            r@.len() == if self.ids_spec().len() < self.rows_spec().len() {
                self.ids_spec().len()
            } else {
                self.rows_spec().len()
            },
            forall|i: int| 0 <= i < r@.len() ==> #[trigger] r@[i] == (
                self.ids_spec()[i],
                overlap_counts(self.rows_spec(), bits(*stimulus))[i],
            ),
    {
        let counts = self.binary_matmul(stimulus);
        let n = if self.id_map.len() < counts.len() { self.id_map.len() } else { counts.len() };
        let mut pairs: Vec<(u32, u32)> = Vec::new();
        for i in 0..n
            invariant
                n <= self.id_map@.len(),
                n <= counts@.len(),
                n == if self.ids_spec().len() < self.rows_spec().len() {
                    self.ids_spec().len()
                } else {
                    self.rows_spec().len()
                },
                counts@ == overlap_counts(self.rows_spec(), bits(*stimulus)),
                pairs@.len() == i,
                forall|k: int| 0 <= k < i ==> #[trigger] pairs@[k] == (self.ids_spec()[k], counts@[k]),
        {
            pairs.push((self.id_map[i], counts[i]));
        }
        pairs
    }

    /// The overlaps of every head, in order.
    pub fn query_multi_head(&self, heads: &[RoaringBitmap]) -> (r: Vec<Vec<(u32, u32)>>)
        ensures
            r@.len() == heads@.len(),
            forall|h: int, i: int| 0 <= h < heads@.len() && 0 <= i < r@[h]@.len() ==> (
            #[trigger] r@[h]@[i]) == (
                self.ids_spec()[i],
                overlap_counts(self.rows_spec(), bits(heads@[h]))[i],
            ),
            forall|h: int| 0 <= h < heads@.len() ==> (#[trigger] r@[h])@.len() == if self.ids_spec().len()
                < self.rows_spec().len() {
                self.ids_spec().len()
            } else {
                self.rows_spec().len()
            },
    {
        let n = heads.len();
        let mut all: Vec<Vec<(u32, u32)>> = Vec::new();
        for h in 0..n
            invariant
                n == heads@.len(),
                all@.len() == h,
                forall|g: int, i: int| 0 <= g < h && 0 <= i < all@[g]@.len() ==> (
                #[trigger] all@[g]@[i]) == (
                    self.ids_spec()[i],
                    overlap_counts(self.rows_spec(), bits(heads@[g]))[i],
                ),
                forall|g: int| 0 <= g < h ==> (#[trigger] all@[g])@.len() == if self.ids_spec().len()
                    < self.rows_spec().len() {
                    self.ids_spec().len()
                } else {
                    self.rows_spec().len()
                },
        {
            all.push(self.query_overlaps(&heads[h]));
        }
        all
    }
}

} // verus!
