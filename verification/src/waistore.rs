//! WAIStore: rows with tag predicates and bit-plane number columns, written into a
//! mutable head, sealed into segments, and compacted.
use vstd::prelude::*;
use roaring::RoaringBitmap;
use crate::bitset::{
    bits, bm_new, bm_insert, bm_or, bm_and, bm_sub, bm_xor, bm_or_assign, bm_and_assign, bm_sub_assign,
    bm_values,
};
use crate::named::{
    Named, map_of, names_of, lemma_map_of_dom, lemma_map_of_index, lemma_map_of_update, lemma_map_of_parallel,
    lemma_take_succ_contains,
};
use crate::numbers::{
    FrozenNumber, MutableNumber, bit64, plane_bit, planes_view, lemma_added_planes_bits,
};
use crate::history::{
    StoreOp, history_holds, lemma_history_new, lemma_history_append, lemma_history_delete, lemma_history_seal,
    lemma_history_compact,
};

verus! {

/// The rows held under `name`, none when the name is absent.
pub open spec fn named_set(m: Map<Seq<char>, RoaringBitmap>, name: Seq<char>) -> Set<u32> {
    if m.contains_key(name) {
        bits(m[name])
    } else {
        Set::empty()
    }
}

/// The rows that have a value in the column `name`, none when the column is absent.
pub open spec fn mutable_rows(m: Map<Seq<char>, MutableNumber>, name: Seq<char>) -> Set<u32> {
    if m.contains_key(name) {
        m[name].exists_spec()
    } else {
        Set::empty()
    }
}

/// Whether plane `i` of the column `name` holds `row`.
pub open spec fn mutable_bit(m: Map<Seq<char>, MutableNumber>, name: Seq<char>, row: u32, i: int) -> bool {
    m.contains_key(name) && plane_bit(m[name].planes_spec(), row, i)
}

/// The rows that have a value in the column `name`, none when the column is absent.
pub open spec fn frozen_rows(m: Map<Seq<char>, FrozenNumber>, name: Seq<char>) -> Set<u32> {
    if m.contains_key(name) {
        bits(m[name].exists)
    } else {
        Set::empty()
    }
}

/// Whether plane `i` of the column `name` holds `row`.
pub open spec fn frozen_bit(m: Map<Seq<char>, FrozenNumber>, name: Seq<char>, row: u32, i: int) -> bool {
    m.contains_key(name) && plane_bit(planes_view(m[name].planes@), row, i)
}

/// The text of each name.
pub open spec fn str_names(names: Seq<&str>) -> Seq<Seq<char>> {
    names.map_values(|s: &str| s@)
}

/// The text of each column name of the numbers of an append.
pub open spec fn number_names(numbers: Seq<(&str, u64)>) -> Seq<Seq<char>> {
    numbers.map_values(|p: (&str, u64)| p.0@)
}

/// Whether one of the numbers of an append is written under `name` with bit `i` set.
pub open spec fn appended_bit(numbers: Seq<(&str, u64)>, name: Seq<char>, i: int) -> bool {
    exists|j: int| 0 <= j < numbers.len() && (#[trigger] numbers[j]).0@ == name && bit64(numbers[j].1, i as u64)
}

#[derive(Debug, Clone)]
pub struct Segment {
    pub rows: RoaringBitmap,
    pub deleted: RoaringBitmap,
    pub predicates: Named<RoaringBitmap>,
    pub numbers: Named<FrozenNumber>,
}

impl Segment {
    /// The rows of the segment that it does not mark deleted.
    pub open spec fn visible(self) -> Set<u32> {
        bits(self.rows).difference(bits(self.deleted))
    }

    pub open spec fn predicate_bits(self, name: Seq<char>) -> Set<u32> {
        named_set(self.predicates.view(), name)
    }

    pub open spec fn number_rows(self, name: Seq<char>) -> Set<u32> {
        frozen_rows(self.numbers.view(), name)
    }

    pub open spec fn number_bit(self, name: Seq<char>, row: u32, i: int) -> bool {
        frozen_bit(self.numbers.view(), name, row, i)
    }

    /// Each name is held once and each number column has at most 64 planes.
    pub open spec fn wf(self) -> bool {
        &&& self.predicates.wf()
        &&& self.numbers.wf()
        &&& forall|i: int| 0 <= i < self.numbers.entries_spec().len()
            ==> (#[trigger] self.numbers.entries_spec()[i]).1.planes@.len() <= 64
    }

    fn empty() -> (r: Self)
        ensures
            r.wf(),
            bits(r.rows) == Set::<u32>::empty(),
            bits(r.deleted) == Set::<u32>::empty(),
            r.predicates.view() == Map::<Seq<char>, RoaringBitmap>::empty(),
            r.numbers.view() == Map::<Seq<char>, FrozenNumber>::empty(),
    {
        Self { rows: bm_new(), deleted: bm_new(), predicates: Named::new(), numbers: Named::new() }
    }

    fn visible_rows(&self) -> (r: RoaringBitmap)
        ensures
            bits(r) == self.visible(),
    {
        bm_sub(&self.rows, &self.deleted)
    }
}

/// The rows that the segments show, each segment hiding only its own deleted rows.
pub open spec fn segments_visible(segs: Seq<Segment>) -> Set<u32>
    decreases segs.len(),
{
    if segs.len() == 0 {
        Set::empty()
    } else {
        segments_visible(segs.drop_last()).union(segs.last().visible())
    }
}

/// The rows that the segments hold under the predicate `name`.
pub open spec fn segments_predicate(segs: Seq<Segment>, name: Seq<char>) -> Set<u32>
    decreases segs.len(),
{
    if segs.len() == 0 {
        Set::empty()
    } else {
        segments_predicate(segs.drop_last(), name).union(segs.last().predicate_bits(name))
    }
}

/// All rows of the segments, deleted or not.
pub open spec fn segments_rows(segs: Seq<Segment>) -> Set<u32>
    decreases segs.len(),
{
    if segs.len() == 0 {
        Set::empty()
    } else {
        segments_rows(segs.drop_last()).union(bits(segs.last().rows))
    }
}

/// All rows that some segment marks deleted.
pub open spec fn segments_deleted(segs: Seq<Segment>) -> Set<u32>
    decreases segs.len(),
{
    if segs.len() == 0 {
        Set::empty()
    } else {
        segments_deleted(segs.drop_last()).union(bits(segs.last().deleted))
    }
}

/// The rows that have a value in the column `name` of some segment.
pub open spec fn segments_number_rows(segs: Seq<Segment>, name: Seq<char>) -> Set<u32>
    decreases segs.len(),
{
    if segs.len() == 0 {
        Set::empty()
    } else {
        segments_number_rows(segs.drop_last(), name).union(segs.last().number_rows(name))
    }
}

/// Whether some segment has a value for `row` in the column `name` with bit `i` set.
pub open spec fn segments_number_bit(segs: Seq<Segment>, name: Seq<char>, row: u32, i: int) -> bool
    decreases segs.len(),
{
    if segs.len() == 0 {
        false
    } else {
        segments_number_bit(segs.drop_last(), name, row, i) || (segs.last().number_rows(name).contains(row)
            && segs.last().number_bit(name, row, i))
    }
}

/// Adds `row` to the rows under `name`, making the entry when there is none.
fn named_insert(m: &mut Named<RoaringBitmap>, name: &str, row: u32)
    requires
        old(m).wf(),
    ensures
        final(m).wf(),
        forall|n: Seq<char>| #[trigger] named_set(final(m).view(), n) == named_set(old(m).view(), n).union(
            if n == name@ { set![row] } else { Set::<u32>::empty() },
        ),
{
    let idx = m.slot(name, bm_new());
    let ghost mid = m.entries_spec();
    proof {
        lemma_map_of_index(mid, idx as int);
    }
    bm_insert(m.value_mut_at(idx), row);
    proof {
        lemma_map_of_update(mid, idx as int, m.entries_spec()[idx as int].1);
        assert(m.entries_spec() == mid.update(idx as int, (mid[idx as int].0, m.entries_spec()[idx as int].1)));
    }
    assert forall|n: Seq<char>| #[trigger] named_set(m.view(), n) == named_set(old(m).view(), n).union(
        if n == name@ { set![row] } else { Set::<u32>::empty() },
    ) by {
        assert(named_set(m.view(), n) =~= named_set(old(m).view(), n).union(
            if n == name@ { set![row] } else { Set::<u32>::empty() },
        ));
    }
}

/// Adds the rows of `b` to the rows under `name`, making the entry when there is none.
fn named_union(m: &mut Named<RoaringBitmap>, name: &str, b: &RoaringBitmap)
    requires
        old(m).wf(),
    ensures
        final(m).wf(),
        forall|n: Seq<char>| #[trigger] named_set(final(m).view(), n) == named_set(old(m).view(), n).union(
            if n == name@ { bits(*b) } else { Set::<u32>::empty() },
        ),
{
    let idx = m.slot(name, bm_new());
    let ghost mid = m.entries_spec();
    proof {
        lemma_map_of_index(mid, idx as int);
    }
    bm_or_assign(m.value_mut_at(idx), b);
    proof {
        lemma_map_of_update(mid, idx as int, m.entries_spec()[idx as int].1);
        assert(m.entries_spec() == mid.update(idx as int, (mid[idx as int].0, m.entries_spec()[idx as int].1)));
    }
    assert forall|n: Seq<char>| #[trigger] named_set(m.view(), n) == named_set(old(m).view(), n).union(
        if n == name@ { bits(*b) } else { Set::<u32>::empty() },
    ) by {
        assert(named_set(m.view(), n) =~= named_set(old(m).view(), n).union(
            if n == name@ { bits(*b) } else { Set::<u32>::empty() },
        ));
    }
}

/// Takes the rows of `d` out of the rows under every name.
fn named_subtract(m: &mut Named<RoaringBitmap>, d: &RoaringBitmap)
    requires
        old(m).wf(),
    ensures
        final(m).wf(),
        forall|n: Seq<char>| #[trigger] named_set(final(m).view(), n) == named_set(old(m).view(), n).difference(
            bits(*d),
        ),
{
    let ghost start = m.entries_spec();
    let n = m.len();
    for i in 0..n
        invariant
            n == m.entries_spec().len(),
            n == start.len(),
            names_of(m.entries_spec()) == names_of(start),
            names_of(start).no_duplicates(),
            forall|k: int| 0 <= k < n ==> (#[trigger] m.entries_spec()[k]).0 == start[k].0,
            forall|k: int| 0 <= k < n ==> bits(#[trigger] m.entries_spec()[k].1) == if k < i {
                bits(start[k].1).difference(bits(*d))
            } else {
                bits(start[k].1)
            },
    {
        let ghost mid = m.entries_spec();
        bm_sub_assign(m.value_mut_at(i), d);
        assert(names_of(m.entries_spec()) =~= names_of(mid));
    }
    assert forall|q: Seq<char>| #[trigger] named_set(m.view(), q) == named_set(old(m).view(), q).difference(
        bits(*d),
    ) by {
        lemma_map_of_parallel(start, m.entries_spec(), q);
        if map_of(start).contains_key(q) {
            let k = choose|k: int| 0 <= k < start.len() && #[trigger] start[k].0@ == q
                && m.entries_spec()[k].0@ == q && map_of(start)[q] == start[k].1 && map_of(m.entries_spec())[q]
                == m.entries_spec()[k].1;
        }
        assert(named_set(m.view(), q) =~= named_set(old(m).view(), q).difference(bits(*d)));
    }
}

/// Every number column has at most 64 planes.
pub open spec fn columns_wf(m: Named<MutableNumber>) -> bool {
    &&& m.wf()
    &&& forall|i: int| 0 <= i < m.entries_spec().len() ==> (#[trigger] m.entries_spec()[i]).1.wf()
}

proof fn lemma_columns_wf_view(m: Named<MutableNumber>, n: Seq<char>)
    requires
        columns_wf(m),
        m.view().contains_key(n),
    ensures
        m.view()[n].wf(),
{
    lemma_map_of_dom(m.entries_spec());
    let i = choose|i: int| 0 <= i < names_of(m.entries_spec()).len() && names_of(m.entries_spec())[i] == n;
    lemma_map_of_index(m.entries_spec(), i);
    assert(m.entries_spec()[i].0@ == n);
}

/// Records `value` for `row` in the column `name`, making the column when there is none.
fn named_add_number(m: &mut Named<MutableNumber>, name: &str, row: u32, value: u64)
    requires
        columns_wf(*old(m)),
    ensures
        columns_wf(*final(m)),
        forall|n: Seq<char>| #[trigger] mutable_rows(final(m).view(), n) == mutable_rows(old(m).view(), n).union(
            if n == name@ { set![row] } else { Set::<u32>::empty() },
        ),
        forall|n: Seq<char>, x: u32, i: int| 0 <= i < 64 ==> #[trigger] mutable_bit(final(m).view(), n, x, i) == (
        mutable_bit(old(m).view(), n, x, i) || (n == name@ && x == row && bit64(value, i as u64))),
{
    let idx = m.slot(name, MutableNumber::new());
    let ghost mid = m.entries_spec();
    proof {
        lemma_map_of_index(mid, idx as int);
        assert(mid[idx as int].1.wf());
    }
    m.value_mut_at(idx).add(row, value);
    let ghost col = m.entries_spec()[idx as int].1;
    proof {
        lemma_map_of_update(mid, idx as int, col);
        assert(m.entries_spec() == mid.update(idx as int, (mid[idx as int].0, col)));
        assert forall|i: int| 0 <= i < m.entries_spec().len() implies (#[trigger] m.entries_spec()[i]).1.wf() by {
            if i != idx {
                assert(m.entries_spec()[i] == mid[i]);
            }
        }
    }
    assert forall|n: Seq<char>| #[trigger] mutable_rows(m.view(), n) == mutable_rows(old(m).view(), n).union(
        if n == name@ { set![row] } else { Set::<u32>::empty() },
    ) by {
        assert(mutable_rows(m.view(), n) =~= mutable_rows(old(m).view(), n).union(
            if n == name@ { set![row] } else { Set::<u32>::empty() },
        ));
    }
    assert forall|n: Seq<char>, x: u32, i: int| 0 <= i < 64 implies #[trigger] mutable_bit(m.view(), n, x, i) == (
    mutable_bit(old(m).view(), n, x, i) || (n == name@ && x == row && bit64(value, i as u64))) by {
        if n == name@ {
            lemma_added_planes_bits(mid[idx as int].1.planes_spec(), row, value, x, i);
        }
    }
}

/// Records in the column every value the frozen column holds, row by row.
fn merge_column(col: &mut MutableNumber, frozen: &FrozenNumber)
    requires
        old(col).wf(),
        frozen.planes@.len() <= 64,
    ensures
        final(col).wf(),
        final(col).exists_spec() == old(col).exists_spec().union(bits(frozen.exists)),
        forall|x: u32, i: int| 0 <= i < 64 ==> #[trigger] plane_bit(final(col).planes_spec(), x, i) == (plane_bit(
            old(col).planes_spec(),
            x,
            i,
        ) || (bits(frozen.exists).contains(x) && plane_bit(planes_view(frozen.planes@), x, i))),
{
    let values = bm_values(&frozen.exists);
    let n = values.len();
    for k in 0..n
        invariant
            n == values@.len(),
            frozen.planes@.len() <= 64,
            forall|x: u32| bits(frozen.exists).contains(x) <==> values@.contains(x),
            col.wf(),
            forall|x: u32| #[trigger] col.exists_spec().contains(x) == (old(col).exists_spec().contains(x)
                || values@.take(k as int).contains(x)),
            forall|x: u32, i: int| 0 <= i < 64 ==> #[trigger] plane_bit(col.planes_spec(), x, i) == (plane_bit(
                old(col).planes_spec(),
                x,
                i,
            ) || (values@.take(k as int).contains(x) && plane_bit(planes_view(frozen.planes@), x, i))),
    {
        let row = values[k];
        assert(values@.contains(row));
        let ghost before = *col;
        match frozen.get(row) {
            Some(val) => {
                col.add(row, val);
                assert forall|x: u32, i: int| 0 <= i < 64 implies #[trigger] plane_bit(col.planes_spec(), x, i) == (
                plane_bit(old(col).planes_spec(), x, i) || (values@.take(k + 1).contains(x) && plane_bit(
                    planes_view(frozen.planes@),
                    x,
                    i,
                ))) by {
                    lemma_added_planes_bits(before.planes_spec(), row, val, x, i);
                    lemma_take_succ_contains(values@, k as int, x);
                    assert(bit64(val, i as u64) == plane_bit(planes_view(frozen.planes@), row, (i as u64) as int));
                }
                assert forall|x: u32| #[trigger] col.exists_spec().contains(x) == (old(col).exists_spec().contains(x)
                    || values@.take(k + 1).contains(x)) by {
                    lemma_take_succ_contains(values@, k as int, x);
                }
            },
            None => {},
        }
    }
    assert(values@.take(n as int) =~= values@);
    assert(col.exists_spec() =~= old(col).exists_spec().union(bits(frozen.exists)));
}

/// Records in the column `name` every value of the frozen column, making the column
/// when there is none.
fn named_merge_column(m: &mut Named<MutableNumber>, name: &str, frozen: &FrozenNumber)
    requires
        columns_wf(*old(m)),
        frozen.planes@.len() <= 64,
    ensures
        columns_wf(*final(m)),
        forall|n: Seq<char>| #[trigger] mutable_rows(final(m).view(), n) == mutable_rows(old(m).view(), n).union(
            if n == name@ { bits(frozen.exists) } else { Set::<u32>::empty() },
        ),
        forall|n: Seq<char>, x: u32, i: int| 0 <= i < 64 ==> #[trigger] mutable_bit(final(m).view(), n, x, i) == (
        mutable_bit(old(m).view(), n, x, i) || (n == name@ && bits(frozen.exists).contains(x) && plane_bit(
            planes_view(frozen.planes@),
            x,
            i,
        ))),
{
    let idx = m.slot(name, MutableNumber::new());
    let ghost mid = m.entries_spec();
    proof {
        lemma_map_of_index(mid, idx as int);
        assert(mid[idx as int].1.wf());
    }
    merge_column(m.value_mut_at(idx), frozen);
    let ghost col = m.entries_spec()[idx as int].1;
    proof {
        lemma_map_of_update(mid, idx as int, col);
        assert(m.entries_spec() == mid.update(idx as int, (mid[idx as int].0, col)));
        assert forall|i: int| 0 <= i < m.entries_spec().len() implies (#[trigger] m.entries_spec()[i]).1.wf() by {
            if i != idx {
                assert(m.entries_spec()[i] == mid[i]);
            }
        }
    }
    assert forall|n: Seq<char>| #[trigger] mutable_rows(m.view(), n) == mutable_rows(old(m).view(), n).union(
        if n == name@ { bits(frozen.exists) } else { Set::<u32>::empty() },
    ) by {
        assert(mutable_rows(m.view(), n) =~= mutable_rows(old(m).view(), n).union(
            if n == name@ { bits(frozen.exists) } else { Set::<u32>::empty() },
        ));
    }
}

/// Takes the rows of `d` out of the rows that have a value in every frozen column; the
/// planes stay as they are.
fn frozen_subtract(m: &mut Named<FrozenNumber>, d: &RoaringBitmap)
    requires
        old(m).wf(),
        forall|i: int| 0 <= i < old(m).entries_spec().len() ==> (#[trigger] old(m).entries_spec()[i]).1.planes@.len() <= 64,
    ensures
        final(m).wf(),
        forall|i: int| 0 <= i < final(m).entries_spec().len() ==> (#[trigger] final(m).entries_spec()[i]).1.planes@.len() <= 64,
        forall|n: Seq<char>| #[trigger] frozen_rows(final(m).view(), n) == frozen_rows(old(m).view(), n).difference(
            bits(*d),
        ),
        forall|n: Seq<char>, x: u32, i: int| #[trigger] frozen_bit(final(m).view(), n, x, i) == frozen_bit(
            old(m).view(),
            n,
            x,
            i,
        ),
{
    let ghost start = m.entries_spec();
    let n = m.len();
    for i in 0..n
        invariant
            n == m.entries_spec().len(),
            n == start.len(),
            names_of(m.entries_spec()) == names_of(start),
            names_of(start).no_duplicates(),
            forall|k: int| 0 <= k < n ==> (#[trigger] m.entries_spec()[k]).0 == start[k].0,
            forall|k: int| 0 <= k < n ==> (#[trigger] m.entries_spec()[k]).1.planes == start[k].1.planes,
            forall|k: int| 0 <= k < n ==> (#[trigger] start[k]).1.planes@.len() <= 64,
            forall|k: int| 0 <= k < n ==> bits(#[trigger] m.entries_spec()[k].1.exists) == if k < i {
                bits(start[k].1.exists).difference(bits(*d))
            } else {
                bits(start[k].1.exists)
            },
    {
        let ghost mid = m.entries_spec();
        bm_sub_assign(&mut m.value_mut_at(i).exists, d);
        assert(names_of(m.entries_spec()) =~= names_of(mid));
    }
    assert forall|q: Seq<char>, x: u32, b: int| #[trigger] frozen_bit(m.view(), q, x, b) == frozen_bit(old(m).view(), q, x, b)
        && frozen_rows(m.view(), q) == frozen_rows(old(m).view(), q).difference(bits(*d)) by {
        lemma_map_of_parallel(start, m.entries_spec(), q);
        if map_of(start).contains_key(q) {
            let k = choose|k: int| 0 <= k < start.len() && #[trigger] start[k].0@ == q
                && m.entries_spec()[k].0@ == q && map_of(start)[q] == start[k].1 && map_of(m.entries_spec())[q]
                == m.entries_spec()[k].1;
        }
        assert(frozen_rows(m.view(), q) =~= frozen_rows(old(m).view(), q).difference(bits(*d)));
    }
    assert forall|q: Seq<char>| #[trigger] frozen_rows(m.view(), q) == frozen_rows(old(m).view(), q).difference(
        bits(*d),
    ) by {
        assert(frozen_bit(m.view(), q, 0, 0) == frozen_bit(old(m).view(), q, 0, 0));
    }
    assert forall|i: int| 0 <= i < m.entries_spec().len() implies (#[trigger] m.entries_spec()[i]).1.planes@.len() <= 64 by {
        assert(m.entries_spec()[i].1.planes == start[i].1.planes);
    }
}

/// Joins the predicates of the segment into `into`.
fn merge_segment_predicates(into: &mut Named<RoaringBitmap>, seg: &Segment)
    requires
        old(into).wf(),
        seg.wf(),
    ensures
        final(into).wf(),
        forall|n: Seq<char>| #[trigger] named_set(final(into).view(), n) == named_set(old(into).view(), n).union(
            seg.predicate_bits(n),
        ),
{
    let ghost es = seg.predicates.entries_spec();
    let ghost base = into.view();
    proof {
        lemma_map_of_dom(es);
    }
    let m = seg.predicates.len();
    for j in 0..m
        invariant
            m == es.len(),
            es == seg.predicates.entries_spec(),
            names_of(es).no_duplicates(),
            into.wf(),
            forall|n: Seq<char>| #[trigger] named_set(into.view(), n) == named_set(base, n).union(
                if names_of(es).take(j as int).contains(n) { seg.predicate_bits(n) } else { Set::<u32>::empty() },
            ),
    {
        let name = seg.predicates.name_at(j);
        let value = seg.predicates.value_at(j);
        proof {
            lemma_map_of_index(es, j as int);
        }
        named_union(into, name.as_str(), value);
        assert forall|n: Seq<char>| #[trigger] named_set(into.view(), n) == named_set(base, n).union(
            if names_of(es).take(j + 1).contains(n) { seg.predicate_bits(n) } else { Set::<u32>::empty() },
        ) by {
            lemma_take_succ_contains(names_of(es), j as int, n);
            assert(named_set(into.view(), n) =~= named_set(base, n).union(
                if names_of(es).take(j + 1).contains(n) { seg.predicate_bits(n) } else { Set::<u32>::empty() },
            ));
        }
    }
    assert(names_of(es).take(m as int) =~= names_of(es));
    assert forall|n: Seq<char>| #[trigger] named_set(into.view(), n) == named_set(base, n).union(seg.predicate_bits(n)) by {
        if !names_of(es).contains(n) {
            assert(!seg.predicates.view().contains_key(n));
            assert(seg.predicate_bits(n) =~= Set::<u32>::empty());
            assert(named_set(base, n).union(Set::<u32>::empty()) =~= named_set(base, n));
        }
    }
}

/// Joins the number columns of the segment into `numbers`.
fn merge_segment_numbers(numbers: &mut Named<MutableNumber>, seg: &Segment)
    requires
        columns_wf(*old(numbers)),
        seg.wf(),
    ensures
        columns_wf(*final(numbers)),
        forall|n: Seq<char>| #[trigger] mutable_rows(final(numbers).view(), n) == mutable_rows(old(numbers).view(), n).union(
            seg.number_rows(n),
        ),
        forall|n: Seq<char>, x: u32, i: int| 0 <= i < 64 ==> #[trigger] mutable_bit(final(numbers).view(), n, x, i) == (
        mutable_bit(old(numbers).view(), n, x, i) || (seg.number_rows(n).contains(x) && seg.number_bit(n, x, i))),
{
    let ghost es = seg.numbers.entries_spec();
    let ghost base = numbers.view();
    proof {
        lemma_map_of_dom(es);
    }
    let m = seg.numbers.len();
    for j in 0..m
        invariant
            m == es.len(),
            es == seg.numbers.entries_spec(),
            names_of(es).no_duplicates(),
            forall|i: int| 0 <= i < es.len() ==> (#[trigger] es[i]).1.planes@.len() <= 64,
            columns_wf(*numbers),
            forall|n: Seq<char>| #[trigger] mutable_rows(numbers.view(), n) == mutable_rows(base, n).union(
                if names_of(es).take(j as int).contains(n) { seg.number_rows(n) } else { Set::<u32>::empty() },
            ),
            forall|n: Seq<char>, x: u32, i: int| 0 <= i < 64 ==> #[trigger] mutable_bit(numbers.view(), n, x, i) == (
            mutable_bit(base, n, x, i) || (names_of(es).take(j as int).contains(n) && seg.number_rows(n).contains(x)
                && seg.number_bit(n, x, i))),
    {
        let name = seg.numbers.name_at(j);
        let value = seg.numbers.value_at(j);
        proof {
            lemma_map_of_index(es, j as int);
            assert(value.planes@.len() <= 64);
        }
        named_merge_column(numbers, name.as_str(), value);
        assert forall|n: Seq<char>| #[trigger] mutable_rows(numbers.view(), n) == mutable_rows(base, n).union(
            if names_of(es).take(j + 1).contains(n) { seg.number_rows(n) } else { Set::<u32>::empty() },
        ) by {
            lemma_take_succ_contains(names_of(es), j as int, n);
            assert(mutable_rows(numbers.view(), n) =~= mutable_rows(base, n).union(
                if names_of(es).take(j + 1).contains(n) { seg.number_rows(n) } else { Set::<u32>::empty() },
            ));
        }
        assert forall|n: Seq<char>, x: u32, i: int| 0 <= i < 64 implies #[trigger] mutable_bit(numbers.view(), n, x, i) == (
        mutable_bit(base, n, x, i) || (names_of(es).take(j + 1).contains(n) && seg.number_rows(n).contains(x)
            && seg.number_bit(n, x, i))) by {
            lemma_take_succ_contains(names_of(es), j as int, n);
        }
    }
    assert(names_of(es).take(m as int) =~= names_of(es));
    assert forall|n: Seq<char>| #[trigger] mutable_rows(numbers.view(), n) == mutable_rows(base, n).union(seg.number_rows(n)) by {
        if !names_of(es).contains(n) {
            assert(!seg.numbers.view().contains_key(n));
            assert(seg.number_rows(n) =~= Set::<u32>::empty());
            assert(mutable_rows(base, n).union(Set::<u32>::empty()) =~= mutable_rows(base, n));
        }
    }
    assert forall|n: Seq<char>, x: u32, i: int| 0 <= i < 64 implies #[trigger] mutable_bit(numbers.view(), n, x, i) == (
    mutable_bit(base, n, x, i) || (seg.number_rows(n).contains(x) && seg.number_bit(n, x, i))) by {
        if !names_of(es).contains(n) {
            assert(!seg.numbers.view().contains_key(n));
        }
    }
}

/// Freezes every number column, keeping its rows and planes.
fn freeze_columns(m: Named<MutableNumber>) -> (r: Named<FrozenNumber>)
    requires
        columns_wf(m),
    ensures
        r.wf(),
        forall|i: int| 0 <= i < r.entries_spec().len() ==> (#[trigger] r.entries_spec()[i]).1.planes@.len() <= 64,
        forall|n: Seq<char>| #[trigger] frozen_rows(r.view(), n) == mutable_rows(m.view(), n),
        forall|n: Seq<char>, x: u32, i: int| #[trigger] frozen_bit(r.view(), n, x, i) == mutable_bit(m.view(), n, x, i),
{
    let ghost src = m.entries_spec();
    let entries = m.into_entries();
    let mut out: Named<FrozenNumber> = Named::new();
    for e in it: entries
        invariant
            it.seq() == src,
            names_of(src).no_duplicates(),
            forall|i: int| 0 <= i < src.len() ==> (#[trigger] src[i]).1.wf(),
            out.wf(),
            out.entries_spec().len() == it.index(),
            forall|j: int| 0 <= j < it.index() ==> (#[trigger] out.entries_spec()[j]).0 == src[j].0,
            forall|j: int| 0 <= j < it.index() ==> bits((#[trigger] out.entries_spec()[j]).1.exists)
                == src[j].1.exists_spec(),
            forall|j: int| 0 <= j < it.index() ==> planes_view((#[trigger] out.entries_spec()[j]).1.planes@)
                == src[j].1.planes_spec(),
    {
        let (name, num) = e;
        let ghost j = it.index();
        assert(names_of(out.entries_spec()) =~= names_of(src).take(j));
        assert(!names_of(src).take(j).contains(name@)) by {
            if names_of(src).take(j).contains(name@) {
                let k = choose|k: int| 0 <= k < j && names_of(src).take(j)[k] == name@;
                assert(names_of(src)[k] == names_of(src)[j]);
            }
        }
        out.push_new(name, num.freeze());
    }
    assert(names_of(out.entries_spec()) =~= names_of(src));
    assert forall|i: int| 0 <= i < out.entries_spec().len() implies (#[trigger] out.entries_spec()[i]).1.planes@.len() <= 64 by {
        assert(planes_view(out.entries_spec()[i].1.planes@).len() == out.entries_spec()[i].1.planes@.len());
    }
    assert forall|n: Seq<char>, x: u32, i: int| #[trigger] frozen_bit(out.view(), n, x, i) == mutable_bit(m.view(), n, x, i)
        && frozen_rows(out.view(), n) == mutable_rows(m.view(), n) by {
        lemma_map_of_parallel(src, out.entries_spec(), n);
        if map_of(src).contains_key(n) {
            let k = choose|k: int| 0 <= k < src.len() && #[trigger] src[k].0@ == n
                && out.entries_spec()[k].0@ == n && map_of(src)[n] == src[k].1 && map_of(out.entries_spec())[n]
                == out.entries_spec()[k].1;
        }
    }
    assert forall|n: Seq<char>| #[trigger] frozen_rows(out.view(), n) == mutable_rows(m.view(), n) by {
        assert(frozen_bit(out.view(), n, 0, 0) == mutable_bit(m.view(), n, 0, 0));
    }
    out
}

#[derive(Debug, Clone)]
pub struct WAIStore {
    head_rows: RoaringBitmap,
    head_deleted: RoaringBitmap,
    head_predicates: Named<RoaringBitmap>,
    head_numbers: Named<MutableNumber>,
    segments: Vec<Segment>,
    next_id: u32,
}

impl WAIStore {
    /// The rows appended since the last seal.
    pub closed spec fn head_rows_spec(&self) -> Set<u32> {
        bits(self.head_rows)
    }

    /// The rows deleted since the last seal.
    pub closed spec fn head_deleted_spec(&self) -> Set<u32> {
        bits(self.head_deleted)
    }

    /// The predicates written since the last seal.
    pub closed spec fn head_predicates_spec(&self) -> Map<Seq<char>, RoaringBitmap> {
        self.head_predicates.view()
    }

    /// The number columns written since the last seal.
    pub closed spec fn head_numbers_spec(&self) -> Map<Seq<char>, MutableNumber> {
        self.head_numbers.view()
    }

    /// The sealed segments, oldest first.
    pub closed spec fn segments_spec(&self) -> Seq<Segment> {
        self.segments@
    }

    /// The id the next append without an id takes.
    pub closed spec fn next_id_spec(&self) -> u32 {
        self.next_id
    }

    /// Names are held once, number columns have at most 64 planes.
    pub closed spec fn wf(&self) -> bool {
        &&& self.head_predicates.wf()
        &&& self.head_numbers.wf()
        &&& forall|i: int| 0 <= i < self.head_numbers.entries_spec().len()
            ==> (#[trigger] self.head_numbers.entries_spec()[i]).1.wf()
        &&& forall|k: int| 0 <= k < self.segments@.len() ==> (#[trigger] self.segments@[k]).wf()
    }

    /// The visible rows: those of the head and those each segment does not mark deleted,
    /// less the rows deleted since the last seal.
    pub open spec fn rows_spec(&self) -> Set<u32> {
        self.head_rows_spec().union(segments_visible(self.segments_spec())).difference(
            self.head_deleted_spec(),
        )
    }

    /// The visible rows held under the predicate `name` in the head or in some segment.
    pub open spec fn predicate_spec(&self, name: Seq<char>) -> Set<u32> {
        named_set(self.head_predicates_spec(), name).union(segments_predicate(self.segments_spec(), name)).intersect(
            self.rows_spec(),
        )
    }

    /// Every row the store holds, deleted or not.
    pub open spec fn all_rows_spec(&self) -> Set<u32> {
        self.head_rows_spec().union(segments_rows(self.segments_spec()))
    }

    /// Every row that the head or some segment marks deleted.
    pub open spec fn all_deleted_spec(&self) -> Set<u32> {
        self.head_deleted_spec().union(segments_deleted(self.segments_spec()))
    }

    /// Every row held under the predicate `name` in the head or some segment.
    pub open spec fn all_predicate_spec(&self, name: Seq<char>) -> Set<u32> {
        named_set(self.head_predicates_spec(), name).union(segments_predicate(self.segments_spec(), name))
    }

    /// Every row with a value in the column `name` in the head or some segment.
    pub open spec fn all_number_rows_spec(&self, name: Seq<char>) -> Set<u32> {
        mutable_rows(self.head_numbers_spec(), name).union(segments_number_rows(self.segments_spec(), name))
    }

    /// Whether the head or some segment has a value for `row` in the column `name` with
    /// bit `i` set.
    pub open spec fn all_number_bit_spec(&self, name: Seq<char>, row: u32, i: int) -> bool {
        (mutable_rows(self.head_numbers_spec(), name).contains(row) && mutable_bit(
            self.head_numbers_spec(),
            name,
            row,
            i,
        )) || segments_number_bit(self.segments_spec(), name, row, i)
    }

    pub fn new() -> (r: Self)
        ensures
            r.wf(),
            r.head_rows_spec() == Set::<u32>::empty(),
            r.head_deleted_spec() == Set::<u32>::empty(),
            r.head_predicates_spec() == Map::<Seq<char>, RoaringBitmap>::empty(),
            r.head_numbers_spec() == Map::<Seq<char>, MutableNumber>::empty(),
            r.segments_spec().len() == 0,
            r.next_id_spec() == 0,
            history_holds(r, Seq::<StoreOp>::empty()),
    {
        let r = Self {
            head_rows: bm_new(),
            head_deleted: bm_new(),
            head_predicates: Named::new(),
            head_numbers: Named::new(),
            segments: Vec::new(),
            next_id: 0,
        };
        proof {
            lemma_history_new(r);
        }
        r
    }

    /// Appends a row with the given tags and numbers, under `row_id` when given and
    /// otherwise under the next id; returns the row's id.
    pub fn append(&mut self, tags: &[&str], numbers: &[(&str, u64)], row_id: Option<u32>) -> (r: u32)
        requires
            old(self).wf(),
            match row_id {
                Some(id) => id < u32::MAX,
                None => old(self).next_id_spec() < u32::MAX,
            },
        ensures
            final(self).wf(),
            r == match row_id {
                Some(id) => id,
                None => old(self).next_id_spec(),
            },
            final(self).next_id_spec() == match row_id {
                Some(id) => if old(self).next_id_spec() > id + 1 { old(self).next_id_spec() } else { (id + 1) as u32 },
                None => (old(self).next_id_spec() + 1) as u32,
            },
            final(self).head_rows_spec() == old(self).head_rows_spec().insert(r),
            final(self).head_deleted_spec() == old(self).head_deleted_spec(),
            final(self).segments_spec() == old(self).segments_spec(),
            forall|n: Seq<char>| #[trigger] named_set(final(self).head_predicates_spec(), n)
                == named_set(old(self).head_predicates_spec(), n).union(
                if str_names(tags@).contains(n) { set![r] } else { Set::<u32>::empty() },
            ),
            forall|n: Seq<char>| #[trigger] mutable_rows(final(self).head_numbers_spec(), n)
                == mutable_rows(old(self).head_numbers_spec(), n).union(
                if number_names(numbers@).contains(n) { set![r] } else { Set::<u32>::empty() },
            ),
            forall|n: Seq<char>, x: u32, i: int| 0 <= i < 64 ==> #[trigger] mutable_bit(
                final(self).head_numbers_spec(),
                n,
                x,
                i,
            ) == (mutable_bit(old(self).head_numbers_spec(), n, x, i) || (x == r && appended_bit(numbers@, n, i))),
            append_step(*old(self), *final(self), str_names(tags@), row_id, r),
            forall|h: Seq<StoreOp>| #[trigger] history_holds(*old(self), h) ==> history_holds(
                *final(self),
                h.push(StoreOp::Append { tags: str_names(tags@), given: row_id, id: r }),
            ),
    {
        let id = match row_id {
            Some(given) => given,
            None => {
                let id = self.next_id;
                self.next_id += 1;
                id
            },
        };
        if row_id.is_some() {
            self.next_id = if self.next_id > id + 1 { self.next_id } else { id + 1 };
        }
        bm_insert(&mut self.head_rows, id);
        let ghost s1 = *self;
        let ghost preds0 = self.head_predicates.view();
        let nt = tags.len();
        for i in 0..nt
            invariant
                nt == tags@.len(),
                self.head_rows == s1.head_rows,
                self.head_deleted == s1.head_deleted,
                self.head_numbers == s1.head_numbers,
                self.segments == s1.segments,
                self.next_id == s1.next_id,
                self.head_predicates.wf(),
                forall|n: Seq<char>| #[trigger] named_set(self.head_predicates.view(), n) == named_set(preds0, n).union(
                    if str_names(tags@).take(i as int).contains(n) { set![id] } else { Set::<u32>::empty() },
                ),
        {
            let ghost before = self.head_predicates.view();
            let ghost done = str_names(tags@).take(i as int);
            named_insert(&mut self.head_predicates, tags[i], id);
            assert(str_names(tags@).take(i + 1) =~= done.push(tags@[i as int]@));
            assert forall|n: Seq<char>| #[trigger] named_set(self.head_predicates.view(), n) == named_set(preds0, n).union(
                if str_names(tags@).take(i + 1).contains(n) { set![id] } else { Set::<u32>::empty() },
            ) by {
                assert(done.push(tags@[i as int]@).contains(n) == (done.contains(n) || n == tags@[i as int]@)) by {
                    if done.push(tags@[i as int]@).contains(n) {
                        let k = choose|k: int| 0 <= k < done.len() + 1 && done.push(tags@[i as int]@)[k] == n;
                        if k < done.len() {
                            assert(done[k] == n);
                        }
                    }
                    if done.contains(n) {
                        let k = choose|k: int| 0 <= k < done.len() && done[k] == n;
                        assert(done.push(tags@[i as int]@)[k] == n);
                    }
                    assert(done.push(tags@[i as int]@)[done.len() as int] == tags@[i as int]@);
                }
                assert(named_set(self.head_predicates.view(), n) =~= named_set(preds0, n).union(
                    if str_names(tags@).take(i + 1).contains(n) { set![id] } else { Set::<u32>::empty() },
                ));
            }
        }
        assert(str_names(tags@).take(nt as int) =~= str_names(tags@));
        let ghost s2 = *self;
        let ghost nums0 = self.head_numbers.view();
        let nn = numbers.len();
        for i in 0..nn
            invariant
                nn == numbers@.len(),
                self.head_rows == s2.head_rows,
                self.head_deleted == s2.head_deleted,
                self.head_predicates == s2.head_predicates,
                self.segments == s2.segments,
                self.next_id == s2.next_id,
                columns_wf(self.head_numbers),
                forall|n: Seq<char>| #[trigger] mutable_rows(self.head_numbers.view(), n) == mutable_rows(nums0, n).union(
                    if number_names(numbers@).take(i as int).contains(n) { set![id] } else { Set::<u32>::empty() },
                ),
                forall|n: Seq<char>, x: u32, b: int| 0 <= b < 64 ==> #[trigger] mutable_bit(self.head_numbers.view(), n, x, b)
                    == (mutable_bit(nums0, n, x, b) || (x == id && appended_bit(numbers@.take(i as int), n, b))),
        {
            let (name, val) = numbers[i];
            let ghost done = number_names(numbers@).take(i as int);
            named_add_number(&mut self.head_numbers, name, id, val);
            assert(number_names(numbers@).take(i + 1) =~= done.push(name@));
            assert forall|n: Seq<char>| #[trigger] mutable_rows(self.head_numbers.view(), n) == mutable_rows(nums0, n).union(
                if number_names(numbers@).take(i + 1).contains(n) { set![id] } else { Set::<u32>::empty() },
            ) by {
                assert(done.push(name@).contains(n) == (done.contains(n) || n == name@)) by {
                    if done.push(name@).contains(n) {
                        let k = choose|k: int| 0 <= k < done.len() + 1 && done.push(name@)[k] == n;
                        if k < done.len() {
                            assert(done[k] == n);
                        }
                    }
                    if done.contains(n) {
                        let k = choose|k: int| 0 <= k < done.len() && done[k] == n;
                        assert(done.push(name@)[k] == n);
                    }
                    assert(done.push(name@)[done.len() as int] == name@);
                }
                assert(mutable_rows(self.head_numbers.view(), n) =~= mutable_rows(nums0, n).union(
                    if number_names(numbers@).take(i + 1).contains(n) { set![id] } else { Set::<u32>::empty() },
                ));
            }
            assert forall|n: Seq<char>, x: u32, b: int| 0 <= b < 64 implies #[trigger] mutable_bit(self.head_numbers.view(), n, x, b)
                == (mutable_bit(nums0, n, x, b) || (x == id && appended_bit(numbers@.take(i + 1), n, b))) by {
                let t0 = numbers@.take(i as int);
                let t1 = numbers@.take(i + 1);
                if appended_bit(t1, n, b) {
                    let j = choose|j: int| 0 <= j < t1.len() && (#[trigger] t1[j]).0@ == n && bit64(t1[j].1, b as u64);
                    if j < i {
                        assert(t0[j] == t1[j]);
                    }
                }
                if appended_bit(t0, n, b) {
                    let j = choose|j: int| 0 <= j < t0.len() && (#[trigger] t0[j]).0@ == n && bit64(t0[j].1, b as u64);
                    assert(t1[j] == t0[j]);
                }
                if n == name@ && bit64(val, b as u64) {
                    assert(t1[i as int] == numbers@[i as int]);
                }
            }
        }
        assert(number_names(numbers@).take(nn as int) =~= number_names(numbers@));
        assert(numbers@.take(nn as int) =~= numbers@);
        proof {
            assert(append_step(*old(self), *self, str_names(tags@), row_id, id));
            assert forall|h: Seq<StoreOp>| #[trigger] history_holds(*old(self), h) implies history_holds(
                *self,
                h.push(StoreOp::Append { tags: str_names(tags@), given: row_id, id }),
            ) by {
                lemma_history_append(*old(self), *self, h, str_names(tags@), row_id, id);
            }
        }
        id
    }

    /// Marks the row deleted.
    pub fn delete(&mut self, row_id: u32)
        requires
            old(self).wf(),
        ensures
            final(self).wf(),
            final(self).head_deleted_spec() == old(self).head_deleted_spec().insert(row_id),
            final(self).head_rows_spec() == old(self).head_rows_spec(),
            final(self).head_predicates_spec() == old(self).head_predicates_spec(),
            final(self).head_numbers_spec() == old(self).head_numbers_spec(),
            final(self).segments_spec() == old(self).segments_spec(),
            final(self).next_id_spec() == old(self).next_id_spec(),
            delete_step(*old(self), *final(self), row_id),
            forall|h: Seq<StoreOp>| #[trigger] history_holds(*old(self), h) ==> history_holds(
                *final(self),
                h.push(StoreOp::Delete { id: row_id }),
            ),
    {
        bm_insert(&mut self.head_deleted, row_id);
        assert forall|h: Seq<StoreOp>| #[trigger] history_holds(*old(self), h) implies history_holds(
            *self,
            h.push(StoreOp::Delete { id: row_id }),
        ) by {
            lemma_history_delete(*old(self), *self, h, row_id);
        }
    }

    /// The visible rows.
    pub fn rows(&self) -> (r: RoaringBitmap)
        ensures
            bits(r) == self.rows_spec(),
    {
        let mut visible = bm_sub(&self.head_rows, &self.head_deleted);
        let n = self.segments.len();
        for k in 0..n
            invariant
                n == self.segments@.len(),
                bits(visible) == bits(self.head_rows).difference(bits(self.head_deleted)).union(
                    segments_visible(self.segments@.take(k as int)),
                ),
        {
            let seg_rows = self.segments[k].visible_rows();
            bm_or_assign(&mut visible, &seg_rows);
            assert(self.segments@.take(k + 1).drop_last() =~= self.segments@.take(k as int));
            assert(bits(visible) =~= bits(self.head_rows).difference(bits(self.head_deleted)).union(
                segments_visible(self.segments@.take(k + 1)),
            ));
        }
        // Apply head-level deletes to sealed segments too
        bm_sub_assign(&mut visible, &self.head_deleted);
        assert(self.segments@.take(n as int) =~= self.segments@);
        assert(bits(visible) =~= self.rows_spec());
        visible
    }

    /// The visible rows held under the predicate `name`.
    pub fn predicate(&self, name: &str) -> (r: RoaringBitmap)
        requires
            self.wf(),
        ensures
            bits(r) == self.predicate_spec(name@),
    {
        let mut result = match self.head_predicates.get(name) {
            Some(b) => b.clone(),
            None => bm_new(),
        };
        let n = self.segments.len();
        for k in 0..n
            invariant
                n == self.segments@.len(),
                forall|j: int| 0 <= j < self.segments@.len() ==> (#[trigger] self.segments@[j]).wf(),
                bits(result) == named_set(self.head_predicates.view(), name@).union(
                    segments_predicate(self.segments@.take(k as int), name@),
                ),
        {
            let seg = &self.segments[k];
            assert(seg.wf());
            match seg.predicates.get(name) {
                Some(p) => {
                    bm_or_assign(&mut result, p);
                },
                None => {},
            }
            assert(self.segments@.take(k + 1).drop_last() =~= self.segments@.take(k as int));
            assert(bits(result) =~= named_set(self.head_predicates.view(), name@).union(
                segments_predicate(self.segments@.take(k + 1), name@),
            ));
        }
        let visible = self.rows();
        bm_and_assign(&mut result, &visible);
        assert(self.segments@.take(n as int) =~= self.segments@);
        assert(bits(result) =~= self.predicate_spec(name@));
        result
    }

    pub fn query_and(&self, a: &RoaringBitmap, b: &RoaringBitmap) -> (r: RoaringBitmap)
        ensures
            bits(r) == bits(*a).intersect(bits(*b)),
    {
        bm_and(a, b)
    }

    pub fn query_or(&self, a: &RoaringBitmap, b: &RoaringBitmap) -> (r: RoaringBitmap)
        ensures
            bits(r) == bits(*a).union(bits(*b)),
    {
        bm_or(a, b)
    }

    pub fn query_xor(&self, a: &RoaringBitmap, b: &RoaringBitmap) -> (r: RoaringBitmap)
        ensures
            bits(r) == bits(*a).difference(bits(*b)).union(bits(*b).difference(bits(*a))),
    {
        bm_xor(a, b)
    }

    pub fn query_diff(&self, a: &RoaringBitmap, b: &RoaringBitmap) -> (r: RoaringBitmap)
        ensures
            bits(r) == bits(*a).difference(bits(*b)),
    {
        bm_sub(a, b)
    }

    /// The visible rows that are not in `a`.
    pub fn query_complement(&self, a: &RoaringBitmap) -> (r: RoaringBitmap)
        ensures
            bits(r) == self.rows_spec().difference(bits(*a)),
    {
        bm_sub(&self.rows(), a)
    }

    /// Seals the head into a new segment: its rows, deletions, predicates and frozen
    /// number columns; the head starts over empty. Returns the number of segments.
    pub fn seal(&mut self) -> (r: usize)
        requires
            old(self).wf(),
        ensures
            final(self).wf(),
            final(self).segments_spec().len() == old(self).segments_spec().len() + 1,
            final(self).segments_spec().drop_last() == old(self).segments_spec(),
            bits(final(self).segments_spec().last().rows) == old(self).head_rows_spec(),
            bits(final(self).segments_spec().last().deleted) == old(self).head_deleted_spec(),
            forall|n: Seq<char>| #[trigger] final(self).segments_spec().last().predicate_bits(n) == named_set(
                old(self).head_predicates_spec(),
                n,
            ),
            forall|n: Seq<char>| #[trigger] final(self).segments_spec().last().number_rows(n) == mutable_rows(
                old(self).head_numbers_spec(),
                n,
            ),
            forall|n: Seq<char>, x: u32, i: int| #[trigger] final(self).segments_spec().last().number_bit(n, x, i)
                == mutable_bit(old(self).head_numbers_spec(), n, x, i),
            final(self).head_rows_spec() == Set::<u32>::empty(),
            final(self).head_deleted_spec() == Set::<u32>::empty(),
            final(self).head_predicates_spec() == Map::<Seq<char>, RoaringBitmap>::empty(),
            final(self).head_numbers_spec() == Map::<Seq<char>, MutableNumber>::empty(),
            final(self).next_id_spec() == old(self).next_id_spec(),
            r == final(self).segments_spec().len(),
            seal_step(*old(self), *final(self)),
            forall|h: Seq<StoreOp>| #[trigger] history_holds(*old(self), h) ==> history_holds(
                *final(self),
                h.push(StoreOp::Seal),
            ),
    {
        let mut predicates: Named<RoaringBitmap> = Named::new();
        std::mem::swap(&mut predicates, &mut self.head_predicates);
        let mut head_numbers: Named<MutableNumber> = Named::new();
        std::mem::swap(&mut head_numbers, &mut self.head_numbers);
        let numbers = freeze_columns(head_numbers);
        let mut rows = bm_new();
        std::mem::swap(&mut rows, &mut self.head_rows);
        let mut deleted = bm_new();
        std::mem::swap(&mut deleted, &mut self.head_deleted);
        let seg = Segment { rows, deleted, predicates, numbers };
        let ghost before = self.segments@;
        self.segments.push(seg);
        assert(self.segments@.drop_last() =~= before);
        assert forall|n: Seq<char>| #[trigger] self.segments@.last().predicate_bits(n) == named_set(
            old(self).head_predicates_spec(),
            n,
        ) by {}
        proof {
            assert(seal_step(*old(self), *self));
            assert forall|h: Seq<StoreOp>| #[trigger] history_holds(*old(self), h) implies history_holds(
                *self,
                h.push(StoreOp::Seal),
            ) by {
                lemma_history_seal(*old(self), *self, h);
            }
        }
        self.segments.len()
    }

    /// Merges the head and all segments into one segment from which every deleted row
    /// is gone; does nothing when there is no segment yet.
    pub fn compact(&mut self)
        requires
            old(self).wf(),
        ensures
            final(self).wf(),
            old(self).segments_spec().len() == 0 ==> *final(self) == *old(self),
            old(self).segments_spec().len() > 0 ==> {
                &&& final(self).segments_spec().len() == 1
                &&& final(self).head_rows_spec() == Set::<u32>::empty()
                &&& final(self).head_deleted_spec() == Set::<u32>::empty()
                &&& final(self).head_predicates_spec() == Map::<Seq<char>, RoaringBitmap>::empty()
                &&& final(self).head_numbers_spec() == Map::<Seq<char>, MutableNumber>::empty()
                &&& final(self).next_id_spec() == old(self).next_id_spec()
                &&& bits(final(self).segments_spec()[0].rows) == old(self).all_rows_spec().difference(
                    old(self).all_deleted_spec(),
                )
                &&& bits(final(self).segments_spec()[0].deleted) == Set::<u32>::empty()
                &&& forall|n: Seq<char>| #[trigger] final(self).segments_spec()[0].predicate_bits(n)
                    == old(self).all_predicate_spec(n).difference(old(self).all_deleted_spec())
                &&& forall|n: Seq<char>| #[trigger] final(self).segments_spec()[0].number_rows(n)
                    == old(self).all_number_rows_spec(n).difference(old(self).all_deleted_spec())
                &&& forall|n: Seq<char>, x: u32, i: int| 0 <= i < 64
                    ==> #[trigger] final(self).segments_spec()[0].number_bit(n, x, i)
                    == old(self).all_number_bit_spec(n, x, i)
            },
            compact_step(*old(self), *final(self)),
            forall|h: Seq<StoreOp>| #[trigger] history_holds(*old(self), h) ==> history_holds(
                *final(self),
                h.push(StoreOp::Compact),
            ),
    {
        if self.segments.len() == 0 {
            assert forall|h: Seq<StoreOp>| #[trigger] history_holds(*old(self), h) implies history_holds(
                *self,
                h.push(StoreOp::Compact),
            ) by {
                lemma_history_compact(*old(self), *self, h);
            }
            return;
        }
        self.seal();

        let mut rows = bm_new();
        let mut predicates: Named<RoaringBitmap> = Named::new();
        let mut numbers: Named<MutableNumber> = Named::new();
        let mut all_deleted = bm_new();

        let mut segs: Vec<Segment> = Vec::new();
        std::mem::swap(&mut segs, &mut self.segments);
        let ghost sealed = segs@;
        let n = segs.len();
        for k in 0..n
            invariant
                n == segs@.len(),
                segs@ == sealed,
                forall|j: int| 0 <= j < segs@.len() ==> (#[trigger] segs@[j]).wf(),
                bits(rows) == segments_rows(segs@.take(k as int)),
                bits(all_deleted) == segments_deleted(segs@.take(k as int)),
                predicates.wf(),
                columns_wf(numbers),
                forall|q: Seq<char>| #[trigger] named_set(predicates.view(), q) == segments_predicate(
                    segs@.take(k as int),
                    q,
                ),
                forall|q: Seq<char>| #[trigger] mutable_rows(numbers.view(), q) == segments_number_rows(
                    segs@.take(k as int),
                    q,
                ),
                forall|q: Seq<char>, x: u32, i: int| 0 <= i < 64 ==> #[trigger] mutable_bit(numbers.view(), q, x, i)
                    == segments_number_bit(segs@.take(k as int), q, x, i),
        {
            let seg = &segs[k];
            assert(seg.wf());
            let ghost pre = segs@.take(k as int);
            assert(segs@.take(k + 1).drop_last() =~= pre);
            bm_or_assign(&mut rows, &seg.rows);
            bm_or_assign(&mut all_deleted, &seg.deleted);
            merge_segment_predicates(&mut predicates, seg);
            merge_segment_numbers(&mut numbers, seg);
            assert(bits(rows) =~= segments_rows(segs@.take(k + 1)));
            assert(bits(all_deleted) =~= segments_deleted(segs@.take(k + 1)));
            assert forall|q: Seq<char>| #[trigger] named_set(predicates.view(), q) == segments_predicate(
                segs@.take(k + 1),
                q,
            ) by {
                assert(named_set(predicates.view(), q) =~= segments_predicate(segs@.take(k + 1), q));
            }
            assert forall|q: Seq<char>| #[trigger] mutable_rows(numbers.view(), q) == segments_number_rows(
                segs@.take(k + 1),
                q,
            ) by {
                assert(mutable_rows(numbers.view(), q) =~= segments_number_rows(segs@.take(k + 1), q));
            }
        }
        assert(segs@.take(n as int) =~= sealed);

        // Remove tombstoned rows
        bm_sub_assign(&mut rows, &all_deleted);
        named_subtract(&mut predicates, &all_deleted);
        let mut frozen_numbers = freeze_columns(numbers);
        frozen_subtract(&mut frozen_numbers, &all_deleted);

        let merged = Segment { rows, deleted: bm_new(), predicates, numbers: frozen_numbers };
        self.segments.push(merged);
        proof {
            let o = old(self);
            assert(sealed.drop_last() == o.segments_spec());
            assert(bits(self.segments@[0].rows) =~= o.all_rows_spec().difference(o.all_deleted_spec()));
            assert forall|q: Seq<char>| #[trigger] self.segments@[0].predicate_bits(q) == o.all_predicate_spec(
                q,
            ).difference(o.all_deleted_spec()) by {
                assert(self.segments@[0].predicate_bits(q) =~= o.all_predicate_spec(q).difference(
                    o.all_deleted_spec(),
                ));
            }
            assert forall|q: Seq<char>| #[trigger] self.segments@[0].number_rows(q) == o.all_number_rows_spec(
                q,
            ).difference(o.all_deleted_spec()) by {
                assert(self.segments@[0].number_rows(q) =~= o.all_number_rows_spec(q).difference(
                    o.all_deleted_spec(),
                ));
            }
        }
        proof {
            assert(compact_step(*old(self), *self));
            assert forall|h: Seq<StoreOp>| #[trigger] history_holds(*old(self), h) implies history_holds(
                *self,
                h.push(StoreOp::Compact),
            ) by {
                lemma_history_compact(*old(self), *self, h);
            }
        }
    }

    pub fn segment_count(&self) -> (r: usize)
        ensures
            r == self.segments_spec().len(),
    {
        self.segments.len()
    }
}


/// What an append does to the store: the row takes the given id or else the next one,
/// which moves past it; the row joins the head rows and, under each of `tags`, the
/// head predicates; deletions and segments stay as they were.
pub open spec fn append_step(
    before: WAIStore,
    after: WAIStore,
    tags: Seq<Seq<char>>,
    given: Option<u32>,
    r: u32,
) -> bool {
    &&& after.wf()
    &&& match given {
        Some(id) => id < u32::MAX,
        None => before.next_id_spec() < u32::MAX,
    }
    &&& r == match given {
        Some(id) => id,
        None => before.next_id_spec(),
    }
    &&& after.next_id_spec() == match given {
        Some(id) => if before.next_id_spec() > id + 1 { before.next_id_spec() } else { (id + 1) as u32 },
        None => (before.next_id_spec() + 1) as u32,
    }
    &&& after.head_rows_spec() == before.head_rows_spec().insert(r)
    &&& after.head_deleted_spec() == before.head_deleted_spec()
    &&& after.segments_spec() == before.segments_spec()
    &&& forall|n: Seq<char>| #[trigger] named_set(after.head_predicates_spec(), n) == named_set(
        before.head_predicates_spec(),
        n,
    ).union(if tags.contains(n) { set![r] } else { Set::<u32>::empty() })
}

/// What a delete does to the store: the id joins the head deletions, nothing else moves.
pub open spec fn delete_step(before: WAIStore, after: WAIStore, id: u32) -> bool {
    &&& after.wf()
    &&& after.head_deleted_spec() == before.head_deleted_spec().insert(id)
    &&& after.head_rows_spec() == before.head_rows_spec()
    &&& after.head_predicates_spec() == before.head_predicates_spec()
    &&& after.segments_spec() == before.segments_spec()
    &&& after.next_id_spec() == before.next_id_spec()
}

/// What a seal does to the store: the head becomes a new last segment with the same
/// rows, deletions and predicates, and the head starts over empty.
pub open spec fn seal_step(before: WAIStore, after: WAIStore) -> bool {
    &&& after.wf()
    &&& after.segments_spec().len() == before.segments_spec().len() + 1
    &&& after.segments_spec().drop_last() == before.segments_spec()
    &&& bits(after.segments_spec().last().rows) == before.head_rows_spec()
    &&& bits(after.segments_spec().last().deleted) == before.head_deleted_spec()
    &&& forall|n: Seq<char>| #[trigger] after.segments_spec().last().predicate_bits(n) == named_set(
        before.head_predicates_spec(),
        n,
    )
    &&& after.head_rows_spec() == Set::<u32>::empty()
    &&& after.head_deleted_spec() == Set::<u32>::empty()
    &&& after.head_predicates_spec() == Map::<Seq<char>, RoaringBitmap>::empty()
    &&& after.next_id_spec() == before.next_id_spec()
}

/// What a compaction does to the store: nothing without segments; otherwise a single
/// segment holding every row, and every predicate's rows, less every deleted row, with
/// an empty head.
pub open spec fn compact_step(before: WAIStore, after: WAIStore) -> bool {
    &&& after.wf()
    &&& before.segments_spec().len() == 0 ==> after == before
    &&& before.segments_spec().len() > 0 ==> {
        &&& after.segments_spec().len() == 1
        &&& after.head_rows_spec() == Set::<u32>::empty()
        &&& after.head_deleted_spec() == Set::<u32>::empty()
        &&& after.head_predicates_spec() == Map::<Seq<char>, RoaringBitmap>::empty()
        &&& after.next_id_spec() == before.next_id_spec()
        &&& bits(after.segments_spec()[0].rows) == before.all_rows_spec().difference(before.all_deleted_spec())
        &&& bits(after.segments_spec()[0].deleted) == Set::<u32>::empty()
        &&& forall|n: Seq<char>| #[trigger] after.segments_spec()[0].predicate_bits(n)
            == before.all_predicate_spec(n).difference(before.all_deleted_spec())
    }
}

/// A row just appended is visible, and visible under each of its tags, unless the head
/// already marks it deleted.
pub proof fn lemma_append_then_visible(before: WAIStore, after: WAIStore, tags: Seq<Seq<char>>, id: u32)
    requires
        after.head_rows_spec() == before.head_rows_spec().insert(id),
        after.head_deleted_spec() == before.head_deleted_spec(),
        after.segments_spec() == before.segments_spec(),
        forall|n: Seq<char>| #[trigger] named_set(after.head_predicates_spec(), n) == named_set(
            before.head_predicates_spec(),
            n,
        ).union(if tags.contains(n) { set![id] } else { Set::<u32>::empty() }),
        !before.head_deleted_spec().contains(id),
    ensures
        after.rows_spec().contains(id),
        forall|t: Seq<char>| tags.contains(t) ==> #[trigger] after.predicate_spec(t).contains(id),
{
    assert forall|t: Seq<char>| tags.contains(t) implies #[trigger] after.predicate_spec(t).contains(id) by {
        assert(named_set(after.head_predicates_spec(), t).contains(id));
    }
}

/// A deleted row is no longer visible, under any predicate.
pub proof fn lemma_delete_hides(after: WAIStore, row: u32)
    requires
        after.head_deleted_spec().contains(row),
    ensures
        !after.rows_spec().contains(row),
        forall|n: Seq<char>| !(#[trigger] after.predicate_spec(n)).contains(row),
{
}

/// Sealing leaves the visible rows and every predicate as they were, provided no row
/// deleted since the last seal is one that an older segment shows.
pub proof fn lemma_seal_keeps_view(before: WAIStore, after: WAIStore)
    requires
        after.segments_spec().drop_last() == before.segments_spec(),
        after.segments_spec().len() == before.segments_spec().len() + 1,
        bits(after.segments_spec().last().rows) == before.head_rows_spec(),
        bits(after.segments_spec().last().deleted) == before.head_deleted_spec(),
        forall|n: Seq<char>| #[trigger] after.segments_spec().last().predicate_bits(n) == named_set(
            before.head_predicates_spec(),
            n,
        ),
        after.head_rows_spec() == Set::<u32>::empty(),
        after.head_deleted_spec() == Set::<u32>::empty(),
        after.head_predicates_spec() == Map::<Seq<char>, RoaringBitmap>::empty(),
        forall|x: u32| #[trigger] before.head_deleted_spec().contains(x) ==> !segments_visible(
            before.segments_spec(),
        ).contains(x),
    ensures
        after.rows_spec() == before.rows_spec(),
        forall|n: Seq<char>| #[trigger] after.predicate_spec(n) == before.predicate_spec(n),
{
    assert(after.rows_spec() =~= before.rows_spec());
    assert forall|n: Seq<char>| #[trigger] after.predicate_spec(n) == before.predicate_spec(n) by {
        assert(after.predicate_spec(n) =~= before.predicate_spec(n));
    }
}

proof fn lemma_live_rows_visible(segs: Seq<Segment>, x: u32)
    requires
        segments_rows(segs).contains(x),
        !segments_deleted(segs).contains(x),
    ensures
        segments_visible(segs).contains(x),
    decreases segs.len(),
{
    if !bits(segs.last().rows).contains(x) {
        lemma_live_rows_visible(segs.drop_last(), x);
    }
}

/// Compaction never brings a row back: every row visible after it, overall and under
/// each predicate, was visible before.
pub proof fn lemma_compact_never_resurrects(before: WAIStore, after: WAIStore)
    requires
        after.segments_spec().len() == 1,
        after.head_rows_spec() == Set::<u32>::empty(),
        after.head_deleted_spec() == Set::<u32>::empty(),
        after.head_predicates_spec() == Map::<Seq<char>, RoaringBitmap>::empty(),
        bits(after.segments_spec()[0].rows) == before.all_rows_spec().difference(before.all_deleted_spec()),
        bits(after.segments_spec()[0].deleted) == Set::<u32>::empty(),
        forall|n: Seq<char>| #[trigger] after.segments_spec()[0].predicate_bits(n)
            == before.all_predicate_spec(n).difference(before.all_deleted_spec()),
    ensures
        after.rows_spec().subset_of(before.rows_spec()),
        forall|n: Seq<char>| (#[trigger] after.predicate_spec(n)).subset_of(before.predicate_spec(n)),
{
    let segs = after.segments_spec();
    assert(segs.drop_last() =~= Seq::<Segment>::empty());
    assert(segments_visible(segs.drop_last()) == Set::<u32>::empty());
    assert(segs.last() == segs[0]);
    assert(segments_visible(segs) =~= bits(segs[0].rows));
    assert forall|x: u32| after.rows_spec().contains(x) implies before.rows_spec().contains(x) by {
        if !before.head_rows_spec().contains(x) {
            lemma_live_rows_visible(before.segments_spec(), x);
        }
    }
    assert forall|n: Seq<char>| (#[trigger] after.predicate_spec(n)).subset_of(before.predicate_spec(n)) by {
        assert(segments_predicate(segs.drop_last(), n) == Set::<u32>::empty());
        assert(segments_predicate(segs, n) =~= segs[0].predicate_bits(n));
        assert forall|x: u32| after.predicate_spec(n).contains(x) implies before.predicate_spec(n).contains(x) by {
            assert(after.rows_spec().contains(x));
        }
    }
}

/// The complement of a set of rows and its visible part together make up the visible
/// rows, and share none.
pub proof fn lemma_complement_partitions(store: WAIStore, a: Set<u32>)
    ensures
        store.rows_spec().difference(a).union(a.intersect(store.rows_spec())) == store.rows_spec(),
        store.rows_spec().difference(a).intersect(a) == Set::<u32>::empty(),
{
    assert(store.rows_spec().difference(a).union(a.intersect(store.rows_spec())) =~= store.rows_spec());
    assert(store.rows_spec().difference(a).intersect(a) =~= Set::<u32>::empty());
}

} // verus!
