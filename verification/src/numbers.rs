//! Numbers stored by bit planes: plane `i` holds the rows whose value has bit `i` set.
use vstd::prelude::*;
use roaring::RoaringBitmap;
use vstd::std_specs::bits::{u64_leading_zeros, axiom_u64_leading_zeros};
use crate::bitset::{bits, bm_new, bm_contains, bm_insert};

verus! {

/// Whether bit `i` of `v` is set.
pub open spec fn bit64(v: u64, i: u64) -> bool {
    (v >> i) & 1u64 == 1u64
}

/// The sets of rows that the planes hold.
pub open spec fn planes_view(planes: Seq<RoaringBitmap>) -> Seq<Set<u32>> {
    planes.map_values(|p: RoaringBitmap| bits(p))
}

/// Whether plane `i` exists and holds `row`.
pub open spec fn plane_bit(planes: Seq<Set<u32>>, row: u32, i: int) -> bool {
    0 <= i < planes.len() && planes[i].contains(row)
}

/// The number of planes needed to write `value`: one for 0, else up to its highest set bit.
pub open spec fn needed_planes(value: u64) -> nat {
    if value == 0 {
        1
    } else {
        (64 - u64_leading_zeros(value)) as nat
    }
}

/// The planes after writing `value` for `row`: as many as were there or as `value`
/// needs, with `row` joined to each plane of a set bit of `value`.
pub open spec fn added_planes(planes: Seq<Set<u32>>, row: u32, value: u64) -> Seq<Set<u32>> {
    Seq::new(
        if planes.len() < needed_planes(value) { needed_planes(value) } else { planes.len() },
        |i: int|
            (if i < planes.len() { planes[i] } else { Set::<u32>::empty() }).union(
                if bit64(value, i as u64) { set![row] } else { Set::<u32>::empty() },
            ),
    )
}

proof fn lemma_or_shift_bit(v: u64, i: u64, j: u64)
    requires
        i < 64,
        j < 64,
    ensures
        bit64(v | (1u64 << i), j) == (bit64(v, j) || j == i),
        bit64(0, j) == false,
{
    assert(((v | (1u64 << i)) >> j) & 1u64 == 1u64 <==> ((v >> j) & 1u64 == 1u64 || j == i))
        by (bit_vector)
        requires
            i < 64,
            j < 64,
    ;
    assert((0u64 >> j) & 1u64 != 1u64) by (bit_vector);
}

proof fn lemma_and_shift_bit(v: u64, i: u64)
    requires
        i < 64,
    ensures
        (v & (1u64 << i) != 0) == bit64(v, i),
{
    assert((v & (1u64 << i) != 0) == ((v >> i) & 1u64 == 1u64)) by (bit_vector)
        requires
            i < 64,
    ;
}

proof fn lemma_bits_determine_from(a: u64, b: u64, k: u64)
    requires
        k < 64,
        forall|i: u64| i < 64 ==> bit64(a, i) == bit64(b, i),
    ensures
        a >> k == b >> k,
    decreases 63 - k,
{
    assert(bit64(a, k) == bit64(b, k));
    assert(((a >> k) & 1u64 == 1u64) == ((b >> k) & 1u64 == 1u64) ==> (a >> k) & 1u64 == (b >> k) & 1u64)
        by (bit_vector);
    if k == 63 {
        assert(k == 63 ==> a >> k == (a >> k) & 1u64 && b >> k == (b >> k) & 1u64) by (bit_vector);
    } else {
        let k1 = (k + 1) as u64;
        lemma_bits_determine_from(a, b, k1);
        assert(a >> k == ((a >> k1) << 1u64) | ((a >> k) & 1u64) && b >> k == ((b >> k1) << 1u64) | ((b
            >> k) & 1u64)) by (bit_vector)
            requires
                k < 63,
                k1 == k + 1,
        ;
    }
}

/// Two words whose 64 bits agree are equal.
pub proof fn lemma_bits_determine(a: u64, b: u64)
    requires
        forall|i: u64| i < 64 ==> bit64(a, i) == bit64(b, i),
    ensures
        a == b,
{
    lemma_bits_determine_from(a, b, 0);
    assert(a >> 0u64 == a && b >> 0u64 == b) by (bit_vector);
}

/// Whether bit `i` of `v`, for each `i` below 64, is set exactly when plane `i` holds `row`.
pub open spec fn bits_of_planes(v: u64, planes: Seq<Set<u32>>, row: u32) -> bool {
    forall|i: u64| i < 64 ==> #[trigger] bit64(v, i) == plane_bit(planes, row, i as int)
}

/// The number whose bit `i`, for each `i` below 64, is set exactly when plane `i` holds
/// `row`.
pub open spec fn planes_number(planes: Seq<Set<u32>>, row: u32) -> u64 {
    choose|v: u64| bits_of_planes(v, planes, row)
}

/// What a number column reads for `row`: nothing for a row without a value, otherwise
/// the number that its planes hold for the row.
pub open spec fn number_read(exists: Set<u32>, planes: Seq<Set<u32>>, row: u32) -> Option<u64> {
    if exists.contains(row) {
        Some(planes_number(planes, row))
    } else {
        None
    }
}

/// The number made of the bits of the first `n` planes for `row`.
spec fn planes_prefix_number(planes: Seq<Set<u32>>, row: u32, n: nat) -> u64
    decreases n,
{
    if n == 0 {
        0
    } else {
        let below = planes_prefix_number(planes, row, (n - 1) as nat);
        if plane_bit(planes, row, n - 1) {
            below | (1u64 << ((n - 1) as u64))
        } else {
            below
        }
    }
}

proof fn lemma_planes_prefix_number(planes: Seq<Set<u32>>, row: u32, n: nat)
    requires
        n <= 64,
    ensures
        forall|j: u64| j < 64 ==> #[trigger] bit64(planes_prefix_number(planes, row, n), j) == (j < n
            && plane_bit(planes, row, j as int)),
    decreases n,
{
    if n == 0 {
        assert forall|j: u64| j < 64 implies !#[trigger] bit64(0u64, j) by {
            lemma_or_shift_bit(0u64, 0u64, j);
        }
    } else {
        lemma_planes_prefix_number(planes, row, (n - 1) as nat);
        let below = planes_prefix_number(planes, row, (n - 1) as nat);
        assert forall|j: u64| j < 64 implies #[trigger] bit64(planes_prefix_number(planes, row, n), j) == (j
            < n && plane_bit(planes, row, j as int)) by {
            lemma_or_shift_bit(below, (n - 1) as u64, j);
        }
    }
}

/// The number that the planes hold for a row has, below 64, exactly the bits of the
/// planes that hold the row.
pub proof fn lemma_planes_number(planes: Seq<Set<u32>>, row: u32)
    ensures
        forall|i: u64| i < 64 ==> #[trigger] bit64(planes_number(planes, row), i) == plane_bit(planes, row, i as int),
{
    lemma_planes_prefix_number(planes, row, 64);
    let w = planes_prefix_number(planes, row, 64);
    assert(bits_of_planes(w, planes, row));
}

/// The number that the planes hold for a row is the one word whose bits below 64 are
/// those of the planes that hold the row.
pub proof fn lemma_planes_number_unique(planes: Seq<Set<u32>>, row: u32, v: u64)
    requires
        forall|i: u64| i < 64 ==> #[trigger] bit64(v, i) == plane_bit(planes, row, i as int),
    ensures
        planes_number(planes, row) == v,
{
    lemma_planes_number(planes, row);
    let w = planes_number(planes, row);
    assert forall|i: u64| i < 64 implies bit64(w, i) == bit64(v, i) by {
        assert(bit64(w, i) == plane_bit(planes, row, i as int));
        assert(bit64(v, i) == plane_bit(planes, row, i as int));
    }
    lemma_bits_determine(w, v);
}

/// Writing `value` for `row` into planes that hold only rows with a value, at most 64 of
/// them: `row` then reads its earlier value, or 0 when it had none, joined bitwise with
/// `value`; every other row reads what it read before.
pub proof fn lemma_add_reads(exists: Set<u32>, planes: Seq<Set<u32>>, row: u32, value: u64, other: u32)
    requires
        planes.len() <= 64,
        forall|i: int| 0 <= i < planes.len() ==> (#[trigger] planes[i]).subset_of(exists),
    ensures
        number_read(exists.insert(row), added_planes(planes, row, value), row) == Some(
            match number_read(exists, planes, row) {
                Some(v) => v,
                None => 0u64,
            } | value,
        ),
        other != row ==> number_read(exists.insert(row), added_planes(planes, row, value), other)
            == number_read(exists, planes, other),
{
    let ap = added_planes(planes, row, value);
    let before: u64 = match number_read(exists, planes, row) {
        Some(v) => v,
        None => 0u64,
    };
    lemma_planes_number(planes, row);
    assert forall|i: u64| i < 64 implies #[trigger] bit64(before | value, i) == plane_bit(ap, row, i as int) by {
        lemma_added_planes_bits(planes, row, value, row, i as int);
        assert(bit64(before | value, i) == (bit64(before, i) || bit64(value, i))) by (bit_vector)
            requires
                i < 64,
        ;
        if !exists.contains(row) {
            assert((0u64 >> i) & 1u64 != 1u64) by (bit_vector);
            if plane_bit(planes, row, i as int) {
                assert(planes[i as int].subset_of(exists));
            }
        }
    }
    lemma_planes_number_unique(ap, row, before | value);
    if other != row {
        lemma_planes_number(planes, other);
        let w = planes_number(planes, other);
        assert forall|i: u64| i < 64 implies #[trigger] bit64(w, i) == plane_bit(ap, other, i as int) by {
            lemma_added_planes_bits(planes, row, value, other, i as int);
        }
        lemma_planes_number_unique(ap, other, w);
    }
}

#[derive(Debug, Clone)]
pub struct FrozenNumber {
    pub exists: RoaringBitmap,
    pub planes: Vec<RoaringBitmap>,
}

impl FrozenNumber {
    pub fn empty() -> (r: Self)
        ensures
            bits(r.exists) == Set::<u32>::empty(),
            r.planes@.len() == 0,
    {
        Self { exists: bm_new(), planes: Vec::new() }
    }

    /// The value of `row_id`: `None` when the row has none, otherwise the number whose
    /// bit `i` is set exactly when plane `i` holds the row.
    pub fn get(&self, row_id: u32) -> (r: Option<u64>)
        requires
            bits(self.exists).contains(row_id) ==> forall|i: int|
                64 <= i < self.planes@.len() ==> !bits(#[trigger] self.planes@[i]).contains(row_id),
        ensures
            r == number_read(bits(self.exists), planes_view(self.planes@), row_id),
            r is None <==> !bits(self.exists).contains(row_id),
            r matches Some(v) ==> forall|i: u64|
                i < 64 ==> #[trigger] bit64(v, i) == plane_bit(planes_view(self.planes@), row_id, i as int),
    {
        if !bm_contains(&self.exists, row_id) {
            return None;
        }
        let mut val: u64 = 0;
        let n = self.planes.len();
        assert forall|j: u64| j < 64 implies !#[trigger] bit64(0u64, j) by {
            lemma_or_shift_bit(0u64, 0u64, j);
        }
        for i in 0..n
            invariant
                n == self.planes@.len(),
                forall|k: int| 64 <= k < self.planes@.len() ==> !bits(#[trigger] self.planes@[k]).contains(
                    row_id,
                ),
                forall|j: u64| j < 64 ==> #[trigger] bit64(val, j) == (j < i && plane_bit(
                    planes_view(self.planes@),
                    row_id,
                    j as int,
                )),
        {
            if bm_contains(&self.planes[i], row_id) {
                assert(i < 64);
                proof {
                    assert forall|j: u64| j < 64 implies #[trigger] bit64(val | (1u64 << (i as u64)), j) == (
                    j < i + 1 && plane_bit(planes_view(self.planes@), row_id, j as int)) by {
                        lemma_or_shift_bit(val, i as u64, j);
                    }
                }
                val = val | (1u64 << (i as u64));
            } else {
                assert forall|j: u64| j < 64 implies #[trigger] bit64(val, j) == (j < i + 1 && plane_bit(
                    planes_view(self.planes@),
                    row_id,
                    j as int,
                )) by {}
            }
        }
        assert forall|j: u64| j < 64 implies #[trigger] bit64(val, j) == plane_bit(
            planes_view(self.planes@),
            row_id,
            j as int,
        ) by {}
        proof {
            lemma_planes_number_unique(planes_view(self.planes@), row_id, val);
        }
        Some(val)
    }
}

/// A number column being written: at most 64 planes, each holding only rows that have
/// a value.
#[derive(Debug)]
pub struct MutableNumber {
    exists: RoaringBitmap,
    planes: Vec<RoaringBitmap>,
}

impl Clone for MutableNumber {
    fn clone(&self) -> (r: Self)
        ensures
            r.exists_spec() == self.exists_spec(),
            r.planes_spec() == self.planes_spec(),
    {
        let n = self.planes.len();
        let mut planes: Vec<RoaringBitmap> = Vec::new();
        for i in 0..n
            invariant
                n == self.planes@.len(),
                planes@.len() == i,
                forall|k: int| 0 <= k < i ==> bits(#[trigger] planes@[k]) == bits(self.planes@[k]),
        {
            planes.push(self.planes[i].clone());
        }
        let r = MutableNumber { exists: self.exists.clone(), planes };
        assert(r.planes_spec() =~= self.planes_spec());
        r
    }
}

impl MutableNumber {
    pub closed spec fn exists_spec(&self) -> Set<u32> {
        bits(self.exists)
    }

    pub closed spec fn planes_spec(&self) -> Seq<Set<u32>> {
        planes_view(self.planes@)
    }

    pub open spec fn wf(&self) -> bool {
        &&& self.planes_spec().len() <= 64
        &&& forall|i: int|
            0 <= i < self.planes_spec().len() ==> (#[trigger] self.planes_spec()[i]).subset_of(self.exists_spec())
    }

    /// What the column reads for `row`.
    pub open spec fn read_spec(&self, row: u32) -> Option<u64> {
        number_read(self.exists_spec(), self.planes_spec(), row)
    }

    pub fn new() -> (r: Self)
        ensures
            r.wf(),
            r.exists_spec() == Set::<u32>::empty(),
            r.planes_spec().len() == 0,
    {
        let r = Self { exists: bm_new(), planes: Vec::new() };
        assert(r.planes_spec() =~= Seq::<Set<u32>>::empty());
        r
    }

    /// Records `value` for `row_id`: the row joins the rows that have a value, and each
    /// plane of a set bit of `value`.
    pub fn add(&mut self, row_id: u32, value: u64)
        requires
            old(self).wf(),
        ensures
            final(self).wf(),
            final(self).exists_spec() == old(self).exists_spec().insert(row_id),
            final(self).planes_spec() == added_planes(old(self).planes_spec(), row_id, value),
            forall|r: u32| #[trigger] final(self).read_spec(r) == if r == row_id {
                Some(
                    match old(self).read_spec(row_id) {
                        Some(v) => v,
                        None => 0u64,
                    } | value,
                )
            } else {
                old(self).read_spec(r)
            },
    {
        let ghost old_planes = self.planes_spec();
        bm_insert(&mut self.exists, row_id);
        proof {
            axiom_u64_leading_zeros(value);
        }
        let bits_needed: usize = if value == 0 {
            1
        } else {
            64 - value.leading_zeros() as usize
        };
        assert(bits_needed == needed_planes(value));
        while self.planes.len() < bits_needed
            invariant
                bits_needed <= 64,
                old_planes.len() <= 64,
                self.planes@.len() <= if old_planes.len() < bits_needed { bits_needed as int } else { old_planes.len() as int },
                forall|i: int| 0 <= i < self.planes@.len() ==> #[trigger] planes_view(self.planes@)[i]
                    == if i < old_planes.len() { old_planes[i] } else { Set::<u32>::empty() },
                self.planes@.len() >= old_planes.len(),
                bits(self.exists) == old(self).exists_spec().insert(row_id),
            decreases bits_needed - self.planes@.len(),
        {
            let ghost before = self.planes@;
            let fresh = bm_new();
            self.planes.push(fresh);
            assert forall|i: int| 0 <= i < self.planes@.len() implies #[trigger] planes_view(self.planes@)[i]
                == if i < old_planes.len() { old_planes[i] } else { Set::<u32>::empty() } by {
                if i < before.len() {
                    assert(self.planes@[i] == before[i]);
                    assert(planes_view(before)[i] == bits(before[i]));
                } else {
                    assert(self.planes@[i] == fresh);
                }
            }
        }
        let n = self.planes.len();
        assert(n == added_planes(old_planes, row_id, value).len());
        for i in 0..n
            invariant
                n == self.planes@.len(),
                n <= 64,
                n == added_planes(old_planes, row_id, value).len(),
                bits(self.exists) == old(self).exists_spec().insert(row_id),
                forall|k: int| 0 <= k < n ==> #[trigger] planes_view(self.planes@)[k] == if k < i {
                    added_planes(old_planes, row_id, value)[k]
                } else if k < old_planes.len() {
                    old_planes[k]
                } else {
                    Set::<u32>::empty()
                },
        {
            proof {
                lemma_and_shift_bit(value, i as u64);
            }
            let ghost before = planes_view(self.planes@);
            let ghost before_raw = self.planes@;
            let set_bit = value & (1u64 << (i as u64)) != 0;
            assert(set_bit == bit64(value, i as u64));
            if set_bit {
                bm_insert(&mut self.planes[i], row_id);
                assert(bits(self.planes@[i as int]) == bits(before_raw[i as int]).insert(row_id));
            }
            assert(forall|k: int| 0 <= k < n && k != i ==> self.planes@[k] == before_raw[k]);
            assert forall|k: int| 0 <= k < n implies #[trigger] planes_view(self.planes@)[k] == if k < i + 1 {
                added_planes(old_planes, row_id, value)[k]
            } else if k < old_planes.len() {
                old_planes[k]
            } else {
                Set::<u32>::empty()
            } by {
                if k == i {
                    assert(before[k] == bits(before_raw[k]));
                    assert(planes_view(self.planes@)[k] == bits(self.planes@[k]));
                    assert(added_planes(old_planes, row_id, value)[k] == (if k < old_planes.len() {
                        old_planes[k]
                    } else {
                        Set::<u32>::empty()
                    }).union(if bit64(value, k as u64) { set![row_id] } else { Set::<u32>::empty() }));
                    assert(planes_view(self.planes@)[k] =~= added_planes(old_planes, row_id, value)[k]);
                } else {
                    assert(planes_view(self.planes@)[k] == before[k]);
                }
            }
        }
        assert(self.planes_spec() =~= added_planes(old_planes, row_id, value));
        proof {
            let ap = added_planes(old_planes, row_id, value);
            let ex = old(self).exists_spec();
            assert forall|i: int| 0 <= i < ap.len() implies (#[trigger] ap[i]).subset_of(ex.insert(row_id)) by {
                if i < old_planes.len() {
                    assert(old_planes[i].subset_of(ex));
                }
            }
            assert forall|r: u32| #[trigger] self.read_spec(r) == if r == row_id {
                Some(
                    match old(self).read_spec(row_id) {
                        Some(v) => v,
                        None => 0u64,
                    } | value,
                )
            } else {
                old(self).read_spec(r)
            } by {
                lemma_add_reads(ex, old_planes, row_id, value, r);
            }
        }
    }

    pub fn freeze(self) -> (r: FrozenNumber)
        ensures
            bits(r.exists) == self.exists_spec(),
            planes_view(r.planes@) == self.planes_spec(),
            self.wf() ==> r.planes@.len() <= 64,
            forall|row: u32| #[trigger] number_read(bits(r.exists), planes_view(r.planes@), row) == self.read_spec(row),
    {
        FrozenNumber { exists: self.exists, planes: self.planes }
    }
}

/// Below 64, bit `i` of a row after writing `value` for `row` is its bit before, or, for
/// `row` itself, bit `i` of `value`.
pub proof fn lemma_added_planes_bits(planes: Seq<Set<u32>>, row: u32, value: u64, other: u32, i: int)
    requires
        planes.len() <= 64,
        0 <= i < 64,
    ensures
        plane_bit(added_planes(planes, row, value), other, i) == (plane_bit(planes, other, i) || (other == row
            && bit64(value, i as u64))),
        added_planes(planes, row, value).len() <= 64,
{
    axiom_u64_leading_zeros(value);
    let ap = added_planes(planes, row, value);
    if i < ap.len() {
        assert(ap[i] == (if i < planes.len() { planes[i] } else { Set::<u32>::empty() }).union(
            if bit64(value, i as u64) { set![row] } else { Set::<u32>::empty() },
        ));
    } else {
        let j = i as u64;
        if value == 0 {
            assert((0u64 >> j) & 1u64 != 1u64) by (bit_vector);
        } else {
            assert(64 - u64_leading_zeros(value) <= j);
        }
    }
}

/// A value read back after being written for a row that no plane held before is the
/// value that was written.
pub proof fn lemma_number_read_back(planes: Seq<Set<u32>>, row: u32, value: u64, got: u64)
    requires
        planes.len() <= 64,
        forall|i: int| 0 <= i < planes.len() ==> !(#[trigger] planes[i]).contains(row),
        forall|i: u64| i < 64 ==> #[trigger] bit64(got, i) == plane_bit(added_planes(planes, row, value), row, i as int),
    ensures
        got == value,
{
    axiom_u64_leading_zeros(value);
    let ap = added_planes(planes, row, value);
    assert forall|i: u64| i < 64 implies bit64(got, i) == bit64(value, i) by {
        assert(bit64(got, i) == plane_bit(ap, row, i as int));
        if (i as int) < ap.len() {
            assert(ap[i as int] == (if (i as int) < planes.len() { planes[i as int] } else { Set::<u32>::empty() }).union(
                if bit64(value, i) { set![row] } else { Set::<u32>::empty() },
            ));
        } else {
            if value == 0 {
                assert((0u64 >> i) & 1u64 != 1u64) by (bit_vector);
            } else {
                assert(64 - u64_leading_zeros(value) <= i);
            }
        }
    }
    lemma_bits_determine(got, value);
}

} // verus!
