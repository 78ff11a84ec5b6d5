//! The compressed bitmaps of the `roaring` crate, seen as finite sets of `u32`.
//!
//! Every operation of `RoaringBitmap` that the library uses is reached through
//! one function of this module, whose contract speaks of `bits`, the set of
//! integers that a bitmap holds.
use vstd::prelude::*;
use roaring::RoaringBitmap;

verus! {

/// `roaring::RoaringBitmap`, carried through as an opaque value.
#[verifier::external_type_specification]
#[verifier::external_body]
pub struct ExRoaringBitmap(RoaringBitmap);

/// The set of integers that a bitmap holds.
pub uninterp spec fn bits(b: RoaringBitmap) -> Set<u32>;

/// The integers from `lo` to `hi`, both included.
pub open spec fn span_set(lo: u32, hi: u32) -> Set<u32> {
    Set::new(|x: u32| lo <= x <= hi)
}

/// Every set of `u32` is finite and holds at most 2^32 elements.
pub proof fn lemma_u32_set_bounded(s: Set<u32>)
    ensures
        s.finite(),
        s.len() <= 0x1_0000_0000,
{
    broadcast use vstd::set_lib::full_set_properties;
    broadcast use vstd::set::group_set_axioms;
    let full = Set::<u32>::full();
    assert(full.finite());
    assert(s.subset_of(full));
    vstd::set_lib::lemma_len_subset(s, full);
    <u32 as vstd::set_lib::FiniteRange>::range_properties(0u32, u32::MAX);
    assert(full =~= Set::<u32>::range_inclusive(0u32, u32::MAX));
}

/// `RoaringBitmap::new`: a bitmap that holds nothing.
#[verifier::external_body]
pub(crate) fn bm_new() -> (r: RoaringBitmap)
    ensures
        bits(r) == Set::<u32>::empty(),
{
    RoaringBitmap::new()
}

/// `RoaringBitmap::clone`: a bitmap that holds the same integers.
pub assume_specification[ <RoaringBitmap as Clone>::clone ](b: &RoaringBitmap) -> (r: RoaringBitmap)
    ensures
        bits(r) == bits(*b),
;

/// `RoaringBitmap::contains`: whether the integer is in the set.
#[verifier::external_body]
pub(crate) fn bm_contains(b: &RoaringBitmap, v: u32) -> (r: bool)
    ensures
        r == bits(*b).contains(v),
{
    b.contains(v)
}

/// `RoaringBitmap::insert`: adds the integer; the result says whether it was absent.
#[verifier::external_body]
pub(crate) fn bm_insert(b: &mut RoaringBitmap, v: u32) -> (r: bool)
    ensures
        bits(*final(b)) == bits(*old(b)).insert(v),
        r == !bits(*old(b)).contains(v),
{
    b.insert(v)
}

/// `RoaringBitmap::remove`: takes the integer out; the result says whether it was present.
#[verifier::external_body]
pub(crate) fn bm_remove(b: &mut RoaringBitmap, v: u32) -> (r: bool)
    ensures
        bits(*final(b)) == bits(*old(b)).remove(v),
        r == bits(*old(b)).contains(v),
{
    b.remove(v)
}

/// `RoaringBitmap::insert_range` on `lo..=hi`: adds every integer from `lo` to `hi`;
/// the result is the number of integers that were absent before.
#[verifier::external_body]
pub(crate) fn bm_insert_range(b: &mut RoaringBitmap, lo: u32, hi: u32) -> (r: u64)
    ensures
        bits(*final(b)) == bits(*old(b)).union(span_set(lo, hi)),
        r == bits(*final(b)).len() - bits(*old(b)).len(),
{
    b.insert_range(lo..=hi)
}

/// `RoaringBitmap::len`: the number of integers in the set.
#[verifier::external_body]
pub(crate) fn bm_len(b: &RoaringBitmap) -> (r: u64)
    ensures
        r == bits(*b).len(),
{
    b.len()
}

/// `RoaringBitmap::max`: the greatest integer of the set, `None` when it is empty.
#[verifier::external_body]
pub(crate) fn bm_max(b: &RoaringBitmap) -> (r: Option<u32>)
    ensures
        r is None <==> bits(*b) == Set::<u32>::empty(),
        r matches Some(m) ==> bits(*b).contains(m) && forall|x: u32| #[trigger] bits(*b).contains(x) ==> x <= m,
{
    b.max()
}

/// `RoaringBitmap::iter`, collected: the integers of the set in ascending order.
#[verifier::external_body]
pub(crate) fn bm_values(b: &RoaringBitmap) -> (r: Vec<u32>)
    ensures
        forall|i: int, j: int| 0 <= i < j < r@.len() ==> r@[i] < r@[j],
        forall|x: u32| bits(*b).contains(x) <==> r@.contains(x),
{
    b.iter().collect()
}

/// `&a | &b`: the union of the two sets.
#[verifier::external_body]
pub(crate) fn bm_or(a: &RoaringBitmap, b: &RoaringBitmap) -> (r: RoaringBitmap)
    ensures
        bits(r) == bits(*a).union(bits(*b)),
{
    a | b
}

/// `&a & &b`: the intersection of the two sets.
#[verifier::external_body]
pub(crate) fn bm_and(a: &RoaringBitmap, b: &RoaringBitmap) -> (r: RoaringBitmap)
    ensures
        bits(r) == bits(*a).intersect(bits(*b)),
{
    a & b
}

/// `&a - &b`: the integers of `a` that are not in `b`.
#[verifier::external_body]
pub(crate) fn bm_sub(a: &RoaringBitmap, b: &RoaringBitmap) -> (r: RoaringBitmap)
    ensures
        bits(r) == bits(*a).difference(bits(*b)),
{
    a - b
}

/// `&a ^ &b`: the integers in exactly one of the two sets.
#[verifier::external_body]
pub(crate) fn bm_xor(a: &RoaringBitmap, b: &RoaringBitmap) -> (r: RoaringBitmap)
    ensures
        bits(r) == bits(*a).difference(bits(*b)).union(bits(*b).difference(bits(*a))),
{
    a ^ b
}

/// `a |= &b`: adds every integer of `b` to `a`.
#[verifier::external_body]
pub(crate) fn bm_or_assign(a: &mut RoaringBitmap, b: &RoaringBitmap)
    ensures
        bits(*final(a)) == bits(*old(a)).union(bits(*b)),
{
    *a |= b;
}

/// `a &= &b`: keeps in `a` only the integers that are also in `b`.
#[verifier::external_body]
pub(crate) fn bm_and_assign(a: &mut RoaringBitmap, b: &RoaringBitmap)
    ensures
        bits(*final(a)) == bits(*old(a)).intersect(bits(*b)),
{
    *a &= b;
}

/// `a -= &b`: takes every integer of `b` out of `a`.
#[verifier::external_body]
pub(crate) fn bm_sub_assign(a: &mut RoaringBitmap, b: &RoaringBitmap)
    ensures
        bits(*final(a)) == bits(*old(a)).difference(bits(*b)),
{
    *a -= b;
}

/// A bitmap holding exactly the given values.
pub fn bitmap_from_values(values: &[u32]) -> (r: RoaringBitmap)
    ensures
        bits(r) == values@.to_set(),
{
    let mut r = bm_new();
    let n = values.len();
    assert(values@.take(0).to_set() =~= Set::<u32>::empty());
    for i in 0..n
        invariant
            n == values@.len(),
            bits(r) == values@.take(i as int).to_set(),
    {
        let ghost done = values@.take(i as int);
        bm_insert(&mut r, values[i]);
        assert(values@.take(i + 1) =~= done.push(values@[i as int]));
        proof {
            done.lemma_push_to_set_commute(values@[i as int]);
        }
    }
    assert(values@.take(n as int) =~= values@);
    r
}

} // verus!
