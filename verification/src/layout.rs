//! The fixed layout of the bit space: its regions, reading a region out of a
//! bitmap, and widening bits within their region.
use vstd::prelude::*;
use roaring::RoaringBitmap;
use crate::bitset::{bits, bm_new, bm_values, bm_insert, bm_insert_range, bm_len, span_set, lemma_u32_set_bounded};

verus! {

pub const TOTAL_BITS: u32 = 32_000;

pub const REGION_0_FINGERPRINT: (u32, u32) = (0, 999);
pub const REGION_1_CONTENT: (u32, u32) = (1_000, 19_999);
pub const REGION_2_CONVERSATION_BP: (u32, u32) = (20_000, 20_999);
pub const REGION_3_CROSS_TURN: (u32, u32) = (21_000, 21_999);
pub const REGION_4_RESERVED: (u32, u32) = (22_000, 25_999);
pub const REGION_5_RESERVED: (u32, u32) = (26_000, 29_999);
pub const REGION_6_PIECE: (u32, u32) = (30_000, 31_999);

pub const ALL_REGIONS: [(&'static str, (u32, u32)); 7] = [
    ("fingerprint", REGION_0_FINGERPRINT),
    ("content", REGION_1_CONTENT),
    ("conversation_bp", REGION_2_CONVERSATION_BP),
    ("cross_turn", REGION_3_CROSS_TURN),
    ("reserved_a", REGION_4_RESERVED),
    ("reserved_b", REGION_5_RESERVED),
    ("piece", REGION_6_PIECE),
];

// Fingerprint sub-regions
pub const R0_GRAMMAR: (u32, u32) = (0, 127);
pub const R0_INTENT: (u32, u32) = (128, 255);
pub const R0_ENTITY: (u32, u32) = (256, 511);
pub const R0_EMOTIONAL: (u32, u32) = (512, 767);
pub const R0_STRUCTURAL: (u32, u32) = (768, 999);

// Region 6 sub-layout
pub const R6_TOKEN_MAP: (u32, u32) = (30_000, 30_999);
pub const R6_SEQUENCE: (u32, u32) = (31_000, 31_999);

// BP scale offsets within Region 2
pub const BP_SCALE_0: (u32, u32) = (20_000, 20_499);
pub const BP_SCALE_1: (u32, u32) = (20_500, 20_999);

/// Whether `x` lies between the two bounds of `span`, both included.
pub open spec fn in_span(x: u32, span: (u32, u32)) -> bool {
    span.0 <= x <= span.1
}

/// The region that holds `bit`, if any.
pub open spec fn region_of(bit: u32) -> Option<(u32, u32)> {
    if bit <= 999 {
        Some(REGION_0_FINGERPRINT)
    } else if bit <= 19_999 {
        Some(REGION_1_CONTENT)
    } else if bit <= 20_999 {
        Some(REGION_2_CONVERSATION_BP)
    } else if bit <= 21_999 {
        Some(REGION_3_CROSS_TURN)
    } else if bit <= 25_999 {
        Some(REGION_4_RESERVED)
    } else if bit <= 29_999 {
        Some(REGION_5_RESERVED)
    } else if bit <= 31_999 {
        Some(REGION_6_PIECE)
    } else {
        None
    }
}

fn region_for_bit(bit: u32) -> (r: Option<(u32, u32)>)
    ensures
        r == region_of(bit),
{
    let mut i: usize = 0;
    while i < 7
        invariant
            0 <= i <= 7,
            forall|j: int| 0 <= j < i ==> !in_span(bit, #[trigger] ALL_REGIONS@[j].1),
        decreases 7 - i,
    {
        let bounds = ALL_REGIONS[i].1;
        if bit >= bounds.0 && bit <= bounds.1 {
            return Some(bounds);
        }
        i = i + 1;
    }
    assert(!in_span(bit, ALL_REGIONS@[0].1) && !in_span(bit, ALL_REGIONS@[1].1)
        && !in_span(bit, ALL_REGIONS@[2].1) && !in_span(bit, ALL_REGIONS@[3].1)
        && !in_span(bit, ALL_REGIONS@[4].1) && !in_span(bit, ALL_REGIONS@[5].1)
        && !in_span(bit, ALL_REGIONS@[6].1));
    None
}

/// The integers of `s` that lie in `span`.
pub open spec fn restrict(s: Set<u32>, span: (u32, u32)) -> Set<u32> {
    s.filter(|x: u32| in_span(x, span))
}

/// The bits of `bitmap` that lie in `region`, bounds included.
pub fn read_region(bitmap: &RoaringBitmap, region: (u32, u32)) -> (r: RoaringBitmap)
    ensures
        bits(r) == restrict(bits(*bitmap), region),
{
    let mut result = bm_new();
    let values = bm_values(bitmap);
    let n = values.len();
    let mut i: usize = 0;
    loop
        invariant_except_break
            0 <= i <= n,
            n == values@.len(),
            forall|a: int, b: int| 0 <= a < b < values@.len() ==> values@[a] < values@[b],
            forall|x: u32| #[trigger] bits(result).contains(x)
                <==> (in_span(x, region) && values@.take(i as int).contains(x)),
        ensures
            forall|x: u32| #[trigger] bits(result).contains(x)
                <==> (in_span(x, region) && values@.contains(x)),
        decreases n - i,
    {
        if i >= n {
            assert(values@.take(n as int) =~= values@);
            break;
        }
        let bit = values[i];
        let ghost before = bits(result);
        if bit >= region.0 && bit <= region.1 {
            bm_insert(&mut result, bit);
        } else if bit > region.1 {
            assert forall|x: u32| in_span(x, region) && values@.contains(x)
                implies values@.take(i as int).contains(x) by {
                let k = choose|k: int| 0 <= k < values@.len() && values@[k] == x;
                if k >= i {
                    assert(values@[k] >= values@[i as int]);
                }
                assert(values@.take(i as int)[k] == x);
            }
            assert forall|x: u32| values@.take(i as int).contains(x) implies values@.contains(x) by {
                let k = choose|k: int| 0 <= k < i && values@.take(i as int)[k] == x;
                assert(values@[k] == x);
            }
            break;
        }
        let ghost t0 = values@.take(i as int);
        let ghost t1 = values@.take(i + 1);
        assert(t1 =~= t0.push(bit));
        assert forall|x: u32| t1.contains(x) <==> (t0.contains(x) || x == bit) by {
            if t1.contains(x) {
                let k = choose|k: int| 0 <= k < t1.len() && t1[k] == x;
                if k < t0.len() {
                    assert(t0[k] == x);
                }
            }
            if t0.contains(x) {
                let k = choose|k: int| 0 <= k < t0.len() && t0[k] == x;
                assert(t1[k] == x);
            }
            if x == bit {
                assert(t1[t0.len() as int] == x);
            }
        }
        i = i + 1;
    }
    assert(bits(result) =~= restrict(bits(*bitmap), region));
    result
}

/// How many bits of `bitmap` lie in `region`.
pub fn region_cardinality(bitmap: &RoaringBitmap, region: (u32, u32)) -> (r: u64)
    ensures
        r == restrict(bits(*bitmap), region).len(),
{
    bm_len(&read_region(bitmap, region))
}

/// Whether no bit of `bitmap` lies in `region`.
pub fn region_is_empty(bitmap: &RoaringBitmap, region: (u32, u32)) -> (r: bool)
    ensures
        r == (restrict(bits(*bitmap), region) == Set::<u32>::empty()),
{
    let c = region_cardinality(bitmap, region);
    proof {
        lemma_u32_set_bounded(restrict(bits(*bitmap), region));
        vstd::set_lib::lemma_set_empty_equivalency_len(restrict(bits(*bitmap), region));
    }
    c == 0
}

/// `floor(log2(n))` for `n >= 1`, and 0 for `n == 0`.
pub open spec fn floor_log2(n: nat) -> nat
    decreases n,
{
    if n < 2 {
        0
    } else {
        1 + floor_log2(n / 2)
    }
}

/// The dilation radius for a store of `store_size` memories: 3 below 100 memories,
/// then `3 - floor(log2(store_size / 100))`, never below 1.
pub open spec fn dilation_radius(store_size: nat) -> u32 {
    if store_size < 100 {
        3
    } else if floor_log2(store_size / 100) >= 2 {
        1
    } else {
        (3 - floor_log2(store_size / 100)) as u32
    }
}

pub fn adaptive_dilation_radius(store_size: usize) -> (r: u32)
    ensures
        r == dilation_radius(store_size as nat),
{
    if store_size < 100 {
        3
    } else {
        let mut q: usize = store_size / 100;
        let mut shift: u32 = 0;
        // Only whether the logarithm reaches 0, 1 or at least 2 matters to the radius.
        while q >= 2 && shift < 2
            invariant
                1 <= q,
                shift <= 2,
                shift + floor_log2(q as nat) == floor_log2((store_size / 100) as nat),
            decreases q,
        {
            q = q / 2;
            shift = shift + 1;
        }
        let r = 3u32.saturating_sub(shift);
        if r > 1 { r } else { 1 }
    }
}

/// Whether `x` lies within `radius` of `bit`.
pub open spec fn near(bit: u32, x: u32, radius: u32) -> bool {
    bit - radius <= x <= bit + radius
}

/// Whether `x` lies within `radius` of `bit` and in the same region as `bit`.
pub open spec fn near_in_region(bit: u32, x: u32, radius: u32) -> bool {
    &&& region_of(bit) matches Some(span)
    &&& in_span(x, span)
    &&& near(bit, x, radius)
}

/// Every integer within `radius` of some integer of `s`.
pub open spec fn dilated(s: Set<u32>, radius: u32) -> Set<u32> {
    Set::new(|x: u32| exists|b: u32| s.contains(b) && #[trigger] near(b, x, radius))
}

/// With a radius of 0, `s` itself; otherwise every integer within `radius` of an
/// integer of `s` that lies in a region, and in that same region.
pub open spec fn dilated_in_regions(s: Set<u32>, radius: u32) -> Set<u32> {
    if radius == 0 {
        s
    } else {
        Set::new(|x: u32| exists|b: u32| s.contains(b) && #[trigger] near_in_region(b, x, radius))
    }
}

/// Widens every bit of `bitmap` by `radius` on both sides, clipped to the bit's region;
/// bits outside every region are dropped (unless the radius is 0).
pub fn dilate_bounded(bitmap: &RoaringBitmap, radius: u32) -> (r: RoaringBitmap)
    requires
        radius == 0 || forall|b: u32| #[trigger] bits(*bitmap).contains(b) && b < TOTAL_BITS
            ==> b + radius <= u32::MAX,
    ensures
        bits(r) == dilated_in_regions(bits(*bitmap), radius),
{
    if radius == 0 {
        return bitmap.clone();
    }
    let mut result = bm_new();
    let values = bm_values(bitmap);
    let n = values.len();
    for i in 0..n
        invariant
            n == values@.len(),
            radius > 0,
            forall|b: u32| #[trigger] bits(*bitmap).contains(b) && b < TOTAL_BITS
                ==> b + radius <= u32::MAX,
            forall|x: u32| bits(*bitmap).contains(x) <==> values@.contains(x),
            forall|x: u32| #[trigger] bits(result).contains(x)
                <==> exists|k: int| 0 <= k < i && #[trigger] near_in_region(values@[k], x, radius),
    {
        let bit = values[i];
        let ghost before = bits(result);
        assert(values@.contains(bit));
        match region_for_bit(bit) {
            Some((r_start, r_end)) => {
                let s = bit.saturating_sub(radius);
                let lo = if r_start > s { r_start } else { s };
                let h = bit + radius;
                let hi = if r_end < h { r_end } else { h };
                bm_insert_range(&mut result, lo, hi);
                assert forall|x: u32| #[trigger] bits(result).contains(x)
                    <==> exists|k: int| 0 <= k < i + 1 && #[trigger] near_in_region(values@[k], x, radius) by {
                    if bits(result).contains(x) && !before.contains(x) {
                        assert(near_in_region(values@[i as int], x, radius));
                    }
                    if exists|k: int| 0 <= k < i + 1 && #[trigger] near_in_region(values@[k], x, radius) {
                        let k = choose|k: int| 0 <= k < i + 1 && #[trigger] near_in_region(values@[k], x, radius);
                        if k == i {
                            assert(span_set(lo, hi).contains(x));
                        }
                    }
                }
            },
            None => {
                assert forall|x: u32| #[trigger] bits(result).contains(x)
                    <==> exists|k: int| 0 <= k < i + 1 && #[trigger] near_in_region(values@[k], x, radius) by {
                    if exists|k: int| 0 <= k < i + 1 && #[trigger] near_in_region(values@[k], x, radius) {
                        let k = choose|k: int| 0 <= k < i + 1 && #[trigger] near_in_region(values@[k], x, radius);
                        assert(k != i);
                    }
                }
            },
        }
    }
    assert forall|x: u32| #[trigger] bits(result).contains(x)
        <==> dilated_in_regions(bits(*bitmap), radius).contains(x) by {
        if bits(result).contains(x) {
            let k = choose|k: int| 0 <= k < n && #[trigger] near_in_region(values@[k], x, radius);
            assert(bits(*bitmap).contains(values@[k]));
        }
        if dilated_in_regions(bits(*bitmap), radius).contains(x) {
            let b = choose|b: u32| bits(*bitmap).contains(b) && #[trigger] near_in_region(b, x, radius);
            let k = choose|k: int| 0 <= k < values@.len() && values@[k] == b;
            assert(near_in_region(values@[k], x, radius));
        }
    }
    assert(bits(result) =~= dilated_in_regions(bits(*bitmap), radius));
    result
}

/// Widens every bit of `bitmap` by `radius` on both sides, with no regard for regions.
pub fn dilate(bitmap: &RoaringBitmap, radius: u32) -> (r: RoaringBitmap)
    requires
        radius == 0 || forall|b: u32| #[trigger] bits(*bitmap).contains(b) ==> b + radius <= u32::MAX,
    ensures
        bits(r) == dilated(bits(*bitmap), radius),
{
    if radius == 0 {
        let r = bitmap.clone();
        assert forall|x: u32| #[trigger] bits(r).contains(x)
            <==> dilated(bits(*bitmap), radius).contains(x) by {
            if bits(r).contains(x) {
                assert(near(x, x, radius));
            }
        }
        assert(bits(r) =~= dilated(bits(*bitmap), radius));
        return r;
    }
    let mut result = bm_new();
    let values = bm_values(bitmap);
    let n = values.len();
    for i in 0..n
        invariant
            n == values@.len(),
            radius > 0,
            forall|b: u32| #[trigger] bits(*bitmap).contains(b) ==> b + radius <= u32::MAX,
            forall|x: u32| bits(*bitmap).contains(x) <==> values@.contains(x),
            forall|x: u32| #[trigger] bits(result).contains(x)
                <==> exists|k: int| 0 <= k < i && #[trigger] near(values@[k], x, radius),
    {
        let bit = values[i];
        let ghost before = bits(result);
        assert(values@.contains(bit));
        let lo = bit.saturating_sub(radius);
        let hi = bit + radius;
        bm_insert_range(&mut result, lo, hi);
        assert forall|x: u32| #[trigger] bits(result).contains(x)
            <==> exists|k: int| 0 <= k < i + 1 && #[trigger] near(values@[k], x, radius) by {
            if bits(result).contains(x) && !before.contains(x) {
                assert(near(values@[i as int], x, radius));
            }
            if exists|k: int| 0 <= k < i + 1 && #[trigger] near(values@[k], x, radius) {
                let k = choose|k: int| 0 <= k < i + 1 && #[trigger] near(values@[k], x, radius);
                if k == i {
                    assert(span_set(lo, hi).contains(x));
                }
            }
        }
    }
    assert forall|x: u32| #[trigger] bits(result).contains(x)
        <==> dilated(bits(*bitmap), radius).contains(x) by {
        if bits(result).contains(x) {
            let k = choose|k: int| 0 <= k < n && #[trigger] near(values@[k], x, radius);
            assert(bits(*bitmap).contains(values@[k]));
        }
        if dilated(bits(*bitmap), radius).contains(x) {
            let b = choose|b: u32| bits(*bitmap).contains(b) && #[trigger] near(b, x, radius);
            let k = choose|k: int| 0 <= k < values@.len() && values@[k] == b;
            assert(near(values@[k], x, radius));
        }
    }
    assert(bits(result) =~= dilated(bits(*bitmap), radius));
    result
}

/// The seven regions tile the bit space `[0, TOTAL_BITS)`: a bit lies in one of them
/// exactly when it is below `TOTAL_BITS`, it then lies in exactly one, and the
/// region sizes add up to `TOTAL_BITS`.
pub proof fn lemma_regions_partition()
    ensures
        forall|b: u32| (#[trigger] region_of(b)) is Some <==> b < TOTAL_BITS,
        forall|b: u32, i: int| 0 <= i < 7 ==>
            (#[trigger] in_span(b, ALL_REGIONS@[i].1) <==> region_of(b) == Some(ALL_REGIONS@[i].1)),
        forall|i: int, j: int| 0 <= i < j < 7 ==> ALL_REGIONS@[i].1.1 < ALL_REGIONS@[j].1.0,
        ALL_REGIONS@[0].1.0 == 0,
        forall|i: int| 0 <= i < 6 ==> #[trigger] ALL_REGIONS@[i].1.1 + 1 == ALL_REGIONS@[i + 1].1.0,
        ALL_REGIONS@[6].1.1 + 1 == TOTAL_BITS,
        (ALL_REGIONS@[0].1.1 - ALL_REGIONS@[0].1.0 + 1) + (ALL_REGIONS@[1].1.1 - ALL_REGIONS@[1].1.0 + 1)
            + (ALL_REGIONS@[2].1.1 - ALL_REGIONS@[2].1.0 + 1) + (ALL_REGIONS@[3].1.1 - ALL_REGIONS@[3].1.0 + 1)
            + (ALL_REGIONS@[4].1.1 - ALL_REGIONS@[4].1.0 + 1) + (ALL_REGIONS@[5].1.1 - ALL_REGIONS@[5].1.0 + 1)
            + (ALL_REGIONS@[6].1.1 - ALL_REGIONS@[6].1.0 + 1) == TOTAL_BITS,
{
}

/// The fingerprint sub-regions tile the fingerprint region, the two piece sub-layouts
/// tile the piece region, and the two scales tile the conversation region; each in order.
pub proof fn lemma_sublayouts_tile()
    ensures
        R0_GRAMMAR.0 == REGION_0_FINGERPRINT.0,
        R0_GRAMMAR.1 + 1 == R0_INTENT.0,
        R0_INTENT.1 + 1 == R0_ENTITY.0,
        R0_ENTITY.1 + 1 == R0_EMOTIONAL.0,
        R0_EMOTIONAL.1 + 1 == R0_STRUCTURAL.0,
        R0_STRUCTURAL.1 == REGION_0_FINGERPRINT.1,
        R6_TOKEN_MAP.0 == REGION_6_PIECE.0,
        R6_TOKEN_MAP.1 + 1 == R6_SEQUENCE.0,
        R6_SEQUENCE.1 == REGION_6_PIECE.1,
        BP_SCALE_0.0 == REGION_2_CONVERSATION_BP.0,
        BP_SCALE_0.1 + 1 == BP_SCALE_1.0,
        BP_SCALE_1.1 == REGION_2_CONVERSATION_BP.1,
{
}

proof fn lemma_floor_log2_monotone(a: nat, b: nat)
    requires
        a <= b,
    ensures
        floor_log2(a) <= floor_log2(b),
    decreases b,
{
    if a >= 2 {
        lemma_floor_log2_monotone(a / 2, b / 2);
    }
}

/// The dilation radius is 3 below 200 memories, 2 below 400 and 1 from then on; it
/// never grows as the store grows.
pub proof fn lemma_dilation_radius_shrinks(a: nat, b: nat)
    requires
        a <= b,
    ensures
        1 <= dilation_radius(b) <= dilation_radius(a) <= 3,
        a < 200 ==> dilation_radius(a) == 3,
        200 <= a < 400 ==> dilation_radius(a) == 2,
        400 <= a ==> dilation_radius(a) == 1,
{
    lemma_floor_log2_monotone(a / 100, b / 100);
    if a >= 200 {
        assert(floor_log2(a / 100) == 1 + floor_log2(a / 100 / 2));
        if a >= 400 {
            assert(floor_log2(a / 100 / 2) == 1 + floor_log2(a / 100 / 2 / 2));
        } else {
            assert(a / 100 / 2 < 2);
        }
    } else if a >= 100 {
        assert(a / 100 < 2);
    }
}

/// Dilation keeps every bit and adds only bits within the radius; a wider radius
/// reaches at least as far.
pub proof fn lemma_dilate_extensive_monotone(s: Set<u32>, r1: u32, r2: u32)
    requires
        r1 <= r2,
    ensures
        s.subset_of(dilated(s, r1)),
        dilated(s, r1).subset_of(dilated(s, r2)),
{
    assert forall|x: u32| s.contains(x) implies dilated(s, r1).contains(x) by {
        assert(near(x, x, r1));
    }
    assert forall|x: u32| dilated(s, r1).contains(x) implies dilated(s, r2).contains(x) by {
        let b = choose|b: u32| s.contains(b) && #[trigger] near(b, x, r1);
        assert(near(b, x, r2));
    }
}

/// Bounded dilation keeps every bit that lies in a region, never leaves the region of
/// the bit it widens, and adds nothing that unbounded dilation would not.
pub proof fn lemma_dilate_bounded_stays_in_region(s: Set<u32>, radius: u32, x: u32)
    requires
        radius > 0,
    ensures
        s.contains(x) && x < TOTAL_BITS ==> dilated_in_regions(s, radius).contains(x),
        dilated_in_regions(s, radius).contains(x) ==> exists|b: u32|
            #![trigger near(b, x, radius)]
            s.contains(b) && near(b, x, radius) && region_of(b) is Some && region_of(x) == region_of(b),
        dilated_in_regions(s, radius).subset_of(dilated(s, radius)),
{
    if s.contains(x) && x < TOTAL_BITS {
        assert(near_in_region(x, x, radius));
    }
    if dilated_in_regions(s, radius).contains(x) {
        let b = choose|b: u32| s.contains(b) && #[trigger] near_in_region(b, x, radius);
        assert(near(b, x, radius));
    }
    assert forall|y: u32| dilated_in_regions(s, radius).contains(y) implies dilated(s, radius).contains(y) by {
        let b = choose|b: u32| s.contains(b) && #[trigger] near_in_region(b, y, radius);
        assert(near(b, y, radius));
    }
}

} // verus!
