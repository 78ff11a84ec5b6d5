//! Phases, coherence classes and the bit taxonomy: a cloud of seven role bitmaps.
use vstd::prelude::*;
use roaring::RoaringBitmap;
use crate::bitset::{bits, bm_new, bm_contains, bm_insert, bm_remove, bm_or_assign};

verus! {

#[derive(Debug, Clone, Copy, PartialEq, Eq, Structural)]
pub enum Phase {
    Gas,
    Liquid,
    Crystal,
}

#[derive(Debug, Clone, Copy, PartialEq, Eq, Structural)]
pub enum Coherence {
    Tight,
    Moderate,
    Diffuse,
}

/// The gap between neighbouring doubles around `x`: 1 below 2^53, doubled for each
/// further binary digit of `x`.
pub open spec fn double_gap(x: nat) -> nat
    decreases x,
{
    if x < 0x20_0000_0000_0000 {
        1
    } else {
        2 * double_gap(x / 2)
    }
}

/// The double nearest to `x` (what `x as f64` gives): `x` rounded to the nearest
/// multiple of its gap, a value halfway between two going to the even multiple.
pub open spec fn nearest_double(x: nat) -> nat {
    let p = double_gap(x);
    let q = x / p;
    let r = x % p;
    if 2 * r > p || (2 * r == p && q % 2 == 1) {
        (q + 1) * p
    } else {
        q * p
    }
}

/// Whether the double nearest to the quotient `x / y` (`y > 0`) lies below `c`, a power
/// of two: just below `c` doubles lie `c * 2^-53` apart, and a quotient halfway between
/// the last of them and `c` goes to `c`, whose significand is even; so the double is
/// below `c` exactly when `x / y < c * (1 - 2^-54)`.
pub open spec fn double_quotient_below(x: nat, y: nat, c: nat) -> bool {
    x * 0x40_0000_0000_0000 < y * c * 0x3F_FFFF_FFFF_FFFF
}

/// The coherence class of the ratio `layer3 / layer0`, taken as the double quotient of
/// the two sizes as doubles: tight below 2, moderate below 4, diffuse otherwise and when
/// `layer0` is 0.
pub open spec fn coherence_of(layer3_size: u64, layer0_size: u64) -> Coherence {
    let x = nearest_double(layer3_size as nat);
    let y = nearest_double(layer0_size as nat);
    if layer0_size == 0 {
        Coherence::Diffuse
    } else if double_quotient_below(x, y, 2) {
        Coherence::Tight
    } else if double_quotient_below(x, y, 4) {
        Coherence::Moderate
    } else {
        Coherence::Diffuse
    }
}

/// The double nearest to `x`, as an integer; at most 2^65.
fn nearest_double_of(x: u64) -> (r: u128)
    ensures
        r == nearest_double(x as nat),
        r <= 0x2_0000_0000_0000_0000,
{
    let mut p: u64 = 1;
    let mut y: u64 = x;
    while y >= 0x20_0000_0000_0000
        invariant
            1 <= p <= 0x1000,
            y == x as nat / p as nat,
            double_gap(x as nat) == p * double_gap(y as nat),
        decreases y,
    {
        proof {
            vstd::arithmetic::div_mod::lemma_fundamental_div_mod(x as int, p as int);
            vstd::arithmetic::div_mod::lemma_mod_pos_bound(x as int, p as int);
            assert(p * 0x20_0000_0000_0000 <= p * y) by (nonlinear_arith)
                requires
                    y >= 0x20_0000_0000_0000,
            ;
            assert(p * y <= x);
            vstd::arithmetic::div_mod::lemma_div_denominator(x as int, p as int, 2);
            let g = double_gap((y / 2) as nat);
            assert(double_gap(y as nat) == 2 * g);
            assert(p * (2 * g) == (p * 2) * g) by (nonlinear_arith);
        }
        y = y / 2;
        p = p * 2;
    }
    let ghost g = double_gap(y as nat);
    assert(g == 1);
    assert(double_gap(x as nat) == p * g);
    assert(p * g == p) by (nonlinear_arith)
        requires
            g == 1,
    ;
    let r = x % p;
    let up = 2 * (r as u128) > p as u128 || (2 * (r as u128) == p as u128 && y % 2 == 1);
    let q: u128 = if up { y as u128 + 1 } else { y as u128 };
    assert(q * p <= 0x2_0000_0000_0000_0000) by (nonlinear_arith)
        requires
            q <= 0x20_0000_0000_0000,
            p <= 0x1000,
    ;
    q * (p as u128)
}

impl Coherence {
    /// Classifies the ratio of the two layer sizes as the double quotient of the sizes
    /// taken as doubles: the comparisons are made exactly, on integers, against the
    /// bounds at which that quotient rounds to 2 and to 4.
    pub fn from_ratio(layer3_size: u64, layer0_size: u64) -> (r: Self)
        ensures
            r == coherence_of(layer3_size, layer0_size),
    {
        if layer0_size == 0 {
            return Coherence::Diffuse;
        }
        let x = nearest_double_of(layer3_size);
        let y = nearest_double_of(layer0_size);
        let lhs = x * 0x40_0000_0000_0000;
        let rhs = y * 0x3F_FFFF_FFFF_FFFF;
        assert(y * 2 * 0x3F_FFFF_FFFF_FFFF == 2 * rhs && y * 4 * 0x3F_FFFF_FFFF_FFFF == 4 * rhs)
            by (nonlinear_arith)
            requires
                rhs == y * 0x3F_FFFF_FFFF_FFFF,
        ;
        if lhs < 2 * rhs {
            Coherence::Tight
        } else if lhs < 4 * rhs {
            Coherence::Moderate
        } else {
            Coherence::Diffuse
        }
    }
}

/// How loose a coherence class is: tight, then moderate, then diffuse.
pub open spec fn looseness(c: Coherence) -> int {
    match c {
        Coherence::Tight => 0,
        Coherence::Moderate => 1,
        Coherence::Diffuse => 2,
    }
}

/// A larger third layer over the same first layer never makes the class tighter.
pub proof fn lemma_coherence_monotone(a: u64, b: u64, layer0_size: u64)
    requires
        a <= b,
    ensures
        looseness(coherence_of(a, layer0_size)) <= looseness(coherence_of(b, layer0_size)),
{
    let x1 = nearest_double(a as nat);
    let x2 = nearest_double(b as nat);
    let y = nearest_double(layer0_size as nat);
    lemma_nearest_double_monotone(a as nat, b as nat);
    assert(x1 * 0x40_0000_0000_0000 <= x2 * 0x40_0000_0000_0000) by (nonlinear_arith)
        requires
            x1 <= x2,
    ;
}

/// Gaps grow with the number, by at least a factor of two when they change.
proof fn lemma_gap_monotone(a: nat, b: nat)
    requires
        a <= b,
    ensures
        1 <= double_gap(a) <= double_gap(b),
        double_gap(a) < double_gap(b) ==> 2 * double_gap(a) <= double_gap(b),
    decreases b,
{
    if b < 0x20_0000_0000_0000 {
    } else if a < 0x20_0000_0000_0000 {
        lemma_gap_monotone(0, b / 2);
    } else {
        lemma_gap_monotone(a / 2, b / 2);
    }
}

/// A number over its gap is below 2^53, and at least 2^52 once the gap exceeds 1.
proof fn lemma_gap_scale(x: nat)
    ensures
        double_gap(x) >= 1,
        x / double_gap(x) < 0x20_0000_0000_0000,
        double_gap(x) > 1 ==> x / double_gap(x) >= 0x10_0000_0000_0000,
    decreases x,
{
    if x >= 0x20_0000_0000_0000 {
        let h = x / 2;
        lemma_gap_scale(h);
        let g = double_gap(h);
        vstd::arithmetic::div_mod::lemma_div_denominator(x as int, 2, g as int);
        assert(x / double_gap(x) == h / g);
        if g == 1 {
            assert(h / g == h);
        }
    }
}

/// The nearest double lies between the multiples of the gap around the number.
proof fn lemma_nearest_double_bounds(x: nat)
    ensures
        (x / double_gap(x)) * double_gap(x) <= nearest_double(x),
        nearest_double(x) <= (x / double_gap(x) + 1) * double_gap(x),
        nearest_double(x) <= 0x20_0000_0000_0000 * double_gap(x),
        double_gap(x) > 1 ==> 0x10_0000_0000_0000 * double_gap(x) <= nearest_double(x),
{
    lemma_gap_scale(x);
    let p = double_gap(x);
    let q = x / p;
    assert(q * p <= (q + 1) * p) by (nonlinear_arith)
        requires
            p >= 1,
    ;
    assert((q + 1) * p <= 0x20_0000_0000_0000 * p) by (nonlinear_arith)
        requires
            q < 0x20_0000_0000_0000,
            p >= 1,
    ;
    if p > 1 {
        assert(0x10_0000_0000_0000 * p <= q * p) by (nonlinear_arith)
            requires
                q >= 0x10_0000_0000_0000,
    ;
    }
}

/// Rounding to the nearest double keeps the order of numbers.
proof fn lemma_nearest_double_monotone(a: nat, b: nat)
    requires
        a <= b,
    ensures
        nearest_double(a) <= nearest_double(b),
{
    lemma_gap_monotone(a, b);
    lemma_nearest_double_bounds(a);
    lemma_nearest_double_bounds(b);
    let pa = double_gap(a);
    let pb = double_gap(b);
    if pa == pb {
        let p = pa;
        let qa = a / p;
        let qb = b / p;
        vstd::arithmetic::div_mod::lemma_div_is_ordered(a as int, b as int, p as int);
        if qa < qb {
            assert((qa + 1) * p <= qb * p) by (nonlinear_arith)
                requires
                    qa + 1 <= qb,
                    p >= 1,
            ;
        } else {
            vstd::arithmetic::div_mod::lemma_fundamental_div_mod(a as int, p as int);
            vstd::arithmetic::div_mod::lemma_fundamental_div_mod(b as int, p as int);
            assert(a % p <= b % p);
        }
    } else {
        assert(0x20_0000_0000_0000 * pa <= 0x10_0000_0000_0000 * pb) by (nonlinear_arith)
            requires
                2 * pa <= pb,
        ;
    }
}

#[derive(Debug, Clone, Copy, PartialEq, Eq, Hash, Structural)]
pub enum BitRole {
    Sugar,
    Needy,
    Dirty,
    Holy,
    Pocket,
    Compleks,
    Death,
}

// Priority order for classify: Holy > Compleks > Pocket > Sugar > Needy > Dirty > Death
const CLASSIFY_ORDER: [BitRole; 7] = [
    BitRole::Holy,
    BitRole::Compleks,
    BitRole::Pocket,
    BitRole::Sugar,
    BitRole::Needy,
    BitRole::Dirty,
    BitRole::Death,
];

#[derive(Debug, Clone)]
pub struct BitCloud {
    pub sugar: RoaringBitmap,
    pub needy: RoaringBitmap,
    pub dirty: RoaringBitmap,
    pub holy: RoaringBitmap,
    pub pocket: RoaringBitmap,
    pub compleks: RoaringBitmap,
    pub death: RoaringBitmap,
}

/// The role of a position under the classification priority
/// Holy > Compleks > Pocket > Sugar > Needy > Dirty > Death.
pub open spec fn classify_spec(cloud: BitCloud, position: u32) -> Option<BitRole> {
    if cloud.role_bits(BitRole::Holy).contains(position) {
        Some(BitRole::Holy)
    } else if cloud.role_bits(BitRole::Compleks).contains(position) {
        Some(BitRole::Compleks)
    } else if cloud.role_bits(BitRole::Pocket).contains(position) {
        Some(BitRole::Pocket)
    } else if cloud.role_bits(BitRole::Sugar).contains(position) {
        Some(BitRole::Sugar)
    } else if cloud.role_bits(BitRole::Needy).contains(position) {
        Some(BitRole::Needy)
    } else if cloud.role_bits(BitRole::Dirty).contains(position) {
        Some(BitRole::Dirty)
    } else if cloud.role_bits(BitRole::Death).contains(position) {
        Some(BitRole::Death)
    } else {
        None
    }
}

/// The rank of a role in the classification priority, 0 for the highest:
/// Holy, Compleks, Pocket, Sugar, Needy, Dirty, Death.
pub open spec fn priority(role: BitRole) -> nat {
    match role {
        BitRole::Holy => 0,
        BitRole::Compleks => 1,
        BitRole::Pocket => 2,
        BitRole::Sugar => 3,
        BitRole::Needy => 4,
        BitRole::Dirty => 5,
        BitRole::Death => 6,
    }
}

/// A position is classified under a role that holds it and outranks every other role
/// that holds it; it is classified under none exactly when no role holds it. So a
/// position that the complex and pocket roles both hold, and the holy role does not,
/// is classified complex.
pub proof fn lemma_classify_priority(cloud: BitCloud, position: u32)
    ensures
        classify_spec(cloud, position) is None <==> forall|role: BitRole|
            !(#[trigger] cloud.role_bits(role)).contains(position),
        classify_spec(cloud, position) matches Some(r) ==> cloud.role_bits(r).contains(position),
        forall|role: BitRole|
            (#[trigger] cloud.role_bits(role)).contains(position) ==> (classify_spec(cloud, position) matches Some(
                r,
            ) && priority(r) <= priority(role)),
        forall|a: BitRole, b: BitRole| priority(a) == priority(b) ==> a == b,
        bits(cloud.compleks).contains(position) && bits(cloud.pocket).contains(position) && !bits(
            cloud.holy,
        ).contains(position) ==> classify_spec(cloud, position) == Some(BitRole::Compleks),
{
    assert forall|a: BitRole, b: BitRole| priority(a) == priority(b) implies a == b by {
        match a {
            BitRole::Holy => {},
            BitRole::Compleks => {},
            BitRole::Pocket => {},
            BitRole::Sugar => {},
            BitRole::Needy => {},
            BitRole::Dirty => {},
            BitRole::Death => {},
        }
    }
    assert forall|role: BitRole| (#[trigger] cloud.role_bits(role)).contains(position) implies (classify_spec(
        cloud,
        position,
    ) matches Some(r) && priority(r) <= priority(role)) by {
        match role {
            BitRole::Holy => {},
            BitRole::Compleks => {},
            BitRole::Pocket => {},
            BitRole::Sugar => {},
            BitRole::Needy => {},
            BitRole::Dirty => {},
            BitRole::Death => {},
        }
    }
    if classify_spec(cloud, position) is None {
        assert forall|role: BitRole| !(#[trigger] cloud.role_bits(role)).contains(position) by {
            match role {
                BitRole::Holy => {},
                BitRole::Compleks => {},
                BitRole::Pocket => {},
                BitRole::Sugar => {},
                BitRole::Needy => {},
                BitRole::Dirty => {},
                BitRole::Death => {},
            }
        }
    } else {
        let r = classify_spec(cloud, position)->0;
        assert(cloud.role_bits(r).contains(position));
    }
}

/// What the bits of `role` become when the positions of `moved` are promoted from
/// `from` to `to`: those of them that were in `from` leave it and join `to`.
pub open spec fn promoted_bits(
    cloud: BitCloud,
    moved: Set<u32>,
    from: BitRole,
    to: BitRole,
    role: BitRole,
) -> Set<u32> {
    if from == to {
        cloud.role_bits(role)
    } else if role == from {
        cloud.role_bits(from).difference(moved)
    } else if role == to {
        cloud.role_bits(to).union(cloud.role_bits(from).intersect(moved))
    } else {
        cloud.role_bits(role)
    }
}

impl BitCloud {
    /// The bits of one role.
    pub open spec fn role_bits(self, role: BitRole) -> Set<u32> {
        match role {
            BitRole::Sugar => bits(self.sugar),
            BitRole::Needy => bits(self.needy),
            BitRole::Dirty => bits(self.dirty),
            BitRole::Holy => bits(self.holy),
            BitRole::Pocket => bits(self.pocket),
            BitRole::Compleks => bits(self.compleks),
            BitRole::Death => bits(self.death),
        }
    }

    /// The bits of all seven roles together.
    pub open spec fn all_bits_spec(self) -> Set<u32> {
        bits(self.sugar).union(bits(self.needy)).union(bits(self.dirty)).union(bits(self.holy)).union(
            bits(self.pocket),
        ).union(bits(self.compleks)).union(bits(self.death))
    }

    pub fn empty() -> (r: Self)
        ensures
            forall|role: BitRole| #[trigger] r.role_bits(role) == Set::<u32>::empty(),
    {
        Self {
            sugar: bm_new(),
            needy: bm_new(),
            dirty: bm_new(),
            holy: bm_new(),
            pocket: bm_new(),
            compleks: bm_new(),
            death: bm_new(),
        }
    }

    pub fn all_bits(&self) -> (r: RoaringBitmap)
        ensures
            bits(r) == self.all_bits_spec(),
    {
        let mut u = self.sugar.clone();
        bm_or_assign(&mut u, &self.needy);
        bm_or_assign(&mut u, &self.dirty);
        bm_or_assign(&mut u, &self.holy);
        bm_or_assign(&mut u, &self.pocket);
        bm_or_assign(&mut u, &self.compleks);
        bm_or_assign(&mut u, &self.death);
        u
    }

    fn bitmap(&self, role: BitRole) -> (r: &RoaringBitmap)
        ensures
            bits(*r) == self.role_bits(role),
    {
        match role {
            BitRole::Sugar => &self.sugar,
            BitRole::Needy => &self.needy,
            BitRole::Dirty => &self.dirty,
            BitRole::Holy => &self.holy,
            BitRole::Pocket => &self.pocket,
            BitRole::Compleks => &self.compleks,
            BitRole::Death => &self.death,
        }
    }

    fn bitmap_mut(&mut self, role: BitRole) -> (r: &mut RoaringBitmap)
        ensures
            bits(*r) == old(self).role_bits(role),
            final(self).role_bits(role) == bits(*final(r)),
            forall|other: BitRole| other != role ==> #[trigger] final(self).role_bits(other)
                == old(self).role_bits(other),
    {
        match role {
            BitRole::Sugar => &mut self.sugar,
            BitRole::Needy => &mut self.needy,
            BitRole::Dirty => &mut self.dirty,
            BitRole::Holy => &mut self.holy,
            BitRole::Pocket => &mut self.pocket,
            BitRole::Compleks => &mut self.compleks,
            BitRole::Death => &mut self.death,
        }
    }

    /// The highest-priority role that holds `position`.
    pub fn classify(&self, position: u32) -> (r: Option<BitRole>)
        ensures
            r == classify_spec(*self, position),
    {
        let mut i: usize = 0;
        while i < 7
            invariant
                0 <= i <= 7,
                forall|j: int| 0 <= j < i ==> !self.role_bits(#[trigger] CLASSIFY_ORDER@[j]).contains(position),
            decreases 7 - i,
        {
            let role = CLASSIFY_ORDER[i];
            if bm_contains(self.bitmap(role), position) {
                return Some(role);
            }
            i = i + 1;
        }
        assert(!self.role_bits(CLASSIFY_ORDER@[0]).contains(position));
        assert(!self.role_bits(CLASSIFY_ORDER@[1]).contains(position));
        assert(!self.role_bits(CLASSIFY_ORDER@[2]).contains(position));
        assert(!self.role_bits(CLASSIFY_ORDER@[3]).contains(position));
        assert(!self.role_bits(CLASSIFY_ORDER@[4]).contains(position));
        assert(!self.role_bits(CLASSIFY_ORDER@[5]).contains(position));
        assert(!self.role_bits(CLASSIFY_ORDER@[6]).contains(position));
        None
    }

    /// Moves each of `positions` that `from` holds out of `from` and into `to`.
    pub fn promote(&mut self, positions: &[u32], from: BitRole, to: BitRole)
        ensures
            forall|role: BitRole| #[trigger] final(self).role_bits(role)
                == promoted_bits(*old(self), positions@.to_set(), from, to, role),
    {
        let n = positions.len();
        for i in 0..n
            invariant
                n == positions@.len(),
                forall|role: BitRole| #[trigger] self.role_bits(role)
                    == promoted_bits(*old(self), positions@.take(i as int).to_set(), from, to, role),
        {
            let pos = positions[i];
            let ghost before = *self;
            let ghost done = positions@.take(i as int).to_set();
            assert(positions@.take(i + 1) =~= positions@.take(i as int).push(pos));
            assert(positions@.take(i + 1).to_set() =~= done.insert(pos)) by {
                positions@.take(i as int).lemma_push_to_set_commute(pos);
            }
            if bm_contains(self.bitmap(from), pos) {
                bm_remove(self.bitmap_mut(from), pos);
                bm_insert(self.bitmap_mut(to), pos);
            }
            assert forall|role: BitRole| #[trigger] self.role_bits(role)
                =~= promoted_bits(*old(self), done.insert(pos), from, to, role) by {
            }
        }
        assert(positions@.take(n as int) =~= positions@);
    }
}

/// Promotion moves bits between roles and never creates or loses one: the union of
/// all roles is the same before and after.
pub proof fn lemma_promote_keeps_all_bits(
    before: BitCloud,
    after: BitCloud,
    moved: Set<u32>,
    from: BitRole,
    to: BitRole,
)
    requires
        forall|role: BitRole| #[trigger] after.role_bits(role) == promoted_bits(before, moved, from, to, role),
    ensures
        after.all_bits_spec() == before.all_bits_spec(),
{
    assert(after.role_bits(BitRole::Sugar) == bits(after.sugar));
    assert(after.role_bits(BitRole::Needy) == bits(after.needy));
    assert(after.role_bits(BitRole::Dirty) == bits(after.dirty));
    assert(after.role_bits(BitRole::Holy) == bits(after.holy));
    assert(after.role_bits(BitRole::Pocket) == bits(after.pocket));
    assert(after.role_bits(BitRole::Compleks) == bits(after.compleks));
    assert(after.role_bits(BitRole::Death) == bits(after.death));
    assert(after.all_bits_spec() =~= before.all_bits_spec());
}

/// After promoting positions between two different roles, none of them is left in
/// `from`, and each one that `from` held is now in `to`.
pub proof fn lemma_promote_moves(
    before: BitCloud,
    after: BitCloud,
    moved: Set<u32>,
    from: BitRole,
    to: BitRole,
    p: u32,
)
    requires
        forall|role: BitRole| #[trigger] after.role_bits(role) == promoted_bits(before, moved, from, to, role),
        from != to,
        moved.contains(p),
    ensures
        !after.role_bits(from).contains(p),
        before.role_bits(from).contains(p) ==> after.role_bits(to).contains(p),
{
    assert(after.role_bits(from) == promoted_bits(before, moved, from, to, from));
    assert(after.role_bits(to) == promoted_bits(before, moved, from, to, to));
}

} // verus!
